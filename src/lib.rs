pub mod error;
pub mod laws;
pub mod number;
pub mod parser;
pub mod printer;
pub mod scan;
pub mod string_lit;
mod text;
pub mod value;

pub use error::{DecodeProblem, Expected, JsonError};
pub use printer::prettier_json;
pub use value::{JsonNumber, JsonValue};
pub use parser::{parse_json_file, JSONParser};
