//! A small reader for a line-oriented configuration dialect: brace-delimited
//! blocks of `key = value` assignments become a tree of tagged values that
//! can be searched by key.

pub mod error;
pub mod grammar;
pub mod laws;
pub mod number;
pub mod parser;
pub mod query;
pub mod text;
pub mod value;

pub use error::SyntaxError;
pub use parser::parse_object;
pub use parser::parse_pkl_inner_object;
pub use parser::parse_pkl_text;
pub use parser::parse_value;
pub use query::find_parameter;
pub use query::report_parameter;
pub use value::PklValue;
