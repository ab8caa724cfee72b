//! Infers a JSON Schema from semi-structured records: text cells are
//! classified into literals, records are normalised into trees, trees are
//! reduced into one structural descriptor by an associative merge, and the
//! descriptor is emitted as a JSON Schema value.
pub mod codegen;
pub mod data;
pub mod field;
pub mod filetype;
pub mod input;
pub mod laws;
pub mod literal;
pub mod schema;
pub mod text;

pub use codegen::{CodegenOptions, Generation, JsonSchema, JsonValue};
pub use data::DataValues;
pub use field::FieldState;
pub use filetype::{CsvError, CsvFileType, CsvOptions, Filetype};
pub use input::{Cli, InputData};
pub use literal::Literals;
pub use schema::{crunch_schemas, ObjectProperty, Subschema, SubschemaTypes};
