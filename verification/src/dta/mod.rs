//! The DTA song-entry format and the metadata it carries.
pub mod types;
pub mod parser;
pub mod serializer;
pub mod validator;
pub mod read_back;
