//! The walker-facing surface: the parser under its walker name, with the
//! types a caller needs beside it.

pub use crate::Error;
pub use crate::ErrorKind;
pub use crate::Fault;
pub use crate::FaultKind;
pub use crate::parser_core::Parser;
pub use crate::parser_core::Parser as JsonWalker;
pub use crate::source::ByteSource;
pub use crate::source::StringReader;
pub use crate::types::Content;
pub use crate::types::CurrentState;
pub use crate::types::Item;
pub use crate::types::PathItem;
pub use crate::types::TextItem;
pub use crate::types::ValueType;
