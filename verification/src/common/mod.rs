pub mod encode;
pub mod error;
pub mod list;
pub mod mark;
pub mod parser;
pub mod scan;
pub mod text;

pub use encode::{EncodeLen, EncodeWithWriter, Encoder};
pub use error::{Error, NumberError};
pub use parser::{ParseIter, Parser, Remaining};
