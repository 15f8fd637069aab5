pub mod bits;
pub mod encoder;
pub mod error;
pub mod name;
pub mod proto;
pub mod reply;
pub mod round_trip;
pub mod truncation;

pub use bits::{BitDecoder, BitEncoder};
pub use encoder::{Decoder, Encoder};
pub use error::Error;
pub use proto::{Class, Message, Name, Question, Record, Type};
