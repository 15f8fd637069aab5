use vstd::prelude::*;

verus! {

/// Every way an encode or decode step can fail.
#[derive(Debug, PartialEq, Eq, Clone)]
pub enum Error {
    /// A bit-field width outside `1..=8`.
    BitsWidth(u8),
    /// A bit-field write that does not fit in what is left of the byte.
    BitsWrite { offset: u8, width: u8 },
    /// A bit-field read that does not fit in what is left of the byte.
    BitsRead { offset: u8, width: u8 },
    /// A read of `read_len` bytes at `offset` from a buffer of `buf_len` bytes.
    Read { offset: usize, read_len: usize, buf_len: usize },
    /// The bytes of a label are not valid UTF-8.
    DecodeUtf8,
    /// A label longer than the 63 bytes that a length byte can carry.
    LabelTooLong(usize),
    /// A failure described in words.
    Custom(String),
}

} // verus!
