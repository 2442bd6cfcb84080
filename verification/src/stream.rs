//! What comes of reading a stream and of writing to it. This crate never touches a stream itself:
//! it says how many bytes it can take or what is to be written, and is told what that gave.
use vstd::prelude::*;

verus! {

/// What an attempt to read a stream gave.
#[derive(Debug)]
pub enum StreamRead {
    /// These bytes.
    Data(Vec<u8>),
    /// Nothing yet.
    WouldBlock,
    /// The end of the stream.
    Eof,
    /// An error of another kind.
    Failed,
}

/// What a [`StreamRead`] stands for.
pub enum ReadView {
    Data(Seq<u8>),
    WouldBlock,
    Eof,
    Failed,
}

impl View for StreamRead {
    type V = ReadView;

    open spec fn view(&self) -> ReadView {
        match *self {
            StreamRead::Data(bytes) => ReadView::Data(bytes@),
            StreamRead::WouldBlock => ReadView::WouldBlock,
            StreamRead::Eof => ReadView::Eof,
            StreamRead::Failed => ReadView::Failed,
        }
    }
}

/// Why bytes could not be written out.
#[derive(Debug, PartialEq, Eq)]
pub enum IOError {
    /// The other side has closed the stream.
    EOF { temporary: bool },
    /// The stream takes no more.
    WouldBlock,
    /// An error of another kind.
    Other(String),
}

/// The view of an optional attempt.
pub open spec fn read_view(read: Option<StreamRead>) -> Option<ReadView> {
    match read {
        Some(r) => Some(r@),
        None => None,
    }
}

/// Whether `room` bytes of room suffice for what was read.
pub open spec fn read_fits(read: Option<ReadView>, room: int) -> bool {
    read matches Some(ReadView::Data(bytes)) ==> bytes.len() <= room
}

/// The view of an optional text.
pub open spec fn text_view(text: Option<String>) -> Option<Seq<char>> {
    match text {
        Some(t) => Some(t@),
        None => None,
    }
}

} // verus!
