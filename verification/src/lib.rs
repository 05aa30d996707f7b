//! A virtual, contiguous, seekable byte stream over an ordered collection of
//! independent random-access byte sources: a consumer reads and seeks against
//! the collection exactly as it would against one resource, and the collection
//! routes every operation to whichever source covers the requested position.

pub mod model;
pub mod reader;
pub mod source;

pub use reader::StreamReaders;
pub use source::BytesReader;
pub use source::SeekFrom;
pub use source::Source;
pub use source::StreamError;
