//! Queues of byte chunks and of text chunks, with their iterators.

pub mod byte_iter;
pub mod byte_queue;
pub mod chunk_iter;
pub mod drain;
pub mod linked_iter;
pub mod split;

pub use byte_iter::{ByteIter, OwnedByteIter};
pub use byte_queue::ByteQueue;
pub use chunk_iter::ChunkIter;
pub use drain::DrainBytes;
pub use linked_iter::LinkedIter;
pub use split::SplitOn;
pub mod char_iter;
pub mod string_queue;

pub use char_iter::{CharIndecies, CharIter, DrainChars, OwnedCharIter};
pub use string_queue::{LinkedStrIter, SplitOnStr, StrChunkIter, StringQueue};
