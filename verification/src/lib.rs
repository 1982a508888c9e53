//! Byte containers that can be static, borrowed or shared, with verified
//! slicing, splitting and queueing operations.

pub mod arbitrary_values;
pub mod body;
pub mod byte_chunk;
pub mod byte_string_render;
pub mod bytedata;
pub mod bytes_interop;
pub mod char_indices;
pub mod external;
pub mod interning;
pub mod io;
pub mod laws;
pub mod ordering;
pub mod parser_input;
pub mod queue;
pub mod shared_bytes;
pub mod shared_bytes_builder;
pub mod shared_str_builder;
pub mod slices;
pub mod stringdata;

pub use byte_chunk::ByteChunk;
pub use byte_string_render::{ByteStringRender, MultiByteStringRender};
pub use bytedata::ByteData;
pub use char_indices::{Utf8CharError, Utf8CharIndices};
pub use queue::{ByteQueue, StringQueue};
pub use shared_bytes::SharedBytes;
pub use shared_bytes_builder::SharedBytesBuilder;
pub use shared_str_builder::SharedStrBuilder;
pub use slices::{
    build_const_bytes, const_ends_with, const_eq, const_find_bytes, const_or_bytes, const_or_str,
    const_slice, const_slice_str, const_split_once_byte, const_split_once_bytes,
    const_split_once_str, const_starts_with, StrSliceResult,
};
pub use stringdata::StringData;
