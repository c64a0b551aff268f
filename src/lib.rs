use vstd::prelude::*;

pub mod decode;
pub mod encode;
pub mod error;
pub mod header;
pub mod kind;
pub mod navigate;
pub mod value;
pub mod varint;

pub use decode::decode;
pub use encode::encode;
pub use error::Error;
pub use header::{pack_header, unpack_header, Header, MAX_LEN};
pub use kind::{Type, Typed};
pub use navigate::{find_key, iterate_array, iterate_object, skip_value, value_at};
pub use value::Value;
pub use varint::{decode_varint, encode_varint};
