//! A verified codec for a Redis-style serialization protocol (RESP): a
//! recursive message type, a parser that never over-reads a logical message,
//! an exact size calculator, a serializer that is a proven inverse of the
//! parser on well-formed messages, and a stream adapter over `bytes::BytesMut`.

pub mod bytebuf;
pub mod codec;
pub mod digits;
pub mod laws;
pub mod model;
pub mod parsing;
pub mod resp;
pub mod writing;

pub use digits::digits_of;
pub use model::BYTE_CR;
pub use model::BYTE_LF;
pub use model::RESP_ARRAY;
pub use model::RESP_BULK;
pub use model::RESP_ERROR;
pub use model::RESP_INT;
pub use model::RESP_STRING;
pub use model::SLOTS_COUNT;
pub use model::SpecMsg;
pub use parsing::spec_parse;
pub use parsing::parse_post;
pub use resp::AsResult;
pub use resp::Resp;
pub use resp::RespError;
pub use resp::RespType;
pub use codec::RespCodec;
pub use bytebuf::buf_bytes;
pub use model::encoding;
pub use resp::valid_resp;
