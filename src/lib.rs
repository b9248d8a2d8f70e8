//! A RESP (Redis serialization protocol) codec, its command model and the
//! in-memory store that commands act on.
//!
//! Frames are modelled by the spec type [`Value`]. The encoder and the
//! streaming decoder are proved against the spec functions of `wire`; the
//! laws that tie them together are proof functions of `laws` and `cmd`.

mod frame;
mod number;
mod double;
mod buffer;
mod wire;
mod encode;
mod decode;
mod laws;
mod backend;
mod cmd;

pub use frame::{
    RespError, RespFrame, SimpleString, SimpleError, BulkString, RespArray, RespNull,
    RespNullArray, RespNullBulkString, RespMap, RespSet, Value, key_less,
};
pub use double::RespDouble;
pub use encode::RespEncoder;
pub use decode::{
    find_crlf, extract_simple_frame_data, parse_length, calc_total_length, decode_frame,
    decode_integer, decode_boolean,
};
pub use laws::{law_round_trip, law_partial_frame, law_pipelining, law_incremental_decode, law_decoded_map_sorted};
pub use backend::{Backend, StoreView};
pub use cmd::{
    CommandError, Command, CommandView, Unrecognized, Get, SetValue, HGet, HSet, HGetAll, resp_ok,
    validate_command, extract_args, law_get_after_set, law_hgetall, law_unrecognized,
};
