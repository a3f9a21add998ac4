//! Decoding of a byte-stuffed, checksummed serial protocol: framing of a
//! growing byte stream and schema-driven interpretation of payloads.

pub mod checksum;
pub mod cobs;
pub mod endian;
pub mod frame;
pub mod parsing;
pub mod ring_buffer;
pub mod search;

pub use checksum::checksum;
pub use cobs::cobs_decode;
pub use frame::{parse_bytes_raw, process_buffer, RawMessage};
pub use parsing::{
    decode_params, initialize_parser_maps, parse_device_data, DecodeError, Device, ParamType,
    ParamValue, Parameter, Registry,
};
pub use ring_buffer::RingBuffer;
