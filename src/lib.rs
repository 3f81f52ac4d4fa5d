//! A codec for the IPLD data model over DAG-CBOR and CAR v1.
//!
//! The decoder, the canonical encoder and the CAR demultiplexer are verified against
//! the specifications in `decode`, `encode` and `car`; `laws` proves the round-trip
//! properties that tie them together.

pub mod car;
pub mod cbor;
pub mod cid_link;
pub mod decode;
pub mod encode;
pub mod error;
pub mod laws;
pub mod multiformats;
pub mod order;
pub mod permutation;
pub mod value;
pub mod writer;

pub use car::{decode_car, read_u64_leb128};
pub use decode::{decode_dag_cbor, decode_dag_cbor_multi, decode_dag_cbor_with_limit, DEFAULT_MAX_DEPTH};
pub use encode::{encode_dag_cbor, encode_dag_cbor_bytes_as_links};
pub use error::{Error, ErrorKind};
pub use multiformats::{
    decode_cid, decode_cid_text, decode_multibase, encode_cid, encode_cid_text, encode_multibase, CidInfo,
};
pub use value::{Data, Value};
pub use writer::BufWriter;
