//! Verified core of the KVSpace key-value store: paths, coordinates and the XValue wire format.

pub mod consts;
pub mod text;
pub mod le;
pub mod codec;
pub mod coord;
pub mod xvalue;
pub mod xvalue_index;
pub mod xvalue_int;
pub mod xvalue_uint;
pub mod xvalue_float;
pub mod xvalue_byte;
pub mod xvalue_bool;
pub mod xvalue_duration;
pub mod xvalue_time;
pub mod xvalue_rwir;
pub mod xvalue_text;
pub mod xvalue_obj;
pub mod xvalue_codec;
pub mod xvalue_laws;
pub mod kvspace_common;
pub mod store;
pub mod backend;
pub mod fs_layout;
pub mod abi_codec;
pub mod cli_value;
pub mod watch;
pub mod resp;
pub mod tree_layout;
