//! Writing of content-addressed archives (CAR v1): content identifiers over
//! raw blocks, the length-prefixed header record, block frames, and an
//! encoder that appends frames in the order in which blocks arrive.

pub mod archive;
pub mod bytes;
pub mod cid;
pub mod encoder;
pub mod error;
pub mod frame;
pub mod header;
pub mod varint;
