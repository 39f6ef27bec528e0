pub mod wire;
pub mod nlink;
pub mod small_vec;
pub mod payload;

pub use payload::{pack_payload, unpack_payload, PAYLOAD_HEADER_SIZE, SYNC0, SYNC1};
pub use small_vec::{SmallVec, SmallVecIntoIter};
pub mod bidi;
pub mod device;
pub mod interactive;
pub mod protocol;
pub mod session;
pub mod tracker;
