//! Network sockets for an embedded script engine: endpoint parsing and the
//! sizing of bounded reads, with the socket calls themselves left to the host.
pub mod addr;
pub mod connect;
pub mod error;
pub mod read;
pub mod text;

pub use addr::{addr, addr_with_port, is_ipv4, is_ipv6, port, Endpoint, IpAddress};
pub use connect::timeout_millis;
pub use error::NetError;
pub use read::{
    blob_read_plan, convert_to_int, finish_blob_read, finish_text_read, read_buffer, read_plan,
    text_read_plan, ReadPlan,
};
