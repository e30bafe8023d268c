//! Core logic of a point-to-multipoint layer-3 VPN: a virtual-address
//! allocator over an arbitrary subnet mask, the length-prefixed packet
//! codec, the session configuration frame, destination-based packet
//! routing with address leases, and the reuniting of split streams.

pub mod config;
pub mod ip_manager;
pub mod packet_stream;
pub mod protocol;
pub mod routing;
pub mod unsplit;
