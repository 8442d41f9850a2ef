//! The decisions of a dynamic TCP load balancer.

pub mod addr;
pub mod backend;
pub mod connection;
pub mod consistency;
pub mod event_loop;
pub mod events;
pub mod ipv4;
pub mod ipv6;
pub mod laws;
pub mod model;
pub mod operations;
pub mod options;
pub mod relay;
pub mod rotation;
pub mod rounds;
pub mod simplelogger;
pub mod slab;
pub mod steps;
pub mod sync;
pub mod tcplb;
pub mod text;
pub mod waiting;
