//! Local-network file-transfer rendezvous: advertise a service under a fixed
//! discovery namespace, browse for peers, merge repeated observations into one
//! record per service, rank the observed addresses by likely usability, and
//! hand a chosen endpoint to a transport for an encrypted byte-stream session.
//!
//! Everything here is pure logic over plain values; the surrounding binary
//! performs the mDNS and QUIC I/O and feeds the results through these
//! functions.

pub mod addr;
pub mod advertisement;
pub mod cli;
pub mod discover;
pub mod discovery;
pub mod find_services;
pub mod name_generator;
pub mod score_ip;
pub mod strings;
pub mod transport;

pub use discovery::FerryService;
pub use name_generator::get_random_name;
pub use transport::{Transport, TransportClient, TransportServer};
