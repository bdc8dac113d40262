//! Offline packet dissection.

pub mod addr;
pub mod analysis;
pub mod bytes;
pub mod cli;
pub mod congestion;
pub mod dfilter;
pub mod dissect;
pub mod field;
pub mod grammar;
pub mod nvme;
pub mod ordering;
pub mod pcap;
pub mod pcapng;
pub mod pipeline;
pub mod print;
pub mod roce;
pub mod roundtrip;
pub mod text;
pub mod transport;
