//! Byte-level formats (PNG, Ethernet, HTTP/1.1, IPv4, pcap) described as
//! grammars, with verified parsers, serializers and decode callbacks.

pub mod fields;
pub mod helper;
pub mod ethernet_frame;
pub mod pcap;
pub mod ipv4;
pub mod http;
pub mod png;
