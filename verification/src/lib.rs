//! Discovery of local-network devices from the text that the system ARP
//! utility prints.
//!
//! The library parses that text into device records (an IPv4 address and,
//! when known, a hardware address), keeps only private-range addresses,
//! and returns them sorted by numeric address value. Running the utility
//! and relaying HTTP requests are the host program's work; the library is
//! handed plain text and returns plain records.

pub mod arp;
pub mod http;
pub mod ip;
pub mod text;

pub use arp::{
    parse_arp_line, parse_unix_arp_line, parse_windows_arp_line, scan_devices, sort_devices,
    NetworkDevice, Platform,
};
pub use http::HttpResponse;
pub use ip::{is_private_ip, parse_ipv4};
