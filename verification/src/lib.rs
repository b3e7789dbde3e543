//! IPv4 CIDR blocks: parsing, address arithmetic and textual rendering.
//!
//! A block is a 32-bit address with a netmask. [`CIDR::from_string`] reads
//! one from a text such as `192.168.1.0/24`; the methods of [`CIDR`] derive
//! the network, the broadcast address and the host range from it and write
//! addresses down in several notations; [`run`] puts both together into what
//! a command-line calculator prints.

pub mod address;
pub mod cidr;
pub mod decimal;
pub mod mask;
pub mod parse;
pub mod report;

pub use cidr::{CidrView, CIDR};
pub use parse::CidrError;
pub use report::run;
