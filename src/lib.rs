//! An iterative DNS resolver: the wire codec, the record cache, the
//! nameserver priority queue and the resolution state machine.
use vstd::prelude::*;

pub mod error;
pub mod wire;
pub mod header;
pub mod name;
pub mod question;
pub mod rdata;
pub mod record;
pub mod message;
pub mod cache;
pub mod host;
pub mod ns_queue;
pub mod resolver;
pub mod dispatch;
pub mod typed;
pub mod record_type;

pub use error::DnsError;
pub use header::{Flags, Header};
pub use name::Name;
pub use question::Question;
pub use rdata::RecordData;
pub use record::ResourceRecord;
pub use message::Message;
pub use cache::Cache;
pub use host::{Host, IpAddress};
pub use ns_queue::NsQueue;
pub use record_type::RecordType;
pub use resolver::{Action, Event, Resolution};
pub use dispatch::{build_response, screen_request, Screening};
pub use header::set_response_flags;
pub use typed::{AData, CNameData};

verus! {

} // verus!
