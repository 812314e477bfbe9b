use vstd::prelude::*;

verus! {

/// The kinds of failure that resolution and the wire codec report.
#[derive(Debug)]
pub enum DnsError {
    /// Malformed wire data (RCODE 1).
    FormatError,
    /// Resolution could not complete (RCODE 2).
    ServerFailure(String),
    /// Authoritative denial of a name (RCODE 3).
    NameError,
    /// A request or record the server does not handle (RCODE 4).
    NotImplemented,
    /// Reserved for policy rejection (RCODE 5).
    Refused,
}

impl DnsError {
    /// The response code that reports this error to a client.
    pub open spec fn rcode_spec(&self) -> u8 {
        match self {
            DnsError::FormatError => 1,
            DnsError::ServerFailure(_) => 2,
            DnsError::NameError => 3,
            DnsError::NotImplemented => 4,
            DnsError::Refused => 5,
        }
    }

    pub fn rcode(&self) -> (r: u8)
        ensures
            r == self.rcode_spec(),
    {
        match self {
            DnsError::FormatError => 1,
            DnsError::ServerFailure(_) => 2,
            DnsError::NameError => 3,
            DnsError::NotImplemented => 4,
            DnsError::Refused => 5,
        }
    }
}

} // verus!
