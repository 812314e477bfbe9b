//! Record bodies read on their own, without the message around them.
use vstd::prelude::*;
use vstd::slice::slice_to_vec;
use vstd::utf8::{decode_utf8, encode_utf8, valid_utf8};

use crate::error::DnsError;
use crate::name::utf8_string;

verus! {

/// The body of an A record: an IPv4 address.
#[derive(Debug)]
pub struct AData(pub [u8; 4]);

impl AData {
    /// The address in the first four octets; fewer than four are refused.
    pub fn from_data(bytes: &[u8]) -> (r: Result<AData, DnsError>)
        ensures
            bytes@.len() >= 4 ==> (r matches Ok(a) && a.0@ == bytes@.subrange(0, 4)),
            bytes@.len() < 4 ==> (r matches Err(e) && e == DnsError::FormatError),
    {
        if bytes.len() < 4 {
            return Err(DnsError::FormatError);
        }
        let a: [u8; 4] = [bytes[0], bytes[1], bytes[2], bytes[3]];
        assert(a@ =~= bytes@.subrange(0, 4));
        Ok(AData(a))
    }

    pub fn to_data(&self) -> (r: Vec<u8>)
        ensures
            r@ == self.0@,
    {
        slice_to_vec(self.0.as_slice())
    }
}

/// The body of a CNAME record, as the text of the alias's target.
#[derive(Debug)]
pub struct CNameData(pub String);

impl CNameData {
    /// The text that the octets encode; octets that are not UTF-8 are refused.
    pub fn from_data(bytes: &[u8]) -> (r: Result<CNameData, DnsError>)
        ensures
            valid_utf8(bytes@) ==> (r matches Ok(c) && c.0@ == decode_utf8(bytes@)),
            !valid_utf8(bytes@) ==> (r matches Err(e) && e == DnsError::FormatError),
    {
        match utf8_string(slice_to_vec(bytes)) {
            Some(s) => Ok(CNameData(s)),
            None => Err(DnsError::FormatError),
        }
    }

    pub fn to_data(&self) -> (r: Vec<u8>)
        ensures
            r@ == encode_utf8(self.0@),
    {
        slice_to_vec(self.0.as_str().as_bytes())
    }

    pub fn as_str(&self) -> (r: &str)
        ensures
            r@ == self.0@,
    {
        self.0.as_str()
    }
}

} // verus!
