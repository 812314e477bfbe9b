//! Nameserver identities: a name, an IPv4 address, an IPv6 address, or
//! several of these.
use vstd::prelude::*;

use crate::name::Name;

verus! {

/// An IP address as its octets.
#[derive(Debug, Copy, Clone)]
pub enum IpAddress {
    V4([u8; 4]),
    V6([u8; 16]),
}

/// What a host holds: its name's text and its addresses' octets.
pub type HostView = (Option<Seq<char>>, Option<Seq<u8>>, Option<Seq<u8>>);

pub open spec fn opt_name_view(n: Option<Name>) -> Option<Seq<char>> {
    match n {
        Some(x) => Some(x@),
        None => None,
    }
}

pub open spec fn opt_v4_view(a: Option<[u8; 4]>) -> Option<Seq<u8>> {
    match a {
        Some(x) => Some(x@),
        None => None,
    }
}

pub open spec fn opt_v6_view(a: Option<[u8; 16]>) -> Option<Seq<u8>> {
    match a {
        Some(x) => Some(x@),
        None => None,
    }
}

/// A nameserver: at least one of a name and two addresses is set. It is
/// resolved when it has an address.
#[derive(Debug)]
pub struct Host {
    name: Option<Name>,
    ipv4: Option<[u8; 4]>,
    ipv6: Option<[u8; 16]>,
}

impl View for Host {
    type V = HostView;

    closed spec fn view(&self) -> HostView {
        (opt_name_view(self.name), opt_v4_view(self.ipv4), opt_v6_view(self.ipv6))
    }
}

/// Whether a host has an address.
pub open spec fn is_resolved(h: HostView) -> bool {
    h.1 is Some || h.2 is Some
}

impl Host {
    #[verifier::type_invariant]
    spec fn inv(self) -> bool {
        self.name is Some || self.ipv4 is Some || self.ipv6 is Some
    }

    /// A host from what is known of it; none when nothing is.
    pub fn new(name: Option<Name>, ipv4: Option<[u8; 4]>, ipv6: Option<[u8; 16]>) -> (r: Option<Host>)
        ensures
            (name is None && ipv4 is None && ipv6 is None) <==> r is None,
            r matches Some(h) ==> h@ == (opt_name_view(name), opt_v4_view(ipv4), opt_v6_view(ipv6)),
    {
        if name.is_none() && ipv4.is_none() && ipv6.is_none() {
            None
        } else {
            Some(Host { name, ipv4, ipv6 })
        }
    }

    /// A host known by name only.
    pub fn from_name(name: Name) -> (r: Host)
        ensures
            r@ == (Some(name@), None::<Seq<u8>>, None::<Seq<u8>>),
    {
        Host { name: Some(name), ipv4: None, ipv6: None }
    }

    /// A host known by its IPv4 address only.
    pub fn from_ipv4(ip: [u8; 4]) -> (r: Host)
        ensures
            r@ == (None::<Seq<char>>, Some(ip@), None::<Seq<u8>>),
    {
        Host { name: None, ipv4: Some(ip), ipv6: None }
    }

    /// A host known by its IPv6 address only.
    pub fn from_ipv6(ip: [u8; 16]) -> (r: Host)
        ensures
            r@ == (None::<Seq<char>>, None::<Seq<u8>>, Some(ip@)),
    {
        Host { name: None, ipv4: None, ipv6: Some(ip) }
    }

    /// Whether two hosts have the same name and addresses.
    pub fn same_as(&self, other: &Host) -> (r: bool)
        ensures
            r == (self@ == other@),
    {
        let names = match (&self.name, &other.name) {
            (Some(a), Some(b)) => a == b,
            (None, None) => true,
            _ => false,
        };
        let v4 = match (&self.ipv4, &other.ipv4) {
            (Some(a), Some(b)) => crate::rdata::bytes_equal(a.as_slice(), b.as_slice()),
            (None, None) => true,
            _ => false,
        };
        let v6 = match (&self.ipv6, &other.ipv6) {
            (Some(a), Some(b)) => crate::rdata::bytes_equal(a.as_slice(), b.as_slice()),
            (None, None) => true,
            _ => false,
        };
        names && v4 && v6
    }

    pub fn name(&self) -> (r: &Option<Name>)
        ensures
            opt_name_view(*r) == self@.0,
    {
        &self.name
    }

    pub fn resolved(&self) -> (r: bool)
        ensures
            r == is_resolved(self@),
    {
        self.ipv4.is_some() || self.ipv6.is_some()
    }

    /// The address to query: the IPv4 one when there is one.
    pub fn get_ip(&self) -> (r: Option<IpAddress>)
        ensures
            r matches Some(IpAddress::V4(a)) ==> self@.1 == Some(a@),
            r matches Some(IpAddress::V6(a)) ==> self@.1 is None && self@.2 == Some(a@),
            r is None <==> !is_resolved(self@),
    {
        match self.ipv4 {
            Some(a) => Some(IpAddress::V4(a)),
            None => match self.ipv6 {
                Some(a) => Some(IpAddress::V6(a)),
                None => None,
            },
        }
    }
}

impl Clone for Host {
    fn clone(&self) -> (r: Self)
        ensures
            r@ == self@,
    {
        proof {
            use_type_invariant(self);
        }
        let name = match &self.name {
            Some(n) => Some(n.clone()),
            None => None,
        };
        Host { name, ipv4: self.ipv4, ipv6: self.ipv6 }
    }
}

} // verus!
