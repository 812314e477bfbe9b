//! A question: the name, type and class being asked about.
use vstd::prelude::*;
use vstd::utf8::encode_utf8;

use crate::error::DnsError;
use crate::name::{parse_name, text_wire, Name};
use crate::record_type::{type_code, type_of_code, RecordType};
use crate::wire::{get_u16, put_u16, u16_at, u16_bytes};

verus! {

/// The longest name text, in octets, that a question accepts.
pub const MAX_NAME_OCTETS: usize = 253;

#[derive(Debug)]
pub struct Question {
    pub name: Name,
    pub type_: RecordType,
    pub class: u16,
}

impl View for Question {
    type V = (Seq<char>, RecordType, u16);

    open spec fn view(&self) -> (Seq<char>, RecordType, u16) {
        (self.name@, self.type_, self.class)
    }
}

/// The wire form of a question: the name, the type's code, the class.
pub open spec fn question_wire(q: (Seq<char>, RecordType, u16)) -> Option<Seq<u8>> {
    match text_wire(q.0) {
        Some(w) => Some(w + u16_bytes(type_code(q.1)) + u16_bytes(q.2)),
        None => None,
    }
}

/// The question at `pos` of `s` and the position after it; its type must be
/// a known one.
pub open spec fn parse_question(s: Seq<u8>, pos: int) -> Option<((Seq<char>, RecordType, u16), int)> {
    match parse_name(s, pos) {
        Some((t, e)) => if e + 4 <= s.len() {
            match type_of_code(u16_at(s, e)) {
                Some(ty) => Some(((t, ty, u16_at(s, e + 2)), e + 4)),
                None => None,
            }
        } else {
            None
        },
        None => None,
    }
}

impl Clone for Question {
    fn clone(&self) -> (r: Self)
        ensures
            r@ == self@,
    {
        Question { name: self.name.clone(), type_: self.type_, class: self.class }
    }
}

impl Question {
    /// A question of class IN; a name whose text is longer than 253 octets
    /// is refused.
    pub fn new(name: Name, type_: RecordType) -> (r: Result<Question, DnsError>)
        ensures
            encode_utf8(name@).len() <= 253 ==> (r matches Ok(q) && q@ == (name@, type_, 1u16)),
            encode_utf8(name@).len() > 253 ==> (r matches Err(e) && e == DnsError::FormatError),
    {
        if name.as_str().as_bytes().len() > MAX_NAME_OCTETS {
            return Err(DnsError::FormatError);
        }
        Ok(Question { name, type_, class: 1 })
    }

    pub fn to_bytes(&self) -> (r: Result<Vec<u8>, DnsError>)
        ensures
            question_wire(self@) matches Some(w) ==> (r matches Ok(v) && v@ == w),
            question_wire(self@) is None ==> (r matches Err(e) && e == DnsError::FormatError),
    {
        let mut out = match self.name.to_bytes() {
            Ok(v) => v,
            Err(e) => {
                return Err(e);
            },
        };
        put_u16(&mut out, self.type_.to_int());
        put_u16(&mut out, self.class);
        Ok(out)
    }

    pub fn from_bytes(buf: &[u8], pos: usize) -> (r: Result<(Question, usize), DnsError>)
        ensures
            parse_question(buf@, pos as int) matches Some((q, e)) ==> (r matches Ok((x, end)) && x@
                == q && end == e),
            parse_question(buf@, pos as int) is None ==> (r matches Err(e) && e
                == DnsError::FormatError),
    {
        let (name, e) = match Name::from_bytes(buf, pos) {
            Ok(x) => x,
            Err(err) => {
                return Err(err);
            },
        };
        if e > buf.len() || buf.len() - e < 4 {
            return Err(DnsError::FormatError);
        }
        let code = get_u16(buf, e);
        let type_ = match RecordType::from_int(code) {
            Some(t) => t,
            None => {
                return Err(DnsError::FormatError);
            },
        };
        let class = get_u16(buf, e + 2);
        Ok((Question { name, type_, class }, e + 4))
    }
}

} // verus!
