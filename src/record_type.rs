use vstd::prelude::*;

verus! {

/// The record types this resolver knows by name.
#[derive(Debug, Copy, Clone, PartialEq, Eq, Structural, Hash)]
pub enum RecordType {
    A,
    Ns,
    Md,
    Mf,
    Cname,
    Soa,
    Mb,
    Mg,
    Mr,
    Null,
    Wks,
    Ptr,
    Hinfo,
    Minfo,
    Mx,
    Txt,
    Aaaa,
    Opt,
}

/// The wire code of each known record type.
pub open spec fn type_code(t: RecordType) -> u16 {
    match t {
        RecordType::A => 1,
        RecordType::Ns => 2,
        RecordType::Md => 3,
        RecordType::Mf => 4,
        RecordType::Cname => 5,
        RecordType::Soa => 6,
        RecordType::Mb => 7,
        RecordType::Mg => 8,
        RecordType::Mr => 9,
        RecordType::Null => 10,
        RecordType::Wks => 11,
        RecordType::Ptr => 12,
        RecordType::Hinfo => 13,
        RecordType::Minfo => 14,
        RecordType::Mx => 15,
        RecordType::Txt => 16,
        RecordType::Aaaa => 28,
        RecordType::Opt => 41,
    }
}

/// The record type that a wire code names, if it is a known one.
pub open spec fn type_of_code(v: u16) -> Option<RecordType> {
    if v == 1 {
        Some(RecordType::A)
    } else if v == 2 {
        Some(RecordType::Ns)
    } else if v == 3 {
        Some(RecordType::Md)
    } else if v == 4 {
        Some(RecordType::Mf)
    } else if v == 5 {
        Some(RecordType::Cname)
    } else if v == 6 {
        Some(RecordType::Soa)
    } else if v == 7 {
        Some(RecordType::Mb)
    } else if v == 8 {
        Some(RecordType::Mg)
    } else if v == 9 {
        Some(RecordType::Mr)
    } else if v == 10 {
        Some(RecordType::Null)
    } else if v == 11 {
        Some(RecordType::Wks)
    } else if v == 12 {
        Some(RecordType::Ptr)
    } else if v == 13 {
        Some(RecordType::Hinfo)
    } else if v == 14 {
        Some(RecordType::Minfo)
    } else if v == 15 {
        Some(RecordType::Mx)
    } else if v == 16 {
        Some(RecordType::Txt)
    } else if v == 28 {
        Some(RecordType::Aaaa)
    } else if v == 41 {
        Some(RecordType::Opt)
    } else {
        None
    }
}

/// Decoding the code of a known type gives that type back, and a code that
/// decodes to a type is that type's code.
pub proof fn lemma_type_code_round_trip(t: RecordType, v: u16)
    ensures
        type_of_code(type_code(t)) == Some(t),
        type_of_code(v) matches Some(u) ==> type_code(u) == v,
{
}

impl RecordType {
    pub fn to_int(&self) -> (r: u16)
        ensures
            r == type_code(*self),
    {
        match self {
            RecordType::A => 1,
            RecordType::Ns => 2,
            RecordType::Md => 3,
            RecordType::Mf => 4,
            RecordType::Cname => 5,
            RecordType::Soa => 6,
            RecordType::Mb => 7,
            RecordType::Mg => 8,
            RecordType::Mr => 9,
            RecordType::Null => 10,
            RecordType::Wks => 11,
            RecordType::Ptr => 12,
            RecordType::Hinfo => 13,
            RecordType::Minfo => 14,
            RecordType::Mx => 15,
            RecordType::Txt => 16,
            RecordType::Aaaa => 28,
            RecordType::Opt => 41,
        }
    }

    pub fn from_int(v: u16) -> (r: Option<Self>)
        ensures
            r == type_of_code(v),
    {
        match v {
            1 => Some(RecordType::A),
            2 => Some(RecordType::Ns),
            3 => Some(RecordType::Md),
            4 => Some(RecordType::Mf),
            5 => Some(RecordType::Cname),
            6 => Some(RecordType::Soa),
            7 => Some(RecordType::Mb),
            8 => Some(RecordType::Mg),
            9 => Some(RecordType::Mr),
            10 => Some(RecordType::Null),
            11 => Some(RecordType::Wks),
            12 => Some(RecordType::Ptr),
            13 => Some(RecordType::Hinfo),
            14 => Some(RecordType::Minfo),
            15 => Some(RecordType::Mx),
            16 => Some(RecordType::Txt),
            28 => Some(RecordType::Aaaa),
            41 => Some(RecordType::Opt),
            _ => None,
        }
    }
}

} // verus!
