use vstd::prelude::*;

verus! {

/// Subset of the TYPE values specified in RFC 1035.
#[derive(Clone, Copy, Debug, PartialEq, Eq, Structural)]
pub enum Type {
    A,
    NS,
    CNAME,
    SOA,
    TXT,
}

impl Type {
    /// The numeric code RFC 1035 assigns to the type.
    pub open spec fn spec_u16(self) -> u16 {
        match self {
            Type::A => 1,
            Type::NS => 2,
            Type::CNAME => 5,
            Type::SOA => 6,
            Type::TXT => 16,
        }
    }

    /// The type a numeric code denotes, if it is in the supported set.
    pub open spec fn spec_from_u16(v: u16) -> Option<Type> {
        if v == 1 {
            Some(Type::A)
        } else if v == 2 {
            Some(Type::NS)
        } else if v == 5 {
            Some(Type::CNAME)
        } else if v == 6 {
            Some(Type::SOA)
        } else if v == 16 {
            Some(Type::TXT)
        } else {
            None
        }
    }

    pub fn to_u16(self) -> (r: u16)
        ensures
            r == self.spec_u16(),
    {
        match self {
            Type::A => 1,
            Type::NS => 2,
            Type::CNAME => 5,
            Type::SOA => 6,
            Type::TXT => 16,
        }
    }

    pub fn from_u16(v: u16) -> (r: Option<Type>)
        ensures
            r == Self::spec_from_u16(v),
    {
        if v == 1 {
            Some(Type::A)
        } else if v == 2 {
            Some(Type::NS)
        } else if v == 5 {
            Some(Type::CNAME)
        } else if v == 6 {
            Some(Type::SOA)
        } else if v == 16 {
            Some(Type::TXT)
        } else {
            None
        }
    }
}

/// A numeric code maps back to the type it was read from.
pub proof fn lemma_type_code_round_trip(t: Type)
    ensures
        Type::spec_from_u16(t.spec_u16()) == Some(t),
{
}

} // verus!
