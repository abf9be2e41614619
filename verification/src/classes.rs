use vstd::prelude::*;

verus! {

/// Subset of the CLASS values specified in RFC 1035.
#[derive(Clone, Copy, Debug, PartialEq, Eq, Structural)]
pub enum Class {
    /// The Internet.
    IN,
}

impl Class {
    /// The numeric code RFC 1035 assigns to the class.
    pub open spec fn spec_u16(self) -> u16 {
        match self {
            Class::IN => 1,
        }
    }

    /// The class a numeric code denotes, if it is in the supported set.
    pub open spec fn spec_from_u16(v: u16) -> Option<Class> {
        if v == 1 {
            Some(Class::IN)
        } else {
            None
        }
    }

    pub fn to_u16(self) -> (r: u16)
        ensures
            r == self.spec_u16(),
    {
        match self {
            Class::IN => 1,
        }
    }

    pub fn from_u16(v: u16) -> (r: Option<Class>)
        ensures
            r == Self::spec_from_u16(v),
    {
        if v == 1 {
            Some(Class::IN)
        } else {
            None
        }
    }
}

} // verus!
