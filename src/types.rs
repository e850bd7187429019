use core::cmp::Ordering;
use vstd::prelude::*;

verus! {

/// The version of the program that wrote a settings file: four unsigned
/// 16-bit fields, ordered lexicographically.
#[derive(Clone, Copy, Debug, PartialEq, Eq, Structural, Ord, Hash)]
pub struct FactorioVersion {
    pub major: u16,
    pub minor: u16,
    pub patch: u16,
    pub build: u16,
}

/// Orders two integers.
pub open spec fn int_cmp(a: int, b: int) -> Ordering {
    if a < b {
        Ordering::Less
    } else if a > b {
        Ordering::Greater
    } else {
        Ordering::Equal
    }
}

impl FactorioVersion {
    /// The lexicographic order over (major, minor, patch, build).
    pub open spec fn spec_cmp(&self, other: &FactorioVersion) -> Ordering {
        if self.major != other.major {
            int_cmp(self.major as int, other.major as int)
        } else if self.minor != other.minor {
            int_cmp(self.minor as int, other.minor as int)
        } else if self.patch != other.patch {
            int_cmp(self.patch as int, other.patch as int)
        } else {
            int_cmp(self.build as int, other.build as int)
        }
    }
}

fn cmp_u16(a: u16, b: u16) -> (r: Ordering)
    ensures
        r == int_cmp(a as int, b as int),
{
    if a < b {
        Ordering::Less
    } else if a > b {
        Ordering::Greater
    } else {
        Ordering::Equal
    }
}

impl PartialOrd for FactorioVersion {
    fn partial_cmp(&self, other: &FactorioVersion) -> (r: Option<Ordering>)
        ensures
            r == Some(self.spec_cmp(other)),
    {
        if self.major != other.major {
            Some(cmp_u16(self.major, other.major))
        } else if self.minor != other.minor {
            Some(cmp_u16(self.minor, other.minor))
        } else if self.patch != other.patch {
            Some(cmp_u16(self.patch, other.patch))
        } else {
            Some(cmp_u16(self.build, other.build))
        }
    }
}

impl vstd::std_specs::cmp::PartialOrdSpecImpl for FactorioVersion {
    open spec fn obeys_partial_cmp_spec() -> bool {
        true
    }

    open spec fn partial_cmp_spec(&self, other: &FactorioVersion) -> Option<Ordering> {
        Some(self.spec_cmp(other))
    }
}

} // verus!
