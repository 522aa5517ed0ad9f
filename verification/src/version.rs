use vstd::prelude::*;

verus! {

/// Schema version of a stored vector.
#[derive(Debug, Clone, Copy, PartialEq, Eq, Structural)]
pub struct Version(pub u64);

impl Version {
    pub fn zero() -> (r: Version)
        ensures
            r.0 == 0,
    {
        Version(0)
    }

    pub fn one() -> (r: Version)
        ensures
            r.0 == 1,
    {
        Version(1)
    }

    pub fn two() -> (r: Version)
        ensures
            r.0 == 2,
    {
        Version(2)
    }

    pub fn new(v: u64) -> (r: Version)
        ensures
            r.0 == v,
    {
        Version(v)
    }

    /// Sum of two versions; wraps around on overflow like the release build of
    /// the `+` it stands for.
    pub fn plus(self, other: Version) -> (r: Version)
        ensures
            r.0 == (self.0 + other.0) % 0x1_0000_0000_0000_0000,
    {
        Version(self.0.wrapping_add(other.0))
    }
}

/// Stamp recorded by stamped vectors at each flush.
#[derive(Debug, Clone, Copy, PartialEq, Eq, Structural)]
pub struct Stamp(pub u64);

impl Stamp {
    pub fn new(v: u64) -> (r: Stamp)
        ensures
            r.0 == v,
    {
        Stamp(v)
    }

    pub fn default_stamp() -> (r: Stamp)
        ensures
            r.0 == 0,
    {
        Stamp(0)
    }
}

/// Storage format of a vector.
#[derive(Debug, Clone, Copy, PartialEq, Eq, Structural)]
pub enum Format {
    Raw,
    Compressed,
}

impl Format {
    pub fn is_raw(&self) -> (r: bool)
        ensures
            r == (*self is Raw),
    {
        match self {
            Format::Raw => true,
            Format::Compressed => false,
        }
    }

    pub fn is_compressed(&self) -> (r: bool)
        ensures
            r == (*self is Compressed),
    {
        match self {
            Format::Raw => false,
            Format::Compressed => true,
        }
    }
}

} // verus!
