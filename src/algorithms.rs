//! The registry of signing algorithms.
use vstd::prelude::*;
use crate::text::{chars_eq, chars_of};

verus! {

/// A signing algorithm that tokens may name in their header.
#[derive(Debug, Clone, Copy, PartialEq, Eq, Structural)]
pub enum Algorithm {
    /// HMAC with SHA-256.
    HS256,
}

impl Algorithm {
    /// The short name that the header carries.
    pub open spec fn name(self) -> Seq<char> {
        match self {
            Algorithm::HS256 => seq!['H', 'S', '2', '5', '6'],
        }
    }

    /// The registered algorithm with the short name `n`, if any.
    pub open spec fn named(n: Seq<char>) -> Option<Algorithm> {
        if n == Algorithm::HS256.name() {
            Some(Algorithm::HS256)
        } else {
            None
        }
    }

    /// The short name, as a string.
    pub fn to_string(&self) -> (r: String)
        ensures
            r@ == self.name(),
    {
        proof {
            reveal_strlit("HS256");
        }
        match self {
            Algorithm::HS256 => "HS256".to_owned(),
        }
    }

    /// Looks an algorithm up by its short name, which must match exactly.
    pub fn from_name(name: &str) -> (r: Option<Algorithm>)
        ensures
            r == Algorithm::named(name@),
    {
        let n = chars_of(name);
        Algorithm::from_name_chars(&n)
    }

    /// Looks an algorithm up by the characters of its short name.
    pub fn from_name_chars(name: &[char]) -> (r: Option<Algorithm>)
        ensures
            r == Algorithm::named(name@),
    {
        proof {
            reveal_strlit("HS256");
        }
        let hs = chars_of("HS256");
        assert(hs@ =~= Algorithm::HS256.name());
        if chars_eq(name, &hs) {
            Some(Algorithm::HS256)
        } else {
            None
        }
    }
}

impl Default for Algorithm {
    /// HMAC with SHA-256.
    fn default() -> (r: Algorithm)
        ensures
            r == Algorithm::HS256,
    {
        Algorithm::HS256
    }
}

impl<'a> From<&'a str> for Algorithm {
    /// The algorithm of that short name; a name that is not registered gives the default.
    /// Token parsing does not go through this lenient conversion: it uses
    /// [`Algorithm::from_name`] and rejects unknown names.
    fn from(s: &'a str) -> (r: Algorithm) {
        match Algorithm::from_name(s) {
            Some(a) => a,
            None => Algorithm::HS256,
        }
    }
}

impl<'a> vstd::std_specs::convert::FromSpecImpl<&'a str> for Algorithm {
    open spec fn obeys_from_spec() -> bool {
        true
    }

    open spec fn from_spec(v: &'a str) -> Algorithm {
        match Algorithm::named(v@) {
            Some(a) => a,
            None => Algorithm::HS256,
        }
    }
}

} // verus!
