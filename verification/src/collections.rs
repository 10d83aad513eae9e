//! The closed taxonomy of collection classification tags.
//!
//! Each tag has a permanent string encoding; records persisted under an
//! encoding rely on it never changing, so new variants may be added but
//! existing encodings are immutable.

use vstd::prelude::*;

verus! {

/// A classification tag attached to an inscription once it wins a
/// registration.
#[derive(Debug, Clone, Copy, PartialEq, Eq, Structural)]
pub enum CollectionKind {
    BitMap,
    BRC20,
    BtcName,
    UnisatName,
    SatsName,
    XName,
}

impl CollectionKind {
    /// The permanent string encoding of this tag.
    pub open spec fn spec_encoding(self) -> Seq<char> {
        match self {
            CollectionKind::BitMap => "bitmap"@,
            CollectionKind::BRC20 => "brc20"@,
            CollectionKind::BtcName => "btc_name"@,
            CollectionKind::UnisatName => "unisat_name"@,
            CollectionKind::SatsName => "sats_name"@,
            CollectionKind::XName => "x_name"@,
        }
    }

    /// The permanent string encoding, for persistence and display.
    pub fn as_str(&self) -> (r: &'static str)
        ensures
            r@ == self.spec_encoding(),
    {
        match self {
            CollectionKind::BitMap => "bitmap",
            CollectionKind::BRC20 => "brc20",
            CollectionKind::BtcName => "btc_name",
            CollectionKind::UnisatName => "unisat_name",
            CollectionKind::SatsName => "sats_name",
            CollectionKind::XName => "x_name",
        }
    }

    /// The tag claimed by a name with the given suffix, in the closed
    /// taxonomy: each of the four default suffixes has its own tag.
    pub open spec fn spec_from_suffix(s: Seq<char>) -> Option<CollectionKind> {
        if s == "btc"@ {
            Some(CollectionKind::BtcName)
        } else if s == "unisat"@ {
            Some(CollectionKind::UnisatName)
        } else if s == "sats"@ {
            Some(CollectionKind::SatsName)
        } else if s == "x"@ {
            Some(CollectionKind::XName)
        } else {
            None
        }
    }

    /// Resolves a suffix to its tag in the closed taxonomy.
    pub fn from_suffix(s: &Vec<char>) -> (r: Option<CollectionKind>)
        ensures
            r == Self::spec_from_suffix(s@),
    {
        if chars_eq_str(s, "btc") {
            Some(CollectionKind::BtcName)
        } else if chars_eq_str(s, "unisat") {
            Some(CollectionKind::UnisatName)
        } else if chars_eq_str(s, "sats") {
            Some(CollectionKind::SatsName)
        } else if chars_eq_str(s, "x") {
            Some(CollectionKind::XName)
        } else {
            None
        }
    }
}

/// Compares a character vector with a string slice, character by character.
pub fn chars_eq_str(v: &Vec<char>, s: &str) -> (r: bool)
    ensures
        r == (v@ == s@),
{
    let n = s.unicode_len();
    if v.len() != n {
        proof {
            assert(v@ != s@) by {
                if v@ == s@ {
                    assert(v@.len() == s@.len());
                }
            }
        }
        return false;
    }
    let mut i: usize = 0;
    while i < n
        invariant
            0 <= i <= n,
            n == s@.len(),
            n == v@.len(),
            forall|j: int| 0 <= j < i ==> v@[j] == s@[j],
        decreases n - i,
    {
        let c = s.get_char(i);
        if v[i] != c {
            proof {
                assert(v@ != s@) by {
                    if v@ == s@ {
                        assert(v@[i as int] == s@[i as int]);
                    }
                }
            }
            return false;
        }
        i += 1;
    }
    proof {
        assert(v@ =~= s@);
    }
    true
}

} // verus!
