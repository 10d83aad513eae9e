//! The name grammar: validates and parses raw inscription bytes into a
//! normalized `(localpart, suffix)` pair.
//!
//! A claim is text of the shape "one or more characters, then a literal dot,
//! then one of the configured suffixes", matched case-insensitively against
//! the whole content, greedily on the prefix (the dot that binds is the last
//! one followed by a configured suffix reaching the end). The captured
//! localpart must not contain a dot, a space or a newline, and a localpart
//! holding `{` must not be a well-formed JSON document. Suffixes are matched
//! as literal character sequences, so a suffix containing a pattern
//! metacharacter needs no escaping here.

use vstd::prelude::*;

use crate::collections::CollectionKind;
use vstd::string::{StrSliceExecFns, StringExecFns};

verus! {

/// Why a body was rejected as a name claim.
#[derive(Debug, Clone, Copy, PartialEq, Eq, Structural)]
pub enum ParseError {
    /// The bytes are not well-formed UTF-8.
    NotText,
    /// The text does not match the grammar, or the localpart holds a
    /// forbidden character.
    NoMatch,
    /// The localpart is a well-formed structured (JSON) document.
    StructuredPayload,
}

/// A successfully parsed name claim: normalized localpart, suffix, and the
/// classification tag it claims.
#[derive(Debug)]
pub struct BtcDomain {
    pub name: String,
    pub domain: String,
    pub collection_kind: CollectionKind,
}

/// The configured suffix allow-list of the configurable-suffix mode; an
/// empty list selects that mode's default, the single literal `btc`. The
/// literals are ASCII and case-insensitive: they are folded to lowercase
/// before they are matched against the lowercased content.
pub struct SuffixSet {
    pub items: Vec<String>,
}

/// An ASCII uppercase letter folded to lowercase; any other character is
/// itself.
pub open spec fn ascii_lower_char(c: char) -> char {
    if 'A' <= c && c <= 'Z' {
        (((c as u8) + 32) as u8) as char
    } else {
        c
    }
}

/// A suffix literal folded to ASCII lowercase.
pub open spec fn ascii_lower(s: Seq<char>) -> Seq<char> {
    s.map_values(|c: char| ascii_lower_char(c))
}

/// Folds a character vector to ASCII lowercase.
fn ascii_lower_chars(v: &Vec<char>) -> (r: Vec<char>)
    ensures
        r@ == ascii_lower(v@),
{
    let mut r: Vec<char> = Vec::new();
    let mut i: usize = 0;
    while i < v.len()
        invariant
            0 <= i <= v@.len(),
            r@.len() == i,
            forall|j: int| 0 <= j < i ==> r@[j] == ascii_lower_char(v@[j]),
        decreases v@.len() - i,
    {
        let c = v[i];
        let lc: char = if c >= 'A' && c <= 'Z' {
            ((c as u8) + 32) as char
        } else {
            c
        };
        r.push(lc);
        i += 1;
    }
    proof {
        assert(r@ =~= ascii_lower(v@));
    }
    r
}

/// What `str::to_lowercase` returns, as a function of the characters alone.
pub uninterp spec fn lower_of(s: Seq<char>) -> Seq<char>;

/// Whether `serde_json` accepts the text as a JSON document, as a function
/// of the text alone.
pub uninterp spec fn is_json_text(s: Seq<char>) -> bool;

/// Relies on `str::to_lowercase`: the result depends on the characters
/// alone.
#[verifier::external_body]
fn lowercase(s: &str) -> (r: String)
    ensures
        r@ == lower_of(s@),
{
    s.to_lowercase()
}

/// Relies on `serde_json::from_str::<serde_json::Value>`: whether it accepts
/// the text as a JSON document depends on the text alone.
#[verifier::external_body]
fn parses_as_json(s: &str) -> (r: bool)
    ensures
        r == is_json_text(s@),
{
    serde_json::from_str::<serde_json::Value>(s).is_ok()
}

/// Relies on `core::str::from_utf8`: it succeeds exactly on well-formed
/// UTF-8 bytes, and the returned text is their decoding.
#[verifier::external_body]
fn utf8_to_str<'a>(bytes: &'a [u8]) -> (r: Option<&'a str>)
    ensures
        r is Some <==> vstd::utf8::valid_utf8(bytes@),
        r is Some ==> r.unwrap()@ == vstd::utf8::decode_utf8(bytes@),
{
    core::str::from_utf8(bytes).ok()
}

/// The default suffix allow-list of the closed-taxonomy mode.
pub open spec fn default_suffixes() -> Seq<Seq<char>> {
    seq!["btc"@, "unisat"@, "sats"@, "x"@]
}

/// The default suffix allow-list of the configurable-suffix mode.
pub open spec fn single_default_suffix() -> Seq<Seq<char>> {
    seq!["btc"@]
}

/// The grammar matches text `t` split at dot position `p`: a nonempty
/// prefix free of newlines (the pattern's any-character class excludes
/// them), a literal dot, and a configured suffix reaching the end.
pub open spec fn is_split_at(t: Seq<char>, sufs: Seq<Seq<char>>, p: int) -> bool {
    &&& 1 <= p < t.len()
    &&& t[p] == '.'
    &&& sufs.contains(t.subrange(p + 1, t.len() as int))
    &&& forall|i: int| 0 <= i < p ==> t[i] != '\n'
}

/// The greatest split position at most `p`, if any: the prefix match is
/// greedy, so the match binds to the last dot with a suffix after it.
pub open spec fn find_split(t: Seq<char>, sufs: Seq<Seq<char>>, p: int) -> Option<int>
    decreases p,
{
    if p < 1 {
        None
    } else if is_split_at(t, sufs, p) {
        Some(p)
    } else {
        find_split(t, sufs, p - 1)
    }
}

/// Where the grammar splits text `t`, if it matches at all.
pub open spec fn grammar_split(t: Seq<char>, sufs: Seq<Seq<char>>) -> Option<int> {
    find_split(t, sufs, t.len() - 1)
}

/// A localpart may not contain a dot, a space, or a newline anywhere.
pub open spec fn localpart_clean(l: Seq<char>) -> bool {
    forall|i: int| 0 <= i < l.len() ==> l[i] != '.' && l[i] != ' ' && l[i] != '\n'
}

/// The tag a parsed name claims: per suffix in the closed taxonomy, one
/// uniform tag in the configurable-suffix mode.
pub open spec fn spec_kind_for(closed: bool, suffix: Seq<char>) -> CollectionKind {
    if closed {
        match CollectionKind::spec_from_suffix(suffix) {
            Some(k) => k,
            None => CollectionKind::BtcName,
        }
    } else {
        CollectionKind::BtcName
    }
}

/// What parsing lowercased text `t` yields: the grammar match, then the
/// localpart validity rules, which apply whichever suffix matched.
pub open spec fn spec_parse_text(t: Seq<char>, sufs: Seq<Seq<char>>, closed: bool) -> Result<
    (Seq<char>, Seq<char>, CollectionKind),
    ParseError,
> {
    match grammar_split(t, sufs) {
        None => Err(ParseError::NoMatch),
        Some(p) => {
            let l = t.subrange(0, p);
            let suf = t.subrange(p + 1, t.len() as int);
            if !localpart_clean(l) {
                Err(ParseError::NoMatch)
            } else if l.contains('{') && is_json_text(l) {
                Err(ParseError::StructuredPayload)
            } else {
                Ok((l, suf, spec_kind_for(closed, suf)))
            }
        },
    }
}

/// What parsing raw bytes yields: decode as UTF-8, lowercase the whole
/// content, then parse the text.
pub open spec fn spec_parse(bytes: Seq<u8>, sufs: Seq<Seq<char>>, closed: bool) -> Result<
    (Seq<char>, Seq<char>, CollectionKind),
    ParseError,
> {
    if !vstd::utf8::valid_utf8(bytes) {
        Err(ParseError::NotText)
    } else {
        spec_parse_text(lower_of(vstd::utf8::decode_utf8(bytes)), sufs, closed)
    }
}

/// A vector of characters views deeply as its own character sequence.
pub proof fn lemma_chars_deep_view(v: Vec<char>)
    ensures
        v.deep_view() == v@,
{
    assert(v.deep_view() =~= v@);
}

/// Collects the characters of a string slice into a vector.
pub fn str_to_chars(s: &str) -> (r: Vec<char>)
    ensures
        r@ == s@,
{
    let n = s.unicode_len();
    let mut r: Vec<char> = Vec::new();
    let mut i: usize = 0;
    while i < n
        invariant
            0 <= i <= n,
            n == s@.len(),
            r@ == s@.subrange(0, i as int),
        decreases n - i,
    {
        let c = s.get_char(i);
        r.push(c);
        proof {
            assert(r@ =~= s@.subrange(0, i + 1 as int));
        }
        i += 1;
    }
    proof {
        assert(r@ =~= s@);
    }
    r
}

/// Compares the tail of `cs` starting at `start` with `suf`.
fn tail_eq(cs: &Vec<char>, start: usize, suf: &Vec<char>) -> (r: bool)
    requires
        start <= cs@.len(),
    ensures
        r == (cs@.subrange(start as int, cs@.len() as int) == suf@),
{
    let ghost tail = cs@.subrange(start as int, cs@.len() as int);
    if cs.len() - start != suf.len() {
        proof {
            assert(tail != suf@) by {
                if tail == suf@ {
                    assert(tail.len() == suf@.len());
                }
            }
        }
        return false;
    }
    let n: usize = cs.len();
    let mut i: usize = 0;
    while i < suf.len()
        invariant
            0 <= i <= suf@.len(),
            n == cs@.len(),
            start + suf@.len() == cs@.len(),
            tail == cs@.subrange(start as int, cs@.len() as int),
            forall|j: int| 0 <= j < i ==> tail[j] == suf@[j],
        decreases suf@.len() - i,
    {
        proof {
            assert(start + i < cs@.len());
        }
        if cs[start + i] != suf[i] {
            proof {
                assert(tail[i as int] == cs@[start + i]);
                assert(tail != suf@) by {
                    if tail == suf@ {
                        assert(tail[i as int] == suf@[i as int]);
                    }
                }
            }
            return false;
        }
        proof {
            assert(tail[i as int] == cs@[start + i]);
        }
        i += 1;
    }
    proof {
        assert(tail =~= suf@);
    }
    true
}

/// Whether the tail of `cs` starting at `start` is one of the suffixes.
fn has_suffix_at(cs: &Vec<char>, sufs: &Vec<Vec<char>>, start: usize) -> (r: bool)
    requires
        start <= cs@.len(),
    ensures
        r == sufs.deep_view().contains(cs@.subrange(start as int, cs@.len() as int)),
{
    let ghost tail = cs@.subrange(start as int, cs@.len() as int);
    let mut k: usize = 0;
    while k < sufs.len()
        invariant
            0 <= k <= sufs@.len(),
            start <= cs@.len(),
            tail == cs@.subrange(start as int, cs@.len() as int),
            forall|j: int| 0 <= j < k ==> sufs.deep_view()[j] != tail,
        decreases sufs@.len() - k,
    {
        if tail_eq(cs, start, &sufs[k]) {
            proof {
                lemma_chars_deep_view(sufs@[k as int]);
                assert(sufs.deep_view()[k as int] == sufs@[k as int]@);
                assert(sufs.deep_view().contains(tail));
            }
            return true;
        }
        proof {
            lemma_chars_deep_view(sufs@[k as int]);
            assert(sufs.deep_view()[k as int] == sufs@[k as int]@);
        }
        k += 1;
    }
    proof {
        assert(!sufs.deep_view().contains(tail)) by {
            if sufs.deep_view().contains(tail) {
                let j = choose|j: int|
                    0 <= j < sufs.deep_view().len() && sufs.deep_view()[j] == tail;
                assert(sufs.deep_view()[j] != tail);
            }
        }
    }
    false
}

/// The index of the first newline in `cs`, if any.
fn first_newline(cs: &Vec<char>) -> (r: Option<usize>)
    ensures
        match r {
            Some(j) => j < cs@.len() && cs@[j as int] == '\n' && forall|i: int|
                0 <= i < j ==> cs@[i] != '\n',
            None => forall|i: int| 0 <= i < cs@.len() ==> cs@[i] != '\n',
        },
{
    let mut i: usize = 0;
    while i < cs.len()
        invariant
            0 <= i <= cs@.len(),
            forall|j: int| 0 <= j < i ==> cs@[j] != '\n',
        decreases cs@.len() - i,
    {
        if cs[i] == '\n' {
            return Some(i);
        }
        i += 1;
    }
    None
}

/// Finds the greedy grammar split of `cs`, scanning dot positions from the
/// end of the text.
fn find_split_exec(cs: &Vec<char>, sufs: &Vec<Vec<char>>) -> (r: Option<usize>)
    ensures
        match r {
            Some(p) => p < cs@.len() && grammar_split(cs@, sufs.deep_view()) == Some(p as int),
            None => grammar_split(cs@, sufs.deep_view()) is None,
        },
{
    let ghost t = cs@;
    let ghost sv = sufs.deep_view();
    if cs.len() < 2 {
        return None;
    }
    let nl = first_newline(cs);
    let n: usize = cs.len();
    let mut p: usize = n - 1;
    loop
        invariant
            n == cs@.len(),
            1 <= p <= cs@.len() - 1,
            cs@.len() >= 2,
            t == cs@,
            sv == sufs.deep_view(),
            find_split(t, sv, t.len() - 1) == find_split(t, sv, p as int),
            match nl {
                Some(j) => j < cs@.len() && cs@[j as int] == '\n' && forall|i: int|
                    0 <= i < j ==> cs@[i] != '\n',
                None => forall|i: int| 0 <= i < cs@.len() ==> cs@[i] != '\n',
            },
        decreases p,
    {
        let prefix_ok = match nl {
            Some(j) => j >= p,
            None => true,
        };
        let split_here = prefix_ok && cs[p] == '.' && has_suffix_at(cs, sufs, p + 1);
        proof {
            if split_here {
                assert(forall|i: int| 0 <= i < p ==> t[i] != '\n');
                assert(is_split_at(t, sv, p as int));
            } else {
                assert(!is_split_at(t, sv, p as int)) by {
                    if is_split_at(t, sv, p as int) {
                        if !prefix_ok {
                            let j = nl.unwrap();
                            assert(t[j as int] == '\n');
                        }
                    }
                }
            }
        }
        if split_here {
            return Some(p);
        }
        if p == 1 {
            proof {
                assert(find_split(t, sv, 0) is None);
            }
            return None;
        }
        p -= 1;
    }
}

impl BtcDomain {
    /// Parses raw inscription bytes under the closed taxonomy: the default
    /// suffix allow-list, each suffix claiming its own tag.
    pub fn parse(bytes: &[u8]) -> (r: Result<BtcDomain, ParseError>)
        ensures
            match r {
                Ok(d) => spec_parse(bytes@, default_suffixes(), true) == Ok::<
                    (Seq<char>, Seq<char>, CollectionKind),
                    ParseError,
                >((d.name@, d.domain@, d.collection_kind)),
                Err(e) => spec_parse(bytes@, default_suffixes(), true) == Err::<
                    (Seq<char>, Seq<char>, CollectionKind),
                    ParseError,
                >(e),
            },
    {
        let sufs = default_suffix_chars();
        parse_core(bytes, &sufs, true)
    }

    /// Parses raw inscription bytes under the configurable-suffix mode: a
    /// caller-supplied allow-list and one uniform tag.
    pub fn parse_with_suffixes(bytes: &[u8], suffixes: &SuffixSet) -> (r: Result<
        BtcDomain,
        ParseError,
    >)
        ensures
            match r {
                Ok(d) => spec_parse(bytes@, suffixes.spec_effective(), false) == Ok::<
                    (Seq<char>, Seq<char>, CollectionKind),
                    ParseError,
                >((d.name@, d.domain@, d.collection_kind)),
                Err(e) => spec_parse(bytes@, suffixes.spec_effective(), false) == Err::<
                    (Seq<char>, Seq<char>, CollectionKind),
                    ParseError,
                >(e),
            },
    {
        let sufs = suffixes.effective_chars();
        parse_core(bytes, &sufs, false)
    }

    /// The registry key of the closed-taxonomy mode, keyed by suffix first.
    pub fn to_collection_key(&self) -> (r: String)
        ensures
            r@ == spec_closed_key(self.name@, self.domain@),
    {
        let mut k = String::from_str("BTC_DOMAIN_");
        k.append(self.domain.as_str());
        k.append("_");
        k.append(self.name.as_str());
        proof {
            assert(k@ =~= spec_closed_key(self.name@, self.domain@));
        }
        k
    }

    /// The registry key of the configurable-suffix mode, keyed by localpart
    /// first, under its own namespace so the two modes never collide.
    pub fn to_configurable_key(&self) -> (r: String)
        ensures
            r@ == spec_configurable_key(self.name@, self.domain@),
    {
        let mut k = String::from_str("BTC_NAME_");
        k.append(self.name.as_str());
        k.append("_");
        k.append(self.domain.as_str());
        proof {
            assert(k@ =~= spec_configurable_key(self.name@, self.domain@));
        }
        k
    }
}

/// The closed-taxonomy registry key: namespace, suffix, then localpart.
pub open spec fn spec_closed_key(localpart: Seq<char>, suffix: Seq<char>) -> Seq<char> {
    "BTC_DOMAIN_"@ + suffix + "_"@ + localpart
}

/// The configurable-suffix registry key: namespace, localpart, then suffix.
pub open spec fn spec_configurable_key(localpart: Seq<char>, suffix: Seq<char>) -> Seq<char> {
    "BTC_NAME_"@ + localpart + "_"@ + suffix
}

/// The default suffix allow-list of the closed taxonomy, as character
/// vectors.
pub fn default_suffix_chars() -> (r: Vec<Vec<char>>)
    ensures
        r.deep_view() == default_suffixes(),
{
    let mut r: Vec<Vec<char>> = Vec::new();
    r.push(str_to_chars("btc"));
    r.push(str_to_chars("unisat"));
    r.push(str_to_chars("sats"));
    r.push(str_to_chars("x"));
    proof {
        assert(r.deep_view() =~~= default_suffixes());
    }
    r
}

impl SuffixSet {
    /// The suffixes in force: the configured list folded to lowercase, or
    /// the single default suffix when the list is empty.
    pub open spec fn spec_effective(self) -> Seq<Seq<char>> {
        if self.items@.len() == 0 {
            single_default_suffix()
        } else {
            self.items.deep_view().map_values(|s: Seq<char>| ascii_lower(s))
        }
    }

    /// The suffixes in force, as lowercase character vectors.
    pub fn effective_chars(&self) -> (r: Vec<Vec<char>>)
        ensures
            r.deep_view() == self.spec_effective(),
    {
        let mut r: Vec<Vec<char>> = Vec::new();
        if self.items.len() == 0 {
            r.push(str_to_chars("btc"));
            proof {
                assert(r.deep_view() =~~= single_default_suffix());
            }
            return r;
        }
        let mut i: usize = 0;
        while i < self.items.len()
            invariant
                0 <= i <= self.items@.len(),
                r@.len() == i,
                forall|j: int| 0 <= j < i ==> r@[j]@ == ascii_lower(self.items@[j]@),
            decreases self.items@.len() - i,
        {
            let v = str_to_chars(self.items[i].as_str());
            r.push(ascii_lower_chars(&v));
            i += 1;
        }
        proof {
            assert forall|j: int| 0 <= j < r@.len() implies r.deep_view()[j]
                == self.spec_effective()[j] by {
                lemma_chars_deep_view(r@[j]);
                assert(r.deep_view()[j] == r@[j].deep_view());
                assert(self.items.deep_view()[j] == self.items@[j]@);
            }
            assert(r.deep_view() =~= self.spec_effective());
        }
        r
    }
}

/// Shared parser of both modes: decode, lowercase, match the grammar, then
/// apply the localpart validity rules.
#[verifier::loop_isolation(false)]
pub(crate) fn parse_core(bytes: &[u8], sufs: &Vec<Vec<char>>, closed: bool) -> (r: Result<
    BtcDomain,
    ParseError,
>)
    ensures
        match r {
            Ok(d) => spec_parse(bytes@, sufs.deep_view(), closed) == Ok::<
                (Seq<char>, Seq<char>, CollectionKind),
                ParseError,
            >((d.name@, d.domain@, d.collection_kind)),
            Err(e) => spec_parse(bytes@, sufs.deep_view(), closed) == Err::<
                (Seq<char>, Seq<char>, CollectionKind),
                ParseError,
            >(e),
        },
{
    let s = match utf8_to_str(bytes) {
        Some(s) => s,
        None => {
            return Err(ParseError::NotText);
        },
    };
    let lowered = lowercase(s);
    let t: &str = lowered.as_str();
    let cs = str_to_chars(t);
    let ghost tv = cs@;
    let p = match find_split_exec(&cs, sufs) {
        Some(p) => p,
        None => {
            return Err(ParseError::NoMatch);
        },
    };
    let ghost l = tv.subrange(0, p as int);
    let mut i: usize = 0;
    let mut has_brace = false;
    while i < p
        invariant
            0 <= i <= p,
            p < cs@.len(),
            tv == cs@,
            l == tv.subrange(0, p as int),
            forall|j: int| 0 <= j < i ==> l[j] != '.' && l[j] != ' ' && l[j] != '\n',
            has_brace == exists|j: int| 0 <= j < i && l[j] == '{',
        decreases p - i,
    {
        let c = cs[i];
        proof {
            assert(l[i as int] == cs@[i as int]);
        }
        if c == '.' || c == ' ' || c == '\n' {
            proof {
                assert(!localpart_clean(l)) by {
                    if localpart_clean(l) {
                        assert(l[i as int] != '.' && l[i as int] != ' ' && l[i as int] != '\n');
                    }
                }
            }
            return Err(ParseError::NoMatch);
        }
        if c == '{' {
            has_brace = true;
        }
        i += 1;
    }
    proof {
        assert(localpart_clean(l));
        assert(has_brace == l.contains('{')) by {
            if has_brace {
                let j = choose|j: int| 0 <= j < p && l[j] == '{';
                assert(l[j] == '{');
            }
            if l.contains('{') {
                let j = choose|j: int| 0 <= j < l.len() && l[j] == '{';
                assert(0 <= j < p && l[j] == '{');
            }
        }
    }
    let name_str = t.substring_char(0, p);
    if has_brace && parses_as_json(name_str) {
        return Err(ParseError::StructuredPayload);
    }
    let n = t.unicode_len();
    let domain_str = t.substring_char(p + 1, n);
    let kind = if closed {
        let sufv = str_to_chars(domain_str);
        match CollectionKind::from_suffix(&sufv) {
            Some(k) => k,
            None => CollectionKind::BtcName,
        }
    } else {
        CollectionKind::BtcName
    };
    Ok(BtcDomain {
        name: String::from_str(name_str),
        domain: String::from_str(domain_str),
        collection_kind: kind,
    })
}

} // verus!
