//! Decentralized identifiers and composite identifiers, each with a
//! qualified (method-prefixed) and an unqualified (bare) representation.
//!
//! A qualified identifier of kind `k` has the shape `k:method:bare`. Going
//! qualified -> unqualified is total and strips every method prefix; going
//! the other direction takes a method name and can fail.

use vstd::prelude::*;

use crate::error::Error;
use crate::strutil::{
    find_from, first_at, has_prefix, lemma_first_at_bounds, lemma_first_at_is,
};
use crate::validation::Validatable;

verus! {

/// The kind word of a decentralized identifier.
pub open spec fn did_kind() -> Seq<char> {
    "did"@
}

/// The kind word of a credential-definition identifier.
pub open spec fn creddef_kind() -> Seq<char> {
    "creddef"@
}

/// The tag that opens every qualified form of kind `kind`: `kind` plus `:`.
pub open spec fn kind_tag(kind: Seq<char>) -> Seq<char> {
    kind.push(':')
}

/// Is `s` in qualified form for `kind`: does it start with `kind:` and carry
/// a further `:` that closes a method segment?
pub open spec fn is_qualified(kind: Seq<char>, s: Seq<char>) -> bool {
    let t = kind_tag(kind);
    t.len() <= s.len() && s.subrange(0, t.len() as int) == t && first_at(s, ':', t.len() as int)
        < s.len()
}

/// `s` with its outermost `kind:method:` prefix removed.
pub open spec fn strip_one(kind: Seq<char>, s: Seq<char>) -> Seq<char> {
    s.subrange(first_at(s, ':', kind_tag(kind).len() as int) + 1, s.len() as int)
}

/// The unqualified form of `s`: every method prefix of `kind` stripped.
pub open spec fn unq(kind: Seq<char>, s: Seq<char>) -> Seq<char>
    decreases s.len(),
    via unq_decreases
{
    if is_qualified(kind, s) {
        unq(kind, strip_one(kind, s))
    } else {
        s
    }
}

#[via_fn]
proof fn unq_decreases(kind: Seq<char>, s: Seq<char>) {
    if is_qualified(kind, s) {
        lemma_first_at_bounds(s, ':', kind_tag(kind).len() as int);
    }
}

/// The qualified form `kind:method:s`.
pub open spec fn qual(kind: Seq<char>, method: Seq<char>, s: Seq<char>) -> Seq<char> {
    kind_tag(kind) + method.push(':') + s
}

/// A usable method name: non-empty and free of the `:` separator.
pub open spec fn valid_method(m: Seq<char>) -> bool {
    m.len() > 0 && forall|i: int| 0 <= i < m.len() ==> m[i] != ':'
}

/// An identifier that qualification accepts: non-empty and not already
/// qualified for `kind`.
pub open spec fn valid_unqualified(kind: Seq<char>, s: Seq<char>) -> bool {
    s.len() > 0 && !is_qualified(kind, s)
}

/// Qualifying a valid bare identifier yields a qualified form whose first
/// strip restores the bare identifier.
pub proof fn lemma_qual_strips(kind: Seq<char>, method: Seq<char>, s: Seq<char>)
    requires
        valid_method(method),
    ensures
        is_qualified(kind, qual(kind, method, s)),
        strip_one(kind, qual(kind, method, s)) == s,
{
    let t = kind_tag(kind);
    let q = qual(kind, method, s);
    let j: int = t.len() as int + method.len() as int;
    assert(q.subrange(0, t.len() as int) =~= t);
    assert(forall|k: int| t.len() <= k < j ==> q[k] == method[k - t.len()]);
    assert(q[j as int] == ':');
    lemma_first_at_is(q, ':', t.len() as int, j as int);
    assert(q.subrange(j + 1, q.len() as int) =~= s);
}

/// The unqualified form is never itself qualified.
pub proof fn lemma_unq_bare(kind: Seq<char>, s: Seq<char>)
    ensures
        !is_qualified(kind, unq(kind, s)),
    decreases s.len(),
{
    if is_qualified(kind, s) {
        lemma_first_at_bounds(s, ':', kind_tag(kind).len() as int);
        lemma_unq_bare(kind, strip_one(kind, s));
    }
}

/// Qualification followed by unqualification restores a valid bare
/// identifier exactly.
pub proof fn lemma_qualify_then_unqualify(kind: Seq<char>, method: Seq<char>, s: Seq<char>)
    requires
        valid_method(method),
        valid_unqualified(kind, s),
    ensures
        unq(kind, qual(kind, method, s)) == s,
{
    lemma_qual_strips(kind, method, s);
    assert(unq(kind, qual(kind, method, s)) == unq(kind, s));
    assert(unq(kind, s) == s);
}

/// Unqualification is idempotent on every identifier, qualified or not.
pub proof fn lemma_unqualify_idempotent(kind: Seq<char>, s: Seq<char>)
    ensures
        unq(kind, unq(kind, s)) == unq(kind, s),
{
    lemma_unq_bare(kind, s);
}

/// Tests whether `s` is in qualified form for the kind word `kind`.
pub(crate) fn is_qualified_str(kind: &str, s: &str) -> (r: bool)
    ensures
        r == is_qualified(kind@, s@),
{
    let tag: String = String::from_str(kind).concat(":");
    proof {
        reveal_strlit(":");
        assert(tag@ =~= kind_tag(kind@));
    }
    if !has_prefix(s, tag.as_str()) {
        return false;
    }
    let tlen: usize = tag.as_str().unicode_len();
    let n: usize = s.unicode_len();
    let j: usize = find_from(s, ':', tlen);
    j < n
}

/// The unqualified form of `s`: strips method prefixes of `kind` until the
/// value is bare.
pub(crate) fn unqualify_str(kind: &str, s: &str) -> (r: String)
    ensures
        r@ == unq(kind@, s@),
{
    let mut cur: String = String::from_str(s);
    let mut q: bool = is_qualified_str(kind, cur.as_str());
    while q
        invariant
            q == is_qualified(kind@, cur@),
            unq(kind@, cur@) == unq(kind@, s@),
        decreases cur@.len(),
    {
        let tag: String = String::from_str(kind).concat(":");
        proof {
            reveal_strlit(":");
            assert(tag@ =~= kind_tag(kind@));
            lemma_first_at_bounds(cur@, ':', kind_tag(kind@).len() as int);
        }
        let tlen: usize = tag.as_str().unicode_len();
        let n: usize = cur.as_str().unicode_len();
        let j: usize = find_from(cur.as_str(), ':', tlen);
        let next: String = String::from_str(cur.as_str().substring_char(j + 1, n));
        proof {
            assert(next@ == strip_one(kind@, cur@));
        }
        cur = next;
        q = is_qualified_str(kind, cur.as_str());
    }
    cur
}

/// Builds the qualified form `kind:method:s`, refusing a malformed method
/// or an identifier that is empty or already qualified.
pub(crate) fn qualify_str(kind: &str, method: &str, s: &str) -> (r: Result<String, Error>)
    ensures
        r is Ok <==> valid_method(method@) && valid_unqualified(kind@, s@),
        r matches Ok(t) ==> t@ == qual(kind@, method@, s@),
        r matches Err(e) ==> e.is_format(),
{
    let mlen: usize = method.unicode_len();
    let mcolon: usize = find_from(method, ':', 0);
    proof {
        lemma_first_at_bounds(method@, ':', 0);
    }
    if mlen == 0 || mcolon < mlen {
        return Err(Error::Format { reason: String::from_str("invalid method name") });
    }
    if s.unicode_len() == 0 || is_qualified_str(kind, s) {
        return Err(
            Error::Format { reason: String::from_str("identifier is empty or already qualified") },
        );
    }
    let t: String = String::from_str(kind).concat(":").concat(method).concat(":").concat(s);
    proof {
        reveal_strlit(":");
        assert(t@ =~= qual(kind@, method@, s@));
    }
    Ok(t)
}

/// A decentralized identifier, stored as its full text, qualified or bare.
#[derive(Debug, Clone, PartialEq, Eq)]
pub struct DidValue(pub String);

impl View for DidValue {
    type V = Seq<char>;

    open spec fn view(&self) -> Seq<char> {
        self.0@
    }
}

impl DidValue {
    /// The qualified form `did:method:self`; fails with a format error when
    /// the method is unusable or the identifier is empty or already
    /// qualified.
    pub fn to_qualified(&self, method: &str) -> (r: Result<DidValue, Error>)
        ensures
            r is Ok <==> valid_method(method@) && valid_unqualified(did_kind(), self@),
            r matches Ok(d) ==> d@ == qual(did_kind(), method@, self@),
            r matches Err(e) ==> e.is_format(),
    {
        match qualify_str("did", method, self.0.as_str()) {
            Ok(t) => Ok(DidValue(t)),
            Err(e) => Err(e),
        }
    }

    /// A new identifier with every method prefix stripped; the receiver is
    /// left untouched, and an already-bare identifier comes back equal.
    pub fn to_unqualified(&self) -> (r: DidValue)
        ensures
            r@ == unq(did_kind(), self@),
    {
        DidValue(unqualify_str("did", self.0.as_str()))
    }
}

impl Validatable for DidValue {
    open spec fn valid(&self) -> bool {
        self@.len() > 0
    }

    open spec fn failure(&self) -> (Seq<char>, Seq<char>, Seq<char>) {
        ("DidValue"@, "did"@, "empty identifier"@)
    }

    fn validate(&self) -> (r: Result<(), Error>)
        ensures
            r is Ok <==> self.valid(),
            r matches Err(e) ==> (e matches Error::Validation { entity, field, reason }
                && entity@ == self.failure().0 && field@ == self.failure().1 && reason@
                == self.failure().2),
    {
        if self.0.as_str().unicode_len() > 0 {
            Ok(())
        } else {
            Err(
                Error::Validation {
                    entity: String::from_str("DidValue"),
                    field: String::from_str("did"),
                    reason: String::from_str("empty identifier"),
                },
            )
        }
    }
}

/// Number of occurrences of `c` in `s` at or after position `i`.
pub open spec fn count_from(s: Seq<char>, c: char, i: int) -> nat
    decreases s.len() - i,
{
    if i < 0 || i >= s.len() {
        0
    } else {
        (if s[i] == c {
            1nat
        } else {
            0nat
        }) + count_from(s, c, i + 1)
    }
}

/// Counts the occurrences of `c` in `s`.
pub(crate) fn count_char(s: &str, c: char) -> (r: usize)
    ensures
        r == count_from(s@, c, 0),
{
    let n: usize = s.unicode_len();
    let mut i: usize = 0;
    let mut cnt: usize = 0;
    while i < n
        invariant
            0 <= i <= n,
            n == s@.len(),
            cnt <= i,
            count_from(s@, c, 0) == cnt + count_from(s@, c, i as int),
        decreases n - i,
    {
        if s.get_char(i) == c {
            cnt = cnt + 1;
        }
        i = i + 1;
    }
    cnt
}

/// How many `:`-separated segments a credential-definition identifier must
/// carry after the issuer identifier: marker, signature type, schema
/// reference, and tag.
pub open spec fn cred_def_min_separators() -> nat {
    4
}

/// Every `:`-separated segment of `s` is non-empty: `s` neither starts nor
/// ends with the separator and never holds two in a row.
pub open spec fn segments_nonempty(s: Seq<char>) -> bool {
    s.len() > 0 && s[0] != ':' && s[s.len() - 1] != ':' && forall|i: int|
        0 <= i < s.len() - 1 ==> !(#[trigger] s[i] == ':' && s[i + 1] == ':')
}

/// Checks that every `:`-separated segment of `s` is non-empty.
pub(crate) fn check_segments_nonempty(s: &str) -> (r: bool)
    ensures
        r == segments_nonempty(s@),
{
    let n: usize = s.unicode_len();
    if n == 0 {
        return false;
    }
    if s.get_char(0) == ':' || s.get_char(n - 1) == ':' {
        return false;
    }
    let mut i: usize = 0;
    while i < n - 1
        invariant
            1 <= n,
            0 <= i <= n,
            n == s@.len(),
            forall|k: int| 0 <= k < i ==> !(#[trigger] s@[k] == ':' && s@[k + 1] == ':'),
        decreases n - i,
    {
        if s.get_char(i) == ':' && s.get_char(i + 1) == ':' {
            return false;
        }
        i = i + 1;
    }
    true
}

/// A composite identifier referencing an issuer's credential definition.
#[derive(Debug, Clone, PartialEq, Eq)]
pub struct CredentialDefinitionId(pub String);

impl View for CredentialDefinitionId {
    type V = Seq<char>;

    open spec fn view(&self) -> Seq<char> {
        self.0@
    }
}

impl CredentialDefinitionId {
    /// The qualified form `creddef:method:self`; fails with a format error
    /// when the method is unusable or the identifier is empty or already
    /// qualified.
    pub fn to_qualified(&self, method: &str) -> (r: Result<CredentialDefinitionId, Error>)
        ensures
            r is Ok <==> valid_method(method@) && valid_unqualified(creddef_kind(), self@),
            r matches Ok(d) ==> d@ == qual(creddef_kind(), method@, self@),
            r matches Err(e) ==> e.is_format(),
    {
        match qualify_str("creddef", method, self.0.as_str()) {
            Ok(t) => Ok(CredentialDefinitionId(t)),
            Err(e) => Err(e),
        }
    }

    /// A new identifier with every method prefix stripped; the receiver is
    /// left untouched.
    pub fn to_unqualified(&self) -> (r: CredentialDefinitionId)
        ensures
            r@ == unq(creddef_kind(), self@),
    {
        CredentialDefinitionId(unqualify_str("creddef", self.0.as_str()))
    }
}

impl Validatable for CredentialDefinitionId {
    /// Non-empty, and its bare form carries the required component
    /// segments, each itself non-empty.
    open spec fn valid(&self) -> bool {
        self@.len() > 0 && count_from(unq(creddef_kind(), self@), ':', 0)
            >= cred_def_min_separators() && segments_nonempty(unq(creddef_kind(), self@))
    }

    open spec fn failure(&self) -> (Seq<char>, Seq<char>, Seq<char>) {
        if self@.len() == 0 {
            ("CredentialDefinitionId"@, "cred_def_id"@, "empty identifier"@)
        } else {
            ("CredentialDefinitionId"@, "cred_def_id"@, "missing or empty component segments"@)
        }
    }

    fn validate(&self) -> (r: Result<(), Error>)
        ensures
            r is Ok <==> self.valid(),
            r matches Err(e) ==> (e matches Error::Validation { entity, field, reason }
                && entity@ == self.failure().0 && field@ == self.failure().1 && reason@
                == self.failure().2),
    {
        if self.0.as_str().unicode_len() == 0 {
            return Err(
                Error::Validation {
                    entity: String::from_str("CredentialDefinitionId"),
                    field: String::from_str("cred_def_id"),
                    reason: String::from_str("empty identifier"),
                },
            );
        }
        let bare: String = unqualify_str("creddef", self.0.as_str());
        if count_char(bare.as_str(), ':') >= 4 && check_segments_nonempty(bare.as_str()) {
            Ok(())
        } else {
            Err(
                Error::Validation {
                    entity: String::from_str("CredentialDefinitionId"),
                    field: String::from_str("cred_def_id"),
                    reason: String::from_str("missing or empty component segments"),
                },
            )
        }
    }
}

} // verus!
