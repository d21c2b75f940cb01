//! Deny-by-default capability model for host services.
//!
//! A capability is a dotted path, and the path *is* the tree: granting `clock` grants
//! `clock.wall` and `clock.monotonic`. A [`CapabilitySet`] starts empty, keeps only
//! incomparable grants in path order, and can only ever be narrowed by a policy.
use vstd::prelude::*;

use crate::host::fault::HostFault;
use crate::text::{
    chars_of, first_index, has_char, lemma_first_index, lemma_split_no_separator,
    lemma_split_segments_lack_separator, split, split_str, views,
};
use vstd::string::*;

verus! {

/// The canon capability hierarchy.
pub const CANON_CAPABILITIES: [&'static str; 13] = [
    "filesystem.read",
    "filesystem.write",
    "filesystem.roots",
    "network.http",
    "network.tcp",
    "network.udp",
    "process.spawn",
    "env.read",
    "clock.wall",
    "clock.monotonic",
    "crypto.random",
    "crypto.keystore",
    "poppy",
];

/// `[a-z]`.
pub open spec fn is_lower(c: char) -> bool {
    'a' <= c && c <= 'z'
}

/// `[0-9]`.
pub open spec fn is_digit(c: char) -> bool {
    '0' <= c && c <= '9'
}

/// A character allowed after the first one of a capability segment: `[a-z0-9_-]`.
pub open spec fn is_segment_tail_char(c: char) -> bool {
    is_lower(c) || is_digit(c) || c == '_' || c == '-'
}

/// A capability segment matches `[a-z][a-z0-9_-]*`.
pub open spec fn valid_segment(seg: Seq<char>) -> bool {
    &&& seg.len() > 0
    &&& is_lower(seg[0])
    &&& forall|i: int| 1 <= i < seg.len() ==> is_segment_tail_char(#[trigger] seg[i])
}

/// The first segment of `segs` that is not a valid capability segment.
pub open spec fn first_invalid_segment(segs: Seq<Seq<char>>) -> Option<Seq<char>>
    decreases segs.len(),
{
    if segs.len() == 0 {
        None
    } else if !valid_segment(segs[0]) {
        Some(segs[0])
    } else {
        first_invalid_segment(segs.drop_first())
    }
}

/// A well-formed capability path: non-empty, every dotted segment valid.
pub open spec fn valid_capability(path: Seq<char>) -> bool {
    path.len() > 0 && first_invalid_segment(split(path, '.')) is None
}

/// Whether the capability `a` covers `b`: `b` is `a` itself or lies below it.
pub open spec fn covers(a: Seq<char>, b: Seq<char>) -> bool {
    a == b || (b.len() > a.len() && b.take(a.len() as int) == a && b[a.len() as int] == '.')
}

/// Lexicographic order on character sequences (code-point order, which is also the byte
/// order of their UTF-8 encodings).
pub open spec fn lex_lt(a: Seq<char>, b: Seq<char>) -> bool
    decreases a.len(),
{
    if b.len() == 0 {
        false
    } else if a.len() == 0 {
        true
    } else if a[0] != b[0] {
        a[0] < b[0]
    } else {
        lex_lt(a.drop_first(), b.drop_first())
    }
}

/// A capability path could not be constructed.
#[derive(Debug, Clone, PartialEq, Eq)]
pub enum CapabilityError {
    /// The path was empty.
    Empty,
    /// A segment did not match `[a-z][a-z0-9_-]*`.
    InvalidSegment(String),
}

impl CapabilityError {
    /// The human-readable message of the error.
    pub fn to_string(&self) -> (text: String)
        ensures
            text@ == capability_error_text(*self),
    {
        match self {
            CapabilityError::Empty => String::from_str("capability path is empty"),
            CapabilityError::InvalidSegment(segment) => {
                let text = String::from_str("capability segment '");
                let text = text.concat(segment.as_str());
                text.concat("' must match [a-z][a-z0-9_-]*")
            },
        }
    }
}

/// The message of a capability error.
pub open spec fn capability_error_text(error: CapabilityError) -> Seq<char> {
    match error {
        CapabilityError::Empty => "capability path is empty"@,
        CapabilityError::InvalidSegment(segment) => "capability segment '"@ + segment@
            + "' must match [a-z][a-z0-9_-]*"@,
    }
}

/// The message of a path that is not a capability: `None` for an empty path, or the bad
/// segment.
pub open spec fn capability_kind_text(kind: Option<Seq<char>>) -> Seq<char> {
    match kind {
        None => "capability path is empty"@,
        Some(segment) => "capability segment '"@ + segment + "' must match [a-z][a-z0-9_-]*"@,
    }
}

/// What `Capability::parse` decides for a path: `Ok` with the path, or the error.
pub open spec fn parse_capability_outcome(path: Seq<char>) -> Result<Seq<char>, Option<Seq<char>>> {
    if path.len() == 0 {
        Err(None)
    } else {
        match first_invalid_segment(split(path, '.')) {
            Some(seg) => Err(Some(seg)),
            None => Ok(path),
        }
    }
}

/// A dotted capability path such as `filesystem.read` or `clock.wall`.
#[derive(Debug, Hash)]
pub struct Capability(String);

impl Capability {
    #[verifier::type_invariant]
    spec fn well_formed(self) -> bool {
        valid_capability(self.0@)
    }

    /// `filesystem.read` — reading host files.
    pub const FILESYSTEM_READ: &'static str = "filesystem.read";
    /// `filesystem.write` — writing host files.
    pub const FILESYSTEM_WRITE: &'static str = "filesystem.write";
    /// `filesystem.roots` — learning which roots the host exposes.
    pub const FILESYSTEM_ROOTS: &'static str = "filesystem.roots";
    /// `network.http` — HTTP requests.
    pub const NETWORK_HTTP: &'static str = "network.http";
    /// `network.tcp` — raw TCP.
    pub const NETWORK_TCP: &'static str = "network.tcp";
    /// `network.udp` — raw UDP.
    pub const NETWORK_UDP: &'static str = "network.udp";
    /// `process.spawn` — starting processes.
    pub const PROCESS_SPAWN: &'static str = "process.spawn";
    /// `env.read` — reading environment variables.
    pub const ENV_READ: &'static str = "env.read";
    /// `clock.wall` — wall-clock time.
    pub const CLOCK_WALL: &'static str = "clock.wall";
    /// `clock.monotonic` — monotonic time.
    pub const CLOCK_MONOTONIC: &'static str = "clock.monotonic";
    /// `clock` — the umbrella grant covering both clocks.
    pub const CLOCK: &'static str = "clock";
    /// `crypto.random` — host entropy.
    pub const CRYPTO_RANDOM: &'static str = "crypto.random";
    /// `crypto.keystore` — host keystore access.
    pub const CRYPTO_KEYSTORE: &'static str = "crypto.keystore";
    /// `poppy` — the game-host namespace.
    pub const POPPY: &'static str = "poppy";

    /// Parses and validates a dotted capability path.
    pub fn parse(path: &str) -> (result: Result<Capability, CapabilityError>)
        ensures
            match result {
                Ok(capability) => parse_capability_outcome(path@) == Ok::<
                    Seq<char>,
                    Option<Seq<char>>,
                >(capability@),
                Err(CapabilityError::Empty) => parse_capability_outcome(path@) == Err::<
                    Seq<char>,
                    Option<Seq<char>>,
                >(None),
                Err(CapabilityError::InvalidSegment(seg)) => parse_capability_outcome(path@)
                    == Err::<Seq<char>, Option<Seq<char>>>(Some(seg@)),
            },
    {
        if path.is_empty() {
            return Err(CapabilityError::Empty);
        }
        let segments = split_str(path, '.');
        let ghost segs = split(path@, '.');
        let mut k: usize = 0;
        assert(segs.skip(0) =~= segs);
        while k < segments.len()
            invariant
                views(segments@) == segs,
                segs == split(path@, '.'),
                path@.len() > 0,
                k <= segments.len(),
                first_invalid_segment(segs) == first_invalid_segment(segs.skip(k as int)),
            decreases segments.len() - k,
        {
            let segment = segments[k];
            assert(segs.skip(k as int)[0] == segment@);
            assert(segs.skip(k as int).drop_first() =~= segs.skip(k + 1));
            if !is_valid_segment(segment) {
                assert(first_invalid_segment(segs.skip(k as int)) == Some(segment@));
                return Err(CapabilityError::InvalidSegment(String::from_str(segment)));
            }
            k = k + 1;
        }
        assert(segs.skip(k as int).len() == 0);
        Ok(Capability(String::from_str(path)))
    }

    /// The path text, for diagnostics and schema round-trips.
    pub fn name(&self) -> (name: &str)
        ensures
            name@ == self@,
            valid_capability(name@),
    {
        proof {
            use_type_invariant(self);
        }
        self.0.as_str()
    }

    /// The path text as an owned string.
    pub fn to_string(&self) -> (text: String)
        ensures
            text@ == self@,
    {
        self.0.clone()
    }

    /// The immediate enclosing namespace, if any: `clock.wall` → `clock`.
    pub fn parent(&self) -> (parent: Option<Capability>)
        ensures
            match parent {
                Some(p) => has_char(self@, '.') && p@ == self@.take(
                    last_index(self@, '.'),
                ),
                None => !has_char(self@, '.'),
            },
    {
        proof {
            use_type_invariant(self);
        }
        let chars = chars_of(self.0.as_str());
        let mut i: usize = chars.len();
        while i > 0
            invariant
                chars@ == self@,
                valid_capability(self@),
                i <= chars@.len(),
                forall|j: int| i <= j < chars@.len() ==> chars@[j] != '.',
            decreases i,
        {
            if chars[i - 1] == '.' {
                proof {
                    lemma_last_index_unique(self@, '.', i - 1);
                    lemma_parent_is_capability(self@, i - 1);
                }
                let text = self.0.as_str().substring_char(0, i - 1);
                return Some(Capability(String::from_str(text)));
            }
            i = i - 1;
        }
        None
    }

    /// Whether this capability covers `other`: itself or anything below it.
    pub fn grants(&self, other: &Capability) -> (covered: bool)
        ensures
            covered == covers(self@, other@),
    {
        let mine = chars_of(self.0.as_str());
        let theirs = chars_of(other.0.as_str());
        if mine.len() == theirs.len() {
            return chars_equal(&mine, &theirs);
        }
        if theirs.len() <= mine.len() {
            proof {
                if self@ == other@ {
                    assert(mine@.len() == theirs@.len());
                }
            }
            return false;
        }
        let mut i: usize = 0;
        while i < mine.len()
            invariant
                mine@ == self@,
                theirs@ == other@,
                mine@.len() < theirs@.len(),
                i <= mine@.len(),
                forall|j: int| 0 <= j < i ==> mine@[j] == theirs@[j],
            decreases mine.len() - i,
        {
            if mine[i] != theirs[i] {
                proof {
                    assert(other@.take(self@.len() as int)[i as int] != self@[i as int]);
                }
                return false;
            }
            i = i + 1;
        }
        assert(other@.take(self@.len() as int) =~= self@);
        theirs[mine.len()] == '.'
    }

    /// A copy of this capability.
    pub fn duplicate(&self) -> (copy: Capability)
        ensures
            copy@ == self@,
    {
        proof {
            use_type_invariant(self);
        }
        Capability(self.0.clone())
    }
}

impl View for Capability {
    type V = Seq<char>;

    closed spec fn view(&self) -> Seq<char> {
        self.0@
    }
}

impl PartialEq for Capability {
    fn eq(&self, other: &Self) -> (same: bool) {
        self.0 == other.0
    }
}

impl vstd::std_specs::cmp::PartialEqSpecImpl for Capability {
    open spec fn obeys_eq_spec() -> bool {
        true
    }

    open spec fn eq_spec(&self, other: &Self) -> bool {
        self@ == other@
    }
}

impl Eq for Capability {
}

/// Index of the last `c` in `s`, or -1 when there is none.
pub open spec fn last_index(s: Seq<char>, c: char) -> int
    decreases s.len(),
{
    if s.len() == 0 {
        -1
    } else if s.last() == c {
        s.len() - 1
    } else {
        last_index(s.drop_last(), c)
    }
}

proof fn lemma_last_index_unique(s: Seq<char>, c: char, k: int)
    requires
        0 <= k < s.len(),
        s[k] == c,
        forall|j: int| k < j < s.len() ==> s[j] != c,
    ensures
        last_index(s, c) == k,
    decreases s.len(),
{
    if s.last() != c {
        assert forall|j: int| k < j < s.drop_last().len() implies s.drop_last()[j] != c by {
            assert(s.drop_last()[j] == s[j]);
        }
        lemma_last_index_unique(s.drop_last(), c, k);
    }
}

/// The parent of a valid path with a dot is itself a valid capability.
proof fn lemma_parent_is_capability(s: Seq<char>, k: int)
    requires
        valid_capability(s),
        0 <= k < s.len(),
        s[k] == '.',
    ensures
        valid_capability(s.take(k)),
{
    lemma_valid_capability_chars(s);
    let p = s.take(k);
    // The parent starts with the first segment of `s`, which is non-empty.
    lemma_first_index(s, '.');
    let f = first_index(s, '.');
    assert(f <= k);
    assert(split(s, '.')[0] == s.take(f));
    assert(valid_segment(s.take(f))) by {
        lemma_first_invalid_none_all(split(s, '.'));
    }
    assert(f > 0);
    assert(p[k - 1] != '.') by {
        lemma_dot_followed_by_lower(s, k - 1);
    }
    lemma_valid_capability_from_chars(p);
}

/// Character-level reading of validity: first char lowercase, every char a segment char
/// or a dot, and every dot followed by a lowercase letter.
pub open spec fn capability_chars_ok(s: Seq<char>) -> bool {
    &&& s.len() > 0
    &&& is_lower(s[0])
    &&& forall|i: int| 0 <= i < s.len() ==> (is_segment_tail_char(#[trigger] s[i]) || s[i] == '.')
    &&& forall|i: int| 0 <= i < s.len() && #[trigger] s[i] == '.' ==> i + 1 < s.len() && is_lower(s[i + 1])
}

proof fn lemma_first_invalid_none_all(segs: Seq<Seq<char>>)
    requires
        first_invalid_segment(segs) is None,
    ensures
        forall|k: int| 0 <= k < segs.len() ==> valid_segment(#[trigger] segs[k]),
    decreases segs.len(),
{
    if segs.len() > 0 {
        lemma_first_invalid_none_all(segs.drop_first());
        assert forall|k: int| 0 <= k < segs.len() implies valid_segment(#[trigger] segs[k]) by {
            if k > 0 {
                assert(segs[k] == segs.drop_first()[k - 1]);
            }
        }
    }
}

proof fn lemma_all_valid_first_invalid_none(segs: Seq<Seq<char>>)
    requires
        forall|k: int| 0 <= k < segs.len() ==> valid_segment(#[trigger] segs[k]),
    ensures
        first_invalid_segment(segs) is None,
    decreases segs.len(),
{
    if segs.len() > 0 {
        assert(valid_segment(segs[0]));
        assert forall|k: int| 0 <= k < segs.drop_first().len() implies valid_segment(
            #[trigger] segs.drop_first()[k],
        ) by {
            assert(segs.drop_first()[k] == segs[k + 1]);
        }
        lemma_all_valid_first_invalid_none(segs.drop_first());
    }
}

/// Validity of a path is the conjunction of the validity of its segments, read character by
/// character.
proof fn lemma_valid_capability_chars(s: Seq<char>)
    ensures
        valid_capability(s) <==> capability_chars_ok(s),
    decreases s.len(),
{
    lemma_first_index(s, '.');
    let f = first_index(s, '.');
    if s.len() == 0 {
        return;
    }
    if f >= s.len() {
        // One segment: the whole path.
        assert(split(s, '.') == seq![s]);
        assert(split(s, '.').drop_first() =~= Seq::<Seq<char>>::empty());
        assert(first_invalid_segment(Seq::<Seq<char>>::empty()) is None);
        assert(split(s, '.')[0] == s);
        if valid_capability(s) {
            assert(valid_segment(s));
            assert forall|i: int| 0 <= i < s.len() implies (is_segment_tail_char(
                #[trigger] s[i],
            ) || s[i] == '.') by {
                if i == 0 {
                    assert(is_lower(s[0]));
                }
            }
        }
        if capability_chars_ok(s) {
            assert forall|i: int| 1 <= i < s.len() implies is_segment_tail_char(
                #[trigger] s[i],
            ) by {
                assert(s[i] != '.');
            }
            assert(valid_segment(s));
        }
    } else {
        let rest = s.skip(f + 1);
        lemma_valid_capability_chars(rest);
        assert(split(s, '.') == seq![s.take(f)] + split(rest, '.'));
        assert((seq![s.take(f)] + split(rest, '.')).drop_first() =~= split(rest, '.'));
        if valid_capability(s) {
            assert(valid_segment(s.take(f)));
            // rest is non-empty: its first segment is valid.
            lemma_split_segments_lack_separator(rest, '.');
            if rest.len() == 0 {
                assert(split(rest, '.') == seq![rest]) by {
                    lemma_split_no_separator(rest, '.');
                }
                assert(!valid_segment(split(rest, '.')[0]));
            }
            assert(valid_capability(rest));
            assert(capability_chars_ok(rest));
            assert forall|i: int| 0 <= i < s.len() implies (is_segment_tail_char(
                #[trigger] s[i],
            ) || s[i] == '.') by {
                if i < f {
                    assert(s[i] == s.take(f)[i]);
                    if i == 0 {
                        assert(is_lower(s.take(f)[0]));
                    }
                } else if i > f {
                    assert(s[i] == rest[i - f - 1]);
                }
            }
            assert forall|i: int| 0 <= i < s.len() && #[trigger] s[i] == '.' implies i + 1
                < s.len() && is_lower(s[i + 1]) by {
                if i == f {
                    assert(rest[0] == s[i + 1]);
                } else if i > f {
                    assert(s[i] == rest[i - f - 1]);
                    assert(s[i + 1] == rest[i - f]);
                }
            }
            assert(is_lower(s.take(f)[0]));
        }
        if capability_chars_ok(s) {
            assert(s[f + 1] == rest[0]);
            assert forall|i: int| 0 <= i < rest.len() implies (is_segment_tail_char(
                #[trigger] rest[i],
            ) || rest[i] == '.') by {
                assert(rest[i] == s[i + f + 1]);
            }
            assert forall|i: int| 0 <= i < rest.len() && #[trigger] rest[i] == '.' implies i
                + 1 < rest.len() && is_lower(rest[i + 1]) by {
                assert(rest[i] == s[i + f + 1]);
                assert(s[i + f + 1] == '.');
                assert(rest[i + 1] == s[i + f + 2]);
            }
            assert(capability_chars_ok(rest));
            let head = s.take(f);
            assert(f > 0) by {
                if f == 0 {
                    assert(s[0] == '.');
                }
            }
            assert forall|i: int| 1 <= i < head.len() implies is_segment_tail_char(
                #[trigger] head[i],
            ) by {
                assert(head[i] == s[i]);
                assert(s[i] != '.');
            }
            assert(valid_segment(head));
        }
    }
}

proof fn lemma_dot_followed_by_lower(s: Seq<char>, i: int)
    requires
        valid_capability(s),
        0 <= i < s.len(),
        s[i + 1] == '.',
        i + 1 < s.len(),
    ensures
        s[i] != '.',
{
    lemma_valid_capability_chars(s);
    if s[i] == '.' {
        assert(is_lower(s[i + 1]));
    }
}

proof fn lemma_valid_capability_from_chars(p: Seq<char>)
    requires
        p.len() > 0,
        is_lower(p[0]),
        forall|i: int| 0 <= i < p.len() ==> (is_segment_tail_char(#[trigger] p[i]) || p[i] == '.'),
        forall|i: int| 0 <= i < p.len() - 1 && #[trigger] p[i] == '.' ==> is_lower(p[i + 1]),
        p[p.len() - 1] != '.',
    ensures
        valid_capability(p),
{
    lemma_valid_capability_chars(p);
    assert forall|i: int| 0 <= i < p.len() && #[trigger] p[i] == '.' implies i + 1 < p.len()
        && is_lower(p[i + 1]) by {
        if i == p.len() - 1 {
        }
    }
}

/// Whether a segment matches `[a-z][a-z0-9_-]*`.
fn is_valid_segment(segment: &str) -> (ok: bool)
    ensures
        ok == valid_segment(segment@),
{
    let chars = chars_of(segment);
    if chars.len() == 0 {
        return false;
    }
    let first = chars[0];
    if !(first >= 'a' && first <= 'z') {
        return false;
    }
    let mut i: usize = 1;
    while i < chars.len()
        invariant
            chars@ == segment@,
            1 <= i <= chars@.len(),
            is_lower(chars@[0]),
            forall|j: int| 1 <= j < i ==> is_segment_tail_char(#[trigger] chars@[j]),
        decreases chars.len() - i,
    {
        let c = chars[i];
        if !((c >= 'a' && c <= 'z') || (c >= '0' && c <= '9') || c == '_' || c == '-') {
            return false;
        }
        i = i + 1;
    }
    true
}

/// Whether two character vectors hold the same characters.
pub fn chars_equal(a: &Vec<char>, b: &Vec<char>) -> (same: bool)
    ensures
        same == (a@ == b@),
{
    if a.len() != b.len() {
        return false;
    }
    let mut i: usize = 0;
    while i < a.len()
        invariant
            a@.len() == b@.len(),
            i <= a@.len(),
            forall|j: int| 0 <= j < i ==> a@[j] == b@[j],
        decreases a.len() - i,
    {
        if a[i] != b[i] {
            return false;
        }
        i = i + 1;
    }
    assert(a@ =~= b@);
    true
}

} // verus!

verus! {

/// `lex_lt` is irreflexive.
pub proof fn lemma_lex_irreflexive(a: Seq<char>)
    ensures
        !lex_lt(a, a),
    decreases a.len(),
{
    if a.len() > 0 {
        lemma_lex_irreflexive(a.drop_first());
    }
}

/// `lex_lt` is transitive.
pub proof fn lemma_lex_transitive(a: Seq<char>, b: Seq<char>, c: Seq<char>)
    requires
        lex_lt(a, b),
        lex_lt(b, c),
    ensures
        lex_lt(a, c),
    decreases a.len(),
{
    if a.len() > 0 && b.len() > 0 && c.len() > 0 && a[0] == b[0] && b[0] == c[0] {
        lemma_lex_transitive(a.drop_first(), b.drop_first(), c.drop_first());
    }
}

/// `lex_lt` is total on distinct sequences.
pub proof fn lemma_lex_total(a: Seq<char>, b: Seq<char>)
    requires
        a != b,
    ensures
        lex_lt(a, b) || lex_lt(b, a),
    decreases a.len(),
{
    if a.len() > 0 && b.len() > 0 && a[0] == b[0] {
        if a.drop_first() == b.drop_first() {
            assert(a =~= seq![a[0]] + a.drop_first());
            assert(b =~= seq![b[0]] + b.drop_first());
        }
        lemma_lex_total(a.drop_first(), b.drop_first());
    } else if a.len() == 0 && b.len() == 0 {
        assert(a =~= b);
    }
}

/// `lex_lt` is asymmetric.
pub proof fn lemma_lex_asymmetric(a: Seq<char>, b: Seq<char>)
    requires
        lex_lt(a, b),
    ensures
        !lex_lt(b, a),
{
    if lex_lt(b, a) {
        lemma_lex_transitive(a, b, a);
        lemma_lex_irreflexive(a);
    }
}

/// `lex_lt` computed over character vectors.
pub fn chars_less(a: &Vec<char>, b: &Vec<char>) -> (less: bool)
    ensures
        less == lex_lt(a@, b@),
{
    let mut k: usize = 0;
    assert(a@.skip(0) =~= a@);
    assert(b@.skip(0) =~= b@);
    while k < a.len() && k < b.len()
        invariant
            k <= a@.len(),
            k <= b@.len(),
            lex_lt(a@, b@) == lex_lt(a@.skip(k as int), b@.skip(k as int)),
        decreases a.len() - k,
    {
        if a[k] != b[k] {
            return a[k] < b[k];
        }
        assert(a@.skip(k as int).drop_first() =~= a@.skip(k + 1));
        assert(b@.skip(k as int).drop_first() =~= b@.skip(k + 1));
        k = k + 1;
    }
    k < b.len()
}

/// Whether a stored grant covers `x`.
pub open spec fn allows_seq(grants: Seq<Seq<char>>, x: Seq<char>) -> bool {
    exists|i: int| 0 <= i < grants.len() && covers(#[trigger] grants[i], x)
}

/// The canonical shape of a capability set: strictly increasing in path order, and no
/// stored grant covers another.
pub open spec fn canonical(grants: Seq<Seq<char>>) -> bool {
    &&& forall|i: int, j: int| 0 <= i < j < grants.len() ==> lex_lt(#[trigger] grants[i], #[trigger] grants[j])
    &&& forall|i: int, j: int|
        0 <= i < grants.len() && 0 <= j < grants.len() && i != j ==> !covers(
            #[trigger] grants[i],
            #[trigger] grants[j],
        )
}

/// `covers` is reflexive.
pub proof fn law_covers_reflexive(a: Seq<char>)
    ensures
        covers(a, a),
{
}

/// `covers` is transitive: a namespace covers everything below its descendants.
pub proof fn law_covers_transitive(a: Seq<char>, b: Seq<char>, c: Seq<char>)
    requires
        covers(a, b),
        covers(b, c),
    ensures
        covers(a, c),
{
    if a != b && b != c {
        assert(c.take(a.len() as int) =~= b.take(a.len() as int));
        assert(c[a.len() as int] == c.take(b.len() as int)[a.len() as int]);
    }
}

/// A capability never covers a distinct path of the same or smaller length, so siblings
/// and ancestors are never covered.
pub proof fn law_covers_only_descendants(a: Seq<char>, b: Seq<char>)
    requires
        covers(a, b),
        a != b,
    ensures
        b.len() > a.len(),
        b[a.len() as int] == '.',
{
}

/// What a set allows after a grant: what it allowed before, plus the granted subtree.
proof fn lemma_grant_allows(before: Seq<Seq<char>>, cap: Seq<char>, after: Seq<Seq<char>>)
    requires
        forall|x: Seq<char>|
            #![trigger after.contains(x)]
            after.contains(x) <==> (x == cap || (before.contains(x) && !covers(cap, x))),
    ensures
        forall|x: Seq<char>|
            allows_seq(after, x) <==> (allows_seq(before, x) || covers(cap, x)),
{
    assert forall|x: Seq<char>| allows_seq(after, x) <==> (allows_seq(before, x) || covers(cap, x)) by {
        if allows_seq(after, x) {
            let i = choose|i: int| 0 <= i < after.len() && covers(after[i], x);
            assert(after.contains(after[i]));
            if after[i] != cap {
                let j = choose|j: int| 0 <= j < before.len() && before[j] == after[i];
                assert(covers(before[j], x));
            }
        }
        if covers(cap, x) {
            assert(after.contains(cap));
            let i = choose|i: int| 0 <= i < after.len() && after[i] == cap;
            assert(covers(after[i], x));
        }
        if allows_seq(before, x) {
            let j = choose|j: int| 0 <= j < before.len() && covers(before[j], x);
            assert(before.contains(before[j]));
            if covers(cap, before[j]) {
                law_covers_transitive(cap, before[j], x);
                assert(after.contains(cap));
                let i = choose|i: int| 0 <= i < after.len() && after[i] == cap;
                assert(covers(after[i], x));
            } else {
                assert(after.contains(before[j]));
                let i = choose|i: int| 0 <= i < after.len() && after[i] == before[j];
                assert(covers(after[i], x));
            }
        }
    }
}

/// A subsequence of a canonical sequence, taken in order, is canonical.
proof fn lemma_subsequence_canonical(v: Seq<Seq<char>>, sub: Seq<Seq<char>>, origin: Seq<int>)
    requires
        canonical(v),
        sub.len() == origin.len(),
        forall|k: int| 0 <= k < origin.len() ==> 0 <= #[trigger] origin[k] < v.len(),
        forall|k: int| 0 <= k < origin.len() ==> #[trigger] sub[k] == v[origin[k]],
        forall|k: int, l: int| 0 <= k < l < origin.len() ==> #[trigger] origin[k] < #[trigger] origin[l],
    ensures
        canonical(sub),
{
    assert forall|i: int, j: int| 0 <= i < j < sub.len() implies lex_lt(#[trigger] sub[i], #[trigger] sub[j]) by {
        assert(origin[i] < origin[j]);
    }
    assert forall|i: int, j: int| 0 <= i < sub.len() && 0 <= j < sub.len() && i != j implies !covers(
        #[trigger] sub[i],
        #[trigger] sub[j],
    ) by {
        if i < j {
            assert(origin[i] < origin[j]);
        } else {
            assert(origin[j] < origin[i]);
        }
    }
}

proof fn lemma_grant_result(
    before: Seq<Seq<char>>,
    cap: Seq<char>,
    kv: Seq<Seq<char>>,
    origin: Seq<int>,
    position: int,
)
    requires
        canonical(before),
        !allows_seq(before, cap),
        kv.len() == origin.len(),
        forall|k: int| 0 <= k < origin.len() ==> 0 <= #[trigger] origin[k] < before.len(),
        forall|k: int| 0 <= k < origin.len() ==> #[trigger] kv[k] == before[origin[k]],
        forall|k: int, l: int| 0 <= k < l < origin.len() ==> #[trigger] origin[k] < #[trigger] origin[l],
        forall|j: int| 0 <= j < before.len() ==> (covers(cap, #[trigger] before[j]) || exists|k: int| 0 <= k < origin.len() && origin[k] == j),
        forall|k: int| 0 <= k < origin.len() ==> !covers(cap, #[trigger] before[origin[k]]),
        0 <= position <= kv.len(),
        forall|k: int| 0 <= k < position ==> lex_lt(#[trigger] kv[k], cap),
        forall|k: int| position <= k < kv.len() ==> lex_lt(cap, #[trigger] kv[k]),
    ensures
        canonical(kv.insert(position, cap)),
        forall|x: Seq<char>|
            #![trigger kv.insert(position, cap).contains(x)]
            kv.insert(position, cap).contains(x) <==> (x == cap || (before.contains(x) && !covers(cap, x))),
{
    let r = kv.insert(position, cap);
    assert forall|i: int, j: int| 0 <= i < j < r.len() implies lex_lt(#[trigger] r[i], #[trigger] r[j]) by {
        if i < position && j < position {
            assert(r[i] == kv[i] && r[j] == kv[j]);
            assert(origin[i] < origin[j]);
        } else if i < position && j == position {
        } else if i < position {
            assert(r[j] == kv[j - 1]);
            assert(origin[i] < origin[j - 1]);
        } else if i == position {
            assert(r[j] == kv[j - 1]);
        } else {
            assert(r[i] == kv[i - 1] && r[j] == kv[j - 1]);
            assert(origin[i - 1] < origin[j - 1]);
        }
    }
    assert forall|i: int, j: int| 0 <= i < r.len() && 0 <= j < r.len() && i != j implies !covers(
        #[trigger] r[i],
        #[trigger] r[j],
    ) by {
        let oi = if i < position { i } else { i - 1 };
        let oj = if j < position { j } else { j - 1 };
        if i == position {
            assert(r[j] == kv[oj]);
        } else if j == position {
            assert(r[i] == kv[oi]);
            assert(r[i] == before[origin[oi]]);
            if covers(r[i], cap) {
                assert(allows_seq(before, cap));
            }
        } else {
            assert(r[i] == kv[oi] && r[j] == kv[oj]);
            if oi < oj {
                assert(origin[oi] < origin[oj]);
            } else {
                assert(origin[oj] < origin[oi]);
            }
        }
    }
    assert forall|x: Seq<char>| #![trigger r.contains(x)] r.contains(x) <==> (x == cap || (before.contains(x) && !covers(cap, x))) by {
        if r.contains(x) {
            let i = choose|i: int| 0 <= i < r.len() && r[i] == x;
            if i != position {
                let oi = if i < position { i } else { i - 1 };
                assert(r[i] == kv[oi]);
                assert(before[origin[oi]] == x);
            } else {
                assert(r[position] == cap);
            }
        }
        if x == cap {
            assert(r[position] == cap);
        } else if before.contains(x) && !covers(cap, x) {
            let j = choose|j: int| 0 <= j < before.len() && before[j] == x;
            let k = choose|k: int| 0 <= k < origin.len() && origin[k] == j;
            if k < position {
                assert(r[k] == kv[k]);
            } else {
                assert(r[k + 1] == kv[k]);
            }
        }
    }
}

/// A deny-by-default set of granted capabilities, kept minimal and in path order.
#[derive(Debug)]
pub struct CapabilitySet {
    grants: Vec<Capability>,
}

impl View for CapabilitySet {
    type V = Seq<Seq<char>>;

    closed spec fn view(&self) -> Seq<Seq<char>> {
        self.grants@.map_values(|c: Capability| c@)
    }
}

impl CapabilitySet {
    #[verifier::type_invariant]
    spec fn well_formed(self) -> bool {
        canonical(self@)
    }

    /// An empty set: every capability is denied.
    pub fn none() -> (set: CapabilitySet)
        ensures
            set@ == Seq::<Seq<char>>::empty(),
            canonical(set@),
    {
        let set = CapabilitySet { grants: Vec::new() };
        assert(set@ =~= Seq::<Seq<char>>::empty());
        set
    }

    /// Whether any stored grant covers `capability`.
    pub fn allows(&self, capability: &Capability) -> (allowed: bool)
        ensures
            allowed == allows_seq(self@, capability@),
    {
        let mut i: usize = 0;
        while i < self.grants.len()
            invariant
                i <= self.grants@.len(),
                forall|j: int| 0 <= j < i ==> !covers(#[trigger] self@[j], capability@),
            decreases self.grants.len() - i,
        {
            if self.grants[i].grants(capability) {
                assert(covers(self@[i as int], capability@));
                return true;
            }
            i = i + 1;
        }
        false
    }

    /// Adds a grant, returning whether the set changed.
    ///
    /// Granting a path already covered is a no-op; granting a broader path drops the
    /// narrower grants it subsumes.
    pub fn grant(&mut self, capability: Capability) -> (changed: bool)
        ensures
            changed == !allows_seq(old(self)@, capability@),
            canonical(final(self)@),
            !changed ==> final(self)@ == old(self)@,
            changed ==> forall|x: Seq<char>|
                #![trigger final(self)@.contains(x)]
                final(self)@.contains(x) <==> (x == capability@ || (old(self)@.contains(x)
                    && !covers(capability@, x))),
            forall|x: Seq<char>|
                #![trigger allows_seq(final(self)@, x)]
                allows_seq(final(self)@, x) <==> (allows_seq(old(self)@, x) || covers(capability@, x)),
    {
        proof {
            use_type_invariant(&*self);
        }
        if self.allows(&capability) {
            proof {
                assert forall|x: Seq<char>| covers(capability@, x) implies allows_seq(self@, x) by {
                    let i = choose|i: int| 0 <= i < self@.len() && covers(self@[i], capability@);
                    law_covers_transitive(self@[i], capability@, x);
                }
            }
            return false;
        }
        let ghost before = self@;
        let mut old_grants: Vec<Capability> = Vec::new();
        std::mem::swap(&mut old_grants, &mut self.grants);
        assert(old_grants@.map_values(|c: Capability| c@) == before);
        let mine = chars_of(capability.name());
        // Keep the grants the new capability does not subsume, and find its position.
        let mut kept: Vec<Capability> = Vec::new();
        let mut position: usize = 0;
        let ghost mut origin: Seq<int> = Seq::empty();
        let n = old_grants.len();
        let ghost source = old_grants@;
        let mut taken: usize = 0;
        for item in it: old_grants
            invariant
                n == before.len(),
                it.seq() == source,
                source.len() == before.len(),
                taken == it.index(),
                kept@.len() <= taken,
                forall|k: int| 0 <= k < source.len() ==> (#[trigger] source[k])@ == before[k],
                canonical(before),
                !allows_seq(before, capability@),
                mine@ == capability@,
                kept@.len() == origin.len(),
                forall|k: int| 0 <= k < origin.len() ==> 0 <= #[trigger] origin[k] < taken,
                forall|k: int| 0 <= k < origin.len() ==> (#[trigger] kept@[k])@ == before[origin[k]],
                forall|k: int, l: int| 0 <= k < l < origin.len() ==> #[trigger] origin[k] < #[trigger] origin[l],
                forall|j: int| 0 <= j < taken ==> (covers(capability@, #[trigger] before[j]) || exists|k: int| 0 <= k < origin.len() && origin[k] == j),
                forall|k: int| 0 <= k < origin.len() ==> !covers(capability@, #[trigger] before[origin[k]]),
                position <= kept@.len(),
                forall|k: int| 0 <= k < position ==> lex_lt(#[trigger] kept@[k]@, capability@),
                forall|k: int| position <= k < kept@.len() ==> lex_lt(capability@, #[trigger] kept@[k]@),
        {
            assert(item == source[taken as int]);
            assert(item@ == before[taken as int]);
            let ghost origin_before = origin;
            let theirs = chars_of(item.name());
            if !capability.grants(&item) {
                proof {
                    if origin.len() > 0 {
                        assert(origin[origin.len() - 1] < taken);
                    }
                }
                let below = chars_less(&theirs, &mine);
                if below {
                    proof {
                        // Every earlier kept grant precedes this one, so none of them follows
                        // the new capability.
                        assert forall|k: int| 0 <= k < kept@.len() implies lex_lt(#[trigger] kept@[k]@, capability@) by {
                            lemma_lex_transitive(before[origin[k]], before[taken as int], capability@);
                        }
                    }
                    position = kept.len() + 1;
                }
                kept.push(item);
                proof {
                    origin = origin.push(taken as int);
                    if !below {
                        assert(theirs@ != mine@) by {
                            if theirs@ == mine@ {
                                assert(covers(before[taken as int], capability@));
                            }
                        }
                        lemma_lex_total(theirs@, mine@);
                    }
                }
            }
            proof {
                assert forall|j: int| 0 <= j < taken + 1 implies (covers(capability@, #[trigger] before[j]) || exists|k: int| 0 <= k < origin.len() && origin[k] == j) by {
                    if j < taken {
                        if !covers(capability@, before[j]) {
                            let k = choose|k: int| 0 <= k < origin_before.len() && origin_before[k] == j;
                            assert(origin[k] == j);
                        }
                    } else if !covers(capability@, before[j]) {
                        assert(origin[origin.len() - 1] == j);
                    }
                }
            }
            taken = taken + 1;
        }
        let ghost kept_view = kept@.map_values(|c: Capability| c@);
        proof {
            lemma_grant_result(before, capability@, kept_view, origin, position as int);
        }
        let ghost cap_view = capability@;
        kept.insert(position, capability);
        assert(kept@.map_values(|c: Capability| c@) =~= kept_view.insert(position as int, cap_view));
        self.grants = kept;
        proof {
            lemma_grant_allows(before, cap_view, self@);
        }
        true
    }
}


impl CapabilitySet {
    /// Removes an exact grant, returning whether the set changed.
    ///
    /// Revoking `clock` does not drop a separate `clock.wall` grant.
    pub fn revoke(&mut self, capability: &Capability) -> (changed: bool)
        ensures
            changed == old(self)@.contains(capability@),
            canonical(final(self)@),
            forall|x: Seq<char>|
                #![trigger final(self)@.contains(x)]
                final(self)@.contains(x) <==> (old(self)@.contains(x) && x != capability@),
    {
        proof {
            use_type_invariant(&*self);
        }
        let ghost before = self@;
        let mut i: usize = 0;
        while i < self.grants.len()
            invariant
                before == self@,
                before == old(self)@,
                canonical(before),
                i <= self@.len(),
                forall|j: int| 0 <= j < i ==> #[trigger] self@[j] != capability@,
            decreases self.grants.len() - i,
        {
            let mine = chars_of(self.grants[i].name());
            let theirs = chars_of(capability.name());
            if chars_equal(&mine, &theirs) {
                let mut grants: Vec<Capability> = Vec::new();
                std::mem::swap(&mut grants, &mut self.grants);
                assert(grants@.map_values(|c: Capability| c@) == before);
                let ghost index = i as int;
                assert(before[index] == capability@);
                assert(before.contains(capability@));
                grants.remove(i);
                let ghost origin = Seq::new((before.len() - 1) as nat, |k: int| if k < index { k } else { k + 1 });
                assert(grants@.map_values(|c: Capability| c@) =~= before.remove(index));
                proof {
                    lemma_subsequence_canonical(before, before.remove(index), origin);
                    assert forall|x: Seq<char>| #![trigger before.remove(index).contains(x)]
                        before.remove(index).contains(x) <==> (before.contains(x) && x != capability@) by {
                        if before.remove(index).contains(x) {
                            let k = choose|k: int| 0 <= k < before.remove(index).len() && before.remove(index)[k] == x;
                            assert(before[origin[k]] == x);
                            assert(origin[k] != index);
                            if x == capability@ {
                                assert(covers(before[origin[k]], before[index]));
                            }
                        }
                        if before.contains(x) && x != capability@ {
                            let j = choose|j: int| 0 <= j < before.len() && before[j] == x;
                            if j < index {
                                assert(before.remove(index)[j] == x);
                            } else {
                                assert(before.remove(index)[j - 1] == x);
                            }
                        }
                    }
                }
                self.grants = grants;
                assert(self@ == before.remove(index));
                return true;
            }
            i = i + 1;
        }
        false
    }

    /// The upper-bound intersection: grants kept only where `policy` allows them.
    ///
    /// A broad grant the policy only partially allows is dropped rather than split, so the
    /// result can only deny more than either input.
    pub fn narrow(&self, policy: &CapabilitySet) -> (narrowed: CapabilitySet)
        ensures
            canonical(narrowed@),
            forall|x: Seq<char>|
                #![trigger narrowed@.contains(x)]
                narrowed@.contains(x) <==> (self@.contains(x) && allows_seq(policy@, x)),
            forall|x: Seq<char>|
                allows_seq(narrowed@, x) ==> allows_seq(self@, x) && allows_seq(policy@, x),
    {
        proof {
            use_type_invariant(self);
        }
        let mut kept: Vec<Capability> = Vec::new();
        let ghost mut origin: Seq<int> = Seq::empty();
        let mut i: usize = 0;
        while i < self.grants.len()
            invariant
                canonical(self@),
                i <= self@.len(),
                kept@.len() == origin.len(),
                forall|k: int| 0 <= k < origin.len() ==> 0 <= #[trigger] origin[k] < i,
                forall|k: int| 0 <= k < origin.len() ==> (#[trigger] kept@[k])@ == self@[origin[k]],
                forall|k: int, l: int| 0 <= k < l < origin.len() ==> #[trigger] origin[k] < #[trigger] origin[l],
                forall|k: int| 0 <= k < origin.len() ==> allows_seq(policy@, #[trigger] self@[origin[k]]),
                forall|j: int| 0 <= j < i ==> (!allows_seq(policy@, #[trigger] self@[j]) || exists|k: int| 0 <= k < origin.len() && origin[k] == j),
            decreases self.grants.len() - i,
        {
            let ghost origin_before = origin;
            if policy.allows(&self.grants[i]) {
                kept.push(self.grants[i].duplicate());
                proof {
                    origin = origin.push(i as int);
                }
            }
            proof {
                assert forall|j: int| 0 <= j < i + 1 implies (!allows_seq(policy@, #[trigger] self@[j]) || exists|k: int| 0 <= k < origin.len() && origin[k] == j) by {
                    if j < i && allows_seq(policy@, self@[j]) {
                        let k = choose|k: int| 0 <= k < origin_before.len() && origin_before[k] == j;
                        assert(origin[k] == j);
                    } else if j == i && allows_seq(policy@, self@[j]) {
                        assert(origin[origin.len() - 1] == j);
                    }
                }
            }
            i = i + 1;
        }
        let ghost kv = kept@.map_values(|c: Capability| c@);
        proof {
            lemma_subsequence_canonical(self@, kv, origin);
            assert forall|x: Seq<char>| #![trigger kv.contains(x)] kv.contains(x) <==> (self@.contains(x) && allows_seq(policy@, x)) by {
                if kv.contains(x) {
                    let k = choose|k: int| 0 <= k < kv.len() && kv[k] == x;
                    assert(self@[origin[k]] == x);
                }
                if self@.contains(x) && allows_seq(policy@, x) {
                    let j = choose|j: int| 0 <= j < self@.len() && self@[j] == x;
                    let k = choose|k: int| 0 <= k < origin.len() && origin[k] == j;
                    assert(kv[k] == x);
                }
            }
            assert forall|x: Seq<char>| allows_seq(kv, x) implies allows_seq(self@, x) && allows_seq(policy@, x) by {
                let k = choose|k: int| 0 <= k < kv.len() && covers(kv[k], x);
                assert(kv[k] == self@[origin[k]]);
                let p = choose|p: int| 0 <= p < policy@.len() && covers(policy@[p], kv[k]);
                law_covers_transitive(policy@[p], kv[k], x);
            }
        }
        let narrowed = CapabilitySet { grants: kept };
        assert(narrowed@ == kv);
        narrowed
    }

    /// Whether nothing is granted.
    pub fn is_empty(&self) -> (empty: bool)
        ensures
            empty == (self@.len() == 0),
    {
        self.grants.len() == 0
    }

    /// Number of stored grants.
    pub fn len(&self) -> (count: usize)
        ensures
            count == self@.len(),
    {
        self.grants.len()
    }

    /// The stored grants, in path order.
    pub fn as_slice(&self) -> (grants: &[Capability])
        ensures
            grants@.map_values(|c: Capability| c@) == self@,
            canonical(self@),
    {
        proof {
            use_type_invariant(self);
        }
        self.grants.as_slice()
    }

    /// Iterates the stored grants in path order.
    pub fn iter(&self) -> (grants: std::slice::Iter<'_, Capability>)
        ensures
            vstd::std_specs::iter::IteratorSpec::remaining(&grants).map_values(|c: &Capability| c@) == self@,
    {
        let grants = self.grants.iter();
        assert(vstd::std_specs::iter::IteratorSpec::remaining(&grants).map_values(|c: &Capability| c@) =~= self@);
        grants
    }

    /// Fails when `capability` is not granted, naming the denied operation.
    pub fn require(&self, capability: &Capability, operation: &str) -> (result: Result<(), HostFault>)
        ensures
            result is Ok <==> allows_seq(self@, capability@),
            match result {
                Ok(_) => true,
                Err(HostFault::CapabilityDenied { capability: denied, operation: named }) => denied@
                    == capability@ && named@ == operation@,
                Err(_) => false,
            },
    {
        if self.allows(capability) {
            return Ok(());
        }
        Err(HostFault::CapabilityDenied {
            capability: capability.duplicate(),
            operation: String::from_str(operation),
        })
    }

    /// The minimal set covering every capability of `capabilities`, granted in order.
    pub fn from_capabilities(capabilities: Vec<Capability>) -> (set: CapabilitySet)
        ensures
            canonical(set@),
            forall|x: Seq<char>|
                allows_seq(set@, x) <==> exists|k: int| 0 <= k < capabilities@.len() && covers(
                    #[trigger] capabilities@[k]@,
                    x,
                ),
            forall|e: Seq<char>|
                #![trigger set@.contains(e)]
                set@.contains(e) ==> exists|k: int| 0 <= k < capabilities@.len() && #[trigger] capabilities@[k]@ == e,
    {
        let mut set = CapabilitySet::none();
        let ghost all = capabilities@;
        let n = capabilities.len();
        let mut taken: usize = 0;
        for capability in it: capabilities
            invariant
                it.seq() == all,
                all.len() == n,
                taken == it.index(),
                canonical(set@),
                forall|x: Seq<char>|
                    allows_seq(set@, x) <==> exists|k: int| 0 <= k < taken && covers(#[trigger] all[k]@, x),
                forall|e: Seq<char>|
                    #![trigger set@.contains(e)]
                    set@.contains(e) ==> exists|k: int| 0 <= k < taken && #[trigger] all[k]@ == e,
        {
            let ghost before = set@;
            let ghost cap = capability@;
            assert(all[taken as int] == capability);
            let changed = set.grant(capability);
            proof {
                assert forall|x: Seq<char>| allows_seq(set@, x) <==> exists|k: int| 0 <= k < taken + 1 && covers(#[trigger] all[k]@, x) by {
                    assert(allows_seq(set@, x) == (allows_seq(before, x) || covers(cap, x)));
                    assert(allows_seq(before, x) == exists|k: int| 0 <= k < taken && covers(#[trigger] all[k]@, x));
                    if allows_seq(set@, x) {
                        if allows_seq(before, x) {
                            let k = choose|k: int| 0 <= k < taken && covers(#[trigger] all[k]@, x);
                            assert(0 <= k < taken + 1 && covers(all[k]@, x));
                        } else {
                            assert(covers(all[taken as int]@, x));
                        }
                    }
                    if exists|k: int| 0 <= k < taken + 1 && covers(#[trigger] all[k]@, x) {
                        let k = choose|k: int| 0 <= k < taken + 1 && covers(#[trigger] all[k]@, x);
                        if k < taken {
                            assert(allows_seq(before, x));
                        }
                    }
                }
                assert forall|e: Seq<char>| #![trigger set@.contains(e)] set@.contains(e) implies exists|k: int| 0 <= k < taken + 1 && #[trigger] all[k]@ == e by {
                    if changed {
                        if e == cap {
                            assert(all[taken as int]@ == e);
                        } else {
                            assert(before.contains(e));
                            let k = choose|k: int| 0 <= k < taken && #[trigger] all[k]@ == e;
                        }
                    } else {
                        assert(before.contains(e));
                        let k = choose|k: int| 0 <= k < taken && #[trigger] all[k]@ == e;
                    }
                }
            }
            taken = taken + 1;
        }
        set
    }
}
} // verus!
