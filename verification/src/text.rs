//! Character-level text model shared by every validator of the crate.
//!
//! Strings are specified through their `Seq<char>` views. Splitting on a separator is
//! defined once here, as `str::split` behaves, so that each grammar (capability paths,
//! package coordinates, SemVer versions, relative paths) is stated over the same segments.
use vstd::prelude::*;
use vstd::string::*;

verus! {

/// Index of the first `c` in `s`, or `s.len()` when there is none.
pub open spec fn first_index(s: Seq<char>, c: char) -> int
    decreases s.len(),
{
    if s.len() == 0 {
        0
    } else if s[0] == c {
        0
    } else {
        1 + first_index(s.drop_first(), c)
    }
}

/// `s` split on every occurrence of `c`, as `str::split(c)` yields it.
pub open spec fn split(s: Seq<char>, c: char) -> Seq<Seq<char>>
    decreases s.len(),
{
    let i = first_index(s, c);
    if i >= s.len() {
        seq![s]
    } else {
        proof {
            lemma_first_index(s, c);
        }
        seq![s.take(i)] + split(s.skip(i + 1), c)
    }
}

/// Whether `c` occurs in `s`.
pub open spec fn has_char(s: Seq<char>, c: char) -> bool {
    exists|i: int| 0 <= i < s.len() && s[i] == c
}

pub proof fn lemma_first_index(s: Seq<char>, c: char)
    ensures
        0 <= first_index(s, c) <= s.len(),
        first_index(s, c) < s.len() ==> s[first_index(s, c)] == c,
        forall|j: int| 0 <= j < first_index(s, c) ==> s[j] != c,
    decreases s.len(),
{
    if s.len() > 0 && s[0] != c {
        lemma_first_index(s.drop_first(), c);
        assert forall|j: int| 0 <= j < first_index(s, c) implies s[j] != c by {
            if j > 0 {
                assert(s[j] == s.drop_first()[j - 1]);
            }
        }
    }
}

/// The first index is characterized by the two properties of `lemma_first_index`.
pub proof fn lemma_first_index_unique(s: Seq<char>, c: char, k: int)
    requires
        0 <= k <= s.len(),
        k < s.len() ==> s[k] == c,
        forall|j: int| 0 <= j < k ==> s[j] != c,
    ensures
        first_index(s, c) == k,
{
    lemma_first_index(s, c);
    let f = first_index(s, c);
    if f < k {
        assert(s[f] != c);
    } else if k < f {
        assert(s[k] != c);
    }
}

/// No segment of a split contains the separator, and there is one more segment than there
/// are separators.
pub proof fn lemma_split_segments_lack_separator(s: Seq<char>, c: char)
    ensures
        split(s, c).len() >= 1,
        forall|k: int| 0 <= k < split(s, c).len() ==> !has_char(#[trigger] split(s, c)[k], c),
    decreases s.len(),
{
    lemma_first_index(s, c);
    let i = first_index(s, c);
    if i < s.len() {
        lemma_split_segments_lack_separator(s.skip(i + 1), c);
        let rest = split(s.skip(i + 1), c);
        assert forall|k: int| 0 <= k < split(s, c).len() implies !has_char(
            #[trigger] split(s, c)[k],
            c,
        ) by {
            if k == 0 {
                assert(split(s, c)[0] == s.take(i));
            } else {
                assert(split(s, c)[k] == rest[k - 1]);
            }
        }
    } else {
        assert(split(s, c)[0] == s);
    }
}

/// Splitting a string without the separator yields the string itself.
pub proof fn lemma_split_no_separator(s: Seq<char>, c: char)
    requires
        !has_char(s, c),
    ensures
        split(s, c) == seq![s],
{
    lemma_first_index(s, c);
    if first_index(s, c) < s.len() {
        assert(s[first_index(s, c)] == c);
    }
}

/// One step of the split: the part before the first separator, then the split of the rest.
pub proof fn lemma_split_step(s: Seq<char>, c: char, start: int, i: int)
    requires
        0 <= start <= i < s.len(),
        s[i] == c,
        forall|j: int| start <= j < i ==> s[j] != c,
    ensures
        split(s.skip(start), c) == seq![s.subrange(start, i)] + split(s.skip(i + 1), c),
{
    let t = s.skip(start);
    assert forall|j: int| 0 <= j < i - start implies t[j] != c by {
        assert(t[j] == s[start + j]);
    }
    lemma_first_index_unique(t, c, i - start);
    assert(t.take(i - start) =~= s.subrange(start, i));
    assert(t.skip(i - start + 1) =~= s.skip(i + 1));
}

/// The final step of the split: the remainder has no separator.
pub proof fn lemma_split_last(s: Seq<char>, c: char, start: int)
    requires
        0 <= start <= s.len(),
        forall|j: int| start <= j < s.len() ==> s[j] != c,
    ensures
        split(s.skip(start), c) == seq![s.skip(start)],
{
    let t = s.skip(start);
    assert forall|j: int| 0 <= j < t.len() implies t[j] != c by {
        assert(t[j] == s[start + j]);
    }
    lemma_first_index_unique(t, c, t.len() as int);
}

/// The views of a vector of string slices.
pub open spec fn views(v: Seq<&str>) -> Seq<Seq<char>> {
    v.map_values(|x: &str| x@)
}

/// The views of a vector of owned strings.
pub open spec fn string_views(v: Seq<String>) -> Seq<Seq<char>> {
    v.map_values(|x: String| x@)
}

/// The characters of `s`, in order.
pub fn chars_of(s: &str) -> (out: Vec<char>)
    ensures
        out@ == s@,
{
    let mut out: Vec<char> = Vec::new();
    for c in it: s.chars()
        invariant
            out@ == it.seq().take(it.index() as int),
    {
        out.push(c);
    }
    out
}

/// `s` split on every `sep`, as borrowed slices.
pub fn split_str<'a>(s: &'a str, sep: char) -> (out: Vec<&'a str>)
    ensures
        views(out@) == split(s@, sep),
{
    let chars = chars_of(s);
    let n = chars.len();
    let mut out: Vec<&'a str> = Vec::new();
    let mut start: usize = 0;
    let mut i: usize = 0;
    assert(s@.skip(0) =~= s@);
    while i < n
        invariant
            chars@ == s@,
            n == s@.len(),
            start <= i <= n,
            forall|j: int| start <= j < i ==> s@[j] != sep,
            views(out@) + split(s@.skip(start as int), sep) == split(s@, sep),
        decreases n - i,
    {
        if chars[i] == sep {
            proof {
                lemma_split_step(s@, sep, start as int, i as int);
            }
            let piece = s.substring_char(start, i);
            let ghost before = out@;
            out.push(piece);
            assert(views(out@) =~= views(before) + seq![piece@]);
            assert(views(out@) + split(s@.skip(i + 1), sep) =~= views(before) + split(
                s@.skip(start as int),
                sep,
            ));
            start = i + 1;
        }
        i = i + 1;
    }
    proof {
        lemma_split_last(s@, sep, start as int);
    }
    let piece = s.substring_char(start, n);
    let ghost before = out@;
    out.push(piece);
    assert(piece@ =~= s@.skip(start as int));
    assert(views(out@) =~= views(before) + seq![piece@]);
    out
}

/// Whether `c` occurs in `s`.
pub fn contains_char(s: &str, c: char) -> (b: bool)
    ensures
        b == has_char(s@, c),
{
    let chars = chars_of(s);
    let mut i: usize = 0;
    while i < chars.len()
        invariant
            chars@ == s@,
            i <= chars.len(),
            forall|j: int| 0 <= j < i ==> s@[j] != c,
        decreases chars.len() - i,
    {
        if chars[i] == c {
            return true;
        }
        i = i + 1;
    }
    false
}

} // verus!

verus! {

/// Appends one character (`String::push`).
#[verifier::external_body]
pub(crate) fn push_char(s: &mut String, c: char)
    ensures
        final(s)@ == old(s)@.push(c),
{
    s.push(c);
}

/// The decimal digit character for `d < 10`.
pub open spec fn digit_char(d: nat) -> char {
    if d == 0 { '0' } else if d == 1 { '1' } else if d == 2 { '2' } else if d == 3 { '3' }
    else if d == 4 { '4' } else if d == 5 { '5' } else if d == 6 { '6' } else if d == 7 { '7' }
    else if d == 8 { '8' } else { '9' }
}

/// The decimal text of `n`, without leading zeros (`0` is `"0"`).
pub open spec fn decimal(n: nat) -> Seq<char>
    decreases n,
{
    if n < 10 {
        seq![digit_char(n)]
    } else {
        decimal(n / 10).push(digit_char(n % 10))
    }
}

fn digit_of(d: u64) -> (c: char)
    requires
        d < 10,
    ensures
        c == digit_char(d as nat),
{
    if d == 0 { '0' } else if d == 1 { '1' } else if d == 2 { '2' } else if d == 3 { '3' }
    else if d == 4 { '4' } else if d == 5 { '5' } else if d == 6 { '6' } else if d == 7 { '7' }
    else if d == 8 { '8' } else { '9' }
}

/// Appends the decimal text of `n` to `out`.
pub fn push_decimal(out: &mut String, n: u64)
    ensures
        final(out)@ == old(out)@ + decimal(n as nat),
    decreases n,
{
    if n < 10 {
        push_char(out, digit_of(n));
        assert(old(out)@.push(digit_char(n as nat)) =~= old(out)@ + decimal(n as nat));
    } else {
        push_decimal(out, n / 10);
        push_char(out, digit_of(n % 10));
        assert(out@ =~= old(out)@ + decimal(n as nat));
    }
}

/// The decimal text of `n`.
pub fn decimal_string(n: u64) -> (text: String)
    ensures
        text@ == decimal(n as nat),
{
    let mut text = String::new();
    push_decimal(&mut text, n);
    assert(text@ =~= decimal(n as nat));
    text
}

} // verus!

verus! {

/// Unicode `White_Space`, as `char::is_whitespace` decides.
pub open spec fn is_unicode_whitespace(c: char) -> bool {
    let u = c as u32;
    (0x09 <= u && u <= 0x0d) || u == 0x20 || u == 0x85 || u == 0xa0 || u == 0x1680 || (0x2000
        <= u && u <= 0x200a) || u == 0x2028 || u == 0x2029 || u == 0x202f || u == 0x205f || u
        == 0x3000
}

/// Unicode general category `Cc`, as `char::is_control` decides.
pub open spec fn is_unicode_control(c: char) -> bool {
    let u = c as u32;
    u <= 0x1f || (0x7f <= u && u <= 0x9f)
}

/// `char::is_whitespace`.
pub fn char_is_whitespace(c: char) -> (ws: bool)
    ensures
        ws == is_unicode_whitespace(c),
{
    let u = c as u32;
    (0x09 <= u && u <= 0x0d) || u == 0x20 || u == 0x85 || u == 0xa0 || u == 0x1680 || (0x2000
        <= u && u <= 0x200a) || u == 0x2028 || u == 0x2029 || u == 0x202f || u == 0x205f || u
        == 0x3000
}

/// `char::is_control`.
pub fn char_is_control(c: char) -> (control: bool)
    ensures
        control == is_unicode_control(c),
{
    let u = c as u32;
    u <= 0x1f || (0x7f <= u && u <= 0x9f)
}

/// Index of the first `c` in `s`, or `None`.
pub fn find_char(s: &Vec<char>, c: char) -> (found: Option<usize>)
    ensures
        match found {
            Some(i) => i as int == first_index(s@, c) && i < s@.len(),
            None => first_index(s@, c) == s@.len(),
        },
{
    let mut i: usize = 0;
    while i < s.len()
        invariant
            i <= s@.len(),
            forall|j: int| 0 <= j < i ==> s@[j] != c,
        decreases s.len() - i,
    {
        if s[i] == c {
            proof {
                lemma_first_index_unique(s@, c, i as int);
            }
            return Some(i);
        }
        i = i + 1;
    }
    proof {
        lemma_first_index_unique(s@, c, s@.len() as int);
    }
    None
}

} // verus!
