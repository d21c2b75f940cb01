//! The JavaScript bundle and the line mappings of its source map.
//!
//! Each emitted line maps to the source line of the same number, or to the last source
//! line once the source has no more; every mapping segment is written as base64 VLQ.
use vstd::prelude::*;

use crate::text::{chars_of, push_char};
use vstd::string::*;

verus! {

/// An emitted JavaScript bundle.
pub struct JsBundle {
    /// `app.js`: ESM entry point importing `./aipo-runtime.js`.
    pub app_js: String,
    /// `aipo-runtime.js`: the versioned shim.
    pub runtime_js: String,
    /// `app.js.map`: ECMA-426 source map JSON.
    pub source_map: String,
}

/// The base64 digit for `d < 64`: `A-Z`, `a-z`, `0-9`, `+`, `/`.
pub open spec fn base64_digit(d: nat) -> char {
    if d < 26 {
        (65 + d) as char
    } else if d < 52 {
        (97 + (d - 26)) as char
    } else if d < 62 {
        (48 + (d - 52)) as char
    } else if d == 62 {
        '+'
    } else {
        '/'
    }
}

/// Base64 VLQ digits of `v`: five bits per digit, least significant first, with the
/// continuation bit (32) on every digit but the last.
pub open spec fn vlq_digits(v: nat) -> Seq<char>
    decreases v,
{
    if v < 32 {
        seq![base64_digit(v)]
    } else {
        seq![base64_digit(v % 32 + 32)] + vlq_digits(v / 32)
    }
}

/// The VLQ text of a signed value: its magnitude doubled, plus one when negative.
pub open spec fn vlq(value: int) -> Seq<char> {
    if value < 0 {
        vlq_digits((-value * 2 + 1) as nat)
    } else {
        vlq_digits((value * 2) as nat)
    }
}

/// The number a character of the standard base64 alphabet stands for (`A-Z` 0 to 25,
/// `a-z` 26 to 51, `0-9` 52 to 61, `+` 62, `/` 63), or -1 for any other character.
pub open spec fn base64_value(c: char) -> int {
    if 'A' <= c && c <= 'Z' {
        c as int - 65
    } else if 'a' <= c && c <= 'z' {
        c as int - 71
    } else if '0' <= c && c <= '9' {
        c as int + 4
    } else if c == '+' {
        62
    } else if c == '/' {
        63
    } else {
        -1
    }
}

/// Standard base64 VLQ decoding of unsigned digits: five bits per digit, least
/// significant first.
pub open spec fn vlq_decode(s: Seq<char>) -> int
    decreases s.len(),
{
    if s.len() == 0 {
        0
    } else {
        base64_value(s[0]) % 32 + 32 * vlq_decode(s.drop_first())
    }
}

/// Standard decoding of a signed VLQ value: the low bit is the sign.
pub open spec fn signed_vlq_decode(s: Seq<char>) -> int {
    let u = vlq_decode(s);
    if u % 2 == 1 {
        -(u / 2)
    } else {
        u / 2
    }
}

/// Every base64 digit is the character of the standard alphabet that stands for it.
pub proof fn law_base64_digit(d: nat)
    requires
        d < 64,
    ensures
        base64_value(base64_digit(d)) == d,
{
}

/// A standard base64 VLQ decoder reads back the value from its VLQ digits: every digit but
/// the last carries the continuation bit, the last does not.
pub proof fn law_vlq_digits(v: nat)
    ensures
        vlq_decode(vlq_digits(v)) == v,
        forall|i: int| 0 <= i < vlq_digits(v).len() - 1 ==> base64_value(#[trigger] vlq_digits(v)[i]) >= 32,
        0 <= base64_value(vlq_digits(v).last()) < 32,
    decreases v,
{
    if v < 32 {
        law_base64_digit(v);
        assert(vlq_digits(v).drop_first() =~= Seq::<char>::empty());
        assert(vlq_decode(vlq_digits(v).drop_first()) == 0);
        assert(vlq_decode(vlq_digits(v)) == base64_value(vlq_digits(v)[0]) % 32);
    } else {
        law_vlq_digits(v / 32);
        law_base64_digit(v % 32 + 32);
        let s = vlq_digits(v);
        assert(s.drop_first() =~= vlq_digits(v / 32));
        assert forall|i: int| 0 <= i < s.len() - 1 implies base64_value(#[trigger] s[i]) >= 32 by {
            if i > 0 {
                assert(s[i] == vlq_digits(v / 32)[i - 1]);
            }
        }
        assert(s.last() == vlq_digits(v / 32).last());
        assert(s[0] == base64_digit(v % 32 + 32));
        assert(base64_value(s[0]) == v % 32 + 32);
        assert((v % 32 + 32) as int % 32 == v % 32);
        assert(vlq_decode(s) == base64_value(s[0]) % 32 + 32 * vlq_decode(s.drop_first()));
        assert(vlq_decode(s) == v % 32 + 32 * (v / 32));
    }
}

/// A standard decoder reads back every signed value from its VLQ text, so every mapping
/// segment decodes to the source line it was written for.
pub proof fn law_vlq(value: int)
    ensures
        signed_vlq_decode(vlq(value)) == value,
{
    if value < 0 {
        law_vlq_digits((-value * 2 + 1) as nat);
    } else {
        law_vlq_digits((value * 2) as nat);
    }
}

/// One mapping segment: generated column 0, source 0, source line `line`, source column 0.
pub open spec fn segment(line: nat) -> Seq<char> {
    vlq(0) + vlq(0) + vlq(line as int) + vlq(0)
}

/// How many `'\n'` the text holds.
pub open spec fn newline_count(s: Seq<char>) -> nat
    decreases s.len(),
{
    if s.len() == 0 {
        0
    } else {
        newline_count(s.drop_last()) + if s.last() == '\n' { 1nat } else { 0nat }
    }
}

/// How many lines the text has: a final line needs no terminating newline, and an empty
/// text has none.
pub open spec fn line_count(s: Seq<char>) -> nat {
    if s.len() == 0 {
        0
    } else if s.last() == '\n' {
        newline_count(s)
    } else {
        newline_count(s) + 1
    }
}

/// The mappings of the first `n` emitted lines, separated by `;`, over a source of
/// `source_lines >= 1` lines.
pub open spec fn mappings(source_lines: nat, n: nat) -> Seq<char>
    decreases n,
{
    if n == 0 {
        Seq::empty()
    } else {
        let i = (n - 1) as nat;
        let line = if i < source_lines - 1 { i } else { (source_lines - 1) as nat };
        mappings(source_lines, i) + (if i > 0 { seq![';'] } else { Seq::empty() }) + segment(line)
    }
}

fn base64_char(d: u64) -> (c: char)
    requires
        d < 64,
    ensures
        c == base64_digit(d as nat),
{
    if d < 26 {
        ((65 + d) as u8) as char
    } else if d < 52 {
        ((97 + (d - 26)) as u8) as char
    } else if d < 62 {
        ((48 + (d - 52)) as u8) as char
    } else if d == 62 {
        '+'
    } else {
        '/'
    }
}

/// Appends the VLQ text of `value`.
fn encode_vlq(out: &mut String, value: i64)
    requires
        -0x4000_0000_0000_0000 < value < 0x4000_0000_0000_0000,
    ensures
        final(out)@ == old(out)@ + vlq(value as int),
{
    let mut v: u64 = if value < 0 { ((-value) as u64) * 2 + 1 } else { (value as u64) * 2 };
    let ghost start = out@;
    let ghost total = v as nat;
    while v >= 32
        invariant
            start + vlq_digits(total) == out@ + vlq_digits(v as nat),
        decreases v,
    {
        let digit = v % 32 + 32;
        let c = base64_char(digit);
        push_char(out, c);
        assert(vlq_digits(v as nat) =~= seq![c] + vlq_digits((v / 32) as nat));
        v = v / 32;
    }
    let c = base64_char(v);
    push_char(out, c);
    assert(out@ =~= start + vlq_digits(total));
}

/// The mapping segment for source line `line`.
fn encode_segment(line: u32) -> (text: String)
    ensures
        text@ == segment(line as nat),
{
    let mut out = String::new();
    encode_vlq(&mut out, 0);
    encode_vlq(&mut out, 0);
    encode_vlq(&mut out, line as i64);
    encode_vlq(&mut out, 0);
    assert(out@ =~= segment(line as nat));
    out
}

proof fn lemma_newline_bound(s: Seq<char>)
    ensures
        newline_count(s) <= s.len(),
    decreases s.len(),
{
    if s.len() > 0 {
        lemma_newline_bound(s.drop_last());
    }
}

/// How many lines the text has, as `str::lines` counts them.
pub fn count_lines(text: &str) -> (n: usize)
    ensures
        n == line_count(text@),
{
    let chars = chars_of(text);
    let mut newlines: usize = 0;
    let mut i: usize = 0;
    while i < chars.len()
        invariant
            chars@ == text@,
            i <= chars@.len(),
            newlines == newline_count(chars@.take(i as int)),
            newlines <= i,
        decreases chars.len() - i,
    {
        assert(chars@.take(i + 1).drop_last() =~= chars@.take(i as int));
        if chars[i] == '\n' {
            newlines = newlines + 1;
        }
        i = i + 1;
    }
    assert(chars@.take(chars@.len() as int) =~= chars@);
    if chars.len() > 0 {
        proof {
            lemma_newline_bound(chars@.drop_last());
        }
    }
    if chars.len() == 0 || chars[chars.len() - 1] == '\n' {
        newlines
    } else {
        newlines + 1
    }
}

/// The `mappings` field of the source map: each line of `app_js` mapped to the source
/// line of the same number, or to the last one.
pub fn source_map_mappings(source_text: &str, app_js: &str) -> (text: String)
    requires
        line_count(source_text@) < 0x1_0000_0000,
    ensures
        text@ == mappings(if line_count(source_text@) == 0 { 1 } else { line_count(source_text@) }, line_count(app_js@)),
{
    let counted = count_lines(source_text);
    let source_lines: u32 = if counted == 0 { 1 } else { counted as u32 };
    let out_lines = count_lines(app_js);
    let mut text = String::new();
    let mut i: usize = 0;
    while i < out_lines
        invariant
            source_lines >= 1,
            source_lines as nat == (if line_count(source_text@) == 0 { 1 } else { line_count(source_text@) }),
            i <= out_lines,
            text@ == mappings(source_lines as nat, i as nat),
        decreases out_lines - i,
    {
        let ghost before = text@;
        if i > 0 {
            push_char(&mut text, ';');
        }
        let line: u32 = if i < (source_lines - 1) as usize { i as u32 } else { source_lines - 1 };
        let piece = encode_segment(line);
        text = text.concat(piece.as_str());
        assert(text@ =~= mappings(source_lines as nat, (i + 1) as nat));
        i = i + 1;
    }
    text
}

} // verus!
