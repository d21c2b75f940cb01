//! Numeric literal rules shared by the lexer and every later stage.
//!
//! Well-formedness is a property of the literal text: the digit set matches the declared
//! base (`0x`/`0b`/`0o`, decimal otherwise), `_` separators sit between two digits, and the
//! decimal form is `digits[.digits][(e|E)[+|-]digits]`. Range is not judged here; an `Int`
//! literal that does not fit is reported when it is parsed.
use vstd::prelude::*;

use crate::text::chars_of;
use vstd::string::*;

verus! {

/// The value of a digit character in bases up to 36 (`0-9`, then `a-z` or `A-Z`).
pub open spec fn digit_value(c: char) -> int {
    if '0' <= c && c <= '9' {
        c as int - '0' as int
    } else if 'a' <= c && c <= 'z' {
        c as int - 'a' as int + 10
    } else if 'A' <= c && c <= 'Z' {
        c as int - 'A' as int + 10
    } else {
        36
    }
}

/// Whether `c` is a digit of `radix`, as `char::is_digit(radix)` decides.
pub open spec fn is_radix_digit(c: char, radix: int) -> bool {
    digit_value(c) < radix
}

/// Code point of the ASCII lowercase of a character; other characters are unchanged.
pub open spec fn ascii_lower(c: char) -> u32 {
    if 'A' <= c && c <= 'Z' {
        (c as u32 + 32) as u32
    } else {
        c as u32
    }
}

/// The digits after a `0<base>` prefix, compared case-insensitively, when `s` has one.
pub open spec fn strip_prefix_spec(s: Seq<char>, base: char) -> Option<Seq<char>> {
    if s.len() >= 2 && s[0] == '0' && (s[1] as u32) < 128 && ascii_lower(s[1]) == ascii_lower(
        base,
    ) {
        Some(s.skip(2))
    } else {
        None
    }
}

/// The end of the digit run that starts at `from`: the first index at or after `from`
/// holding neither a digit of `radix` nor `_`.
pub open spec fn run_end(s: Seq<char>, from: int, radix: int) -> int
    decreases s.len() - from,
{
    if from >= s.len() || (!is_radix_digit(s[from], radix) && s[from] != '_') {
        from
    } else {
        run_end(s, from + 1, radix)
    }
}

/// An `_` at `i` is well placed when both neighbours are digits of the base.
pub open spec fn underscore_ok(s: Seq<char>, i: int, radix: int) -> bool {
    i > 0 && i + 1 < s.len() && is_radix_digit(s[i - 1], radix) && is_radix_digit(s[i + 1], radix)
}

/// The run starting at `from` has a digit and every `_` in it is well placed.
pub open spec fn run_ok(s: Seq<char>, from: int, radix: int) -> bool {
    &&& exists|i: int| from <= i < run_end(s, from, radix) && is_radix_digit(#[trigger] s[i], radix)
    &&& forall|i: int|
        from <= i < run_end(s, from, radix) && #[trigger] s[i] == '_' ==> underscore_ok(s, i, radix)
}

/// A whole digit string of `radix`, with well-placed separators.
pub open spec fn radix_digits_spec(s: Seq<char>, radix: int) -> bool {
    run_ok(s, 0, radix) && run_end(s, 0, radix) == s.len()
}

/// The decimal form `digits[.digits][(e|E)[+|-]digits]`.
pub open spec fn decimal_spec(s: Seq<char>) -> bool {
    let p1 = run_end(s, 0, 10);
    let has_fraction = p1 < s.len() && s[p1] == '.';
    let p2 = if has_fraction {
        run_end(s, p1 + 1, 10)
    } else {
        p1
    };
    let has_exponent = p2 < s.len() && (s[p2] == 'e' || s[p2] == 'E');
    let q = if p2 + 1 < s.len() && (s[p2 + 1] == '+' || s[p2 + 1] == '-') {
        p2 + 2
    } else {
        p2 + 1
    };
    let p3 = if has_exponent {
        run_end(s, q, 10)
    } else {
        p2
    };
    &&& run_ok(s, 0, 10)
    &&& has_fraction ==> run_ok(s, p1 + 1, 10)
    &&& has_exponent ==> run_ok(s, q, 10)
    &&& p3 == s.len()
}

/// Whether a literal text is lexically well formed.
pub open spec fn well_formed_spec(s: Seq<char>) -> bool {
    match strip_prefix_spec(s, 'x') {
        Some(d) => radix_digits_spec(d, 16),
        None => match strip_prefix_spec(s, 'b') {
            Some(d) => radix_digits_spec(d, 2),
            None => match strip_prefix_spec(s, 'o') {
                Some(d) => radix_digits_spec(d, 8),
                None => decimal_spec(s),
            },
        },
    }
}

/// Digit run end, proved to lie between `from` and the length.
proof fn lemma_run_end_bounds(s: Seq<char>, from: int, radix: int)
    requires
        0 <= from <= s.len(),
    ensures
        from <= run_end(s, from, radix) <= s.len(),
        forall|i: int| from <= i < run_end(s, from, radix) ==> (is_radix_digit(#[trigger] s[i], radix) || s[i] == '_'),
        run_end(s, from, radix) < s.len() ==> !is_radix_digit(s[run_end(s, from, radix)], radix)
            && s[run_end(s, from, radix)] != '_',
    decreases s.len() - from,
{
    if from < s.len() && (is_radix_digit(s[from], radix) || s[from] == '_') {
        lemma_run_end_bounds(s, from + 1, radix);
    }
}

proof fn lemma_run_end_step(s: Seq<char>, from: int, k: int, radix: int)
    requires
        0 <= from <= k < s.len(),
        forall|i: int| from <= i <= k ==> (is_radix_digit(#[trigger] s[i], radix) || s[i] == '_'),
    ensures
        run_end(s, from, radix) == run_end(s, k + 1, radix),
    decreases k - from,
{
    if from < k {
        lemma_run_end_step(s, from + 1, k, radix);
    }
}

fn is_digit_of(c: char, radix: u32) -> (digit: bool)
    requires
        2 <= radix <= 36,
    ensures
        digit == is_radix_digit(c, radix as int),
{
    if c >= '0' && c <= '9' {
        ((c as u32) - ('0' as u32)) < radix
    } else if c >= 'a' && c <= 'z' {
        ((c as u32) - ('a' as u32)) + 10 < radix
    } else if c >= 'A' && c <= 'Z' {
        ((c as u32) - ('A' as u32)) + 10 < radix
    } else {
        false
    }
}

/// Consumes digits and well-placed `_` separators from `cursor`, reporting whether the run
/// holds a digit and no misplaced separator.
fn consume_digit_run(chars: &Vec<char>, cursor: &mut usize, radix: u32) -> (ok: bool)
    requires
        2 <= radix <= 36,
        *old(cursor) <= chars@.len(),
    ensures
        ok == run_ok(chars@, *old(cursor) as int, radix as int),
        ok ==> *final(cursor) as int == run_end(chars@, *old(cursor) as int, radix as int),
{
    let ghost s = chars@;
    let ghost from = *cursor as int;
    let mut saw_digit = false;
    while *cursor < chars.len()
        invariant
            s == chars@,
            2 <= radix <= 36,
            0 <= from <= *cursor <= s.len(),
            from == *old(cursor) as int,
            run_end(s, from, radix as int) == run_end(s, *cursor as int, radix as int),
            saw_digit == exists|i: int| from <= i < *cursor && is_radix_digit(#[trigger] s[i], radix as int),
            forall|i: int| from <= i < *cursor && #[trigger] s[i] == '_' ==> underscore_ok(s, i, radix as int),
        decreases chars.len() - *cursor,
    {
        let at = *cursor;
        let ch = chars[at];
        if is_digit_of(ch, radix) {
            saw_digit = true;
            assert(run_end(s, at as int, radix as int) == run_end(s, at + 1, radix as int));
            *cursor = at + 1;
        } else if ch == '_' {
            let before_ok = at > 0 && is_digit_of(chars[at - 1], radix);
            let after_ok = at + 1 < chars.len() && is_digit_of(chars[at + 1], radix);
            assert(run_end(s, at as int, radix as int) == run_end(s, at + 1, radix as int));
            if before_ok && after_ok {
                *cursor = at + 1;
            } else {
                proof {
                    lemma_run_end_bounds(s, at + 1, radix as int);
                    assert(!underscore_ok(s, at as int, radix as int));
                }
                return false;
            }
        } else {
            assert(run_end(s, at as int, radix as int) == at);
            return saw_digit;
        }
    }
    assert(run_end(s, *cursor as int, radix as int) == *cursor);
    saw_digit
}

/// When every character from `from` up to `k` belongs to the run, `k` lies inside it.
proof fn lemma_run_end_step_prefix(s: Seq<char>, from: int, k: int, radix: int)
    requires
        0 <= from <= k < s.len(),
        forall|i: int| from <= i <= k ==> (is_radix_digit(#[trigger] s[i], radix) || s[i] == '_'),
    ensures
        k < run_end(s, from, radix),
{
    lemma_run_end_step(s, from, k, radix);
    lemma_run_end_bounds(s, k + 1, radix);
}

/// When every character from `from` before `k` belongs to the run and `k` ends it, the run
/// ends at `k`.
proof fn lemma_run_end_stop(s: Seq<char>, from: int, k: int, radix: int)
    requires
        0 <= from <= k <= s.len(),
        forall|i: int| from <= i < k ==> (is_radix_digit(#[trigger] s[i], radix) || s[i] == '_'),
        k == s.len() || (!is_radix_digit(s[k], radix) && s[k] != '_'),
    ensures
        run_end(s, from, radix) == k,
    decreases k - from,
{
    if from < k {
        lemma_run_end_stop(s, from + 1, k, radix);
    }
}

/// Digit portion of a `0x`/`0b`/`0o` literal, case-insensitively, or `None` for the decimal
/// form.
pub fn strip_base_prefix(text: &str, base: char) -> (digits: Option<&str>)
    ensures
        match digits {
            Some(d) => strip_prefix_spec(text@, base) == Some(d@),
            None => strip_prefix_spec(text@, base) is None,
        },
{
    let n = text.unicode_len();
    if n < 2 {
        return None;
    }
    if text.get_char(0) != '0' {
        return None;
    }
    let prefix = text.get_char(1);
    if (prefix as u32) >= 128 {
        return None;
    }
    if lower_ascii(prefix) != lower_ascii(base) {
        return None;
    }
    Some(text.substring_char(2, n))
}

fn lower_ascii(c: char) -> (lower: u32)
    ensures
        lower == ascii_lower(c),
{
    if c >= 'A' && c <= 'Z' {
        (c as u32) + 32
    } else {
        c as u32
    }
}


/// Validates a digit run: at least one digit, and `_` only between two digits of the base.
fn radix_digits_ok(digits: &str, radix: u32) -> (ok: bool)
    requires
        2 <= radix <= 36,
    ensures
        ok == radix_digits_spec(digits@, radix as int),
{
    let chars = chars_of(digits);
    let mut cursor: usize = 0;
    let consumed = consume_digit_run(&chars, &mut cursor, radix);
    consumed && cursor == chars.len()
}

/// Validates the decimal form `digits[.digits][(e|E)[+|-]digits]`.
fn decimal_is_well_formed(text: &str) -> (ok: bool)
    ensures
        ok == decimal_spec(text@),
{
    let chars = chars_of(text);
    let ghost s = chars@;
    let mut cursor: usize = 0;
    if !consume_digit_run(&chars, &mut cursor, 10) {
        return false;
    }
    let ghost p1 = cursor as int;
    proof {
        lemma_run_end_bounds(s, 0, 10);
    }
    if cursor < chars.len() && chars[cursor] == '.' {
        cursor += 1;
        if !consume_digit_run(&chars, &mut cursor, 10) {
            return false;
        }
        proof {
            lemma_run_end_bounds(s, p1 + 1, 10);
        }
    }
    let ghost p2 = cursor as int;
    if cursor < chars.len() && (chars[cursor] == 'e' || chars[cursor] == 'E') {
        cursor += 1;
        if cursor < chars.len() && (chars[cursor] == '+' || chars[cursor] == '-') {
            cursor += 1;
        }
        if !consume_digit_run(&chars, &mut cursor, 10) {
            return false;
        }
    }
    cursor == chars.len()
}

/// Whether `raw` is a lexically well-formed numeric literal.
pub fn number_is_well_formed(raw: &str) -> (ok: bool)
    ensures
        ok == well_formed_spec(raw@),
{
    if let Some(digits) = strip_base_prefix(raw, 'x') {
        return radix_digits_ok(digits, 16);
    }
    if let Some(digits) = strip_base_prefix(raw, 'b') {
        return radix_digits_ok(digits, 2);
    }
    if let Some(digits) = strip_base_prefix(raw, 'o') {
        return radix_digits_ok(digits, 8);
    }
    decimal_is_well_formed(raw)
}

/// `s` without any `c`.
pub open spec fn remove_char(s: Seq<char>, c: char) -> Seq<char>
    decreases s.len(),
{
    if s.len() == 0 {
        s
    } else if s.last() == c {
        remove_char(s.drop_last(), c)
    } else {
        remove_char(s.drop_last(), c).push(s.last())
    }
}

/// The value of a digit string read in `radix`, most significant digit first.
pub open spec fn digits_value(s: Seq<char>, radix: int) -> int
    decreases s.len(),
{
    if s.len() == 0 {
        0
    } else {
        digits_value(s.drop_last(), radix) * radix + digit_value(s.last())
    }
}

/// Every character is a digit of `radix`.
pub open spec fn all_radix_digits(s: Seq<char>, radix: int) -> bool {
    forall|i: int| 0 <= i < s.len() ==> is_radix_digit(#[trigger] s[i], radix)
}

/// What `i64::from_str_radix` accepts: an optional sign, then at least one digit, with the
/// value inside the `i64` range.
pub open spec fn signed_value(s: Seq<char>, radix: int) -> Option<int> {
    if s.len() == 0 {
        None
    } else {
        let negative = s[0] == '-';
        let body = if s[0] == '-' || s[0] == '+' {
            s.drop_first()
        } else {
            s
        };
        if body.len() == 0 || !all_radix_digits(body, radix) {
            None
        } else {
            let v = if negative {
                -digits_value(body, radix)
            } else {
                digits_value(body, radix)
            };
            if i64::MIN <= v <= i64::MAX {
                Some(v)
            } else {
                None
            }
        }
    }
}

/// The value of an integer literal: separators removed, then the based or decimal digits.
pub open spec fn parse_int_spec(raw: Seq<char>) -> Option<int> {
    let cleaned = remove_char(raw, '_');
    match strip_prefix_spec(cleaned, 'x') {
        Some(d) => signed_value(d, 16),
        None => match strip_prefix_spec(cleaned, 'b') {
            Some(d) => signed_value(d, 2),
            None => match strip_prefix_spec(cleaned, 'o') {
                Some(d) => signed_value(d, 8),
                None => signed_value(cleaned, 10),
            },
        },
    }
}

proof fn lemma_digit_value_range(c: char)
    ensures
        0 <= digit_value(c) <= 36,
{
}

/// Appending digits never lowers the value.
proof fn lemma_digits_value_monotone(s: Seq<char>, k: int, radix: int)
    requires
        0 <= k <= s.len(),
        radix >= 1,
    ensures
        0 <= digits_value(s.take(k), radix) <= digits_value(s, radix),
    decreases s.len() - k,
{
    if k < s.len() {
        lemma_digits_value_monotone(s.drop_last(), if k <= s.len() - 1 { k } else { s.len() - 1 }, radix);
        assert(s.drop_last().take(k) =~= s.take(k));
        lemma_digits_value_nonneg(s.drop_last(), radix);
        lemma_digit_value_range(s.last());
        let v = digits_value(s.drop_last(), radix);
        assert(v * radix >= v) by (nonlinear_arith)
            requires
                v >= 0,
                radix >= 1,
        ;
    } else {
        assert(s.take(k) =~= s);
        lemma_digits_value_nonneg(s, radix);
    }
}

proof fn lemma_digits_value_nonneg(s: Seq<char>, radix: int)
    requires
        radix >= 1,
    ensures
        digits_value(s, radix) >= 0,
    decreases s.len(),
{
    if s.len() > 0 {
        lemma_digits_value_nonneg(s.drop_last(), radix);
        lemma_digit_value_range(s.last());
        let v = digits_value(s.drop_last(), radix);
        assert(v * radix >= 0) by (nonlinear_arith)
            requires
                v >= 0,
                radix >= 1,
        ;
    }
}

fn digit_of(c: char) -> (d: u32)
    ensures
        d as int == digit_value(c),
{
    if c >= '0' && c <= '9' {
        (c as u32) - ('0' as u32)
    } else if c >= 'a' && c <= 'z' {
        (c as u32) - ('a' as u32) + 10
    } else if c >= 'A' && c <= 'Z' {
        (c as u32) - ('A' as u32) + 10
    } else {
        36
    }
}

/// `i64::from_str_radix` over `s[start..]`.
fn parse_signed(s: &Vec<char>, start: usize, radix: u32) -> (value: Option<i64>)
    requires
        2 <= radix <= 36,
        start <= s@.len(),
    ensures
        match value {
            Some(v) => signed_value(s@.skip(start as int), radix as int) == Some(v as int),
            None => signed_value(s@.skip(start as int), radix as int) is None,
        },
{
    let ghost t = s@.skip(start as int);
    let n = s.len();
    if start >= n {
        return None;
    }
    let negative = s[start] == '-';
    let mut i: usize = if s[start] == '-' || s[start] == '+' {
        start + 1
    } else {
        start
    };
    let ghost body = if t[0] == '-' || t[0] == '+' { t.drop_first() } else { t };
    assert(body =~= s@.skip(i as int));
    if i >= n {
        return None;
    }
    let ghost first = i as int;
    let bound: i128 = 9223372036854775808;
    let mut acc: i128 = 0;
    while i < n
        invariant
            2 <= radix <= 36,
            n == s@.len(),
            body == s@.skip(first),
            body.len() == n - first,
            t == s@.skip(start as int),
            t.len() > 0,
            negative == (t[0] == '-'),
            body == (if t[0] == '-' || t[0] == '+' { t.drop_first() } else { t }),
            0 <= first <= i <= n,
            0 <= acc <= bound,
            bound == 9223372036854775808,
            acc as int == digits_value(body.take(i - first), radix as int),
            all_radix_digits(body.take(i - first), radix as int),
        decreases n - i,
    {
        let d = digit_of(s[i]);
        assert(s@.skip(first)[i - first] == s@[i as int]);
        assert(body[i - first] == s@[i as int]);
        if d >= radix {
            proof {
                assert(!is_radix_digit(body[i - first], radix as int));
            }
            return None;
        }
        let ghost prefix = body.take(i - first + 1);
        assert(prefix.drop_last() =~= body.take(i - first));
        assert(prefix.last() == s@[i as int]);
        assert(acc * (radix as i128) <= 9223372036854775808 * 36) by (nonlinear_arith)
            requires
                0 <= acc <= 9223372036854775808,
                radix <= 36,
        ;
        assert(acc * (radix as i128) >= 0) by (nonlinear_arith)
            requires
                0 <= acc,
                radix >= 2,
        ;
        acc = acc * (radix as i128) + (d as i128);
        assert(all_radix_digits(prefix, radix as int)) by {
            assert forall|j: int| 0 <= j < prefix.len() implies is_radix_digit(#[trigger] prefix[j], radix as int) by {
                if j < prefix.len() - 1 {
                    assert(prefix[j] == body.take(i - first)[j]);
                }
            }
        }
        i = i + 1;
        if acc > bound {
            proof {
                lemma_digits_value_monotone(body, i - first, radix as int);
            }
            return None;
        }
    }
    assert(body.take(i - first) =~= body);
    if negative {
        Some((0 - acc) as i64)
    } else if acc <= 9223372036854775807 {
        Some(acc as i64)
    } else {
        None
    }
}

/// `s` without its `_` separators.
fn remove_underscores(s: &Vec<char>) -> (cleaned: Vec<char>)
    ensures
        cleaned@ == remove_char(s@, '_'),
{
    let mut out: Vec<char> = Vec::new();
    let mut i: usize = 0;
    while i < s.len()
        invariant
            i <= s@.len(),
            out@ == remove_char(s@.take(i as int), '_'),
        decreases s.len() - i,
    {
        assert(s@.take(i + 1).drop_last() =~= s@.take(i as int));
        if s[i] != '_' {
            out.push(s[i]);
        }
        i = i + 1;
    }
    assert(s@.take(i as int) =~= s@);
    out
}

/// Whether `chars` starts with `0<base>`, compared case-insensitively.
fn has_base_prefix(chars: &Vec<char>, base: char) -> (found: bool)
    ensures
        found == strip_prefix_spec(chars@, base) is Some,
{
    chars.len() >= 2 && chars[0] == '0' && (chars[1] as u32) < 128 && lower_ascii(chars[1]) == lower_ascii(base)
}

/// Parses a well-formed integer literal, honoring `0x`/`0b`/`0o` bases and `_` separators.
///
/// Returns `None` when the literal does not fit `i64`.
pub fn parse_int_literal(raw: &str) -> (value: Option<i64>)
    ensures
        match value {
            Some(v) => parse_int_spec(raw@) == Some(v as int),
            None => parse_int_spec(raw@) is None,
        },
{
    let chars = chars_of(raw);
    let cleaned = remove_underscores(&chars);
    if has_base_prefix(&cleaned, 'x') {
        parse_signed(&cleaned, 2, 16)
    } else if has_base_prefix(&cleaned, 'b') {
        parse_signed(&cleaned, 2, 2)
    } else if has_base_prefix(&cleaned, 'o') {
        parse_signed(&cleaned, 2, 8)
    } else {
        assert(cleaned@.skip(0) =~= cleaned@);
        parse_signed(&cleaned, 0, 10)
    }
}
} // verus!
