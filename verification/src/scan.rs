use crate::line::{lemma_char_at_least_nul, string_push};
use crate::snbt::{
    array_takes, delimited_end, digit_value, digits_end, digits_value, all_digits, eq_ignore_case,
    escape_at, escapes_from, float_kind, float_ok, hex_u32_ok, in_range, int_kind, int_value,
    is_digit, is_hex_digit, unsigned_part, is_num_start, is_quote, is_unquoted, is_ws, item_until, key_scan,
    list_items, list_scan, compound_items, num_kind, operation_scan, peek, primitive_scan,
    quoted_key_from, sign_of, skip_ws, snbt_returns, uuid_text_ok, starts_bool,
    string_scan, suffix_of, trim, trim_end, trim_start, typed_items, unquoted_end, unquoted_ok,
    until_close, value_scan, variant_of, without_blanks, Escape, NumKind, Scan, StrScan, Verdict,
};
use uuid::Uuid;
use vstd::prelude::*;

verus! {

// Executable forms of the scan that `snbt` states: each `..._x` function
// computes the spec function of the same name, so that `snbt_returns_x`
// tells, before the call, whether the SNBT parser comes back on a text.

/// A `Scan` with machine positions.
pub enum ScanX {
    Panics,
    Fails,
    Reads(usize, usize),
}

impl View for ScanX {
    type V = Scan;

    open spec fn view(&self) -> Scan {
        match self {
            ScanX::Panics => Scan::Panics,
            ScanX::Fails => Scan::Fails,
            ScanX::Reads(p, d) => Scan::Reads(*p as int, *d as int),
        }
    }
}

/// An `Escape` with machine positions.
pub enum EscapeX {
    Panics,
    Fails,
    Valid(usize),
    Invalid(usize),
}

impl View for EscapeX {
    type V = Escape;

    open spec fn view(&self) -> Escape {
        match self {
            EscapeX::Panics => Escape::Panics,
            EscapeX::Fails => Escape::Fails,
            EscapeX::Valid(p) => Escape::Valid(*p as int),
            EscapeX::Invalid(p) => Escape::Invalid(*p as int),
        }
    }
}

/// A `StrScan` with the text in a vector.
pub enum StrScanX {
    Panics,
    Fails,
    Text(Vec<char>),
}

impl View for StrScanX {
    type V = StrScan;

    open spec fn view(&self) -> StrScan {
        match self {
            StrScanX::Panics => StrScan::Panics,
            StrScanX::Fails => StrScan::Fails,
            StrScanX::Text(v) => StrScan::Text(v@),
        }
    }
}

/// Calls `<uuid::Uuid as FromStr>::from_str` on the text and tells whether it
/// accepts it: on the simple, hyphenated, braced and URN forms that
/// `uuid_text_ok` states, as its parser reads them.
#[verifier::external_body]
fn uuid_text_parses(s: &str) -> (b: bool)
    ensures
        b == uuid_text_ok(s@),
{
    s.parse::<Uuid>().is_ok()
}

fn is_ws_x(c: char) -> (b: bool)
    ensures
        b == is_ws(c),
{
    c == ' ' || ('\t' <= c && c <= '\r')
}

fn is_quote_x(c: char) -> (b: bool)
    ensures
        b == is_quote(c),
{
    c == '\'' || c == '"'
}

fn is_digit_x(c: char) -> (b: bool)
    ensures
        b == is_digit(c),
{
    '0' <= c && c <= '9'
}

fn is_unquoted_x(c: char) -> (b: bool)
    ensures
        b == is_unquoted(c),
{
    ('0' <= c && c <= '9') || ('A' <= c && c <= 'Z') || ('a' <= c && c <= 'z') || c == '_' || c
        == '-' || c == '.' || c == '+'
}

fn is_num_start_x(c: char) -> (b: bool)
    ensures
        b == is_num_start(c),
{
    ('0' <= c && c <= '9') || c == '-' || c == '+' || c == '.'
}

/// The characters of `v` from `a` to `b`.
fn slice(v: &Vec<char>, a: usize, b: usize) -> (r: Vec<char>)
    requires
        a <= b <= v@.len(),
    ensures
        r@ == v@.subrange(a as int, b as int),
{
    let mut r = Vec::new();
    let mut i = a;
    while i < b
        invariant
            a <= i <= b,
            b <= v@.len(),
            r@ == v@.subrange(a as int, i as int),
        decreases b - i,
    {
        r.push(v[i]);
        i += 1;
        proof {
            assert(r@ =~= v@.subrange(a as int, i as int));
        }
    }
    r
}

fn peek_x(t: &Vec<char>, p: usize) -> (c: char)
    requires
        t@.len() > 0,
    ensures
        c == peek(t@, p as int),
{
    if p >= t.len() {
        t[t.len() - 1]
    } else {
        t[p]
    }
}

fn skip_ws_x(t: &Vec<char>, p: usize) -> (r: usize)
    requires
        p <= t@.len(),
    ensures
        r as int == skip_ws(t@, p as int),
        p <= r <= t@.len(),
{
    let mut i = p;
    while i < t.len() && is_ws_x(t[i])
        invariant
            p <= i <= t@.len(),
            skip_ws(t@, i as int) == skip_ws(t@, p as int),
        decreases t@.len() - i,
    {
        i += 1;
    }
    i
}

fn delimited_end_x(t: &Vec<char>, q: usize) -> (r: Option<usize>)
    requires
        q <= t@.len(),
    ensures
        match r {
            Some(e) => delimited_end(t@, q as int, 0) == Some(e as int) && q <= e <= t@.len(),
            None => delimited_end(t@, q as int, 0) is None,
        },
{
    let mut i = q;
    let mut qc: usize = 0;
    while i < t.len()
        invariant
            q <= i <= t@.len(),
            qc <= i,
            delimited_end(t@, i as int, qc as int) == delimited_end(t@, q as int, 0),
        decreases t@.len() - i,
    {
        let c = t[i];
        let escaped = i >= 1 && t[i - 1] == '\\';
        if is_quote_x(c) && qc % 2 == 0 && escaped {
            return None;
        }
        if is_quote_x(c) && !escaped {
            qc = qc + 1;
        }
        if qc % 2 == 0 && (c == ',' || c == ']' || c == '}') {
            return Some(i);
        }
        i += 1;
    }
    Some(i)
}

fn until_close_x(t: &Vec<char>, start: usize) -> (r: Option<usize>)
    requires
        start <= t@.len(),
    ensures
        match r {
            Some(e) => until_close(t@, start as int, false) == Some(e as int) && e <= t@.len(),
            None => until_close(t@, start as int, false) is None,
        },
{
    let mut i = start;
    let mut escaped = false;
    while i < t.len()
        invariant
            start <= i <= t@.len(),
            until_close(t@, i as int, escaped) == until_close(t@, start as int, false),
        decreases t@.len() - i,
    {
        let c = t[i];
        if escaped {
            if c == '}' || c == '\\' {
                escaped = false;
            } else {
                return None;
            }
        } else if c == '\\' {
            escaped = true;
        } else if c == '}' {
            return Some(i + 1);
        }
        i += 1;
    }
    None
}

fn hex_u32_ok_x(s: &Vec<char>) -> (b: bool)
    ensures
        b == hex_u32_ok(s@),
{
    let d = if s.len() > 0 && s[0] == '+' {
        slice(s, 1, s.len())
    } else {
        slice(s, 0, s.len())
    };
    proof {
        assert(s@.subrange(0, s@.len() as int) =~= s@);
        if s@.len() > 0 {
            assert(s@.subrange(1, s@.len() as int) =~= s@.drop_first());
        }
    }
    if d.len() == 0 {
        return false;
    }
    let mut i: usize = 0;
    while i < d.len()
        invariant
            i <= d@.len(),
            d@ == unsigned_part(s@),
            forall|k: int| 0 <= k < i ==> is_hex_digit(#[trigger] d@[k]),
        decreases d@.len() - i,
    {
        let c = d[i];
        if !(('0' <= c && c <= '9') || ('a' <= c && c <= 'f') || ('A' <= c && c <= 'F')) {
            assert(!is_hex_digit(d@[i as int]));
            return false;
        }
        i += 1;
    }
    true
}

fn escape_at_x(t: &Vec<char>, p: usize) -> (r: EscapeX)
    requires
        p <= t@.len(),
    ensures
        r@ == escape_at(t@, p as int),
        match r {
            EscapeX::Valid(j) => p < j <= t@.len(),
            EscapeX::Invalid(j) => p <= j <= t@.len(),
            _ => true,
        },
{
    if t.len() == 0 || peek_x(t, p) != '\\' {
        return EscapeX::Invalid(p);
    }
    if p >= t.len() - 1 {
        return EscapeX::Panics;
    }
    let c = t[p + 1];
    let p2 = p + 2;
    if c == 'b' || c == 'f' || c == 'n' || c == 'r' || c == 's' || c == 't' || c == '\\' || c
        == '\'' || c == '"' {
        EscapeX::Valid(p2)
    } else if c == 'x' || c == 'u' || c == 'U' {
        let l: usize = if c == 'x' {
            2
        } else if c == 'u' {
            4
        } else {
            8
        };
        if t.len() - p2 < l {
            EscapeX::Fails
        } else if hex_u32_ok_x(&slice(t, p2, p2 + l)) {
            EscapeX::Valid(p2 + l)
        } else {
            EscapeX::Invalid(p2 + l)
        }
    } else if c == 'N' {
        if !(p2 < t.len() && t[p2] == '{') {
            EscapeX::Fails
        } else {
            match until_close_x(t, p2 + 1) {
                None => EscapeX::Fails,
                Some(q) => {
                    proof {
                        lemma_until_close_after(t@, p2 + 1, false);
                    }
                    EscapeX::Valid(q)
                },
            }
        }
    } else {
        EscapeX::Panics
    }
}

/// `until_close` ends past where it starts.
proof fn lemma_until_close_after(t: Seq<char>, i: int, escaped: bool)
    ensures
        until_close(t, i, escaped) matches Some(e) ==> e > i,
    decreases t.len() - i,
{
    if 0 <= i < t.len() {
        lemma_until_close_after(t, i + 1, false);
        lemma_until_close_after(t, i + 1, true);
    }
}

fn trim_x(v: &Vec<char>) -> (r: Vec<char>)
    ensures
        r@ == trim(v@),
{
    let mut a: usize = 0;
    assert(v@.skip(0) =~= v@);
    while a < v.len() && is_ws_x(v[a])
        invariant
            a <= v@.len(),
            trim_start(v@.skip(a as int)) == trim_start(v@),
        decreases v@.len() - a,
    {
        proof {
            assert(v@.skip(a as int).drop_first() =~= v@.skip(a + 1));
        }
        a += 1;
    }
    proof {
        assert(trim_start(v@.skip(a as int)) == v@.skip(a as int));
    }
    let mut b: usize = v.len();
    while b > a && is_ws_x(v[b - 1])
        invariant
            a <= b <= v@.len(),
            trim_end(v@.subrange(a as int, b as int)) == trim_end(v@.skip(a as int)),
        decreases b,
    {
        proof {
            assert(v@.subrange(a as int, b as int).drop_last() =~= v@.subrange(a as int, b - 1));
        }
        b -= 1;
    }
    proof {
        assert(v@.subrange(a as int, v@.len() as int) =~= v@.skip(a as int));
    }
    slice(v, a, b)
}

fn escapes_from_x(v: &Vec<char>) -> (r: Verdict)
    ensures
        r == escapes_from(v@, 0),
{
    let mut i: usize = 0;
    while i < v.len()
        invariant
            i <= v@.len(),
            escapes_from(v@, i as int) == escapes_from(v@, 0),
        decreases v@.len() - i,
    {
        if v[i] == '\\' {
            let rest = slice(v, i, v.len());
            match escape_at_x(&rest, 0) {
                EscapeX::Panics => return Verdict::Panics,
                EscapeX::Fails => return Verdict::Fails,
                EscapeX::Invalid(_) => return Verdict::Panics,
                EscapeX::Valid(_) => {},
            }
        }
        i += 1;
    }
    Verdict::Passes
}

fn unquoted_ok_x(v: &Vec<char>) -> (b: bool)
    requires
        v@.len() > 0,
    ensures
        b == unquoted_ok(v@),
{
    let c0 = v[0];
    if is_digit_x(c0) || c0 == '-' || c0 == '.' || c0 == '+' {
        return false;
    }
    let mut i: usize = 0;
    while i < v.len()
        invariant
            i <= v@.len(),
            forall|k: int| 0 <= k < i ==> is_unquoted(#[trigger] v@[k]),
        decreases v@.len() - i,
    {
        if !is_unquoted_x(v[i]) {
            return false;
        }
        i += 1;
    }
    true
}

fn string_scan_x(val: &Vec<char>) -> (r: StrScanX)
    ensures
        r@ == string_scan(val@),
{
    let v = trim_x(val);
    if v.len() == 0 {
        StrScanX::Panics
    } else if is_quote_x(v[0]) {
        match escapes_from_x(&v) {
            Verdict::Panics => StrScanX::Panics,
            Verdict::Fails => StrScanX::Fails,
            Verdict::Passes => if v.len() < 2 {
                StrScanX::Panics
            } else {
                StrScanX::Text(slice(&v, 1, v.len() - 1))
            },
        }
    } else if unquoted_ok_x(&v) {
        StrScanX::Text(v)
    } else {
        StrScanX::Fails
    }
}

fn starts_bool_x(v: &Vec<char>) -> (b: bool)
    ensures
        b == starts_bool(v@),
{
    (v.len() >= 5 && v[0] == 'f' && v[1] == 'a' && v[2] == 'l' && v[3] == 's' && v[4] == 'e') || (
    v.len() >= 4 && v[0] == 't' && v[1] == 'r' && v[2] == 'u' && v[3] == 'e')
}

fn digits_end_x(s: &Vec<char>, i0: usize) -> (r: usize)
    requires
        i0 <= s@.len(),
    ensures
        r as int == digits_end(s@, i0 as int),
        i0 <= r <= s@.len(),
{
    let mut i = i0;
    while i < s.len() && is_digit_x(s[i])
        invariant
            i0 <= i <= s@.len(),
            digits_end(s@, i as int) == digits_end(s@, i0 as int),
        decreases s@.len() - i,
    {
        i += 1;
    }
    i
}

fn eq_ignore_case_x(s: &Vec<char>, w: &Vec<char>) -> (b: bool)
    ensures
        b == eq_ignore_case(s@, w@),
{
    if s.len() != w.len() {
        return false;
    }
    let mut k: usize = 0;
    while k < s.len()
        invariant
            s@.len() == w@.len(),
            k <= s@.len(),
            forall|j: int| 0 <= j < k ==> (#[trigger] s@[j] == w@[j] || ('a' <= w@[j] && w@[j] <= 'z' && (s@[j] as u32) == (w@[j] as u32) - 32)),
        decreases s@.len() - k,
    {
        let a = s[k];
        let c = w[k];
        if !(a == c || ('a' <= c && c <= 'z' && (a as u32) == (c as u32) - 32)) {
            return false;
        }
        k += 1;
    }
    true
}

fn float_ok_x(s: &Vec<char>) -> (b: bool)
    ensures
        b == float_ok(s@),
{
    let u = if s.len() > 0 && (s[0] == '+' || s[0] == '-') {
        slice(s, 1, s.len())
    } else {
        slice(s, 0, s.len())
    };
    proof {
        assert(s@.subrange(0, s@.len() as int) =~= s@);
        if s@.len() > 0 {
            assert(s@.subrange(1, s@.len() as int) =~= s@.drop_first());
        }
    }
    if eq_ignore_case_x(&u, &vec!['i', 'n', 'f']) || eq_ignore_case_x(
        &u,
        &vec!['i', 'n', 'f', 'i', 'n', 'i', 't', 'y'],
    ) || eq_ignore_case_x(&u, &vec!['n', 'a', 'n']) {
        return true;
    }
    let a = digits_end_x(&u, 0);
    let dot = a < u.len() && u[a] == '.';
    let b = if dot {
        digits_end_x(&u, a + 1)
    } else {
        a
    };
    let mantissa = if dot {
        a > 0 || b > a + 1
    } else {
        a > 0
    };
    if !mantissa {
        return false;
    }
    if b == u.len() {
        return true;
    }
    if !(u[b] == 'e' || u[b] == 'E') {
        return false;
    }
    let j = if b + 1 < u.len() && (u[b + 1] == '+' || u[b + 1] == '-') {
        b + 2
    } else {
        b + 1
    };
    let e = digits_end_x(&u, j);
    e > j && e == u.len()
}

/// The spec of `without_blanks`, step by step.
proof fn lemma_without_blanks_push(s: Seq<char>, c: char)
    ensures
        without_blanks(s.push(c)) == if c == '_' {
            without_blanks(s)
        } else {
            without_blanks(s).push(c)
        },
{
    reveal(Seq::filter);
    assert(s.push(c).drop_last() =~= s);
}

fn without_blanks_x(v: &Vec<char>) -> (r: Vec<char>)
    ensures
        r@ == without_blanks(v@),
{
    let mut r = Vec::new();
    let mut i: usize = 0;
    while i < v.len()
        invariant
            i <= v@.len(),
            r@ == without_blanks(v@.take(i as int)),
        decreases v@.len() - i,
    {
        proof {
            assert(v@.take(i + 1) =~= v@.take(i as int).push(v@[i as int]));
            lemma_without_blanks_push(v@.take(i as int), v@[i as int]);
        }
        if v[i] != '_' {
            r.push(v[i]);
        }
        i += 1;
    }
    proof {
        assert(v@.take(v@.len() as int) =~= v@);
    }
    r
}

/// The value of digit `c` in `radix`, or -1.
fn digit_value_x(c: char, radix: u32) -> (r: i64)
    requires
        radix <= 36,
    ensures
        r as int == digit_value(c, radix as int),
{
    let v: i64 = if '0' <= c && c <= '9' {
        (c as u32 - 48) as i64
    } else if 'a' <= c && c <= 'z' {
        (c as u32 - 87) as i64
    } else if 'A' <= c && c <= 'Z' {
        (c as u32 - 55) as i64
    } else {
        -1
    };
    if 0 <= v && v < radix as i64 {
        v
    } else {
        -1
    }
}

/// Magnitudes at or above this are kept as this: no range the reader checks
/// reaches it.
const MAGNITUDE_CAP: u128 = 0x4_0000_0000_0000_0000;

/// One more digit of a number.
proof fn lemma_digits_value_push(d: Seq<char>, k: int, radix: int)
    requires
        0 <= k < d.len(),
    ensures
        digits_value(d.take(k + 1), radix) == digits_value(d.take(k), radix) * radix
            + digit_value(d[k], radix),
{
    assert(d.take(k + 1).drop_last() =~= d.take(k));
}

/// The sign and the magnitude (capped) of what `int_value` gives.
fn int_value_x(s: &Vec<char>, radix: u32) -> (r: Option<(bool, u128)>)
    requires
        radix == 2 || radix == 10 || radix == 16,
    ensures
        match r {
            None => int_value(s@, radix as int) is None,
            Some((neg, m)) => int_value(s@, radix as int) matches Some(v) && m <= MAGNITUDE_CAP
                && (if neg { v <= 0 } else { v >= 0 }) && (m < MAGNITUDE_CAP ==> (v == m || v
                == -m)) && (m == MAGNITUDE_CAP ==> (v >= MAGNITUDE_CAP || v <= -MAGNITUDE_CAP)),
        },
{
    if s.len() == 0 || ((s[0] == '+' || s[0] == '-') && s.len() == 1) {
        return None;
    }
    let neg = s[0] == '-';
    let start: usize = if s[0] == '+' || s[0] == '-' { 1 } else { 0 };
    let d = slice(s, start, s.len());
    let ghost rd = radix as int;
    proof {
        assert(s@.subrange(0, s@.len() as int) =~= s@);
        assert(s@.subrange(1, s@.len() as int) =~= s@.drop_first());
        assert(d@.take(0) =~= Seq::<char>::empty());
    }
    let mut acc: u128 = 0;
    let mut i: usize = 0;
    while i < d.len()
        invariant
            i <= d@.len(),
            rd == radix as int,
            radix == 2 || radix == 10 || radix == 16,
            s@.len() > 0,
            d@ == (if s@[0] == '+' || s@[0] == '-' { s@.drop_first() } else { s@ }),
            acc <= MAGNITUDE_CAP,
            all_digits(d@.take(i as int), rd),
            digits_value(d@.take(i as int), rd) >= 0,
            acc < MAGNITUDE_CAP ==> acc == digits_value(d@.take(i as int), rd),
            acc == MAGNITUDE_CAP ==> digits_value(d@.take(i as int), rd) >= MAGNITUDE_CAP,
        decreases d@.len() - i,
    {
        let dv = digit_value_x(d[i], radix);
        if dv < 0 {
            proof {
                assert(!all_digits(d@, rd)) by {
                    assert(digit_value(d@[i as int], rd) < 0);
                }
            }
            return None;
        }
        let ghost before = digits_value(d@.take(i as int), rd);
        proof {
            lemma_digits_value_push(d@, i as int, rd);
            assert(before * rd + dv >= before) by (nonlinear_arith)
                requires
                    before >= 0,
                    rd >= 2,
                    dv >= 0,
            ;
            assert(all_digits(d@.take(i + 1), rd)) by {
                assert forall|k: int| 0 <= k < i + 1 implies digit_value(
                    #[trigger] d@.take(i + 1)[k],
                    rd,
                ) >= 0 by {
                    if k < i {
                        assert(d@.take(i + 1)[k] == d@.take(i as int)[k]);
                    }
                }
            }
        }
        if acc < MAGNITUDE_CAP {
            assert(acc * (radix as u128) + (dv as u128) <= MAGNITUDE_CAP * 16 + 16) by (
            nonlinear_arith)
                requires
                    acc < MAGNITUDE_CAP,
                    radix <= 16,
                    0 <= dv < 16,
            ;
            acc = acc * (radix as u128) + (dv as u128);
            if acc > MAGNITUDE_CAP {
                acc = MAGNITUDE_CAP;
            }
        }
        i += 1;
    }
    proof {
        assert(d@.take(d@.len() as int) =~= d@);
    }
    Some((neg, acc))
}

fn sign_of_x(c: char) -> (r: Option<bool>)
    ensures
        r == sign_of(c),
{
    if c == 'u' || c == 'U' {
        Some(true)
    } else if c == 's' || c == 'S' {
        Some(false)
    } else {
        None
    }
}

fn variant_of_x(c: char) -> (r: Option<NumKind>)
    ensures
        r == variant_of(c),
{
    if c == 'b' || c == 'B' {
        Some(NumKind::Byte)
    } else if c == 's' || c == 'S' {
        Some(NumKind::Short)
    } else if c == 'l' || c == 'L' {
        Some(NumKind::Long)
    } else if c == 'i' || c == 'I' {
        Some(NumKind::Int)
    } else {
        None
    }
}

fn suffix_of_x(s0: char, s1: char, hex: bool) -> (r: Option<(bool, NumKind, usize)>)
    ensures
        match r {
            None => suffix_of(s0, s1, hex) is None,
            Some((u, k, c)) => suffix_of(s0, s1, hex) == Some((u, k, c as int)) && c <= 2,
        },
{
    let sign0 = sign_of_x(s0);
    let sign1 = sign_of_x(s1);
    let variant = variant_of_x(s1);
    if hex && (s1 == 'b' || s1 == 'B') && sign0.is_none() {
        return None;
    }
    let unsigned = match sign0 {
        Some(u) => u,
        None => false,
    };
    let count1: usize = if sign0.is_some() { 2 } else { 1 };
    let single = sign0.is_none() && sign1.is_some();
    let count = if variant.is_some() { count1 } else { count1 - 1 };
    let kind = match variant {
        Some(k) => k,
        None => NumKind::Int,
    };
    if single && count == 0 {
        None
    } else {
        Some((unsigned, kind, count))
    }
}

/// Whether the number `v`, given by its sign and capped magnitude, lies in
/// the range of the kind.
fn in_range_x(neg: bool, m: u128, unsigned: bool, kind: &NumKind, Ghost(v): Ghost<int>) -> (b: bool)
    requires
        m <= MAGNITUDE_CAP,
        if neg { v <= 0 } else { v >= 0 },
        m < MAGNITUDE_CAP ==> (v == m || v == -m),
        m == MAGNITUDE_CAP ==> (v >= MAGNITUDE_CAP || v <= -MAGNITUDE_CAP),
    ensures
        b == in_range(v, unsigned, *kind),
{
    proof {
        vstd::arithmetic::power2::lemma2_to64();
    }
    let top: u128 = match kind {
        NumKind::Byte => 0x100,
        NumKind::Short => 0x1_0000,
        NumKind::Long => 0x1_0000_0000_0000_0000,
        _ => 0x1_0000_0000,
    };
    let half = top / 2;
    if unsigned {
        if neg {
            m == 0
        } else {
            m < top
        }
    } else if neg {
        m <= half
    } else {
        m < half
    }
}

fn int_kind_x(w: &Vec<char>) -> (r: NumKind)
    ensures
        r == int_kind(w@),
{
    let hex = w.len() >= 2 && w[0] == '0' && w[1] == 'x';
    let binary = !hex && w.len() > 3 && w[0] == '0' && w[1] == 'b' && is_digit_x(w[2]);
    let suffix = if w.len() < 2 {
        Some((false, NumKind::Int, 0usize))
    } else {
        suffix_of_x(w[w.len() - 2], w[w.len() - 1], hex)
    };
    match suffix {
        None => NumKind::Fails,
        Some((unsigned, kind, count)) => {
            let body = slice(w, 0, w.len() - count);
            let value = if hex {
                int_value_x(&slice(&body, 2, body.len()), 16)
            } else if binary {
                int_value_x(&slice(&body, 2, body.len()), 2)
            } else {
                int_value_x(&body, 10)
            };
            let ghost sv = if hex {
                int_value(body@.skip(2), 16)
            } else if binary {
                int_value(body@.skip(2), 2)
            } else {
                int_value(body@, 10)
            };
            proof {
                assert(body@.subrange(2, body@.len() as int) =~= body@.skip(2));
            }
            match value {
                Some((neg, m)) => if in_range_x(neg, m, unsigned, &kind, Ghost(sv->Some_0)) {
                    kind
                } else {
                    NumKind::Fails
                },
                None => NumKind::Fails,
            }
        },
    }
}

fn float_kind_x(w: &Vec<char>) -> (r: NumKind)
    ensures
        r == float_kind(w@),
{
    if w.len() <= 1 {
        return NumKind::Panics;
    }
    let last = w[w.len() - 1];
    let head = slice(w, 0, w.len() - 1);
    proof {
        assert(head@ =~= w@.drop_last());
    }
    if last == 'f' || last == 'F' {
        if float_ok_x(&head) {
            NumKind::Float
        } else {
            NumKind::Fails
        }
    } else if last == 'd' || last == 'D' {
        if float_ok_x(&head) {
            NumKind::Double
        } else {
            NumKind::Fails
        }
    } else if float_ok_x(w) {
        NumKind::Double
    } else {
        NumKind::Fails
    }
}

/// Whether the token holds `.`, `e` or `E`.
fn has_float_mark(v: &Vec<char>) -> (b: bool)
    ensures
        b == exists|k: int| 0 <= k < v@.len() && (v@[k] == '.' || v@[k] == 'e' || v@[k] == 'E'),
{
    let mut i: usize = 0;
    while i < v.len()
        invariant
            i <= v@.len(),
            forall|k: int| 0 <= k < i ==> !(v@[k] == '.' || v@[k] == 'e' || v@[k] == 'E'),
        decreases v@.len() - i,
    {
        let c = v[i];
        if c == '.' || c == 'e' || c == 'E' {
            return true;
        }
        i += 1;
    }
    false
}

fn num_kind_x(val: &Vec<char>) -> (r: NumKind)
    ensures
        r == num_kind(val@),
{
    if val.len() == 0 {
        return NumKind::Missing;
    }
    let v = trim_x(val);
    if starts_bool_x(&v) {
        NumKind::Byte
    } else if v.len() == 0 {
        NumKind::Panics
    } else if !is_num_start_x(v[0]) {
        NumKind::Missing
    } else if v[v.len() - 1] == '_' {
        NumKind::Fails
    } else if has_float_mark(&v) {
        float_kind_x(&without_blanks_x(&v))
    } else {
        int_kind_x(&without_blanks_x(&v))
    }
}

/// The text of the characters.
fn text_of(v: &Vec<char>) -> (s: String)
    ensures
        s@ == v@,
{
    let mut s = String::new();
    let mut i: usize = 0;
    while i < v.len()
        invariant
            i <= v@.len(),
            s@ == v@.take(i as int),
        decreases v@.len() - i,
    {
        string_push(&mut s, v[i]);
        proof {
            assert(v@.take(i + 1) =~= v@.take(i as int).push(v@[i as int]));
        }
        i += 1;
    }
    proof {
        assert(v@.take(v@.len() as int) =~= v@);
    }
    s
}

fn operation_scan_x(val: &Vec<char>) -> (r: Option<Verdict>)
    ensures
        r == operation_scan(val@),
{
    let is_bool = val.len() > 4 && val[0] == 'b' && val[1] == 'o' && val[2] == 'o' && val[3]
        == 'l';
    let is_uuid = val.len() > 4 && val[0] == 'u' && val[1] == 'u' && val[2] == 'i' && val[3]
        == 'd';
    if !is_bool && !is_uuid {
        None
    } else if val.len() < 6 {
        Some(Verdict::Panics)
    } else {
        let arg = slice(val, 5, val.len() - 1);
        if is_bool {
            let k = num_kind_x(&arg);
            Some(
                match k {
                    NumKind::Panics => Verdict::Panics,
                    NumKind::Fails => Verdict::Fails,
                    NumKind::Byte | NumKind::Short | NumKind::Int | NumKind::Long => Verdict::Passes,
                    _ => Verdict::Panics,
                },
            )
        } else {
            Some(
                match string_scan_x(&arg) {
                    StrScanX::Panics => Verdict::Panics,
                    StrScanX::Fails => Verdict::Fails,
                    StrScanX::Text(s) => if uuid_text_parses(&text_of(&s)) {
                        Verdict::Passes
                    } else {
                        Verdict::Fails
                    },
                },
            )
        }
    }
}

fn primitive_scan_x(val: &Vec<char>) -> (r: Verdict)
    ensures
        r == primitive_scan(val@),
{
    match operation_scan_x(val) {
        Some(v) => v,
        None => if starts_bool_x(val) {
            Verdict::Passes
        } else if val.len() == 0 {
            Verdict::Panics
        } else if is_num_start_x(val[0]) {
            match num_kind_x(val) {
                NumKind::Panics | NumKind::Missing => Verdict::Panics,
                NumKind::Fails => Verdict::Fails,
                _ => Verdict::Passes,
            }
        } else {
            match string_scan_x(val) {
                StrScanX::Panics => Verdict::Panics,
                StrScanX::Fails => Verdict::Fails,
                StrScanX::Text(_) => Verdict::Passes,
            }
        }
    }
}

/// What an item read so far, `acc`, makes of the rest of the read.
spec fn prefixed(acc: Seq<char>, r: Option<(int, Seq<char>)>) -> Option<(int, Seq<char>)> {
    match r {
        Some((e, s)) => Some((e, acc + s)),
        None => None,
    }
}

proof fn lemma_prefixed_push(acc: Seq<char>, c: char, r: Option<(int, Seq<char>)>)
    ensures
        prefixed(acc, prefixed(seq![c], r)) == prefixed(acc.push(c), r),
{
    if let Some((e, s)) = r {
        assert(acc + (seq![c] + s) =~= acc.push(c) + s);
    }
}

fn item_until_x(t: &Vec<char>, i0: usize) -> (r: Option<(usize, Vec<char>)>)
    requires
        i0 <= t@.len(),
    ensures
        match r {
            None => item_until(t@, i0 as int, false) is None,
            Some((e, s)) => item_until(t@, i0 as int, false) == Some((e as int, s@)) && i0 <= e
                <= t@.len(),
        },
{
    let mut i = i0;
    let mut escaped = false;
    let mut acc: Vec<char> = Vec::new();
    proof {
        assert(Seq::<char>::empty() + item_until(t@, i0 as int, false)->Some_0.1 =~= item_until(
            t@,
            i0 as int,
            false,
        )->Some_0.1);
    }
    while i < t.len()
        invariant
            i0 <= i <= t@.len(),
            item_until(t@, i0 as int, false) == prefixed(acc@, item_until(t@, i as int, escaped)),
        decreases t@.len() - i,
    {
        let c = t[i];
        let stop = c == ',' || c == ']';
        if escaped {
            if stop || c == '\\' {
                proof {
                    lemma_prefixed_push(acc@, c, item_until(t@, i + 1, false));
                }
                acc.push(c);
                escaped = false;
            } else {
                return None;
            }
        } else if c == '\\' {
            escaped = true;
        } else if stop {
            proof {
                assert(acc@ + Seq::<char>::empty() =~= acc@);
            }
            return Some((i, acc));
        } else {
            proof {
                lemma_prefixed_push(acc@, c, item_until(t@, i + 1, false));
            }
            acc.push(c);
        }
        i += 1;
    }
    proof {
        assert(acc@ + Seq::<char>::empty() =~= acc@);
    }
    Some((i, acc))
}

fn array_takes_x(a: char, k: &NumKind) -> (b: bool)
    ensures
        b == array_takes(a, *k),
{
    match k {
        NumKind::Byte => true,
        NumKind::Short | NumKind::Int => a != 'B',
        NumKind::Long => a != 'B' && a != 'I',
        _ => false,
    }
}

fn typed_items_x(t: &Vec<char>, p0: usize, a: char) -> (r: ScanX)
    requires
        p0 <= t@.len(),
    ensures
        r@ == typed_items(t@, p0 as int, a),
        r matches ScanX::Reads(e, _) ==> e <= t@.len(),
{
    let mut p = p0;
    loop
        invariant
            p <= t@.len(),
            typed_items(t@, p as int, a) == typed_items(t@, p0 as int, a),
        decreases t@.len() - p,
    {
        if p == t.len() || t[p] == ']' {
            if p < t.len() {
                return ScanX::Reads(p + 1, 0);
            } else {
                return ScanX::Fails;
            }
        }
        let p1 = skip_ws_x(t, p);
        match item_until_x(t, p1) {
            None => {
                return ScanX::Fails;
            },
            Some((end, item)) => {
                let k = num_kind_x(&item);
                match k {
                    NumKind::Panics | NumKind::Missing => {
                        return ScanX::Panics;
                    },
                    NumKind::Fails => {
                        return ScanX::Fails;
                    },
                    _ => {},
                }
                if !array_takes_x(a, &k) {
                    return ScanX::Fails;
                }
                let next = peek_x(t, end);
                if next == ',' && end >= t.len() {
                    return ScanX::Fails;
                }
                let p4 = if next == ',' {
                    end + 1
                } else {
                    end
                };
                if p < p4 && p4 <= t.len() {
                    p = p4;
                } else {
                    return ScanX::Fails;
                }
            },
        }
    }
}

fn unquoted_end_x(t: &Vec<char>, p0: usize) -> (r: usize)
    requires
        p0 <= t@.len(),
    ensures
        r as int == unquoted_end(t@, p0 as int),
        p0 <= r <= t@.len(),
{
    let mut i = p0;
    while i < t.len() && is_unquoted_x(t[i])
        invariant
            p0 <= i <= t@.len(),
            unquoted_end(t@, i as int) == unquoted_end(t@, p0 as int),
        decreases t@.len() - i,
    {
        i += 1;
    }
    i
}

fn quoted_key_from_x(t: &Vec<char>, i0: usize) -> (r: ScanX)
    requires
        i0 <= t@.len(),
    ensures
        r@ == quoted_key_from(t@, i0 as int),
        r matches ScanX::Reads(e, _) ==> e <= t@.len(),
{
    let mut i = i0;
    loop
        invariant
            i <= t@.len(),
            quoted_key_from(t@, i as int) == quoted_key_from(t@, i0 as int),
        decreases t@.len() - i,
    {
        if i < t.len() && !is_quote_x(t[i]) {
            match escape_at_x(t, i) {
                EscapeX::Panics => {
                    return ScanX::Panics;
                },
                EscapeX::Fails => {
                    return ScanX::Fails;
                },
                EscapeX::Valid(j) => {
                    i = j;
                },
                EscapeX::Invalid(j) => {
                    if j >= t.len() {
                        return ScanX::Panics;
                    }
                    i = j + 1;
                },
            }
        } else if i >= t.len() {
            return ScanX::Panics;
        } else {
            return ScanX::Reads(i + 1, 0);
        }
    }
}

fn key_scan_x(t: &Vec<char>, p: usize) -> (r: ScanX)
    requires
        p <= t@.len(),
    ensures
        r@ == key_scan(t@, p as int),
        r matches ScanX::Reads(e, _) ==> e <= t@.len(),
{
    if t.len() > 0 && is_quote_x(peek_x(t, p)) {
        if p >= t.len() {
            ScanX::Panics
        } else {
            quoted_key_from_x(t, p + 1)
        }
    } else {
        ScanX::Reads(unquoted_end_x(t, p), 0)
    }
}

fn value_scan_x(t: &Vec<char>, p: usize, d: usize) -> (r: ScanX)
    requires
        p <= t@.len(),
        d <= 512,
    ensures
        r@ == value_scan(t@, p as int, d as int),
        r matches ScanX::Reads(e, d2) ==> e <= t@.len() && d < d2 < 512,
    decreases 512 - d, 0int,
{
    if d + 1 >= 512 {
        return ScanX::Fails;
    }
    let d1 = d + 1;
    let q = skip_ws_x(t, p);
    if q >= t.len() {
        ScanX::Panics
    } else if t[q] == '[' {
        list_scan_x(t, q, d1)
    } else if t[q] == '{' {
        compound_items_x(t, q + 1, d1)
    } else {
        match delimited_end_x(t, q) {
            None => ScanX::Panics,
            Some(e) => match primitive_scan_x(&slice(t, q, e)) {
                Verdict::Panics => ScanX::Panics,
                Verdict::Fails => ScanX::Fails,
                Verdict::Passes => ScanX::Reads(e, d1),
            },
        }
    }
}

fn list_scan_x(t: &Vec<char>, q: usize, d: usize) -> (r: ScanX)
    requires
        q <= t@.len(),
        d <= 512,
    ensures
        r@ == list_scan(t@, q as int, d as int),
        r matches ScanX::Reads(e, d2) ==> e <= t@.len() && d <= d2 < 512,
    decreases 512 - d, 2int,
{
    if d >= 512 || q >= t.len() {
        return ScanX::Fails;
    }
    let p = skip_ws_x(t, q + 1);
    if p >= t.len() {
        ScanX::Panics
    } else if t[p] == 'B' || t[p] == 'I' || t[p] == 'L' {
        let p2 = skip_ws_x(t, p + 1);
        if p2 >= t.len() {
            ScanX::Panics
        } else if t[p2] == ';' {
            match typed_items_x(t, p2 + 1, t[p]) {
                ScanX::Reads(e, _) => ScanX::Reads(e, d),
                ScanX::Panics => ScanX::Panics,
                ScanX::Fails => ScanX::Fails,
            }
        } else {
            list_items_x(t, p, d)
        }
    } else {
        list_items_x(t, p, d)
    }
}

fn list_items_x(t: &Vec<char>, p: usize, d: usize) -> (r: ScanX)
    requires
        p <= t@.len(),
        d <= 512,
    ensures
        r@ == list_items(t@, p as int, d as int),
        r matches ScanX::Reads(e, d2) ==> e <= t@.len() && d <= d2 < 512,
    decreases 512 - d, 1int,
{
    if d >= 512 {
        return ScanX::Fails;
    }
    if p == t.len() || t[p] == ']' {
        if p < t.len() {
            return ScanX::Reads(p + 1, d);
        } else {
            return ScanX::Fails;
        }
    }
    match value_scan_x(t, skip_ws_x(t, p), d) {
        ScanX::Reads(p2, d2) => {
            let p3 = skip_ws_x(t, p2);
            let next = peek_x(t, p3);
            if next == ',' && p3 >= t.len() {
                ScanX::Fails
            } else {
                let p4 = if next == ',' {
                    p3 + 1
                } else {
                    p3
                };
                if d < d2 && d2 < 512 {
                    list_items_x(t, p4, d2)
                } else {
                    ScanX::Fails
                }
            }
        },
        ScanX::Panics => ScanX::Panics,
        ScanX::Fails => ScanX::Fails,
    }
}

fn compound_items_x(t: &Vec<char>, p: usize, d: usize) -> (r: ScanX)
    requires
        p <= t@.len(),
        d <= 512,
    ensures
        r@ == compound_items(t@, p as int, d as int),
        r matches ScanX::Reads(e, d2) ==> e <= t@.len() && d <= d2 < 512,
    decreases 512 - d, 1int,
{
    if d >= 512 {
        return ScanX::Fails;
    }
    if p == t.len() || t[p] == '}' {
        if p < t.len() {
            return ScanX::Reads(p + 1, d);
        } else {
            return ScanX::Fails;
        }
    }
    let p1 = skip_ws_x(t, p);
    if peek_x(t, p1) == '}' {
        if p1 < t.len() {
            return ScanX::Reads(p1 + 1, d);
        } else {
            return ScanX::Fails;
        }
    }
    match key_scan_x(t, p1) {
        ScanX::Reads(k, _) => {
            let p2 = skip_ws_x(t, k);
            if !(p2 < t.len() && t[p2] == ':') {
                return ScanX::Fails;
            }
            match value_scan_x(t, p2 + 1, d) {
                ScanX::Reads(p3, d2) => {
                    let p4 = skip_ws_x(t, p3);
                    let next = peek_x(t, p4);
                    if next == ',' && p4 >= t.len() {
                        ScanX::Fails
                    } else {
                        let p5 = if next == ',' {
                            p4 + 1
                        } else {
                            p4
                        };
                        if d < d2 && d2 < 512 {
                            compound_items_x(t, p5, d2)
                        } else {
                            ScanX::Fails
                        }
                    }
                },
                ScanX::Panics => ScanX::Panics,
                ScanX::Fails => ScanX::Fails,
            }
        },
        ScanX::Panics => ScanX::Panics,
        ScanX::Fails => ScanX::Fails,
    }
}

/// Whether `vanity_nbt::snbt::from_snbt` comes back on `text` (with a value
/// or an error) rather than panicking: what `snbt_returns` says.
pub fn snbt_returns_x(text: &str) -> (b: bool)
    ensures
        b == snbt_returns(text@),
{
    let mut t: Vec<char> = Vec::new();
    let mut ascii = true;
    proof {
        broadcast use vstd::string::group_string_axioms;
    }
    for c in it: text.chars()
        invariant
            it.seq() == text@,
            t@ == text@.take(it.index() as int),
            ascii == vstd::utf8::is_ascii_chars(t@),
    {
        let ghost i = it.index();
        proof {
            lemma_char_at_least_nul(c);
        }
        t.push(c);
        if c > '\u{7f}' {
            ascii = false;
        }
        proof {
            assert(text@.take(i + 1) =~= text@.take(i as int).push(c));
            assert(t@.drop_last() =~= text@.take(i as int));
            let prev = t@.drop_last();
            assert(t@[i as int] == c);
            assert(forall|k: int| 0 <= k < i ==> t@[k] == prev[k]);
            if ascii {
                assert(vstd::utf8::is_ascii_chars(t@));
            } else if c > '\u{7f}' {
                assert(!('\0' <= t@[i as int] <= '\u{7f}'));
            } else {
                assert(!vstd::utf8::is_ascii_chars(prev));
                let k = choose|k: int| 0 <= k < prev.len() && !('\0' <= #[trigger] prev[k] <= '\u{7f}');
                assert(!('\0' <= t@[k] <= '\u{7f}'));
            }
        }
    }
    proof {
        assert(text@.take(text@.len() as int) =~= text@);
    }
    if !ascii {
        return false;
    }
    match value_scan_x(&t, 0, 0) {
        ScanX::Panics => false,
        _ => true,
    }
}

} // verus!
