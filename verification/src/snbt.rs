use vstd::prelude::*;

verus! {

// Whether `vanity_nbt::snbt::from_snbt` comes back (with a value or an
// error) on an ASCII text, or stops on one of its `todo!`, `panic!`,
// `unwrap`, `expect` or `assert!`. The functions below follow the parser of
// `vanity_nbt` 0.1.0 (and the reader of `slectern` 0.1.0 under it) step for
// step, keeping only what decides whether it stops: the reader's position,
// the number of values started so far (the parser refuses the 512th), and
// the kinds of the numbers it reads.

/// How a step of the parser ends.
pub enum Scan {
    /// It stops on a panic.
    Panics,
    /// It returns an error, which ends the parse.
    Fails,
    /// It goes on at this position, having started this many values.
    Reads(int, int),
}

/// How a check of the parser ends.
pub enum Verdict {
    Panics,
    Fails,
    Passes,
}

/// What the number reader makes of a token.
pub enum NumKind {
    Panics,
    Fails,
    /// Not a number (`Ok(None)`).
    Missing,
    Byte,
    Short,
    Int,
    Long,
    Float,
    Double,
}

/// How an escape sequence at the reader's position ends.
pub enum Escape {
    Panics,
    Fails,
    /// A valid escape, read up to this position.
    Valid(int),
    /// Not a valid escape (`Ok(false)`); the reader is at this position.
    Invalid(int),
}

/// What reading a string gives.
pub enum StrScan {
    Panics,
    Fails,
    Text(Seq<char>),
}

/// `char::is_whitespace` on ASCII.
pub open spec fn is_ws(c: char) -> bool {
    c == ' ' || ('\t' <= c && c <= '\r')
}

pub open spec fn is_quote(c: char) -> bool {
    c == '\'' || c == '"'
}

/// The characters that end a primitive value.
pub open spec fn is_delim(c: char) -> bool {
    c == ',' || c == ']' || c == '}'
}

pub open spec fn is_digit(c: char) -> bool {
    '0' <= c && c <= '9'
}

pub open spec fn is_hex_digit(c: char) -> bool {
    is_digit(c) || ('a' <= c && c <= 'f') || ('A' <= c && c <= 'F')
}

/// A character a number may start with.
pub open spec fn is_num_start(c: char) -> bool {
    is_digit(c) || c == '-' || c == '+' || c == '.'
}

/// A character of an unquoted string.
pub open spec fn is_unquoted(c: char) -> bool {
    is_digit(c) || ('A' <= c && c <= 'Z') || ('a' <= c && c <= 'z') || c == '_' || c == '-' || c
        == '.' || c == '+'
}

/// The character the reader sees at `p`: past the end, the last one.
pub open spec fn peek(t: Seq<char>, p: int) -> char {
    if p >= t.len() {
        t[t.len() - 1]
    } else {
        t[p]
    }
}

/// The position after the whitespace at `p`.
pub open spec fn skip_ws(t: Seq<char>, p: int) -> int
    decreases t.len() - p,
{
    if 0 <= p < t.len() && is_ws(t[p]) {
        skip_ws(t, p + 1)
    } else {
        p
    }
}

/// Where a primitive value that starts at `i` ends (before its delimiter),
/// with `qc` quotes seen so far; `None` when the reader panics on a quote
/// escaped outside quotes.
pub open spec fn delimited_end(t: Seq<char>, i: int, qc: int) -> Option<int>
    decreases t.len() - i,
{
    if i < 0 || i >= t.len() {
        Some(i)
    } else {
        let c = t[i];
        let escaped = i >= 1 && t[i - 1] == '\\';
        if is_quote(c) && qc % 2 == 0 && escaped {
            None
        } else {
            let qc2 = if is_quote(c) && !escaped { qc + 1 } else { qc };
            if qc2 % 2 == 0 && is_delim(c) {
                Some(i)
            } else {
                delimited_end(t, i + 1, qc2)
            }
        }
    }
}

/// Reading on to the `}` of a `\N{..}` escape from `i`: the position after
/// it, or `None` for an error.
pub open spec fn until_close(t: Seq<char>, i: int, escaped: bool) -> Option<int>
    decreases t.len() - i,
{
    if i < 0 || i >= t.len() {
        None
    } else {
        let c = t[i];
        if escaped {
            if c == '}' || c == '\\' {
                until_close(t, i + 1, false)
            } else {
                None
            }
        } else if c == '\\' {
            until_close(t, i + 1, true)
        } else if c == '}' {
            Some(i + 1)
        } else {
            until_close(t, i + 1, false)
        }
    }
}

/// `u32::from_str_radix(s, 16)` succeeds: an optional `+`, then at least one
/// hex digit and nothing else (at most 8 digits are ever given, which fit).
pub open spec fn hex_u32_ok(s: Seq<char>) -> bool {
    all_hex(unsigned_part(s))
}

/// `s` without a leading `+`.
pub open spec fn unsigned_part(s: Seq<char>) -> Seq<char> {
    if s.len() > 0 && s[0] == '+' {
        s.drop_first()
    } else {
        s
    }
}

/// `d` is a non-empty run of hex digits.
pub open spec fn all_hex(d: Seq<char>) -> bool {
    d.len() > 0 && forall|k: int| 0 <= k < d.len() ==> is_hex_digit(#[trigger] d[k])
}

/// How the escape at `p` ends.
pub open spec fn escape_at(t: Seq<char>, p: int) -> Escape {
    if t.len() == 0 || peek(t, p) != '\\' {
        Escape::Invalid(p)
    } else if p + 1 >= t.len() {
        Escape::Panics
    } else {
        let c = t[p + 1];
        let p2 = p + 2;
        if c == 'b' || c == 'f' || c == 'n' || c == 'r' || c == 's' || c == 't' || c == '\\' || c
            == '\'' || c == '"' {
            Escape::Valid(p2)
        } else if c == 'x' || c == 'u' || c == 'U' {
            let l: int = if c == 'x' { 2 } else if c == 'u' { 4 } else { 8 };
            if t.len() - p2 < l {
                Escape::Fails
            } else if hex_u32_ok(t.subrange(p2, p2 + l)) {
                Escape::Valid(p2 + l)
            } else {
                Escape::Invalid(p2 + l)
            }
        } else if c == 'N' {
            if !(p2 < t.len() && t[p2] == '{') {
                Escape::Fails
            } else {
                match until_close(t, p2 + 1, false) {
                    None => Escape::Fails,
                    Some(q) => Escape::Valid(q),
                }
            }
        } else {
            Escape::Panics
        }
    }
}

/// `s` without its leading whitespace.
pub open spec fn trim_start(s: Seq<char>) -> Seq<char>
    decreases s.len(),
{
    if s.len() > 0 && is_ws(s[0]) {
        trim_start(s.drop_first())
    } else {
        s
    }
}

/// `s` without its trailing whitespace.
pub open spec fn trim_end(s: Seq<char>) -> Seq<char>
    decreases s.len(),
{
    if s.len() > 0 && is_ws(s.last()) {
        trim_end(s.drop_last())
    } else {
        s
    }
}

/// `str::trim`.
pub open spec fn trim(s: Seq<char>) -> Seq<char> {
    trim_end(trim_start(s))
}

/// Every backslash of a quoted string, from `i` on, starts a valid escape.
pub open spec fn escapes_from(v: Seq<char>, i: int) -> Verdict
    decreases v.len() - i,
{
    if i < 0 || i >= v.len() {
        Verdict::Passes
    } else if v[i] != '\\' {
        escapes_from(v, i + 1)
    } else {
        match escape_at(v.subrange(i, v.len() as int), 0) {
            Escape::Panics => Verdict::Panics,
            Escape::Fails => Verdict::Fails,
            Escape::Invalid(_) => Verdict::Panics,
            Escape::Valid(_) => escapes_from(v, i + 1),
        }
    }
}

/// A valid unquoted string: allowed characters, not starting like a number.
pub open spec fn unquoted_ok(v: Seq<char>) -> bool {
    &&& !(is_digit(v[0]) || v[0] == '-' || v[0] == '.' || v[0] == '+')
    &&& forall|k: int| 0 <= k < v.len() ==> is_unquoted(#[trigger] v[k])
}

/// What the string reader makes of a primitive token.
pub open spec fn string_scan(val: Seq<char>) -> StrScan {
    let v = trim(val);
    if v.len() == 0 {
        StrScan::Panics
    } else if is_quote(v[0]) {
        match escapes_from(v, 0) {
            Verdict::Panics => StrScan::Panics,
            Verdict::Fails => StrScan::Fails,
            Verdict::Passes => if v.len() < 2 {
                StrScan::Panics
            } else {
                StrScan::Text(v.subrange(1, v.len() - 1))
            },
        }
    } else if unquoted_ok(v) {
        StrScan::Text(v)
    } else {
        StrScan::Fails
    }
}

/// The token starts with `false` or `true`.
pub open spec fn starts_bool(v: Seq<char>) -> bool {
    ||| (v.len() >= 5 && v[0] == 'f' && v[1] == 'a' && v[2] == 'l' && v[3] == 's' && v[4] == 'e')
    ||| (v.len() >= 4 && v[0] == 't' && v[1] == 'r' && v[2] == 'u' && v[3] == 'e')
}

/// The index after the run of decimal digits that starts at `i`.
pub open spec fn digits_end(s: Seq<char>, i: int) -> int
    decreases s.len() - i,
{
    if 0 <= i < s.len() && is_digit(s[i]) {
        digits_end(s, i + 1)
    } else {
        i
    }
}

/// `s` is `w` (lower-case), but for the case of its ASCII letters.
pub open spec fn eq_ignore_case(s: Seq<char>, w: Seq<char>) -> bool {
    s.len() == w.len() && forall|k: int|
        0 <= k < s.len() ==> (#[trigger] s[k] == w[k] || ('a' <= w[k] && w[k] <= 'z' && (s[k] as u32)
            == (w[k] as u32) - 32))
}

/// What `str::parse` accepts for `f32` and `f64` (the grammar in their
/// documentation).
pub open spec fn float_ok(s: Seq<char>) -> bool {
    let u = if s.len() > 0 && (s[0] == '+' || s[0] == '-') { s.drop_first() } else { s };
    ||| eq_ignore_case(u, seq!['i', 'n', 'f'])
    ||| eq_ignore_case(u, seq!['i', 'n', 'f', 'i', 'n', 'i', 't', 'y'])
    ||| eq_ignore_case(u, seq!['n', 'a', 'n'])
    ||| {
        let a = digits_end(u, 0);
        let dot = a < u.len() && u[a] == '.';
        let b = if dot { digits_end(u, a + 1) } else { a };
        let mantissa = if dot { a > 0 || b > a + 1 } else { a > 0 };
        &&& mantissa
        &&& (b == u.len() || {
            &&& (u[b] == 'e' || u[b] == 'E')
            &&& {
                let j = if b + 1 < u.len() && (u[b + 1] == '+' || u[b + 1] == '-') { b + 2 } else { b + 1 };
                digits_end(u, j) > j && digits_end(u, j) == u.len()
            }
        })
    }
}

/// The value of digit `c` in `radix`, or -1.
pub open spec fn digit_value(c: char, radix: int) -> int {
    let v: int = if is_digit(c) {
        (c as u32) - 48
    } else if 'a' <= c && c <= 'z' {
        (c as u32) - 87
    } else if 'A' <= c && c <= 'Z' {
        (c as u32) - 55
    } else {
        -1
    };
    if 0 <= v < radix { v } else { -1 }
}

/// All of `s` are digits in `radix`.
pub open spec fn all_digits(s: Seq<char>, radix: int) -> bool {
    forall|k: int| 0 <= k < s.len() ==> digit_value(#[trigger] s[k], radix) >= 0
}

/// The number the digits spell.
pub open spec fn digits_value(s: Seq<char>, radix: int) -> int
    decreases s.len(),
{
    if s.len() == 0 {
        0
    } else {
        digits_value(s.drop_last(), radix) * radix + digit_value(s.last(), radix)
    }
}

/// What `i128::from_str_radix(s, radix)` gives, when its value fits in
/// 64 bits either way (whatever lies beyond is refused by every range the
/// reader checks, just as an `i128` overflow is): `None` for an error.
pub open spec fn int_value(s: Seq<char>, radix: int) -> Option<int> {
    if s.len() == 0 || ((s[0] == '+' || s[0] == '-') && s.len() == 1) {
        None
    } else {
        let neg = s[0] == '-';
        let d = if s[0] == '+' || s[0] == '-' { s.drop_first() } else { s };
        if all_digits(d, radix) {
            Some(if neg { -digits_value(d, radix) } else { digits_value(d, radix) })
        } else {
            None
        }
    }
}

/// `u`, `U`, `s` or `S`: `Some(unsigned)`.
pub open spec fn sign_of(c: char) -> Option<bool> {
    if c == 'u' || c == 'U' {
        Some(true)
    } else if c == 's' || c == 'S' {
        Some(false)
    } else {
        None
    }
}

/// The integer kind a type character names, or `None`.
pub open spec fn variant_of(c: char) -> Option<NumKind> {
    if c == 'b' || c == 'B' {
        Some(NumKind::Byte)
    } else if c == 's' || c == 'S' {
        Some(NumKind::Short)
    } else if c == 'l' || c == 'L' {
        Some(NumKind::Long)
    } else if c == 'i' || c == 'I' {
        Some(NumKind::Int)
    } else {
        None
    }
}

/// The sign, kind and suffix length the last two characters of an integer
/// token give, or `None` for an error.
pub open spec fn suffix_of(s0: char, s1: char, hex: bool) -> Option<(bool, NumKind, int)> {
    if hex && (s1 == 'b' || s1 == 'B') && sign_of(s0) is None {
        None
    } else {
        let unsigned = match sign_of(s0) {
            Some(u) => u,
            None => false,
        };
        let count1: int = if sign_of(s0) is Some { 2 } else { 1 };
        let single = sign_of(s0) is None && sign_of(s1) is Some;
        let count = if variant_of(s1) is Some { count1 } else { count1 - 1 };
        let kind = match variant_of(s1) {
            Some(k) => k,
            None => NumKind::Int,
        };
        if single && count == 0 {
            None
        } else {
            Some((unsigned, kind, count))
        }
    }
}

/// `v` lies in the range of the kind, signed or unsigned.
pub open spec fn in_range(v: int, unsigned: bool, kind: NumKind) -> bool {
    let bits: int = match kind {
        NumKind::Byte => 8,
        NumKind::Short => 16,
        NumKind::Long => 64,
        _ => 32,
    };
    let top: int = vstd::arithmetic::power2::pow2(bits as nat) as int;
    if unsigned {
        0 <= v < top
    } else {
        -(top / 2) <= v < top / 2
    }
}

/// `s` with every `_` removed.
pub open spec fn without_blanks(s: Seq<char>) -> Seq<char> {
    s.filter(|c: char| c != '_')
}

/// What the reader makes of an integer token (blanks removed).
pub open spec fn int_kind(w: Seq<char>) -> NumKind {
    let hex = w.len() >= 2 && w[0] == '0' && w[1] == 'x';
    let binary = !hex && w.len() > 3 && w[0] == '0' && w[1] == 'b' && is_digit(w[2]);
    let suffix = if w.len() < 2 {
        Some((false, NumKind::Int, 0int))
    } else {
        suffix_of(w[w.len() - 2], w[w.len() - 1], hex)
    };
    match suffix {
        None => NumKind::Fails,
        Some((unsigned, kind, count)) => {
            let body = w.subrange(0, w.len() - count);
            let value = if hex {
                int_value(body.skip(2), 16)
            } else if binary {
                int_value(body.skip(2), 2)
            } else {
                int_value(body, 10)
            };
            match value {
                Some(v) => if in_range(v, unsigned, kind) {
                    kind
                } else {
                    NumKind::Fails
                },
                None => NumKind::Fails,
            }
        },
    }
}

/// What the reader makes of a float token (blanks removed).
pub open spec fn float_kind(w: Seq<char>) -> NumKind {
    if w.len() <= 1 {
        NumKind::Panics
    } else if w.last() == 'f' || w.last() == 'F' {
        if float_ok(w.drop_last()) {
            NumKind::Float
        } else {
            NumKind::Fails
        }
    } else if w.last() == 'd' || w.last() == 'D' {
        if float_ok(w.drop_last()) {
            NumKind::Double
        } else {
            NumKind::Fails
        }
    } else if float_ok(w) {
        NumKind::Double
    } else {
        NumKind::Fails
    }
}

/// What the number reader makes of a token.
pub open spec fn num_kind(val: Seq<char>) -> NumKind {
    if val.len() == 0 {
        NumKind::Missing
    } else {
        let v = trim(val);
        if starts_bool(v) {
            NumKind::Byte
        } else if v.len() == 0 {
            NumKind::Panics
        } else if !is_num_start(v[0]) {
            NumKind::Missing
        } else if v.last() == '_' {
            NumKind::Fails
        } else if exists|k: int| 0 <= k < v.len() && (v[k] == '.' || v[k] == 'e' || v[k] == 'E') {
            float_kind(without_blanks(v))
        } else {
            int_kind(without_blanks(v))
        }
    }
}

/// The kind is one of the four integer kinds.
pub open spec fn is_int_kind(k: NumKind) -> bool {
    k is Byte || k is Short || k is Int || k is Long
}

/// `bool(..)` and `uuid(..)` of the token, if it is one: whether its
/// argument is read.
pub open spec fn operation_scan(val: Seq<char>) -> Option<Verdict> {
    let is_bool = val.len() > 4 && val[0] == 'b' && val[1] == 'o' && val[2] == 'o' && val[3] == 'l';
    let is_uuid = val.len() > 4 && val[0] == 'u' && val[1] == 'u' && val[2] == 'i' && val[3] == 'd';
    if !is_bool && !is_uuid {
        None
    } else if val.len() < 6 {
        Some(Verdict::Panics)
    } else {
        let arg = val.subrange(5, val.len() - 1);
        if is_bool {
            let k = num_kind(arg);
            Some(
                if k is Panics {
                    Verdict::Panics
                } else if k is Fails {
                    Verdict::Fails
                } else if is_int_kind(k) {
                    Verdict::Passes
                } else {
                    Verdict::Panics
                },
            )
        } else {
            Some(
                match string_scan(arg) {
                    StrScan::Panics => Verdict::Panics,
                    StrScan::Fails => Verdict::Fails,
                    StrScan::Text(s) => if uuid_text_ok(s) {
                        Verdict::Passes
                    } else {
                        Verdict::Fails
                    },
                },
            )
        }
    }
}

/// The places of the four hyphens of a hyphenated UUID.
pub open spec fn is_hyphen_place(k: int) -> bool {
    k == 8 || k == 13 || k == 18 || k == 23
}

/// 36 characters: hex digits, with a hyphen at each of the four places.
pub open spec fn is_hyphenated_uuid(s: Seq<char>) -> bool {
    s.len() == 36 && forall|k: int|
        #![trigger s[k]]
        0 <= k < 36 ==> (if is_hyphen_place(k) {
            s[k] == '-'
        } else {
            is_hex_digit(s[k])
        })
}

/// What `uuid::Uuid::from_str` accepts: 32 hex digits; a hyphenated UUID,
/// bare, in braces, or after `urn:uuid:` in any case. (Each of these is
/// ASCII, so counting characters is counting bytes.)
pub open spec fn uuid_text_ok(s: Seq<char>) -> bool {
    ||| s.len() == 32 && forall|k: int| 0 <= k < 32 ==> is_hex_digit(#[trigger] s[k])
    ||| is_hyphenated_uuid(s)
    ||| s.len() == 38 && s[0] == '{' && s[37] == '}' && is_hyphenated_uuid(s.subrange(1, 37))
    ||| s.len() == 45 && eq_ignore_case(s.take(9), seq!['u', 'r', 'n', ':', 'u', 'u', 'i', 'd', ':'])
        && is_hyphenated_uuid(s.skip(9))
}

/// What the parser makes of a primitive token.
pub open spec fn primitive_scan(val: Seq<char>) -> Verdict {
    match operation_scan(val) {
        Some(v) => v,
        None => if starts_bool(val) {
            Verdict::Passes
        } else if val.len() == 0 {
            Verdict::Panics
        } else if is_num_start(val[0]) {
            let k = num_kind(val);
            if k is Panics || k is Missing {
                Verdict::Panics
            } else if k is Fails {
                Verdict::Fails
            } else {
                Verdict::Passes
            }
        } else {
            match string_scan(val) {
                StrScan::Panics => Verdict::Panics,
                StrScan::Fails => Verdict::Fails,
                StrScan::Text(_) => Verdict::Passes,
            }
        }
    }
}

/// Reading an array item from `i` on to `,` or `]`, with backslash escapes:
/// where it stops and what it read, or `None` for an error.
pub open spec fn item_until(t: Seq<char>, i: int, escaped: bool) -> Option<(int, Seq<char>)>
    decreases t.len() - i,
{
    if i < 0 || i >= t.len() {
        Some((i, Seq::empty()))
    } else {
        let c = t[i];
        let stop = c == ',' || c == ']';
        if escaped {
            if stop || c == '\\' {
                match item_until(t, i + 1, false) {
                    Some((e, s)) => Some((e, seq![c] + s)),
                    None => None,
                }
            } else {
                None
            }
        } else if c == '\\' {
            item_until(t, i + 1, true)
        } else if stop {
            Some((i, Seq::empty()))
        } else {
            match item_until(t, i + 1, false) {
                Some((e, s)) => Some((e, seq![c] + s)),
                None => None,
            }
        }
    }
}

/// A typed array of kind `a` (`B`, `I` or `L`) takes a number of kind `k`.
pub open spec fn array_takes(a: char, k: NumKind) -> bool {
    if a == 'B' {
        k is Byte
    } else if a == 'I' {
        k is Byte || k is Short || k is Int
    } else {
        is_int_kind(k)
    }
}

/// The items of a typed array from `p` on.
pub open spec fn typed_items(t: Seq<char>, p: int, a: char) -> Scan
    decreases t.len() - p,
{
    if p < 0 || p > t.len() {
        Scan::Fails
    } else if p == t.len() || t[p] == ']' {
        if p < t.len() {
            Scan::Reads(p + 1, 0)
        } else {
            Scan::Fails
        }
    } else {
        let p1 = skip_ws(t, p);
        match item_until(t, p1, false) {
            None => Scan::Fails,
            Some((end, item)) => {
                let k = num_kind(item);
                if k is Panics || k is Missing {
                    Scan::Panics
                } else if k is Fails || !array_takes(a, k) {
                    Scan::Fails
                } else if peek(t, end) == ',' && end >= t.len() {
                    Scan::Fails
                } else {
                    let p4 = if peek(t, end) == ',' { end + 1 } else { end };
                    if p < p4 <= t.len() {
                        typed_items(t, p4, a)
                    } else {
                        Scan::Fails
                    }
                }
            },
        }
    }
}

/// Where an unquoted key that starts at `p` ends.
pub open spec fn unquoted_end(t: Seq<char>, p: int) -> int
    decreases t.len() - p,
{
    if 0 <= p < t.len() && is_unquoted(t[p]) {
        unquoted_end(t, p + 1)
    } else {
        p
    }
}

/// The rest of a quoted key from `i` on, up to and past its closing quote.
pub open spec fn quoted_key_from(t: Seq<char>, i: int) -> Scan
    decreases t.len() - i,
{
    if i < 0 || i > t.len() {
        Scan::Fails
    } else if i < t.len() && !is_quote(t[i]) {
        match escape_at(t, i) {
            Escape::Panics => Scan::Panics,
            Escape::Fails => Scan::Fails,
            Escape::Valid(j) => if i < j <= t.len() {
                quoted_key_from(t, j)
            } else {
                Scan::Fails
            },
            Escape::Invalid(j) => if j < 0 || j >= t.len() {
                Scan::Panics
            } else if i < j + 1 {
                quoted_key_from(t, j + 1)
            } else {
                Scan::Fails
            },
        }
    } else if i >= t.len() {
        Scan::Panics
    } else {
        Scan::Reads(i + 1, 0)
    }
}

/// A compound key at `p`.
pub open spec fn key_scan(t: Seq<char>, p: int) -> Scan {
    if t.len() > 0 && is_quote(peek(t, p)) {
        if p >= t.len() {
            Scan::Panics
        } else {
            quoted_key_from(t, p + 1)
        }
    } else {
        Scan::Reads(unquoted_end(t, p), 0)
    }
}

/// The value that starts at `p`, after `d` values were started.
pub open spec fn value_scan(t: Seq<char>, p: int, d: int) -> Scan
    decreases 512 - d, 0int,
{
    if d + 1 >= 512 || d < 0 || p < 0 || p > t.len() {
        Scan::Fails
    } else {
        let d1 = d + 1;
        let q = skip_ws(t, p);
        if q >= t.len() {
            Scan::Panics
        } else if t[q] == '[' {
            list_scan(t, q, d1)
        } else if t[q] == '{' {
            compound_items(t, q + 1, d1)
        } else {
            match delimited_end(t, q, 0) {
                None => Scan::Panics,
                Some(e) => match primitive_scan(t.subrange(q, e)) {
                    Verdict::Panics => Scan::Panics,
                    Verdict::Fails => Scan::Fails,
                    Verdict::Passes => Scan::Reads(e, d1),
                },
            }
        }
    }
}

/// A list or typed array whose `[` is at `q`.
pub open spec fn list_scan(t: Seq<char>, q: int, d: int) -> Scan
    decreases 512 - d, 2int,
{
    if d >= 512 || d < 0 || q < 0 || q >= t.len() {
        Scan::Fails
    } else {
        let p = skip_ws(t, q + 1);
        if p >= t.len() {
            Scan::Panics
        } else if t[p] == 'B' || t[p] == 'I' || t[p] == 'L' {
            let p2 = skip_ws(t, p + 1);
            if p2 >= t.len() {
                Scan::Panics
            } else if t[p2] == ';' {
                match typed_items(t, p2 + 1, t[p]) {
                    Scan::Reads(e, _) => Scan::Reads(e, d),
                    other => other,
                }
            } else {
                list_items(t, p, d)
            }
        } else {
            list_items(t, p, d)
        }
    }
}

/// The items of a list from `p` on.
pub open spec fn list_items(t: Seq<char>, p: int, d: int) -> Scan
    decreases 512 - d, 1int,
{
    if d >= 512 || d < 0 || p < 0 || p > t.len() {
        Scan::Fails
    } else if p == t.len() || t[p] == ']' {
        if p < t.len() {
            Scan::Reads(p + 1, d)
        } else {
            Scan::Fails
        }
    } else {
        match value_scan(t, skip_ws(t, p), d) {
            Scan::Reads(p2, d2) => {
                let p3 = skip_ws(t, p2);
                if peek(t, p3) == ',' && p3 >= t.len() {
                    Scan::Fails
                } else {
                    let p4 = if peek(t, p3) == ',' { p3 + 1 } else { p3 };
                    if d < d2 < 512 {
                        list_items(t, p4, d2)
                    } else {
                        Scan::Fails
                    }
                }
            },
            other => other,
        }
    }
}

/// The entries of a compound from `p` on.
pub open spec fn compound_items(t: Seq<char>, p: int, d: int) -> Scan
    decreases 512 - d, 1int,
{
    if d >= 512 || d < 0 || p < 0 || p > t.len() {
        Scan::Fails
    } else if p == t.len() || t[p] == '}' {
        if p < t.len() {
            Scan::Reads(p + 1, d)
        } else {
            Scan::Fails
        }
    } else {
        let p1 = skip_ws(t, p);
        if peek(t, p1) == '}' {
            if p1 < t.len() {
                Scan::Reads(p1 + 1, d)
            } else {
                Scan::Fails
            }
        } else {
            match key_scan(t, p1) {
                Scan::Reads(k, _) => {
                    let p2 = skip_ws(t, k);
                    if !(0 <= p2 < t.len() && t[p2] == ':') {
                        Scan::Fails
                    } else {
                        match value_scan(t, p2 + 1, d) {
                            Scan::Reads(p3, d2) => {
                                let p4 = skip_ws(t, p3);
                                if peek(t, p4) == ',' && p4 >= t.len() {
                                    Scan::Fails
                                } else {
                                    let p5 = if peek(t, p4) == ',' { p4 + 1 } else { p4 };
                                    if d < d2 < 512 {
                                        compound_items(t, p5, d2)
                                    } else {
                                        Scan::Fails
                                    }
                                }
                            },
                            other => other,
                        }
                    }
                },
                other => other,
            }
        }
    }
}

/// Skipping whitespace moves forward and stays within the text.
proof fn lemma_skip_ws_bounds(t: Seq<char>, p: int)
    ensures
        p <= skip_ws(t, p),
        0 <= p <= t.len() ==> skip_ws(t, p) <= t.len(),
    decreases t.len() - p,
{
    if 0 <= p < t.len() && is_ws(t[p]) {
        lemma_skip_ws_bounds(t, p + 1);
    }
}

/// A primitive value ends within the text.
proof fn lemma_delimited_end_bounds(t: Seq<char>, i: int, qc: int)
    ensures
        0 <= i <= t.len() ==> (delimited_end(t, i, qc) matches Some(e) ==> i <= e <= t.len()),
    decreases t.len() - i,
{
    if 0 <= i < t.len() {
        let c = t[i];
        let escaped = i >= 1 && t[i - 1] == '\\';
        let qc2 = if is_quote(c) && !escaped { qc + 1 } else { qc };
        lemma_delimited_end_bounds(t, i + 1, qc2);
    }
}

/// A typed array ends within the text.
proof fn lemma_typed_items_bounds(t: Seq<char>, p: int, a: char)
    ensures
        typed_items(t, p, a) matches Scan::Reads(e, _) ==> 0 <= e <= t.len(),
    decreases t.len() - p,
{
    if 0 <= p < t.len() && t[p] != ']' {
        let p1 = skip_ws(t, p);
        if let Some((end, item)) = item_until(t, p1, false) {
            let p4 = if peek(t, end) == ',' { end + 1 } else { end };
            if p < p4 <= t.len() {
                lemma_typed_items_bounds(t, p4, a);
            }
        }
    }
}

/// A value that is read ends within the text, and counts itself and what
/// it holds among the values started.
proof fn lemma_value_scan_bounds(t: Seq<char>, p: int, d: int)
    ensures
        value_scan(t, p, d) matches Scan::Reads(e, d2) ==> 0 <= e <= t.len() && d < d2 < 512,
    decreases 512 - d, 0int,
{
    if !(d + 1 >= 512 || d < 0 || p < 0 || p > t.len()) {
        let q = skip_ws(t, p);
        lemma_skip_ws_bounds(t, p);
        if q < t.len() {
            if t[q] == '[' {
                lemma_list_scan_bounds(t, q, d + 1);
            } else if t[q] == '{' {
                lemma_compound_items_bounds(t, q + 1, d + 1);
            } else {
                lemma_delimited_end_bounds(t, q, 0);
            }
        }
    }
}

/// A list that is read ends within the text.
proof fn lemma_list_scan_bounds(t: Seq<char>, q: int, d: int)
    ensures
        list_scan(t, q, d) matches Scan::Reads(e, d2) ==> 0 <= e <= t.len() && d <= d2 < 512,
    decreases 512 - d, 2int,
{
    if !(d >= 512 || d < 0 || q < 0 || q >= t.len()) {
        let p = skip_ws(t, q + 1);
        lemma_skip_ws_bounds(t, q + 1);
        if p < t.len() {
            lemma_list_items_bounds(t, p, d);
            if t[p] == 'B' || t[p] == 'I' || t[p] == 'L' {
                let p2 = skip_ws(t, p + 1);
                lemma_typed_items_bounds(t, p2 + 1, t[p]);
            }
        }
    }
}

/// The rest of a list that is read ends within the text.
proof fn lemma_list_items_bounds(t: Seq<char>, p: int, d: int)
    ensures
        list_items(t, p, d) matches Scan::Reads(e, d2) ==> 0 <= e <= t.len() && d <= d2 < 512,
    decreases 512 - d, 1int,
{
    if !(d >= 512 || d < 0 || p < 0 || p > t.len()) && !(p == t.len() || t[p] == ']') {
        lemma_value_scan_bounds(t, skip_ws(t, p), d);
        if let Scan::Reads(p2, d2) = value_scan(t, skip_ws(t, p), d) {
            let p3 = skip_ws(t, p2);
            let p4 = if peek(t, p3) == ',' { p3 + 1 } else { p3 };
            if d < d2 < 512 {
                lemma_list_items_bounds(t, p4, d2);
            }
        }
    }
}

/// The rest of a compound that is read ends within the text.
proof fn lemma_compound_items_bounds(t: Seq<char>, p: int, d: int)
    ensures
        compound_items(t, p, d) matches Scan::Reads(e, d2) ==> 0 <= e <= t.len() && d <= d2 < 512,
    decreases 512 - d, 1int,
{
    if !(d >= 512 || d < 0 || p < 0 || p > t.len()) && !(p == t.len() || t[p] == '}') {
        let p1 = skip_ws(t, p);
        lemma_skip_ws_bounds(t, p);
        if let Scan::Reads(k, _) = key_scan(t, p1) {
            let p2 = skip_ws(t, k);
            if 0 <= p2 < t.len() && t[p2] == ':' {
                lemma_value_scan_bounds(t, p2 + 1, d);
                if let Scan::Reads(p3, d2) = value_scan(t, p2 + 1, d) {
                    let p4 = skip_ws(t, p3);
                    let p5 = if peek(t, p4) == ',' { p4 + 1 } else { p4 };
                    if d < d2 < 512 {
                        lemma_compound_items_bounds(t, p5, d2);
                    }
                }
            }
        }
    }
}

/// In a list, an item that is read, whatever value it is (a number, a
/// string, a list or a compound), and that is followed by `]` closes the
/// list: the list is read up to that bracket.
pub proof fn law_a_read_item_then_bracket_closes_the_list(t: Seq<char>, p: int, d: int)
    requires
        0 <= d < 512,
        0 <= p < t.len(),
        t[p] != ']',
        value_scan(t, skip_ws(t, p), d) matches Scan::Reads(e, _) && 0 <= skip_ws(t, e) < t.len()
            && t[skip_ws(t, e)] == ']',
    ensures
        list_items(t, p, d) == Scan::Reads(
            skip_ws(t, value_scan(t, skip_ws(t, p), d)->Reads_0) + 1,
            value_scan(t, skip_ws(t, p), d)->Reads_1,
        ),
{
    lemma_value_scan_bounds(t, skip_ws(t, p), d);
    let e = value_scan(t, skip_ws(t, p), d)->Reads_0;
    let d2 = value_scan(t, skip_ws(t, p), d)->Reads_1;
    lemma_skip_ws_bounds(t, e);
    let p3 = skip_ws(t, e);
    assert(list_items(t, p3, d2) == Scan::Reads(p3 + 1, d2));
}

/// In a list, an item that is read, whatever value it is, and that is
/// followed by a comma hands the list on to what follows the comma, with
/// the values it started counted.
pub proof fn law_a_read_item_then_comma_goes_on(t: Seq<char>, p: int, d: int)
    requires
        0 <= d < 512,
        0 <= p < t.len(),
        t[p] != ']',
        value_scan(t, skip_ws(t, p), d) matches Scan::Reads(e, _) && 0 <= skip_ws(t, e) < t.len()
            && t[skip_ws(t, e)] == ',',
    ensures
        list_items(t, p, d) == list_items(
            t,
            skip_ws(t, value_scan(t, skip_ws(t, p), d)->Reads_0) + 1,
            value_scan(t, skip_ws(t, p), d)->Reads_1,
        ),
{
    lemma_value_scan_bounds(t, skip_ws(t, p), d);
    let e = value_scan(t, skip_ws(t, p), d)->Reads_0;
    lemma_skip_ws_bounds(t, e);
}

/// An unquoted key ends within the text, after its start.
proof fn lemma_unquoted_end_bounds(t: Seq<char>, p: int)
    ensures
        0 <= p <= t.len() ==> p <= unquoted_end(t, p) <= t.len(),
    decreases t.len() - p,
{
    if 0 <= p < t.len() && is_unquoted(t[p]) {
        lemma_unquoted_end_bounds(t, p + 1);
    }
}

/// A quoted key ends within the text.
proof fn lemma_quoted_key_bounds(t: Seq<char>, i: int)
    ensures
        quoted_key_from(t, i) matches Scan::Reads(e, _) ==> 0 <= e <= t.len(),
    decreases t.len() - i,
{
    if 0 <= i < t.len() && !is_quote(t[i]) {
        match escape_at(t, i) {
            Escape::Valid(j) => if i < j <= t.len() {
                lemma_quoted_key_bounds(t, j);
            },
            Escape::Invalid(j) => if 0 <= j < t.len() && i < j + 1 {
                lemma_quoted_key_bounds(t, j + 1);
            },
            _ => {},
        }
    }
}

/// A key ends within the text, after its start.
proof fn lemma_key_scan_bounds(t: Seq<char>, p: int)
    requires
        0 <= p <= t.len(),
    ensures
        key_scan(t, p) matches Scan::Reads(k, _) ==> 0 <= k <= t.len(),
{
    lemma_unquoted_end_bounds(t, p);
    lemma_quoted_key_bounds(t, p + 1);
}

/// The value of the compound entry whose key is read at `skip_ws(t, p)`.
pub open spec fn entry_value(t: Seq<char>, p: int, d: int) -> Scan {
    value_scan(t, skip_ws(t, key_scan(t, skip_ws(t, p))->Reads_0) + 1, d)
}

/// An entry of a compound: a key that is read, then `:`, then a value.
pub open spec fn entry_is_read(t: Seq<char>, p: int, d: int) -> bool {
    &&& peek(t, skip_ws(t, p)) != '}'
    &&& key_scan(t, skip_ws(t, p)) is Reads
    &&& 0 <= skip_ws(t, key_scan(t, skip_ws(t, p))->Reads_0) < t.len()
    &&& t[skip_ws(t, key_scan(t, skip_ws(t, p))->Reads_0)] == ':'
    &&& entry_value(t, p, d) is Reads
}

/// In a compound, an entry whose key and value are read, whatever value it
/// is, and that is followed by `}` closes the compound.
pub proof fn law_a_read_entry_then_brace_closes_the_compound(t: Seq<char>, p: int, d: int)
    requires
        0 <= d < 512,
        0 <= p < t.len(),
        t[p] != '}',
        entry_is_read(t, p, d),
        0 <= skip_ws(t, entry_value(t, p, d)->Reads_0) < t.len(),
        t[skip_ws(t, entry_value(t, p, d)->Reads_0)] == '}',
    ensures
        compound_items(t, p, d) == Scan::Reads(
            skip_ws(t, entry_value(t, p, d)->Reads_0) + 1,
            entry_value(t, p, d)->Reads_1,
        ),
{
    lemma_skip_ws_bounds(t, p);
    lemma_key_scan_bounds(t, skip_ws(t, p));
    let k = key_scan(t, skip_ws(t, p))->Reads_0;
    lemma_skip_ws_bounds(t, k);
    lemma_value_scan_bounds(t, skip_ws(t, k) + 1, d);
    let e = entry_value(t, p, d)->Reads_0;
    let d2 = entry_value(t, p, d)->Reads_1;
    lemma_skip_ws_bounds(t, e);
    let p4 = skip_ws(t, e);
    assert(compound_items(t, p4, d2) == Scan::Reads(p4 + 1, d2));
}

/// In a compound, an entry whose key and value are read, whatever value it
/// is, and that is followed by a comma hands the compound on to what follows
/// the comma.
pub proof fn law_a_read_entry_then_comma_goes_on(t: Seq<char>, p: int, d: int)
    requires
        0 <= d < 512,
        0 <= p < t.len(),
        t[p] != '}',
        entry_is_read(t, p, d),
        0 <= skip_ws(t, entry_value(t, p, d)->Reads_0) < t.len(),
        t[skip_ws(t, entry_value(t, p, d)->Reads_0)] == ',',
    ensures
        compound_items(t, p, d) == compound_items(
            t,
            skip_ws(t, entry_value(t, p, d)->Reads_0) + 1,
            entry_value(t, p, d)->Reads_1,
        ),
{
    lemma_skip_ws_bounds(t, p);
    lemma_key_scan_bounds(t, skip_ws(t, p));
    let k = key_scan(t, skip_ws(t, p))->Reads_0;
    lemma_skip_ws_bounds(t, k);
    lemma_value_scan_bounds(t, skip_ws(t, k) + 1, d);
    let e = entry_value(t, p, d)->Reads_0;
    lemma_skip_ws_bounds(t, e);
}

/// `vanity_nbt::snbt::from_snbt` comes back on the text, with a value or an
/// error, without panicking: the text is ASCII (the parser mixes byte and
/// character positions, which agree only there) and the scan does not stop.
pub open spec fn snbt_returns(t: Seq<char>) -> bool {
    vstd::utf8::is_ascii_chars(t) && !(value_scan(t, 0, 0) is Panics)
}

} // verus!
