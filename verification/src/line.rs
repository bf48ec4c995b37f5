use crate::error::{McLogError, McLogErrorView};
use crate::message::{decode_returns, is_panic_error, spec_from_snbt, LogMessage};
use crate::nbt::{value_from_snbt, Nbt};
use crate::scan::snbt_returns_x;
use crate::snbt::snbt_returns;
use vanity_nbt::VanityError;
use vstd::prelude::*;

verus! {

/// The identifier starts one character after this many characters of a line
/// (the time stamp and thread name that the game writes first).
pub const LOG_PRE_IDENT: usize = 32;

/// The SNBT payload starts this many characters after the identifier ends.
pub const LOG_SUF_IDENT: usize = 32;

/// Calls `String::push`, which appends `c`.
#[verifier::external_body]
pub(crate) fn string_push(s: &mut String, c: char)
    ensures
        final(s)@ == old(s)@.push(c),
{
    s.push(c)
}

/// What `vanity_nbt::snbt::from_snbt` gives on `text`: the value it parses,
/// in this library's model, or the error it refuses the text with.
pub uninterp spec fn spec_parse_snbt(text: Seq<char>) -> Result<Nbt, VanityError>;

/// Calls `vanity_nbt::snbt::from_snbt` on `text`; its result, the value
/// converted, is the one `spec_parse_snbt` names.
/// The parser stops with a `todo!`, `panic!` or `expect` on some malformed
/// text; `snbt_returns` leaves all of those out.
#[verifier::external_body]
fn parse_snbt(text: &str) -> (r: Result<Nbt, VanityError>)
    requires
        snbt_returns(text@),
    ensures
        r == spec_parse_snbt(text@),
{
    vanity_nbt::snbt::from_snbt(text).map(value_from_snbt)
}

/// Characters that are written as a `\u` escape: all non-ASCII ones (the
/// private-use area `U+E000..=U+F8FF` among them).
pub open spec fn needs_escape(c: char) -> bool {
    !(c <= '\u{7f}') || ('\u{E000}' <= c && c <= '\u{F8FF}')
}

/// The sixteen upper-case hexadecimal digits.
pub open spec fn hex_digits() -> Seq<char> {
    seq!['0', '1', '2', '3', '4', '5', '6', '7', '8', '9', 'A', 'B', 'C', 'D', 'E', 'F']
}

/// The upper-case hexadecimal digit of `d` (below 16).
pub open spec fn hex_digit(d: u32) -> char {
    hex_digits()[d as int]
}

/// Hex digit `j` of `v`, counted from the least significant.
pub open spec fn nibble(v: u32, j: nat) -> u32 {
    (v >> ((4 * j) as u32)) & 0xFu32
}

/// How many hex digits `{:04X}` writes for a code point: at least four.
pub open spec fn hex_width(v: u32) -> nat {
    if v >= 0x100000 {
        6
    } else if v >= 0x10000 {
        5
    } else {
        4
    }
}

/// A code point in upper-case hex, padded with zeros to four digits.
pub open spec fn hex_code(v: u32) -> Seq<char> {
    Seq::new(hex_width(v), |i: int| hex_digit(nibble(v, (hex_width(v) - 1 - i) as nat)))
}

/// A character as it stands in an escaped line.
pub open spec fn escape_char(c: char) -> Seq<char> {
    if needs_escape(c) {
        seq!['\\', 'u'] + hex_code(c as u32)
    } else {
        seq![c]
    }
}

/// A line with every non-ASCII character written as `\u` and its code point.
pub open spec fn spec_escape_line(s: Seq<char>) -> Seq<char>
    decreases s.len(),
{
    if s.len() == 0 {
        Seq::empty()
    } else {
        spec_escape_line(s.drop_last()) + escape_char(s.last())
    }
}

/// The upper-case hex digit of `d`.
fn hex_digit_char(d: u32) -> (c: char)
    requires
        d < 16,
    ensures
        c == hex_digit(d),
{
    let table = ['0', '1', '2', '3', '4', '5', '6', '7', '8', '9', 'A', 'B', 'C', 'D', 'E', 'F'];
    proof {
        assert(table@ =~= hex_digits());
    }
    table[d as usize]
}

/// Appends the hex form of code point `v`.
fn push_hex(out: &mut String, v: u32)
    requires
        v <= 0x10FFFF,
    ensures
        final(out)@ == old(out)@ + hex_code(v),
{
    let width: u32 = if v >= 0x100000 {
        6
    } else if v >= 0x10000 {
        5
    } else {
        4
    };
    let ghost start = out@;
    let mut i: u32 = 0;
    while i < width
        invariant
            width == hex_width(v),
            i <= width,
            out@ == start + hex_code(v).take(i as int),
        decreases width - i,
    {
        let shift: u32 = 4 * (width - 1 - i);
        let d = (v >> shift) & 0xFu32;
        assert(d < 16) by (bit_vector)
            requires
                d == (v >> shift) & 0xFu32,
        ;
        proof {
            assert(d == nibble(v, (hex_width(v) - 1 - i) as nat));
        }
        string_push(out, hex_digit_char(d));
        i += 1;
        proof {
            assert(hex_code(v).take(i as int) =~= hex_code(v).take(i - 1).push(hex_code(v)[i - 1]));
        }
    }
    proof {
        assert(hex_code(v).take(width as int) =~= hex_code(v));
    }
}

/// An upper-case hexadecimal digit.
pub open spec fn is_upper_hex(c: char) -> bool {
    ('0' <= c && c <= '9') || ('A' <= c && c <= 'F')
}

/// The value of an upper-case hex digit: `0`..`9` are 0 to 9, `A`..`F` are
/// 10 to 15.
pub open spec fn upper_hex_value(c: char) -> int {
    if '0' <= c && c <= '9' {
        (c as int) - ('0' as int)
    } else {
        (c as int) - ('A' as int) + 10
    }
}

/// Hex digits read as a number, the most significant first.
pub open spec fn hex_number(d: Seq<char>) -> int
    decreases d.len(),
{
    if d.len() == 0 {
        0
    } else {
        hex_number(d.drop_last()) * 16 + upper_hex_value(d.last())
    }
}

/// Each hex digit written for a nibble is an upper-case digit of that value.
proof fn lemma_hex_digit_value(n: u32)
    requires
        n < 16,
    ensures
        is_upper_hex(hex_digit(n)),
        upper_hex_value(hex_digit(n)) == n,
{
    assert(hex_digits()[0] == '0' && hex_digits()[1] == '1' && hex_digits()[2] == '2');
    assert(hex_digits()[3] == '3' && hex_digits()[4] == '4' && hex_digits()[5] == '5');
    assert(hex_digits()[6] == '6' && hex_digits()[7] == '7' && hex_digits()[8] == '8');
    assert(hex_digits()[9] == '9' && hex_digits()[10] == 'A' && hex_digits()[11] == 'B');
    assert(hex_digits()[12] == 'C' && hex_digits()[13] == 'D' && hex_digits()[14] == 'E');
    assert(hex_digits()[15] == 'F');
}

/// One more hex digit: the number shifted by four bits, then the nibble.
proof fn lemma_shift_by_a_nibble(v: u32, s: u32, s1: u32)
    requires
        s < 24,
        s1 == s + 4,
    ensures
        (v >> s1) as int * 16 + ((v >> s) & 0xFu32) as int == (v >> s) as int,
{
    assert((v >> s1) < 0x10000000u32) by (bit_vector)
        requires
            s1 == s + 4,
            s < 24,
    ;
    assert(((v >> s1) * 16u32) + ((v >> s) & 0xFu32) == (v >> s)) by (bit_vector)
        requires
            s1 == s + 4,
            s < 24,
    ;
}

/// The first `i` digits written for `v` read as `v` without its last
/// `width - i` nibbles.
proof fn lemma_hex_code_prefix(v: u32, i: int)
    requires
        v <= 0x10FFFF,
        0 <= i <= hex_width(v),
    ensures
        hex_number(hex_code(v).take(i)) == (v >> ((4 * (hex_width(v) - i)) as u32)) as int,
        forall|k: int| 0 <= k < i ==> is_upper_hex(#[trigger] hex_code(v)[k]),
    decreases i,
{
    let w = hex_width(v);
    if i == 0 {
        assert(hex_code(v).take(0) =~= Seq::<char>::empty());
        if w == 4 {
            assert(v >> 16u32 == 0) by (bit_vector)
                requires
                    v < 0x10000,
            ;
        } else if w == 5 {
            assert(v >> 20u32 == 0) by (bit_vector)
                requires
                    v < 0x100000,
            ;
        } else {
            assert(v >> 24u32 == 0) by (bit_vector)
                requires
                    v <= 0x10FFFF,
            ;
        }
    } else {
        lemma_hex_code_prefix(v, i - 1);
        let j = (w - i) as u32;
        assert(hex_code(v).take(i).drop_last() =~= hex_code(v).take(i - 1));
        let n = nibble(v, j as nat);
        assert(n < 16) by (bit_vector)
            requires
                n == (v >> ((4 * j) as u32)) & 0xFu32,
        ;
        lemma_hex_digit_value(n);
        lemma_shift_by_a_nibble(v, (4 * j) as u32, (4 * (w - (i - 1))) as u32);
        assert(hex_code(v)[i - 1] == hex_digit(n));
    }
}

/// The escape of a character spells its code point: a backslash and `u`,
/// then at least four upper-case hex digits that, read in base 16, give the
/// code point, with no leading zero beyond the fourth digit from the right.
pub proof fn law_escape_spells_the_code_point(c: char)
    requires
        needs_escape(c),
    ensures
        escape_char(c).len() >= 6,
        escape_char(c)[0] == '\\',
        escape_char(c)[1] == 'u',
        forall|k: int| 2 <= k < escape_char(c).len() ==> is_upper_hex(#[trigger] escape_char(c)[k]),
        hex_number(escape_char(c).skip(2)) == c as u32,
        escape_char(c).len() > 6 ==> escape_char(c)[2] != '0',
{
    lemma_char_at_least_nul(c);
    let v = c as u32;
    let w = hex_width(v);
    let e = escape_char(c);
    assert(e.skip(2) =~= hex_code(v));
    lemma_hex_code_prefix(v, w as int);
    assert(hex_code(v).take(w as int) =~= hex_code(v));
    assert(v >> 0u32 == v) by (bit_vector);
    assert forall|k: int| 2 <= k < e.len() implies is_upper_hex(#[trigger] e[k]) by {
        assert(e[k] == hex_code(v)[k - 2]);
    }
    if w > 4 {
        let top = nibble(v, (w - 1) as nat);
        if w == 5 {
            assert(top != 0) by (bit_vector)
                requires
                    top == (v >> 16u32) & 0xFu32,
                    v >= 0x10000,
                    v < 0x100000,
            ;
        } else {
            assert(top != 0) by (bit_vector)
                requires
                    top == (v >> 20u32) & 0xFu32,
                    v >= 0x100000,
                    v <= 0x10FFFF,
            ;
        }
        let sh = (4 * (w - 1)) as u32;
        assert(top < 16) by (bit_vector)
            requires
                top == (v >> sh) & 0xFu32,
        ;
        lemma_hex_digit_value(top);
        assert(e[2] == hex_digit(top));
    }
}

/// Of a line taken for a log, the payload is all of the escaped line from
/// the character `LOG_SUF_IDENT` places after the identifier on; a line that
/// ends before that character is too short, and is given back escaped.
pub proof fn law_the_payload_is_the_rest_of_the_line(line: Seq<char>, ident: Seq<char>)
    requires
        !(spec_line_shape(line, ident) is Skipped),
    ensures
        (spec_line_shape(line, ident) is TooShort) <==> spec_escape_line(line).len()
            < LOG_PRE_IDENT + ident.len() + LOG_SUF_IDENT,
        spec_line_shape(line, ident) matches LineShape::TooShort(x) ==> x == spec_escape_line(line),
        spec_line_shape(line, ident) matches LineShape::Payload(text) ==> (text.len()
            == spec_escape_line(line).len() - (LOG_PRE_IDENT + ident.len() + LOG_SUF_IDENT)
            && forall|k: int|
            0 <= k < text.len() ==> #[trigger] text[k] == spec_escape_line(line)[LOG_PRE_IDENT
                + ident.len() + LOG_SUF_IDENT + k]),
{
}

/// A line is taken for a log exactly when, once escaped, it holds the whole
/// identifier from the character after the game's prefix on (with at least
/// one character after it).
pub proof fn law_a_log_line_holds_the_identifier(line: Seq<char>, ident: Seq<char>)
    ensures
        !(spec_line_shape(line, ident) is Skipped) <==> ({
            let s = spec_escape_line(line);
            &&& s.len() > LOG_PRE_IDENT + ident.len()
            &&& forall|k: int| 0 <= k < ident.len() ==> #[trigger] s[LOG_PRE_IDENT + 1 + k] == ident[k]
        }),
{
    let s = spec_escape_line(line);
    if s.len() > LOG_PRE_IDENT + ident.len() {
        let part = s.subrange(LOG_PRE_IDENT + 1, LOG_PRE_IDENT + 1 + ident.len());
        if forall|k: int| 0 <= k < ident.len() ==> #[trigger] s[LOG_PRE_IDENT + 1 + k] == ident[k] {
            assert forall|k: int| 0 <= k < ident.len() implies part[k] == ident[k] by {
                assert(s[LOG_PRE_IDENT + 1 + k] == ident[k]);
            }
            assert(part =~= ident);
        } else if part == ident {
            assert forall|k: int| 0 <= k < ident.len() implies #[trigger] s[LOG_PRE_IDENT + 1 + k] == ident[k] by {
                assert(part[k] == ident[k]);
            }
        }
    }
}

/// The line with every non-ASCII character (and so every private-use one)
/// written as `\u` followed by its code point in upper-case hex, at least
/// four digits.
pub fn escape_line(line: &str) -> (s: String)
    ensures
        s@ == spec_escape_line(line@),
{
    let mut out = String::new();
    proof {
        broadcast use vstd::string::group_string_axioms;
    }
    for c in it: line.chars()
        invariant
            it.seq() == line@,
            out@ == spec_escape_line(line@.take(it.index() as int)),
    {
        let ghost i = it.index();
        proof {
            lemma_char_at_least_nul(c);
        }
        let v = c as u32;
        if !(c <= '\u{7f}') || ('\u{E000}' <= c && c <= '\u{F8FF}') {
            string_push(&mut out, '\\');
            string_push(&mut out, 'u');
            push_hex(&mut out, v);
        } else {
            string_push(&mut out, c);
        }
        proof {
            assert(line@.take(i + 1).drop_last() =~= line@.take(i as int));
        }
    }
    proof {
        assert(line@.take(line@.len() as int) =~= line@);
    }
    out
}

/// A hex digit is below 16.
proof fn lemma_nibble_below_16(v: u32, shift: u32)
    ensures
        (v >> shift) & 0xFu32 < 16,
{
    assert((v >> shift) & 0xFu32 < 16) by (bit_vector);
}

/// No character is below NUL, and none is past the last code point.
pub(crate) proof fn lemma_char_at_least_nul(c: char)
    ensures
        '\0' <= c,
        (c as u32) <= 0x10FFFF,
{
}

/// Every character of an escaped line is ASCII.
pub proof fn law_escape_line_is_ascii(s: Seq<char>)
    ensures
        vstd::utf8::is_ascii_chars(spec_escape_line(s)),
    decreases s.len(),
{
    if s.len() > 0 {
        law_escape_line_is_ascii(s.drop_last());
        let c = s.last();
        let e = escape_char(c);
        if needs_escape(c) {
            let v = c as u32;
            assert forall|k: int| 0 <= k < hex_code(v).len() implies '\0' <= #[trigger] hex_code(v)[k]
                <= '\u{7f}' by {
                let j = (hex_width(v) - 1 - k) as nat;
                lemma_nibble_below_16(v, (4 * j) as u32);
                let d = nibble(v, j);
                assert(hex_digits()[d as int] <= '\u{7f}');
            }
        }
        if needs_escape(c) {
            let h = hex_code(c as u32);
            assert forall|k: int| 0 <= k < e.len() implies '\0' <= #[trigger] e[k] <= '\u{7f}' by {
                if k >= 2 {
                    assert(e[k] == h[k - 2]);
                }
            }
        } else {
            assert(e[0] == c);
            lemma_char_at_least_nul(c);
        }
        assert(vstd::utf8::is_ascii_chars(e));
        assert(vstd::utf8::is_ascii_chars(spec_escape_line(s.drop_last()) + e));
    }
}

/// Escaping works character by character: the escape of two pieces put
/// together is the two escapes put together.
pub proof fn law_escape_line_concat(a: Seq<char>, b: Seq<char>)
    ensures
        spec_escape_line(a + b) == spec_escape_line(a) + spec_escape_line(b),
    decreases b.len(),
{
    if b.len() == 0 {
        assert(a + b =~= a);
    } else {
        law_escape_line_concat(a, b.drop_last());
        assert((a + b).drop_last() =~= a + b.drop_last());
        assert((a + b).last() == b.last());
        assert(spec_escape_line(a + b) == spec_escape_line(a + b.drop_last()) + escape_char(b.last()));
        assert(spec_escape_line(a) + spec_escape_line(b) =~= spec_escape_line(a) + spec_escape_line(
            b.drop_last(),
        ) + escape_char(b.last()));
    }
}

/// A line of ASCII characters is left as it is.
pub proof fn law_escape_line_keeps_ascii(s: Seq<char>)
    requires
        vstd::utf8::is_ascii_chars(s),
    ensures
        spec_escape_line(s) == s,
    decreases s.len(),
{
    if s.len() > 0 {
        assert(vstd::utf8::is_ascii_chars(s.drop_last()));
        law_escape_line_keeps_ascii(s.drop_last());
        assert(s.last() == s[s.len() - 1]);
        assert(!needs_escape(s.last()));
        assert(s.drop_last().push(s.last()) =~= s);
    }
}

/// Where the identifier stands in an escaped line: it is found when the line
/// is longer than `LOG_PRE_IDENT` plus its length and the characters from
/// `LOG_PRE_IDENT + 1` on spell it.
pub open spec fn ident_found(s: Seq<char>, ident: Seq<char>) -> bool {
    &&& s.len() > LOG_PRE_IDENT + ident.len()
    &&& s.subrange(LOG_PRE_IDENT + 1, LOG_PRE_IDENT + 1 + ident.len()) == ident
}

/// Where the SNBT payload of a line with identifier `ident` starts.
pub open spec fn snbt_start(ident: Seq<char>) -> int {
    LOG_PRE_IDENT + ident.len() + LOG_SUF_IDENT
}

/// What a line is, before its payload is parsed.
pub enum LineShape {
    /// Not a datapack log: the identifier is not where it belongs.
    Skipped,
    /// The identifier is there, but the line (escaped) ends before the payload.
    TooShort(Seq<char>),
    /// The payload text.
    Payload(Seq<char>),
}

/// The shape of a raw line, after escaping.
pub open spec fn spec_line_shape(line: Seq<char>, ident: Seq<char>) -> LineShape {
    let s = spec_escape_line(line);
    if !ident_found(s, ident) {
        LineShape::Skipped
    } else if s.len() < snbt_start(ident) {
        LineShape::TooShort(s)
    } else {
        LineShape::Payload(s.subrange(snbt_start(ident), s.len() as int))
    }
}

/// A line and its escaped form have the same shape, so `parse_log_line`
/// reads them alike: an escaped line is ASCII, and escaping leaves ASCII
/// as it is.
pub proof fn law_line_shape_of_escaped_line(line: Seq<char>, ident: Seq<char>)
    ensures
        spec_line_shape(spec_escape_line(line), ident) == spec_line_shape(line, ident),
{
    law_escape_line_is_ascii(line);
    law_escape_line_keeps_ascii(spec_escape_line(line));
}

/// A decoded line, seen through the views of its log and its error.
pub open spec fn line_result_view(r: Result<Option<LogMessage>, McLogError>) -> Result<Option<crate::message::LogMessageView>, McLogErrorView> {
    match r {
        Ok(Some(m)) => Ok(Some(m@)),
        Ok(None) => Ok(None),
        Err(e) => Err(e@),
    }
}

/// A decoded payload, as the result of a found line.
pub open spec fn found(r: Result<crate::message::LogMessageView, McLogErrorView>) -> Result<Option<crate::message::LogMessageView>, McLogErrorView> {
    match r {
        Ok(m) => Ok(Some(m)),
        Err(e) => Err(e),
    }
}

/// A line taken apart: what `LineShape` says, with the escaped line and its
/// payload as strings.
pub enum LineParts {
    Skipped,
    TooShort(String),
    Payload(String),
}

impl View for LineParts {
    type V = LineShape;

    open spec fn view(&self) -> LineShape {
        match self {
            LineParts::Skipped => LineShape::Skipped,
            LineParts::TooShort(s) => LineShape::TooShort(s@),
            LineParts::Payload(t) => LineShape::Payload(t@),
        }
    }
}

/// Escapes a line and finds its identifier and payload.
pub fn line_parts(line: &str, identifier: &str) -> (r: LineParts)
    ensures
        r@ == spec_line_shape(line@, identifier@),
{
    let s_line = escape_line(line);
    let ghost s = s_line@;
    proof {
        law_escape_line_is_ascii(line@);
    }
    let len = s_line.as_str().unicode_len();
    let id_len = identifier.len();
    if len <= LOG_PRE_IDENT || len - LOG_PRE_IDENT <= id_len {
        proof {
            if vstd::string::is_ascii(identifier) {
                vstd::string::is_ascii_spec_bytes(identifier);
            } else {
                assert(!ident_found(s, identifier@)) by {
                    if ident_found(s, identifier@) {
                        assert forall|k: int| 0 <= k < identifier@.len() implies '\0' <= #[trigger] identifier@[k]
                            <= '\u{7f}' by {
                            assert(identifier@[k] == s[LOG_PRE_IDENT + 1 + k]);
                        }
                    }
                }
            }
        }
        return LineParts::Skipped;
    }
    let ident_end = LOG_PRE_IDENT + id_len;
    let part = s_line.as_str().substring_ascii(LOG_PRE_IDENT + 1, ident_end + 1);
    let same = String::from_str(part) == String::from_str(identifier);
    proof {
        if vstd::string::is_ascii(identifier) {
            vstd::string::is_ascii_spec_bytes(identifier);
        } else {
            if same {
                assert forall|k: int| 0 <= k < identifier@.len() implies '\0' <= #[trigger] identifier@[k]
                    <= '\u{7f}' by {
                    assert(identifier@[k] == part@[k]);
                }
            }
            assert(!ident_found(s, identifier@)) by {
                if ident_found(s, identifier@) {
                    assert forall|k: int| 0 <= k < identifier@.len() implies '\0' <= #[trigger] identifier@[k]
                        <= '\u{7f}' by {
                        assert(identifier@[k] == s[LOG_PRE_IDENT + 1 + k]);
                    }
                }
            }
        }
    }
    if !same {
        return LineParts::Skipped;
    }
    if len - ident_end < LOG_SUF_IDENT {
        return LineParts::TooShort(s_line);
    }
    let start = ident_end + LOG_SUF_IDENT;
    let text = s_line.as_str().substring_ascii(start, len);
    LineParts::Payload(String::from_str(text))
}

/// What decoding a line gives: `Ok(None)` for a line that is not a log,
/// `NotEnoughForSnbtStart` with the escaped line for one that ends before
/// its payload, `InvalidSnbt` with the parser's own error for a payload that
/// is not SNBT, and otherwise what decoding the parsed value gives.
pub open spec fn spec_parse_log_line(line: Seq<char>, ident: Seq<char>) -> Result<Option<crate::message::LogMessageView>, McLogErrorView> {
    match spec_line_shape(line, ident) {
        LineShape::Skipped => Ok(None),
        LineShape::TooShort(s) => Err(McLogErrorView::NotEnoughForSnbtStart(s)),
        LineShape::Payload(text) => match spec_parse_snbt(text) {
            Err(e) => Err(McLogErrorView::InvalidSnbt(e)),
            Ok(v) => found(spec_from_snbt(v)),
        },
    }
}

/// A line and its escaped form decode alike.
pub proof fn law_escaped_line_decodes_alike(line: Seq<char>, ident: Seq<char>)
    ensures
        spec_parse_log_line(spec_escape_line(line), ident) == spec_parse_log_line(line, ident),
{
    law_line_shape_of_escaped_line(line, ident);
}

/// Decodes one line of `latest.log`.
///
/// Non-ASCII characters are escaped first; a line whose identifier is not in
/// place gives `Ok(None)`; one that ends before the payload gives
/// `NotEnoughForSnbtStart`; a payload that is not SNBT gives `InvalidSnbt`;
/// any other payload is decoded by `LogMessage::from_snbt`. The payload must
/// be one on which the SNBT parser comes back (`snbt_returns`), with a value
/// that decoding takes (`decode_returns`): `try_parse_log_line` tests both.
pub fn parse_log_line(line: &str, identifier: &str) -> (r: Result<Option<LogMessage>, McLogError>)
    requires
        spec_line_shape(line@, identifier@) matches LineShape::Payload(text) ==> line_returns(text),
    ensures
        line_result_view(r) == spec_parse_log_line(line@, identifier@),
{
    match line_parts(line, identifier) {
        LineParts::Skipped => Ok(None),
        LineParts::TooShort(s) => Err(McLogError::NotEnoughForSnbtStart(s)),
        LineParts::Payload(text) => {
            let nbt = match parse_snbt(text.as_str()) {
                Ok(v) => v,
                Err(e) => return Err(McLogError::InvalidSnbt(e)),
            };
            match LogMessage::from_snbt(nbt) {
                Ok(m) => Ok(Some(m)),
                Err(e) => Err(e),
            }
        },
    }
}

/// The SNBT parser comes back on the payload `text`, and decoding the value
/// it gives comes back too.
pub open spec fn line_returns(text: Seq<char>) -> bool {
    snbt_returns(text) && (spec_parse_snbt(text) matches Ok(v) ==> decode_returns(v))
}

/// Decodes one line as `parse_log_line` does, where parsing and decoding its
/// payload come back; `None` where either would stop with a panic instead.
/// (The payload is parsed, and decoded, once to tell and once more by
/// `parse_log_line`.)
pub fn try_parse_log_line(line: &str, identifier: &str) -> (r: Option<Result<Option<LogMessage>, McLogError>>)
    ensures
        match r {
            None => spec_line_shape(line@, identifier@) matches LineShape::Payload(text) && !line_returns(text),
            Some(x) => !(spec_line_shape(line@, identifier@) matches LineShape::Payload(text) && !line_returns(text))
                && line_result_view(x) == spec_parse_log_line(line@, identifier@),
        },
{
    if let LineParts::Payload(text) = line_parts(line, identifier) {
        if !snbt_returns_x(text.as_str()) {
            return None;
        }
        if let Ok(v) = parse_snbt(text.as_str()) {
            if let Err(e) = LogMessage::decode(v) {
                if is_panic_error(&e) {
                    return None;
                }
            }
        }
    }
    Some(parse_log_line(line, identifier))
}

} // verus!
