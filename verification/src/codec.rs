//! The save-file format of the player record, and its encoder and parser.
//!
//! A record is stored as a JSON object with exactly the two members `name`
//! (a string) and `prays` (a non-negative integer that fits the counter),
//! in either order, with optional blanks between tokens.  Strings escape
//! `"` and `\`, write backspace, form feed, newline, carriage return and
//! tab as their two-character escapes, and every other control character as
//! `\u00` and two hex digits; `\u` escapes are read back for any four hex
//! digits that name a Unicode scalar value.  The whole format is defined by
//! the spec functions of this module: [`enc_record`] says what is written,
//! [`parse_record`] what every input is read as.

use vstd::prelude::*;
use crate::player::{LoadSaveFileError, PlayerData, RecordView};

verus! {

/// Blanks accepted between tokens.
pub open spec fn is_ws(c: char) -> bool {
    c == ' ' || c == '\t' || c == '\n' || c == '\r'
}

/// Decimal digits.
pub open spec fn is_digit_char(c: char) -> bool {
    '0' <= c && c <= '9'
}

/// Control characters, which a string member may only hold escaped.
pub open spec fn is_control(c: char) -> bool {
    (c as u32) < 0x20
}

/// The value of a decimal digit.
pub open spec fn digit_val(c: char) -> nat {
    (c as u32 - '0' as u32) as nat
}

/// The decimal digit with the given value.
pub open spec fn dec_digit(n: nat) -> char {
    if n == 0 {
        '0'
    } else if n == 1 {
        '1'
    } else if n == 2 {
        '2'
    } else if n == 3 {
        '3'
    } else if n == 4 {
        '4'
    } else if n == 5 {
        '5'
    } else if n == 6 {
        '6'
    } else if n == 7 {
        '7'
    } else if n == 8 {
        '8'
    } else {
        '9'
    }
}

/// The lower-case hex digit with the given value.
pub open spec fn hex_digit(n: nat) -> char {
    if n < 10 {
        dec_digit(n)
    } else if n == 10 {
        'a'
    } else if n == 11 {
        'b'
    } else if n == 12 {
        'c'
    } else if n == 13 {
        'd'
    } else if n == 14 {
        'e'
    } else {
        'f'
    }
}

/// Hex digits as the parser accepts them, in either case.
pub open spec fn is_hex_char(c: char) -> bool {
    is_digit_char(c) || ('a' <= c && c <= 'f') || ('A' <= c && c <= 'F')
}

/// The value of a hex digit of either case.
pub open spec fn hex_val(c: char) -> nat {
    if is_digit_char(c) {
        digit_val(c)
    } else if 'a' <= c && c <= 'f' {
        (c as u32 - 'a' as u32 + 10) as nat
    } else {
        (c as u32 - 'A' as u32 + 10) as nat
    }
}

/// How one character of a string member is written.
pub open spec fn enc_char(c: char) -> Seq<char> {
    if c == '"' {
        seq!['\\', '"']
    } else if c == '\\' {
        seq!['\\', '\\']
    } else if c == '\u{0008}' {
        seq!['\\', 'b']
    } else if c == '\u{000C}' {
        seq!['\\', 'f']
    } else if c == '\n' {
        seq!['\\', 'n']
    } else if c == '\r' {
        seq!['\\', 'r']
    } else if c == '\t' {
        seq!['\\', 't']
    } else if is_control(c) {
        seq!['\\', 'u', '0', '0', hex_digit((c as u32 / 16) as nat), hex_digit((c as u32 % 16) as nat)]
    } else {
        seq![c]
    }
}

/// How the body of a string member is written, character by character.
pub open spec fn enc_body(s: Seq<char>) -> Seq<char>
    decreases s.len(),
{
    if s.len() == 0 {
        Seq::empty()
    } else {
        enc_char(s[0]) + enc_body(s.drop_first())
    }
}

/// A string member: the escaped body between double quotes.
pub open spec fn enc_quoted(s: Seq<char>) -> Seq<char> {
    seq!['"'] + enc_body(s) + seq!['"']
}

/// The decimal numeral of a number, most significant digit first, with no
/// leading zero.
pub open spec fn dec_digits(n: nat) -> Seq<char>
    decreases n,
{
    if n < 10 {
        seq![dec_digit(n)]
    } else {
        dec_digits(n / 10) + seq![dec_digit(n % 10)]
    }
}

/// The key of the name member.
pub open spec fn name_key() -> Seq<char> {
    seq!['n', 'a', 'm', 'e']
}

/// The key of the counter member.
pub open spec fn prays_key() -> Seq<char> {
    seq!['p', 'r', 'a', 'y', 's']
}

/// What a record is written as: the two members, name first, no blanks.
pub open spec fn enc_record(r: RecordView) -> Seq<char> {
    seq!['{'] + enc_quoted(name_key()) + seq![':'] + enc_quoted(r.name) + seq![',']
        + enc_quoted(prays_key()) + seq![':'] + dec_digits(r.prays as nat) + seq!['}']
}

/// Relies on String::push: appends the one character to the string.
#[verifier::external_body]
fn push_char(out: &mut String, c: char)
    ensures
        final(out)@ == old(out)@.push(c),
{
    out.push(c);
}

/// The decimal digit with the given value, as executable code.
fn dec_digit_exec(n: u32) -> (c: char)
    requires
        n < 10,
    ensures
        c == dec_digit(n as nat),
{
    if n == 0 {
        '0'
    } else if n == 1 {
        '1'
    } else if n == 2 {
        '2'
    } else if n == 3 {
        '3'
    } else if n == 4 {
        '4'
    } else if n == 5 {
        '5'
    } else if n == 6 {
        '6'
    } else if n == 7 {
        '7'
    } else if n == 8 {
        '8'
    } else {
        '9'
    }
}

/// The lower-case hex digit with the given value, as executable code.
fn hex_digit_exec(n: u32) -> (c: char)
    requires
        n < 16,
    ensures
        c == hex_digit(n as nat),
{
    if n < 10 {
        dec_digit_exec(n)
    } else if n == 10 {
        'a'
    } else if n == 11 {
        'b'
    } else if n == 12 {
        'c'
    } else if n == 13 {
        'd'
    } else if n == 14 {
        'e'
    } else {
        'f'
    }
}

/// Appends the encoding of one string-member character.
fn push_encoded_char(out: &mut String, c: char)
    ensures
        final(out)@ == old(out)@ + enc_char(c),
{
    if c == '"' {
        push_char(out, '\\');
        push_char(out, '"');
    } else if c == '\\' {
        push_char(out, '\\');
        push_char(out, '\\');
    } else if c == '\u{0008}' {
        push_char(out, '\\');
        push_char(out, 'b');
    } else if c == '\u{000C}' {
        push_char(out, '\\');
        push_char(out, 'f');
    } else if c == '\n' {
        push_char(out, '\\');
        push_char(out, 'n');
    } else if c == '\r' {
        push_char(out, '\\');
        push_char(out, 'r');
    } else if c == '\t' {
        push_char(out, '\\');
        push_char(out, 't');
    } else if (c as u32) < 0x20 {
        let u = c as u32;
        push_char(out, '\\');
        push_char(out, 'u');
        push_char(out, '0');
        push_char(out, '0');
        push_char(out, hex_digit_exec(u / 16));
        push_char(out, hex_digit_exec(u % 16));
    } else {
        push_char(out, c);
    }
    proof {
        assert(final(out)@ =~= old(out)@ + enc_char(c));
    }
}

/// The encoding of a longer body ends with the encoding of the character
/// appended last.
proof fn lemma_enc_body_snoc(s: Seq<char>, c: char)
    ensures
        enc_body(s.push(c)) == enc_body(s) + enc_char(c),
    decreases s.len(),
{
    if s.len() == 0 {
        assert(s.push(c)[0] == c);
        assert(s.push(c).drop_first() =~= Seq::<char>::empty());
        assert(enc_body(s.push(c)) == enc_char(c) + enc_body(Seq::<char>::empty()));
        assert(enc_body(s.push(c)) =~= enc_body(s) + enc_char(c));
    } else {
        assert(s.push(c).drop_first() =~= s.drop_first().push(c));
        lemma_enc_body_snoc(s.drop_first(), c);
        assert(enc_body(s.push(c)) =~= enc_body(s) + enc_char(c));
    }
}

/// Appends a whole string member, quotes included.
fn push_quoted(out: &mut String, s: &str)
    ensures
        final(out)@ == old(out)@ + enc_quoted(s@),
{
    push_char(out, '"');
    let n = s.unicode_len();
    let mut i: usize = 0;
    while i < n
        invariant
            n == s@.len(),
            i <= n,
            out@ == old(out)@.push('"') + enc_body(s@.take(i as int)),
        decreases n - i,
    {
        let c = s.get_char(i);
        proof {
            assert(s@.take(i + 1).drop_last() =~= s@.take(i as int));
            assert(s@.take(i + 1) =~= s@.take(i as int).push(s@[i as int]));
            lemma_enc_body_snoc(s@.take(i as int), s@[i as int]);
        }
        push_encoded_char(out, c);
        i = i + 1;
    }
    push_char(out, '"');
    proof {
        assert(s@.take(n as int) =~= s@);
        assert(final(out)@ =~= old(out)@ + enc_quoted(s@));
    }
}

/// Appends the decimal numeral of the number.
fn push_u32_decimal(out: &mut String, n: u32)
    ensures
        final(out)@ == old(out)@ + dec_digits(n as nat),
    decreases n,
{
    if n < 10 {
        push_char(out, dec_digit_exec(n));
        proof {
            assert(final(out)@ =~= old(out)@ + dec_digits(n as nat));
        }
    } else {
        push_u32_decimal(out, n / 10);
        push_char(out, dec_digit_exec(n % 10));
        proof {
            assert(final(out)@ =~= old(out)@ + dec_digits(n as nat));
        }
    }
}

/// The input with its leading blanks removed.
pub open spec fn skip_ws(s: Seq<char>) -> Seq<char>
    decreases s.len(),
{
    if s.len() > 0 && is_ws(s[0]) {
        skip_ws(s.drop_first())
    } else {
        s
    }
}

/// The input after one expected character, or nothing if it is absent.
pub open spec fn expect(s: Seq<char>, c: char) -> Option<Seq<char>> {
    if s.len() > 0 && s[0] == c {
        Some(s.drop_first())
    } else {
        None
    }
}

/// Reads one escape, the backslash already consumed: the decoded character
/// and how many characters the escape took after the backslash.  A `\u`
/// escape must name a Unicode scalar value, so the surrogate range is
/// rejected.
pub open spec fn parse_escape(s: Seq<char>) -> Option<(char, int)> {
    if s.len() == 0 {
        None
    } else if s[0] == '"' {
        Some(('"', 1))
    } else if s[0] == '\\' {
        Some(('\\', 1))
    } else if s[0] == '/' {
        Some(('/', 1))
    } else if s[0] == 'b' {
        Some(('\u{0008}', 1))
    } else if s[0] == 'f' {
        Some(('\u{000C}', 1))
    } else if s[0] == 'n' {
        Some(('\n', 1))
    } else if s[0] == 'r' {
        Some(('\r', 1))
    } else if s[0] == 't' {
        Some(('\t', 1))
    } else if s[0] == 'u' {
        if s.len() >= 5 && is_hex_char(s[1]) && is_hex_char(s[2]) && is_hex_char(s[3])
            && is_hex_char(s[4]) {
            let u = hex_val(s[1]) * 0x1000 + hex_val(s[2]) * 0x100 + hex_val(s[3]) * 16 + hex_val(
                s[4],
            );
            if u < 0xD800 || u >= 0xE000 {
                Some(((u as u32) as char, 5))
            } else {
                None
            }
        } else {
            None
        }
    } else {
        None
    }
}

/// Reads the body of a string member up to its closing quote: the decoded
/// characters and the input after the quote.  A bare control character or an
/// unterminated string is rejected.
pub open spec fn parse_string_body(s: Seq<char>) -> Option<(Seq<char>, Seq<char>)>
    decreases s.len(),
{
    if s.len() == 0 {
        None
    } else if s[0] == '"' {
        Some((Seq::empty(), s.drop_first()))
    } else if s[0] == '\\' {
        match parse_escape(s.drop_first()) {
            Some((c, k)) => match parse_string_body(s.drop_first().skip(k)) {
                Some((t, rest)) => Some((seq![c] + t, rest)),
                None => None,
            },
            None => None,
        }
    } else if is_control(s[0]) {
        None
    } else {
        match parse_string_body(s.drop_first()) {
            Some((t, rest)) => Some((seq![s[0]] + t, rest)),
            None => None,
        }
    }
}

/// Reads a whole string member, opening quote first.
pub open spec fn parse_quoted(s: Seq<char>) -> Option<(Seq<char>, Seq<char>)> {
    if s.len() > 0 && s[0] == '"' {
        parse_string_body(s.drop_first())
    } else {
        None
    }
}

/// Folds a run of digits into an accumulator; a value beyond the counter's
/// range is rejected.
pub open spec fn parse_digits(s: Seq<char>, acc: u32) -> Option<(u32, Seq<char>)>
    decreases s.len(),
{
    if s.len() > 0 && is_digit_char(s[0]) {
        let v = acc * 10 + digit_val(s[0]);
        if v > u32::MAX {
            None
        } else {
            parse_digits(s.drop_first(), v as u32)
        }
    } else {
        Some((acc, s))
    }
}

/// Reads the counter member's number: a plain decimal numeral with no sign,
/// no leading zero and a value within the counter's range.
pub open spec fn parse_number(s: Seq<char>) -> Option<(u32, Seq<char>)> {
    if s.len() == 0 || !is_digit_char(s[0]) {
        None
    } else if s[0] == '0' {
        if s.len() >= 2 && is_digit_char(s[1]) {
            None
        } else {
            Some((0u32, s.drop_first()))
        }
    } else {
        parse_digits(s, 0u32)
    }
}

/// Reads a colon with optional blanks around it.
pub open spec fn parse_colon(s: Seq<char>) -> Option<Seq<char>> {
    match expect(skip_ws(s), ':') {
        Some(r) => Some(skip_ws(r)),
        None => None,
    }
}

/// Reads a comma with optional blanks around it.
pub open spec fn parse_comma(s: Seq<char>) -> Option<Seq<char>> {
    match expect(skip_ws(s), ',') {
        Some(r) => Some(skip_ws(r)),
        None => None,
    }
}

/// Whether the input is the closing brace followed by blanks alone.
pub open spec fn parse_end(s: Seq<char>) -> bool {
    match expect(skip_ws(s), '}') {
        Some(s1) => skip_ws(s1).len() == 0,
        None => false,
    }
}

/// Reads the rest of a record whose first key was `name`, starting at the
/// name's value.
pub open spec fn parse_name_then_prays(s: Seq<char>) -> Option<RecordView> {
    match parse_quoted(s) {
        Some((nm, s1)) => match parse_comma(s1) {
            Some(s2) => match parse_quoted(s2) {
                Some((key2, s3)) => if key2 == prays_key() {
                    match parse_colon(s3) {
                        Some(s4) => match parse_number(s4) {
                            Some((p, s5)) => if parse_end(s5) {
                                Some(RecordView { name: nm, prays: p })
                            } else {
                                None
                            },
                            None => None,
                        },
                        None => None,
                    }
                } else {
                    None
                },
                None => None,
            },
            None => None,
        },
        None => None,
    }
}

/// Reads the rest of a record whose first key was `prays`, starting at the
/// counter's value.
pub open spec fn parse_prays_then_name(s: Seq<char>) -> Option<RecordView> {
    match parse_number(s) {
        Some((p, s1)) => match parse_comma(s1) {
            Some(s2) => match parse_quoted(s2) {
                Some((key2, s3)) => if key2 == name_key() {
                    match parse_colon(s3) {
                        Some(s4) => match parse_quoted(s4) {
                            Some((nm, s5)) => if parse_end(s5) {
                                Some(RecordView { name: nm, prays: p })
                            } else {
                                None
                            },
                            None => None,
                        },
                        None => None,
                    }
                } else {
                    None
                },
                None => None,
            },
            None => None,
        },
        None => None,
    }
}

/// What every input is read as: a record exactly when the input is one JSON
/// object with the two members `name` and `prays`, in either order, and
/// nothing else.
pub open spec fn parse_record(s: Seq<char>) -> Option<RecordView> {
    match expect(skip_ws(s), '{') {
        Some(s1) => match parse_quoted(skip_ws(s1)) {
            Some((key1, s2)) => match parse_colon(s2) {
                Some(s3) => if key1 == name_key() {
                    parse_name_then_prays(s3)
                } else if key1 == prays_key() {
                    parse_prays_then_name(s3)
                } else {
                    None
                },
                None => None,
            },
            None => None,
        },
        None => None,
    }
}

/// Relies on char::from_u32: the character with the given code, or nothing
/// exactly when the code is a surrogate or beyond the scalar range.
#[verifier::external_body]
fn char_from_code(u: u32) -> (r: Option<char>)
    ensures
        r is Some <==> (u < 0xD800 || (0xE000 <= u && u < 0x110000)),
        match r {
            Some(c) => c as u32 == u,
            None => true,
        },
{
    char::from_u32(u)
}

/// Whether a character is one of the accepted blanks, as executable code.
fn is_ws_exec(c: char) -> (b: bool)
    ensures
        b == is_ws(c),
{
    c == ' ' || c == '\t' || c == '\n' || c == '\r'
}

/// Whether a character is a decimal digit, as executable code.
fn is_digit_exec(c: char) -> (b: bool)
    ensures
        b == is_digit_char(c),
{
    '0' <= c && c <= '9'
}

/// Whether a character is a hex digit of either case, as executable code.
fn is_hex_exec(c: char) -> (b: bool)
    ensures
        b == is_hex_char(c),
{
    ('0' <= c && c <= '9') || ('a' <= c && c <= 'f') || ('A' <= c && c <= 'F')
}

/// The value of a decimal digit, as executable code.
fn digit_val_exec(c: char) -> (v: u32)
    requires
        is_digit_char(c),
    ensures
        v as nat == digit_val(c),
        v < 10,
{
    c as u32 - '0' as u32
}

/// The value of a hex digit of either case, as executable code.
fn hex_val_exec(c: char) -> (v: u32)
    requires
        is_hex_char(c),
    ensures
        v as nat == hex_val(c),
        v < 16,
{
    if '0' <= c && c <= '9' {
        c as u32 - '0' as u32
    } else if 'a' <= c && c <= 'f' {
        c as u32 - 'a' as u32 + 10
    } else {
        c as u32 - 'A' as u32 + 10
    }
}

/// Moves an index past the blanks, as [`skip_ws`] does on the suffix there.
fn skip_ws_exec(s: &str, i: usize) -> (j: usize)
    requires
        i <= s@.len(),
    ensures
        i <= j <= s@.len(),
        skip_ws(s@.skip(i as int)) == s@.skip(j as int),
{
    let n = s.unicode_len();
    let mut j = i;
    loop
        invariant
            i <= j <= n,
            n == s@.len(),
            skip_ws(s@.skip(i as int)) == skip_ws(s@.skip(j as int)),
        decreases n - j,
    {
        if j < n {
            let c = s.get_char(j);
            if is_ws_exec(c) {
                proof {
                    assert(s@.skip(j as int)[0] == s@[j as int]);
                    assert(s@.skip(j as int).drop_first() =~= s@.skip(j + 1));
                }
                j = j + 1;
            } else {
                proof {
                    assert(s@.skip(j as int)[0] == s@[j as int]);
                    assert(skip_ws(s@.skip(j as int)) == s@.skip(j as int));
                }
                return j;
            }
        } else {
            proof {
                assert(s@.skip(j as int).len() == 0);
            }
            return j;
        }
    }
}

/// Consumes one expected character at an index, as [`expect`] does.
fn expect_exec(s: &str, i: usize, c: char) -> (r: Option<usize>)
    requires
        i <= s@.len(),
    ensures
        match r {
            Some(j) => i < j <= s@.len() && expect(s@.skip(i as int), c) == Some(
                s@.skip(j as int),
            ),
            None => expect(s@.skip(i as int), c) is None,
        },
{
    let n = s.unicode_len();
    if i < n {
        let c0 = s.get_char(i);
        proof {
            assert(s@.skip(i as int)[0] == s@[i as int]);
        }
        if c0 == c {
            proof {
                assert(s@.skip(i as int).drop_first() =~= s@.skip(i + 1));
            }
            Some(i + 1)
        } else {
            None
        }
    } else {
        None
    }
}

/// Reads one escape at an index, as [`parse_escape`] does on the suffix.
fn parse_escape_exec(s: &str, i: usize) -> (r: Option<(char, usize)>)
    requires
        i <= s@.len(),
    ensures
        match r {
            Some(p) => 1 <= p.1 && i + p.1 <= s@.len() && parse_escape(s@.skip(i as int))
                == Some((p.0, p.1 as int)),
            None => parse_escape(s@.skip(i as int)) is None,
        },
{
    let n = s.unicode_len();
    if i >= n {
        proof {
            assert(s@.skip(i as int).len() == 0);
        }
        return None;
    }
    let c0 = s.get_char(i);
    proof {
        assert(s@.skip(i as int)[0] == s@[i as int]);
    }
    if c0 == '"' {
        Some(('"', 1))
    } else if c0 == '\\' {
        Some(('\\', 1))
    } else if c0 == '/' {
        Some(('/', 1))
    } else if c0 == 'b' {
        Some(('\u{0008}', 1))
    } else if c0 == 'f' {
        Some(('\u{000C}', 1))
    } else if c0 == 'n' {
        Some(('\n', 1))
    } else if c0 == 'r' {
        Some(('\r', 1))
    } else if c0 == 't' {
        Some(('\t', 1))
    } else if c0 == 'u' {
        if n - i >= 5 {
            let c1 = s.get_char(i + 1);
            let c2 = s.get_char(i + 2);
            let c3 = s.get_char(i + 3);
            let c4 = s.get_char(i + 4);
            proof {
                assert(s@.skip(i as int).len() == s@.len() - i);
                assert(s@.skip(i as int)[1] == s@[i + 1]);
                assert(s@.skip(i as int)[2] == s@[i + 2]);
                assert(s@.skip(i as int)[3] == s@[i + 3]);
                assert(s@.skip(i as int)[4] == s@[i + 4]);
            }
            if is_hex_exec(c1) && is_hex_exec(c2) && is_hex_exec(c3) && is_hex_exec(c4) {
                let u = hex_val_exec(c1) * 0x1000 + hex_val_exec(c2) * 0x100 + hex_val_exec(c3)
                    * 16 + hex_val_exec(c4);
                if u < 0xD800 || u >= 0xE000 {
                    match char_from_code(u) {
                        Some(c) => {
                            proof {
                                vstd::utf8::char_u32_cast(c, u);
                            }
                            Some((c, 5))
                        },
                        None => {
                            proof {
                                assert(false);
                            }
                            None
                        },
                    }
                } else {
                    None
                }
            } else {
                None
            }
        } else {
            proof {
                assert(s@.skip(i as int).len() == s@.len() - i);
            }
            None
        }
    } else {
        None
    }
}

/// Reads a string body at an index, as [`parse_string_body`] does.
fn parse_string_body_exec(s: &str, i: usize) -> (r: Option<(String, usize)>)
    requires
        i <= s@.len(),
    ensures
        match r {
            Some(p) => i <= p.1 <= s@.len() && parse_string_body(s@.skip(i as int)) == Some(
                (p.0@, s@.skip(p.1 as int)),
            ),
            None => parse_string_body(s@.skip(i as int)) is None,
        },
    decreases s@.len() - i,
{
    let n = s.unicode_len();
    if i >= n {
        proof {
            assert(s@.skip(i as int).len() == 0);
        }
        return None;
    }
    let c0 = s.get_char(i);
    proof {
        assert(s@.skip(i as int)[0] == s@[i as int]);
        assert(s@.skip(i as int).drop_first() =~= s@.skip(i + 1));
    }
    if c0 == '"' {
        let out = String::new();
        Some((out, i + 1))
    } else if c0 == '\\' {
        match parse_escape_exec(s, i + 1) {
            Some((c, k)) => {
                proof {
                    assert(s@.skip(i + 1).skip(k as int) =~= s@.skip(i + 1 + k));
                }
                match parse_string_body_exec(s, i + 1 + k) {
                    Some((t, j)) => {
                        let mut out = String::new();
                        push_char(&mut out, c);
                        out.append(t.as_str());
                        proof {
                            assert(out@ =~= seq![c] + t@);
                        }
                        Some((out, j))
                    },
                    None => None,
                }
            },
            None => None,
        }
    } else if (c0 as u32) < 0x20 {
        None
    } else {
        match parse_string_body_exec(s, i + 1) {
            Some((t, j)) => {
                let mut out = String::new();
                push_char(&mut out, c0);
                out.append(t.as_str());
                proof {
                    assert(out@ =~= seq![c0] + t@);
                }
                Some((out, j))
            },
            None => None,
        }
    }
}

/// Reads a whole string member at an index, as [`parse_quoted`] does.
fn parse_quoted_exec(s: &str, i: usize) -> (r: Option<(String, usize)>)
    requires
        i <= s@.len(),
    ensures
        match r {
            Some(p) => i <= p.1 <= s@.len() && parse_quoted(s@.skip(i as int)) == Some(
                (p.0@, s@.skip(p.1 as int)),
            ),
            None => parse_quoted(s@.skip(i as int)) is None,
        },
{
    let n = s.unicode_len();
    if i < n {
        let c0 = s.get_char(i);
        proof {
            assert(s@.skip(i as int)[0] == s@[i as int]);
            assert(s@.skip(i as int).drop_first() =~= s@.skip(i + 1));
        }
        if c0 == '"' {
            parse_string_body_exec(s, i + 1)
        } else {
            None
        }
    } else {
        None
    }
}

/// Folds a digit run at an index, as [`parse_digits`] does.
fn parse_digits_exec(s: &str, i: usize, acc: u32) -> (r: Option<(u32, usize)>)
    requires
        i <= s@.len(),
    ensures
        match r {
            Some(p) => i <= p.1 <= s@.len() && parse_digits(s@.skip(i as int), acc) == Some(
                (p.0, s@.skip(p.1 as int)),
            ),
            None => parse_digits(s@.skip(i as int), acc) is None,
        },
    decreases s@.len() - i,
{
    let n = s.unicode_len();
    if i < n {
        let c = s.get_char(i);
        proof {
            assert(s@.skip(i as int)[0] == s@[i as int]);
            assert(s@.skip(i as int).drop_first() =~= s@.skip(i + 1));
        }
        if is_digit_exec(c) {
            let d = digit_val_exec(c);
            let v64 = (acc as u64) * 10 + (d as u64);
            if v64 > 0xFFFF_FFFFu64 {
                None
            } else {
                parse_digits_exec(s, i + 1, v64 as u32)
            }
        } else {
            Some((acc, i))
        }
    } else {
        proof {
            assert(s@.skip(i as int).len() == 0);
        }
        Some((acc, i))
    }
}

/// Reads the counter's numeral at an index, as [`parse_number`] does.
fn parse_number_exec(s: &str, i: usize) -> (r: Option<(u32, usize)>)
    requires
        i <= s@.len(),
    ensures
        match r {
            Some(p) => i <= p.1 <= s@.len() && parse_number(s@.skip(i as int)) == Some(
                (p.0, s@.skip(p.1 as int)),
            ),
            None => parse_number(s@.skip(i as int)) is None,
        },
{
    let n = s.unicode_len();
    if i >= n {
        proof {
            assert(s@.skip(i as int).len() == 0);
        }
        return None;
    }
    let c = s.get_char(i);
    proof {
        assert(s@.skip(i as int)[0] == s@[i as int]);
        assert(s@.skip(i as int).len() == s@.len() - i);
        assert(s@.skip(i as int).drop_first() =~= s@.skip(i + 1));
    }
    if !is_digit_exec(c) {
        None
    } else if c == '0' {
        let more = if i + 1 < n {
            let c1 = s.get_char(i + 1);
            proof {
                assert(s@.skip(i as int)[1] == s@[i + 1]);
            }
            is_digit_exec(c1)
        } else {
            false
        };
        if more {
            None
        } else {
            Some((0, i + 1))
        }
    } else {
        parse_digits_exec(s, i, 0)
    }
}

/// Reads a colon and its blanks at an index, as [`parse_colon`] does.
fn parse_colon_exec(s: &str, i: usize) -> (r: Option<usize>)
    requires
        i <= s@.len(),
    ensures
        match r {
            Some(j) => i <= j <= s@.len() && parse_colon(s@.skip(i as int)) == Some(
                s@.skip(j as int),
            ),
            None => parse_colon(s@.skip(i as int)) is None,
        },
{
    let j = skip_ws_exec(s, i);
    match expect_exec(s, j, ':') {
        Some(j2) => Some(skip_ws_exec(s, j2)),
        None => None,
    }
}

/// Reads a comma and its blanks at an index, as [`parse_comma`] does.
fn parse_comma_exec(s: &str, i: usize) -> (r: Option<usize>)
    requires
        i <= s@.len(),
    ensures
        match r {
            Some(j) => i <= j <= s@.len() && parse_comma(s@.skip(i as int)) == Some(
                s@.skip(j as int),
            ),
            None => parse_comma(s@.skip(i as int)) is None,
        },
{
    let j = skip_ws_exec(s, i);
    match expect_exec(s, j, ',') {
        Some(j2) => Some(skip_ws_exec(s, j2)),
        None => None,
    }
}

/// Whether only the closing brace and blanks remain, as [`parse_end`] says.
fn parse_end_exec(s: &str, i: usize) -> (b: bool)
    requires
        i <= s@.len(),
    ensures
        b == parse_end(s@.skip(i as int)),
{
    let j = skip_ws_exec(s, i);
    match expect_exec(s, j, '}') {
        Some(j2) => {
            let j3 = skip_ws_exec(s, j2);
            let n = s.unicode_len();
            proof {
                assert(s@.skip(j3 as int).len() == s@.len() - j3);
            }
            j3 == n
        },
        None => false,
    }
}

/// Reads a record from the save-file text: `Ok` with the record exactly when
/// [`parse_record`] reads one, and the format error otherwise.
pub fn player_data_from_json(s: &str) -> (r: Result<PlayerData, LoadSaveFileError>)
    ensures
        match r {
            Ok(d) => parse_record(s@) == Some(d@),
            Err(e) => parse_record(s@) is None && e == LoadSaveFileError::JsonError,
        },
{
    proof {
        reveal_strlit("name");
        reveal_strlit("prays");
        assert("name"@ =~= name_key());
        assert("prays"@ =~= prays_key());
        assert(s@.skip(0) =~= s@);
    }
    let name_k = String::from_str("name");
    let prays_k = String::from_str("prays");
    let i0 = skip_ws_exec(s, 0);
    let i1 = match expect_exec(s, i0, '{') {
        Some(j) => j,
        None => {
            return Err(LoadSaveFileError::JsonError);
        },
    };
    let i2 = skip_ws_exec(s, i1);
    let (key1, i3) = match parse_quoted_exec(s, i2) {
        Some(p) => p,
        None => {
            return Err(LoadSaveFileError::JsonError);
        },
    };
    let i4 = match parse_colon_exec(s, i3) {
        Some(j) => j,
        None => {
            return Err(LoadSaveFileError::JsonError);
        },
    };
    if key1 == name_k {
        let (nm, i5) = match parse_quoted_exec(s, i4) {
            Some(p) => p,
            None => {
                return Err(LoadSaveFileError::JsonError);
            },
        };
        let i6 = match parse_comma_exec(s, i5) {
            Some(j) => j,
            None => {
                return Err(LoadSaveFileError::JsonError);
            },
        };
        let (key2, i7) = match parse_quoted_exec(s, i6) {
            Some(p) => p,
            None => {
                return Err(LoadSaveFileError::JsonError);
            },
        };
        if !(key2 == prays_k) {
            return Err(LoadSaveFileError::JsonError);
        }
        let i8 = match parse_colon_exec(s, i7) {
            Some(j) => j,
            None => {
                return Err(LoadSaveFileError::JsonError);
            },
        };
        let (p, i9) = match parse_number_exec(s, i8) {
            Some(p) => p,
            None => {
                return Err(LoadSaveFileError::JsonError);
            },
        };
        if parse_end_exec(s, i9) {
            Ok(PlayerData { name: nm, prays: p })
        } else {
            Err(LoadSaveFileError::JsonError)
        }
    } else if key1 == prays_k {
        let (p, i5) = match parse_number_exec(s, i4) {
            Some(p) => p,
            None => {
                return Err(LoadSaveFileError::JsonError);
            },
        };
        let i6 = match parse_comma_exec(s, i5) {
            Some(j) => j,
            None => {
                return Err(LoadSaveFileError::JsonError);
            },
        };
        let (key2, i7) = match parse_quoted_exec(s, i6) {
            Some(p) => p,
            None => {
                return Err(LoadSaveFileError::JsonError);
            },
        };
        if !(key2 == name_k) {
            return Err(LoadSaveFileError::JsonError);
        }
        let i8 = match parse_colon_exec(s, i7) {
            Some(j) => j,
            None => {
                return Err(LoadSaveFileError::JsonError);
            },
        };
        let (nm, i9) = match parse_quoted_exec(s, i8) {
            Some(p) => p,
            None => {
                return Err(LoadSaveFileError::JsonError);
            },
        };
        if parse_end_exec(s, i9) {
            Ok(PlayerData { name: nm, prays: p })
        } else {
            Err(LoadSaveFileError::JsonError)
        }
    } else {
        Err(LoadSaveFileError::JsonError)
    }
}

/// Writes a record in the save-file format: exactly [`enc_record`] of it.
pub fn player_data_to_json(d: &PlayerData) -> (s: String)
    ensures
        s@ == enc_record(d@),
{
    let mut out = String::new();
    push_char(&mut out, '{');
    push_quoted(&mut out, "name");
    push_char(&mut out, ':');
    push_quoted(&mut out, d.name.as_str());
    push_char(&mut out, ',');
    push_quoted(&mut out, "prays");
    push_char(&mut out, ':');
    push_u32_decimal(&mut out, d.prays);
    push_char(&mut out, '}');
    proof {
        reveal_strlit("name");
        reveal_strlit("prays");
        assert("name"@ =~= name_key());
        assert("prays"@ =~= prays_key());
        assert(out@ =~= enc_record(d@));
    }
    out
}

/// Powers of ten.
pub open spec fn pow10(k: nat) -> nat
    decreases k,
{
    if k == 0 {
        1
    } else {
        10 * pow10((k - 1) as nat)
    }
}

/// How many digits the decimal numeral of a number has.
pub open spec fn num_digits(n: nat) -> nat
    decreases n,
{
    if n < 10 {
        1
    } else {
        1 + num_digits(n / 10)
    }
}

/// Each digit carries its value, and the first digit of a positive numeral
/// is not zero.
proof fn lemma_dec_digit_facts(n: nat)
    requires
        n < 10,
    ensures
        is_digit_char(dec_digit(n)),
        digit_val(dec_digit(n)) == n,
        n >= 1 ==> dec_digit(n) != '0',
{
}

/// A positive numeral never starts with a zero digit, and every numeral
/// starts with a digit.
proof fn lemma_dec_digits_head(n: nat)
    ensures
        is_digit_char(dec_digits(n)[0]),
        n >= 1 ==> dec_digits(n)[0] != '0',
        dec_digits(n).len() >= 1,
    decreases n,
{
    if n < 10 {
        lemma_dec_digit_facts(n);
    } else {
        lemma_dec_digits_head(n / 10);
        assert(dec_digits(n)[0] == dec_digits(n / 10)[0]);
    }
}

/// Folding the digits of a numeral into an accumulator multiplies the
/// accumulator by the right power of ten and adds the number.
proof fn lemma_parse_digits_dec(n: nat, acc: u32, rest: Seq<char>)
    requires
        acc * pow10(num_digits(n)) + n <= u32::MAX,
    ensures
        parse_digits(dec_digits(n) + rest, acc) == parse_digits(
            rest,
            (acc * pow10(num_digits(n)) + n) as u32,
        ),
    decreases n,
{
    let a = acc as nat;
    if n < 10 {
        lemma_dec_digit_facts(n);
        let s = dec_digits(n) + rest;
        assert(s[0] == dec_digit(n));
        assert(s.drop_first() =~= rest);
        assert(pow10(0) == 1);
        assert(pow10(1) == 10);
    } else {
        let k2 = num_digits(n / 10);
        let pk2 = pow10(k2);
        lemma_dec_digit_facts(n % 10);
        let d = dec_digit(n % 10);
        let tail = seq![d] + rest;
        assert(dec_digits(n) + rest =~= dec_digits(n / 10) + tail);
        assert(pow10(num_digits(n)) == 10 * pk2);
        assert(n == 10 * (n / 10) + n % 10);
        assert(10 * (a * pk2 + n / 10) <= a * (10 * pk2) + n) by (nonlinear_arith)
            requires
                n == 10 * (n / 10) + n % 10,
                a >= 0,
                pk2 >= 0,
        ;
        assert(a * pk2 + n / 10 <= u32::MAX);
        lemma_parse_digits_dec(n / 10, acc, tail);
        let acc1 = (a * pk2 + n / 10) as u32;
        assert(tail[0] == d);
        assert(tail.drop_first() =~= rest);
        assert(acc1 * 10 + n % 10 == a * (10 * pk2) + n) by (nonlinear_arith)
            requires
                n == 10 * (n / 10) + n % 10,
                acc1 == a * pk2 + n / 10,
        ;
    }
}

/// The numeral of a counter value, followed by anything that does not start
/// with a digit, reads back as exactly that value.
proof fn lemma_parse_number_dec(p: u32, rest: Seq<char>)
    requires
        rest.len() > 0 ==> !is_digit_char(rest[0]),
    ensures
        parse_number(dec_digits(p as nat) + rest) == Some((p, rest)),
{
    let s = dec_digits(p as nat) + rest;
    lemma_dec_digits_head(p as nat);
    assert(s[0] == dec_digits(p as nat)[0]);
    if p == 0 {
        assert(dec_digits(0) =~= seq!['0']);
        assert(s.drop_first() =~= rest);
        if rest.len() > 0 {
            assert(s[1] == rest[0]);
        }
    } else {
        assert(s[0] != '0');
        assert(0 * pow10(num_digits(p as nat)) + p as nat <= u32::MAX) by (nonlinear_arith)
            requires
                p <= u32::MAX,
        ;
        lemma_parse_digits_dec(p as nat, 0u32, rest);
        assert(parse_digits(s, 0u32) == parse_digits(rest, p));
    }
}

/// A hex digit written by the encoder reads back as its value.
proof fn lemma_hex_digit_facts(n: nat)
    requires
        n < 16,
    ensures
        is_hex_char(hex_digit(n)),
        hex_val(hex_digit(n)) == n,
{
}

/// One escape written as a backslash and one character reads back as the
/// character it encodes.
proof fn lemma_parse_short_escape(c: char, e: char, tail: Seq<char>)
    requires
        (c == '"' && e == '"') || (c == '\\' && e == '\\') || (c == '\u{0008}' && e == 'b') || (
        c == '\u{000C}' && e == 'f') || (c == '\n' && e == 'n') || (c == '\r' && e == 'r') || (
        c == '\t' && e == 't'),
    ensures
        parse_escape(seq![e] + tail) == Some((c, 1int)),
        (seq![e] + tail).skip(1) =~= tail,
{
    assert((seq![e] + tail)[0] == e);
    assert((seq![e] + tail).skip(1) =~= tail);
}

/// A `\u00` escape with the two hex digits of a control character reads
/// back as that character.
proof fn lemma_parse_control_escape(c: char, tail: Seq<char>)
    requires
        is_control(c),
    ensures
        parse_escape(seq!['u', '0', '0', hex_digit((c as u32 / 16) as nat), hex_digit(
            (c as u32 % 16) as nat,
        )] + tail) == Some((c, 5int)),
        (seq!['u', '0', '0', hex_digit((c as u32 / 16) as nat), hex_digit(
            (c as u32 % 16) as nat,
        )] + tail).skip(5) =~= tail,
{
    let u = c as u32;
    let h1 = hex_digit((u / 16) as nat);
    let h0 = hex_digit((u % 16) as nat);
    lemma_hex_digit_facts((u / 16) as nat);
    lemma_hex_digit_facts((u % 16) as nat);
    let e = seq!['u', '0', '0', h1, h0] + tail;
    assert(e[0] == 'u' && e[1] == '0' && e[2] == '0' && e[3] == h1 && e[4] == h0);
    assert(e.len() >= 5);
    let v = hex_val(e[1]) * 0x1000 + hex_val(e[2]) * 0x100 + hex_val(e[3]) * 16 + hex_val(e[4]);
    assert(hex_val('0') == 0);
    assert(v == (u / 16) * 16 + u % 16);
    assert(v == u);
    assert(v < 0xD800);
    assert(parse_escape(e) == Some(((v as u32) as char, 5int)));
    vstd::utf8::char_u32_cast(c, u);
    assert((v as u32) as char == c);
    assert(e.skip(5) =~= tail);
}

/// Reading the encoding of one character from the front of a string body
/// yields that character and goes on with what follows.
proof fn lemma_parse_enc_char_step(c: char, tail: Seq<char>, t: Seq<char>, rest: Seq<char>)
    requires
        parse_string_body(tail) == Some((t, rest)),
    ensures
        parse_string_body(enc_char(c) + tail) == Some((seq![c] + t, rest)),
{
    let s = enc_char(c) + tail;
    if c == '"' || c == '\\' {
        let e = c;
        assert(enc_char(c) =~= seq!['\\', e]);
        assert(s[0] == '\\');
        assert(s.drop_first() =~= seq![e] + tail);
        lemma_parse_short_escape(c, e, tail);
    } else if c == '\u{0008}' || c == '\u{000C}' || c == '\n' || c == '\r' || c == '\t' {
        let e = if c == '\u{0008}' {
            'b'
        } else if c == '\u{000C}' {
            'f'
        } else if c == '\n' {
            'n'
        } else if c == '\r' {
            'r'
        } else {
            't'
        };
        assert(enc_char(c) =~= seq!['\\', e]);
        assert(s[0] == '\\');
        assert(s.drop_first() =~= seq![e] + tail);
        lemma_parse_short_escape(c, e, tail);
    } else if is_control(c) {
        let u = c as u32;
        let h1 = hex_digit((u / 16) as nat);
        let h0 = hex_digit((u % 16) as nat);
        assert(enc_char(c) =~= seq!['\\', 'u', '0', '0', h1, h0]);
        assert(s[0] == '\\');
        assert(s.drop_first() =~= seq!['u', '0', '0', h1, h0] + tail);
        lemma_parse_control_escape(c, tail);
    } else {
        assert(enc_char(c) =~= seq![c]);
        assert(s[0] == c);
        assert(s.drop_first() =~= tail);
    }
}

/// The encoded body of a string, with the closing quote and anything after
/// it, reads back as exactly that string.
proof fn lemma_parse_body_of_enc(name: Seq<char>, rest: Seq<char>)
    ensures
        parse_string_body(enc_body(name) + seq!['"'] + rest) == Some((name, rest)),
    decreases name.len(),
{
    if name.len() == 0 {
        let s = enc_body(name) + seq!['"'] + rest;
        assert(s =~= seq!['"'] + rest);
        assert(s[0] == '"');
        assert(s.drop_first() =~= rest);
        assert(name =~= Seq::<char>::empty());
    } else {
        let c = name[0];
        let tail = enc_body(name.drop_first()) + seq!['"'] + rest;
        lemma_parse_body_of_enc(name.drop_first(), rest);
        lemma_parse_enc_char_step(c, tail, name.drop_first(), rest);
        assert(enc_body(name) + seq!['"'] + rest =~= enc_char(c) + tail);
        assert(seq![c] + name.drop_first() =~= name);
    }
}

/// A whole encoded string member, with anything after it, reads back as
/// exactly the string it encodes.
proof fn lemma_parse_quoted_of_enc(k: Seq<char>, rest: Seq<char>)
    ensures
        parse_quoted(enc_quoted(k) + rest) == Some((k, rest)),
{
    let s = enc_quoted(k) + rest;
    assert(s[0] == '"');
    assert(s.drop_first() =~= enc_body(k) + seq!['"'] + rest);
    lemma_parse_body_of_enc(k, rest);
}

/// Law: saving a record and loading it back yields the same record, name
/// and counter alike, for every record.  [`player_data_to_json`] writes
/// [`enc_record`] and [`player_data_from_json`] reads [`parse_record`], so
/// the round trip through the save file never loses or changes a field.
/// The encoded counter member with the closing brace reads back as the
/// counter value, leaving only the brace behind.
proof fn lemma_parse_counter_tail(p: u32)
    ensures
        parse_number(dec_digits(p as nat) + seq!['}']) == Some((p, seq!['}'])),
        parse_end(seq!['}']),
{
    lemma_parse_number_dec(p, seq!['}']);
    let rest8 = seq!['}'];
    assert(rest8[0] == '}');
    assert(skip_ws(rest8) == rest8);
    assert(rest8.drop_first() =~= Seq::<char>::empty());
    assert(skip_ws(Seq::<char>::empty()).len() == 0);
}

/// The encoded members after the name key read back as the record.
proof fn lemma_parse_members_of_enc(r: RecordView)
    ensures
        parse_name_then_prays(
            enc_quoted(r.name) + (seq![','] + enc_quoted(prays_key()) + seq![':'] + dec_digits(
                r.prays as nat,
            ) + seq!['}']),
        ) == Some(r),
{
    let qv = enc_quoted(r.name);
    let qp = enc_quoted(prays_key());
    let d = dec_digits(r.prays as nat);
    let rest3 = qv + (seq![','] + qp + seq![':'] + d + seq!['}']);
    let rest4 = seq![','] + (qp + seq![':'] + d + seq!['}']);
    assert(rest3 =~= qv + rest4);
    lemma_parse_quoted_of_enc(r.name, rest4);
    assert(rest4[0] == ',');
    assert(skip_ws(rest4) == rest4);
    let rest5 = qp + (seq![':'] + d + seq!['}']);
    assert(rest4.drop_first() =~= rest5);
    assert(rest5[0] == '"');
    assert(skip_ws(rest5) == rest5);
    assert(parse_comma(rest4) == Some(rest5));
    let rest6 = seq![':'] + (d + seq!['}']);
    assert(rest5 =~= qp + rest6);
    lemma_parse_quoted_of_enc(prays_key(), rest6);
    assert(rest6[0] == ':');
    assert(skip_ws(rest6) == rest6);
    let rest7 = d + seq!['}'];
    assert(rest6.drop_first() =~= rest7);
    lemma_dec_digits_head(r.prays as nat);
    assert(rest7[0] == d[0]);
    assert(!is_ws(rest7[0]));
    assert(skip_ws(rest7) == rest7);
    assert(parse_colon(rest6) == Some(rest7));
    lemma_parse_counter_tail(r.prays);
    assert(rest7 =~= d + seq!['}']);
    assert(parse_name_then_prays(rest3) == Some(RecordView { name: r.name, prays: r.prays }));
    assert(RecordView { name: r.name, prays: r.prays } == r);
}

/// Law: saving a record and loading it back yields the same record, name
/// and counter alike, for every record.  [`player_data_to_json`] writes
/// [`enc_record`] and [`player_data_from_json`] reads [`parse_record`], so
/// the round trip through the save file never loses or changes a field.
pub proof fn lemma_save_load_round_trip(r: RecordView)
    ensures
        parse_record(enc_record(r)) == Some(r),
{
    let qn = enc_quoted(name_key());
    let qv = enc_quoted(r.name);
    let qp = enc_quoted(prays_key());
    let d = dec_digits(r.prays as nat);
    let s = enc_record(r);
    let rest1 = qn + (seq![':'] + qv + seq![','] + qp + seq![':'] + d + seq!['}']);
    assert(s =~= seq!['{'] + rest1);
    assert(s[0] == '{');
    assert(skip_ws(s) == s);
    assert(s.drop_first() =~= rest1);
    assert(rest1[0] == '"');
    assert(skip_ws(rest1) == rest1);
    let rest2 = seq![':'] + (qv + seq![','] + qp + seq![':'] + d + seq!['}']);
    assert(rest1 =~= qn + rest2);
    lemma_parse_quoted_of_enc(name_key(), rest2);
    assert(rest2[0] == ':');
    assert(skip_ws(rest2) == rest2);
    let rest3 = qv + (seq![','] + qp + seq![':'] + d + seq!['}']);
    assert(rest2.drop_first() =~= rest3);
    assert(rest3[0] == '"');
    assert(skip_ws(rest3) == rest3);
    assert(parse_colon(rest2) == Some(rest3));
    lemma_parse_members_of_enc(r);
    assert(parse_record(s) == Some(r));
}

} // verus!
