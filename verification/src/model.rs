//! The mathematical model of the codec.
//!
//! Everything here is specification: what the encoder emits, stated as a
//! function from the record's fields to the exact character sequence of the
//! document, and what the decoder accepts, stated as a deterministic parser
//! over character sequences. The executable code in [`crate::codec`] is
//! proved equal to these functions.

use crate::record::{DecodeError, Field};
use vstd::prelude::*;

verus! {

// ---------------------------------------------------------------------------
// Keys and the at-rest prefix
// ---------------------------------------------------------------------------

/// The object key under which the record's `name` is stored.
pub open spec fn name_key() -> Seq<char> {
    seq!['n', 'a', 'm', 'e']
}

/// The object key under which the record's `date` is stored.
pub open spec fn date_key() -> Seq<char> {
    seq!['d', 'a', 't', 'e']
}

/// The literal prefix `"Date: "` that tags the `date` field at rest.
pub open spec fn date_prefix() -> Seq<char> {
    seq!['D', 'a', 't', 'e', ':', ' ']
}

/// The output transform of the `date` field: prepend the at-rest prefix.
pub open spec fn wrapped(date: Seq<char>) -> Seq<char> {
    date_prefix() + date
}

/// Whether a text value begins with the at-rest prefix.
pub open spec fn has_date_prefix(s: Seq<char>) -> bool {
    s.len() >= date_prefix().len() && s.subrange(0, date_prefix().len() as int) == date_prefix()
}

/// The input transform of the `date` field: remove the at-rest prefix.
pub open spec fn unwrapped(s: Seq<char>) -> Seq<char>
    recommends
        has_date_prefix(s),
{
    s.subrange(date_prefix().len() as int, s.len() as int)
}

// ---------------------------------------------------------------------------
// JSON string escaping
// ---------------------------------------------------------------------------

/// The sixteen lower-case hexadecimal digits, in order of value.
pub open spec fn hex_digits() -> Seq<char> {
    seq!['0', '1', '2', '3', '4', '5', '6', '7', '8', '9', 'a', 'b', 'c', 'd', 'e', 'f']
}

/// The hexadecimal digit for a value below sixteen.
pub open spec fn hex_digit(v: u32) -> char
    recommends
        v < 16,
{
    hex_digits()[v as int]
}

/// The numeric value of a hexadecimal digit, upper or lower case.
pub open spec fn hex_value(c: char) -> Option<u32> {
    if '0' as u32 <= c as u32 && c as u32 <= '9' as u32 {
        Some((c as u32 - '0' as u32) as u32)
    } else if 'a' as u32 <= c as u32 && c as u32 <= 'f' as u32 {
        Some((c as u32 - 'a' as u32 + 10) as u32)
    } else if 'A' as u32 <= c as u32 && c as u32 <= 'F' as u32 {
        Some((c as u32 - 'A' as u32 + 10) as u32)
    } else {
        None
    }
}

/// How one character appears inside a JSON string value: quote and backslash
/// are escaped with a backslash, control characters as `\u00XX`, and every
/// other character stands for itself.
pub open spec fn escaped_char(c: char) -> Seq<char> {
    if c == '"' {
        seq!['\\', '"']
    } else if c == '\\' {
        seq!['\\', '\\']
    } else if (c as u32) < 0x20 {
        seq!['\\', 'u', '0', '0', hex_digit((c as u32) / 16), hex_digit((c as u32) % 16)]
    } else {
        seq![c]
    }
}

/// A whole text value as it appears between the quotes of a JSON string.
pub open spec fn escaped(s: Seq<char>) -> Seq<char>
    decreases s.len(),
{
    if s.len() == 0 {
        Seq::<char>::empty()
    } else {
        escaped_char(s[0]) + escaped(s.drop_first())
    }
}

/// A character that escaping leaves as it stands.
pub open spec fn is_plain_char(c: char) -> bool {
    c != '"' && c != '\\' && (c as u32) >= 0x20
}

/// Escaping a sequence with one more character at the end appends that
/// character's escape.
pub proof fn lemma_escaped_snoc(s: Seq<char>, c: char)
    ensures
        escaped(s.push(c)) == escaped(s) + escaped_char(c),
    decreases s.len(),
{
    if s.len() == 0 {
        assert(s.push(c).drop_first() =~= Seq::<char>::empty());
        assert(escaped(Seq::<char>::empty()) + escaped_char(c) =~= escaped_char(c));
        assert(escaped(s) + escaped_char(c) =~= escaped_char(c));
    } else {
        assert(s.push(c).drop_first() =~= s.drop_first().push(c));
        lemma_escaped_snoc(s.drop_first(), c);
        assert(escaped(s.push(c)) =~= escaped(s) + escaped_char(c));
    }
}

/// Escaping distributes over concatenation.
pub proof fn lemma_escaped_concat(a: Seq<char>, b: Seq<char>)
    ensures
        escaped(a + b) == escaped(a) + escaped(b),
    decreases b.len(),
{
    if b.len() == 0 {
        assert(a + b =~= a);
        assert(escaped(a) + escaped(b) =~= escaped(a));
    } else {
        let b0 = b.subrange(0, b.len() - 1);
        let c = b[b.len() - 1];
        assert(b =~= b0.push(c));
        assert(a + b =~= (a + b0).push(c));
        lemma_escaped_concat(a, b0);
        lemma_escaped_snoc(a + b0, c);
        lemma_escaped_snoc(b0, c);
        assert(escaped(a + b) =~= escaped(a) + escaped(b));
    }
}

/// Escaping leaves a sequence of plain characters unchanged.
pub proof fn lemma_escaped_plain(s: Seq<char>)
    requires
        forall|i: int| 0 <= i < s.len() ==> is_plain_char(s[i]),
    ensures
        escaped(s) == s,
    decreases s.len(),
{
    if s.len() == 0 {
        assert(escaped(s) =~= s);
    } else {
        lemma_escaped_plain(s.drop_first());
        assert(escaped(s) =~= s);
    }
}

// ---------------------------------------------------------------------------
// The encoded document
// ---------------------------------------------------------------------------

/// A character sequence between double quotes.
pub open spec fn in_quotes(s: Seq<char>) -> Seq<char> {
    seq!['"'] + s + seq!['"']
}

/// The exact document the encoder produces for the given field values:
/// `{"name":"<escaped name>","date":"<escaped "Date: " + date>"}`.
pub open spec fn encoded_doc(name: Seq<char>, date: Seq<char>) -> Seq<char> {
    seq!['{'] + in_quotes(name_key()) + seq![':'] + in_quotes(escaped(name)) + seq![',']
        + in_quotes(date_key()) + seq![':'] + in_quotes(escaped(wrapped(date))) + seq!['}']
}

// ---------------------------------------------------------------------------
// The accepted grammar: a deterministic parser over character sequences
// ---------------------------------------------------------------------------

/// The characters JSON allows between tokens.
pub open spec fn is_ws_char(c: char) -> bool {
    c == ' ' || c == '\n' || c == '\r' || c == '\t'
}

/// The input with its longest whitespace prefix removed.
pub open spec fn skip_ws(s: Seq<char>) -> Seq<char>
    decreases s.len(),
{
    if s.len() > 0 && is_ws_char(s[0]) {
        skip_ws(s.drop_first())
    } else {
        s
    }
}

/// A character that may stand in a non-text scalar token: digits, letters,
/// sign, dot and exponent characters. Numbers, `true`, `false` and `null`
/// all consist of these.
pub open spec fn is_scalar_char(c: char) -> bool {
    ('0' as u32 <= c as u32 && c as u32 <= '9' as u32) || ('a' as u32 <= c as u32 && c as u32
        <= 'z' as u32) || ('A' as u32 <= c as u32 && c as u32 <= 'Z' as u32) || c == '+' || c == '-'
        || c == '.'
}

/// The input with its longest scalar-token prefix removed.
pub open spec fn skip_scalar(s: Seq<char>) -> Seq<char>
    decreases s.len(),
{
    if s.len() > 0 && is_scalar_char(s[0]) {
        skip_scalar(s.drop_first())
    } else {
        s
    }
}

/// One escape sequence, starting after the backslash: the escaped character
/// and the remaining input, or `None` if the escape is not accepted.
/// `\uXXXX` escapes for surrogate code points are not accepted; characters
/// outside the basic plane may stand unescaped instead.
pub open spec fn parse_escape(s: Seq<char>) -> Option<(char, Seq<char>)> {
    if s.len() == 0 {
        None
    } else if s[0] == '"' || s[0] == '\\' || s[0] == '/' {
        Some((s[0], s.drop_first()))
    } else if s[0] == 'b' {
        Some(('\u{8}', s.drop_first()))
    } else if s[0] == 'f' {
        Some(('\u{c}', s.drop_first()))
    } else if s[0] == 'n' {
        Some(('\n', s.drop_first()))
    } else if s[0] == 'r' {
        Some(('\r', s.drop_first()))
    } else if s[0] == 't' {
        Some(('\t', s.drop_first()))
    } else if s[0] == 'u' && s.len() >= 5 {
        match (hex_value(s[1]), hex_value(s[2]), hex_value(s[3]), hex_value(s[4])) {
            (Some(a), Some(b), Some(c), Some(d)) => {
                let v = (a * 4096 + b * 256 + c * 16 + d) as u32;
                if v < 0xD800 || v >= 0xE000 {
                    Some((v as char, s.skip(5)))
                } else {
                    None
                }
            },
            _ => None,
        }
    } else {
        None
    }
}

/// The body of a JSON string, starting after the opening quote: the decoded
/// content and the input after the closing quote, or `None` if the string
/// never closes, holds a raw control character, or holds a bad escape.
pub open spec fn parse_str_rest(s: Seq<char>) -> Option<(Seq<char>, Seq<char>)>
    decreases s.len(),
{
    if s.len() == 0 {
        None
    } else if s[0] == '"' {
        Some((Seq::<char>::empty(), s.drop_first()))
    } else if s[0] == '\\' {
        match parse_escape(s.drop_first()) {
            Some((c, rest)) => if rest.len() < s.len() {
                match parse_str_rest(rest) {
                    Some((t, after)) => Some((seq![c] + t, after)),
                    None => None,
                }
            } else {
                None
            },
            None => None,
        }
    } else if (s[0] as u32) < 0x20 {
        None
    } else {
        match parse_str_rest(s.drop_first()) {
            Some((t, after)) => Some((seq![s[0]] + t, after)),
            None => None,
        }
    }
}

/// One member value: `Some(content)` for a text value, `None` in the first
/// component for a non-text scalar token, whose shape is not checked
/// further. Nested objects and arrays are not accepted as member values.
pub open spec fn parse_value(s: Seq<char>) -> Option<(Option<Seq<char>>, Seq<char>)> {
    if s.len() == 0 {
        None
    } else if s[0] == '"' {
        match parse_str_rest(s.drop_first()) {
            Some((t, rest)) => Some((Some(t), rest)),
            None => None,
        }
    } else if is_scalar_char(s[0]) {
        Some((None, skip_scalar(s)))
    } else {
        None
    }
}

/// One `"key" : value` member, starting at the key's opening quote.
pub open spec fn parse_member(s: Seq<char>) -> Option<((Seq<char>, Option<Seq<char>>), Seq<char>)> {
    if s.len() > 0 && s[0] == '"' {
        match parse_str_rest(s.drop_first()) {
            Some((k, r1)) => {
                let r2 = skip_ws(r1);
                if r2.len() > 0 && r2[0] == ':' {
                    match parse_value(skip_ws(r2.drop_first())) {
                        Some((v, r3)) => Some(((k, v), r3)),
                        None => None,
                    }
                } else {
                    None
                }
            },
            None => None,
        }
    } else {
        None
    }
}

/// What decoding yields once the whole object has been read: both fields
/// must have been seen, and the `date` text must carry the at-rest prefix,
/// which is removed.
pub open spec fn finish(name: Option<Seq<char>>, date: Option<Seq<char>>) -> Result<
    (Seq<char>, Seq<char>),
    DecodeError,
> {
    match name {
        None => Err(DecodeError::MissingField(Field::Name)),
        Some(n) => match date {
            None => Err(DecodeError::MissingField(Field::Date)),
            Some(d) => if has_date_prefix(d) {
                Ok((n, unwrapped(d)))
            } else {
                Err(DecodeError::MissingPrefix)
            },
        },
    }
}

/// The members of the object, starting at the first key's opening quote,
/// with the `name` and `date` texts seen so far. A key equal to `name` or
/// `date` must be bound to text and may occur only once; other keys are
/// read and ignored.
pub open spec fn parse_members(
    s: Seq<char>,
    name: Option<Seq<char>>,
    date: Option<Seq<char>>,
) -> Result<(Seq<char>, Seq<char>), DecodeError>
    decreases s.len(),
{
    match parse_member(s) {
        None => Err(DecodeError::Malformed),
        Some(((k, v), rest)) => {
            if k == name_key() && name is Some {
                Err(DecodeError::DuplicateField(Field::Name))
            } else if k == name_key() && v is None {
                Err(DecodeError::NotText(Field::Name))
            } else if k == date_key() && date is Some {
                Err(DecodeError::DuplicateField(Field::Date))
            } else if k == date_key() && v is None {
                Err(DecodeError::NotText(Field::Date))
            } else {
                let name2 = if k == name_key() {
                    v
                } else {
                    name
                };
                let date2 = if k == date_key() {
                    v
                } else {
                    date
                };
                let r = skip_ws(rest);
                if r.len() > 0 && r[0] == ',' {
                    let next = skip_ws(r.drop_first());
                    if next.len() < s.len() {
                        parse_members(next, name2, date2)
                    } else {
                        Err(DecodeError::Malformed)
                    }
                } else if r.len() > 0 && r[0] == '}' {
                    if skip_ws(r.drop_first()).len() == 0 {
                        finish(name2, date2)
                    } else {
                        Err(DecodeError::Malformed)
                    }
                } else {
                    Err(DecodeError::Malformed)
                }
            }
        },
    }
}

/// What decoding an input means: the `name` and `date` texts of the one
/// JSON object the input holds, after removal of the at-rest prefix, or
/// the error. This function is the decoder's whole contract.
pub open spec fn spec_decode(s: Seq<char>) -> Result<(Seq<char>, Seq<char>), DecodeError> {
    let t = skip_ws(s);
    if t.len() > 0 && t[0] == '{' {
        let u = skip_ws(t.drop_first());
        if u.len() > 0 && u[0] == '}' {
            if skip_ws(u.drop_first()).len() == 0 {
                finish(None, None)
            } else {
                Err(DecodeError::Malformed)
            }
        } else {
            parse_members(u, None, None)
        }
    } else {
        Err(DecodeError::Malformed)
    }
}

} // verus!
