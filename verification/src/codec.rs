//! The executable codec, proved equal to the model in [`crate::model`].

use crate::model::{
    date_key, date_prefix, encoded_doc, escaped, finish, has_date_prefix, hex_digit, hex_value,
    is_scalar_char, is_ws_char, lemma_escaped_concat, lemma_escaped_plain, lemma_escaped_snoc,
    name_key, parse_escape, parse_member, parse_members, parse_str_rest, parse_value, skip_scalar,
    skip_ws, spec_decode, unwrapped, wrapped,
};
use crate::record::{DecodeError, Field, Record};
use vstd::prelude::*;
use vstd::string::{StrSliceExecFns, StringExecFns};

verus! {

// ---------------------------------------------------------------------------
// Trusted items
// ---------------------------------------------------------------------------

/// Relies on `String::push`: appends the given character to the end of the
/// string.
#[verifier::external_body]
fn push_char(s: &mut String, c: char)
    ensures
        final(s)@ == old(s)@.push(c),
{
    s.push(c);
}

/// Relies on `char::from_u32`: returns `Some` exactly for Unicode scalar
/// values, that is everything up to 0x10FFFF except the surrogate range, and
/// the character returned has the argument as its code point.
#[verifier::external_body]
fn char_from_u32(v: u32) -> (r: Option<char>)
    ensures
        (r is Some) == (v < 0xD800 || (0xE000 <= v && v <= 0x10FFFF)),
        (r matches Some(c) ==> c == (v as char)),
{
    char::from_u32(v)
}

// ---------------------------------------------------------------------------
// Characters of a text value
// ---------------------------------------------------------------------------

/// The characters of a string slice, one by one.
fn to_chars(s: &str) -> (v: Vec<char>)
    ensures
        v@ == s@,
{
    let n = s.unicode_len();
    let mut v: Vec<char> = Vec::new();
    let mut i: usize = 0;
    while i < n
        invariant
            i <= n,
            n == s@.len(),
            v@ == s@.subrange(0, i as int),
        decreases n - i,
    {
        let c = s.get_char(i);
        v.push(c);
        proof {
            assert(v@ =~= s@.subrange(0, (i + 1) as int));
        }
        i = i + 1;
    }
    proof {
        assert(s@.subrange(0, s@.len() as int) =~= s@);
    }
    v
}

// ---------------------------------------------------------------------------
// Encoding
// ---------------------------------------------------------------------------

/// The hexadecimal digit for a value below sixteen.
fn hex_digit_exec(v: u32) -> (c: char)
    requires
        v < 16,
    ensures
        c == hex_digit(v),
{
    if v == 0 {
        '0'
    } else if v == 1 {
        '1'
    } else if v == 2 {
        '2'
    } else if v == 3 {
        '3'
    } else if v == 4 {
        '4'
    } else if v == 5 {
        '5'
    } else if v == 6 {
        '6'
    } else if v == 7 {
        '7'
    } else if v == 8 {
        '8'
    } else if v == 9 {
        '9'
    } else if v == 10 {
        'a'
    } else if v == 11 {
        'b'
    } else if v == 12 {
        'c'
    } else if v == 13 {
        'd'
    } else if v == 14 {
        'e'
    } else {
        'f'
    }
}

/// Appends the escaped form of the given characters to the output.
fn push_escaped(out: &mut String, s: &Vec<char>)
    ensures
        final(out)@ == old(out)@ + escaped(s@),
{
    let mut i: usize = 0;
    while i < s.len()
        invariant
            i <= s@.len(),
            out@ == old(out)@ + escaped(s@.subrange(0, i as int)),
        decreases s@.len() - i,
    {
        let c = s[i];
        let ghost done = s@.subrange(0, i as int);
        proof {
            assert(s@.subrange(0, (i + 1) as int) =~= done.push(c));
            lemma_escaped_snoc(done, c);
        }
        if c == '"' {
            push_char(out, '\\');
            push_char(out, '"');
            proof {
                assert(out@ =~= old(out)@ + escaped(done.push(c)));
            }
        } else if c == '\\' {
            push_char(out, '\\');
            push_char(out, '\\');
            proof {
                assert(out@ =~= old(out)@ + escaped(done.push(c)));
            }
        } else if (c as u32) < 0x20 {
            let code = c as u32;
            push_char(out, '\\');
            push_char(out, 'u');
            push_char(out, '0');
            push_char(out, '0');
            push_char(out, hex_digit_exec(code / 16));
            push_char(out, hex_digit_exec(code % 16));
            proof {
                assert(out@ =~= old(out)@ + escaped(done.push(c)));
            }
        } else {
            push_char(out, c);
            proof {
                assert(out@ =~= old(out)@ + escaped(done.push(c)));
            }
        }
        i = i + 1;
    }
    proof {
        assert(s@.subrange(0, s@.len() as int) =~= s@);
    }
}

/// Encodes a record as the at-rest document: a JSON object with the keys
/// `name` and `date`, the `date` value carrying the prefix `"Date: "`.
/// Encoding is total: it succeeds for every record.
pub fn encode(rec: &Record) -> (r: String)
    ensures
        r@ == encoded_doc(rec.name@, rec.date@),
{
    let mut out = String::new();
    out.append("{\"name\":\"");
    let nv = to_chars(rec.name.as_str());
    push_escaped(&mut out, &nv);
    out.append("\",\"date\":\"Date: ");
    let dv = to_chars(rec.date.as_str());
    push_escaped(&mut out, &dv);
    out.append("\"}");
    proof {
        reveal_strlit("{\"name\":\"");
        reveal_strlit("\",\"date\":\"Date: ");
        reveal_strlit("\"}");
        let head = seq!['{', '"', 'n', 'a', 'm', 'e', '"', ':', '"'];
        let mid = seq!['"', ',', '"', 'd', 'a', 't', 'e', '"', ':', '"', 'D', 'a', 't', 'e', ':', ' '];
        let tail = seq!['"', '}'];
        assert("{\"name\":\""@ =~= head);
        assert("\",\"date\":\"Date: "@ =~= mid);
        assert("\"}"@ =~= tail);
        lemma_escaped_concat(date_prefix(), rec.date@);
        lemma_escaped_plain(date_prefix());
        assert(escaped(wrapped(rec.date@)) == date_prefix() + escaped(rec.date@));
        assert(out@ =~= encoded_doc(rec.name@, rec.date@));
    }
    out
}

// ---------------------------------------------------------------------------
// Decoding: scanners over the character vector
// ---------------------------------------------------------------------------

/// The text a field accumulator holds, if it holds one.
spec fn opt_view(o: Option<String>) -> Option<Seq<char>> {
    match o {
        Some(s) => Some(s@),
        None => None,
    }
}

/// Whether position `j` holds a whitespace character.
fn at_ws(v: &Vec<char>, j: usize) -> (b: bool)
    requires
        j <= v@.len(),
    ensures
        b == (j < v@.len() && is_ws_char(v@[j as int])),
{
    if j < v.len() {
        let c = v[j];
        c == ' ' || c == '\n' || c == '\r' || c == '\t'
    } else {
        false
    }
}

/// Advances past whitespace, mirroring [`skip_ws`].
fn skip_ws_exec(v: &Vec<char>, i: usize) -> (j: usize)
    requires
        i <= v@.len(),
    ensures
        i <= j <= v@.len(),
        v@.skip(j as int) == skip_ws(v@.skip(i as int)),
{
    let mut j: usize = i;
    while at_ws(v, j)
        invariant
            i <= j <= v@.len(),
            skip_ws(v@.skip(j as int)) == skip_ws(v@.skip(i as int)),
        decreases v@.len() - j,
    {
        let n: usize = v.len();
        proof {
            assert(j < n);
            assert(v@.skip(j as int)[0] == v@[j as int]);
            assert(v@.skip(j as int).drop_first() =~= v@.skip(j as int + 1));
        }
        j = j + 1;
    }
    proof {
        assert(v@.skip(j as int) == skip_ws(v@.skip(j as int)));
    }
    j
}

/// Whether position `j` holds a scalar-token character.
fn at_scalar(v: &Vec<char>, j: usize) -> (b: bool)
    requires
        j <= v@.len(),
    ensures
        b == (j < v@.len() && is_scalar_char(v@[j as int])),
{
    if j < v.len() {
        let c = v[j];
        let u = c as u32;
        ('0' as u32 <= u && u <= '9' as u32) || ('a' as u32 <= u && u <= 'z' as u32) || ('A' as u32
            <= u && u <= 'Z' as u32) || c == '+' || c == '-' || c == '.'
    } else {
        false
    }
}

/// A scalar token never grows under [`skip_scalar`].
proof fn lemma_skip_scalar_len(s: Seq<char>)
    ensures
        skip_scalar(s).len() <= s.len(),
    decreases s.len(),
{
    if s.len() > 0 && is_scalar_char(s[0]) {
        lemma_skip_scalar_len(s.drop_first());
    }
}

/// Advances past a scalar token, mirroring [`skip_scalar`].
fn scan_scalar(v: &Vec<char>, i: usize) -> (j: usize)
    requires
        i <= v@.len(),
    ensures
        i <= j <= v@.len(),
        v@.skip(j as int) == skip_scalar(v@.skip(i as int)),
{
    let mut j: usize = i;
    while at_scalar(v, j)
        invariant
            i <= j <= v@.len(),
            skip_scalar(v@.skip(j as int)) == skip_scalar(v@.skip(i as int)),
        decreases v@.len() - j,
    {
        let n: usize = v.len();
        proof {
            assert(j < n);
            assert(v@.skip(j as int)[0] == v@[j as int]);
            assert(v@.skip(j as int).drop_first() =~= v@.skip(j as int + 1));
        }
        j = j + 1;
    }
    proof {
        assert(v@.skip(j as int) == skip_scalar(v@.skip(j as int)));
    }
    j
}

/// The numeric value of a hexadecimal digit, mirroring [`hex_value`].
fn hex_value_exec(c: char) -> (r: Option<u32>)
    ensures
        r == hex_value(c),
{
    let u = c as u32;
    if '0' as u32 <= u && u <= '9' as u32 {
        Some(u - '0' as u32)
    } else if 'a' as u32 <= u && u <= 'f' as u32 {
        Some(u - 'a' as u32 + 10)
    } else if 'A' as u32 <= u && u <= 'F' as u32 {
        Some(u - 'A' as u32 + 10)
    } else {
        None
    }
}

/// Reads one escape sequence starting after the backslash, mirroring
/// [`parse_escape`].
fn scan_escape(v: &Vec<char>, i: usize) -> (r: Option<(char, usize)>)
    requires
        i <= v@.len(),
    ensures
        (match parse_escape(v@.skip(i as int)) {
            Some(p) => (r matches Some(q) && q.0 == p.0 && i < q.1 <= v@.len() && v@.skip(
                q.1 as int,
            ) == p.1),
            None => r is None,
        }),
{
    let n: usize = v.len();
    if i == n {
        proof {
            assert(v@.skip(i as int).len() == 0);
        }
        return None;
    }
    let e = v[i];
    proof {
        assert(v@.skip(i as int)[0] == e);
        assert(v@.skip(i as int).drop_first() =~= v@.skip(i as int + 1));
    }
    if e == '"' || e == '\\' || e == '/' || e == 'b' || e == 'f' || e == 'n' || e == 'r' || e
        == 't' {
        let d: char = if e == 'b' {
            '\u{8}'
        } else if e == 'f' {
            '\u{c}'
        } else if e == 'n' {
            '\n'
        } else if e == 'r' {
            '\r'
        } else if e == 't' {
            '\t'
        } else {
            e
        };
        Some((d, i + 1))
    } else if e == 'u' {
        if n - i < 5 {
            proof {
                assert(v@.skip(i as int).len() < 5);
            }
            return None;
        }
        proof {
            assert(v@.skip(i as int).len() >= 5);
            assert(v@.skip(i as int)[1] == v@[i as int + 1]);
            assert(v@.skip(i as int)[2] == v@[i as int + 2]);
            assert(v@.skip(i as int)[3] == v@[i as int + 3]);
            assert(v@.skip(i as int)[4] == v@[i as int + 4]);
            assert(v@.skip(i as int).skip(5) =~= v@.skip(i as int + 5));
        }
        let h3 = hex_value_exec(v[i + 1]);
        let h2 = hex_value_exec(v[i + 2]);
        let h1 = hex_value_exec(v[i + 3]);
        let h0 = hex_value_exec(v[i + 4]);
        if h3.is_none() || h2.is_none() || h1.is_none() || h0.is_none() {
            return None;
        }
        let a = h3.unwrap();
        let b = h2.unwrap();
        let c = h1.unwrap();
        let d = h0.unwrap();
        let val = a * 4096 + b * 256 + c * 16 + d;
        if val < 0xD800 || val >= 0xE000 {
            let ch = char_from_u32(val).unwrap();
            Some((ch, i + 5))
        } else {
            None
        }
    } else {
        None
    }
}

/// Reads a string body starting after the opening quote, mirroring
/// [`parse_str_rest`]: the decoded content and the position after the
/// closing quote.
fn scan_string(v: &Vec<char>, i: usize) -> (r: Option<(String, usize)>)
    requires
        i <= v@.len(),
    ensures
        (match parse_str_rest(v@.skip(i as int)) {
            Some(p) => (r matches Some(q) && q.0@ == p.0 && i < q.1 <= v@.len() && v@.skip(
                q.1 as int,
            ) == p.1),
            None => r is None,
        }),
{
    let mut out = String::new();
    let mut j: usize = i;
    loop
        invariant
            i <= j <= v@.len(),
            (match parse_str_rest(v@.skip(j as int)) {
                Some(p) => (parse_str_rest(v@.skip(i as int)) matches Some(p0) && p0.0 == out@
                    + p.0 && p0.1 == p.1),
                None => parse_str_rest(v@.skip(i as int)) is None,
            }),
        decreases v@.len() - j,
    {
        if j == v.len() {
            proof {
                assert(v@.skip(j as int).len() == 0);
            }
            return None;
        }
        let c = v[j];
        proof {
            assert(v@.skip(j as int)[0] == c);
            assert(v@.skip(j as int).drop_first() =~= v@.skip(j as int + 1));
        }
        if c == '"' {
            proof {
                assert(parse_str_rest(v@.skip(j as int)) == Some(
                    (Seq::<char>::empty(), v@.skip(j as int + 1)),
                ));
                assert(out@ + Seq::<char>::empty() =~= out@);
            }
            return Some((out, j + 1));
        } else if c == '\\' {
            let eres = scan_escape(v, j + 1);
            if eres.is_none() {
                return None;
            }
            let (d, j2) = eres.unwrap();
            proof {
                assert(v@.skip(j2 as int).len() < v@.skip(j as int).len());
                let rec = parse_str_rest(v@.skip(j2 as int));
                if rec is Some {
                    let t = rec->Some_0.0;
                    assert(parse_str_rest(v@.skip(j as int)) == Some((seq![d] + t, rec->Some_0.1)));
                    assert(out@ + (seq![d] + t) =~= out@.push(d) + t);
                } else {
                    assert(parse_str_rest(v@.skip(j as int)) is None);
                }
            }
            push_char(&mut out, d);
            j = j2;
        } else if (c as u32) < 0x20 {
            return None;
        } else {
            proof {
                let rec = parse_str_rest(v@.skip(j as int + 1));
                if rec is Some {
                    let t = rec->Some_0.0;
                    assert(parse_str_rest(v@.skip(j as int)) == Some((seq![c] + t, rec->Some_0.1)));
                    assert(out@ + (seq![c] + t) =~= out@.push(c) + t);
                } else {
                    assert(parse_str_rest(v@.skip(j as int)) is None);
                }
            }
            push_char(&mut out, c);
            j = j + 1;
        }
    }
}

/// Reads one member value, mirroring [`parse_value`]: `Some` content for a
/// text value, `None` content for a non-text scalar token.
fn scan_value(v: &Vec<char>, i: usize) -> (r: Option<(Option<String>, usize)>)
    requires
        i <= v@.len(),
    ensures
        (match parse_value(v@.skip(i as int)) {
            Some(p) => (r matches Some(q) && opt_view(q.0) == p.0 && i < q.1 <= v@.len()
                && v@.skip(q.1 as int) == p.1),
            None => r is None,
        }),
{
    if i == v.len() {
        proof {
            assert(v@.skip(i as int).len() == 0);
        }
        return None;
    }
    let c = v[i];
    proof {
        assert(v@.skip(i as int)[0] == c);
        assert(v@.skip(i as int).drop_first() =~= v@.skip(i as int + 1));
    }
    if c == '"' {
        match scan_string(v, i + 1) {
            Some((s, j)) => Some((Some(s), j)),
            None => None,
        }
    } else if at_scalar(v, i) {
        let j = scan_scalar(v, i);
        proof {
            lemma_skip_scalar_len(v@.skip(i as int + 1));
            assert(skip_scalar(v@.skip(i as int)) == skip_scalar(v@.skip(i as int + 1)));
        }
        Some((None, j))
    } else {
        None
    }
}

// ---------------------------------------------------------------------------
// Decoding: the top level
// ---------------------------------------------------------------------------

/// Removes the at-rest prefix `"Date: "` from a text value, or reports that
/// the value does not carry it.
fn strip_date_prefix(d: &String) -> (r: Option<String>)
    ensures
        (r is Some) == has_date_prefix(d@),
        (r matches Some(s) ==> s@ == unwrapped(d@)),
{
    let dc = to_chars(d.as_str());
    if dc.len() >= 6 && dc[0] == 'D' && dc[1] == 'a' && dc[2] == 't' && dc[3] == 'e' && dc[4] == ':'
        && dc[5] == ' ' {
        proof {
            assert(d@.subrange(0, 6) =~= date_prefix());
        }
        let mut out = String::new();
        let mut k: usize = 6;
        while k < dc.len()
            invariant
                6 <= k <= dc@.len(),
                dc@ == d@,
                out@ == d@.subrange(6, k as int),
            decreases dc@.len() - k,
        {
            push_char(&mut out, dc[k]);
            proof {
                assert(d@.subrange(6, k as int).push(d@[k as int]) =~= d@.subrange(
                    6,
                    k as int + 1,
                ));
            }
            k = k + 1;
        }
        proof {
            assert(out@ =~= unwrapped(d@));
        }
        Some(out)
    } else {
        proof {
            if has_date_prefix(d@) {
                assert(d@.subrange(0, 6)[0] == d@[0]);
                assert(d@.subrange(0, 6)[1] == d@[1]);
                assert(d@.subrange(0, 6)[2] == d@[2]);
                assert(d@.subrange(0, 6)[3] == d@[3]);
                assert(d@.subrange(0, 6)[4] == d@[4]);
                assert(d@.subrange(0, 6)[5] == d@[5]);
                assert(false);
            }
        }
        None
    }
}

/// Decodes an at-rest document into a record.
///
/// The input must be one JSON object holding text values under the keys
/// `name` and `date`, the `date` text beginning with the prefix `"Date: "`,
/// which is removed. The contract says exactly which input yields which
/// error: anything not of the accepted shape is rejected, never defaulted.
pub fn decode(text: &str) -> (r: Result<Record, DecodeError>)
    ensures
        (match spec_decode(text@) {
            Ok(p) => (r matches Ok(rec) && rec.name@ == p.0 && rec.date@ == p.1),
            Err(e) => (r matches Err(e2) && e2 == e),
        }),
{
    let v = to_chars(text);
    let n: usize = v.len();
    proof {
        assert(v@.skip(0) =~= v@);
    }
    let i0 = skip_ws_exec(&v, 0);
    if i0 == n {
        return Err(DecodeError::Malformed);
    }
    let c0 = v[i0];
    proof {
        assert(v@.skip(i0 as int)[0] == c0);
    }
    if c0 != '{' {
        return Err(DecodeError::Malformed);
    }
    proof {
        assert(v@.skip(i0 as int).drop_first() =~= v@.skip(i0 as int + 1));
    }
    let i1 = skip_ws_exec(&v, i0 + 1);
    if i1 < n && v[i1] == '}' {
        proof {
            assert(v@.skip(i1 as int)[0] == v@[i1 as int]);
            assert(v@.skip(i1 as int).drop_first() =~= v@.skip(i1 as int + 1));
        }
        let i2 = skip_ws_exec(&v, i1 + 1);
        if i2 == n {
            proof {
                assert(v@.skip(i2 as int).len() == 0);
            }
            return Err(DecodeError::MissingField(Field::Name));
        } else {
            return Err(DecodeError::Malformed);
        }
    }
    let mut name: Option<String> = None;
    let mut date: Option<String> = None;
    let mut i: usize = i1;
    proof {
        assert(spec_decode(text@) == parse_members(v@.skip(i as int), opt_view(name), opt_view(date)));
    }
    loop
        invariant
            i <= v@.len(),
            v@ == text@,
            n == v@.len(),
            spec_decode(text@) == parse_members(
                v@.skip(i as int),
                opt_view(name),
                opt_view(date),
            ),
        decreases v@.len() - i,
    {
        if i == n {
            proof {
                assert(v@.skip(i as int).len() == 0);
            }
            return Err(DecodeError::Malformed);
        }
        let c = v[i];
        proof {
            assert(v@.skip(i as int)[0] == c);
            assert(v@.skip(i as int).drop_first() =~= v@.skip(i as int + 1));
        }
        if c != '"' {
            return Err(DecodeError::Malformed);
        }
        let sres = scan_string(&v, i + 1);
        if sres.is_none() {
            return Err(DecodeError::Malformed);
        }
        let (k, j1) = sres.unwrap();
        let j2 = skip_ws_exec(&v, j1);
        if j2 == n {
            return Err(DecodeError::Malformed);
        }
        proof {
            assert(v@.skip(j2 as int)[0] == v@[j2 as int]);
        }
        if v[j2] != ':' {
            return Err(DecodeError::Malformed);
        }
        proof {
            assert(v@.skip(j2 as int).drop_first() =~= v@.skip(j2 as int + 1));
        }
        let j3 = skip_ws_exec(&v, j2 + 1);
        let vres = scan_value(&v, j3);
        if vres.is_none() {
            return Err(DecodeError::Malformed);
        }
        let (val, j4) = vres.unwrap();
        proof {
            assert(parse_member(v@.skip(i as int)) == Some(
                ((k@, opt_view(val)), v@.skip(j4 as int)),
            ));
        }
        let nm = String::from_str("name");
        let dk = String::from_str("date");
        let is_name = k == nm;
        let is_date = k == dk;
        proof {
            reveal_strlit("name");
            reveal_strlit("date");
            assert(nm@ =~= name_key());
            assert(dk@ =~= date_key());
        }
        if is_name && name.is_some() {
            return Err(DecodeError::DuplicateField(Field::Name));
        }
        if is_name && val.is_none() {
            return Err(DecodeError::NotText(Field::Name));
        }
        if is_date && date.is_some() {
            return Err(DecodeError::DuplicateField(Field::Date));
        }
        if is_date && val.is_none() {
            return Err(DecodeError::NotText(Field::Date));
        }
        if is_name {
            name = val;
        } else if is_date {
            date = val;
        }
        let j5 = skip_ws_exec(&v, j4);
        if j5 == n {
            return Err(DecodeError::Malformed);
        }
        proof {
            assert(v@.skip(j5 as int)[0] == v@[j5 as int]);
            assert(v@.skip(j5 as int).drop_first() =~= v@.skip(j5 as int + 1));
        }
        if v[j5] == ',' {
            let i_new = skip_ws_exec(&v, j5 + 1);
            proof {
                assert(v@.skip(i_new as int).len() < v@.skip(i as int).len());
                assert(spec_decode(text@) == parse_members(
                    v@.skip(i_new as int),
                    opt_view(name),
                    opt_view(date),
                ));
            }
            i = i_new;
        } else if v[j5] == '}' {
            let i6 = skip_ws_exec(&v, j5 + 1);
            if i6 != n {
                return Err(DecodeError::Malformed);
            }
            proof {
                assert(v@.skip(i6 as int).len() == 0);
                assert(spec_decode(text@) == finish(opt_view(name), opt_view(date)));
            }
            match name {
                None => {
                    return Err(DecodeError::MissingField(Field::Name));
                },
                Some(nv) => {
                    match date {
                        None => {
                            return Err(DecodeError::MissingField(Field::Date));
                        },
                        Some(dv) => {
                            match strip_date_prefix(&dv) {
                                None => {
                                    return Err(DecodeError::MissingPrefix);
                                },
                                Some(stripped) => {
                                    return Ok(Record { name: nv, date: stripped });
                                },
                            }
                        },
                    }
                },
            }
        } else {
            return Err(DecodeError::Malformed);
        }
    }
}

} // verus!
