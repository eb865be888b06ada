//! Laws of the codec: the decoder inverts the encoder.

use crate::model::{
    date_key, date_prefix, encoded_doc, escaped, escaped_char, finish, has_date_prefix, hex_digit,
    hex_value, in_quotes, is_plain_char, lemma_escaped_plain, name_key, parse_escape, parse_member,
    parse_members, parse_str_rest, parse_value, skip_ws, spec_decode, unwrapped, wrapped,
};
use crate::record::DecodeError;
use vstd::prelude::*;

verus! {

/// Reading a hexadecimal digit gives back the value it was written from.
proof fn lemma_hex_value_digit(v: u32)
    requires
        v < 16,
    ensures
        hex_value(hex_digit(v)) == Some(v),
{
}

/// Reading a string body gives back exactly the text it was escaped from,
/// and leaves exactly the input that follows the closing quote.
proof fn lemma_parse_escaped(s: Seq<char>, rest: Seq<char>)
    ensures
        parse_str_rest(escaped(s) + seq!['"'] + rest) == Some((s, rest)),
    decreases s.len(),
{
    if s.len() == 0 {
        let whole = escaped(s) + seq!['"'] + rest;
        assert(whole =~= seq!['"'] + rest);
        assert(whole[0] == '"');
        assert(whole.drop_first() =~= rest);
        assert(s =~= Seq::<char>::empty());
    } else {
        let c = s[0];
        let tail = s.drop_first();
        lemma_parse_escaped(tail, rest);
        let inner = escaped(tail) + seq!['"'] + rest;
        let whole = escaped(s) + seq!['"'] + rest;
        assert(escaped(s) == escaped_char(c) + escaped(tail));
        assert(whole =~= escaped_char(c) + inner);
        if c == '"' || c == '\\' {
            assert(whole[0] == '\\');
            assert(whole.drop_first() =~= seq![c] + inner);
            assert((seq![c] + inner)[0] == c);
            assert((seq![c] + inner).drop_first() =~= inner);
            assert(parse_escape(whole.drop_first()) == Some((c, inner)));
            assert(parse_str_rest(whole) == Some((seq![c] + tail, rest)));
            assert(seq![c] + tail =~= s);
        } else if (c as u32) < 0x20 {
            let u = c as u32;
            let hi = u / 16;
            let lo = u % 16;
            lemma_hex_value_digit(hi);
            lemma_hex_value_digit(lo);
            let esc = seq!['u', '0', '0', hex_digit(hi), hex_digit(lo)] + inner;
            assert(whole[0] == '\\');
            assert(whole.drop_first() =~= esc);
            assert(esc[0] == 'u');
            assert(esc.len() >= 5);
            assert(esc[1] == '0' && esc[2] == '0' && esc[3] == hex_digit(hi) && esc[4] == hex_digit(
                lo,
            ));
            assert(hex_value('0') == Some(0u32));
            assert(0 * 4096 + 0 * 256 + hi * 16 + lo == u);
            assert(u < 0xD800);
            assert(esc.skip(5) =~= inner);
            vstd::utf8::char_u32_cast(c, u);
            assert(parse_escape(whole.drop_first()) == Some((c, inner)));
            assert(parse_str_rest(whole) == Some((seq![c] + tail, rest)));
            assert(seq![c] + tail =~= s);
        } else {
            assert(whole[0] == c);
            assert(whole.drop_first() =~= inner);
            assert(parse_str_rest(whole) == Some((seq![c] + tail, rest)));
            assert(seq![c] + tail =~= s);
        }
    }
}

/// The object keys contain no character that escaping would touch.
proof fn lemma_keys_plain()
    ensures
        escaped(name_key()) == name_key(),
        escaped(date_key()) == date_key(),
        escaped(date_prefix()) == date_prefix(),
{
    assert(forall|i: int| 0 <= i < name_key().len() ==> is_plain_char(name_key()[i]));
    assert(forall|i: int| 0 <= i < date_key().len() ==> is_plain_char(date_key()[i]));
    assert(forall|i: int| 0 <= i < date_prefix().len() ==> is_plain_char(date_prefix()[i]));
    lemma_escaped_plain(name_key());
    lemma_escaped_plain(date_key());
    lemma_escaped_plain(date_prefix());
}

/// One member of the encoded document parses back to its key and text.
proof fn lemma_member(key: Seq<char>, text: Seq<char>, rest: Seq<char>)
    requires
        escaped(key) == key,
    ensures
        parse_member(in_quotes(key) + seq![':'] + in_quotes(escaped(text)) + rest) == Some(
            ((key, Some(text)), rest),
        ),
{
    let whole = in_quotes(key) + seq![':'] + in_quotes(escaped(text)) + rest;
    let r_a = seq![':'] + in_quotes(escaped(text)) + rest;
    assert(whole[0] == '"');
    assert(whole.drop_first() =~= key + seq!['"'] + r_a);
    lemma_parse_escaped(key, r_a);
    assert(parse_str_rest(whole.drop_first()) == Some((key, r_a)));
    assert(r_a[0] == ':');
    assert(skip_ws(r_a) == r_a);
    let r_b = in_quotes(escaped(text)) + rest;
    assert(r_a.drop_first() =~= r_b);
    assert(r_b[0] == '"');
    assert(skip_ws(r_b) == r_b);
    assert(r_b.drop_first() =~= escaped(text) + seq!['"'] + rest);
    lemma_parse_escaped(text, rest);
    assert(parse_value(r_b) == Some((Some(text), rest)));
}

/// **Round-trip law**: decoding an encoded record yields the record.
///
/// For every pair of field values, the document `encoded_doc(name, date)`
/// that [`crate::codec::encode`] produces decodes, per the decoder's
/// contract [`spec_decode`], to exactly `name` and `date`: the at-rest
/// prefix that encoding adds is the prefix that decoding removes, and
/// escaping is undone exactly. In particular this holds for every `date`
/// that does not itself contain the prefix text.
pub proof fn lemma_round_trip(name: Seq<char>, date: Seq<char>)
    ensures
        spec_decode(encoded_doc(name, date)) == Ok::<(Seq<char>, Seq<char>), DecodeError>(
            (name, date),
        ),
{
    lemma_keys_plain();
    let doc = encoded_doc(name, date);
    let n_esc = escaped(name);
    let d_esc = escaped(wrapped(date));
    let m = in_quotes(name_key()) + seq![':'] + in_quotes(n_esc) + (seq![','] + in_quotes(
        date_key(),
    ) + seq![':'] + in_quotes(d_esc) + seq!['}']);
    let r_b = seq![','] + in_quotes(date_key()) + seq![':'] + in_quotes(d_esc) + seq!['}'];
    let m2 = in_quotes(date_key()) + seq![':'] + in_quotes(d_esc) + (seq!['}']);
    assert(doc[0] == '{');
    assert(skip_ws(doc) == doc);
    assert(doc.drop_first() =~= m);
    assert(m[0] == '"');
    assert(skip_ws(m) == m);
    lemma_member(name_key(), name, r_b);
    assert(parse_member(m) == Some(((name_key(), Some(name)), r_b)));
    assert(name_key()[0] == 'n' && date_key()[0] == 'd');
    assert(name_key() != date_key());
    assert(r_b[0] == ',');
    assert(skip_ws(r_b) == r_b);
    assert(r_b.drop_first() =~= m2);
    assert(m2[0] == '"');
    assert(skip_ws(m2) == m2);
    assert(m2.len() < m.len());
    lemma_member(date_key(), wrapped(date), seq!['}']);
    assert(parse_member(m2) == Some(((date_key(), Some(wrapped(date))), seq!['}'])));
    let close = seq!['}'];
    assert(close[0] == '}');
    assert(skip_ws(close) == close);
    assert(close.drop_first() =~= Seq::<char>::empty());
    assert(skip_ws(Seq::<char>::empty()).len() == 0);
    assert(parse_members(m2, Some(name), None) == finish(Some(name), Some(wrapped(date))));
    assert(parse_members(m, None, None) == finish(Some(name), Some(wrapped(date))));
    assert(wrapped(date).subrange(0, date_prefix().len() as int) =~= date_prefix());
    assert(has_date_prefix(wrapped(date)));
    assert(unwrapped(wrapped(date)) =~= date);
    assert(spec_decode(doc) == Ok::<(Seq<char>, Seq<char>), DecodeError>((name, date)));
}

} // verus!
