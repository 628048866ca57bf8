//! Writing text so that it can stand in a URI, and reading it back.
use crate::parser::Op;
use vstd::prelude::*;

verus! {

/// Letters, digits and the four marks that never need escaping.
pub open spec fn is_unreserved(c: u8) -> bool {
    ||| '0' as u8 <= c <= '9' as u8
    ||| 'A' as u8 <= c <= 'Z' as u8
    ||| 'a' as u8 <= c <= 'z' as u8
    ||| c == '-' as u8 || c == '.' as u8 || c == '_' as u8 || c == '~' as u8
}

/// The characters that delimit the components of a URI.
pub open spec fn is_gen_delim(c: u8) -> bool {
    ||| c == ':' as u8 || c == '/' as u8 || c == '?' as u8 || c == '#' as u8
    ||| c == '[' as u8 || c == ']' as u8 || c == '@' as u8
}

/// The characters that delimit the data within a component of a URI.
pub open spec fn is_sub_delim(c: u8) -> bool {
    ||| c == '!' as u8 || c == '$' as u8 || c == '&' as u8 || c == '\'' as u8
    ||| c == '(' as u8 || c == ')' as u8 || c == '*' as u8 || c == '+' as u8
    ||| c == ',' as u8 || c == ';' as u8 || c == '=' as u8
}

/// The operators that let reserved characters and escapes through.
pub open spec fn lets_reserved_through(op: Op) -> bool {
    op == Op::Reserved || op == Op::Fragment
}

/// Whether an expression with the operator `op` writes the byte `c` as it is.
pub open spec fn is_allowed(c: u8, op: Op) -> bool {
    is_unreserved(c) || (lets_reserved_through(op) && (is_gen_delim(c) || is_sub_delim(c)))
}

/// The value of a hexadecimal digit.
pub open spec fn hex_value(c: u8) -> Option<u8> {
    if '0' as u8 <= c <= '9' as u8 {
        Some((c - '0' as u8) as u8)
    } else if 'A' as u8 <= c <= 'F' as u8 {
        Some((c - 'A' as u8 + 10) as u8)
    } else if 'a' as u8 <= c <= 'f' as u8 {
        Some((c - 'a' as u8 + 10) as u8)
    } else {
        None
    }
}

/// The upper case hexadecimal digit of the value `d`.
pub open spec fn hex_digit(d: u8) -> char {
    if d < 10 {
        (d + '0' as u8) as u8 as char
    } else {
        (d - 10 + 'A' as u8) as u8 as char
    }
}

/// The escape of a byte: a percent sign and two hexadecimal digits.
pub open spec fn percent_encoded(byte: u8) -> Seq<char> {
    seq!['%', hex_digit(byte / 16), hex_digit(byte % 16)]
}

/// Whether `bytes` begins with an escape.
pub open spec fn starts_with_escape(bytes: Seq<u8>) -> bool {
    &&& bytes.len() >= 3
    &&& bytes[0] == '%' as u8
    &&& hex_value(bytes[1]) is Some
    &&& hex_value(bytes[2]) is Some
}

/// What an expression with the operator `op` writes for `bytes`: it escapes each byte that it
/// does not allow, but for the escapes that an operator for reserved characters lets through.
pub open spec fn escaped(op: Op, bytes: Seq<u8>) -> Seq<char>
    decreases bytes.len(),
{
    if bytes.len() == 0 {
        Seq::empty()
    } else if is_allowed(bytes[0], op) {
        seq![bytes[0] as char] + escaped(op, bytes.skip(1))
    } else if lets_reserved_through(op) && starts_with_escape(bytes) {
        seq!['%', bytes[1] as char, bytes[2] as char] + escaped(op, bytes.skip(3))
    } else {
        percent_encoded(bytes[0]) + escaped(op, bytes.skip(1))
    }
}

/// What an expression with the operator `op` writes for a text.
pub open spec fn escaped_text(op: Op, text: Seq<char>) -> Seq<char> {
    escaped(op, vstd::utf8::encode_utf8(text))
}

/// `bytes` with each escape replaced by the byte that it stands for.
pub open spec fn percent_decoded(bytes: Seq<u8>) -> Seq<u8>
    decreases bytes.len(),
{
    if bytes.len() == 0 {
        Seq::empty()
    } else if starts_with_escape(bytes) {
        seq![(hex_value(bytes[1])->0 * 16 + hex_value(bytes[2])->0) as u8] + percent_decoded(
            bytes.skip(3),
        )
    } else {
        seq![bytes[0]] + percent_decoded(bytes.skip(1))
    }
}

/// Whether an escape stands anywhere in `bytes`.
pub open spec fn holds_escape(bytes: Seq<u8>) -> bool {
    exists|i: int| 0 <= i <= bytes.len() && #[trigger] starts_with_escape(bytes.skip(i))
}

/// Whether an expression with the operator `op` writes the byte `c` as it is.
pub fn allowed_character(c: u8, op: Op) -> (allowed: bool)
    ensures
        allowed == is_allowed(c, op),
{
    let unreserved = ('0' as u8 <= c && c <= '9' as u8) || ('A' as u8 <= c && c <= 'Z' as u8)
        || ('a' as u8 <= c && c <= 'z' as u8) || c == '-' as u8 || c == '.' as u8 || c == '_' as u8
        || c == '~' as u8;
    match op {
        Op::Reserved | Op::Fragment => {
            unreserved || c == ':' as u8 || c == '/' as u8 || c == '?' as u8 || c == '#' as u8 || c
                == '[' as u8 || c == ']' as u8 || c == '@' as u8 || c == '!' as u8 || c == '$' as u8
                || c == '&' as u8 || c == '\'' as u8 || c == '(' as u8 || c == ')' as u8 || c
                == '*' as u8 || c == '+' as u8 || c == ',' as u8 || c == ';' as u8 || c == '=' as u8
        },
        _ => unreserved,
    }
}

/// Whether `c` is a hexadecimal digit.
pub fn is_hex_digit(c: u8) -> (is_digit: bool)
    ensures
        is_digit == (hex_value(c) is Some),
{
    ('0' as u8 <= c && c <= '9' as u8) || ('A' as u8 <= c && c <= 'F' as u8) || ('a' as u8 <= c
        && c <= 'f' as u8)
}

/// The upper case hexadecimal digit of the value `digit`.
pub fn to_hex_digit(digit: u8) -> (c: u8)
    requires
        digit <= 200,
    ensures
        digit < 10 ==> c == '0' as u8 + digit,
        digit >= 10 ==> c == 'A' as u8 - 10 + digit,
{
    if digit < 10 {
        '0' as u8 + digit
    } else {
        'A' as u8 - 10 + digit
    }
}

/// The escape of a byte.
pub fn percent_encode(byte: u8) -> (text: String)
    ensures
        text@ == percent_encoded(byte),
{
    let mut text = String::new();
    text.push('%');
    text.push(to_hex_digit(byte / 16) as char);
    text.push(to_hex_digit(byte % 16) as char);
    assert(text@ =~= percent_encoded(byte));
    text
}

/// Appends what an expression with the operator `op` writes for the text `val`.
pub fn escape_reserved(op: Op, result: &mut String, val: &str)
    ensures
        final(result)@ == old(result)@ + escaped_text(op, val@),
{
    let data = val.as_bytes();
    let mut i: usize = 0;
    assert(data@.skip(0) =~= data@);
    while i < data.len()
        invariant
            i <= data@.len(),
            old(result)@ + escaped(op, data@) == result@ + escaped(op, data@.skip(i as int)),
        decreases data@.len() - i,
    {
        let ghost rest = data@.skip(i as int);
        let ghost before = result@;
        let byte = data[i];
        assert(rest.skip(1) =~= data@.skip(i + 1));
        if allowed_character(byte, op) {
            result.push(byte as char);
            i = i + 1;
            assert(before + escaped(op, rest) =~= result@ + escaped(op, data@.skip(i as int)));
        } else if byte == '%' as u8 && (op == Op::Fragment || op == Op::Reserved) && data.len() - i
            >= 3 && is_hex_digit(data[i + 1]) && is_hex_digit(data[i + 2]) {
            assert(rest.skip(3) =~= data@.skip(i + 3));
            result.push('%');
            result.push(data[i + 1] as char);
            result.push(data[i + 2] as char);
            i = i + 3;
            assert(before + escaped(op, rest) =~= result@ + escaped(op, data@.skip(i as int)));
        } else {
            let escape = percent_encode(byte);
            result.append(&escape);
            i = i + 1;
            assert(before + escaped(op, rest) =~= result@ + escaped(op, data@.skip(i as int)));
        }
    }
    assert(result@ + escaped(op, data@.skip(i as int)) =~= result@);
}

/// Whether `c` is an ASCII character.
pub open spec fn is_ascii(c: char) -> bool {
    '\0' <= c <= '\u{7f}'
}

/// Whether the character at `i` is one that an expression with the operator `op` may write: one
/// that it allows, or a percent sign that two hexadecimal digits follow.
pub open spec fn is_uri_char_at(op: Op, text: Seq<char>, i: int) -> bool {
    ||| is_ascii(text[i]) && is_allowed(text[i] as u8, op)
    ||| {
        &&& text[i] == '%'
        &&& i + 2 < text.len()
        &&& is_ascii(text[i + 1]) && hex_value(text[i + 1] as u8) is Some
        &&& is_ascii(text[i + 2]) && hex_value(text[i + 2] as u8) is Some
    }
}

/// Whether an expression with the operator `op` may write each character of `text`.
pub open spec fn is_uri_text(op: Op, text: Seq<char>) -> bool {
    forall|i: int| 0 <= i < text.len() ==> #[trigger] is_uri_char_at(op, text, i)
}

proof fn lemma_uri_text_concat(op: Op, a: Seq<char>, b: Seq<char>)
    requires
        is_uri_text(op, a),
        is_uri_text(op, b),
    ensures
        is_uri_text(op, a + b),
{
    let text = a + b;
    assert forall|i: int| 0 <= i < text.len() implies #[trigger] is_uri_char_at(op, text, i) by {
        if i < a.len() {
            assert(is_uri_char_at(op, a, i));
        } else {
            assert(is_uri_char_at(op, b, i - a.len()));
        }
    }
}

proof fn lemma_hex_digit(d: u8)
    requires
        d < 16,
    ensures
        is_ascii(hex_digit(d)),
        hex_value(hex_digit(d) as u8) == Some(d),
        is_unreserved(hex_digit(d) as u8),
{
}

/// What an expression writes for a value can stand in a URI.
pub proof fn law_escaped_is_uri_text(op: Op, bytes: Seq<u8>)
    ensures
        is_uri_text(op, escaped(op, bytes)),
    decreases bytes.len(),
{
    if bytes.len() > 0 {
        if is_allowed(bytes[0], op) {
            law_escaped_is_uri_text(op, bytes.skip(1));
            assert(is_uri_text(op, seq![bytes[0] as char]));
            lemma_uri_text_concat(op, seq![bytes[0] as char], escaped(op, bytes.skip(1)));
        } else if lets_reserved_through(op) && starts_with_escape(bytes) {
            law_escaped_is_uri_text(op, bytes.skip(3));
            let head = seq!['%', bytes[1] as char, bytes[2] as char];
            assert(is_uri_char_at(op, head, 0));
            assert(is_uri_text(op, head));
            lemma_uri_text_concat(op, head, escaped(op, bytes.skip(3)));
        } else {
            law_escaped_is_uri_text(op, bytes.skip(1));
            lemma_hex_digit(bytes[0] / 16);
            lemma_hex_digit(bytes[0] % 16);
            assert(is_uri_text(op, percent_encoded(bytes[0])));
            lemma_uri_text_concat(op, percent_encoded(bytes[0]), escaped(op, bytes.skip(1)));
        }
    }
}

/// The bytes of a text that is all ASCII.
pub open spec fn ascii_bytes(text: Seq<char>) -> Seq<u8> {
    Seq::new(text.len(), |i: int| text[i] as u8)
}

/// The encoding of what an expression writes has one byte for each character.
pub proof fn lemma_uri_text_bytes(op: Op, text: Seq<char>)
    requires
        is_uri_text(op, text),
    ensures
        vstd::utf8::is_ascii_chars(text),
        vstd::utf8::encode_utf8(text) == ascii_bytes(text),
{
    assert forall|i: int| 0 <= i < text.len() implies '\0' <= #[trigger] text[i] <= '\u{7f}' by {
        assert(is_uri_char_at(op, text, i));
    }
    vstd::utf8::is_ascii_chars_encode_utf8(text);
    assert(vstd::utf8::encode_utf8(text) =~= ascii_bytes(text));
}

/// What stands after the first byte of bytes without an escape holds none either.
pub proof fn lemma_escape_free_rest(bytes: Seq<u8>)
    requires
        bytes.len() > 0,
        !holds_escape(bytes),
    ensures
        !starts_with_escape(bytes),
        !holds_escape(bytes.skip(1)),
{
    assert(bytes.skip(0) =~= bytes);
    assert forall|i: int| 0 <= i <= bytes.skip(1).len() implies !#[trigger] starts_with_escape(
        bytes.skip(1).skip(i),
    ) by {
        assert(bytes.skip(1).skip(i) =~= bytes.skip(i + 1));
    }
}

/// What an expression writes for bytes is decoded to them, whatever follows it.
pub proof fn lemma_decoding_escaped_first(op: Op, bytes: Seq<u8>, tail: Seq<u8>)
    requires
        lets_reserved_through(op) ==> !holds_escape(bytes),
    ensures
        percent_decoded(ascii_bytes(escaped(op, bytes)) + tail) == bytes + percent_decoded(tail),
    decreases bytes.len(),
{
    let all = ascii_bytes(escaped(op, bytes)) + tail;
    if bytes.len() > 0 {
        if lets_reserved_through(op) {
            lemma_escape_free_rest(bytes);
        }
        let rest = ascii_bytes(escaped(op, bytes.skip(1))) + tail;
        lemma_decoding_escaped_first(op, bytes.skip(1), tail);
        if is_allowed(bytes[0], op) {
            assert(all[0] == bytes[0]);
            assert(all.skip(1) =~= rest);
            assert(percent_decoded(all) =~= bytes + percent_decoded(tail));
        } else {
            lemma_hex_digit(bytes[0] / 16);
            lemma_hex_digit(bytes[0] % 16);
            let b = bytes[0];
            assert((b / 16) * 16 + b % 16 == b);
            assert(all[0] == '%' as u8);
            assert(all[1] == hex_digit(bytes[0] / 16) as u8);
            assert(all[2] == hex_digit(bytes[0] % 16) as u8);
            assert(all.skip(3) =~= rest);
            assert(percent_decoded(all) =~= bytes + percent_decoded(tail));
        }
    } else {
        assert(all =~= tail);
        assert(bytes + percent_decoded(tail) =~= percent_decoded(tail));
    }
}

/// Percent-decoding gives back the bytes that were escaped. An operator that lets escapes through
/// loses the difference between an escape that it wrote and one that it was given, so for such an
/// operator this holds of bytes that hold no escape.
pub proof fn law_decoding_undoes_escaping(op: Op, bytes: Seq<u8>)
    requires
        lets_reserved_through(op) ==> !holds_escape(bytes),
    ensures
        percent_decoded(vstd::utf8::encode_utf8(escaped(op, bytes))) == bytes,
{
    law_escaped_is_uri_text(op, bytes);
    lemma_uri_text_bytes(op, escaped(op, bytes));
    lemma_decoding_escaped_first(op, bytes, Seq::empty());
    assert(ascii_bytes(escaped(op, bytes)) + Seq::<u8>::empty() =~= ascii_bytes(escaped(op, bytes)));
    assert(bytes + percent_decoded(Seq::<u8>::empty()) =~= bytes);
}

/// Decoding leaves bytes without an escape as they are.
pub proof fn law_decoding_keeps_the_rest(bytes: Seq<u8>)
    requires
        !holds_escape(bytes),
    ensures
        percent_decoded(bytes) == bytes,
    decreases bytes.len(),
{
    if bytes.len() > 0 {
        lemma_escape_free_rest(bytes);
        law_decoding_keeps_the_rest(bytes.skip(1));
        assert(seq![bytes[0]] + bytes.skip(1) =~= bytes);
    } else {
        assert(percent_decoded(bytes) =~= bytes);
    }
}

/// An expression that lets no reserved characters through writes nothing but unreserved ones and
/// escapes.
pub proof fn law_escaped_is_unreserved(op: Op, bytes: Seq<u8>, i: int)
    requires
        !lets_reserved_through(op),
        0 <= i < escaped(op, bytes).len(),
    ensures
        is_ascii(escaped(op, bytes)[i]),
        is_unreserved(escaped(op, bytes)[i] as u8) || escaped(op, bytes)[i] == '%',
{
    law_escaped_is_uri_text(op, bytes);
    assert(is_uri_char_at(op, escaped(op, bytes), i));
}

} // verus!
