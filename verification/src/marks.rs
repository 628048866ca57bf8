//! Which characters stand for themselves, and what stands before and between values.
use crate::complete;
use crate::escape;
use crate::form;
use crate::parser::{Op, VarMod};
use crate::render;
use crate::render::Place;
use crate::ser;
use vstd::prelude::*;

verus! {

/// What an expression writes before its first value is the mark with which it stands in a template,
/// but for the plus sign, which is not written. Between the values stands the same mark, but for a
/// query, where that is an ampersand, and where the mark makes no list, where it is a comma.
pub proof fn law_marks_of_operators(op: Op)
    ensures
        ser::op_prefix(op) == (if op == Op::Reserved {
            None
        } else {
            render::op_mark(op)
        }),
        op == Op::Label || op == Op::Path || op == Op::PathParam || op == Op::QueryCont
            ==> ser::op_prefix(op) == Some(ser::op_separator(op)),
        op == Op::Query ==> ser::op_separator(op) == ser::op_separator(Op::QueryCont),
        op == Op::Simple || op == Op::Reserved || op == Op::Fragment ==> ser::op_separator(op)
            == ',',
        ser::is_named(op) <==> ser::op_separator(op) == ';' || ser::op_separator(op) == '&',
{
}

/// Whether a character never needs to be escaped.
pub open spec fn is_bare(c: char) -> bool {
    complete::is_alphanumeric(c) || seq!['-', '.', '_', '~'].contains(c)
}

/// Whether a character delimits the components of a URI, or the data within them.
pub open spec fn is_delimiter(c: char) -> bool {
    seq![
        ':',
        '/',
        '?',
        '#',
        '[',
        ']',
        '@',
        '!',
        '$',
        '&',
        '\'',
        '(',
        ')',
        '*',
        '+',
        ',',
        ';',
        '=',
    ].contains(c)
}

/// Whether an expression writes a byte as it is.
pub open spec fn passes(op: Op, b: u8) -> bool {
    b < 128 && (is_bare(b as char) || (op == Op::Reserved || op == Op::Fragment) && is_delimiter(
        b as char,
    ))
}

/// Whether a character is a hexadecimal digit in upper case.
pub open spec fn is_upper_digit(c: char) -> bool {
    '0' <= c <= '9' || 'A' <= c <= 'F'
}

/// The value of a hexadecimal digit in upper case.
pub open spec fn digit_value(c: char) -> int {
    if '0' <= c <= '9' {
        c as int - '0' as int
    } else {
        10 + (c as int - 'A' as int)
    }
}

proof fn lemma_passes(op: Op, b: u8)
    ensures
        escape::is_allowed(b, op) == passes(op, b),
{
    if b < 128 {
        let c = b as char;
        let marks = seq!['-', '.', '_', '~'];
        let delims = seq![
            ':',
            '/',
            '?',
            '#',
            '[',
            ']',
            '@',
            '!',
            '$',
            '&',
            '\'',
            '(',
            ')',
            '*',
            '+',
            ',',
            ';',
            '=',
        ];
        if marks.contains(c) {
            let i = choose|i: int| 0 <= i < marks.len() && marks[i] == c;
            assert(marks[i] == c);
        } else {
            assert(marks[0] != c && marks[1] != c && marks[2] != c && marks[3] != c);
        }
        if delims.contains(c) {
            let i = choose|i: int| 0 <= i < delims.len() && delims[i] == c;
            assert(delims[i] == c);
        } else {
            assert(delims[0] != c && delims[1] != c && delims[2] != c && delims[3] != c);
            assert(delims[4] != c && delims[5] != c && delims[6] != c && delims[7] != c);
            assert(delims[8] != c && delims[9] != c && delims[10] != c && delims[11] != c);
            assert(delims[12] != c && delims[13] != c && delims[14] != c && delims[15] != c);
            assert(delims[16] != c && delims[17] != c);
        }
    }
}

/// One byte is written as it is where it is a character that never needs to be escaped, or a
/// delimiter that the operator lets through. It is written as a percent sign and its two digits in
/// upper case where it is not.
pub proof fn law_bytes_are_escaped(op: Op, b: u8)
    ensures
        ({
            let out = escape::escaped(op, seq![b]);
            &&& passes(op, b) ==> out == seq![b as char]
            &&& !passes(op, b) ==> out.len() == 3 && out[0] == '%' && is_upper_digit(out[1])
                && is_upper_digit(out[2]) && 16 * digit_value(out[1]) + digit_value(out[2]) == b
        }),
{
    let one = seq![b];
    lemma_passes(op, b);
    assert(one.skip(1) =~= Seq::empty());
    assert(escape::escaped(op, one.skip(1)) =~= Seq::empty());
    let head = if passes(op, b) {
        seq![b as char]
    } else {
        escape::percent_encoded(b)
    };
    assert(head + Seq::<char>::empty() =~= head);
}

/// What is written for bytes is what is written for the first of them and then for the others,
/// where no percent sign among the first could begin an escape that the operator lets through.
pub proof fn law_escaping_goes_byte_by_byte(op: Op, a: Seq<u8>, b: Seq<u8>)
    requires
        (op == Op::Reserved || op == Op::Fragment) ==> !a.contains('%' as u8),
    ensures
        escape::escaped(op, a + b) == escape::escaped(op, a) + escape::escaped(op, b),
    decreases a.len(),
{
    let whole = a + b;
    if a.len() == 0 {
        assert(whole =~= b);
        assert(escape::escaped(op, a) + escape::escaped(op, b) =~= escape::escaped(op, b));
    } else {
        let rest = a.skip(1);
        assert(whole[0] == a[0]);
        assert(a.contains(a[0]));
        assert(whole.skip(1) =~= rest + b);
        assert forall|c: u8| rest.contains(c) implies a.contains(c) by {
            let i = choose|i: int| 0 <= i < rest.len() && rest[i] == c;
            assert(a[i + 1] == c);
        }
        law_escaping_goes_byte_by_byte(op, rest, b);
        let head = if escape::is_allowed(a[0], op) {
            seq![a[0] as char]
        } else {
            escape::percent_encoded(a[0])
        };
        assert(head + (escape::escaped(op, rest) + escape::escaped(op, b)) =~= head
            + escape::escaped(op, rest) + escape::escaped(op, b));
    }
}

/// An operator that lets delimiters through lets an escape through too. The others escape its percent
/// sign.
pub proof fn law_escapes_are_let_through(op: Op, h: char, l: char, rest: Seq<u8>)
    requires
        complete::is_hexadecimal(h),
        complete::is_hexadecimal(l),
    ensures
        op == Op::Reserved || op == Op::Fragment ==> escape::escaped(
            op,
            seq!['%' as u8, h as u8, l as u8] + rest,
        ) == seq!['%', h, l] + escape::escaped(op, rest),
        op != Op::Reserved && op != Op::Fragment ==> escape::escaped(
            op,
            seq!['%' as u8, h as u8, l as u8] + rest,
        ) == seq!['%', '2', '5', h, l] + escape::escaped(op, rest),
{
    let head = seq!['%' as u8, h as u8, l as u8];
    let whole = head + rest;
    assert(whole.skip(3) =~= rest);
    if op != Op::Reserved && op != Op::Fragment {
        law_escaping_goes_byte_by_byte(op, head, rest);
        law_escaping_goes_byte_by_byte(op, seq!['%' as u8, h as u8], seq![l as u8]);
        law_escaping_goes_byte_by_byte(op, seq!['%' as u8], seq![h as u8]);
        law_bytes_are_escaped(op, '%' as u8);
        law_bytes_are_escaped(op, h as u8);
        law_bytes_are_escaped(op, l as u8);
        lemma_passes(op, '%' as u8);
        assert(seq!['%' as u8] + seq![h as u8] =~= seq!['%' as u8, h as u8]);
        assert(seq!['%' as u8, h as u8] + seq![l as u8] =~= head);
        let sign = escape::escaped(op, seq!['%' as u8]);
        assert(sign =~= seq!['%', '2', '5']);
        assert(escape::escaped(op, head) =~= seq!['%', '2', '5', h, l]);
    }
}

/// Whether a character means something else than itself in a regular expression.
pub open spec fn is_special(c: char) -> bool {
    seq![
        '\\',
        '.',
        '+',
        '*',
        '?',
        '(',
        ')',
        '|',
        '[',
        ']',
        '{',
        '}',
        '^',
        '$',
        '#',
        '&',
        '-',
        '~',
    ].contains(c)
}

/// A text is quoted for a regular expression character by character: those that mean something else
/// than themselves come behind a backslash, and the others stay.
pub proof fn law_quoting(a: Seq<char>, b: Seq<char>, c: char)
    ensures
        render::quoted(a + b) == render::quoted(a) + render::quoted(b),
        is_special(c) ==> render::quoted(seq![c]) == seq!['\\', c],
        !is_special(c) ==> render::quoted(seq![c]) == seq![c],
    decreases b.len(),
{
    let marks = seq![
        '\\',
        '.',
        '+',
        '*',
        '?',
        '(',
        ')',
        '|',
        '[',
        ']',
        '{',
        '}',
        '^',
        '$',
        '#',
        '&',
        '-',
        '~',
    ];
    if marks.contains(c) {
        let i = choose|i: int| 0 <= i < marks.len() && marks[i] == c;
        assert(marks[i] == c);
    } else {
        assert(marks[0] != c && marks[1] != c && marks[2] != c && marks[3] != c && marks[4] != c);
        assert(marks[5] != c && marks[6] != c && marks[7] != c && marks[8] != c && marks[9] != c);
        assert(marks[10] != c && marks[11] != c && marks[12] != c && marks[13] != c);
        assert(marks[14] != c && marks[15] != c && marks[16] != c && marks[17] != c);
    }
    assert(seq![c].drop_last() =~= Seq::empty());
    assert(render::quoted(seq![c].drop_last()) =~= Seq::empty());
    assert(Seq::<char>::empty().push('\\').push(c) =~= seq!['\\', c]);
    assert(Seq::<char>::empty().push(c) =~= seq![c]);
    if b.len() == 0 {
        assert(a + b =~= a);
        assert(render::quoted(a) + render::quoted(b) =~= render::quoted(a));
    } else {
        law_quoting(a, b.drop_last(), c);
        assert((a + b).drop_last() =~= a + b.drop_last());
        assert(render::quoted(a + b) =~= render::quoted(a) + render::quoted(b));
    }
}

/// What a group takes of a URI ends where it must: in the path before a query or a fragment, within a
/// segment before the next slash, in the authority before the path, and before the separator of the
/// operator where one value is taken that lets no separator through.
pub proof fn law_groups_end(place: Place, op: Op, modifier: VarMod)
    ensures
        ({
            let stops = render::stops(place, op, modifier);
            &&& place != Place::Auth ==> stops.contains('?') && stops.contains('#')
            &&& stops.contains('/') <==> place == Place::Auth || op != Op::Reserved && (place
                == Place::Path || modifier != VarMod::Explode)
            &&& op != Op::Reserved && modifier != VarMod::Explode ==> stops.contains(
                ser::op_separator(op),
            )
            &&& modifier == VarMod::Explode && op != Op::Path ==> !stops.contains(
                ser::op_separator(op),
            )
        }),
{
    let stops = render::stops(place, op, modifier);
    let last = stops[stops.len() - 1];
    assert(stops.contains(stops[0]) && stops.contains(last));
    if stops.len() > 1 {
        assert(stops.contains(stops[1]));
    }
    if stops.len() > 2 {
        assert(stops.contains(stops[2]));
    }
    if stops.contains('/') {
        let i = choose|i: int| 0 <= i < stops.len() && stops[i] == '/';
        assert(stops[i] == '/');
    }
    if stops.contains(ser::op_separator(op)) {
        let i = choose|i: int| 0 <= i < stops.len() && stops[i] == ser::op_separator(op);
        assert(stops[i] == ser::op_separator(op));
    }
}

proof fn lemma_nowhere(bytes: Seq<u8>, b: u8)
    requires
        !bytes.contains(b),
    ensures
        form::find_byte(bytes, b, 0) == bytes.len(),
{
    form::lemma_find_byte(bytes, b, 0);
    let at = form::find_byte(bytes, b, 0);
    if at < bytes.len() {
        assert(bytes.contains(bytes[at]));
    }
}

proof fn lemma_find_first(name: Seq<u8>, b: u8, behind: Seq<u8>)
    requires
        !name.contains(b),
    ensures
        form::find_byte(name.push(b) + behind, b, 0) == name.len(),
{
    let whole = name.push(b) + behind;
    let at = form::find_byte(whole, b, 0);
    form::lemma_find_byte(whole, b, 0);
    assert(whole[name.len() as int] == b);
    if at < name.len() {
        assert(whole[at] == name[at]);
        assert(name.contains(name[at]));
    }
}

/// A stretch between two separators is a parameter: what stands before the first equals sign is its
/// name, what stands behind it is its value, and without an equals sign the value is empty. An empty
/// stretch is none.
pub proof fn law_one_parameter(sep: u8, name: Seq<u8>, value: Seq<u8>)
    requires
        sep != '=' as u8,
        !name.contains(sep),
        !name.contains('=' as u8),
        !value.contains(sep),
    ensures
        form::pairs(sep, name.push('=' as u8) + value) == seq![
            (form::decoded(name), form::decoded(value)),
        ],
        name.len() > 0 ==> form::pairs(sep, name) == seq![
            (form::decoded(name), Seq::<char>::empty()),
        ],
        form::pairs(sep, Seq::empty()) == Seq::<(Seq<char>, Seq<char>)>::empty(),
{
    let sign = '=' as u8;
    let whole = name.push(sign) + value;
    assert(!whole.contains(sep)) by {
        if whole.contains(sep) {
            let i = choose|i: int| 0 <= i < whole.len() && whole[i] == sep;
            if i < name.len() {
                assert(name.contains(name[i]));
            } else if i > name.len() {
                assert(value.contains(value[i - name.len() - 1]));
            }
        }
    }
    lemma_nowhere(whole, sep);
    lemma_nowhere(name, sep);
    lemma_nowhere(name, sign);
    lemma_find_first(name, sign, value);
    assert(form::before(whole, sep) =~= whole);
    assert(form::before(name, sep) =~= name);
    assert(form::before(name, sign) =~= name);
    assert(form::before(whole, sign) =~= name);
    assert(form::after(whole, sign) =~= value);
    assert(form::pairs(sep, Seq::<u8>::empty()) =~= Seq::empty());
    let one = seq![(form::decoded(name), form::decoded(value))];
    let other = seq![(form::decoded(name), form::decoded(Seq::empty()))];
    assert(one + Seq::<(Seq<char>, Seq<char>)>::empty() =~= one);
    assert(other + Seq::<(Seq<char>, Seq<char>)>::empty() =~= other);
    law_form_characters(Seq::empty());
    assert(escape::ascii_bytes(Seq::empty()) =~= Seq::empty());
    assert(with_spaces(Seq::empty()) =~= Seq::<char>::empty());
}

/// A text with a space in the place of each plus sign.
pub open spec fn with_spaces(s: Seq<char>) -> Seq<char> {
    Seq::new(
        s.len(),
        |i: int|
            if s[i] == '+' {
                ' '
            } else {
                s[i]
            },
    )
}

/// A text of ASCII characters without a percent sign stands for itself in a parameter, but for plus
/// signs, which stand for spaces.
pub proof fn law_form_characters(s: Seq<char>)
    requires
        forall|i: int| 0 <= i < s.len() ==> '\0' <= #[trigger] s[i] <= '\u{7f}' && s[i] != '%',
    ensures
        form::decoded(escape::ascii_bytes(s)) == with_spaces(s),
{
    let t = with_spaces(s);
    let bytes = form::spaced(escape::ascii_bytes(s));
    assert forall|i: int| 0 <= i < t.len() implies '\0' <= #[trigger] t[i] <= '\u{7f}' by {
        assert('\0' <= s[i] <= '\u{7f}');
    }
    assert forall|i: int| 0 <= i < s.len() implies bytes[i] == escape::ascii_bytes(t)[i] && bytes[i]
        != '%' as u8 by {
        assert('\0' <= s[i] <= '\u{7f}' && s[i] != '%');
    }
    assert(bytes =~= escape::ascii_bytes(t));
    assert(!escape::holds_escape(bytes)) by {
        assert forall|i: int| 0 <= i <= bytes.len() implies !#[trigger] escape::starts_with_escape(
            bytes.skip(i),
        ) by {
            if i < bytes.len() {
                assert(bytes.skip(i)[0] == bytes[i]);
            }
        }
    }
    escape::law_decoding_keeps_the_rest(bytes);
    vstd::utf8::is_ascii_chars_encode_utf8(t);
    assert(vstd::utf8::encode_utf8(t) =~= bytes);
    vstd::utf8::encode_utf8_valid_utf8(t);
    vstd::utf8::encode_utf8_decode_utf8(t);
}

} // verus!
