//! What is written into a URI is read back from it.
use crate::binding;
use crate::de;
use crate::de::SpecOfBinding;
use crate::escape;
use crate::form;
use crate::parser;
use crate::parser::{Op, SpecOfExpression, SpecOfParsed, SpecOfPart, SpecOfVar, VarMod};
use crate::render;
use crate::render::Place;
use crate::ser;
use crate::text;
use crate::{FillPolicy, SpecOfError};
use vstd::prelude::*;

verus! {

/// Whether a text is not empty and all its characters are letters, digits or marks that need no
/// escape.
pub open spec fn is_plain(s: Seq<char>) -> bool {
    &&& s.len() > 0
    &&& forall|i: int|
        0 <= i < s.len() ==> escape::is_ascii(#[trigger] s[i]) && escape::is_unreserved(s[i] as u8)
}

/// A name and its value, which is encoded, as a query holds them.
pub open spec fn parameter(pair: (Seq<char>, Seq<char>)) -> Seq<char> {
    pair.0.push('=') + pair.1
}

/// Names and their values, which are encoded, as a query holds them.
pub open spec fn parameters(list: Seq<(Seq<char>, Seq<char>)>) -> Seq<Seq<char>> {
    Seq::new(list.len(), |i: int| parameter(list[i]))
}

/// Names and their values, which are encoded, with `sep` between them.
pub open spec fn parameters_text(sep: char, list: Seq<(Seq<char>, Seq<char>)>) -> Seq<char> {
    text::join(parameters(list), seq![sep])
}

/// The query that names and their values, which are encoded, make.
pub open spec fn query_text(list: Seq<(Seq<char>, Seq<char>)>) -> Seq<char> {
    parameters_text('&', list)
}

/// Names and values, with the values encoded.
pub open spec fn encoded(list: Seq<(Seq<char>, Seq<char>)>) -> Seq<(Seq<char>, Seq<char>)> {
    Seq::new(list.len(), |i: int| (list[i].0, escape::escaped_text(Op::Query, list[i].1)))
}

/// Names and values, with the values decoded.
pub open spec fn decoded(list: Seq<(Seq<char>, Seq<char>)>) -> Seq<(Seq<char>, Seq<char>)> {
    Seq::new(
        list.len(),
        |i: int| (list[i].0, form::decoded(vstd::utf8::encode_utf8(list[i].1))),
    )
}

/// Whether names and values can be told from one another where `sep` stands between them.
pub open spec fn are_bare(sep: char, list: Seq<(Seq<char>, Seq<char>)>) -> bool {
    forall|i: int|
        0 <= i < list.len() ==> is_bare(sep, (#[trigger] list[i]).0) && !list[i].1.contains(sep)
}

/// Whether a character stands neither in a plain name nor in an escaped value, nor between them.
pub open spec fn is_separator(sep: char) -> bool {
    escape::is_ascii(sep) && !escape::is_unreserved(sep as u8) && sep != '%' && sep != '='
}

/// Whether a name can stand before a value as it is, where `sep` stands between names and values: it
/// holds neither that nor an equals sign, and nothing that is decoded.
pub open spec fn is_bare(sep: char, s: Seq<char>) -> bool {
    forall|i: int|
        0 <= i < s.len() ==> #[trigger] s[i] != sep && s[i] != '=' && s[i] != '%' && s[i] != '+'
}

/// Plain names can stand as they are.
pub proof fn lemma_plain_is_bare(sep: char, s: Seq<char>)
    requires
        is_separator(sep),
        is_plain(s),
    ensures
        is_bare(sep, s),
{
    assert forall|i: int| 0 <= i < s.len() implies #[trigger] s[i] != sep && s[i] != '=' && s[i]
        != '%' && s[i] != '+' by {
        assert(escape::is_unreserved(s[i] as u8));
    }
}

proof fn lemma_ascii(s: Seq<char>)
    requires
        forall|i: int| 0 <= i < s.len() ==> escape::is_ascii(#[trigger] s[i]),
    ensures
        vstd::utf8::encode_utf8(s) == escape::ascii_bytes(s),
{
    vstd::utf8::is_ascii_chars_encode_utf8(s);
    assert(vstd::utf8::encode_utf8(s) =~= escape::ascii_bytes(s));
}

proof fn lemma_no_percent(bytes: Seq<u8>)
    requires
        forall|i: int| 0 <= i < bytes.len() ==> #[trigger] bytes[i] != '%' as u8,
    ensures
        !escape::holds_escape(bytes),
{
    assert forall|i: int| 0 <= i <= bytes.len() implies !#[trigger] escape::starts_with_escape(
        bytes.skip(i),
    ) by {
        if i < bytes.len() {
            assert(bytes.skip(i)[0] == bytes[i]);
        }
    }
}

proof fn lemma_bytes_of_scalar(v: u32)
    ensures
        vstd::utf8::has_width_1_encoding(v) ==> vstd::utf8::leading_byte_width_1(v) == v,
        vstd::utf8::leading_byte_width_2(v) >= 0x80,
        vstd::utf8::leading_byte_width_3(v) >= 0x80,
        vstd::utf8::leading_byte_width_4(v) >= 0x80,
        vstd::utf8::last_continuation_byte(v) >= 0x80,
        vstd::utf8::second_last_continuation_byte(v) >= 0x80,
        vstd::utf8::third_last_continuation_byte(v) >= 0x80,
{
    assert(v <= 0x7F ==> ((v & 0x7F) as u8) == v) by (bit_vector);
    assert((0xC0u8 | (((v >> 6) & 0x1F) as u8)) >= 0x80) by (bit_vector);
    assert((0xE0u8 | (((v >> 12) & 0x0F) as u8)) >= 0x80) by (bit_vector);
    assert((0xF0u8 | (((v >> 18) & 0x7) as u8)) >= 0x80) by (bit_vector);
    assert((0x80u8 | ((v & 0x3F) as u8)) >= 0x80) by (bit_vector);
    assert((0x80u8 | (((v >> 6) & 0x3F) as u8)) >= 0x80) by (bit_vector);
    assert((0x80u8 | (((v >> 12) & 0x3F) as u8)) >= 0x80) by (bit_vector);
}

proof fn lemma_bytes_without(s: Seq<char>, c: char)
    requires
        escape::is_ascii(c),
        forall|i: int| 0 <= i < s.len() ==> #[trigger] s[i] != c,
    ensures
        forall|i: int|
            0 <= i < vstd::utf8::encode_utf8(s).len() ==> #[trigger] vstd::utf8::encode_utf8(s)[i]
                != c as u8,
    decreases s.len(),
{
    if s.len() > 0 {
        let rest = s.drop_first();
        assert forall|i: int| 0 <= i < rest.len() implies #[trigger] rest[i] != c by {
            assert(rest[i] == s[i + 1]);
        }
        lemma_bytes_without(rest, c);
        lemma_bytes_of_scalar(s[0] as u32);
        let first = vstd::utf8::encode_scalar(s[0] as u32);
        vstd::utf8::char_is_scalar(s[0]);
        vstd::utf8::char_u32_cast(s[0], s[0] as u32);
        assert(s[0] != c);
        assert(s[0] as u32 == s[0] as int);
        assert forall|i: int| 0 <= i < first.len() implies #[trigger] first[i] != c as u8 by {
            if vstd::utf8::has_width_1_encoding(s[0] as u32) {
                assert(first[i] == s[0] as int);
            }
        }
        assert forall|i: int|
            0 <= i < vstd::utf8::encode_utf8(s).len() implies #[trigger] vstd::utf8::encode_utf8(
            s,
        )[i] != c as u8 by {
            if i < first.len() {
                assert(vstd::utf8::encode_utf8(s)[i] == first[i]);
            } else {
                assert(vstd::utf8::encode_utf8(s)[i] == vstd::utf8::encode_utf8(rest)[i
                    - first.len()]);
            }
        }
    }
}

proof fn lemma_name_decoded(sep: char, name: Seq<char>)
    requires
        is_bare(sep, name),
    ensures
        form::decoded(vstd::utf8::encode_utf8(name)) == name,
{
    let bytes = vstd::utf8::encode_utf8(name);
    lemma_bytes_without(name, '%');
    lemma_bytes_without(name, '+');
    assert(form::spaced(bytes) =~= bytes);
    lemma_no_percent(bytes);
    escape::law_decoding_keeps_the_rest(bytes);
    vstd::utf8::encode_utf8_valid_utf8(name);
    vstd::utf8::encode_utf8_decode_utf8(name);
}

proof fn lemma_value_decoded(value: Seq<char>)
    ensures
        form::decoded(escape::ascii_bytes(escape::escaped_text(Op::Query, value))) == value,
{
    let bytes = vstd::utf8::encode_utf8(value);
    let written = escape::escaped(Op::Query, bytes);
    let raw = escape::ascii_bytes(written);
    assert forall|i: int| 0 <= i < written.len() implies escape::is_ascii(#[trigger] written[i])
        && raw[i] != '+' as u8 by {
        escape::law_escaped_is_unreserved(Op::Query, bytes, i);
    }
    assert(form::spaced(raw) =~= raw);
    lemma_ascii(written);
    escape::law_decoding_undoes_escaping(Op::Query, bytes);
    vstd::utf8::encode_utf8_valid_utf8(value);
    vstd::utf8::encode_utf8_decode_utf8(value);
}

proof fn lemma_find_first(a: Seq<u8>, b: u8, rest: Seq<u8>)
    requires
        forall|i: int| 0 <= i < a.len() ==> #[trigger] a[i] != b,
    ensures
        form::find_byte(a.push(b) + rest, b, 0) == a.len(),
        form::before(a.push(b) + rest, b) == a,
        form::after(a.push(b) + rest, b) == rest,
{
    let whole = a.push(b) + rest;
    form::lemma_find_byte(whole, b, 0);
    let k = form::find_byte(whole, b, 0);
    assert(whole[a.len() as int] == b);
    if k < a.len() {
        assert(whole[k] == a[k]);
    }
    assert(k == a.len());
    assert(whole.take(k) =~= a);
    assert(whole.skip(k + 1) =~= rest);
}

proof fn lemma_find_none(a: Seq<u8>, b: u8)
    requires
        forall|i: int| 0 <= i < a.len() ==> #[trigger] a[i] != b,
    ensures
        form::before(a, b) == a,
        form::after(a, b) == Seq::<u8>::empty(),
{
    form::lemma_find_byte(a, b, 0);
    let k = form::find_byte(a, b, 0);
    if k < a.len() {
        assert(a[k] == b);
    }
    assert(a.take(k) =~= a);
}

/// Values that are encoded are decoded to themselves again, and hold no separator.
pub proof fn lemma_encoded(sep: char, list: Seq<(Seq<char>, Seq<char>)>)
    requires
        is_separator(sep),
        forall|i: int| 0 <= i < list.len() ==> is_bare(sep, (#[trigger] list[i]).0),
    ensures
        decoded(encoded(list)) == list,
        are_bare(sep, encoded(list)),
{
    let all = encoded(list);
    assert forall|i: int| 0 <= i < list.len() implies #[trigger] decoded(all)[i] == list[i]
        && is_bare(sep, all[i].0) && !all[i].1.contains(sep) by {
        assert(is_bare(sep, list[i].0));
        let value = list[i].1;
        let written = escape::escaped_text(Op::Query, value);
        lemma_value_decoded(value);
        assert forall|k: int| 0 <= k < written.len() implies escape::is_ascii(
            #[trigger] written[k],
        ) && written[k] != sep by {
            escape::law_escaped_is_unreserved(Op::Query, vstd::utf8::encode_utf8(value), k);
        }
        lemma_ascii(written);
    }
    assert(decoded(all) =~= list);
    assert forall|i: int| 0 <= i < all.len() implies is_bare(sep, (#[trigger] all[i]).0)
        && !all[i].1.contains(sep) by {
        assert(decoded(all)[i] == list[i]);
    }
}

proof fn lemma_parameter_bytes(sep: char, pair: (Seq<char>, Seq<char>))
    requires
        is_separator(sep),
        is_bare(sep, pair.0),
        !pair.1.contains(sep),
    ensures
        form::pair_of(vstd::utf8::encode_utf8(parameter(pair))) == (
            pair.0,
            form::decoded(vstd::utf8::encode_utf8(pair.1)),
        ),
        vstd::utf8::encode_utf8(parameter(pair)).len() > 0,
        forall|i: int|
            0 <= i < vstd::utf8::encode_utf8(parameter(pair)).len()
                ==> #[trigger] vstd::utf8::encode_utf8(parameter(pair))[i] != sep as u8,
{
    let name = vstd::utf8::encode_utf8(pair.0);
    let value = vstd::utf8::encode_utf8(pair.1);
    let whole = vstd::utf8::encode_utf8(parameter(pair));
    lemma_ascii(seq!['=']);
    assert(escape::ascii_bytes(seq!['=']) =~= seq!['=' as u8]);
    lemma_encode_concat(pair.0, seq!['=']);
    assert(pair.0 + seq!['='] =~= pair.0.push('='));
    lemma_encode_concat(pair.0.push('='), pair.1);
    assert(whole =~= name.push('=' as u8) + value);
    lemma_bytes_without(pair.0, '=');
    lemma_bytes_without(pair.0, sep);
    lemma_bytes_without(pair.1, sep);
    lemma_find_first(name, '=' as u8, value);
    lemma_name_decoded(sep, pair.0);
    assert forall|i: int| 0 <= i < whole.len() implies #[trigger] whole[i] != sep as u8 by {
        if i < name.len() {
            assert(whole[i] == name[i]);
        } else if i > name.len() {
            assert(whole[i] == value[i - name.len() - 1]);
        }
    }
}

/// Names and values with a separator between them are read back.
pub proof fn law_parameters_are_read_back(sep: char, list: Seq<(Seq<char>, Seq<char>)>)
    requires
        is_separator(sep),
        are_bare(sep, list),
    ensures
        form::pairs(sep as u8, vstd::utf8::encode_utf8(parameters_text(sep, list))) == decoded(
            list,
        ),
    decreases list.len(),
{
    let b = sep as u8;
    let whole = vstd::utf8::encode_utf8(parameters_text(sep, list));
    if list.len() == 0 {
        assert(whole =~= Seq::empty());
        assert(form::pairs(b, whole) =~= decoded(list));
    } else {
        let first = list[0];
        let head = vstd::utf8::encode_utf8(parameter(first));
        let read = (first.0, form::decoded(vstd::utf8::encode_utf8(first.1)));
        let rest = list.skip(1);
        assert(is_bare(sep, list[0].0));
        lemma_parameter_bytes(sep, first);
        assert forall|i: int| 0 <= i < rest.len() implies is_bare(sep, (#[trigger] rest[i]).0)
            && !rest[i].1.contains(sep) by {
            assert(rest[i] == list[i + 1]);
        }
        law_parameters_are_read_back(sep, rest);
        assert(decoded(list) =~= seq![read] + decoded(rest));
        if list.len() == 1 {
            assert(parameters(list) =~= seq![parameter(first)]);
            assert(parameters_text(sep, list) =~= parameter(first));
            lemma_find_none(head, b);
            assert(form::pairs(b, Seq::<u8>::empty()) =~= Seq::empty());
            assert(form::pairs(b, whole) =~= seq![read]);
            assert(decoded(rest) =~= Seq::empty());
        } else {
            let tail = vstd::utf8::encode_utf8(parameters_text(sep, rest));
            assert(list =~= seq![first] + rest);
            law_queries_add_up(sep, seq![first], rest);
            assert(parameters(seq![first]) =~= seq![parameter(first)]);
            lemma_ascii(seq![sep]);
            assert(escape::ascii_bytes(seq![sep]) =~= seq![b]);
            lemma_encode_concat(parameter(first), seq![sep]);
            lemma_encode_concat(parameter(first) + seq![sep], parameters_text(sep, rest));
            assert(whole =~= head.push(b) + tail);
            lemma_find_first(head, b, tail);
            assert(form::pairs(b, whole) =~= seq![read] + decoded(rest));
        }
    }
}

/// The names and the values that make a query are read back from it.
pub proof fn law_query_is_read_back(list: Seq<(Seq<char>, Seq<char>)>)
    requires
        are_bare('&', list),
    ensures
        form::pairs('&' as u8, vstd::utf8::encode_utf8(query_text(list))) == decoded(list),
{
    law_parameters_are_read_back('&', list);
}

/// Two queries with an ampersand between them are the query of the parameters of both.
pub proof fn law_queries_add_up(
    sep: char,
    a: Seq<(Seq<char>, Seq<char>)>,
    b: Seq<(Seq<char>, Seq<char>)>,
)
    requires
        a.len() > 0,
        b.len() > 0,
    ensures
        parameters_text(sep, a + b) == parameters_text(sep, a) + seq![sep] + parameters_text(
            sep,
            b,
        ),
{
    assert(parameters(a + b) =~= parameters(a) + parameters(b));
    text::law_join_concat(parameters(a), parameters(b), seq![sep]);
}

/// Items, each with the name of its list.
pub open spec fn with_name(name: Seq<char>, items: Seq<Seq<char>>) -> Seq<(Seq<char>, Seq<char>)> {
    Seq::new(items.len(), |i: int| (name, items[i]))
}

/// Pairs, where those without a value have an empty one.
pub open spec fn pairs_of(items: Seq<(Seq<char>, Option<Seq<char>>)>) -> Seq<
    (Seq<char>, Seq<char>),
> {
    Seq::new(
        items.len(),
        |i: int|
            (
                items[i].0,
                match items[i].1 {
                    Some(value) => value,
                    None => Seq::empty(),
                },
            ),
    )
}

/// Whether a variable has a value of its kind: a single one, unless it is exploded; a list, unless
/// only the first characters of its value are wanted; or pairs, where it is exploded.
pub open spec fn is_given(var: SpecOfVar, value: ser::SpecOfBinding) -> bool {
    match value {
        ser::SpecOfBinding::Scalar(_) => var.modifier != VarMod::Explode,
        ser::SpecOfBinding::List(items) => var.modifier !is Prefix && items.len() > 0,
        ser::SpecOfBinding::Pairs(items) => var.modifier == VarMod::Explode && items.len() > 0,
        _ => false,
    }
}

/// Whether variables have values of their kinds.
pub open spec fn are_given(
    vars: Seq<SpecOfVar>,
    bindings: Map<Seq<char>, ser::SpecOfBinding>,
) -> bool {
    forall|i: int|
        0 <= i < vars.len() ==> bindings.dom().contains((#[trigger] vars[i]).name) && is_given(
            vars[i],
            bindings[vars[i].name],
        )
}

/// The text that a value is where it is read as a single one: a list with commas between its items.
pub open spec fn single_text(value: ser::SpecOfBinding) -> Seq<char> {
    match value {
        ser::SpecOfBinding::Scalar(v) => v,
        ser::SpecOfBinding::List(items) => text::join(items, seq![',']),
        _ => Seq::empty(),
    }
}

/// The parameters that the value of a variable makes, as they are written.
pub open spec fn var_params(var: SpecOfVar, value: ser::SpecOfBinding) -> Seq<
    (Seq<char>, Seq<char>),
> {
    match value {
        ser::SpecOfBinding::Scalar(v) => encoded(seq![(var.name, ser::wanted(var.modifier, v))]),
        ser::SpecOfBinding::List(items) => if var.modifier == VarMod::Explode {
            encoded(with_name(var.name, items))
        } else {
            seq![(var.name, ser::list_text(Op::Query, ',', items))]
        },
        ser::SpecOfBinding::Pairs(items) => encoded(pairs_of(items)),
        _ => Seq::empty(),
    }
}

/// The parameters that the value of a variable makes, as they are read.
pub open spec fn var_pairs(var: SpecOfVar, value: ser::SpecOfBinding) -> Seq<
    (Seq<char>, Seq<char>),
> {
    match value {
        ser::SpecOfBinding::Pairs(items) => pairs_of(items),
        ser::SpecOfBinding::List(items) if var.modifier == VarMod::Explode => with_name(
            var.name,
            items,
        ),
        _ => seq![(var.name, ser::wanted(var.modifier, single_text(value)))],
    }
}

/// The parameters that the values of variables make, one after the other, as they are written.
pub open spec fn params_of(
    vars: Seq<SpecOfVar>,
    bindings: Map<Seq<char>, ser::SpecOfBinding>,
) -> Seq<(Seq<char>, Seq<char>)>
    decreases vars.len(),
{
    if vars.len() == 0 {
        Seq::empty()
    } else {
        params_of(vars.drop_last(), bindings) + var_params(
            vars.last(),
            bindings[vars.last().name],
        )
    }
}

/// The parameters that the values of variables make, one after the other, as they are read.
pub open spec fn pairs_given(
    vars: Seq<SpecOfVar>,
    bindings: Map<Seq<char>, ser::SpecOfBinding>,
) -> Seq<(Seq<char>, Seq<char>)>
    decreases vars.len(),
{
    if vars.len() == 0 {
        Seq::empty()
    } else {
        pairs_given(vars.drop_last(), bindings) + var_pairs(
            vars.last(),
            bindings[vars.last().name],
        )
    }
}

proof fn lemma_same_escape(op: Op, bytes: Seq<u8>)
    requires
        !escape::lets_reserved_through(op),
    ensures
        escape::escaped(op, bytes) == escape::escaped(Op::Query, bytes),
    decreases bytes.len(),
{
    if bytes.len() > 0 {
        lemma_same_escape(op, bytes.skip(1));
    }
}

/// What an expression writes for the pairs of a map is what they are as parameters.
pub proof fn lemma_pairs_text(
    op: Op,
    sep: char,
    items: Seq<(Seq<char>, Option<Seq<char>>)>,
)
    requires
        !escape::lets_reserved_through(op),
    ensures
        ser::pairs_text(op, sep, '=', items) == parameters_text(sep, encoded(pairs_of(items))),
{
    let written = Seq::new(items.len(), |i: int| ser::pair_text(op, '=', items[i]));
    let read = parameters(encoded(pairs_of(items)));
    assert forall|i: int| 0 <= i < items.len() implies #[trigger] written[i] == read[i] by {
        match items[i].1 {
            Some(value) => {
                lemma_same_escape(op, vstd::utf8::encode_utf8(value));
            },
            None => {
                let nothing = Seq::<char>::empty();
                assert(vstd::utf8::encode_utf8(nothing) =~= Seq::empty());
                assert(escape::escaped_text(Op::Query, nothing) =~= nothing);
            },
        }
        assert(written[i] =~= read[i]);
    }
    assert(written =~= read);
}

proof fn lemma_same_list(op: Op, items: Seq<Seq<char>>)
    requires
        !escape::lets_reserved_through(op),
    ensures
        ser::list_text(op, ',', items) == ser::list_text(Op::Query, ',', items),
{
    let one = Seq::new(items.len(), |i: int| escape::escaped_text(op, items[i]));
    let other = Seq::new(items.len(), |i: int| escape::escaped_text(Op::Query, items[i]));
    assert forall|i: int| 0 <= i < items.len() implies #[trigger] one[i] == other[i] by {
        lemma_same_escape(op, vstd::utf8::encode_utf8(items[i]));
    }
    assert(one =~= other);
}

proof fn lemma_query_value(op: Op, var: SpecOfVar, value: ser::SpecOfBinding)
    requires
        op == Op::Query || op == Op::QueryCont,
        is_given(var, value),
    ensures
        ser::value_text(op, var, value) == Ok::<Seq<char>, ser::SpecOfError>(
            query_text(var_params(var, value)),
        ),
        var_params(var, value).len() > 0,
{
    let written = ser::value_text(op, var, value)->Ok_0;
    match value {
        ser::SpecOfBinding::Scalar(v) => {
            let own = ser::wanted(var.modifier, v);
            lemma_same_escape(op, vstd::utf8::encode_utf8(own));
            let param = (var.name, escape::escaped_text(Op::Query, own));
            assert(var_params(var, value) =~= seq![param]);
            assert(parameters(var_params(var, value)) =~= seq![parameter(param)]);
            assert(written =~= query_text(var_params(var, value)));
        },
        ser::SpecOfBinding::List(items) => {
            if var.modifier == VarMod::Explode {
                let named = ser::named_items(var.name, items);
                lemma_pairs_text(op, '&', named);
                assert(pairs_of(named) =~= with_name(var.name, items));
            } else {
                lemma_same_list(op, items);
                let param = (var.name, ser::list_text(Op::Query, ',', items));
                assert(parameters(var_params(var, value)) =~= seq![parameter(param)]);
                assert(written =~= query_text(var_params(var, value)));
            }
        },
        ser::SpecOfBinding::Pairs(items) => {
            lemma_pairs_text(op, '&', items);
        },
        _ => {},
    }
}

proof fn lemma_query_values(
    op: Op,
    vars: Seq<SpecOfVar>,
    bindings: Map<Seq<char>, ser::SpecOfBinding>,
)
    requires
        op == Op::Query || op == Op::QueryCont,
        vars.len() > 0,
        are_given(vars, bindings),
    ensures
        params_of(vars, bindings).len() > 0,
        text::join(
            Seq::new(
                vars.len(),
                |i: int| ser::value_text(op, vars[i], bindings[vars[i].name])->Ok_0,
            ),
            seq!['&'],
        ) == query_text(params_of(vars, bindings)),
    decreases vars.len(),
{
    let values = Seq::new(
        vars.len(),
        |i: int| ser::value_text(op, vars[i], bindings[vars[i].name])->Ok_0,
    );
    let last = vars.last();
    let before = vars.drop_last();
    assert(is_given(vars[vars.len() - 1], bindings[last.name]));
    lemma_query_value(op, last, bindings[last.name]);
    if vars.len() == 1 {
        assert(params_of(before, bindings) =~= Seq::empty());
        assert(params_of(vars, bindings) =~= var_params(last, bindings[last.name]));
        assert(values =~= seq![values[0]]);
    } else {
        assert forall|i: int| 0 <= i < before.len() implies bindings.dom().contains(
            (#[trigger] before[i]).name,
        ) && is_given(before[i], bindings[before[i].name]) by {
            assert(before[i] == vars[i]);
        }
        lemma_query_values(op, before, bindings);
        assert(values.drop_last() =~= Seq::new(
            before.len(),
            |i: int| ser::value_text(op, before[i], bindings[before[i].name])->Ok_0,
        ));
        law_queries_add_up(
            '&',
            params_of(before, bindings),
            var_params(last, bindings[last.name]),
        );
    }
}

/// An expression such as `{?a,b*}` writes a question mark and the query of its variables, and one
/// such as `{&a,b*}` an ampersand in the question mark's place.
pub proof fn law_query_is_written(
    e: SpecOfExpression,
    policy: FillPolicy,
    bindings: Map<Seq<char>, ser::SpecOfBinding>,
)
    requires
        e.operator == Op::Query || e.operator == Op::QueryCont,
        e.vars.len() > 0,
        are_given(e.vars, bindings),
    ensures
        params_of(e.vars, bindings).len() > 0,
        ser::expansion(e, policy, bindings) == Ok::<Seq<char>, ser::SpecOfError>(
            seq![
                if e.operator == Op::Query {
                    '?'
                } else {
                    '&'
                },
            ] + query_text(params_of(e.vars, bindings)),
        ),
{
    assert forall|j: int| 0 <= j < e.vars.len() implies crate::laws::is_written(
        e.operator,
        #[trigger] e.vars[j],
        bindings,
    ) by {
        assert(is_given(e.vars[j], bindings[e.vars[j].name]));
        lemma_query_value(e.operator, e.vars[j], bindings[e.vars[j].name]);
    }
    crate::laws::law_full_expansion(e, policy, bindings);
    lemma_query_values(e.operator, e.vars, bindings);
    assert(crate::laws::written_values(e, bindings) =~= Seq::new(
        e.vars.len(),
        |i: int| ser::value_text(e.operator, e.vars[i], bindings[e.vars[i].name])->Ok_0,
    ));
}

/// No value that an expression writes holds a character at which the group for it ends, so that
/// the group can take the value whole.
///
/// Labels are left out, for a dot in a value is written as it is, and so are the operators that let
/// reserved characters through.
pub proof fn law_values_fit_their_groups(
    place: Place,
    op: Op,
    modifier: VarMod,
    value: Seq<char>,
    i: int,
)
    requires
        !escape::lets_reserved_through(op),
        op != Op::Label,
        0 <= i < escape::escaped_text(op, value).len(),
    ensures
        !render::stops(place, op, modifier).contains(escape::escaped_text(op, value)[i]),
{
    escape::law_escaped_is_unreserved(op, vstd::utf8::encode_utf8(value), i);
    let c = escape::escaped_text(op, value)[i];
    let stops = render::stops(place, op, modifier);
    if stops.contains(c) {
        let k = choose|k: int| 0 <= k < stops.len() && stops[k] == c;
        assert(stops[k] == '/' || stops[k] == '?' || stops[k] == '#' || stops[k]
            == ser::op_separator(op));
    }
}

/// Whether a text is read back as it is, since it holds no escape.
pub open spec fn is_escape_free(value: Seq<char>) -> bool {
    !escape::holds_escape(vstd::utf8::encode_utf8(value))
}

/// What an expression writes for a value is decoded to the value again.
pub proof fn law_written_value_is_decoded(op: Op, value: Seq<char>)
    requires
        escape::lets_reserved_through(op) ==> is_escape_free(value),
    ensures
        binding::decoded(escape::escaped_text(op, value)) == Some(value),
{
    escape::law_decoding_undoes_escaping(op, vstd::utf8::encode_utf8(value));
    vstd::utf8::encode_utf8_valid_utf8(value);
    vstd::utf8::encode_utf8_decode_utf8(value);
}

/// The text that the value of a name is where it is read as a single one.
pub open spec fn scalar_of(bindings: Map<Seq<char>, ser::SpecOfBinding>, name: Seq<char>) -> Seq<
    char,
> {
    single_text(bindings[name])
}

/// How many of `len` characters a modifier leaves.
pub open spec fn wanted_len(modifier: VarMod, len: nat) -> int {
    match modifier {
        VarMod::Prefix(n) => if n < len {
            n as int
        } else {
            len as int
        },
        _ => len as int,
    }
}

/// How many of the `len` characters of the single value of a name are left by the variable that
/// leaves the most of it, or less than none where it has none.
pub open spec fn reach(vars: Seq<SpecOfVar>, name: Seq<char>, len: nat) -> int
    decreases vars.len(),
{
    if vars.len() == 0 {
        -1
    } else {
        let before = reach(vars.drop_last(), name, len);
        let var = vars.last();
        if var.name != name || var.modifier == VarMod::Explode || wanted_len(var.modifier, len)
            <= before {
            before
        } else {
            wanted_len(var.modifier, len)
        }
    }
}

/// How far a name reaches in two runs of variables.
pub proof fn lemma_reach_concat(
    a: Seq<SpecOfVar>,
    b: Seq<SpecOfVar>,
    name: Seq<char>,
    len: nat,
)
    ensures
        reach(a + b, name, len) == (if reach(a, name, len) >= reach(b, name, len) {
            reach(a, name, len)
        } else {
            reach(b, name, len)
        }),
        -1 <= reach(a, name, len) <= len,
        -1 <= reach(b, name, len) <= len,
    decreases a.len() + b.len(),
{
    if b.len() == 0 {
        assert(a + b =~= a);
        if a.len() > 0 {
            lemma_reach_concat(a.drop_last(), b, name, len);
        }
    } else {
        lemma_reach_concat(a, b.drop_last(), name, len);
        assert((a + b).drop_last() =~= a + b.drop_last());
    }
}

/// A variable for the whole of a single value leaves all of it, whatever the others leave.
pub proof fn law_whole_value_is_reached(vars: Seq<SpecOfVar>, i: int, len: nat)
    requires
        0 <= i < vars.len(),
        vars[i].modifier == VarMod::Whole,
    ensures
        reach(vars, vars[i].name, len) == len,
    decreases vars.len(),
{
    lemma_reach_concat(vars, Seq::empty(), vars[i].name, len);
    lemma_reach_concat(vars.drop_last(), Seq::empty(), vars[i].name, len);
    if i < vars.len() - 1 {
        law_whole_value_is_reached(vars.drop_last(), i, len);
    }
}

proof fn lemma_reach(vars: Seq<SpecOfVar>, name: Seq<char>, len: nat)
    ensures
        reach(vars, name, len) >= 0 <==> binding::is_scalar(vars, name),
    decreases vars.len(),
{
    if vars.len() > 0 {
        let before = vars.drop_last();
        let last = vars.last();
        lemma_reach(before, name, len);
        lemma_reach_concat(before, Seq::empty(), name, len);
        if binding::is_scalar(before, name) {
            let i = choose|i: int|
                0 <= i < before.len() && (#[trigger] before[i]).name == name && before[i].modifier
                    != VarMod::Explode;
            assert(vars[i] == before[i]);
        }
        if last.name == name && last.modifier != VarMod::Explode {
            assert(vars[vars.len() - 1] == last);
        }
        if binding::is_scalar(vars, name) {
            let i = choose|i: int|
                0 <= i < vars.len() && (#[trigger] vars[i]).name == name && vars[i].modifier
                    != VarMod::Explode;
            if i < before.len() {
                assert(before[i] == vars[i]);
            }
        }
    }
}

/// Whether the single value of a name is the one that variables leave, if they leave any.
pub open spec fn is_left(
    scalars: Map<Seq<char>, Seq<char>>,
    vars: Seq<SpecOfVar>,
    bindings: Map<Seq<char>, ser::SpecOfBinding>,
    name: Seq<char>,
) -> bool {
    let value = scalar_of(bindings, name);
    let left = reach(vars, name, value.len());
    &&& scalars.dom().contains(name) <==> left >= 0
    &&& left >= 0 ==> scalars[name] == value.take(left)
}

/// Whether the single values are those that variables leave.
pub open spec fn are_left(
    scalars: Map<Seq<char>, Seq<char>>,
    vars: Seq<SpecOfVar>,
    bindings: Map<Seq<char>, ser::SpecOfBinding>,
) -> bool {
    forall|name: Seq<char>| #[trigger] is_left(scalars, vars, bindings, name)
}

proof fn lemma_one_more(
    scalars: Map<Seq<char>, Seq<char>>,
    vars: Seq<SpecOfVar>,
    var: SpecOfVar,
    bindings: Map<Seq<char>, ser::SpecOfBinding>,
)
    requires
        are_left(scalars, vars, bindings),
        var.modifier != VarMod::Explode,
    ensures
        ({
            let next = binding::merged(
                scalars,
                var.name,
                ser::wanted(var.modifier, scalar_of(bindings, var.name)),
            );
            next is Ok && are_left(next->Ok_0, vars.push(var), bindings)
        }),
{
    let value = scalar_of(bindings, var.name);
    let new = ser::wanted(var.modifier, value);
    let w = wanted_len(var.modifier, value.len());
    let r = reach(vars, var.name, value.len());
    assert(new =~= value.take(w));
    assert(vars.push(var).drop_last() =~= vars);
    lemma_reach_concat(vars, Seq::empty(), var.name, value.len());
    assert(is_left(scalars, vars, bindings, var.name));
    assert(scalars.dom().contains(var.name) <==> r >= 0);
    if r >= 0 {
        assert(scalars[var.name] == value.take(r));
        if w >= r {
            assert(value.take(w).take(r) =~= value.take(r));
            assert(text::begins_with(new, scalars[var.name]));
        } else {
            assert(value.take(r).take(w) =~= value.take(w));
            assert(text::begins_with(scalars[var.name], new));
            if text::begins_with(new, scalars[var.name]) {
                assert(new.len() == w && scalars[var.name].len() == r);
            }
        }
    }
    let next = binding::merged(scalars, var.name, new);
    assert(next is Ok);
    let after = next->Ok_0;
    assert forall|name: Seq<char>| #[trigger] is_left(after, vars.push(var), bindings, name) by {
        assert(is_left(scalars, vars, bindings, name));
        let len = scalar_of(bindings, name).len();
        let before = reach(vars, name, len);
        assert(scalars.dom().contains(name) <==> before >= 0);
        assert(before >= 0 ==> scalars[name] == scalar_of(bindings, name).take(before));
        if name != var.name {
            assert(reach(vars.push(var), name, len) == before);
            assert(after.dom().contains(name) <==> scalars.dom().contains(name));
            assert(scalars.dom().contains(name) ==> after[name] == scalars[name]);
        } else if w <= r {
            assert(reach(vars.push(var), name, len) == r);
            assert(after[name] == value.take(r)) by {
                if w == r {
                    assert(new == scalars[name]);
                }
            }
        } else {
            assert(reach(vars.push(var), name, len) == w);
            assert(after[name] == new);
        }
    }
}

proof fn lemma_exploded_leaves_all(
    scalars: Map<Seq<char>, Seq<char>>,
    vars: Seq<SpecOfVar>,
    var: SpecOfVar,
    bindings: Map<Seq<char>, ser::SpecOfBinding>,
)
    requires
        are_left(scalars, vars, bindings),
        var.modifier == VarMod::Explode,
    ensures
        are_left(scalars, vars.push(var), bindings),
{
    assert(vars.push(var).drop_last() =~= vars);
    assert forall|name: Seq<char>| #[trigger] is_left(scalars, vars.push(var), bindings, name) by {
        assert(is_left(scalars, vars, bindings, name));
        let len = scalar_of(bindings, name).len();
        assert(reach(vars.push(var), name, len) == reach(vars, name, len));
    }
}

proof fn lemma_query_scalars_concat(
    vars: Seq<SpecOfVar>,
    scalars: Map<Seq<char>, Seq<char>>,
    a: Seq<(Seq<char>, Seq<char>)>,
    b: Seq<(Seq<char>, Seq<char>)>,
)
    ensures
        binding::query_scalars(vars, scalars, a + b) == (match binding::query_scalars(
            vars,
            scalars,
            a,
        ) {
            Ok(next) => binding::query_scalars(vars, next, b),
            Err(error) => Err(error),
        }),
    decreases a.len(),
{
    if a.len() == 0 {
        assert(a + b =~= b);
    } else {
        assert((a + b).skip(1) =~= a.skip(1) + b);
        if binding::is_scalar(vars, a[0].0) {
            match binding::merged(scalars, a[0].0, a[0].1) {
                Ok(next) => {
                    lemma_query_scalars_concat(vars, next, a.skip(1), b);
                },
                Err(_) => {},
            }
        } else {
            lemma_query_scalars_concat(vars, scalars, a.skip(1), b);
        }
    }
}

proof fn lemma_no_scalars(
    vars: Seq<SpecOfVar>,
    scalars: Map<Seq<char>, Seq<char>>,
    list: Seq<(Seq<char>, Seq<char>)>,
)
    requires
        forall|i: int| 0 <= i < list.len() ==> !binding::is_scalar(vars, (#[trigger] list[i]).0),
    ensures
        binding::query_scalars(vars, scalars, list) == Ok::<
            Map<Seq<char>, Seq<char>>,
            SpecOfError,
        >(scalars),
    decreases list.len(),
{
    if list.len() > 0 {
        let rest = list.skip(1);
        assert(!binding::is_scalar(vars, list[0].0));
        assert forall|i: int| 0 <= i < rest.len() implies !binding::is_scalar(
            vars,
            (#[trigger] rest[i]).0,
        ) by {
            assert(rest[i] == list[i + 1]);
        }
        lemma_no_scalars(vars, scalars, rest);
    }
}

/// Whether the pairs of a variable that has some have names that can stand in a query as they are,
/// which no variable has, and are none of `fixed`.
pub open spec fn is_apart(
    vars: Seq<SpecOfVar>,
    fixed: Seq<(Seq<char>, Seq<char>)>,
    value: ser::SpecOfBinding,
) -> bool {
    value matches ser::SpecOfBinding::Pairs(items) ==> forall|i: int|
        0 <= i < items.len() ==> {
            &&& is_bare('&', (#[trigger] pairs_of(items)[i]).0)
            &&& !parser::names(vars).contains(pairs_of(items)[i].0)
            &&& !fixed.contains(pairs_of(items)[i])
        }
}

proof fn lemma_named(vars: Seq<SpecOfVar>, name: Seq<char>)
    requires
        binding::is_scalar(vars, name) || binding::is_explode(vars, name),
    ensures
        parser::names(vars).contains(name),
{
    if binding::is_scalar(vars, name) {
        let i = choose|i: int|
            0 <= i < vars.len() && (#[trigger] vars[i]).name == name && vars[i].modifier
                != VarMod::Explode;
        assert(parser::names(vars)[i] == name);
    } else {
        let var = SpecOfVar { name, modifier: VarMod::Explode };
        let i = choose|i: int| 0 <= i < vars.len() && vars[i] == var;
        assert(parser::names(vars)[i] == name);
    }
}

/// Whether an exploded variable is the only one of its name.
pub open spec fn are_apart(vars: Seq<SpecOfVar>) -> bool {
    forall|i: int, j: int|
        0 <= i < vars.len() && 0 <= j < vars.len() && (#[trigger] vars[i]).modifier
            == VarMod::Explode && (#[trigger] vars[j]).name == vars[i].name ==> i == j
}

proof fn lemma_exploded_alone(vars: Seq<SpecOfVar>, i: int)
    requires
        are_apart(vars),
        0 <= i < vars.len(),
        vars[i].modifier == VarMod::Explode,
    ensures
        !binding::is_scalar(vars, vars[i].name),
        binding::is_explode(vars, vars[i].name),
{
    assert(vars[i] == (SpecOfVar { name: vars[i].name, modifier: VarMod::Explode }));
    if binding::is_scalar(vars, vars[i].name) {
        let j = choose|j: int|
            0 <= j < vars.len() && (#[trigger] vars[j]).name == vars[i].name && vars[j].modifier
                != VarMod::Explode;
        assert(i == j);
    }
}

proof fn lemma_query_scalars(
    vars: Seq<SpecOfVar>,
    count: int,
    bindings: Map<Seq<char>, ser::SpecOfBinding>,
    fixed: Seq<(Seq<char>, Seq<char>)>,
)
    requires
        0 <= count <= vars.len(),
        are_given(vars, bindings),
        are_apart(vars),
        forall|i: int|
            0 <= i < vars.len() ==> is_apart(vars, fixed, bindings[(#[trigger] vars[i]).name]),
    ensures
        ({
            let read = binding::query_scalars(
                vars,
                Map::empty(),
                pairs_given(vars.take(count), bindings),
            );
            read is Ok && are_left(read->Ok_0, vars.take(count), bindings)
        }),
    decreases count,
{
    let some = vars.take(count);
    if count == 0 {
        assert(some =~= Seq::empty());
        assert(pairs_given(some, bindings) =~= Seq::empty());
    } else {
        let before = vars.take(count - 1);
        let var = vars[count - 1];
        let value = bindings[var.name];
        lemma_query_scalars(vars, count - 1, bindings, fixed);
        assert(some.drop_last() =~= before);
        assert(some =~= before.push(var));
        let own = var_pairs(var, value);
        lemma_query_scalars_concat(vars, Map::empty(), pairs_given(before, bindings), own);
        let scalars = binding::query_scalars(
            vars,
            Map::empty(),
            pairs_given(before, bindings),
        )->Ok_0;
        assert(is_given(var, value));
        assert(is_apart(vars, fixed, value));
        if var.modifier == VarMod::Explode {
            lemma_exploded_alone(vars, count - 1);
            assert forall|i: int| 0 <= i < own.len() implies !binding::is_scalar(
                vars,
                (#[trigger] own[i]).0,
            ) by {
                if binding::is_scalar(vars, own[i].0) {
                    lemma_named(vars, own[i].0);
                }
            }
            lemma_no_scalars(vars, scalars, own);
            lemma_exploded_leaves_all(scalars, before, var, bindings);
        } else {
            lemma_one_more(scalars, before, var, bindings);
            assert(own[0] == (var.name, ser::wanted(var.modifier, scalar_of(bindings, var.name))));
            assert(binding::is_scalar(vars, var.name)) by {
                assert(vars[count - 1].name == var.name);
            }
            assert(own.skip(1) =~= Seq::empty());
            let next = binding::merged(scalars, own[0].0, own[0].1)->Ok_0;
            assert(binding::query_scalars(vars, next, own.skip(1)) == Ok::<
                Map<Seq<char>, Seq<char>>,
                SpecOfError,
            >(next));
            assert(binding::query_scalars(vars, scalars, own) == Ok::<
                Map<Seq<char>, Seq<char>>,
                SpecOfError,
            >(next));
        }
    }
}

proof fn lemma_loose_concat(
    vars: Seq<SpecOfVar>,
    fixed: Seq<(Seq<char>, Seq<char>)>,
    a: Seq<(Seq<char>, Seq<char>)>,
    b: Seq<(Seq<char>, Seq<char>)>,
)
    ensures
        binding::loose(vars, fixed, a + b) == binding::loose(vars, fixed, a) + binding::loose(
            vars,
            fixed,
            b,
        ),
    decreases b.len(),
{
    if b.len() == 0 {
        assert(a + b =~= a);
        assert(binding::loose(vars, fixed, a) + binding::loose(vars, fixed, b)
            =~= binding::loose(vars, fixed, a));
    } else {
        lemma_loose_concat(vars, fixed, a, b.drop_last());
        assert((a + b).drop_last() =~= a + b.drop_last());
        assert(binding::loose(vars, fixed, a + b) =~= binding::loose(vars, fixed, a)
            + binding::loose(vars, fixed, b));
    }
}

proof fn lemma_none_loose(
    vars: Seq<SpecOfVar>,
    fixed: Seq<(Seq<char>, Seq<char>)>,
    list: Seq<(Seq<char>, Seq<char>)>,
)
    requires
        forall|i: int|
            0 <= i < list.len() ==> binding::is_scalar(vars, (#[trigger] list[i]).0)
                || binding::is_explode(vars, list[i].0) || fixed.contains(list[i]),
    ensures
        binding::loose(vars, fixed, list).len() == 0,
    decreases list.len(),
{
    if list.len() > 0 {
        let before = list.drop_last();
        assert forall|i: int| 0 <= i < before.len() implies binding::is_scalar(
            vars,
            (#[trigger] before[i]).0,
        ) || binding::is_explode(vars, before[i].0) || fixed.contains(before[i]) by {
            assert(before[i] == list[i]);
        }
        lemma_none_loose(vars, fixed, before);
        assert(list[list.len() - 1] == list.last());
    }
}

proof fn lemma_all_loose(
    vars: Seq<SpecOfVar>,
    fixed: Seq<(Seq<char>, Seq<char>)>,
    list: Seq<(Seq<char>, Seq<char>)>,
)
    requires
        forall|i: int|
            0 <= i < list.len() ==> !parser::names(vars).contains((#[trigger] list[i]).0)
                && !fixed.contains(list[i]),
    ensures
        binding::loose(vars, fixed, list) == list,
    decreases list.len(),
{
    if list.len() > 0 {
        let before = list.drop_last();
        assert forall|i: int| 0 <= i < before.len() implies !parser::names(vars).contains(
            (#[trigger] before[i]).0,
        ) && !fixed.contains(before[i]) by {
            assert(before[i] == list[i]);
        }
        lemma_all_loose(vars, fixed, before);
        let last = list[list.len() - 1];
        assert(!parser::names(vars).contains(last.0));
        if binding::is_scalar(vars, last.0) || binding::is_explode(vars, last.0) {
            lemma_named(vars, last.0);
        }
        assert(before.push(last) =~= list);
    }
}

/// The pairs of the variables that have some.
pub open spec fn assoc_pairs(
    vars: Seq<SpecOfVar>,
    bindings: Map<Seq<char>, ser::SpecOfBinding>,
) -> Seq<(Seq<char>, Seq<char>)>
    decreases vars.len(),
{
    if vars.len() == 0 {
        Seq::empty()
    } else {
        assoc_pairs(vars.drop_last(), bindings) + (match bindings[vars.last().name] {
            ser::SpecOfBinding::Pairs(items) => pairs_of(items),
            _ => Seq::empty(),
        })
    }
}

proof fn lemma_loose(
    vars: Seq<SpecOfVar>,
    count: int,
    bindings: Map<Seq<char>, ser::SpecOfBinding>,
    fixed: Seq<(Seq<char>, Seq<char>)>,
)
    requires
        0 <= count <= vars.len(),
        are_given(vars, bindings),
        forall|i: int|
            0 <= i < vars.len() ==> is_apart(vars, fixed, bindings[(#[trigger] vars[i]).name]),
    ensures
        binding::loose(vars, fixed, pairs_given(vars.take(count), bindings)) == assoc_pairs(
            vars.take(count),
            bindings,
        ),
    decreases count,
{
    let some = vars.take(count);
    if count == 0 {
        assert(some =~= Seq::empty());
        assert(pairs_given(some, bindings) =~= Seq::empty());
        assert(assoc_pairs(some, bindings) =~= Seq::empty());
    } else {
        let before = vars.take(count - 1);
        let var = vars[count - 1];
        let value = bindings[var.name];
        lemma_loose(vars, count - 1, bindings, fixed);
        assert(some.drop_last() =~= before);
        let own = var_pairs(var, value);
        lemma_loose_concat(vars, fixed, pairs_given(before, bindings), own);
        assert(is_given(var, value));
        assert(is_apart(vars, fixed, value));
        match value {
            ser::SpecOfBinding::Pairs(items) => {
                assert forall|i: int| 0 <= i < own.len() implies !parser::names(vars).contains(
                    (#[trigger] own[i]).0,
                ) && !fixed.contains(own[i]) by {
                    assert(own[i] == pairs_of(items)[i]);
                }
                lemma_all_loose(vars, fixed, own);
            },
            _ => {
                assert forall|i: int| 0 <= i < own.len() implies binding::is_scalar(
                    vars,
                    (#[trigger] own[i]).0,
                ) || binding::is_explode(vars, own[i].0) || fixed.contains(own[i]) by {
                    assert(own[i].0 == var.name);
                    assert(vars[count - 1].name == var.name);
                    if var.modifier == VarMod::Explode {
                        assert(var == (SpecOfVar { name: var.name, modifier: VarMod::Explode }));
                    }
                }
                lemma_none_loose(vars, fixed, own);
                assert(binding::loose(vars, fixed, own) =~= Seq::empty());
            },
        }
    }
}

proof fn lemma_assoc_pairs(
    vars: Seq<SpecOfVar>,
    bindings: Map<Seq<char>, ser::SpecOfBinding>,
    k: int,
)
    requires
        0 <= k <= vars.len(),
        forall|i: int|
            0 <= i < vars.len() && i != k ==> !(bindings[(#[trigger] vars[i]).name] is Pairs),
    ensures
        assoc_pairs(vars, bindings) == (if k < vars.len() {
            match bindings[vars[k].name] {
                ser::SpecOfBinding::Pairs(items) => pairs_of(items),
                _ => Seq::empty(),
            }
        } else {
            Seq::empty()
        }),
    decreases vars.len(),
{
    if vars.len() > 0 {
        let before = vars.drop_last();
        let n = vars.len() - 1;
        assert forall|i: int| 0 <= i < before.len() && i != k implies !(
        bindings[(#[trigger] before[i]).name] is Pairs) by {
            assert(before[i] == vars[i]);
        }
        if k >= n {
            lemma_assoc_pairs(before, bindings, n);
        } else {
            lemma_assoc_pairs(before, bindings, k);
            assert(before[k] == vars[k]);
        }
        assert(n != k ==> !(bindings[vars[n].name] is Pairs));
        assert(assoc_pairs(vars, bindings) =~= if k < vars.len() {
            match bindings[vars[k].name] {
                ser::SpecOfBinding::Pairs(items) => pairs_of(items),
                _ => Seq::empty(),
            }
        } else {
            Seq::empty()
        });
    }
}

proof fn lemma_values_concat(
    a: Seq<(Seq<char>, Seq<char>)>,
    b: Seq<(Seq<char>, Seq<char>)>,
    name: Seq<char>,
)
    ensures
        binding::values_of(a + b, name) == binding::values_of(a, name) + binding::values_of(
            b,
            name,
        ),
    decreases b.len(),
{
    if b.len() == 0 {
        assert(a + b =~= a);
        assert(binding::values_of(a, name) + binding::values_of(b, name) =~= binding::values_of(
            a,
            name,
        ));
    } else {
        lemma_values_concat(a, b.drop_last(), name);
        assert((a + b).drop_last() =~= a + b.drop_last());
        assert(binding::values_of(a + b, name) =~= binding::values_of(a, name)
            + binding::values_of(b, name));
    }
}

proof fn lemma_no_values(list: Seq<(Seq<char>, Seq<char>)>, name: Seq<char>)
    requires
        forall|i: int| 0 <= i < list.len() ==> (#[trigger] list[i]).0 != name,
    ensures
        binding::values_of(list, name).len() == 0,
    decreases list.len(),
{
    if list.len() > 0 {
        let before = list.drop_last();
        assert forall|i: int| 0 <= i < before.len() implies (#[trigger] before[i]).0 != name by {
            assert(before[i] == list[i]);
        }
        lemma_no_values(before, name);
        assert(list[list.len() - 1].0 != name);
    }
}

proof fn lemma_values_of(name: Seq<char>, items: Seq<Seq<char>>)
    ensures
        binding::values_of(with_name(name, items), name) == items,
    decreases items.len(),
{
    let list = with_name(name, items);
    if items.len() > 0 {
        lemma_values_of(name, items.drop_last());
        assert(list.drop_last() =~= with_name(name, items.drop_last()));
        assert(items.drop_last().push(items.last()) =~= items);
    } else {
        assert(binding::values_of(list, name) =~= items);
    }
}

proof fn lemma_param_values(
    vars: Seq<SpecOfVar>,
    count: int,
    bindings: Map<Seq<char>, ser::SpecOfBinding>,
    fixed: Seq<(Seq<char>, Seq<char>)>,
    k: int,
)
    requires
        0 <= count <= vars.len(),
        0 <= k < vars.len(),
        are_given(vars, bindings),
        are_apart(vars),
        vars[k].modifier == VarMod::Explode,
        forall|i: int|
            0 <= i < vars.len() ==> is_apart(vars, fixed, bindings[(#[trigger] vars[i]).name]),
    ensures
        binding::values_of(pairs_given(vars.take(count), bindings), vars[k].name) == (if k < count {
            match bindings[vars[k].name] {
                ser::SpecOfBinding::List(items) => items,
                _ => Seq::empty(),
            }
        } else {
            Seq::empty()
        }),
    decreases count,
{
    let some = vars.take(count);
    let name = vars[k].name;
    if count == 0 {
        assert(pairs_given(some, bindings) =~= Seq::empty());
        assert(binding::values_of(pairs_given(some, bindings), name) =~= Seq::empty());
    } else {
        let before = vars.take(count - 1);
        let var = vars[count - 1];
        let value = bindings[var.name];
        let own = var_pairs(var, value);
        lemma_param_values(vars, count - 1, bindings, fixed, k);
        assert(some.drop_last() =~= before);
        lemma_values_concat(pairs_given(before, bindings), own, name);
        assert(is_given(var, value));
        assert(is_given(vars[k], bindings[name]));
        assert(is_apart(vars, fixed, value));
        assert(parser::names(vars)[k] == name);
        if k == count - 1 && value is List {
            assert(var.modifier == VarMod::Explode);
            lemma_values_of(name, value->List_0);
            assert(binding::values_of(pairs_given(before, bindings), name) + value->List_0
                =~= value->List_0);
        } else {
            assert forall|i: int| 0 <= i < own.len() implies (#[trigger] own[i]).0 != name by {
                match value {
                    ser::SpecOfBinding::Pairs(items) => {
                        assert(own[i] == pairs_of(items)[i]);
                    },
                    _ => {
                        if own[i].0 == name {
                            assert(vars[count - 1].name == vars[k].name);
                        }
                    },
                }
            }
            lemma_no_values(own, name);
            assert(binding::values_of(pairs_given(before, bindings), name) + binding::values_of(
                own,
                name,
            ) =~= binding::values_of(pairs_given(before, bindings), name));
        }
    }
}

/// The operators of the expressions in which variables stand.
pub open spec fn ops_of(parts: Seq<SpecOfPart>) -> Seq<Op>
    decreases parts.len(),
{
    if parts.len() == 0 {
        Seq::empty()
    } else {
        ops_of(parts.drop_last()) + part_ops(parts.last())
    }
}

/// The operators of the expressions in which the variables of a part stand.
pub open spec fn part_ops(part: SpecOfPart) -> Seq<Op> {
    match part.expression() {
        Some(e) => Seq::new(e.vars.len(), |i: int| e.operator),
        None => Seq::empty(),
    }
}

/// There are as many operators as variables.
pub proof fn lemma_ops_len(parts: Seq<SpecOfPart>)
    ensures
        ops_of(parts).len() == parser::vars_of(parts).len(),
    decreases parts.len(),
{
    if parts.len() > 0 {
        lemma_ops_len(parts.drop_last());
    }
}

/// The operators in two runs of parts.
pub proof fn lemma_ops_concat(a: Seq<SpecOfPart>, b: Seq<SpecOfPart>)
    ensures
        ops_of(a + b) == ops_of(a) + ops_of(b),
    decreases b.len(),
{
    if b.len() == 0 {
        assert(a + b =~= a);
        assert(ops_of(a) + ops_of(b) =~= ops_of(a));
    } else {
        lemma_ops_concat(a, b.drop_last());
        assert((a + b).drop_last() =~= a + b.drop_last());
        assert(ops_of(a + b) =~= ops_of(a) + ops_of(b));
    }
}

/// The text that the group for a variable takes.
pub open spec fn group_value(op: Op, var: SpecOfVar, value: ser::SpecOfBinding) -> Seq<char> {
    match value {
        ser::SpecOfBinding::Scalar(v) if op != Op::PathParam || var.modifier != VarMod::Explode => {
            escape::escaped_text(op, ser::wanted(var.modifier, v))
        },
        ser::SpecOfBinding::List(items) if var.modifier != VarMod::Explode => ser::list_text(
            op,
            ',',
            items,
        ),
        ser::SpecOfBinding::Pairs(items) if var.modifier != VarMod::Explode => ser::pairs_text(
            op,
            ',',
            ',',
            items,
        ),
        _ => ser::value_text(op, var, value)->Ok_0,
    }
}

/// Whether what the group for a variable takes can be decoded: a value that holds escapes is not
/// written by an operator that lets them through, a list is one of UTF-8, or of the items with
/// commas between them, and pairs have names that can stand as they are, and a separator that tells
/// them from one another.
pub open spec fn is_decodable(op: Op, var: SpecOfVar, value: ser::SpecOfBinding) -> bool {
    match value {
        ser::SpecOfBinding::Scalar(v) => escape::lets_reserved_through(op) ==> is_escape_free(
            ser::wanted(var.modifier, v),
        ),
        ser::SpecOfBinding::List(_) => if var.modifier == VarMod::Explode {
            binding::decoded(group_value(op, var, value)) is Some
        } else {
            binding::decoded(group_value(op, var, value)) == Some(single_text(value))
        },
        ser::SpecOfBinding::Pairs(items) => {
            &&& !escape::lets_reserved_through(op)
            &&& is_separator(ser::op_separator(op))
            &&& forall|i: int|
                0 <= i < items.len() ==> is_bare(
                    ser::op_separator(op),
                    (#[trigger] pairs_of(items)[i]).0,
                )
        },
        _ => false,
    }
}

/// Whether the groups for variables have taken what was written for them.
pub open spec fn are_caught(
    captures: Seq<(Seq<char>, Option<Seq<char>>)>,
    ops: Seq<Op>,
    vars: Seq<SpecOfVar>,
    bindings: Map<Seq<char>, ser::SpecOfBinding>,
) -> bool {
    forall|i: int|
        0 <= i < vars.len() ==> {
            &&& is_decodable(ops[i], #[trigger] vars[i], bindings[vars[i].name])
            &&& binding::captured(captures, render::capture_name(vars[i])) == Some(
                group_value(ops[i], vars[i], bindings[vars[i].name]),
            )
        }
}

proof fn lemma_path_scalars_concat(
    scalars: Map<Seq<char>, Seq<char>>,
    a: Seq<(Seq<char>, Seq<char>)>,
    b: Seq<(Seq<char>, Seq<char>)>,
    captures: Seq<(Seq<char>, Option<Seq<char>>)>,
)
    ensures
        binding::path_scalars(scalars, a + b, captures) == (match binding::path_scalars(
            scalars,
            a,
            captures,
        ) {
            Ok(next) => binding::path_scalars(next, b, captures),
            Err(error) => Err(error),
        }),
    decreases a.len(),
{
    if a.len() == 0 {
        assert(a + b =~= b);
    } else {
        assert((a + b).skip(1) =~= a.skip(1) + b);
        match binding::captured(captures, a[0].1) {
            Some(m) if binding::decoded(m) is Some => {
                match binding::merged(scalars, a[0].0, binding::decoded(m)->0) {
                    Ok(next) => {
                        lemma_path_scalars_concat(next, a.skip(1), b, captures);
                    },
                    Err(_) => {},
                }
            },
            _ => {
                lemma_path_scalars_concat(scalars, a.skip(1), b, captures);
            },
        }
    }
}

proof fn lemma_path_scalars(
    scalars: Map<Seq<char>, Seq<char>>,
    before: Seq<SpecOfVar>,
    ops: Seq<Op>,
    vars: Seq<SpecOfVar>,
    count: int,
    bindings: Map<Seq<char>, ser::SpecOfBinding>,
    captures: Seq<(Seq<char>, Option<Seq<char>>)>,
)
    requires
        0 <= count <= vars.len(),
        are_left(scalars, before, bindings),
        are_given(vars, bindings),
        are_caught(captures, ops, vars, bindings),
    ensures
        ({
            let read = binding::path_scalars(
                scalars,
                binding::all_captures(vars.take(count)),
                captures,
            );
            read is Ok && are_left(read->Ok_0, before + vars.take(count), bindings)
        }),
    decreases count,
{
    let some = vars.take(count);
    if count == 0 {
        assert(some =~= Seq::empty());
        assert(before + some =~= before);
        assert(binding::all_captures(some) =~= Seq::empty());
    } else {
        let fewer = vars.take(count - 1);
        let var = vars[count - 1];
        let value = bindings[var.name];
        lemma_path_scalars(scalars, before, ops, vars, count - 1, bindings, captures);
        assert(some.drop_last() =~= fewer);
        let next = binding::path_scalars(
            scalars,
            binding::all_captures(fewer),
            captures,
        )->Ok_0;
        assert(before + some =~= (before + fewer).push(var));
        assert(is_given(var, value));
        assert(is_decodable(ops[count - 1], vars[count - 1], value));
        if var.modifier == VarMod::Explode {
            lemma_exploded_leaves_all(next, before + fewer, var, bindings);
        } else {
            let own = seq![(var.name, render::capture_name(var))];
            assert(binding::all_captures(some) =~= binding::all_captures(fewer) + own);
            lemma_path_scalars_concat(scalars, binding::all_captures(fewer), own, captures);
            if value is Scalar {
                law_written_value_is_decoded(
                    ops[count - 1],
                    ser::wanted(var.modifier, scalar_of(bindings, var.name)),
                );
            }
            lemma_one_more(next, before + fewer, var, bindings);
            assert(own.skip(1) =~= Seq::empty());
            let new = ser::wanted(var.modifier, scalar_of(bindings, var.name));
            let after = binding::merged(next, var.name, new)->Ok_0;
            assert(binding::captured(captures, own[0].1) == Some(
                group_value(ops[count - 1], vars[count - 1], value),
            ));
            assert(binding::path_scalars(after, own.skip(1), captures) == Ok::<
                Map<Seq<char>, Seq<char>>,
                SpecOfError,
            >(after));
            assert(binding::path_scalars(next, own, captures) == Ok::<
                Map<Seq<char>, Seq<char>>,
                SpecOfError,
            >(after));
        }
    }
}

/// The variables of two lists of parts are those of the one and then those of the other.
pub proof fn lemma_vars_concat(a: Seq<SpecOfPart>, b: Seq<SpecOfPart>)
    ensures
        parser::vars_of(a + b) == parser::vars_of(a) + parser::vars_of(b),
    decreases b.len(),
{
    if b.len() == 0 {
        assert(a + b =~= a);
        assert(parser::vars_of(a) + parser::vars_of(b) =~= parser::vars_of(a));
    } else {
        lemma_vars_concat(a, b.drop_last());
        assert((a + b).drop_last() =~= a + b.drop_last());
        assert(parser::vars_of(a + b) =~= parser::vars_of(a) + parser::vars_of(b));
    }
}

proof fn lemma_encode_concat(a: Seq<char>, b: Seq<char>)
    ensures
        vstd::utf8::encode_utf8(a + b) == vstd::utf8::encode_utf8(a) + vstd::utf8::encode_utf8(b),
    decreases a.len(),
{
    if a.len() == 0 {
        assert(a + b =~= b);
        assert(vstd::utf8::encode_utf8(a) + vstd::utf8::encode_utf8(b) =~= vstd::utf8::encode_utf8(
            b,
        ));
    } else {
        lemma_encode_concat(a.drop_first(), b);
        assert((a + b).drop_first() =~= a.drop_first() + b);
        assert(vstd::utf8::encode_utf8(a + b) =~= vstd::utf8::encode_utf8(a)
            + vstd::utf8::encode_utf8(b));
    }
}

/// What an expression writes for the items of a list.
pub open spec fn escaped_items(op: Op, items: Seq<Seq<char>>) -> Seq<Seq<char>> {
    Seq::new(items.len(), |i: int| escape::escaped_text(op, items[i]))
}

#[verifier::spinoff_prover]
#[verifier::rlimit(40)]
proof fn lemma_list_decoded(op: Op, separator: char, items: Seq<Seq<char>>)
    requires
        !escape::lets_reserved_through(op),
        escape::is_ascii(separator),
        separator != '%',
    ensures
        escape::percent_decoded(
            escape::ascii_bytes(text::join(escaped_items(op, items), seq![separator])),
        ) == vstd::utf8::encode_utf8(text::join(items, seq![separator])),
        forall|i: int|
            0 <= i < text::join(escaped_items(op, items), seq![separator]).len()
                ==> escape::is_ascii(
                #[trigger] text::join(escaped_items(op, items), seq![separator])[i],
            ),
    decreases items.len(),
{
    let written = escaped_items(op, items);
    let sep = seq![separator];
    let whole = text::join(written, sep);
    if items.len() == 0 {
        assert(escape::ascii_bytes(whole) =~= Seq::empty());
        assert(vstd::utf8::encode_utf8(text::join(items, sep)) =~= Seq::empty());
    } else {
        let bytes = vstd::utf8::encode_utf8(items[0]);
        let head = escape::escaped_text(op, items[0]);
        let rest = items.skip(1);
        assert forall|i: int| 0 <= i < head.len() implies escape::is_ascii(#[trigger] head[i]) by {
            escape::law_escaped_is_unreserved(op, bytes, i);
        }
        if items.len() == 1 {
            assert(whole == head);
            escape::lemma_decoding_escaped_first(op, bytes, Seq::empty());
            assert(escape::ascii_bytes(head) + Seq::<u8>::empty() =~= escape::ascii_bytes(head));
            assert(bytes + escape::percent_decoded(Seq::<u8>::empty()) =~= bytes);
        } else {
            lemma_list_decoded(op, separator, rest);
            let first = seq![head];
            let others = escaped_items(op, rest);
            let tail = text::join(others, sep);
            assert(written =~= first + others);
            text::law_join_concat(first, others, sep);
            assert(items =~= seq![items[0]] + rest);
            text::law_join_concat(seq![items[0]], rest, sep);
            assert(whole =~= head + sep + tail);
            let follows = seq![separator as u8] + escape::ascii_bytes(tail);
            assert(escape::ascii_bytes(whole) =~= escape::ascii_bytes(head) + follows);
            escape::lemma_decoding_escaped_first(op, bytes, follows);
            assert(follows.skip(1) =~= escape::ascii_bytes(tail));
            assert(escape::percent_decoded(follows) == seq![separator as u8]
                + escape::percent_decoded(escape::ascii_bytes(tail)));
            lemma_encode_concat(items[0], sep);
            lemma_encode_concat(items[0] + sep, text::join(rest, sep));
            lemma_ascii(sep);
            assert(escape::ascii_bytes(sep) =~= seq![separator as u8]);
            assert(bytes + (seq![separator as u8] + vstd::utf8::encode_utf8(text::join(rest, sep)))
                =~= bytes + seq![separator as u8] + vstd::utf8::encode_utf8(
                text::join(rest, sep),
            ));
        }
    }
}

/// Which characters stand in a list that an expression writes.
pub proof fn lemma_list_chars(op: Op, separator: char, items: Seq<Seq<char>>, i: int)
    requires
        !escape::lets_reserved_through(op),
        0 <= i < ser::list_text(op, separator, items).len(),
    ensures
        ({
            let c = ser::list_text(op, separator, items)[i];
            c == separator || c == '%' || escape::is_ascii(c) && escape::is_unreserved(c as u8)
        }),
    decreases items.len(),
{
    let written = escaped_items(op, items);
    let whole = text::join(written, seq![separator]);
    assert(ser::list_text(op, separator, items) =~= whole);
    if items.len() > 0 {
        let before = items.drop_last();
        assert(written.drop_last() =~= escaped_items(op, before));
        let own = written.last();
        let start = whole.len() - own.len();
        if i >= start {
            assert(whole[i] == own[i - start]);
            escape::law_escaped_is_unreserved(
                op,
                vstd::utf8::encode_utf8(items.last()),
                i - start,
            );
        } else if i < start - 1 {
            assert(ser::list_text(op, separator, before) =~= text::join(
                escaped_items(op, before),
                seq![separator],
            ));
            lemma_list_chars(op, separator, before, i);
        }
    }
}

/// A list that an expression such as `{/list}` writes is decoded to its items with commas between
/// them.
pub proof fn law_whole_list_is_decoded(op: Op, items: Seq<Seq<char>>)
    requires
        !escape::lets_reserved_through(op),
    ensures
        binding::decoded(ser::list_text(op, ',', items)) == Some(text::join(items, seq![','])),
{
    let whole = text::join(items, seq![',']);
    let written = ser::list_text(op, ',', items);
    assert(written =~= text::join(escaped_items(op, items), seq![',']));
    lemma_list_decoded(op, ',', items);
    lemma_ascii(written);
    vstd::utf8::encode_utf8_valid_utf8(whole);
    vstd::utf8::encode_utf8_decode_utf8(whole);
}

/// A list that an expression such as `{/list*}` writes can be decoded, and its items are read back.
///
/// An expression such as `{.list*}` writes a dot in an item as it is, so there the items are those
/// without one.
pub proof fn law_path_list_is_read_back(op: Op, items: Seq<Seq<char>>)
    requires
        !escape::lets_reserved_through(op),
        items.len() > 0,
        op == Op::Label ==> forall|i: int|
            0 <= i < items.len() ==> !escape::escaped_text(op, #[trigger] items[i]).contains('.'),
    ensures
        binding::decoded(ser::list_text(op, ser::op_separator(op), items)) is Some,
        de::path_items(
            ser::op_separator(op),
            ser::list_text(op, ser::op_separator(op), items),
        ) == items,
{
    let separator = ser::op_separator(op);
    let joined = text::join(items, seq![separator]);
    let written = ser::list_text(op, separator, items);
    let encoded = escaped_items(op, items);
    assert(written =~= text::join(encoded, seq![separator]));
    lemma_list_decoded(op, separator, items);
    lemma_ascii(written);
    vstd::utf8::encode_utf8_valid_utf8(joined);
    assert forall|i: int| 0 <= i < encoded.len() implies !(#[trigger] encoded[i]).contains(
        separator,
    ) by {
        if encoded[i].contains(separator) {
            let k = choose|k: int| 0 <= k < encoded[i].len() && encoded[i][k] == separator;
            escape::law_escaped_is_unreserved(op, vstd::utf8::encode_utf8(items[i]), k);
            assert(!escape::escaped_text(op, items[i]).contains('.') || op != Op::Label);
        }
    }
    text::law_split_undoes_join(encoded, separator);
    let read = de::path_items(separator, written);
    assert forall|i: int| 0 <= i < items.len() implies #[trigger] read[i] == items[i] by {
        law_written_value_is_decoded(op, items[i]);
    }
    assert(read =~= items);
}

proof fn lemma_kept_first(a: Seq<u8>, rest: Seq<u8>)
    requires
        forall|i: int| 0 <= i < a.len() ==> #[trigger] a[i] != '%' as u8,
    ensures
        escape::percent_decoded(a + rest) == a + escape::percent_decoded(rest),
    decreases a.len(),
{
    if a.len() == 0 {
        assert(a + rest =~= rest);
        assert(a + escape::percent_decoded(rest) =~= escape::percent_decoded(rest));
    } else {
        let fewer = a.skip(1);
        assert forall|i: int| 0 <= i < fewer.len() implies #[trigger] fewer[i] != '%' as u8 by {
            assert(fewer[i] == a[i + 1]);
        }
        lemma_kept_first(fewer, rest);
        assert((a + rest).skip(1) =~= fewer + rest);
        assert(a[0] != '%' as u8);
        assert(seq![a[0]] + (fewer + escape::percent_decoded(rest)) =~= a
            + escape::percent_decoded(rest));
    }
}

/// Names and values with a separator between them can be decoded as one text.
pub proof fn law_parameters_are_decodable(sep: char, list: Seq<(Seq<char>, Seq<char>)>)
    requires
        is_separator(sep),
        forall|i: int| 0 <= i < list.len() ==> is_plain((#[trigger] list[i]).0),
    ensures
        binding::decoded(parameters_text(sep, encoded(list))) is Some,
{
    let written = parameters_text(sep, encoded(list));
    assert forall|i: int| 0 <= i < written.len() implies escape::is_ascii(#[trigger] written[i]) by {
        lemma_parameters_chars(sep, list, i);
    }
    lemma_ascii(written);
    let plain = lemma_parameters_decoded(sep, list);
    vstd::utf8::encode_utf8_valid_utf8(plain);
}

proof fn lemma_parameters_decoded(sep: char, list: Seq<(Seq<char>, Seq<char>)>) -> (plain: Seq<
    char,
>)
    requires
        is_separator(sep),
        forall|i: int| 0 <= i < list.len() ==> is_plain((#[trigger] list[i]).0),
    ensures
        escape::percent_decoded(escape::ascii_bytes(parameters_text(sep, encoded(list))))
            == vstd::utf8::encode_utf8(plain),
    decreases list.len(),
{
    let whole = parameters_text(sep, encoded(list));
    if list.len() == 0 {
        assert(escape::ascii_bytes(whole) =~= Seq::empty());
        assert(vstd::utf8::encode_utf8(Seq::<char>::empty()) =~= Seq::empty());
        Seq::empty()
    } else {
        let (name, value) = list[0];
        let rest = list.skip(1);
        assert(is_plain(list[0].0));
        assert forall|i: int| 0 <= i < rest.len() implies is_plain((#[trigger] rest[i]).0) by {
            assert(rest[i] == list[i + 1]);
        }
        let head = name.push('=');
        let bytes = vstd::utf8::encode_utf8(value);
        let written = escape::escaped_text(Op::Query, value);
        let plain_rest = lemma_parameters_decoded(sep, rest);
        let (tail, plain_tail) = if list.len() == 1 {
            (Seq::empty(), Seq::empty())
        } else {
            (seq![sep] + parameters_text(sep, encoded(rest)), seq![sep] + plain_rest)
        };
        if list.len() == 1 {
            assert(parameters(encoded(list)) =~= seq![parameter((name, written))]);
            assert(whole =~= head + written + tail);
            assert(escape::ascii_bytes(tail) =~= Seq::empty());
            assert(escape::percent_decoded(Seq::<u8>::empty()) =~= Seq::empty());
            assert(vstd::utf8::encode_utf8(plain_tail) =~= Seq::empty());
        } else {
            let one = seq![(name, written)];
            assert(encoded(list) =~= one + encoded(rest));
            law_queries_add_up(sep, one, encoded(rest));
            assert(parameters(one) =~= seq![parameter((name, written))]);
            assert(whole =~= head + written + tail);
            let after = escape::ascii_bytes(parameters_text(sep, encoded(rest)));
            assert(escape::ascii_bytes(tail) =~= seq![sep as u8] + after);
            lemma_kept_first(seq![sep as u8], after);
            lemma_encode_concat(seq![sep], plain_rest);
            lemma_ascii(seq![sep]);
            assert(escape::ascii_bytes(seq![sep]) =~= seq![sep as u8]);
        }
        assert(escape::percent_decoded(escape::ascii_bytes(tail)) == vstd::utf8::encode_utf8(
            plain_tail,
        ));
        let first = escape::ascii_bytes(head);
        assert forall|i: int| 0 <= i < first.len() implies #[trigger] first[i] != '%' as u8 by {
            if i < name.len() {
                assert(head[i] == name[i]);
            }
        }
        let follows = escape::ascii_bytes(written) + escape::ascii_bytes(tail);
        assert(escape::ascii_bytes(whole) =~= first + follows);
        lemma_kept_first(first, follows);
        escape::lemma_decoding_escaped_first(Op::Query, bytes, escape::ascii_bytes(tail));
        assert forall|i: int| 0 <= i < head.len() implies escape::is_ascii(#[trigger] head[i]) by {
            if i < name.len() {
                assert(head[i] == name[i]);
            }
        }
        lemma_ascii(head);
        lemma_encode_concat(value, plain_tail);
        lemma_encode_concat(head, value + plain_tail);
        head + (value + plain_tail)
    }
}

/// Which characters stand in names and values with a separator between them.
pub proof fn lemma_parameters_chars(sep: char, list: Seq<(Seq<char>, Seq<char>)>, i: int)
    requires
        is_separator(sep),
        forall|k: int| 0 <= k < list.len() ==> is_plain((#[trigger] list[k]).0),
        0 <= i < parameters_text(sep, encoded(list)).len(),
    ensures
        ({
            let c = parameters_text(sep, encoded(list))[i];
            c == sep || c == '=' || c == '%' || escape::is_ascii(c) && escape::is_unreserved(
                c as u8,
            )
        }),
    decreases list.len(),
{
    let whole = parameters_text(sep, encoded(list));
    if list.len() > 0 {
        let last = list.last();
        let before = list.drop_last();
        assert(is_plain(list[list.len() - 1].0));
        assert forall|k: int| 0 <= k < before.len() implies is_plain((#[trigger] before[k]).0) by {
            assert(before[k] == list[k]);
        }
        assert(parameters(encoded(list)).drop_last() =~= parameters(encoded(before)));
        let own = parameter((last.0, escape::escaped_text(Op::Query, last.1)));
        assert(parameters(encoded(list)).last() == own);
        let start = whole.len() - own.len();
        if i >= start {
            let j = i - start;
            assert(whole[i] == own[j]);
            if j < last.0.len() {
                assert(own[j] == last.0[j]);
            } else if j > last.0.len() {
                escape::law_escaped_is_unreserved(
                    Op::Query,
                    vstd::utf8::encode_utf8(last.1),
                    j - last.0.len() - 1,
                );
            }
        } else if i < start - 1 {
            assert(whole[i] == parameters_text(sep, encoded(before))[i]);
            lemma_parameters_chars(sep, before, i);
        }
    }
}

proof fn lemma_more_lists(
    assoc: Option<Seq<char>>,
    before: Seq<(char, Seq<char>)>,
    separator: char,
    names: Seq<Seq<char>>,
    captures: Seq<(Seq<char>, Option<Seq<char>>)>,
    name: Seq<char>,
)
    ensures
        ({
            let after = before + binding::with_separator(separator, names);
            let old_lists = binding::path_lists(assoc, before, captures);
            let lists = binding::path_lists(assoc, after, captures);
            let caught = binding::captured(captures, name);
            &&& names.contains(name) && assoc != Some(name) && caught is Some && binding::decoded(
                caught->0,
            ) is Some ==> lists.dom().contains(name) && lists[name] == (separator, caught->0)
            &&& !names.contains(name) || assoc == Some(name) ==> (lists.dom().contains(name)
                <==> old_lists.dom().contains(name)) && lists[name] == old_lists[name]
            &&& assoc == Some(name) && caught is Some && names.contains(name)
                ==> binding::path_pairs(assoc, after, captures) == form::pairs(
                separator as u8,
                vstd::utf8::encode_utf8(caught->0),
            )
            &&& assoc == Some(name) && !names.contains(name) ==> binding::path_pairs(
                assoc,
                after,
                captures,
            ) == binding::path_pairs(assoc, before, captures)
        }),
    decreases names.len(),
{
    let added = binding::with_separator(separator, names);
    if names.len() == 0 {
        assert(before + added =~= before);
    } else {
        let fewer = names.drop_last();
        lemma_more_lists(assoc, before, separator, fewer, captures, name);
        assert((before + added).drop_last() =~= before + binding::with_separator(separator, fewer));
        assert((before + added).last() == (separator, names.last()));
        binding::lemma_push_contains(fewer, names.last(), name);
        assert(fewer.push(names.last()) =~= names);
    }
}

proof fn lemma_lists(
    parts: Seq<SpecOfPart>,
    i: int,
    assoc: Option<Seq<char>>,
    captures: Seq<(Seq<char>, Option<Seq<char>>)>,
)
    requires
        are_apart(parser::vars_of(parts)),
        0 <= i < parser::vars_of(parts).len(),
        parser::vars_of(parts)[i].modifier == VarMod::Explode,
        binding::captured(captures, parser::vars_of(parts)[i].name) is Some,
    ensures
        ({
            let name = parser::vars_of(parts)[i].name;
            let separator = ser::op_separator(ops_of(parts)[i]);
            let names = binding::separated_names(parts);
            let lists = binding::path_lists(assoc, names, captures);
            let caught = binding::captured(captures, name)->0;
            &&& assoc != Some(name) && binding::decoded(caught) is Some ==> lists.dom().contains(
                name,
            ) && lists[name] == (separator, caught)
            &&& assoc == Some(name) ==> !lists.dom().contains(name) && binding::path_pairs(
                assoc,
                names,
                captures,
            ) == form::pairs(separator as u8, vstd::utf8::encode_utf8(caught))
        }),
    decreases parts.len(),
{
    let before = parts.drop_last();
    let last = parts.last();
    let vars = parser::vars_of(parts);
    let earlier = parser::vars_of(before);
    let own = parser::part_vars(last);
    let name = vars[i].name;
    lemma_ops_len(before);
    let names = binding::explode_names(own);
    binding::lemma_explode_names(own, name);
    let separator = match last.expression() {
        Some(e) => ser::op_separator(e.operator),
        None => ',',
    };
    lemma_more_lists(assoc, binding::separated_names(before), separator, names, captures, name);
    assert(binding::separated_names(parts) =~= binding::separated_names(before)
        + binding::with_separator(separator, names));
    let exploded = SpecOfVar { name, modifier: VarMod::Explode };
    if i < earlier.len() {
        assert(earlier[i] == vars[i]);
        assert forall|a: int, b: int|
            0 <= a < earlier.len() && 0 <= b < earlier.len() && (#[trigger] earlier[a]).modifier
                == VarMod::Explode && (#[trigger] earlier[b]).name == earlier[a].name implies a
            == b by {
            assert(vars[a] == earlier[a] && vars[b] == earlier[b]);
        }
        lemma_lists(before, i, assoc, captures);
        if own.contains(exploded) {
            let k = choose|k: int| 0 <= k < own.len() && own[k] == exploded;
            assert(vars[earlier.len() + k] == own[k]);
            assert(vars[i].name == vars[earlier.len() + k].name);
        }
        assert(ops_of(parts)[i] == ops_of(before)[i]);
    } else {
        let k = i - earlier.len();
        assert(own[k] == vars[i]);
        assert(own[k] == exploded);
        assert(own.contains(exploded));
        assert(ops_of(parts)[i] == part_ops(last)[k]);
        if assoc == Some(name) {
            lemma_no_lists(before, name, assoc, captures);
        }
    }
}

proof fn lemma_no_lists(
    parts: Seq<SpecOfPart>,
    name: Seq<char>,
    assoc: Option<Seq<char>>,
    captures: Seq<(Seq<char>, Option<Seq<char>>)>,
)
    requires
        assoc == Some(name) || !binding::is_explode(parser::vars_of(parts), name),
    ensures
        !binding::path_lists(assoc, binding::separated_names(parts), captures).dom().contains(name),
    decreases parts.len(),
{
    if parts.len() > 0 {
        let before = parts.drop_last();
        let last = parts.last();
        let vars = parser::vars_of(parts);
        let earlier = parser::vars_of(before);
        let own = parser::part_vars(last);
        let exploded = SpecOfVar { name, modifier: VarMod::Explode };
        if earlier.contains(exploded) {
            let k = choose|k: int| 0 <= k < earlier.len() && earlier[k] == exploded;
            assert(vars[k] == exploded);
        }
        if own.contains(exploded) {
            let k = choose|k: int| 0 <= k < own.len() && own[k] == exploded;
            assert(vars[earlier.len() + k] == exploded);
        }
        lemma_no_lists(before, name, assoc, captures);
        binding::lemma_explode_names(own, name);
        let names = binding::explode_names(own);
        let separator = match last.expression() {
            Some(e) => ser::op_separator(e.operator),
            None => ',',
        };
        lemma_more_lists(assoc, binding::separated_names(before), separator, names, captures, name);
        assert(binding::separated_names(parts) =~= binding::separated_names(before)
            + binding::with_separator(separator, names));
    }
}

/// What is read of the value of one of `vars`, which an expression in the path or in the query has
/// written: as much of a single value as the variables have left of it, a list that is not exploded
/// as one with commas between its items, one from the path as it was written, one from the query by
/// its items, and pairs by their names.
pub open spec fn read_binding(
    op: Op,
    vars: Seq<SpecOfVar>,
    in_path: bool,
    var: SpecOfVar,
    value: ser::SpecOfBinding,
) -> SpecOfBinding {
    if var.modifier != VarMod::Explode {
        let whole = single_text(value);
        SpecOfBinding::Scalar(whole.take(reach(vars, var.name, whole.len())))
    } else {
        match value {
            ser::SpecOfBinding::List(items) => if in_path {
                SpecOfBinding::PathExplode(ser::op_separator(op), group_value(op, var, value))
            } else {
                SpecOfBinding::QueryExplode(items)
            },
            ser::SpecOfBinding::Pairs(items) => SpecOfBinding::Assoc(
                if in_path {
                    ';'
                } else {
                    '&'
                },
                pairs_of(items),
            ),
            _ => SpecOfBinding::Empty,
        }
    }
}

/// The variables of the path and then those of the query.
pub open spec fn all_vars(template: SpecOfParsed) -> Seq<SpecOfVar> {
    binding::path_vars(template) + binding::query_vars(template)
}

/// What is read of the values of all the variables of a template.
pub open spec fn read_bindings(
    template: SpecOfParsed,
    bindings: Map<Seq<char>, ser::SpecOfBinding>,
) -> Seq<(Seq<char>, SpecOfBinding)> {
    let vars = all_vars(template);
    Seq::new(
        vars.len(),
        |i: int|
            (
                vars[i].name,
                read_binding(
                    ops_of(template.before_query())[i],
                    vars,
                    i < binding::path_vars(template).len(),
                    vars[i],
                    bindings[vars[i].name],
                ),
            ),
    )
}

/// The parameters that a query section holds itself.
pub open spec fn own_pairs(template: SpecOfParsed) -> Seq<(Seq<char>, Seq<char>)> {
    binding::fixed_pairs(parser::section_parts(template.query))
}

/// Whether parts begin with an expression such as `{?a,b}`, or with a literal such as `?a=1&b`, and
/// then are expressions such as `{&c}` and literals such as `&d=2`.
pub open spec fn is_query_form(parts: Seq<SpecOfPart>) -> bool {
    forall|i: int|
        0 <= i < parts.len() ==> match #[trigger] parts[i] {
            SpecOfPart::Lit(l) => l.len() > 0 && l[0] == (if i == 0 {
                '?'
            } else {
                '&'
            }),
            SpecOfPart::Expression(e) => e.vars.len() > 0 && e.operator == (if i == 0 {
                Op::Query
            } else {
                Op::QueryCont
            }),
            _ => false,
        }
}

/// What a part of a query section writes.
pub open spec fn written_part(part: SpecOfPart, bindings: Map<Seq<char>, ser::SpecOfBinding>) -> Seq<
    char,
> {
    match part {
        SpecOfPart::Lit(l) => l,
        _ => {
            let e = part.expression()->0;
            ser::mark(ser::op_prefix(e.operator)) + query_text(params_of(e.vars, bindings))
        },
    }
}

/// What a query section writes.
pub open spec fn written_section(
    parts: Seq<SpecOfPart>,
    bindings: Map<Seq<char>, ser::SpecOfBinding>,
) -> Seq<char>
    decreases parts.len(),
{
    if parts.len() == 0 {
        Seq::empty()
    } else {
        written_section(parts.drop_last(), bindings) + written_part(parts.last(), bindings)
    }
}

/// The query that a template writes: what its query section does, without the question mark.
pub open spec fn written_query(
    template: SpecOfParsed,
    bindings: Map<Seq<char>, ser::SpecOfBinding>,
) -> Seq<char> {
    let whole = written_section(parser::section_parts(template.query), bindings);
    if whole.len() == 0 {
        whole
    } else {
        whole.skip(1)
    }
}

/// The parameters that a query section writes: its own and those of its variables, as they come.
pub open spec fn section_pairs(
    parts: Seq<SpecOfPart>,
    bindings: Map<Seq<char>, ser::SpecOfBinding>,
) -> Seq<(Seq<char>, Seq<char>)>
    decreases parts.len(),
{
    if parts.len() == 0 {
        Seq::empty()
    } else {
        section_pairs(parts.drop_last(), bindings) + (match parts.last() {
            SpecOfPart::Lit(l) => form::pairs(
                '&' as u8,
                vstd::utf8::encode_utf8(binding::unmarked(l)),
            ),
            _ => pairs_given(parser::part_vars(parts.last()), bindings),
        })
    }
}

/// Whether the values for a template can be told from one another.
///
/// All the variables outside the fragment have values of their kinds, and none is in it. An exploded
/// variable has a name of its own, and pairs where it is the one for parameters that no variable
/// names, and else a list. Each part of the query begins where a parameter does. The names of its
/// variables can stand as they are, and those of the pairs, too; and no variable of the query has the
/// name of a parameter that the template or the pairs hold.
pub open spec fn are_told_apart(
    template: SpecOfParsed,
    bindings: Map<Seq<char>, ser::SpecOfBinding>,
) -> bool {
    let path = binding::path_vars(template);
    let query = binding::query_vars(template);
    let own = own_pairs(template);
    &&& parser::vars_of(parser::section_parts(template.fragment)).len() == 0
    &&& are_given(all_vars(template), bindings)
    &&& are_apart(all_vars(template))
    &&& is_query_form(parser::section_parts(template.query))
    &&& forall|i: int|
        0 <= i < path.len() && (#[trigger] path[i]).modifier == VarMod::Explode ==> (
        bindings[path[i].name] is Pairs <==> template.path_assoc == Some(path[i].name))
    &&& forall|i: int|
        0 <= i < query.len() ==> {
            &&& is_bare('&', (#[trigger] query[i]).name)
            &&& template.path_assoc != Some(query[i].name)
            &&& is_apart(query, own, bindings[query[i].name])
            &&& query[i].modifier == VarMod::Explode ==> (bindings[query[i].name] is Pairs
                <==> template.query_assoc == Some(query[i].name))
        }
    &&& forall|i: int|
        0 <= i < own.len() ==> !parser::names(query).contains((#[trigger] own[i]).0)
}

proof fn lemma_var_params(
    vars: Seq<SpecOfVar>,
    fixed: Seq<(Seq<char>, Seq<char>)>,
    var: SpecOfVar,
    value: ser::SpecOfBinding,
)
    requires
        is_bare('&', var.name),
        is_given(var, value),
        is_apart(vars, fixed, value),
    ensures
        are_bare('&', var_params(var, value)),
        decoded(var_params(var, value)) == var_pairs(var, value),
{
    let read = var_pairs(var, value);
    if value is List && var.modifier != VarMod::Explode {
        let items = value->List_0;
        let written = ser::list_text(Op::Query, ',', items);
        let bytes = escape::ascii_bytes(written);
        let encoded_items = escaped_items(Op::Query, items);
        assert(written =~= text::join(encoded_items, seq![',']));
        lemma_list_decoded(Op::Query, ',', items);
        lemma_ascii(written);
        assert forall|i: int| 0 <= i < written.len() implies #[trigger] written[i] != '&'
            && written[i] != '+' by {
            lemma_list_chars(Op::Query, ',', items, i);
        }
        assert(form::spaced(bytes) =~= bytes);
        let whole = text::join(items, seq![',']);
        vstd::utf8::encode_utf8_valid_utf8(whole);
        vstd::utf8::encode_utf8_decode_utf8(whole);
        assert(decoded(var_params(var, value)) =~= read);
    } else {
        assert(var_params(var, value) == encoded(read));
        assert forall|i: int| 0 <= i < read.len() implies is_bare('&', (#[trigger] read[i]).0) by {
            match value {
                ser::SpecOfBinding::Pairs(items) => {
                    assert(read[i] == pairs_of(items)[i]);
                },
                _ => {},
            }
        }
        lemma_encoded('&', read);
    }
}

proof fn lemma_params_bare(
    vars: Seq<SpecOfVar>,
    count: int,
    bindings: Map<Seq<char>, ser::SpecOfBinding>,
    others: Seq<SpecOfVar>,
    fixed: Seq<(Seq<char>, Seq<char>)>,
)
    requires
        0 <= count <= vars.len(),
        are_given(vars, bindings),
        forall|i: int|
            0 <= i < vars.len() ==> is_bare('&', (#[trigger] vars[i]).name) && is_apart(
                others,
                fixed,
                bindings[vars[i].name],
            ),
    ensures
        are_bare('&', params_of(vars.take(count), bindings)),
        decoded(params_of(vars.take(count), bindings)) == pairs_given(vars.take(count), bindings),
    decreases count,
{
    let some = vars.take(count);
    let all = params_of(some, bindings);
    if count == 0 {
        assert(decoded(all) =~= pairs_given(some, bindings));
    } else {
        let before = vars.take(count - 1);
        lemma_params_bare(vars, count - 1, bindings, others, fixed);
        assert(some.drop_last() =~= before);
        let var = vars[count - 1];
        let first = params_of(before, bindings);
        let own = var_params(var, bindings[var.name]);
        assert(is_given(var, bindings[var.name]));
        assert(is_bare('&', var.name) && is_apart(others, fixed, bindings[var.name]));
        lemma_var_params(others, fixed, var, bindings[var.name]);
        assert forall|j: int| 0 <= j < all.len() implies is_bare('&', (#[trigger] all[j]).0)
            && !all[j].1.contains('&') by {
            if j < first.len() {
                assert(all[j] == first[j]);
            } else {
                assert(all[j] == own[j - first.len()]);
            }
        }
        assert(decoded(all) =~= decoded(first) + decoded(own));
    }
}

proof fn lemma_given_concat(
    a: Seq<SpecOfVar>,
    b: Seq<SpecOfVar>,
    bindings: Map<Seq<char>, ser::SpecOfBinding>,
)
    ensures
        pairs_given(a + b, bindings) == pairs_given(a, bindings) + pairs_given(b, bindings),
    decreases b.len(),
{
    if b.len() == 0 {
        assert(a + b =~= a);
        assert(pairs_given(a, bindings) + pairs_given(b, bindings) =~= pairs_given(a, bindings));
    } else {
        lemma_given_concat(a, b.drop_last(), bindings);
        assert((a + b).drop_last() =~= a + b.drop_last());
        assert(pairs_given(a + b, bindings) =~= pairs_given(a, bindings) + pairs_given(
            b,
            bindings,
        ));
    }
}

proof fn lemma_ampersand(s: Seq<char>)
    requires
        s.len() > 0,
        s[0] == '&',
    ensures
        vstd::utf8::encode_utf8(s) == seq!['&' as u8] + vstd::utf8::encode_utf8(s.skip(1)),
{
    lemma_ascii(seq!['&']);
    assert(escape::ascii_bytes(seq!['&']) =~= seq!['&' as u8]);
    lemma_encode_concat(seq!['&'], s.skip(1));
    assert(seq!['&'] + s.skip(1) =~= s);
}

/// The parameters of an expression such as `{?a}` or `{&a}` are read back from what it writes.
proof fn lemma_expression_pairs(
    part: SpecOfPart,
    bindings: Map<Seq<char>, ser::SpecOfBinding>,
    vars: Seq<SpecOfVar>,
    fixed: Seq<(Seq<char>, Seq<char>)>,
)
    requires
        part is Expression,
        part->Expression_0.operator == Op::Query || part->Expression_0.operator == Op::QueryCont,
        are_given(parser::part_vars(part), bindings),
        forall|i: int|
            0 <= i < parser::part_vars(part).len() ==> is_bare(
                '&',
                (#[trigger] parser::part_vars(part)[i]).name,
            ) && is_apart(vars, fixed, bindings[parser::part_vars(part)[i].name]),
    ensures
        form::pairs(
            '&' as u8,
            vstd::utf8::encode_utf8(written_part(part, bindings).skip(1)),
        ) == pairs_given(parser::part_vars(part), bindings),
{
    let own = parser::part_vars(part);
    lemma_params_bare(own, own.len() as int, bindings, vars, fixed);
    assert(own.take(own.len() as int) =~= own);
    law_query_is_read_back(params_of(own, bindings));
    assert(written_part(part, bindings).skip(1) =~= query_text(params_of(own, bindings)));
}

proof fn lemma_section_pairs(
    parts: Seq<SpecOfPart>,
    bindings: Map<Seq<char>, ser::SpecOfBinding>,
    vars: Seq<SpecOfVar>,
    fixed: Seq<(Seq<char>, Seq<char>)>,
)
    requires
        parts.len() > 0,
        is_query_form(parts),
        are_given(parser::vars_of(parts), bindings),
        forall|i: int|
            0 <= i < parser::vars_of(parts).len() ==> is_bare(
                '&',
                (#[trigger] parser::vars_of(parts)[i]).name,
            ) && is_apart(vars, fixed, bindings[parser::vars_of(parts)[i].name]),
    ensures
        written_section(parts, bindings).len() > 0,
        written_section(parts, bindings)[0] == '?',
        form::pairs(
            '&' as u8,
            vstd::utf8::encode_utf8(written_section(parts, bindings).skip(1)),
        ) == section_pairs(parts, bindings),
    decreases parts.len(),
{
    let before = parts.drop_last();
    let last = parts.last();
    let all = parser::vars_of(parts);
    let earlier = parser::vars_of(before);
    let own = parser::part_vars(last);
    let whole = written_section(parts, bindings);
    let first = written_section(before, bindings);
    let added = written_part(last, bindings);
    assert(parts[parts.len() - 1] == last);
    assert forall|i: int| 0 <= i < own.len() implies bindings.dom().contains(
        (#[trigger] own[i]).name,
    ) && is_given(own[i], bindings[own[i].name]) && is_bare('&', own[i].name) && is_apart(
        vars,
        fixed,
        bindings[own[i].name],
    ) by {
        assert(all[earlier.len() + i] == own[i]);
    }
    if last is Expression {
        lemma_expression_pairs(last, bindings, vars, fixed);
    }
    if parts.len() == 1 {
        assert(before =~= Seq::empty());
        assert(first =~= Seq::empty());
        assert(whole =~= added);
        assert(section_pairs(before, bindings) =~= Seq::empty());
        match last {
            SpecOfPart::Lit(l) => {
                assert(section_pairs(parts, bindings) =~= form::pairs(
                    '&' as u8,
                    vstd::utf8::encode_utf8(l.skip(1)),
                ));
            },
            _ => {
                assert(section_pairs(parts, bindings) =~= pairs_given(own, bindings));
            },
        }
    } else {
        assert forall|i: int| 0 <= i < before.len() implies #[trigger] before[i] == parts[i] by {}
        assert forall|i: int| 0 <= i < earlier.len() implies bindings.dom().contains(
            (#[trigger] earlier[i]).name,
        ) && is_given(earlier[i], bindings[earlier[i].name]) && is_bare('&', earlier[i].name)
            && is_apart(vars, fixed, bindings[earlier[i].name]) by {
            assert(all[i] == earlier[i]);
        }
        lemma_section_pairs(before, bindings, vars, fixed);
        assert(added.len() > 0 && added[0] == '&');
        let a = vstd::utf8::encode_utf8(first.skip(1));
        let b = vstd::utf8::encode_utf8(added.skip(1));
        assert(whole.skip(1) =~= first.skip(1) + added);
        lemma_encode_concat(first.skip(1), added);
        lemma_ampersand(added);
        assert(vstd::utf8::encode_utf8(whole.skip(1)) =~= a.push('&' as u8) + b);
        form::law_pairs_add_up('&' as u8, a, b);
        if let SpecOfPart::Lit(l) = last {
            let nothing = Seq::<u8>::empty();
            form::law_pairs_add_up('&' as u8, nothing, b);
            assert(nothing.push('&' as u8) + b =~= vstd::utf8::encode_utf8(l));
            assert(form::pairs('&' as u8, nothing) + form::pairs('&' as u8, b) =~= form::pairs(
                '&' as u8,
                b,
            ));
        }
    }
}

proof fn lemma_query_pairs(
    template: SpecOfParsed,
    bindings: Map<Seq<char>, ser::SpecOfBinding>,
    query: Option<Seq<char>>,
)
    requires
        are_told_apart(template, bindings),
        template.query is Some ==> query == Some(written_query(template, bindings)),
    ensures
        binding::query_pairs(template, query) == section_pairs(
            parser::section_parts(template.query),
            bindings,
        ),
{
    let parts = parser::section_parts(template.query);
    lemma_given(template, bindings);
    if parts.len() > 0 {
        lemma_section_pairs(
            parts,
            bindings,
            binding::query_vars(template),
            own_pairs(template),
        );
    } else {
        let nothing = Seq::<char>::empty();
        assert(written_section(parts, bindings) =~= nothing);
        assert(vstd::utf8::encode_utf8(nothing) =~= Seq::empty());
    }
}

/// Of what a query section writes, its own parameters are none of a variable, and none that is left.
proof fn lemma_section_reads(
    vars: Seq<SpecOfVar>,
    fixed: Seq<(Seq<char>, Seq<char>)>,
    parts: Seq<SpecOfPart>,
    bindings: Map<Seq<char>, ser::SpecOfBinding>,
    name: Seq<char>,
)
    requires
        forall|i: int|
            0 <= i < binding::fixed_pairs(parts).len() ==> fixed.contains(
                #[trigger] binding::fixed_pairs(parts)[i],
            ) && !parser::names(vars).contains(binding::fixed_pairs(parts)[i].0),
    ensures
        ({
            let all = section_pairs(parts, bindings);
            let given = pairs_given(parser::vars_of(parts), bindings);
            &&& binding::query_scalars(vars, Map::empty(), all) == binding::query_scalars(
                vars,
                Map::empty(),
                given,
            )
            &&& binding::loose(vars, fixed, all) == binding::loose(vars, fixed, given)
            &&& parser::names(vars).contains(name) ==> binding::values_of(all, name)
                == binding::values_of(given, name)
        }),
    decreases parts.len(),
{
    if parts.len() > 0 {
        let before = parts.drop_last();
        let last = parts.last();
        let earlier = pairs_given(parser::vars_of(before), bindings);
        let own = pairs_given(parser::part_vars(last), bindings);
        let first = section_pairs(before, bindings);
        let fixed_before = binding::fixed_pairs(before);
        assert forall|i: int| 0 <= i < fixed_before.len() implies fixed.contains(
            #[trigger] fixed_before[i],
        ) && !parser::names(vars).contains(fixed_before[i].0) by {
            assert(binding::fixed_pairs(parts)[i] == fixed_before[i]);
        }
        lemma_section_reads(vars, fixed, before, bindings, name);
        lemma_given_concat(parser::vars_of(before), parser::part_vars(last), bindings);
        lemma_query_scalars_concat(vars, Map::empty(), earlier, own);
        lemma_loose_concat(vars, fixed, earlier, own);
        lemma_values_concat(earlier, own, name);
        if let SpecOfPart::Lit(l) = last {
            let added = form::pairs('&' as u8, vstd::utf8::encode_utf8(binding::unmarked(l)));
            assert forall|i: int| 0 <= i < added.len() implies fixed.contains(#[trigger] added[i])
                && !parser::names(vars).contains(added[i].0) && !binding::is_scalar(
                vars,
                added[i].0,
            ) by {
                assert(binding::fixed_pairs(parts)[fixed_before.len() + i] == added[i]);
                if binding::is_scalar(vars, added[i].0) {
                    lemma_named(vars, added[i].0);
                }
            }
            lemma_query_scalars_concat(vars, Map::empty(), first, added);
            if let Ok(scalars) = binding::query_scalars(vars, Map::empty(), first) {
                lemma_no_scalars(vars, scalars, added);
            }
            lemma_loose_concat(vars, fixed, first, added);
            lemma_none_loose(vars, fixed, added);
            lemma_values_concat(first, added, name);
            if parser::names(vars).contains(name) {
                assert forall|i: int| 0 <= i < added.len() implies (#[trigger] added[i]).0
                    != name by {
                    assert(!parser::names(vars).contains(added[i].0));
                }
                lemma_no_values(added, name);
                assert(binding::values_of(first, name) + binding::values_of(added, name)
                    =~= binding::values_of(first, name));
            }
            assert(parser::part_vars(last) =~= Seq::empty());
            assert(own =~= Seq::empty());
            assert(earlier + own =~= earlier);
            assert(binding::loose(vars, fixed, first) + binding::loose(vars, fixed, added)
                =~= binding::loose(vars, fixed, first));
        } else {
            lemma_query_scalars_concat(vars, Map::empty(), first, own);
            lemma_loose_concat(vars, fixed, first, own);
            lemma_values_concat(first, own, name);
        }
    }
}

/// What is read of a query that a template has written is what its variables wrote into it.
proof fn lemma_query_reads(
    template: SpecOfParsed,
    bindings: Map<Seq<char>, ser::SpecOfBinding>,
    query: Option<Seq<char>>,
    name: Seq<char>,
)
    requires
        are_told_apart(template, bindings),
        template.query is Some ==> query == Some(written_query(template, bindings)),
    ensures
        ({
            let vars = binding::query_vars(template);
            let all = binding::query_pairs(template, query);
            let given = pairs_given(vars, bindings);
            &&& binding::query_scalars(vars, Map::empty(), all) == binding::query_scalars(
                vars,
                Map::empty(),
                given,
            )
            &&& binding::loose(vars, own_pairs(template), all) == binding::loose(
                vars,
                own_pairs(template),
                given,
            )
            &&& parser::names(vars).contains(name) ==> binding::values_of(all, name)
                == binding::values_of(given, name)
        }),
{
    let own = own_pairs(template);
    let vars = binding::query_vars(template);
    lemma_query_pairs(template, bindings, query);
    assert forall|i: int| 0 <= i < own.len() implies own.contains(#[trigger] own[i])
        && !parser::names(vars).contains(own[i].0) by {}
    lemma_section_reads(
        vars,
        own,
        parser::section_parts(template.query),
        bindings,
        name,
    );
}

/// The variables of the path and those of the query have values of their kinds.
pub proof fn lemma_given(
    template: SpecOfParsed,
    bindings: Map<Seq<char>, ser::SpecOfBinding>,
)
    requires
        are_told_apart(template, bindings),
    ensures
        are_given(binding::query_vars(template), bindings),
        are_apart(binding::query_vars(template)),
        are_given(binding::path_vars(template), bindings),
        are_apart(binding::path_vars(template)),
{
    let path = binding::path_vars(template);
    let query = binding::query_vars(template);
    let vars = all_vars(template);
    assert forall|i: int| 0 <= i < query.len() implies bindings.dom().contains(
        (#[trigger] query[i]).name,
    ) && is_given(query[i], bindings[query[i].name]) by {
        assert(vars[path.len() + i] == query[i]);
    }
    assert forall|i: int| 0 <= i < path.len() implies bindings.dom().contains(
        (#[trigger] path[i]).name,
    ) && is_given(path[i], bindings[path[i].name]) by {
        assert(vars[i] == path[i]);
    }
    assert forall|i: int, j: int|
        0 <= i < query.len() && 0 <= j < query.len() && (#[trigger] query[i]).modifier
            == VarMod::Explode && (#[trigger] query[j]).name == query[i].name implies i == j by {
        assert(vars[path.len() + i] == query[i] && vars[path.len() + j] == query[j]);
    }
    assert forall|i: int, j: int|
        0 <= i < path.len() && 0 <= j < path.len() && (#[trigger] path[i]).modifier
            == VarMod::Explode && (#[trigger] path[j]).name == path[i].name implies i == j by {
        assert(vars[i] == path[i] && vars[j] == path[j]);
    }
}

proof fn lemma_other_pairs(
    template: SpecOfParsed,
    bindings: Map<Seq<char>, ser::SpecOfBinding>,
    query: Option<Seq<char>>,
)
    requires
        are_told_apart(template, bindings),
        template.query is Some ==> query == Some(written_query(template, bindings)),
    ensures
        binding::other_pairs(template, query) == assoc_pairs(
            binding::query_vars(template),
            bindings,
        ),
{
    let vars = binding::query_vars(template);
    let own = own_pairs(template);
    lemma_given(template, bindings);
    lemma_query_reads(template, bindings, query, Seq::empty());
    assert(vars.take(vars.len() as int) =~= vars);
    lemma_loose(vars, vars.len() as int, bindings, own);
}

proof fn lemma_one_binding(
    template: SpecOfParsed,
    bindings: Map<Seq<char>, ser::SpecOfBinding>,
    query: Option<Seq<char>>,
    captures: Seq<(Seq<char>, Option<Seq<char>>)>,
    scalars: Map<Seq<char>, Seq<char>>,
    i: int,
)
    requires
        are_told_apart(template, bindings),
        template.query is Some ==> query == Some(written_query(template, bindings)),
        are_caught(
            captures,
            ops_of(template.before_query()),
            binding::path_vars(template),
            bindings,
        ),
        are_left(
            scalars,
            binding::query_vars(template) + binding::path_vars(template),
            bindings,
        ),
        0 <= i < all_vars(template).len(),
    ensures
        binding::binding_of(
            all_vars(template)[i].name,
            binding::found_for(template, query, captures, scalars, all_vars(template)[i].name),
        ) == Ok::<SpecOfBinding, SpecOfError>(read_bindings(template, bindings)[i].1),
{
    let path = binding::path_vars(template);
    let asked = binding::query_vars(template);
    let vars = all_vars(template);
    let var = vars[i];
    let name = var.name;
    let value = bindings[name];
    let found = binding::found_for(template, query, captures, scalars, name);
    let own = own_pairs(template);
    lemma_given(template, bindings);
    assert(is_given(vars[i], value));
    let len = scalar_of(bindings, name).len();
    lemma_reach_concat(asked, path, name, len);
    lemma_reach_concat(path, asked, name, len);
    lemma_reach(vars, name, len);
    assert(is_left(scalars, asked + path, bindings, name));
    assert(scalars.dom().contains(name) <==> reach(asked + path, name, len) >= 0);
    if var.modifier != VarMod::Explode {
        assert(binding::is_scalar(vars, name)) by {
            assert(vars[i].name == name);
        }
        assert(found.scalar == Some(scalars[name]));
    } else {
        lemma_exploded_alone(vars, i);
        assert(found.scalar is None);
        if i < path.len() {
            assert(path[i] == var);
            assert(!binding::is_explode(asked, name)) by {
                if binding::is_explode(asked, name) {
                    let e = SpecOfVar { name, modifier: VarMod::Explode };
                    let k = choose|k: int| 0 <= k < asked.len() && asked[k] == e;
                    assert(vars[path.len() + k].name == vars[i].name);
                }
            }
            assert(found.query is None);
            let op = ops_of(template.before_query())[i];
            assert(is_decodable(op, path[i], value));
            assert(render::capture_name(var) == name);
            lemma_lists(template.before_query(), i, template.path_assoc, captures);
            match value {
                ser::SpecOfBinding::Pairs(items) => {
                    let sep = ser::op_separator(op);
                    lemma_pairs_text(op, sep, items);
                    let list = pairs_of(items);
                    assert forall|k: int| 0 <= k < list.len() implies is_bare(
                        sep,
                        (#[trigger] list[k]).0,
                    ) by {
                        assert(list[k] == pairs_of(items)[k]);
                    }
                    lemma_encoded(sep, list);
                    law_parameters_are_read_back(sep, encoded(list));
                },
                _ => {},
            }
        } else {
            let k = i - path.len();
            assert(asked[k] == var);
            assert(!binding::is_explode(path, name)) by {
                if binding::is_explode(path, name) {
                    let e = SpecOfVar { name, modifier: VarMod::Explode };
                    let j = choose|j: int| 0 <= j < path.len() && path[j] == e;
                    assert(vars[j].name == vars[i].name);
                }
            }
            lemma_no_lists(template.before_query(), name, template.path_assoc, captures);
            assert(found.path is None);
            lemma_exploded_alone(asked, k);
            lemma_query_reads(template, bindings, query, name);
            assert(parser::names(asked)[k] == name);
            assert(asked.take(asked.len() as int) =~= asked);
            lemma_param_values(asked, asked.len() as int, bindings, own, k);
            let items = binding::values_of(binding::query_pairs(template, query), name);
            assert(items =~= binding::values_of(pairs_given(asked, bindings), name));
            lemma_other_pairs(template, bindings, query);
            assert forall|j: int| 0 <= j < asked.len() && j != k && value is Pairs implies !(
            bindings[(#[trigger] asked[j]).name] is Pairs) by {
                if bindings[asked[j].name] is Pairs {
                    assert(is_given(asked[j], bindings[asked[j].name]));
                    assert(template.query_assoc == Some(asked[k].name));
                    assert(template.query_assoc == Some(asked[j].name));
                }
            }
            if value is Pairs {
                lemma_assoc_pairs(asked, bindings, k);
            }
        }
    }
}

proof fn lemma_bindings(
    template: SpecOfParsed,
    bindings: Map<Seq<char>, ser::SpecOfBinding>,
    query: Option<Seq<char>>,
    captures: Seq<(Seq<char>, Option<Seq<char>>)>,
    scalars: Map<Seq<char>, Seq<char>>,
    count: int,
)
    requires
        are_told_apart(template, bindings),
        template.query is Some ==> query == Some(written_query(template, bindings)),
        are_caught(
            captures,
            ops_of(template.before_query()),
            binding::path_vars(template),
            bindings,
        ),
        are_left(
            scalars,
            binding::query_vars(template) + binding::path_vars(template),
            bindings,
        ),
        0 <= count <= all_vars(template).len(),
    ensures
        binding::bindings_of(
            template,
            query,
            captures,
            scalars,
            parser::names(all_vars(template)).take(count),
        ) == Ok::<Seq<(Seq<char>, SpecOfBinding)>, SpecOfError>(
            read_bindings(template, bindings).take(count),
        ),
    decreases count,
{
    let names = parser::names(all_vars(template)).take(count);
    let read = read_bindings(template, bindings);
    if count == 0 {
        assert(names =~= Seq::empty());
        assert(read.take(0) =~= Seq::empty());
    } else {
        lemma_bindings(template, bindings, query, captures, scalars, count - 1);
        assert(names.drop_last() =~= parser::names(all_vars(template)).take(count - 1));
        assert(names.last() == all_vars(template)[count - 1].name);
        lemma_one_binding(template, bindings, query, captures, scalars, count - 1);
        assert(read.take(count) =~= read.take(count - 1).push(read[count - 1]));
    }
}

/// The values that a template was filled with are what its query and what the groups have taken
/// give, where these hold what its expressions wrote into them.
pub proof fn law_values_are_read_back(
    template: SpecOfParsed,
    bindings: Map<Seq<char>, ser::SpecOfBinding>,
    query: Option<Seq<char>>,
    captures: Seq<(Seq<char>, Option<Seq<char>>)>,
)
    requires
        are_told_apart(template, bindings),
        template.query is Some ==> query == Some(written_query(template, bindings)),
        are_caught(
            captures,
            ops_of(template.before_query()),
            binding::path_vars(template),
            bindings,
        ),
    ensures
        binding::bound(template, query, captures) == Ok::<
            Seq<(Seq<char>, SpecOfBinding)>,
            SpecOfError,
        >(read_bindings(template, bindings)),
{
    let path = binding::path_vars(template);
    let asked = binding::query_vars(template);
    let vars = all_vars(template);
    let own = own_pairs(template);
    let given = pairs_given(asked, bindings);
    let fragment = parser::section_parts(template.fragment);
    lemma_vars_concat(template.before_query(), parser::section_parts(template.query));
    lemma_vars_concat(
        template.before_query() + parser::section_parts(template.query),
        fragment,
    );
    assert(parser::vars_of(template.parts()) =~= vars);
    lemma_given(template, bindings);
    lemma_query_reads(template, bindings, query, Seq::empty());
    lemma_other_pairs(template, bindings, query);
    assert(asked.take(asked.len() as int) =~= asked);
    assert(path.take(path.len() as int) =~= path);

    lemma_query_scalars(asked, asked.len() as int, bindings, own);
    let first = binding::query_scalars(asked, Map::empty(), given)->Ok_0;
    if template.query_assoc is None {
        assert forall|j: int| 0 <= j < asked.len() implies !(bindings[(
        #[trigger] asked[j]).name] is Pairs) by {
            assert(is_given(asked[j], bindings[asked[j].name]));
        }
        lemma_assoc_pairs(asked, bindings, asked.len() as int);
    }
    lemma_path_scalars(
        first,
        asked,
        ops_of(template.before_query()),
        path,
        path.len() as int,
        bindings,
        captures,
    );
    let scalars = binding::path_scalars(first, binding::all_captures(path), captures)->Ok_0;
    let names = parser::names(vars);
    lemma_bindings(template, bindings, query, captures, scalars, vars.len() as int);
    assert(names.take(vars.len() as int) =~= names);
    let read = read_bindings(template, bindings);
    assert(read.take(vars.len() as int) =~= read);
}

/// The values that a template was filled with are what contracting its URI gives, where the
/// regular expression cuts out of the URI what the expressions wrote into it.
pub proof fn law_contract_undoes_expand(
    template: SpecOfParsed,
    bindings: Map<Seq<char>, ser::SpecOfBinding>,
    uri: binding::SpecOfUri,
    captures: Seq<(Seq<char>, Option<Seq<char>>)>,
)
    requires
        crate::backend::regex_error(render::template_re(template)) is None,
        crate::backend::found_in(render::template_re(template), binding::url_of(uri)) == Some(
            captures,
        ),
        are_told_apart(template, bindings),
        template.query is Some ==> uri.query == Some(written_query(template, bindings)),
        are_caught(
            captures,
            ops_of(template.before_query()),
            binding::path_vars(template),
            bindings,
        ),
    ensures
        crate::single::contracted(template, uri) == Ok::<
            Seq<(Seq<char>, SpecOfBinding)>,
            SpecOfError,
        >(read_bindings(template, bindings)),
{
    law_values_are_read_back(template, bindings, uri.query, captures);
}

} // verus!
