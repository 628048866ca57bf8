//! What is read from the values of variables, and how the ways to read them go together.
use crate::binding;
use crate::de;
use crate::de::{SpecOfBinding, SpecOfKind};
use crate::deserializer;
use crate::deserializer::SpecOfKey;
use crate::escape;
use crate::form;
use crate::primitive;
use crate::round_trip;
use crate::text;
use vstd::prelude::*;

verus! {

/// A tuple is refused if and only if it wants more values than there are to be read. Only the items
/// of a text of the path are not counted before they are read.
pub proof fn law_tuples_have_enough_values(params: Seq<(Seq<char>, SpecOfBinding)>, len: int)
    ensures
        deserializer::sequence_kind(params) is Path ==> deserializer::tuple_error(params, len)
            is None,
        deserializer::sequence_kind(params) !is Path ==> (deserializer::tuple_error(params, len)
            is None <==> len <= deserializer::sequence_of(params).len()),
        deserializer::sequence_kind(params) is Path <==> params.len() == 1
            && params[0].1 is PathExplode,
        deserializer::tuple_error(params, len) matches Some(
            SpecOfKind::WrongNumberOfParameters { got, expected },
        ) ==> got == deserializer::sequence_of(params).len() && expected == len,
        deserializer::tuple_error(params, len) matches Some(
            SpecOfKind::CantFillParameters { names, expected },
        ) ==> names.len() == params.len() && expected == len && (forall|i: int|
            0 <= i < params.len() ==> #[trigger] names[i] == params[i].0),
{
}

/// The values of several parameters are read one by one, each under its own name, and so is a single
/// one that has no items.
pub proof fn law_sequences_keep_their_values(params: Seq<(Seq<char>, SpecOfBinding)>)
    ensures
        params.len() != 1 ==> deserializer::sequence_of(params) == params,
        params.len() == 1 && params[0].1 !is PathExplode && params[0].1 !is QueryExplode
            ==> deserializer::sequence_of(params) == params,
        params.len() == 1 ==> (params[0].1 matches SpecOfBinding::QueryExplode(items)
            ==> deserializer::sequence_of(params).len() == items.len() && (forall|i: int|
            0 <= i < items.len() ==> #[trigger] deserializer::sequence_of(params)[i] == (
                params[0].0,
                SpecOfBinding::Scalar(items[i]),
            ))),
{
}

/// One text is read as it is, whether as a value, as one under a key or as the name of a variant.
/// Where there is not exactly one parameter, there is none such, and the error names them all.
pub proof fn law_one_text(
    params: Seq<(Seq<char>, SpecOfBinding)>,
    expected: Seq<char>,
    name: Seq<char>,
    s: Seq<char>,
)
    ensures
        deserializer::single_text(seq![(name, SpecOfBinding::Scalar(s))], expected) == Ok::<
            Seq<char>,
            SpecOfKind,
        >(s),
        deserializer::variant_of(seq![(name, SpecOfBinding::Scalar(s))]) == Ok::<
            Seq<char>,
            SpecOfKind,
        >(s),
        de::binding_text(SpecOfBinding::Scalar(s), expected) == Ok::<Seq<char>, SpecOfKind>(s),
        params.len() != 1 ==> deserializer::single_text(params, expected) is Err
            && deserializer::variant_of(params) is Err,
        deserializer::single_text(params, expected) is Ok ==> params.len() == 1
            && deserializer::single_text(params, expected) == de::binding_text(
            params[0].1,
            expected,
        ),
        deserializer::variant_of(params) is Ok ==> deserializer::variant_of(params)
            == deserializer::single_text(params, expected),
        params.len() == 1 ==> (params[0].1 matches SpecOfBinding::QueryExplode(_)
            ==> deserializer::single_text(params, expected) is Err && de::binding_text(
            params[0].1,
            expected,
        ) is Err),
        params.len() != 1 ==> (deserializer::single_text(params, expected) matches Err(
            SpecOfKind::CantFillParameters { names, expected },
        ) && expected == 1 && names.len() == params.len() && forall|i: int|
            0 <= i < params.len() ==> #[trigger] names[i] == params[i].0),
{
}

/// Whether elements are texts whose names are their numbers.
pub open spec fn are_numbered(
    elements: Seq<(Seq<char>, SpecOfBinding)>,
    items: Seq<Seq<char>>,
) -> bool {
    &&& elements.len() == items.len()
    &&& forall|i: int|
        0 <= i < items.len() ==> (#[trigger] elements[i]).1 == SpecOfBinding::Scalar(items[i])
            && primitive::integer(elements[i].0, false) == Some(i)
}

proof fn lemma_numbered(items: Seq<Seq<char>>)
    ensures
        are_numbered(deserializer::items_numbered(items), items),
{
    let elements = deserializer::items_numbered(items);
    assert forall|i: int| 0 <= i < items.len() implies (#[trigger] elements[i]).1
        == SpecOfBinding::Scalar(items[i]) && primitive::integer(elements[i].0, false) == Some(
        i,
    ) by {
        primitive::law_integers_are_read_back(i);
    }
}

/// The items of a value are read in their order, each under its number: those that stand between the
/// commas of a text under a key, and those of a parameter that comes more than once. A text at an
/// index, or in no place that is known, has no items.
pub proof fn law_items_are_read(
    key: Seq<char>,
    at: Option<SpecOfKey>,
    items: Seq<Seq<char>>,
    wanted: Seq<char>,
)
    requires
        items.len() > 0,
        forall|i: int| 0 <= i < items.len() ==> !(#[trigger] items[i]).contains(','),
    ensures
        deserializer::inner_sequence(
            Some(SpecOfKey::Key(key)),
            SpecOfBinding::Scalar(text::join(items, seq![','])),
            wanted,
        ) matches Ok(Some(elements)) && are_numbered(elements, items),
        deserializer::inner_sequence(at, SpecOfBinding::QueryExplode(items), wanted) matches Ok(
            Some(elements),
        ) && are_numbered(elements, items),
        at !is Some || at->0 is Idx ==> deserializer::inner_sequence(
            at,
            SpecOfBinding::Scalar(text::join(items, seq![','])),
            wanted,
        ) is Err,
        deserializer::inner_sequence(at, SpecOfBinding::Empty, wanted) == Ok::<
            Option<Seq<(Seq<char>, SpecOfBinding)>>,
            SpecOfKind,
        >(None),
{
    text::law_split_undoes_join(items, ',');
    lemma_numbered(items);
}

/// The items of a text of the path are read the same way, whether they are the values of a sequence
/// or those inside a value.
pub proof fn law_path_items_are_read(
    name: Seq<char>,
    at: Option<SpecOfKey>,
    sep: char,
    joined: Seq<char>,
    wanted: Seq<char>,
)
    ensures
        deserializer::inner_sequence(at, SpecOfBinding::PathExplode(sep, joined), wanted) matches Ok(
            Some(elements),
        ) && are_numbered(elements, de::path_items(sep, joined)),
        ({
            let sequence = deserializer::sequence_of(
                seq![(name, SpecOfBinding::PathExplode(sep, joined))],
            );
            &&& sequence.len() == text::split(joined, sep).len()
            &&& forall|i: int|
                0 <= i < sequence.len() ==> #[trigger] sequence[i] == (
                    name,
                    SpecOfBinding::Scalar(de::plain_text(text::split(joined, sep)[i])),
                )
        }),
{
    lemma_numbered(de::path_items(sep, joined));
}

/// The names and values that no variable takes are the entries of a map, in their order, and the
/// values of a sequence. Of what is empty there are none, and neither a text nor the values of a
/// parameter that comes more than once are a map.
pub proof fn law_entries_are_read(
    sep: char,
    pairs: Seq<(Seq<char>, Seq<char>)>,
    at: Option<SpecOfKey>,
    wanted: Seq<char>,
    s: Seq<char>,
    items: Seq<Seq<char>>,
)
    ensures
        deserializer::inner_map(SpecOfBinding::Assoc(sep, pairs)) matches Ok(Some(entries))
            && entries.len() == pairs.len() && (forall|i: int|
            0 <= i < pairs.len() ==> #[trigger] entries[i] == (
                pairs[i].0,
                SpecOfBinding::Scalar(pairs[i].1),
            )),
        deserializer::inner_sequence(at, SpecOfBinding::Assoc(sep, pairs), wanted)
            == deserializer::inner_map(SpecOfBinding::Assoc(sep, pairs)),
        deserializer::inner_map(SpecOfBinding::Empty) == Ok::<
            Option<Seq<(Seq<char>, SpecOfBinding)>>,
            SpecOfKind,
        >(None),
        deserializer::inner_map(SpecOfBinding::Scalar(s)) is Err,
        deserializer::inner_map(SpecOfBinding::QueryExplode(items)) is Err,
{
}

/// The names and values that no variable takes, as one text, are what stands between the separators
/// in it.
pub proof fn law_entries_as_text(
    sep: char,
    pairs: Seq<(Seq<char>, Seq<char>)>,
    expected: Seq<char>,
    i: int,
)
    requires
        0 <= i < pairs.len(),
        sep != '=',
        forall|k: int|
            0 <= k < pairs.len() ==> !(#[trigger] pairs[k]).0.contains(sep) && !pairs[k].1.contains(
                sep,
            ),
    ensures
        de::binding_text(SpecOfBinding::Assoc(sep, pairs), expected) matches Ok(whole)
            && text::split(whole, sep).len() == pairs.len() && text::split(whole, sep)[i]
            == pairs[i].0 + seq!['='] + pairs[i].1,
{
    let list = de::equations(pairs);
    assert forall|k: int| 0 <= k < list.len() implies !(#[trigger] list[k]).contains(sep) by {
        assert(!pairs[k].0.contains(sep) && !pairs[k].1.contains(sep));
        if list[k].contains(sep) {
            let j = choose|j: int| 0 <= j < list[k].len() && list[k][j] == sep;
            if j < pairs[k].0.len() {
                assert(pairs[k].0.contains(pairs[k].0[j]));
            } else if j > pairs[k].0.len() {
                assert(pairs[k].1.contains(pairs[k].1[j - pairs[k].0.len() - 1]));
            }
        }
    }
    text::law_split_undoes_join(list, sep);
    assert(list[i] =~= pairs[i].0 + seq!['='] + pairs[i].1);
}

/// Why a text could not be read names the text, the type that was wanted and the place, as far as it
/// is known.
pub proof fn law_failures_name_the_place(
    at: Option<SpecOfKey>,
    value: Seq<char>,
    expected: Seq<char>,
)
    ensures
        match deserializer::failure_at(at, value, expected) {
            SpecOfKind::ParseErrorAtKey { key, value: v, expected_type } => at == Some(
                SpecOfKey::Key(key),
            ) && v == value && expected_type == expected,
            SpecOfKind::ParseErrorAtIndex { index, value: v, expected_type } => at is Some
                && at->0 is Idx && at->0->Idx_0 == index && v == value && expected_type == expected,
            SpecOfKind::ParseError { value: v, expected_type } => at is None && v == value
                && expected_type == expected,
            _ => false,
        },
{
}

/// Whether a text is another one with something before it and behind it.
pub open spec fn is_around(s: Seq<char>, before: Seq<char>, part: Seq<char>, behind: Seq<char>) -> bool {
    s == before + part + behind
}

/// Whether a text stands within another one.
pub open spec fn is_within(part: Seq<char>, s: Seq<char>) -> bool {
    exists|before: Seq<char>, behind: Seq<char>| is_around(s, before, part, behind)
}

proof fn lemma_within(s: Seq<char>, before: Seq<char>, part: Seq<char>, behind: Seq<char>)
    requires
        s =~= before + part + behind,
    ensures
        is_within(part, s),
{
    assert(is_around(s, before, part, behind));
}

/// What an error says names the value that could not be read, the type that was wanted, the place and
/// the numbers, as far as the error has them.
pub proof fn law_messages_name_what_went_wrong(kind: SpecOfKind)
    ensures
        ({
            let message = de::message_of(kind);
            match kind {
                SpecOfKind::WrongNumberOfParameters { got, expected } => is_within(
                    text::decimal(got as nat),
                    message,
                ) && is_within(text::decimal(expected as nat), message),
                SpecOfKind::CantFillParameters { names, expected } => is_within(
                    text::join(de::debug_texts(names), ", "@),
                    message,
                ) && is_within(text::decimal(names.len()), message) && is_within(
                    text::decimal(expected as nat),
                    message,
                ),
                SpecOfKind::ParseErrorAtKey { key, value, expected_type } => is_within(key, message)
                    && is_within(de::debug_text(value), message) && is_within(
                    expected_type,
                    message,
                ),
                SpecOfKind::ParseErrorAtIndex { index, value, expected_type } => is_within(
                    text::decimal(index as nat),
                    message,
                ) && is_within(de::debug_text(value), message) && is_within(
                    expected_type,
                    message,
                ),
                SpecOfKind::ParseError { value, expected_type } => is_within(
                    de::debug_text(value),
                    message,
                ) && is_within(expected_type, message),
                SpecOfKind::UnsupportedType { name } => is_within(name, message),
                SpecOfKind::MismatchedValue { expected_type } => is_within(expected_type, message),
                SpecOfKind::Message(m) => message == m,
            }
        }),
{
    let message = de::message_of(kind);
    match kind {
        SpecOfKind::WrongNumberOfParameters { got, expected } => {
            let a = "Wrong number of path arguments for `Path`. Expected "@;
            let wanted = text::decimal(expected as nat);
            let b = " but got "@;
            let found = text::decimal(got as nat);
            let note = de::single_note(expected);
            lemma_within(message, a, wanted, b + found + note);
            lemma_within(message, a + wanted + b, found, note);
        },
        SpecOfKind::CantFillParameters { names, expected } => {
            let a = "Wrong number of path arguments for `Path`. Variables ["@;
            let list = text::join(de::debug_texts(names), ", "@);
            let b = "]("@;
            let count = text::decimal(names.len());
            let c = ") but expected "@;
            let wanted = text::decimal(expected as nat);
            let note = de::single_note(expected);
            lemma_within(message, a, list, b + count + c + wanted + note);
            lemma_within(message, a + list + b, count, c + wanted + note);
            lemma_within(message, a + list + b + count + c, wanted, note);
        },
        SpecOfKind::ParseErrorAtKey { key, value, expected_type } => {
            let a = "Cannot parse `"@;
            let b = "` with value `"@;
            let shown = de::debug_text(value);
            let c = "` to a `"@;
            let d = "`"@;
            lemma_within(message, a, key, b + shown + c + expected_type + d);
            lemma_within(message, a + key + b, shown, c + expected_type + d);
            lemma_within(message, a + key + b + shown + c, expected_type, d);
        },
        SpecOfKind::ParseErrorAtIndex { index, value, expected_type } => {
            let a = "Cannot parse value at index "@;
            let at = text::decimal(index as nat);
            let b = " with value `"@;
            let shown = de::debug_text(value);
            let c = "` to a `"@;
            let d = "`"@;
            lemma_within(message, a, at, b + shown + c + expected_type + d);
            lemma_within(message, a + at + b, shown, c + expected_type + d);
            lemma_within(message, a + at + b + shown + c, expected_type, d);
        },
        SpecOfKind::ParseError { value, expected_type } => {
            let a = "Cannot parse `"@;
            let shown = de::debug_text(value);
            let c = "` to a `"@;
            let d = "`"@;
            lemma_within(message, a, shown, c + expected_type + d);
            lemma_within(message, a + shown + c, expected_type, d);
        },
        SpecOfKind::UnsupportedType { name } => {
            lemma_within(message, "Unsupported type `"@, name, "`"@);
        },
        SpecOfKind::MismatchedValue { expected_type } => {
            lemma_within(message, "value not suitable for type `"@, expected_type, "`"@);
        },
        SpecOfKind::Message(m) => {
            assert(message == m);
        },
    }
}

/// The parameters of a path, with a separator between them, are the entries of a map, in their order,
/// each with the value that its text stands for.
pub proof fn law_path_entries_are_read(sep: char, list: Seq<(Seq<char>, Seq<char>)>)
    requires
        round_trip::is_separator(sep),
        round_trip::are_bare(sep, list),
    ensures
        deserializer::inner_map(
            SpecOfBinding::PathExplode(sep, round_trip::parameters_text(sep, list)),
        ) matches Ok(Some(entries)) && entries.len() == list.len() && forall|i: int|
            0 <= i < list.len() ==> #[trigger] entries[i] == (
                list[i].0,
                SpecOfBinding::Scalar(form::decoded(vstd::utf8::encode_utf8(list[i].1))),
            ),
{
    round_trip::law_parameters_are_read_back(sep, list);
}

/// An encoded text of the path stands for the text that it encodes, and for itself where that is no
/// text.
pub proof fn law_encoded_texts(encoded: Seq<char>)
    ensures
        match binding::decoded(encoded) {
            Some(plain) => de::plain_text(encoded) == plain && vstd::utf8::encode_utf8(plain)
                == escape::percent_decoded(vstd::utf8::encode_utf8(encoded)),
            None => de::plain_text(encoded) == encoded && !vstd::utf8::valid_utf8(
                escape::percent_decoded(vstd::utf8::encode_utf8(encoded)),
            ),
        },
{
    let bytes = escape::percent_decoded(vstd::utf8::encode_utf8(encoded));
    if vstd::utf8::valid_utf8(bytes) {
        vstd::utf8::decode_utf8_encode_utf8(bytes);
    }
}

} // verus!
