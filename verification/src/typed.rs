//! Numbers, words and lists that templates are filled with are what is read back.
use crate::given::SpecOfGiven;
use crate::parser;
use crate::parser::{SpecOfParsed, VarMod};
use crate::primitive;
use crate::primitive::Primitive;
use crate::reading;
use crate::round_trip;
use crate::ser;
use crate::serializer;
use crate::single;
use crate::text;
use crate::value;
use crate::value::{EntriesKind, ItemsKind, Value};
use crate::FillPolicy;
use vstd::prelude::*;

verus! {

/// Whether a text is one that the value of a type is read from, where it is a single value.
pub open spec fn is_text_of(s: Seq<char>, value: Value) -> bool {
    match value {
        Value::U64(n) => u64::read(s) == Some(n) && primitive::integer(s, false) == Some(n as int),
        Value::I64(n) => i64::read(s) == Some(n) && primitive::integer(s, true) == Some(n as int),
        Value::Bool(b) => bool::read(s) == Some(b),
        Value::Char(c) => char::read(s) == Some(c),
        Value::Str(t) => s == t@,
        Value::Bytes(bytes) => vstd::utf8::encode_utf8(s) == bytes@,
        _ => false,
    }
}

/// Whether a value is a single one: a number, a word, a character, a text, or the UTF-8 of one.
pub open spec fn is_single(value: Value) -> bool {
    match value {
        Value::U64(_) | Value::I64(_) | Value::Bool(_) | Value::Char(_) | Value::Str(_) => true,
        Value::Bytes(bytes) => vstd::utf8::valid_utf8(bytes@),
        _ => false,
    }
}

/// The text that a variable is filled with for a single value is one that the value is read from,
/// and so is the text of an item, and that of a key.
pub proof fn law_single_values_are_read_back(value: Value)
    requires
        is_single(value),
    ensures
        serializer::binding_of(value) matches Ok(ser::SpecOfBinding::Scalar(s)) && is_text_of(
            s,
            value,
        ),
        serializer::item_text(value) matches Ok(Some(s)) && is_text_of(s, value),
        serializer::key_text(value) matches Ok(s) && is_text_of(s, value),
{
    match value {
        Value::U64(n) => {
            primitive::law_integers_are_read_back(n as int);
        },
        Value::I64(n) => {
            primitive::law_integers_are_read_back(n as int);
        },
        Value::Bool(b) => {
            primitive::law_bools_are_words(
                if b {
                    "true"@
                } else {
                    "false"@
                },
                b,
            );
        },
        Value::Char(c) => {
            primitive::law_chars_are_texts(seq![c], c);
        },
        Value::Bytes(bytes) => {
            vstd::utf8::decode_utf8_encode_utf8(bytes@);
        },
        _ => {},
    }
}

/// The same integer has the same text, whether it is signed or not, and that text begins with a zero
/// only where it is all of it.
pub proof fn law_one_integer_has_one_text(n: i64)
    requires
        n >= 0,
    ensures
        serializer::binding_of(Value::I64(n)) == serializer::binding_of(Value::U64(n as u64)),
        serializer::binding_of(Value::I64(n)) matches Ok(ser::SpecOfBinding::Scalar(s)) && s.len()
            > 0 && (s[0] == '0' ==> s.len() == 1),
{
    lemma_no_leading_zero(n as nat);
}

proof fn lemma_no_leading_zero(n: nat)
    ensures
        text::decimal(n).len() > 0,
        text::decimal(n)[0] == '0' ==> text::decimal(n).len() == 1 && n == 0,
    decreases n,
{
    if n >= 10 {
        lemma_no_leading_zero(n / 10);
        assert(text::decimal(n)[0] == text::decimal(n / 10)[0]);
    }
}

/// A value that is wrapped fills a variable as the value does.
pub proof fn law_wrapping_changes_nothing(inner: Value)
    ensures
        serializer::binding_of(Value::Wrapped(Box::new(inner))) == serializer::binding_of(inner),
        serializer::item_text(Value::Wrapped(Box::new(inner))) == serializer::item_text(inner),
        serializer::key_text(Value::Wrapped(Box::new(inner))) == serializer::key_text(inner),
{
    assert(value::unwrapped(Value::Wrapped(Box::new(inner))) == value::unwrapped(inner));
}

/// A list of single values fills a variable with a text for each of them, in order.
pub proof fn law_lists_keep_their_items(kind: ItemsKind, len: Option<usize>, items: Vec<Value>)
    requires
        forall|i: int| 0 <= i < items@.len() ==> is_single(#[trigger] items@[i]),
    ensures
        serializer::binding_of(Value::Items(kind, len, items)) matches Ok(
            ser::SpecOfBinding::List(texts),
        ) && texts.len() == items@.len() && forall|i: int|
            0 <= i < texts.len() ==> is_text_of(#[trigger] texts[i], items@[i]),
{
    lemma_listed(items@);
}

proof fn lemma_listed(items: Seq<Value>)
    requires
        forall|i: int| 0 <= i < items.len() ==> is_single(#[trigger] items[i]),
    ensures
        serializer::listed(items) matches Ok(texts) && texts.len() == items.len() && forall|i: int|
            0 <= i < texts.len() ==> is_text_of(#[trigger] texts[i], items[i]),
    decreases items.len(),
{
    if items.len() > 0 {
        let before = items.drop_last();
        assert forall|i: int| 0 <= i < before.len() implies is_single(#[trigger] before[i]) by {
            assert(before[i] == items[i]);
        }
        lemma_listed(before);
        assert(is_single(items[items.len() - 1]));
        law_single_values_are_read_back(items.last());
        let texts = serializer::listed(items)->Ok_0;
        let earlier = serializer::listed(before)->Ok_0;
        assert forall|i: int| 0 <= i < texts.len() implies is_text_of(
            #[trigger] texts[i],
            items[i],
        ) by {
            if i < earlier.len() {
                assert(texts[i] == earlier[i]);
                assert(before[i] == items[i]);
            }
        }
    }
}

/// An item that is nothing is left out of a list, wherever it stands.
pub proof fn law_lists_leave_nothing_out_but_nothing(
    before: Seq<Value>,
    nothing: Value,
    after: Seq<Value>,
)
    requires
        nothing is Null || nothing is Unit || nothing is UnitStruct || nothing is UnitVariant,
    ensures
        serializer::listed(before.push(nothing) + after) == serializer::listed(before + after),
    decreases after.len(),
{
    if after.len() == 0 {
        assert(before.push(nothing) + after =~= before.push(nothing));
        assert(before.push(nothing).drop_last() =~= before);
        assert(before + after =~= before);
    } else {
        let rest = after.drop_last();
        law_lists_leave_nothing_out_but_nothing(before, nothing, rest);
        assert((before.push(nothing) + after).drop_last() =~= before.push(nothing) + rest);
        assert((before + after).drop_last() =~= before + rest);
    }
}

/// A map of single values fills a variable with a pair of texts for each entry, in order, and with a
/// pair without a value for one that is nothing.
pub proof fn law_maps_keep_their_entries(
    kind: EntriesKind,
    len: Option<usize>,
    entries: Vec<(Value, Value)>,
)
    requires
        forall|i: int|
            0 <= i < entries@.len() ==> is_single((#[trigger] entries@[i]).0) && (is_single(
                entries@[i].1,
            ) || entries@[i].1 is Null),
    ensures
        serializer::binding_of(Value::Entries(kind, len, entries)) matches Ok(
            ser::SpecOfBinding::Pairs(pairs),
        ) && pairs.len() == entries@.len() && forall|i: int|
            0 <= i < pairs.len() ==> is_pair_of(#[trigger] pairs[i], entries@[i]),
{
    lemma_paired(entries@);
}

/// Whether texts are such that the key and the value of an entry are read from them.
pub open spec fn is_pair_of(pair: (Seq<char>, Option<Seq<char>>), entry: (Value, Value)) -> bool {
    &&& is_text_of(pair.0, entry.0)
    &&& match pair.1 {
        Some(s) => is_text_of(s, entry.1),
        None => entry.1 is Null,
    }
}

proof fn lemma_paired(entries: Seq<(Value, Value)>)
    requires
        forall|i: int|
            0 <= i < entries.len() ==> is_single((#[trigger] entries[i]).0) && (is_single(
                entries[i].1,
            ) || entries[i].1 is Null),
    ensures
        serializer::paired(entries) matches Ok(pairs) && pairs.len() == entries.len() && forall|
            i: int,
        |
            0 <= i < pairs.len() ==> is_pair_of(#[trigger] pairs[i], entries[i]),
    decreases entries.len(),
{
    if entries.len() > 0 {
        let before = entries.drop_last();
        assert forall|i: int| 0 <= i < before.len() implies is_single((#[trigger] before[i]).0) && (
        is_single(before[i].1) || before[i].1 is Null) by {
            assert(before[i] == entries[i]);
        }
        lemma_paired(before);
        let last = entries[entries.len() - 1];
        assert(is_single(last.0) && (is_single(last.1) || last.1 is Null));
        law_single_values_are_read_back(last.0);
        if is_single(last.1) {
            law_single_values_are_read_back(last.1);
        }
        let pairs = serializer::paired(entries)->Ok_0;
        let earlier = serializer::paired(before)->Ok_0;
        assert forall|i: int| 0 <= i < pairs.len() implies is_pair_of(
            #[trigger] pairs[i],
            entries[i],
        ) by {
            if i < earlier.len() {
                assert(pairs[i] == earlier[i]);
                assert(before[i] == entries[i]);
            }
        }
    }
}

/// What a template is expanded with is what contracting the URI gives for each variable that takes
/// the whole of a single value: a text that the value is read from.
pub proof fn law_fields_are_read_back(
    template: SpecOfParsed,
    policy: FillPolicy,
    bindings: Map<Seq<char>, ser::SpecOfBinding>,
    context: Value,
    i: int,
    k: int,
)
    requires
        reading::is_readable(template, bindings),
        reading::is_context_of(context, template, policy, bindings),
        0 <= i < round_trip::all_vars(template).len(),
        round_trip::all_vars(template)[i].modifier == VarMod::Whole,
        0 <= k < context->Entries_2@.len(),
        serializer::key_text(context->Entries_2@[k].0) == Ok::<Seq<char>, ser::SpecOfError>(
            round_trip::all_vars(template)[i].name,
        ),
        is_single(context->Entries_2@[k].1),
    ensures
        round_trip::read_bindings(template, bindings)[i].0 == round_trip::all_vars(
            template,
        )[i].name,
        round_trip::read_bindings(template, bindings)[i].1 matches crate::de::SpecOfBinding::Scalar(
            s,
        ) && is_text_of(s, context->Entries_2@[k].1),
{
    let vars = round_trip::all_vars(template);
    let name = vars[i].name;
    let entry = context->Entries_2@[k];
    law_single_values_are_read_back(entry.1);
    let whole = round_trip::single_text(bindings[name]);
    round_trip::law_whole_value_is_reached(vars, i, whole.len());
    assert(whole.take(whole.len() as int) =~= whole);
}

proof fn lemma_position_is_name(
    policy: FillPolicy,
    pos: Seq<Seq<char>>,
    vals: Map<Seq<char>, ser::SpecOfBinding>,
    items: Seq<Value>,
    entries: Seq<(Value, Value)>,
)
    requires
        items.len() <= pos.len(),
        entries.len() == items.len(),
        forall|i: int| 0 <= i < pos.len() ==> vals.dom().contains(#[trigger] pos[i]),
        forall|i: int|
            0 <= i < entries.len() ==> serializer::key_text((#[trigger] entries[i]).0) == Ok::<
                Seq<char>,
                ser::SpecOfError,
            >(pos[i]) && entries[i].1 == items[i],
    ensures
        serializer::bound_by_position(policy, pos, vals, items) == serializer::bound_by_name(
            policy,
            vals,
            entries,
        ),
    decreases items.len(),
{
    if items.len() > 0 {
        assert(entries[0].1 == items[0]);
        assert(vals.dom().contains(pos[0]));
        if let Ok(binding) = serializer::binding_of(items[0]) {
            let next = vals.insert(pos[0], binding);
            let rest = pos.skip(1);
            assert forall|i: int| 0 <= i < rest.len() implies next.dom().contains(
                #[trigger] rest[i],
            ) by {
                assert(rest[i] == pos[i + 1]);
            }
            assert forall|i: int| 0 <= i < entries.skip(1).len() implies serializer::key_text(
                (#[trigger] entries.skip(1)[i]).0,
            ) == Ok::<Seq<char>, ser::SpecOfError>(rest[i]) && entries.skip(1)[i].1
                == items.skip(1)[i] by {
                assert(entries.skip(1)[i] == entries[i + 1]);
            }
            lemma_position_is_name(policy, rest, next, items.skip(1), entries.skip(1));
        }
    }
}

/// Values in order fill a template as they do under the names of its variables, in the order in which
/// these come first.
pub proof fn law_order_is_that_of_the_names(
    template: SpecOfParsed,
    policy: FillPolicy,
    len: Option<usize>,
    items: Vec<Value>,
    entries: Vec<(Value, Value)>,
    kinds: (ItemsKind, EntriesKind),
)
    requires
        items@.len() == entries@.len(),
        items@.len() <= parser::distinct(parser::names(parser::vars_of(template.parts()))).len(),
        forall|i: int|
            0 <= i < entries@.len() ==> serializer::key_text((#[trigger] entries@[i]).0) == Ok::<
                Seq<char>,
                ser::SpecOfError,
            >(parser::distinct(parser::names(parser::vars_of(template.parts())))[i])
                && entries@[i].1 == items@[i],
    ensures
        serializer::filled(template, policy, Value::Items(kinds.0, len, items))
            == serializer::filled(template, policy, Value::Entries(kinds.1, len, entries)),
{
    let names = serializer::template_names(template);
    assert forall|i: int| 0 <= i < names.len() implies serializer::unbound(names).dom().contains(
        #[trigger] names[i],
    ) by {
        assert(names.contains(names[i]));
    }
    lemma_position_is_name(policy, names, serializer::unbound(names), items@, entries@);
}

/// Whether a given value and a value of a field are the same: nothing, a text, a list of texts, or
/// texts with their names.
pub open spec fn is_same_value(given: SpecOfGiven, value: Value) -> bool {
    match (given, value) {
        (SpecOfGiven::Nothing, Value::Null) => true,
        (SpecOfGiven::Text(s), Value::Str(t)) => s == t@,
        (SpecOfGiven::List(list), Value::Items(_, _, items)) => list.len() == items@.len()
            && forall|i: int|
            0 <= i < list.len() ==> (#[trigger] items@[i] matches Value::Str(t) && t@ == list[i]),
        (SpecOfGiven::Pairs(list), Value::Entries(_, _, entries)) => list.len() == entries@.len()
            && forall|i: int|
            0 <= i < list.len() ==> ((#[trigger] entries@[i]).0 matches Value::Str(k) && k@
                == list[i].0) && (entries@[i].1 matches Value::Str(t) && t@ == list[i].1),
        _ => false,
    }
}

/// A value fills a variable in the same way, whether it is given by the name of the variable or is
/// the value of a field.
pub proof fn law_given_values_are_like_fields(given: SpecOfGiven, value: Value)
    requires
        is_same_value(given, value),
    ensures
        serializer::binding_of(value) == Ok::<ser::SpecOfBinding, ser::SpecOfError>(
            single::binding_of_given(given),
        ),
{
    match (given, value) {
        (SpecOfGiven::List(list), Value::Items(kind, len, items)) => {
            assert forall|i: int| 0 <= i < items@.len() implies is_single(#[trigger] items@[i]) by {
                assert(items@[i] is Str);
            }
            law_lists_keep_their_items(kind, len, items);
            let texts = serializer::listed(items@)->Ok_0;
            assert forall|i: int| 0 <= i < list.len() implies texts[i] == list[i] by {
                assert(is_text_of(texts[i], items@[i]));
                assert(items@[i] is Str);
            }
            assert(texts =~= list);
        },
        (SpecOfGiven::Pairs(list), Value::Entries(kind, len, entries)) => {
            assert forall|i: int| 0 <= i < entries@.len() implies is_single(
                (#[trigger] entries@[i]).0,
            ) && (is_single(entries@[i].1) || entries@[i].1 is Null) by {
                assert(entries@[i].0 is Str);
            }
            law_maps_keep_their_entries(kind, len, entries);
            let pairs = serializer::paired(entries@)->Ok_0;
            let wanted = Seq::new(list.len(), |i: int| (list[i].0, Some(list[i].1)));
            assert forall|i: int| 0 <= i < list.len() implies pairs[i] == wanted[i] by {
                assert(is_pair_of(pairs[i], entries@[i]));
                assert(entries@[i].0 is Str);
            }
            assert(pairs =~= wanted);
        },
        _ => {},
    }
}

/// Whether a value says that there is none.
pub open spec fn is_nothing(value: Value) -> bool {
    value is Null || value is Unit || value is UnitStruct || value is UnitVariant
}

/// A value that is no text, or has none, is refused where a text must be, and the error says why: a
/// list or a map is neither an item nor a key, nothing is no key, and bytes that are not UTF-8 are no
/// text anywhere. Nothing is no error elsewhere, and a list or a map is none for a variable if its
/// items are none.
pub proof fn law_what_has_no_text(value: Value)
    ensures
        ({
            let inner = value::unwrapped(value);
            &&& is_single(inner) <==> serializer::key_text(value) is Ok
            &&& is_single(inner) || is_nothing(inner) <==> serializer::item_text(value) is Ok
            &&& is_nothing(inner) <==> serializer::item_text(value) == Ok::<
                Option<Seq<char>>,
                ser::SpecOfError,
            >(None)
            &&& is_nothing(inner) <==> serializer::binding_of(value) == Ok::<
                ser::SpecOfBinding,
                ser::SpecOfError,
            >(ser::SpecOfBinding::Omitted)
            &&& is_nothing(inner) ==> serializer::key_text(value)->Err_0 is InvalidKeyType
            &&& inner is Items || inner is Entries ==> serializer::key_text(
                value,
            )->Err_0 is InvalidComplexType && serializer::item_text(
                value,
            )->Err_0 is InvalidComplexType
            &&& inner is Bytes && !is_single(inner) ==> serializer::key_text(
                value,
            )->Err_0 is NotUTF8 && serializer::item_text(value)->Err_0 is NotUTF8
                && serializer::binding_of(value) is Err && serializer::binding_of(
                value,
            )->Err_0 is NotUTF8
        }),
{
    let inner = value::unwrapped(value);
    lemma_unwrapped(value);
    if is_single(inner) {
        assert(value::unwrapped(inner) == inner);
        law_single_values_are_read_back(inner);
    }
}

proof fn lemma_unwrapped(value: Value)
    ensures
        value::unwrapped(value) !is Wrapped,
    decreases value,
{
    if let Value::Wrapped(inner) = value {
        lemma_unwrapped(*inner);
    }
}

/// Values that come after all variables have theirs are refused where there may be none to spare, and
/// change nothing where there may.
pub proof fn law_values_to_spare(
    policy: FillPolicy,
    pos: Seq<Seq<char>>,
    vals: Map<Seq<char>, ser::SpecOfBinding>,
    items: Seq<Value>,
)
    requires
        pos.len() < items.len(),
        forall|i: int| 0 <= i < items.len() ==> serializer::binding_of(#[trigger] items[i]) is Ok,
    ensures
        policy == FillPolicy::Strict || policy == FillPolicy::NoExtra
            ==> serializer::bound_by_position(policy, pos, vals, items) == Err::<
            Map<Seq<char>, ser::SpecOfBinding>,
            ser::SpecOfError,
        >(ser::SpecOfError::OverrunPositionalField),
        policy != FillPolicy::Strict && policy != FillPolicy::NoExtra
            ==> serializer::bound_by_position(policy, pos, vals, items)
            == serializer::bound_by_position(policy, pos, vals, items.take(pos.len() as int)),
    decreases pos.len(),
{
    let first = items.take(pos.len() as int);
    if pos.len() > 0 {
        let rest = items.skip(1);
        assert(serializer::binding_of(items[0]) is Ok);
        let binding = serializer::binding_of(items[0])->Ok_0;
        assert forall|i: int| 0 <= i < rest.len() implies serializer::binding_of(
            #[trigger] rest[i],
        ) is Ok by {
            assert(rest[i] == items[i + 1]);
        }
        law_values_to_spare(policy, pos.skip(1), vals.insert(pos[0], binding), rest);
        assert(first[0] == items[0]);
        assert(first.skip(1) =~= rest.take(pos.skip(1).len() as int));
    }
}

} // verus!
