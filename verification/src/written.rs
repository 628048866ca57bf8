//! What is written for the values of a variable.
use crate::escape;
use crate::parser::{Op, SpecOfExpression, SpecOfVar, VarMod};
use crate::ser;
use crate::ser::{SpecOfBinding, SpecOfError};
use crate::text;
use crate::FillPolicy;
use vstd::prelude::*;

verus! {

/// Of a value as many of the first characters are wanted as the modifier says, or all where there are
/// no more. Without such a modifier all are.
pub proof fn law_first_characters(val: Seq<char>, n: u16)
    ensures
        text::begins_with(val, ser::wanted(VarMod::Prefix(n), val)),
        ser::wanted(VarMod::Prefix(n), val).len() == (if n < val.len() {
            n as nat
        } else {
            val.len()
        }),
        ser::wanted(VarMod::Whole, val) == val,
        ser::wanted(VarMod::Explode, val) == val,
{
    assert(val.take(val.len() as int) =~= val);
}

/// Whether an operator writes the names of variables.
pub open spec fn writes_names(op: Op) -> bool {
    op == Op::PathParam || op == Op::Query || op == Op::QueryCont
}

/// What goes before a value.
pub open spec fn before_value(op: Op, name: Seq<char>) -> Seq<char> {
    if writes_names(op) {
        name + seq!['=']
    } else {
        Seq::empty()
    }
}

/// A single value is written behind its name and an equals sign, where the operator writes names. Only
/// a parameter of the path leaves out the sign where there is nothing behind it.
pub proof fn law_single_value(op: Op, name: Seq<char>, modifier: VarMod, val: Seq<char>)
    ensures
        ({
            let var = SpecOfVar { name, modifier };
            let shown = escape::escaped_text(op, ser::wanted(modifier, val));
            &&& val.len() > 0 || op != Op::PathParam ==> ser::value_text(
                op,
                var,
                SpecOfBinding::Scalar(val),
            ) == Ok::<Seq<char>, SpecOfError>(before_value(op, name) + shown)
            &&& val.len() == 0 && op == Op::PathParam ==> ser::value_text(
                op,
                var,
                SpecOfBinding::Scalar(val),
            ) == Ok::<Seq<char>, SpecOfError>(name)
        }),
{
    let shown = escape::escaped_text(op, ser::wanted(modifier, val));
    assert(ser::name_text(op, name) =~= before_value(op, name));
    if val.len() == 0 && op == Op::PathParam {
        assert(val =~= Seq::empty());
        assert(ser::wanted(modifier, val) =~= val);
        assert(vstd::utf8::encode_utf8(val) =~= Seq::empty());
        assert(name + shown =~= name);
    }
}

proof fn lemma_escaped_items(op: Op, a: Seq<Seq<char>>, b: Seq<Seq<char>>, separator: char)
    requires
        a.len() > 0,
        b.len() > 0,
    ensures
        ser::list_text(op, separator, a + b) == ser::list_text(op, separator, a) + seq![separator]
            + ser::list_text(op, separator, b),
{
    let f = |items: Seq<Seq<char>>|
        Seq::new(items.len(), |i: int| escape::escaped_text(op, items[i]));
    assert(f(a + b) =~= f(a) + f(b));
    text::law_join_concat(f(a), f(b), seq![separator]);
}

proof fn lemma_escaped_pairs(
    op: Op,
    separator: char,
    joiner: char,
    a: Seq<(Seq<char>, Option<Seq<char>>)>,
    b: Seq<(Seq<char>, Option<Seq<char>>)>,
)
    requires
        a.len() > 0,
        b.len() > 0,
    ensures
        ser::pairs_text(op, separator, joiner, a + b) == ser::pairs_text(op, separator, joiner, a)
            + seq![separator] + ser::pairs_text(op, separator, joiner, b),
{
    let f = |items: Seq<(Seq<char>, Option<Seq<char>>)>|
        Seq::new(items.len(), |i: int| ser::pair_text(op, joiner, items[i]));
    assert(f(a + b) =~= f(a) + f(b));
    text::law_join_concat(f(a), f(b), seq![separator]);
}

/// What is written for a list that is exploded is what is written for the first of its items and then
/// for the others, with the separator of the operator between them. A list that is not exploded has
/// commas between its items, and its name before the first of them alone.
pub proof fn law_lists_grow(op: Op, name: Seq<char>, a: Seq<Seq<char>>, b: Seq<Seq<char>>)
    requires
        a.len() > 0,
        b.len() > 0,
    ensures
        ({
            let var = SpecOfVar { name, modifier: VarMod::Explode };
            let of = |items: Seq<Seq<char>>|
                ser::value_text(op, var, SpecOfBinding::List(items))->Ok_0;
            &&& ser::value_text(op, var, SpecOfBinding::List(a + b)) is Ok
            &&& of(a + b) == of(a) + seq![ser::op_separator(op)] + of(b)
        }),
        ({
            let var = SpecOfVar { name, modifier: VarMod::Whole };
            let of = |items: Seq<Seq<char>>|
                ser::value_text(op, var, SpecOfBinding::List(items))->Ok_0;
            &&& ser::value_text(op, var, SpecOfBinding::List(a + b)) is Ok
            &&& text::begins_with(of(b), before_value(op, name))
            &&& of(a + b) == of(a) + seq![','] + of(b).skip(before_value(op, name).len() as int)
        }),
{
    let separator = ser::op_separator(op);
    lemma_escaped_items(op, a, b, separator);
    lemma_escaped_items(op, a, b, ',');
    assert(ser::named_items(name, a + b) =~= ser::named_items(name, a) + ser::named_items(name, b));
    lemma_escaped_pairs(
        op,
        separator,
        '=',
        ser::named_items(name, a),
        ser::named_items(name, b),
    );
    let first = before_value(op, name);
    assert(ser::name_text(op, name) =~= first);
    let la = ser::list_text(op, ',', a);
    let lb = ser::list_text(op, ',', b);
    assert((first + lb).take(first.len() as int) =~= first);
    assert((first + lb).skip(first.len() as int) =~= lb);
    assert(first + (la + seq![','] + lb) =~= first + la + seq![','] + lb);
}

/// A list of one item is written like that item, exploded or not.
pub proof fn law_one_item(op: Op, name: Seq<char>, item: Seq<char>)
    ensures
        ({
            let whole = SpecOfVar { name, modifier: VarMod::Whole };
            let exploded = SpecOfVar { name, modifier: VarMod::Explode };
            let list = SpecOfBinding::List(seq![item]);
            let shown = before_value(op, name) + escape::escaped_text(op, item);
            &&& ser::value_text(op, whole, list) == Ok::<Seq<char>, SpecOfError>(shown)
            &&& ser::value_text(op, exploded, list) == Ok::<Seq<char>, SpecOfError>(shown)
        }),
{
    let items = seq![item];
    let texts = Seq::new(items.len(), |i: int| escape::escaped_text(op, items[i]));
    assert(texts =~= seq![escape::escaped_text(op, item)]);
    let named = ser::named_items(name, items);
    let pairs = Seq::new(named.len(), |i: int| ser::pair_text(op, '=', named[i]));
    assert(pairs =~= seq![ser::pair_text(op, '=', (name, Some(item)))]);
    assert(ser::name_text(op, name) =~= before_value(op, name));
    assert(name.push('=') =~= name + seq!['=']);
    assert(Seq::<char>::empty() + escape::escaped_text(op, item) =~= escape::escaped_text(op, item));
}

/// What is written for a map is what is written for the first of its entries and then for the others:
/// exploded with the separator of the operator between them, and else with commas, and its name before
/// the first of them alone.
pub proof fn law_maps_grow(
    op: Op,
    name: Seq<char>,
    a: Seq<(Seq<char>, Option<Seq<char>>)>,
    b: Seq<(Seq<char>, Option<Seq<char>>)>,
)
    requires
        a.len() > 0,
        b.len() > 0,
    ensures
        ({
            let var = SpecOfVar { name, modifier: VarMod::Explode };
            let of = |items: Seq<(Seq<char>, Option<Seq<char>>)>|
                ser::value_text(op, var, SpecOfBinding::Pairs(items))->Ok_0;
            &&& ser::value_text(op, var, SpecOfBinding::Pairs(a + b)) is Ok
            &&& of(a + b) == of(a) + seq![ser::op_separator(op)] + of(b)
        }),
        ({
            let var = SpecOfVar { name, modifier: VarMod::Whole };
            let of = |items: Seq<(Seq<char>, Option<Seq<char>>)>|
                ser::value_text(op, var, SpecOfBinding::Pairs(items))->Ok_0;
            &&& ser::value_text(op, var, SpecOfBinding::Pairs(a + b)) is Ok
            &&& text::begins_with(of(b), before_value(op, name))
            &&& of(a + b) == of(a) + seq![','] + of(b).skip(before_value(op, name).len() as int)
        }),
{
    lemma_escaped_pairs(op, ser::op_separator(op), '=', a, b);
    lemma_escaped_pairs(op, ',', ',', a, b);
    let first = before_value(op, name);
    assert(ser::name_text(op, name) =~= first);
    let la = ser::pairs_text(op, ',', ',', a);
    let lb = ser::pairs_text(op, ',', ',', b);
    assert((first + lb).take(first.len() as int) =~= first);
    assert((first + lb).skip(first.len() as int) =~= lb);
    assert(first + (la + seq![','] + lb) =~= first + la + seq![','] + lb);
}

proof fn lemma_nothing_is_empty(op: Op, key: Seq<char>)
    ensures
        ser::pairs_text(op, ser::op_separator(op), '=', seq![(key, None)]) == ser::pairs_text(
            op,
            ser::op_separator(op),
            '=',
            seq![(key, Some(Seq::empty()))],
        ),
{
    let a = seq![(key, None::<Seq<char>>)];
    let b = seq![(key, Some(Seq::<char>::empty()))];
    let one = Seq::new(a.len(), |i: int| ser::pair_text(op, '=', a[i]));
    let two = Seq::new(b.len(), |i: int| ser::pair_text(op, '=', b[i]));
    assert(vstd::utf8::encode_utf8(Seq::<char>::empty()) =~= Seq::empty());
    assert(escape::escaped_text(op, Seq::empty()) =~= Seq::empty());
    assert(one =~= two);
}

/// One entry of a map is written as its key and its value: with an equals sign between them where the
/// map is exploded, and else with a comma. One without a value is written like one whose value is
/// empty.
pub proof fn law_one_entry(op: Op, name: Seq<char>, key: Seq<char>, val: Seq<char>)
    ensures
        ({
            let whole = SpecOfVar { name, modifier: VarMod::Whole };
            let exploded = SpecOfVar { name, modifier: VarMod::Explode };
            let map = SpecOfBinding::Pairs(seq![(key, Some(val))]);
            let shown = escape::escaped_text(op, val);
            &&& ser::value_text(op, exploded, map) == Ok::<Seq<char>, SpecOfError>(
                key + seq!['='] + shown,
            )
            &&& ser::value_text(op, whole, map) == Ok::<Seq<char>, SpecOfError>(
                before_value(op, name) + key + seq![','] + shown,
            )
        }),
        ({
            let exploded = SpecOfVar { name, modifier: VarMod::Explode };
            let empty = SpecOfBinding::Pairs(seq![(key, Some(Seq::empty()))]);
            let nothing = SpecOfBinding::Pairs(seq![(key, None)]);
            ser::value_text(op, exploded, nothing) == ser::value_text(op, exploded, empty)
        }),
{
    lemma_nothing_is_empty(op, key);
    let items = seq![(key, Some(val))];
    let shown = escape::escaped_text(op, val);
    let one = Seq::new(items.len(), |i: int| ser::pair_text(op, '=', items[i]));
    let two = Seq::new(items.len(), |i: int| ser::pair_text(op, ',', items[i]));
    assert(one =~= seq![ser::pair_text(op, '=', items[0])]);
    assert(two =~= seq![ser::pair_text(op, ',', items[0])]);
    assert(key.push('=') =~= key + seq!['=']);
    assert(key.push(',') =~= key + seq![',']);
    assert(ser::name_text(op, name) =~= before_value(op, name));
    assert(before_value(op, name) + (key + seq![','] + shown) =~= before_value(op, name) + key
        + seq![','] + shown);
}

/// A part of a list or of a map cannot be wanted. Everything else can be written.
pub proof fn law_what_cannot_be_written(op: Op, var: SpecOfVar, value: SpecOfBinding)
    ensures
        ser::value_text(op, var, value) is Err <==> var.modifier is Prefix && (value is List
            || value is Pairs),
        ser::value_text(op, var, value) matches Err(error) ==> error
            is PrefixedComplexValue && error->PrefixedComplexValue_1 == var.name,
{
}

/// A list without items writes no value: behind a dot not even the dot, and else what stands before the
/// first value, and its name where that is written once for the whole list.
pub proof fn law_lists_without_items(
    op: Op,
    var: SpecOfVar,
    policy: FillPolicy,
    bindings: Map<Seq<char>, SpecOfBinding>,
)
    requires
        var.modifier !is Prefix,
        bindings.dom().contains(var.name),
        bindings[var.name] == SpecOfBinding::List(Seq::empty()),
    ensures
        ser::expansion((SpecOfExpression { operator: op, vars: seq![var] }), policy, bindings)
            == Ok::<Seq<char>, SpecOfError>(
            (if op == Op::Label {
                Seq::empty()
            } else {
                ser::mark(ser::op_prefix(op))
            }) + (if var.modifier == VarMod::Whole {
                before_value(op, var.name)
            } else {
                Seq::empty()
            }),
        ),
{
    let e = SpecOfExpression { operator: op, vars: seq![var] };
    let nothing = Seq::<Seq<char>>::empty();
    let texts = Seq::new(nothing.len(), |i: int| escape::escaped_text(op, nothing[i]));
    assert(texts =~= Seq::empty());
    let named = ser::named_items(var.name, nothing);
    let pairs = Seq::new(named.len(), |i: int| ser::pair_text(op, '=', named[i]));
    assert(pairs =~= Seq::empty());
    assert(ser::name_text(op, var.name) =~= before_value(op, var.name));
    let first = if op == Op::Label {
        Seq::<char>::empty()
    } else {
        ser::mark(ser::op_prefix(op))
    };
    let shown = ser::value_text(op, var, bindings[var.name])->Ok_0;
    reveal_with_fuel(ser::fill_from, 2);
    assert(e.vars[0] == var);
    assert(Seq::<char>::empty() + first + shown =~= first + (if var.modifier == VarMod::Whole {
        before_value(op, var.name)
    } else {
        Seq::empty()
    }));
}

} // verus!
