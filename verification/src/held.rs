//! Templates that are filled in more than one step.
use crate::escape;
use crate::laws;
use crate::parser;
use crate::parser::{Op, SpecOfExpression, SpecOfPart, SpecOfVar};
use crate::render;
use crate::ser;
use crate::ser::SpecOfBinding;
use crate::text;
use crate::FillPolicy;
use vstd::prelude::*;

verus! {

proof fn lemma_escaped_alike(one: Op, other: Op, bytes: Seq<u8>)
    requires
        escape::lets_reserved_through(one) == escape::lets_reserved_through(other),
    ensures
        escape::escaped(one, bytes) == escape::escaped(other, bytes),
    decreases bytes.len(),
{
    if bytes.len() > 0 {
        lemma_escaped_alike(one, other, bytes.skip(1));
        if bytes.len() >= 3 {
            lemma_escaped_alike(one, other, bytes.skip(3));
        }
    }
}

/// Whether two operators write the values of a variable in the same way, but for what goes before
/// the first of them.
pub open spec fn write_alike(one: Op, other: Op) -> bool {
    &&& escape::lets_reserved_through(one) == escape::lets_reserved_through(other)
    &&& ser::is_named(one) == ser::is_named(other)
    &&& ser::op_separator(one) == ser::op_separator(other)
    &&& (one == Op::PathParam) == (other == Op::PathParam)
    &&& (one == Op::Label) == (other == Op::Label)
}

proof fn lemma_value_alike(one: Op, other: Op, var: SpecOfVar, value: SpecOfBinding)
    requires
        write_alike(one, other),
    ensures
        ser::value_text(one, var, value) == ser::value_text(other, var, value),
{
    match value {
        SpecOfBinding::Scalar(val) => {
            lemma_escaped_alike(
                one,
                other,
                vstd::utf8::encode_utf8(ser::wanted(var.modifier, val)),
            );
        },
        SpecOfBinding::List(items) => {
            let a = Seq::new(items.len(), |i: int| escape::escaped_text(one, items[i]));
            let b = Seq::new(items.len(), |i: int| escape::escaped_text(other, items[i]));
            assert forall|i: int| 0 <= i < items.len() implies a[i] == b[i] by {
                lemma_escaped_alike(one, other, vstd::utf8::encode_utf8(items[i]));
            }
            assert(a =~= b);
            let named = ser::named_items(var.name, items);
            lemma_pairs_alike(one, other, ser::op_separator(one), '=', named);
        },
        SpecOfBinding::Pairs(items) => {
            lemma_pairs_alike(one, other, ser::op_separator(one), '=', items);
            lemma_pairs_alike(one, other, ',', ',', items);
        },
        _ => {},
    }
}

proof fn lemma_pairs_alike(
    one: Op,
    other: Op,
    separator: char,
    joiner: char,
    items: Seq<(Seq<char>, Option<Seq<char>>)>,
)
    requires
        write_alike(one, other),
    ensures
        ser::pairs_text(one, separator, joiner, items) == ser::pairs_text(
            other,
            separator,
            joiner,
            items,
        ),
{
    let a = Seq::new(items.len(), |i: int| ser::pair_text(one, joiner, items[i]));
    let b = Seq::new(items.len(), |i: int| ser::pair_text(other, joiner, items[i]));
    assert forall|i: int| 0 <= i < items.len() implies a[i] == b[i] by {
        if let Some(val) = items[i].1 {
            lemma_escaped_alike(one, other, vstd::utf8::encode_utf8(val));
        }
    }
    assert(a =~= b);
}

proof fn lemma_filled_up_to(
    e: SpecOfExpression,
    policy: FillPolicy,
    bindings: Map<Seq<char>, SpecOfBinding>,
    k: nat,
)
    requires
        1 <= k <= e.vars.len(),
        forall|j: int| 0 <= j < k ==> laws::is_written(e.operator, #[trigger] e.vars[j], bindings),
    ensures
        ser::expansion(e, policy, bindings) == ser::fill_from(
            e,
            policy,
            bindings,
            k,
            Some(ser::op_separator(e.operator)),
            ser::mark(ser::op_prefix(e.operator)) + text::join(
                laws::written_values(e, bindings).take(k as int),
                seq![ser::op_separator(e.operator)],
            ),
        ),
    decreases k,
{
    let values = laws::written_values(e, bindings);
    let separator = ser::op_separator(e.operator);
    let prefix = ser::mark(ser::op_prefix(e.operator));
    assert(laws::is_written(e.operator, e.vars[k - 1], bindings));
    if k == 1 {
        assert(values.take(1) =~= seq![values[0]]);
        assert(Seq::<char>::empty() + prefix + values[0] =~= prefix + text::join(
            values.take(1),
            seq![separator],
        ));
    } else {
        let before = (k - 1) as nat;
        lemma_filled_up_to(e, policy, bindings, before);
        assert(values.take(k as int).drop_last() =~= values.take(before as int));
        let out = prefix + text::join(values.take(before as int), seq![separator]);
        assert(out + ser::mark(Some(separator)) + values[before as int] =~= prefix + text::join(
            values.take(k as int),
            seq![separator],
        ));
    }
}

proof fn lemma_held_to_the_end(
    e: SpecOfExpression,
    policy: FillPolicy,
    bindings: Map<Seq<char>, SpecOfBinding>,
    k: nat,
    i: nat,
    base: Seq<char>,
)
    requires
        k < i <= e.vars.len(),
        forall|j: int|
            k <= j < e.vars.len() ==> bindings.dom().contains((#[trigger] e.vars[j]).name)
                && bindings[e.vars[j].name] is Absent,
    ensures
        ser::hold_from(
            e,
            policy,
            bindings,
            i,
            base + text::join(render::var_texts(e.vars.skip(k as int)).take(i - k), seq![',']),
        ) == Ok::<Seq<char>, ser::SpecOfError>(
            base + text::join(render::var_texts(e.vars.skip(k as int)), seq![',']) + seq!['}'],
        ),
    decreases e.vars.len() - i,
{
    let texts = render::var_texts(e.vars.skip(k as int));
    let out = base + text::join(texts.take(i - k), seq![',']);
    if i == e.vars.len() {
        assert(texts.take(i - k) =~= texts);
        assert(out.push('}') =~= out + seq!['}']);
    } else {
        let var = e.vars[i as int];
        assert(bindings.dom().contains(var.name) && bindings[var.name] is Absent);
        assert(texts.take(i + 1 - k).drop_last() =~= texts.take(i - k));
        assert(texts.take(i + 1 - k).last() == ser::var_text(var));
        assert(out.push(',') + ser::var_text(var) =~= base + text::join(
            texts.take(i + 1 - k),
            seq![','],
        ));
        lemma_held_to_the_end(e, policy, bindings, k, i + 1, base);
    }
}

/// The operator of the expression for what is left.
spec fn op_left(op: Op) -> Op {
    match op {
        Op::Query => Op::QueryCont,
        Op::Fragment => Op::Reserved,
        other => other,
    }
}

/// What is written before the expression for what is left, where something is.
spec fn text_before(op: Op, values: Seq<Seq<char>>) -> Seq<char> {
    ser::mark(ser::op_prefix(op)) + text::join(values, seq![ser::op_separator(op)]) + (match op {
        Op::Simple | Op::Reserved | Op::Fragment => seq![','],
        _ => Seq::empty(),
    })
}

proof fn lemma_text_held(op: Op, values: Seq<Seq<char>>, vars: Seq<SpecOfVar>)
    ensures
        ser::mark(ser::op_prefix(op)) + text::join(values, seq![ser::op_separator(op)])
            + ser::held_open(op, Some(ser::op_separator(op))) + text::join(
            render::var_texts(vars),
            seq![','],
        ) + seq!['}'] == text_before(op, values) + render::expression_text(
            SpecOfExpression { operator: op_left(op), vars },
        ),
{
    let joined = text::join(render::var_texts(vars), seq![',']);
    let first = ser::mark(ser::op_prefix(op)) + text::join(values, seq![ser::op_separator(op)]);
    let end = match op {
        Op::Simple | Op::Reserved | Op::Fragment => seq![','],
        _ => Seq::<char>::empty(),
    };
    let opened = ser::held_open(op, Some(ser::op_separator(op)));
    assert(opened =~= end + seq!['{'] + ser::mark(render::op_mark(op_left(op))));
    assert(first + opened + joined + seq!['}'] =~= first + end + (seq!['{'] + (ser::mark(
        render::op_mark(op_left(op)),
    ) + joined) + seq!['}']));
}

proof fn lemma_text_left(
    e: SpecOfExpression,
    k: int,
    policy: FillPolicy,
    partial: Map<Seq<char>, SpecOfBinding>,
    full: Map<Seq<char>, SpecOfBinding>,
)
    requires
        0 < k < e.vars.len(),
        policy == FillPolicy::Relaxed || policy == FillPolicy::NoExtra,
        forall|j: int|
            0 <= j < e.vars.len() ==> laws::is_written(e.operator, #[trigger] e.vars[j], full),
        forall|j: int|
            0 <= j < e.vars.len() ==> partial.dom().contains((#[trigger] e.vars[j]).name),
        forall|j: int|
            0 <= j < k ==> partial[(#[trigger] e.vars[j]).name] == full[e.vars[j].name],
        forall|j: int| k <= j < e.vars.len() ==> partial[(#[trigger] e.vars[j]).name] is Absent,
    ensures
        ser::expansion(e, policy, partial) == Ok::<Seq<char>, ser::SpecOfError>(
            text_before(e.operator, laws::written_values(e, full).take(k))
                + render::expression_text(
                (SpecOfExpression { operator: op_left(e.operator), vars: e.vars.skip(k) }),
            ),
        ),
{
    let op = e.operator;
    let separator = ser::op_separator(op);
    let values = laws::written_values(e, full);
    let given = laws::written_values(e, partial);
    let first = ser::mark(ser::op_prefix(op)) + text::join(values.take(k), seq![separator]);
    assert forall|j: int| 0 <= j < k implies laws::is_written(op, #[trigger] e.vars[j], partial)
        && given[j] == values[j] by {
        assert(laws::is_written(op, e.vars[j], full));
    }
    assert(given.take(k) =~= values.take(k));
    lemma_filled_up_to(e, policy, partial, k as nat);
    assert(partial.dom().contains(e.vars[k].name) && partial[e.vars[k].name] is Absent);
    let texts = render::var_texts(e.vars.skip(k));
    let base = first + ser::held_open(op, Some(separator));
    assert(texts.take(1) =~= seq![ser::var_text(e.vars[k])]);
    assert(base + ser::var_text(e.vars[k]) =~= base + text::join(texts.take(1), seq![',']));
    lemma_held_to_the_end(e, policy, partial, k as nat, (k + 1) as nat, base);
    lemma_text_held(op, values.take(k), e.vars.skip(k));
}

proof fn lemma_filled_later(
    e: SpecOfExpression,
    k: int,
    later: FillPolicy,
    full: Map<Seq<char>, SpecOfBinding>,
)
    requires
        0 < k < e.vars.len(),
        forall|j: int|
            0 <= j < e.vars.len() ==> laws::is_written(e.operator, #[trigger] e.vars[j], full),
    ensures
        ({
            let rest = SpecOfExpression { operator: op_left(e.operator), vars: e.vars.skip(k) };
            &&& ser::expansion(rest, later, full) is Ok
            &&& ser::expansion(e, later, full) == Ok::<Seq<char>, ser::SpecOfError>(
                text_before(e.operator, laws::written_values(e, full).take(k)) + ser::expansion(
                    rest,
                    later,
                    full,
                )->Ok_0,
            )
        }),
{
    let op = e.operator;
    let operator = op_left(op);
    let separator = ser::op_separator(op);
    let others = e.vars.skip(k);
    let rest = SpecOfExpression { operator, vars: others };
    let values = laws::written_values(e, full);
    let later_values = laws::written_values(rest, full);
    assert(write_alike(op, operator));
    assert forall|j: int| 0 <= j < others.len() implies laws::is_written(
        operator,
        #[trigger] others[j],
        full,
    ) && later_values[j] == values[k + j] by {
        assert(others[j] == e.vars[k + j]);
        assert(laws::is_written(op, e.vars[k + j], full));
        lemma_value_alike(op, operator, others[j], full[others[j].name]);
    }
    laws::law_full_expansion(e, later, full);
    laws::law_full_expansion(rest, later, full);
    assert(later_values =~= values.skip(k));
    assert(values =~= values.take(k) + values.skip(k));
    text::law_join_concat(values.take(k), values.skip(k), seq![separator]);
    let prefix = ser::mark(ser::op_prefix(op));
    let one = text::join(values.take(k), seq![separator]);
    let two = text::join(values.skip(k), seq![separator]);
    assert(prefix + (one + seq![separator] + two) =~= text_before(op, values.take(k)) + (ser::mark(
        ser::op_prefix(operator),
    ) + two));
}

proof fn lemma_all_held(
    e: SpecOfExpression,
    policy: FillPolicy,
    bindings: Map<Seq<char>, SpecOfBinding>,
)
    requires
        e.vars.len() > 0,
        policy == FillPolicy::Relaxed || policy == FillPolicy::NoExtra,
        forall|j: int|
            0 <= j < e.vars.len() ==> bindings.dom().contains((#[trigger] e.vars[j]).name)
                && bindings[e.vars[j].name] is Absent,
    ensures
        ser::expansion(e, policy, bindings) == Ok::<Seq<char>, ser::SpecOfError>(
            render::expression_text(e),
        ),
{
    let op = e.operator;
    let texts = render::var_texts(e.vars);
    let base = ser::held_open(op, ser::op_prefix(op));
    assert(e.vars.skip(0) =~= e.vars);
    assert(bindings.dom().contains(e.vars[0].name) && bindings[e.vars[0].name] is Absent);
    assert(texts.take(1) =~= seq![ser::var_text(e.vars[0])]);
    assert(Seq::<char>::empty() + base + ser::var_text(e.vars[0]) =~= base + text::join(
        texts.take(1),
        seq![','],
    ));
    lemma_held_to_the_end(e, policy, bindings, 0, 1, base);
    assert(base =~= seq!['{'] + ser::mark(render::op_mark(op)));
    assert(base + text::join(texts, seq![',']) + seq!['}'] =~= render::expression_text(e));
}

/// Where nothing is given and values may come later, a template stays as it was written.
pub proof fn law_nothing_given_changes_nothing(
    parts: Seq<SpecOfPart>,
    policy: FillPolicy,
    bindings: Map<Seq<char>, SpecOfBinding>,
)
    requires
        policy == FillPolicy::Relaxed || policy == FillPolicy::NoExtra,
        forall|i: int|
            0 <= i < parts.len() ==> ((#[trigger] parts[i]).expression() matches Some(e)
                ==> e.vars.len() > 0),
        forall|name: Seq<char>|
            parser::names(parser::vars_of(parts)).contains(name) ==> #[trigger] bindings.dom().contains(
                name,
            ) && bindings[name] is Absent,
    ensures
        ser::parts_expansion(parts, policy, bindings) == Ok::<Seq<char>, ser::SpecOfError>(
            render::parts_text(parts),
        ),
    decreases parts.len(),
{
    if parts.len() > 0 {
        let before = parts.drop_last();
        let last = parts.last();
        let all = parser::vars_of(parts);
        let fewer = parser::vars_of(before);
        assert forall|i: int| 0 <= i < before.len() implies ((
        #[trigger] before[i]).expression() matches Some(e) ==> e.vars.len() > 0) by {
            assert(before[i] == parts[i]);
        }
        assert forall|name: Seq<char>|
            parser::names(fewer).contains(name) implies #[trigger] bindings.dom().contains(name)
            && bindings[name] is Absent by {
            let i = choose|i: int| 0 <= i < fewer.len() && parser::names(fewer)[i] == name;
            assert(parser::names(all)[i] == name);
        }
        law_nothing_given_changes_nothing(before, policy, bindings);
        if let Some(e) = last.expression() {
            assert(parts[parts.len() - 1].expression() == Some(e));
            assert forall|j: int| 0 <= j < e.vars.len() implies bindings.dom().contains(
                (#[trigger] e.vars[j]).name,
            ) && bindings[e.vars[j].name] is Absent by {
                assert(all[fewer.len() + j] == e.vars[j]);
                assert(parser::names(all)[fewer.len() + j] == e.vars[j].name);
                assert(parser::names(all).contains(e.vars[j].name));
            }
            lemma_all_held(e, policy, bindings);
        }
    }
}

/// An expression of which only the first variables have a value, where the others may come later,
/// writes a text and an expression for these others. What that writes once they have their values,
/// behind the text, is what the whole expression writes for all the values at once.
pub proof fn law_held_variables_are_filled_later(
    e: SpecOfExpression,
    k: int,
    policy: FillPolicy,
    later: FillPolicy,
    partial: Map<Seq<char>, SpecOfBinding>,
    full: Map<Seq<char>, SpecOfBinding>,
) -> (out: (Seq<char>, SpecOfExpression))
    requires
        0 <= k < e.vars.len(),
        policy == FillPolicy::Relaxed || policy == FillPolicy::NoExtra,
        forall|j: int|
            0 <= j < e.vars.len() ==> laws::is_written(e.operator, #[trigger] e.vars[j], full),
        forall|j: int|
            0 <= j < e.vars.len() ==> partial.dom().contains((#[trigger] e.vars[j]).name),
        forall|j: int|
            0 <= j < k ==> partial[(#[trigger] e.vars[j]).name] == full[e.vars[j].name],
        forall|j: int| k <= j < e.vars.len() ==> partial[(#[trigger] e.vars[j]).name] is Absent,
    ensures
        ser::expansion(e, policy, partial) == Ok::<Seq<char>, ser::SpecOfError>(
            out.0 + render::expression_text(out.1),
        ),
        out.1.vars == e.vars.skip(k),
        ser::expansion(out.1, later, full) is Ok,
        ser::expansion(e, later, full) == Ok::<Seq<char>, ser::SpecOfError>(
            out.0 + ser::expansion(out.1, later, full)->Ok_0,
        ),
        k == 0 ==> out.0 == Seq::<char>::empty() && out.1 == e,
{
    if k == 0 {
        assert(e.vars.skip(0) =~= e.vars);
        lemma_all_held(e, policy, partial);
        laws::law_full_expansion(e, later, full);
        let whole = ser::expansion(e, later, full)->Ok_0;
        assert(Seq::<char>::empty() + whole =~= whole);
        assert(Seq::<char>::empty() + render::expression_text(e) =~= render::expression_text(e));
        (Seq::<char>::empty(), e)
    } else {
        lemma_text_left(e, k, policy, partial, full);
        lemma_filled_later(e, k, later, full);
        (
            text_before(e.operator, laws::written_values(e, full).take(k)),
            SpecOfExpression { operator: op_left(e.operator), vars: e.vars.skip(k) },
        )
    }
}

} // verus!
