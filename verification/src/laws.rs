//! What holds of templates as a whole.
use crate::binding;
use crate::given::SpecOfGiven;
use crate::grammar;
use crate::parser;
use crate::parser::{Op, SpecOfExpression, SpecOfParsed, SpecOfPart, SpecOfVar};
use crate::render;
use crate::ser;
use crate::ser::SpecOfBinding;
use crate::serializer;
use crate::single;
use crate::text;
use crate::value::Value;
use crate::{FillPolicy, SpecOfError};
use vstd::prelude::*;

verus! {

/// Whether a variable has a value that is written, be it an empty text.
pub open spec fn is_written(
    op: Op,
    var: SpecOfVar,
    bindings: Map<Seq<char>, SpecOfBinding>,
) -> bool {
    let value = bindings[var.name];
    &&& bindings.dom().contains(var.name)
    &&& value !is Absent
    &&& value !is Omitted
    &&& !ser::is_silent(op, value)
    &&& ser::value_text(op, var, value) is Ok
}

/// What an expression writes for each of its variables.
pub open spec fn written_values(
    e: SpecOfExpression,
    bindings: Map<Seq<char>, SpecOfBinding>,
) -> Seq<Seq<char>> {
    Seq::new(
        e.vars.len(),
        |i: int| ser::value_text(e.operator, e.vars[i], bindings[e.vars[i].name])->Ok_0,
    )
}

proof fn lemma_full_expansion(
    e: SpecOfExpression,
    policy: FillPolicy,
    bindings: Map<Seq<char>, SpecOfBinding>,
    i: nat,
)
    requires
        1 <= i <= e.vars.len(),
        forall|j: int|
            0 <= j < e.vars.len() ==> is_written(e.operator, #[trigger] e.vars[j], bindings),
    ensures
        ser::fill_from(
            e,
            policy,
            bindings,
            i,
            Some(ser::op_separator(e.operator)),
            ser::mark(ser::op_prefix(e.operator)) + text::join(
                written_values(e, bindings).take(i as int),
                seq![ser::op_separator(e.operator)],
            ),
        ) == Ok::<Seq<char>, ser::SpecOfError>(
            ser::mark(ser::op_prefix(e.operator)) + text::join(
                written_values(e, bindings),
                seq![ser::op_separator(e.operator)],
            ),
        ),
    decreases e.vars.len() - i,
{
    let values = written_values(e, bindings);
    let separator = ser::op_separator(e.operator);
    let prefix = ser::mark(ser::op_prefix(e.operator));
    if i == e.vars.len() {
        assert(values.take(i as int) =~= values);
    } else {
        assert(is_written(e.operator, e.vars[i as int], bindings));
        assert(values.take((i + 1) as int).drop_last() =~= values.take(i as int));
        let out = prefix + text::join(values.take(i as int), seq![separator]);
        assert(out + ser::mark(Some(separator)) + values[i as int] =~= prefix + text::join(
            values.take((i + 1) as int),
            seq![separator],
        ));
        lemma_full_expansion(e, policy, bindings, i + 1);
    }
}

/// An expression whose variables all have values that are written writes what goes before its
/// first value and then the values, with what goes between them: whatever the policy is.
pub proof fn law_full_expansion(
    e: SpecOfExpression,
    policy: FillPolicy,
    bindings: Map<Seq<char>, SpecOfBinding>,
)
    requires
        e.vars.len() > 0,
        forall|j: int|
            0 <= j < e.vars.len() ==> is_written(e.operator, #[trigger] e.vars[j], bindings),
    ensures
        ser::expansion(e, policy, bindings) == Ok::<Seq<char>, ser::SpecOfError>(
            ser::mark(ser::op_prefix(e.operator)) + text::join(
                written_values(e, bindings),
                seq![ser::op_separator(e.operator)],
            ),
        ),
{
    let values = written_values(e, bindings);
    let prefix = ser::mark(ser::op_prefix(e.operator));
    assert(is_written(e.operator, e.vars[0], bindings));
    assert(values.take(1) =~= seq![values[0]]);
    assert(Seq::<char>::empty() + prefix + values[0] =~= prefix + text::join(
        values.take(1),
        seq![ser::op_separator(e.operator)],
    ));
    lemma_full_expansion(e, policy, bindings, 1);
}

/// An expression none of whose variables has a value writes nothing, where they may be dropped.
pub proof fn law_empty_expansion(
    e: SpecOfExpression,
    bindings: Map<Seq<char>, SpecOfBinding>,
)
    requires
        forall|j: int|
            0 <= j < e.vars.len() ==> bindings.dom().contains((#[trigger] e.vars[j]).name) && (
            bindings[e.vars[j].name] is Absent || bindings[e.vars[j].name] is Omitted),
    ensures
        ser::expansion(e, FillPolicy::DropMissing, bindings) == Ok::<Seq<char>, ser::SpecOfError>(
            Seq::empty(),
        ),
{
    if e.vars.len() > 0 {
        lemma_empty_expansion(e, bindings, 0, ser::op_prefix(e.operator));
    }
}

proof fn lemma_empty_expansion(
    e: SpecOfExpression,
    bindings: Map<Seq<char>, SpecOfBinding>,
    i: nat,
    joiner: Option<char>,
)
    requires
        i <= e.vars.len(),
        forall|j: int|
            0 <= j < e.vars.len() ==> bindings.dom().contains((#[trigger] e.vars[j]).name) && (
            bindings[e.vars[j].name] is Absent || bindings[e.vars[j].name] is Omitted),
    ensures
        ser::fill_from(e, FillPolicy::DropMissing, bindings, i, joiner, Seq::empty()) == Ok::<
            Seq<char>,
            ser::SpecOfError,
        >(Seq::empty()),
    decreases e.vars.len() - i,
{
    if i < e.vars.len() {
        assert(bindings.dom().contains(e.vars[i as int].name));
        lemma_empty_expansion(e, bindings, i + 1, joiner);
    }
}

/// A variable without a value is an error of a policy that wants them all, whatever the other
/// variables of its expression have, if none of those before it is one too.
pub proof fn law_missing_is_refused(
    e: SpecOfExpression,
    policy: FillPolicy,
    bindings: Map<Seq<char>, SpecOfBinding>,
    k: int,
)
    requires
        policy == FillPolicy::NoMissing || policy == FillPolicy::Strict,
        0 <= k < e.vars.len(),
        bindings.dom().contains(e.vars[k].name),
        bindings[e.vars[k].name] is Absent,
        forall|j: int|
            0 <= j < k ==> bindings.dom().contains((#[trigger] e.vars[j]).name)
                && bindings[e.vars[j].name] !is Absent && ser::value_text(
                e.operator,
                e.vars[j],
                bindings[e.vars[j].name],
            ) is Ok,
    ensures
        ser::expansion(e, policy, bindings) == Err::<Seq<char>, ser::SpecOfError>(
            ser::SpecOfError::MissingNamedVariable(e.vars[k].name),
        ),
{
    lemma_missing_is_refused(
        e,
        policy,
        bindings,
        k,
        0,
        ser::op_prefix(e.operator),
        Seq::empty(),
    );
}

proof fn lemma_missing_is_refused(
    e: SpecOfExpression,
    policy: FillPolicy,
    bindings: Map<Seq<char>, SpecOfBinding>,
    k: int,
    i: nat,
    joiner: Option<char>,
    out: Seq<char>,
)
    requires
        policy == FillPolicy::NoMissing || policy == FillPolicy::Strict,
        i <= k < e.vars.len(),
        bindings.dom().contains(e.vars[k].name),
        bindings[e.vars[k].name] is Absent,
        forall|j: int|
            0 <= j < k ==> bindings.dom().contains((#[trigger] e.vars[j]).name)
                && bindings[e.vars[j].name] !is Absent && ser::value_text(
                e.operator,
                e.vars[j],
                bindings[e.vars[j].name],
            ) is Ok,
    ensures
        ser::fill_from(e, policy, bindings, i, joiner, out) == Err::<Seq<char>, ser::SpecOfError>(
            ser::SpecOfError::MissingNamedVariable(e.vars[k].name),
        ),
    decreases k - i,
{
    if i < k {
        let var = e.vars[i as int];
        let value = bindings[var.name];
        if value is Omitted {
            lemma_missing_is_refused(e, policy, bindings, k, i + 1, joiner, out);
        } else {
            let written = ser::value_text(e.operator, var, value)->Ok_0;
            let next = out + (if ser::is_silent(e.operator, value) {
                Seq::empty()
            } else {
                ser::mark(joiner)
            }) + written;
            lemma_missing_is_refused(
                e,
                policy,
                bindings,
                k,
                i + 1,
                Some(ser::op_separator(e.operator)),
                next,
            );
        }
    }
}

/// Parts without expressions write their own text.
pub proof fn lemma_closed_expansion(
    parts: Seq<SpecOfPart>,
    policy: FillPolicy,
    bindings: Map<Seq<char>, SpecOfBinding>,
)
    requires
        single::expressions_of(parts).len() == 0,
    ensures
        ser::parts_expansion(parts, policy, bindings) == Ok::<Seq<char>, ser::SpecOfError>(
            render::parts_text(parts),
        ),
    decreases parts.len(),
{
    if parts.len() > 0 {
        lemma_closed_expansion(parts.drop_last(), policy, bindings);
    }
}

/// A template without expressions is a URI already: whatever it is filled with, the text stays.
pub proof fn law_closed_template(
    template: SpecOfParsed,
    policy: FillPolicy,
    bindings: Map<Seq<char>, SpecOfBinding>,
)
    requires
        single::expressions_of(template.parts()).len() == 0,
    ensures
        ser::parts_expansion(template.parts(), policy, bindings) == Ok::<
            Seq<char>,
            ser::SpecOfError,
        >(grammar::template_text(template)),
{
    lemma_closed_expansion(template.parts(), policy, bindings);
}

proof fn lemma_one_part(part: SpecOfPart)
    ensures
        render::parts_text(seq![part]) == render::part_text(part),
{
    let parts = seq![part];
    assert(parts.drop_last() =~= Seq::empty());
    assert(render::parts_text(parts.drop_last()) =~= Seq::empty());
    assert(render::parts_text(parts) =~= render::part_text(part));
}

/// The text of a template with a prefix has the prefix where the path begins.
pub proof fn law_prefixed_text(template: SpecOfParsed, prefix: Seq<char>)
    ensures
        grammar::template_text(single::prefixed(template, prefix)) == render::parts_text(
            parser::section_parts(template.auth),
        ) + prefix + render::parts_text(template.path) + render::parts_text(
            parser::section_parts(template.query),
        ) + render::parts_text(parser::section_parts(template.fragment)),
{
    let longer = single::prefixed(template, prefix);
    let auth = parser::section_parts(template.auth);
    let query = parser::section_parts(template.query);
    let fragment = parser::section_parts(template.fragment);
    let first = seq![SpecOfPart::Lit(prefix)];
    lemma_one_part(SpecOfPart::Lit(prefix));
    render::law_parts_text_concat(first, template.path);
    render::law_parts_text_concat(auth, longer.path);
    render::law_parts_text_concat(longer.before_query(), query);
    render::law_parts_text_concat(longer.before_query() + query, fragment);
    assert(grammar::template_text(longer) =~= render::parts_text(auth) + prefix
        + render::parts_text(template.path) + render::parts_text(query) + render::parts_text(
        fragment,
    ));
}

/// Prefixes add up: the later one stands before the earlier one.
pub proof fn law_prefixes_add_up(template: SpecOfParsed, inner: Seq<char>, outer: Seq<char>)
    ensures
        grammar::template_text(single::prefixed(single::prefixed(template, inner), outer))
            == grammar::template_text(single::prefixed(template, outer + inner)),
{
    let once = single::prefixed(template, inner);
    let first = seq![SpecOfPart::Lit(inner)];
    law_prefixed_text(once, outer);
    law_prefixed_text(template, outer + inner);
    render::law_parts_text_concat(first, template.path);
    lemma_one_part(SpecOfPart::Lit(inner));
    assert(grammar::template_text(single::prefixed(once, outer)) =~= grammar::template_text(
        single::prefixed(template, outer + inner),
    ));
}

proof fn lemma_concat_parts(
    a: Seq<SpecOfPart>,
    b: Seq<SpecOfPart>,
    f: spec_fn(SpecOfPart) -> Seq<char>,
)
    ensures
        render::concat_parts(a + b, f) == render::concat_parts(a, f) + render::concat_parts(b, f),
    decreases b.len(),
{
    if b.len() == 0 {
        assert(a + b =~= a);
        assert(render::concat_parts(a, f) + render::concat_parts(b, f) =~= render::concat_parts(
            a,
            f,
        ));
    } else {
        lemma_concat_parts(a, b.drop_last(), f);
        assert((a + b).drop_last() =~= a + b.drop_last());
        assert(render::concat_parts(a + b, f) =~= render::concat_parts(a, f)
            + render::concat_parts(b, f));
    }
}

/// The route of a template with a prefix begins with the prefix, and then comes the route of the
/// template.
pub proof fn law_prefixed_route(template: SpecOfParsed, prefix: Seq<char>)
    ensures
        single::route_of(single::prefixed(template, prefix)) == prefix + single::route_of(template),
{
    let f = |part: SpecOfPart| render::part_route(part);
    let first = seq![SpecOfPart::Lit(prefix)];
    lemma_concat_parts(first, template.path, f);
    assert(first.drop_last() =~= Seq::empty());
    assert(render::concat_parts(first.drop_last(), f) =~= Seq::empty());
    assert(render::concat_parts(first, f) =~= prefix);
}

/// The template of a mapping is written as the mapping writes it.
pub proof fn law_mapping_round_trip(template: Seq<char>, fields: Seq<Seq<char>>)
    requires
        crate::template_from(template, fields) is Ok,
    ensures
        grammar::template_text(crate::template_from(template, fields)->Ok_0) == template,
{
    let plain = grammar::template_of(template)->0;
    grammar::law_round_trip(template);
    law_assocs_keep_parts(plain, fields);
}

/// The fields that take other parameters change nothing else of a template, and each is a variable
/// that is exploded.
pub proof fn law_assocs_keep_parts(template: SpecOfParsed, fields: Seq<Seq<char>>)
    requires
        parser::with_assocs(template, fields) is Ok,
    ensures
        ({
            let annotated = parser::with_assocs(template, fields)->Ok_0;
            &&& annotated.auth == template.auth
            &&& annotated.path == template.path
            &&& annotated.query == template.query
            &&& annotated.fragment == template.fragment
            &&& annotated.path_assoc is Some ==> annotated.path_assoc == template.path_assoc
                || parser::is_exploded(template.before_query(), annotated.path_assoc->0)
            &&& annotated.query_assoc is Some ==> annotated.query_assoc == template.query_assoc
                || parser::is_exploded(
                parser::section_parts(template.query),
                annotated.query_assoc->0,
            )
        }),
    decreases fields.len(),
{
    if fields.len() > 0 {
        let next = parser::with_assoc(template, fields[0])->Ok_0;
        law_assocs_keep_parts(next, fields.skip(1));
        assert(next.before_query() == template.before_query());
    }
}

/// Where every variable of the authority, the path and the query has a value, a partial fill
/// leaves no expression there.
pub proof fn law_partial_fill_closes(parts: Seq<SpecOfPart>, vars: Seq<(Seq<char>, SpecOfGiven)>)
    requires
        single::filled_parts(parts, vars) is Ok,
        forall|i: int|
            0 <= i < parts.len() ==> single::is_given(#[trigger] parts[i], binding::keys(vars)),
    ensures
        single::expressions_of(single::filled_parts(parts, vars)->Ok_0).len() == 0,
    decreases parts.len(),
{
    if parts.len() > 0 {
        let before = parts.drop_last();
        assert forall|i: int| 0 <= i < before.len() implies single::is_given(
            #[trigger] before[i],
            binding::keys(vars),
        ) by {
            assert(before[i] == parts[i]);
        }
        law_partial_fill_closes(before, vars);
        assert(single::is_given(parts[parts.len() - 1], binding::keys(vars)));
        let filled = single::filled_parts(parts, vars)->Ok_0;
        assert(filled.drop_last() =~= single::filled_parts(before, vars)->Ok_0);
    }
}

/// A partial fill with no values leaves parts as they are, if their expressions have variables.
pub proof fn law_partial_fill_with_nothing(parts: Seq<SpecOfPart>)
    requires
        forall|i: int|
            0 <= i < parts.len() ==> (#[trigger] parts[i] is Lit || parser::part_vars(
                parts[i],
            ).len() > 0),
    ensures
        single::filled_parts(parts, Seq::empty()) == Ok::<Seq<SpecOfPart>, SpecOfError>(parts),
    decreases parts.len(),
{
    if parts.len() > 0 {
        let before = parts.drop_last();
        let last = parts.last();
        assert forall|i: int| 0 <= i < before.len() implies (#[trigger] before[i] is Lit
            || parser::part_vars(before[i]).len() > 0) by {
            assert(before[i] == parts[i]);
        }
        law_partial_fill_with_nothing(before);
        assert(parts[parts.len() - 1] is Lit || parser::part_vars(last).len() > 0);
        if last !is Lit {
            let names = binding::keys(Seq::<(Seq<char>, SpecOfGiven)>::empty());
            assert(!single::is_given(last, names)) by {
                let var = parser::part_vars(last)[0];
                assert(!names.contains(var.name));
            }
        }
        assert(before.push(last) =~= parts);
    } else {
        assert(parts =~= Seq::empty());
    }
}

/// Of two values that go together for one name the longer stays, the other is its beginning, and
/// nothing else changes.
pub proof fn law_longest_value_stays(
    scalars: Map<Seq<char>, Seq<char>>,
    name: Seq<char>,
    new: Seq<char>,
)
    requires
        binding::merged(scalars, name, new) is Ok,
    ensures
        ({
            let after = binding::merged(scalars, name, new)->Ok_0;
            &&& after.dom() == scalars.dom().insert(name)
            &&& text::begins_with(after[name], new)
            &&& scalars.dom().contains(name) ==> text::begins_with(after[name], scalars[name])
            &&& after[name] == new || scalars.dom().contains(name) && after[name] == scalars[name]
            &&& forall|other: Seq<char>|
                other != name && scalars.dom().contains(other) ==> #[trigger] after[other]
                    == scalars[other]
        }),
{
    let after = binding::merged(scalars, name, new)->Ok_0;
    text::law_begins_with(new, new, new);
    if scalars.dom().contains(name) {
        text::law_begins_with(scalars[name], new, new);
        if text::begins_with(new, scalars[name]) {
            assert(after.dom() =~= scalars.dom().insert(name));
        } else {
            assert(after.dom() =~= scalars.dom().insert(name));
        }
    }
    assert(after.dom() =~= scalars.dom().insert(name));
}

/// In which order two values of one name come does not matter.
pub proof fn law_values_in_any_order(
    scalars: Map<Seq<char>, Seq<char>>,
    name: Seq<char>,
    a: Seq<char>,
    b: Seq<char>,
)
    requires
        binding::merged(scalars, name, a) is Ok,
        binding::merged(binding::merged(scalars, name, a)->Ok_0, name, b) is Ok,
    ensures
        binding::merged(scalars, name, b) is Ok,
        binding::merged(binding::merged(scalars, name, b)->Ok_0, name, a) == binding::merged(
            binding::merged(scalars, name, a)->Ok_0,
            name,
            b,
        ),
{
    text::law_begins_with(a, b, a);
    text::law_begins_with(b, a, b);
    if scalars.dom().contains(name) {
        let v = scalars[name];
        text::law_begins_with(a, v, b);
        text::law_begins_with(b, v, a);
        text::law_begins_with(v, a, b);
        text::law_begins_with(v, b, a);
        text::law_begins_with(a, b, v);
        text::law_begins_with(b, a, v);
    }
    let one = binding::merged(binding::merged(scalars, name, a)->Ok_0, name, b)->Ok_0;
    let two = binding::merged(binding::merged(scalars, name, b)->Ok_0, name, a)->Ok_0;
    assert(one =~= two);
}

/// Whether a variable adds nothing to what an expression writes: its value is given as nothing, or
/// none is given and such are dropped.
pub open spec fn adds_nothing(
    policy: FillPolicy,
    var: SpecOfVar,
    bindings: Map<Seq<char>, SpecOfBinding>,
) -> bool {
    bindings.dom().contains(var.name) && (bindings[var.name] is Omitted || bindings[var.name]
        is Absent && policy == FillPolicy::DropMissing)
}

/// The variables without those that add nothing.
pub open spec fn that_count(
    policy: FillPolicy,
    vars: Seq<SpecOfVar>,
    bindings: Map<Seq<char>, SpecOfBinding>,
) -> Seq<SpecOfVar>
    decreases vars.len(),
{
    if vars.len() == 0 {
        Seq::empty()
    } else if adds_nothing(policy, vars[0], bindings) {
        that_count(policy, vars.skip(1), bindings)
    } else {
        seq![vars[0]] + that_count(policy, vars.skip(1), bindings)
    }
}

/// Whether a variable has no value and is left in the template for that.
pub open spec fn is_held(
    policy: FillPolicy,
    var: SpecOfVar,
    bindings: Map<Seq<char>, SpecOfBinding>,
) -> bool {
    &&& policy == FillPolicy::NoExtra || policy == FillPolicy::Relaxed
    &&& bindings.dom().contains(var.name)
    &&& bindings[var.name] is Absent
}

/// Whether between two variables that are left in the template there is never nothing but variables
/// that add nothing, unless there is none at all.
pub open spec fn are_held_together(
    policy: FillPolicy,
    vars: Seq<SpecOfVar>,
    bindings: Map<Seq<char>, SpecOfBinding>,
) -> bool {
    forall|i: int, k: int|
        0 <= i && i + 1 < k < vars.len() && is_held(policy, #[trigger] vars[i], bindings)
            && is_held(policy, #[trigger] vars[k], bindings) ==> exists|j: int|
            i < j < k && !adds_nothing(policy, #[trigger] vars[j], bindings)
}

proof fn lemma_next_that_counts(
    policy: FillPolicy,
    vars: Seq<SpecOfVar>,
    bindings: Map<Seq<char>, SpecOfBinding>,
    i: int,
) -> (k: int)
    requires
        0 <= i < vars.len(),
        that_count(policy, vars.skip(i), bindings).len() > 0,
    ensures
        i <= k < vars.len(),
        vars[k] == that_count(policy, vars.skip(i), bindings)[0],
        forall|j: int| i <= j < k ==> adds_nothing(policy, #[trigger] vars[j], bindings),
    decreases vars.len() - i,
{
    assert(vars.skip(i)[0] == vars[i]);
    assert(vars.skip(i).skip(1) =~= vars.skip(i + 1));
    if adds_nothing(policy, vars[i], bindings) {
        if i + 1 == vars.len() {
            assert(vars.skip(i + 1) =~= Seq::empty());
            assert(that_count(policy, vars.skip(i + 1), bindings).len() == 0);
            assert(that_count(policy, vars.skip(i), bindings).len() == 0);
        }
        lemma_next_that_counts(policy, vars, bindings, i + 1)
    } else {
        i
    }
}

proof fn lemma_fill_that_count(
    e: SpecOfExpression,
    fewer: SpecOfExpression,
    policy: FillPolicy,
    bindings: Map<Seq<char>, SpecOfBinding>,
    i: nat,
    j: nat,
    joiner: Option<char>,
    out: Seq<char>,
)
    requires
        e.operator == fewer.operator,
        are_held_together(policy, e.vars, bindings),
        i <= e.vars.len(),
        j <= fewer.vars.len(),
        fewer.vars.skip(j as int) == that_count(policy, e.vars.skip(i as int), bindings),
    ensures
        ser::fill_from(e, policy, bindings, i, joiner, out) == ser::fill_from(
            fewer,
            policy,
            bindings,
            j,
            joiner,
            out,
        ),
    decreases e.vars.len() - i, 0int,
{
    let rest = e.vars.skip(i as int);
    let left = fewer.vars.skip(j as int);
    if i == e.vars.len() {
        assert(rest =~= Seq::empty());
        assert(left.len() == 0);
    } else {
        let var = e.vars[i as int];
        assert(rest[0] == var);
        assert(rest.skip(1) =~= e.vars.skip((i + 1) as int));
        if adds_nothing(policy, var, bindings) {
            lemma_fill_that_count(e, fewer, policy, bindings, i + 1, j, joiner, out);
        } else {
            assert(left == seq![var] + that_count(policy, rest.skip(1), bindings));
            assert(left.len() > 0 && j < fewer.vars.len());
            assert(left[0] == fewer.vars[j as int]);
            assert(left.skip(1) =~= fewer.vars.skip((j + 1) as int));
            assert(left.skip(1) =~= that_count(policy, rest.skip(1), bindings));
            if bindings.dom().contains(var.name) {
                let value = bindings[var.name];
                if is_held(policy, var, bindings) {
                    lemma_hold_that_count(
                        e,
                        fewer,
                        policy,
                        bindings,
                        i + 1,
                        j + 1,
                        out + ser::held_open(e.operator, joiner) + ser::var_text(var),
                    );
                } else if value !is Absent {
                    if let Ok(text) = ser::value_text(e.operator, var, value) {
                        lemma_fill_that_count(
                            e,
                            fewer,
                            policy,
                            bindings,
                            i + 1,
                            j + 1,
                            Some(ser::op_separator(e.operator)),
                            out + (if ser::is_silent(e.operator, value) {
                                Seq::empty()
                            } else {
                                ser::mark(joiner)
                            }) + text,
                        );
                    }
                }
            }
        }
    }
}

proof fn lemma_hold_that_count(
    e: SpecOfExpression,
    fewer: SpecOfExpression,
    policy: FillPolicy,
    bindings: Map<Seq<char>, SpecOfBinding>,
    i: nat,
    j: nat,
    out: Seq<char>,
)
    requires
        e.operator == fewer.operator,
        are_held_together(policy, e.vars, bindings),
        0 < i <= e.vars.len(),
        j <= fewer.vars.len(),
        is_held(policy, e.vars[i - 1], bindings),
        fewer.vars.skip(j as int) == that_count(policy, e.vars.skip(i as int), bindings),
    ensures
        ser::hold_from(e, policy, bindings, i, out) == ser::hold_from(
            fewer,
            policy,
            bindings,
            j,
            out,
        ),
    decreases e.vars.len() - i, 1int,
{
    let rest = e.vars.skip(i as int);
    let left = fewer.vars.skip(j as int);
    if i == e.vars.len() {
        assert(rest =~= Seq::empty());
        assert(left.len() == 0);
    } else {
        let var = e.vars[i as int];
        assert(rest[0] == var);
        assert(rest.skip(1) =~= e.vars.skip((i + 1) as int));
        if is_held(policy, var, bindings) {
            assert(left == seq![var] + that_count(policy, rest.skip(1), bindings));
            assert(left.len() > 0 && j < fewer.vars.len());
            assert(left[0] == fewer.vars[j as int]);
            assert(left.skip(1) =~= fewer.vars.skip((j + 1) as int));
            assert(left.skip(1) =~= that_count(policy, rest.skip(1), bindings));
            lemma_hold_that_count(
                e,
                fewer,
                policy,
                bindings,
                i + 1,
                j + 1,
                out.push(',') + ser::var_text(var),
            );
        } else {
            let joiner = Some(ser::op_separator(e.operator));
            lemma_fill_that_count(e, fewer, policy, bindings, i, j, joiner, out.push('}'));
            if left.len() > 0 {
                let k = lemma_next_that_counts(policy, e.vars, bindings, i as int);
                assert(left[0] == fewer.vars[j as int]);
                if is_held(policy, e.vars[k], bindings) {
                    assert(is_held(policy, e.vars[i - 1], bindings));
                    let m = choose|m: int|
                        i - 1 < m < k && !adds_nothing(policy, #[trigger] e.vars[m], bindings);
                    assert(adds_nothing(policy, e.vars[m], bindings));
                }
            }
        }
    }
}

/// An undefined variable adds nothing: an expression writes what it writes without the variables
/// whose value is given as nothing, and without those that have no value where such are dropped.
///
/// Where variables without a value are left in the template, one that is given as nothing between
/// two of them parts them.
pub proof fn law_undefined_adds_nothing(
    e: SpecOfExpression,
    policy: FillPolicy,
    bindings: Map<Seq<char>, SpecOfBinding>,
)
    requires
        are_held_together(policy, e.vars, bindings),
    ensures
        ser::expansion(e, policy, bindings) == ser::expansion(
            (SpecOfExpression { operator: e.operator, vars: that_count(policy, e.vars, bindings) }),
            policy,
            bindings,
        ),
{
    let fewer = SpecOfExpression {
        operator: e.operator,
        vars: that_count(policy, e.vars, bindings),
    };
    assert(e.vars.skip(0) =~= e.vars);
    assert(fewer.vars.skip(0) =~= fewer.vars);
    lemma_fill_that_count(
        e,
        fewer,
        policy,
        bindings,
        0,
        0,
        ser::op_prefix(e.operator),
        Seq::empty(),
    );
}

proof fn lemma_strict_fill(
    e: SpecOfExpression,
    policy: FillPolicy,
    bindings: Map<Seq<char>, SpecOfBinding>,
    i: nat,
    joiner: Option<char>,
    out: Seq<char>,
)
    ensures
        ser::fill_from(e, FillPolicy::Strict, bindings, i, joiner, out) == ser::fill_from(
            e,
            FillPolicy::NoMissing,
            bindings,
            i,
            joiner,
            out,
        ),
        ser::fill_from(e, FillPolicy::Strict, bindings, i, joiner, out) is Ok ==> ser::fill_from(
            e,
            policy,
            bindings,
            i,
            joiner,
            out,
        ) == ser::fill_from(e, FillPolicy::Strict, bindings, i, joiner, out),
    decreases e.vars.len() - i,
{
    if i < e.vars.len() && bindings.dom().contains(e.vars[i as int].name) {
        let var = e.vars[i as int];
        let value = bindings[var.name];
        match value {
            SpecOfBinding::Absent => {},
            SpecOfBinding::Omitted => {
                lemma_strict_fill(e, policy, bindings, i + 1, joiner, out);
            },
            _ => {
                if let Ok(text) = ser::value_text(e.operator, var, value) {
                    lemma_strict_fill(
                        e,
                        policy,
                        bindings,
                        i + 1,
                        Some(ser::op_separator(e.operator)),
                        out + (if ser::is_silent(e.operator, value) {
                            Seq::empty()
                        } else {
                            ser::mark(joiner)
                        }) + text,
                    );
                }
            },
        }
    }
}

proof fn lemma_strict_parts(
    parts: Seq<SpecOfPart>,
    policy: FillPolicy,
    bindings: Map<Seq<char>, SpecOfBinding>,
)
    ensures
        ser::parts_expansion(parts, FillPolicy::Strict, bindings) == ser::parts_expansion(
            parts,
            FillPolicy::NoMissing,
            bindings,
        ),
        ser::parts_expansion(parts, FillPolicy::Strict, bindings) is Ok ==> ser::parts_expansion(
            parts,
            policy,
            bindings,
        ) == ser::parts_expansion(parts, FillPolicy::Strict, bindings),
    decreases parts.len(),
{
    if parts.len() > 0 {
        lemma_strict_parts(parts.drop_last(), policy, bindings);
        if let Some(e) = parts.last().expression() {
            lemma_strict_fill(
                e,
                policy,
                bindings,
                0,
                ser::op_prefix(e.operator),
                Seq::empty(),
            );
        }
    }
}

proof fn lemma_strict_positions(
    policy: FillPolicy,
    pos: Seq<Seq<char>>,
    vals: Map<Seq<char>, SpecOfBinding>,
    items: Seq<Value>,
)
    ensures
        serializer::bound_by_position(FillPolicy::Strict, pos, vals, items)
            == serializer::bound_by_position(FillPolicy::NoExtra, pos, vals, items),
        serializer::bound_by_position(FillPolicy::Strict, pos, vals, items) is Ok
            ==> serializer::bound_by_position(policy, pos, vals, items)
            == serializer::bound_by_position(FillPolicy::Strict, pos, vals, items),
    decreases items.len(),
{
    if items.len() > 0 && pos.len() > 0 {
        if let Ok(binding) = serializer::binding_of(items[0]) {
            lemma_strict_positions(
                policy,
                pos.skip(1),
                vals.insert(pos[0], binding),
                items.skip(1),
            );
        }
    }
}

proof fn lemma_strict_names(
    policy: FillPolicy,
    vals: Map<Seq<char>, SpecOfBinding>,
    entries: Seq<(Value, Value)>,
)
    ensures
        serializer::bound_by_name(FillPolicy::Strict, vals, entries) == serializer::bound_by_name(
            FillPolicy::NoExtra,
            vals,
            entries,
        ),
        serializer::bound_by_name(FillPolicy::Strict, vals, entries) is Ok
            ==> serializer::bound_by_name(policy, vals, entries) == serializer::bound_by_name(
            FillPolicy::Strict,
            vals,
            entries,
        ),
    decreases entries.len(),
{
    if entries.len() > 0 {
        if let Ok(name) = serializer::key_text(entries[0].0) {
            if let Ok(next) = serializer::bind_name(
                FillPolicy::Strict,
                vals,
                name,
                entries[0].1,
            ) {
                lemma_strict_names(policy, next, entries.skip(1));
            }
        }
    }
}

proof fn lemma_strict_by_position(
    template: SpecOfParsed,
    policy: FillPolicy,
    len: Option<usize>,
    items: Seq<Value>,
)
    ensures
        is_both(
            serializer::filled_by_position(template, FillPolicy::Strict, len, items),
            serializer::filled_by_position(template, FillPolicy::NoMissing, len, items),
            serializer::filled_by_position(template, FillPolicy::NoExtra, len, items),
            serializer::filled_by_position(template, policy, len, items),
        ),
{
    let names = serializer::template_names(template);
    let vals = serializer::unbound(names);
    lemma_strict_positions(policy, names, vals, items);
    lemma_strict_positions(FillPolicy::NoMissing, names, vals, items);
    let bound = serializer::bound_by_position(FillPolicy::Strict, names, vals, items);
    if let Ok(bindings) = bound {
        lemma_strict_parts(template.parts(), policy, bindings);
        lemma_strict_parts(template.parts(), FillPolicy::NoExtra, bindings);
    }
}

proof fn lemma_strict_by_name(
    template: SpecOfParsed,
    policy: FillPolicy,
    len: Option<usize>,
    entries: Seq<(Value, Value)>,
)
    ensures
        is_both(
            serializer::filled_by_name(template, FillPolicy::Strict, len, entries),
            serializer::filled_by_name(template, FillPolicy::NoMissing, len, entries),
            serializer::filled_by_name(template, FillPolicy::NoExtra, len, entries),
            serializer::filled_by_name(template, policy, len, entries),
        ),
{
    let names = serializer::template_names(template);
    let vals = serializer::unbound(names);
    lemma_strict_names(policy, vals, entries);
    lemma_strict_names(FillPolicy::NoMissing, vals, entries);
    let bound = serializer::bound_by_name(FillPolicy::Strict, vals, entries);
    if let Ok(bindings) = bound {
        lemma_strict_parts(template.parts(), policy, bindings);
        lemma_strict_parts(template.parts(), FillPolicy::NoExtra, bindings);
    }
}

/// Whether a strict outcome is a text exactly where two others are, and any other is then the same.
pub open spec fn is_both(
    strict: Result<Seq<char>, ser::SpecOfError>,
    no_missing: Result<Seq<char>, ser::SpecOfError>,
    no_extra: Result<Seq<char>, ser::SpecOfError>,
    any: Result<Seq<char>, ser::SpecOfError>,
) -> bool {
    &&& strict is Ok <==> no_missing is Ok && no_extra is Ok
    &&& strict is Ok ==> any == strict
}

/// The strict policy fills a template exactly where both the one that wants all variables to have
/// values and the one that wants no others do, and then all the policies fill it in the same way.
pub proof fn law_strict_is_both(template: SpecOfParsed, policy: FillPolicy, context: Value)
    ensures
        is_both(
            serializer::filled(template, FillPolicy::Strict, context),
            serializer::filled(template, FillPolicy::NoMissing, context),
            serializer::filled(template, FillPolicy::NoExtra, context),
            serializer::filled(template, policy, context),
        ),
{
    match context {
        Value::Entries(_, len, entries) => {
            lemma_strict_by_name(template, policy, len, entries@);
        },
        Value::Items(_, len, items) => {
            lemma_strict_by_position(template, policy, len, items@);
        },
        Value::Wrapped(inner) => {
            lemma_strict_by_position(template, policy, Some(1), seq![*inner]);
        },
        _ => {
            lemma_strict_by_position(template, policy, Some(0), Seq::empty());
            lemma_strict_by_position(template, policy, Some(1), seq![context]);
        },
    }
}

} // verus!
