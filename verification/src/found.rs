//! What is found in a URI, and where it goes.
use crate::backend;
use crate::binding;
use crate::binding::{SpecOfFound, SpecOfUri};
use crate::de;
use crate::elements;
use crate::grammar;
use crate::parser;
use crate::parser::{SpecOfParsed, SpecOfVar, VarMod};
use crate::round_trip;
use crate::serializer;
use crate::single;
use crate::text;
use crate::{FillPolicy, SpecOfError};
use vstd::prelude::*;

verus! {

/// The values that parameters give to a name are those of the first of them and then those of the
/// others. One parameter gives its value to its own name alone.
pub proof fn law_values_of_a_name(
    a: Seq<(Seq<char>, Seq<char>)>,
    b: Seq<(Seq<char>, Seq<char>)>,
    pair: (Seq<char>, Seq<char>),
    name: Seq<char>,
)
    ensures
        binding::values_of(a + b, name) == binding::values_of(a, name) + binding::values_of(b, name),
        pair.0 == name ==> binding::values_of(seq![pair], name) == seq![pair.1],
        pair.0 != name ==> binding::values_of(seq![pair], name) == Seq::<Seq<char>>::empty(),
    decreases b.len(),
{
    assert(seq![pair].drop_last() =~= Seq::empty());
    assert(binding::values_of(seq![pair].drop_last(), name) =~= Seq::empty());
    assert(Seq::<Seq<char>>::empty().push(pair.1) =~= seq![pair.1]);
    if b.len() == 0 {
        assert(a + b =~= a);
        assert(binding::values_of(a, name) + binding::values_of(b, name) =~= binding::values_of(
            a,
            name,
        ));
    } else {
        law_values_of_a_name(a, b.drop_last(), pair, name);
        assert((a + b).drop_last() =~= a + b.drop_last());
        assert(binding::values_of(a + b, name) =~= binding::values_of(a, name)
            + binding::values_of(b, name));
    }
}

/// Whether no variable has a name.
pub open spec fn is_unknown(vars: Seq<SpecOfVar>, name: Seq<char>) -> bool {
    forall|i: int| 0 <= i < vars.len() ==> (#[trigger] vars[i]).name != name
}

proof fn lemma_unknown(vars: Seq<SpecOfVar>, name: Seq<char>)
    ensures
        is_unknown(vars, name) <==> !binding::is_scalar(vars, name) && !binding::is_explode(
            vars,
            name,
        ),
{
    if binding::is_explode(vars, name) {
        let i = choose|i: int|
            0 <= i < vars.len() && vars[i] == (SpecOfVar { name, modifier: VarMod::Explode });
        assert(vars[i].name == name);
    }
    if !is_unknown(vars, name) {
        let i = choose|i: int| 0 <= i < vars.len() && (#[trigger] vars[i]).name == name;
        if vars[i].modifier == VarMod::Explode {
            assert(vars[i] == (SpecOfVar { name, modifier: VarMod::Explode }));
            assert(vars.contains(vars[i]));
        }
    }
}

/// A parameter is left over if and only if no variable has its name and the template does not hold
/// it itself. Those that are left over keep their order.
pub proof fn law_parameters_left_over(
    vars: Seq<SpecOfVar>,
    fixed: Seq<(Seq<char>, Seq<char>)>,
    a: Seq<(Seq<char>, Seq<char>)>,
    b: Seq<(Seq<char>, Seq<char>)>,
    pair: (Seq<char>, Seq<char>),
)
    ensures
        binding::loose(vars, fixed, a + b) == binding::loose(vars, fixed, a) + binding::loose(
            vars,
            fixed,
            b,
        ),
        is_unknown(vars, pair.0) && !fixed.contains(pair) ==> binding::loose(
            vars,
            fixed,
            seq![pair],
        ) == seq![pair],
        !is_unknown(vars, pair.0) || fixed.contains(pair) ==> binding::loose(
            vars,
            fixed,
            seq![pair],
        ) == Seq::<(Seq<char>, Seq<char>)>::empty(),
    decreases b.len(),
{
    lemma_unknown(vars, pair.0);
    assert(seq![pair].drop_last() =~= Seq::empty());
    assert(binding::loose(vars, fixed, seq![pair].drop_last()) =~= Seq::empty());
    assert(Seq::<(Seq<char>, Seq<char>)>::empty().push(pair) =~= seq![pair]);
    let first = binding::loose(vars, fixed, a);
    if b.len() == 0 {
        assert(a + b =~= a);
        assert(first + binding::loose(vars, fixed, b) =~= first);
    } else {
        law_parameters_left_over(vars, fixed, a, b.drop_last(), pair);
        assert((a + b).drop_last() =~= a + b.drop_last());
        assert(binding::loose(vars, fixed, a + b) =~= first + binding::loose(vars, fixed, b));
    }
}

/// A second value for a name is refused if and only if none of the two begins with the other, with the
/// name and both of them.
pub proof fn law_second_value(
    scalars: Map<Seq<char>, Seq<char>>,
    name: Seq<char>,
    new: Seq<char>,
)
    ensures
        binding::merged(scalars, name, new) is Err <==> scalars.dom().contains(name)
            && !text::begins_with(new, scalars[name]) && !text::begins_with(scalars[name], new),
        binding::merged(scalars, name, new) matches Err(error) ==> error
            == SpecOfError::MismatchedValues(name, scalars[name], new),
{
}

/// What a variable is bound to is what was found for it, and it is bound to nothing only if nothing
/// was found. Only what was found in more than one way is refused, and never a single value.
pub proof fn law_nothing_found_is_lost(name: Seq<char>, found: SpecOfFound)
    ensures
        match binding::binding_of(name, found) {
            Ok(de::SpecOfBinding::Scalar(s)) => found.scalar == Some(s),
            Ok(de::SpecOfBinding::PathExplode(sep, joined)) => found.scalar is None && found.path
                == Some((sep, joined)) && (found.query matches Some(items) ==> items
                == de::path_items(sep, joined)),
            Ok(de::SpecOfBinding::QueryExplode(items)) => found.scalar is None && found.path is None
                && found.assoc is None && found.query == Some(items) && items.len() > 0,
            Ok(de::SpecOfBinding::Assoc(sep, pairs)) => found.scalar is None && found.path is None
                && found.assoc == Some((sep, pairs)) && (found.query matches Some(items)
                ==> items.len() == 0),
            Ok(de::SpecOfBinding::Empty) => found.scalar is None && found.path is None
                && found.assoc is None && (found.query matches Some(items) ==> items.len() == 0),
            Err(_) => found.scalar is None && found.query is Some && (found.path is Some
                || found.assoc is Some),
        },
        found.scalar is Some ==> binding::binding_of(name, found) is Ok,
        found.scalar is None && found.query is None ==> binding::binding_of(name, found) is Ok,
{
}

/// The names that get a value are those of the variables, in the order of the template.
pub proof fn law_names_are_bound_in_order(
    template: SpecOfParsed,
    query: Option<Seq<char>>,
    captures: Seq<(Seq<char>, Option<Seq<char>>)>,
)
    requires
        binding::bound(template, query, captures) is Ok,
    ensures
        binding::keys(binding::bound(template, query, captures)->Ok_0) == parser::names(
            parser::vars_of(template.parts()),
        ),
{
    let scalars = binding::all_scalars(template, query, captures)->Ok_0;
    lemma_bound_in_order(
        template,
        query,
        captures,
        scalars,
        parser::names(parser::vars_of(template.parts())),
    );
}

proof fn lemma_bound_in_order(
    template: SpecOfParsed,
    query: Option<Seq<char>>,
    captures: Seq<(Seq<char>, Option<Seq<char>>)>,
    scalars: Map<Seq<char>, Seq<char>>,
    names: Seq<Seq<char>>,
)
    requires
        binding::bindings_of(template, query, captures, scalars, names) is Ok,
    ensures
        binding::keys(binding::bindings_of(template, query, captures, scalars, names)->Ok_0)
            == names,
    decreases names.len(),
{
    let list = binding::bindings_of(template, query, captures, scalars, names)->Ok_0;
    if names.len() > 0 {
        lemma_bound_in_order(template, query, captures, scalars, names.drop_last());
        let before = binding::bindings_of(
            template,
            query,
            captures,
            scalars,
            names.drop_last(),
        )->Ok_0;
        assert(binding::keys(before).push(names.last()) =~= names);
        assert(binding::keys(list) =~= binding::keys(before).push(names.last()));
    } else {
        assert(binding::keys(list) =~= names);
    }
}

/// Names that are all different are all kept, in their order, and those that follow others change
/// nothing of what is kept of these.
pub proof fn law_distinct_names_keep_their_order(a: Seq<Seq<char>>, b: Seq<Seq<char>>)
    ensures
        a.no_duplicates() ==> parser::distinct(a) == a,
        parser::distinct(a + b).len() >= parser::distinct(a).len(),
        parser::distinct(a + b).take(parser::distinct(a).len() as int) == parser::distinct(a),
{
    lemma_distinct_begins(a, b);
    lemma_distinct_all(a);
}

proof fn lemma_distinct_begins(a: Seq<Seq<char>>, b: Seq<Seq<char>>)
    ensures
        parser::distinct(a + b).len() >= parser::distinct(a).len(),
        parser::distinct(a + b).take(parser::distinct(a).len() as int) == parser::distinct(a),
    decreases b.len(),
{
    let kept = parser::distinct(a);
    if b.len() == 0 {
        assert(a + b =~= a);
        assert(kept.take(kept.len() as int) =~= kept);
    } else {
        lemma_distinct_begins(a, b.drop_last());
        assert((a + b).drop_last() =~= a + b.drop_last());
        let before = parser::distinct(a + b.drop_last());
        assert(before.push(b.last()).take(kept.len() as int) =~= before.take(kept.len() as int));
    }
}

proof fn lemma_distinct_all(a: Seq<Seq<char>>)
    ensures
        a.no_duplicates() ==> parser::distinct(a) == a,
    decreases a.len(),
{
    if a.len() > 0 && a.no_duplicates() {
        let before = a.drop_last();
        lemma_distinct_all(before);
        assert(before.no_duplicates());
        if before.contains(a.last()) {
            let i = choose|i: int| 0 <= i < before.len() && before[i] == a.last();
            assert(a[i] == a[a.len() - 1]);
        }
        assert(before.push(a.last()) =~= a);
    } else if a.len() == 0 {
        assert(parser::distinct(a) =~= a);
    }
}

/// The number of values that is announced is refused only where it is not that of the variables:
/// fewer where none may be missing, and more where there may be none to spare. The error has both
/// numbers.
pub proof fn law_announced_numbers(policy: FillPolicy, len: usize, count: nat)
    ensures
        serializer::count_error(policy, None, count) is None,
        len == count ==> serializer::count_error(policy, Some(len), count) is None,
        len < count ==> (serializer::count_error(policy, Some(len), count) is Some <==> policy
            == FillPolicy::NoMissing || policy == FillPolicy::Strict),
        len > count ==> (serializer::count_error(policy, Some(len), count) is Some <==> policy
            == FillPolicy::NoExtra || policy == FillPolicy::Strict),
        match serializer::count_error(policy, Some(len), count) {
            None => true,
            Some(crate::ser::SpecOfError::MissingPositionalFields(got, expected)) => got == len
                && expected == count && got < expected,
            Some(crate::ser::SpecOfError::ExtraPositionalFields(got, expected)) => got == len
                && expected == count && got > expected,
            _ => false,
        },
{
}

/// Whether a field can take the parameters that no other variable names, in a section: a variable
/// of its name is exploded there.
pub open spec fn takes_in(vars: Seq<SpecOfVar>, field: Seq<char>) -> bool {
    exists|i: int|
        0 <= i < vars.len() && (#[trigger] vars[i]).name == field && vars[i].modifier
            == VarMod::Explode
}

/// Whether a field can take parameters before the query.
pub open spec fn takes_in_path(template: SpecOfParsed, field: Seq<char>) -> bool {
    takes_in(parser::vars_of(template.before_query()), field)
}

/// Whether a field can take parameters in the query.
pub open spec fn takes_in_query(template: SpecOfParsed, field: Seq<char>) -> bool {
    takes_in(parser::vars_of(parser::section_parts(template.query)), field)
}

proof fn lemma_takes(parts: Seq<parser::SpecOfPart>, field: Seq<char>)
    ensures
        parser::is_exploded(parts, field) <==> takes_in(parser::vars_of(parts), field),
{
    let vars = parser::vars_of(parts);
    let var = SpecOfVar { name: field, modifier: VarMod::Explode };
    if takes_in(vars, field) {
        let i = choose|i: int|
            0 <= i < vars.len() && (#[trigger] vars[i]).name == field && vars[i].modifier
                == VarMod::Explode;
        assert(vars[i] == var);
        assert(vars.contains(vars[i]));
    }
    if vars.contains(var) {
        let i = choose|i: int| 0 <= i < vars.len() && vars[i] == var;
        assert(vars[i].name == field);
    }
}

proof fn lemma_assocs(template: SpecOfParsed, fields: Seq<Seq<char>>)
    requires
        parser::with_assocs(template, fields) is Ok,
    ensures
        ({
            let out = parser::with_assocs(template, fields)->Ok_0;
            &&& out.parts() == template.parts()
            &&& out.before_query() == template.before_query()
            &&& out.query == template.query
            &&& forall|i: int|
                0 <= i < fields.len() ==> {
                    &&& takes_in_path(template, #[trigger] fields[i]) || takes_in_query(
                        template,
                        fields[i],
                    )
                    &&& takes_in_path(template, fields[i]) ==> out.path_assoc == Some(fields[i])
                    &&& takes_in_query(template, fields[i]) ==> out.query_assoc == Some(fields[i])
                }
            &&& template.path_assoc is Some ==> out.path_assoc == template.path_assoc
            &&& template.query_assoc is Some ==> out.query_assoc == template.query_assoc
            &&& out.path_assoc != template.path_assoc ==> fields.contains(out.path_assoc->0)
                && takes_in_path(template, out.path_assoc->0) && out.path_assoc is Some
            &&& out.query_assoc != template.query_assoc ==> fields.contains(out.query_assoc->0)
                && takes_in_query(template, out.query_assoc->0) && out.query_assoc is Some
        }),
    decreases fields.len(),
{
    if fields.len() > 0 {
        let field = fields[0];
        let next = parser::with_assoc(template, field)->Ok_0;
        let rest = fields.skip(1);
        lemma_takes(template.before_query(), field);
        lemma_takes(parser::section_parts(template.query), field);
        lemma_assocs(next, rest);
        let out = parser::with_assocs(template, fields)->Ok_0;
        assert(fields.contains(field));
        assert forall|f: Seq<char>| rest.contains(f) implies fields.contains(f) by {
            let i = choose|i: int| 0 <= i < rest.len() && rest[i] == f;
            assert(fields[i + 1] == f);
        }
        assert forall|i: int| 0 <= i < fields.len() implies {
            &&& takes_in_path(template, #[trigger] fields[i]) || takes_in_query(template, fields[i])
            &&& takes_in_path(template, fields[i]) ==> out.path_assoc == Some(fields[i])
            &&& takes_in_query(template, fields[i]) ==> out.query_assoc == Some(fields[i])
        } by {
            if i > 0 {
                assert(fields[i] == rest[i - 1]);
            }
        }
    }
}

/// Of the fields that are to take the parameters that no other variable names, each is exploded, and
/// takes them wherever it is. Nothing else takes any, and the template stays what it is.
pub proof fn law_fields_take_what_is_left(template: SpecOfParsed, fields: Seq<Seq<char>>, i: int)
    requires
        template.path_assoc is None,
        template.query_assoc is None,
        parser::with_assocs(template, fields) is Ok,
        0 <= i < fields.len(),
    ensures
        ({
            let out = parser::with_assocs(template, fields)->Ok_0;
            &&& out.parts() == template.parts()
            &&& takes_in_path(template, fields[i]) || takes_in_query(template, fields[i])
            &&& takes_in_path(template, fields[i]) ==> out.path_assoc == Some(fields[i])
            &&& takes_in_query(template, fields[i]) ==> out.query_assoc == Some(fields[i])
            &&& out.path_assoc matches Some(field) ==> fields.contains(field) && takes_in_path(
                template,
                field,
            )
            &&& out.query_assoc matches Some(field) ==> fields.contains(field) && takes_in_query(
                template,
                field,
            )
        }),
{
    lemma_assocs(template, fields);
}

proof fn lemma_named(vars: Seq<SpecOfVar>, field: Seq<char>)
    requires
        takes_in(vars, field),
    ensures
        parser::names(vars).contains(field),
{
    let i = choose|i: int|
        0 <= i < vars.len() && (#[trigger] vars[i]).name == field && vars[i].modifier
            == VarMod::Explode;
    assert(parser::names(vars)[i] == field);
}

/// One field is refused if and only if it is exploded nowhere: as unknown where no variable has its
/// name, and as not exploded where one has.
pub proof fn law_one_field(template: SpecOfParsed, field: Seq<char>)
    requires
        template.path_assoc is None,
        template.query_assoc is None,
    ensures
        match parser::with_assocs(template, seq![field]) {
            Ok(_) => takes_in_path(template, field) || takes_in_query(template, field),
            Err(error) => {
                &&& !takes_in_path(template, field) && !takes_in_query(template, field)
                &&& error == (if is_unknown(parser::vars_of(template.parts()), field) {
                    parser::SpecOfError::UnknownField(field)
                } else {
                    parser::SpecOfError::NotExploded(field)
                })
            },
        },
{
    let all = parser::vars_of(template.parts());
    lemma_takes(template.before_query(), field);
    lemma_takes(parser::section_parts(template.query), field);
    assert(seq![field].skip(1) =~= Seq::empty());
    reveal_with_fuel(parser::with_assocs, 2);
    round_trip::lemma_vars_concat(
        template.before_query() + parser::section_parts(template.query),
        parser::section_parts(template.fragment),
    );
    round_trip::lemma_vars_concat(template.before_query(), parser::section_parts(template.query));
    let path = parser::vars_of(template.before_query());
    let query = parser::vars_of(parser::section_parts(template.query));
    let fragment = parser::vars_of(parser::section_parts(template.fragment));
    assert(all == path + query + fragment);
    if takes_in(path, field) {
        lemma_named(path, field);
        let i = choose|i: int| 0 <= i < path.len() && parser::names(path)[i] == field;
        assert(parser::names(all)[i] == field);
    }
    if takes_in(query, field) {
        lemma_named(query, field);
        let i = choose|i: int| 0 <= i < query.len() && parser::names(query)[i] == field;
        assert(parser::names(all)[path.len() + i] == field);
    }
    if parser::names(all).contains(field) {
        let i = choose|i: int| 0 <= i < all.len() && parser::names(all)[i] == field;
        assert(all[i].name == field);
    }
    if !is_unknown(all, field) {
        let i = choose|i: int| 0 <= i < all.len() && (#[trigger] all[i]).name == field;
        assert(parser::names(all)[i] == field);
    }
}

proof fn lemma_scalar(vars: Seq<SpecOfVar>, i: int)
    requires
        0 <= i < vars.len(),
    ensures
        vars[i].modifier != VarMod::Explode ==> binding::is_scalar(vars, vars[i].name),
        vars[i].modifier == VarMod::Explode ==> binding::is_explode(vars, vars[i].name),
{
    if vars[i].modifier == VarMod::Explode {
        assert(vars[i] == (SpecOfVar { name: vars[i].name, modifier: VarMod::Explode }));
        assert(vars.contains(vars[i]));
    }
}

/// The variables of the authority, the path and the query.
pub open spec fn read_vars(template: SpecOfParsed) -> Seq<SpecOfVar> {
    binding::path_vars(template) + binding::query_vars(template)
}

/// Whether each name stands for one thing: all variables of that name are exploded or none is, one
/// that is not takes no other parameters, and one that is exploded in the path takes those of the
/// query only if it takes those of the path.
pub open spec fn is_clear(template: SpecOfParsed) -> bool {
    let vars = read_vars(template);
    &&& forall|i: int, j: int|
        #![trigger vars[i], vars[j]]
        0 <= i < vars.len() && 0 <= j < vars.len() && vars[i].name == vars[j].name ==> (
        vars[i].modifier == VarMod::Explode <==> vars[j].modifier == VarMod::Explode)
    &&& forall|i: int|
        0 <= i < vars.len() && (#[trigger] vars[i]).modifier != VarMod::Explode
            ==> template.path_assoc != Some(vars[i].name) && template.query_assoc != Some(
            vars[i].name,
        )
    &&& template.query_assoc matches Some(field) ==> takes_in_path(template, field)
        ==> template.path_assoc == Some(field)
}

/// The values of a template can be told from one another if and only if each of its names stands for
/// one thing.
pub proof fn law_clear_templates(template: SpecOfParsed)
    ensures
        binding::is_sound(template) <==> is_clear(template),
{
    let path = binding::path_vars(template);
    let query = binding::query_vars(template);
    let vars = read_vars(template);
    assert forall|i: int| 0 <= i < vars.len() implies (vars[i].modifier != VarMod::Explode ==> (
    binding::is_scalar(path, #[trigger] vars[i].name) || binding::is_scalar(query, vars[i].name)))
        && (vars[i].modifier == VarMod::Explode ==> (binding::is_explode(path, vars[i].name)
        || binding::is_explode(query, vars[i].name))) by {
        if i < path.len() {
            lemma_scalar(path, i);
        } else {
            lemma_scalar(query, i - path.len());
        }
    }
    if binding::is_sound(template) {
        assert forall|i: int, j: int|
            #![trigger vars[i], vars[j]]
            0 <= i < vars.len() && 0 <= j < vars.len() && vars[i].name == vars[j].name implies (
        vars[i].modifier == VarMod::Explode <==> vars[j].modifier == VarMod::Explode) by {
            assert(!binding::overlaps(template, vars[i].name));
        }
        assert forall|i: int|
            0 <= i < vars.len() && (#[trigger] vars[i]).modifier
                != VarMod::Explode implies template.path_assoc != Some(vars[i].name)
            && template.query_assoc != Some(vars[i].name) by {
            assert(!binding::overlaps(template, vars[i].name));
        }
        if let Some(field) = template.query_assoc {
            if takes_in_path(template, field) {
                lemma_takes(template.before_query(), field);
                assert(!binding::overlaps(template, field));
            }
        }
    }
    if is_clear(template) {
        assert forall|name: Seq<char>| !#[trigger] binding::overlaps(template, name) by {
            lemma_takes(template.before_query(), name);
            lemma_takes(parser::section_parts(template.query), name);
            let scalar = binding::is_scalar(path, name) || binding::is_scalar(query, name);
            if scalar {
                let i = lemma_place(path, query, name, false);
                if binding::is_explode(path, name) || binding::is_explode(query, name) {
                    let j = lemma_place(path, query, name, true);
                    assert(vars[i].name == vars[j].name);
                }
            }
        }
    }
}

proof fn lemma_place(path: Seq<SpecOfVar>, query: Seq<SpecOfVar>, name: Seq<char>, exploded: bool) -> (at:
    int)
    requires
        exploded ==> binding::is_explode(path, name) || binding::is_explode(query, name),
        !exploded ==> binding::is_scalar(path, name) || binding::is_scalar(query, name),
    ensures
        0 <= at < (path + query).len(),
        (path + query)[at].name == name,
        (path + query)[at].modifier == VarMod::Explode <==> exploded,
{
    let var = SpecOfVar { name, modifier: VarMod::Explode };
    if exploded {
        if binding::is_explode(path, name) {
            choose|i: int| 0 <= i < path.len() && path[i] == var
        } else {
            path.len() + choose|i: int| 0 <= i < query.len() && query[i] == var
        }
    } else if binding::is_scalar(path, name) {
        choose|i: int|
            0 <= i < path.len() && (#[trigger] path[i]).name == name && path[i].modifier
                != VarMod::Explode
    } else {
        path.len() + choose|i: int|
            0 <= i < query.len() && (#[trigger] query[i]).name == name && query[i].modifier
                != VarMod::Explode
    }
}

/// A query with a parameter that no variable names, that the template does not hold itself and that
/// no field takes, is refused.
pub proof fn law_unexpected_parameters_are_refused(
    template: SpecOfParsed,
    query: Option<Seq<char>>,
    captures: Seq<(Seq<char>, Option<Seq<char>>)>,
    i: int,
)
    requires
        template.query_assoc is None,
        0 <= i < binding::query_pairs(template, query).len(),
        is_unknown(binding::query_vars(template), binding::query_pairs(template, query)[i].0),
        !binding::fixed_pairs(parser::section_parts(template.query)).contains(
            binding::query_pairs(template, query)[i],
        ),
    ensures
        binding::bound(template, query, captures) is Err,
{
    let vars = binding::query_vars(template);
    let fixed = binding::fixed_pairs(parser::section_parts(template.query));
    let pairs = binding::query_pairs(template, query);
    let a = pairs.take(i);
    let b = pairs.skip(i + 1);
    law_parameters_left_over(vars, fixed, a.push(pairs[i]), b, pairs[i]);
    law_parameters_left_over(vars, fixed, a, seq![pairs[i]], pairs[i]);
    assert(a + seq![pairs[i]] =~= a.push(pairs[i]));
    assert(a.push(pairs[i]) + b =~= pairs);
    assert(binding::other_pairs(template, query).len() > 0);
}

/// A list of the path is what was captured under the name of a variable that is exploded, if that is
/// UTF-8 and the variable takes no other parameters.
pub proof fn law_path_lists_are_captured(
    assoc: Option<Seq<char>>,
    names: Seq<(char, Seq<char>)>,
    captures: Seq<(Seq<char>, Option<Seq<char>>)>,
    name: Seq<char>,
)
    ensures
        ({
            let lists = binding::path_lists(assoc, names, captures);
            &&& lists.dom().contains(name) <==> assoc != Some(name) && (exists|i: int|
                0 <= i < names.len() && (#[trigger] names[i]).1 == name) && (binding::captured(
                captures,
                name,
            ) matches Some(m) && binding::decoded(m) is Some)
            &&& lists.dom().contains(name) ==> binding::captured(captures, name) == Some(
                lists[name].1,
            ) && names.contains((lists[name].0, name))
        }),
    decreases names.len(),
{
    if names.len() > 0 {
        let fewer = names.drop_last();
        law_path_lists_are_captured(assoc, fewer, captures, name);
        let before = binding::path_lists(assoc, fewer, captures);
        let lists = binding::path_lists(assoc, names, captures);
        if before.dom().contains(name) {
            let i = choose|i: int| 0 <= i < fewer.len() && fewer[i] == (before[name].0, name);
            assert(names[i] == fewer[i]);
        }
        if exists|i: int| 0 <= i < names.len() && (#[trigger] names[i]).1 == name {
            let i = choose|i: int| 0 <= i < names.len() && (#[trigger] names[i]).1 == name;
            if i < fewer.len() {
                assert(fewer[i].1 == name);
            } else {
                assert(names.last().1 == name);
            }
        }
        assert(names[names.len() - 1] == names.last());
        if exists|i: int| 0 <= i < fewer.len() && (#[trigger] fewer[i]).1 == name {
            let i = choose|i: int| 0 <= i < fewer.len() && (#[trigger] fewer[i]).1 == name;
            assert(names[i].1 == name);
        }
    }
}

/// A URI that is none of the template's is refused with the URI itself, but for its query.
pub proof fn law_other_uris_are_named(template: SpecOfParsed, uri: SpecOfUri)
    requires
        single::regex_of(template) is Ok,
        backend::found_in(single::regex_of(template)->Ok_0, binding::url_of(uri)) is None,
    ensures
        single::contracted(template, uri) == Err::<
            Seq<(Seq<char>, de::SpecOfBinding)>,
            SpecOfError,
        >(SpecOfError::NoMatch(binding::url_of(uri))),
        uri.scheme is None && uri.authority is None ==> binding::url_of(uri) == uri.path,
        uri.path.len() <= binding::url_of(uri).len() && binding::url_of(uri).skip(
            binding::url_of(uri).len() - uri.path.len(),
        ) == uri.path,
{
    let url = binding::url_of(uri);
    assert(url.skip(url.len() - uri.path.len()) =~= uri.path);
}

/// A text that is no template is refused with an error that holds it.
pub proof fn law_malformed_texts_are_named(s: Seq<char>, fields: Seq<Seq<char>>)
    ensures
        grammar::template_of(s) is None <==> crate::template_from(s, fields) matches Err(
            SpecOfError::Parsing(_),
        ),
        crate::template_from(s, fields) matches Err(SpecOfError::Parsing(message))
            ==> elements::is_within(s, message),
        crate::template_from(s, Seq::empty()) is Ok <==> grammar::template_of(s) is Some,
{
    let before = "malformed template: "@;
    assert(before + s =~= before + s + Seq::<char>::empty());
    assert(elements::is_around(before + s, before, s, Seq::empty()));
}

/// What was captured for a single value is its value, as far as it is UTF-8. Where nothing was
/// captured, or what is not UTF-8, nothing changes.
pub proof fn law_captured_values(
    scalars: Map<Seq<char>, Seq<char>>,
    name: Seq<char>,
    group: Seq<char>,
    captures: Seq<(Seq<char>, Option<Seq<char>>)>,
)
    ensures
        binding::path_scalars(scalars, seq![(name, group)], captures) == (match binding::captured(
            captures,
            group,
        ) {
            Some(m) => match binding::decoded(m) {
                Some(value) => binding::merged(scalars, name, value),
                None => Ok(scalars),
            },
            None => Ok(scalars),
        }),
{
    let names = seq![(name, group)];
    assert(names.skip(1) =~= Seq::empty());
    reveal_with_fuel(binding::path_scalars, 2);
}

/// What was captured under a name is what the first group of that name took, and nothing where there
/// is none.
pub proof fn law_first_capture(
    captures: Seq<(Seq<char>, Option<Seq<char>>)>,
    name: Seq<char>,
    i: int,
)
    ensures
        0 <= i < captures.len() && captures[i].0 == name && (forall|j: int|
            0 <= j < i ==> (#[trigger] captures[j]).0 != name) ==> binding::captured(captures, name)
            == captures[i].1,
        (forall|j: int| 0 <= j < captures.len() ==> (#[trigger] captures[j]).0 != name)
            ==> binding::captured(captures, name) is None,
{
    lemma_place_of(captures, name, 0);
}

proof fn lemma_place_of<T>(list: Seq<(Seq<char>, T)>, name: Seq<char>, i: int)
    requires
        0 <= i <= list.len(),
    ensures
        i <= binding::place_of(list, name, i) <= list.len(),
        binding::place_of(list, name, i) < list.len() ==> list[binding::place_of(list, name, i)].0
            == name,
        forall|j: int| i <= j < binding::place_of(list, name, i) ==> (#[trigger] list[j]).0 != name,
    decreases list.len() - i,
{
    if i < list.len() && list[i].0 != name {
        lemma_place_of(list, name, i + 1);
    }
}

/// A field that is named twice is named once, and in which order two fields are named does not matter.
/// Two fields that are exploded in the same place are refused, with both of them.
pub proof fn law_fields_in_any_order(template: SpecOfParsed, one: Seq<char>, other: Seq<char>)
    requires
        template.path_assoc is None,
        template.query_assoc is None,
    ensures
        parser::with_assocs(template, seq![one, one]) == parser::with_assocs(template, seq![one]),
        parser::with_assocs(template, seq![one, other]) is Ok ==> parser::with_assocs(
            template,
            seq![other, one],
        ) == parser::with_assocs(template, seq![one, other]),
        one != other && takes_in_path(template, one) && takes_in_path(template, other)
            ==> parser::with_assocs(template, seq![one, other]) == Err::<
            SpecOfParsed,
            parser::SpecOfError,
        >(parser::SpecOfError::MultiplePathFields(one, other)),
        one != other && !takes_in_path(template, other) && takes_in_query(template, one)
            && takes_in_query(template, other) ==> parser::with_assocs(template, seq![one, other])
            == Err::<SpecOfParsed, parser::SpecOfError>(
            parser::SpecOfError::MultipleQueryFields(one, other),
        ),
{
    lemma_takes(template.before_query(), one);
    lemma_takes(parser::section_parts(template.query), one);
    lemma_takes(template.before_query(), other);
    lemma_takes(parser::section_parts(template.query), other);
    law_one_field(template, one);
    law_one_field(template, other);
    lemma_two_fields(template, one, one);
    lemma_two_fields(template, one, other);
    lemma_two_fields(template, other, one);
    assert(seq![one].skip(1) =~= Seq::empty());
    assert(seq![other].skip(1) =~= Seq::empty());
    reveal_with_fuel(parser::with_assocs, 2);
    if let Ok(next) = parser::with_assoc(template, one) {
        assert(next.before_query() == template.before_query());
        assert(next.parts() == template.parts());
    }
    if let Ok(next) = parser::with_assoc(template, other) {
        assert(next.before_query() == template.before_query());
        assert(next.parts() == template.parts());
    }
}

proof fn lemma_two_fields(template: SpecOfParsed, one: Seq<char>, other: Seq<char>)
    ensures
        parser::with_assocs(template, seq![one, other]) == (match parser::with_assoc(template, one) {
            Ok(next) => parser::with_assoc(next, other),
            Err(error) => Err(error),
        }),
{
    let fields = seq![one, other];
    assert(fields.skip(1) =~= seq![other]);
    assert(seq![other].skip(1) =~= Seq::empty());
    reveal_with_fuel(parser::with_assocs, 3);
}

/// A prefix adds text to a template and nothing else: its variables stay, in their order, and so do
/// the fields that take other parameters.
pub proof fn law_prefix_adds_text(template: SpecOfParsed, prefix: Seq<char>)
    ensures
        ({
            let longer = single::prefixed(template, prefix);
            &&& parser::vars_of(longer.parts()) == parser::vars_of(template.parts())
            &&& binding::path_vars(longer) == binding::path_vars(template)
            &&& binding::query_vars(longer) == binding::query_vars(template)
            &&& longer.path_assoc == template.path_assoc
            &&& longer.query_assoc == template.query_assoc
            &&& longer.auth == template.auth
            &&& longer.query == template.query
            &&& longer.fragment == template.fragment
        }),
{
    let longer = single::prefixed(template, prefix);
    let auth = parser::section_parts(template.auth);
    let query = parser::section_parts(template.query);
    let fragment = parser::section_parts(template.fragment);
    let first = seq![parser::SpecOfPart::Lit(prefix)];
    assert(first.drop_last() =~= Seq::empty());
    assert(parser::vars_of(first.drop_last()) =~= Seq::empty());
    assert(parser::vars_of(first) =~= Seq::empty());
    round_trip::lemma_vars_concat(first, template.path);
    round_trip::lemma_vars_concat(auth, first + template.path);
    round_trip::lemma_vars_concat(auth, template.path);
    let path = parser::vars_of(template.path);
    assert(Seq::<SpecOfVar>::empty() + path =~= path);
    round_trip::lemma_vars_concat(longer.before_query(), query);
    round_trip::lemma_vars_concat(template.before_query(), query);
    round_trip::lemma_vars_concat(longer.before_query() + query, fragment);
    round_trip::lemma_vars_concat(template.before_query() + query, fragment);
}

} // verus!
