//! What giving values by their names leaves of a template.
use crate::binding;
use crate::given::SpecOfGiven;
use crate::grammar;
use crate::laws;
use crate::parser;
use crate::parser::{SpecOfParsed, SpecOfPart};
use crate::policy;
use crate::render;
use crate::ser;
use crate::single;
use crate::{FillPolicy, SpecOfError};
use vstd::prelude::*;

verus! {

/// Whether some variable of a part is not among the names of values.
pub open spec fn lacks_a_value(part: SpecOfPart, vars: Seq<(Seq<char>, SpecOfGiven)>) -> bool {
    exists|j: int|
        0 <= j < parser::part_vars(part).len() && forall|k: int|
            0 <= k < vars.len() ==> (#[trigger] vars[k]).0 != (#[trigger] parser::part_vars(
                part,
            )[j]).name
}

/// Whether a part is what values leave of another: the part itself where it is a literal or where a
/// variable of it has no value, and else a literal with what it writes for the values.
pub open spec fn is_left_of(
    left: SpecOfPart,
    part: SpecOfPart,
    vars: Seq<(Seq<char>, SpecOfGiven)>,
) -> bool {
    if part is Lit || lacks_a_value(part, vars) {
        left == part
    } else {
        left is Lit && single::written_parts(seq![part], render::part_text(part), vars) == Ok::<
            Seq<char>,
            SpecOfError,
        >(left->Lit_0)
    }
}

/// Whether parts are what values leave of others, one by one.
pub open spec fn are_left_of(
    left: Seq<SpecOfPart>,
    parts: Seq<SpecOfPart>,
    vars: Seq<(Seq<char>, SpecOfGiven)>,
) -> bool {
    &&& left.len() == parts.len()
    &&& forall|i: int| 0 <= i < parts.len() ==> is_left_of(#[trigger] left[i], parts[i], vars)
}

/// What values leave of the text of parts.
pub open spec fn text_left(parts: Seq<SpecOfPart>, vars: Seq<(Seq<char>, SpecOfGiven)>) -> Seq<char>
    decreases parts.len(),
{
    if parts.len() == 0 {
        Seq::empty()
    } else {
        let part = parts.last();
        text_left(parts.drop_last(), vars) + if part is Lit || lacks_a_value(part, vars) {
            render::part_text(part)
        } else {
            single::written_parts(seq![part], render::part_text(part), vars)->Ok_0
        }
    }
}

proof fn lemma_lacks(part: SpecOfPart, vars: Seq<(Seq<char>, SpecOfGiven)>)
    ensures
        lacks_a_value(part, vars) <==> !single::is_given(part, binding::keys(vars)),
{
    let asked = parser::part_vars(part);
    let names = binding::keys(vars);
    if lacks_a_value(part, vars) {
        let j = choose|j: int|
            0 <= j < asked.len() && forall|k: int|
                0 <= k < vars.len() ==> (#[trigger] vars[k]).0 != (#[trigger] asked[j]).name;
        if names.contains(asked[j].name) {
            let k = choose|k: int| 0 <= k < names.len() && names[k] == asked[j].name;
            assert(vars[k].0 == asked[j].name);
        }
    } else {
        assert forall|j: int| 0 <= j < asked.len() implies names.contains(
            (#[trigger] asked[j]).name,
        ) by {
            let k = choose|k: int| 0 <= k < vars.len() && (#[trigger] vars[k]).0 == asked[j].name;
            assert(names[k] == asked[j].name);
        }
    }
}

proof fn lemma_left(parts: Seq<SpecOfPart>, vars: Seq<(Seq<char>, SpecOfGiven)>)
    requires
        single::filled_parts(parts, vars) is Ok,
    ensures
        are_left_of(single::filled_parts(parts, vars)->Ok_0, parts, vars),
        render::parts_text(single::filled_parts(parts, vars)->Ok_0) == text_left(parts, vars),
    decreases parts.len(),
{
    if parts.len() > 0 {
        let before = parts.drop_last();
        let last = parts.last();
        let left = single::filled_parts(parts, vars)->Ok_0;
        let earlier = single::filled_parts(before, vars)->Ok_0;
        lemma_left(before, vars);
        lemma_lacks(last, vars);
        assert(left.drop_last() =~= earlier);
        assert forall|i: int| 0 <= i < parts.len() implies is_left_of(
            #[trigger] left[i],
            parts[i],
            vars,
        ) by {
            if i < before.len() {
                assert(left[i] == earlier[i]);
                assert(before[i] == parts[i]);
            } else {
                let s = render::part_text(last);
                if !(last is Lit) && !lacks_a_value(last, vars) {
                    assert(single::checked_template(s) is Ok);
                    assert(single::checked_template(s)->Ok_0 == s);
                }
            }
        }
        assert(is_left_of(left[parts.len() - 1], parts[parts.len() - 1], vars));
    }
}

/// A partial fill goes through all the parts outside the fragment one by one. It leaves a section
/// where one was, and nothing else of the template changes.
pub proof fn law_partial_fill_goes_part_by_part(
    template: SpecOfParsed,
    vars: Seq<(Seq<char>, SpecOfGiven)>,
)
    requires
        single::partially_filled(template, vars) is Ok,
    ensures
        ({
            let left = single::partially_filled(template, vars)->Ok_0;
            &&& are_left_of(left.path, template.path, vars)
            &&& left.auth is Some <==> template.auth is Some
            &&& template.auth is Some ==> are_left_of(left.auth->0, template.auth->0, vars)
            &&& left.query is Some <==> template.query is Some
            &&& template.query is Some ==> are_left_of(left.query->0, template.query->0, vars)
            &&& left.fragment == template.fragment
            &&& left.path_assoc == template.path_assoc
            &&& left.query_assoc == template.query_assoc
        }),
{
    lemma_left(template.path, vars);
    if template.auth is Some {
        lemma_left(template.auth->0, vars);
    }
    if template.query is Some {
        lemma_left(template.query->0, vars);
    }
}

/// A partial fill loses no text: what is left is, section by section, the text of each part that
/// lacks a value, and what each other one writes.
pub proof fn law_partial_fill_keeps_the_text(
    template: SpecOfParsed,
    vars: Seq<(Seq<char>, SpecOfGiven)>,
)
    requires
        single::partially_filled(template, vars) is Ok,
    ensures
        grammar::template_text(single::partially_filled(template, vars)->Ok_0) == text_left(
            parser::section_parts(template.auth),
            vars,
        ) + text_left(template.path, vars) + text_left(parser::section_parts(template.query), vars)
            + render::parts_text(parser::section_parts(template.fragment)),
{
    let left = single::partially_filled(template, vars)->Ok_0;
    let auth = parser::section_parts(template.auth);
    let query = parser::section_parts(template.query);
    lemma_left(template.path, vars);
    if template.auth is Some {
        lemma_left(auth, vars);
    }
    if template.query is Some {
        lemma_left(query, vars);
    }
    render::law_parts_text_concat(parser::section_parts(left.auth), left.path);
    render::law_parts_text_concat(left.before_query(), parser::section_parts(left.query));
    render::law_parts_text_concat(
        left.before_query() + parser::section_parts(left.query),
        parser::section_parts(left.fragment),
    );
}

proof fn lemma_left_stays(
    left: Seq<SpecOfPart>,
    parts: Seq<SpecOfPart>,
    vars: Seq<(Seq<char>, SpecOfGiven)>,
)
    requires
        are_left_of(left, parts, vars),
    ensures
        single::filled_parts(left, vars) == Ok::<Seq<SpecOfPart>, SpecOfError>(left),
    decreases left.len(),
{
    if left.len() > 0 {
        let before = left.drop_last();
        let earlier = parts.drop_last();
        assert forall|i: int| 0 <= i < earlier.len() implies is_left_of(
            #[trigger] before[i],
            earlier[i],
            vars,
        ) by {
            assert(is_left_of(left[i], parts[i], vars));
        }
        lemma_left_stays(before, earlier, vars);
        assert(is_left_of(left[left.len() - 1], parts[left.len() - 1], vars));
        lemma_lacks(left.last(), vars);
        assert(before.push(left.last()) =~= left);
    } else {
        assert(left =~= Seq::empty());
    }
}

/// Giving the same values again changes nothing.
pub proof fn law_partial_fill_is_done_once(
    template: SpecOfParsed,
    vars: Seq<(Seq<char>, SpecOfGiven)>,
)
    requires
        single::partially_filled(template, vars) is Ok,
    ensures
        ({
            let left = single::partially_filled(template, vars)->Ok_0;
            single::partially_filled(left, vars) == Ok::<SpecOfParsed, SpecOfError>(left)
        }),
{
    let left = single::partially_filled(template, vars)->Ok_0;
    law_partial_fill_goes_part_by_part(template, vars);
    lemma_left_stays(left.path, template.path, vars);
    if template.auth is Some {
        lemma_left_stays(left.auth->0, template.auth->0, vars);
    }
    if template.query is Some {
        lemma_left_stays(left.query->0, template.query->0, vars);
    }
}

proof fn lemma_none_lacks(parts: Seq<SpecOfPart>, vars: Seq<(Seq<char>, SpecOfGiven)>)
    requires
        single::filled_parts(parts, vars) is Ok,
        forall|i: int| 0 <= i < parts.len() ==> !lacks_a_value(#[trigger] parts[i], vars),
    ensures
        single::expressions_of(single::filled_parts(parts, vars)->Ok_0).len() == 0,
{
    assert forall|i: int| 0 <= i < parts.len() implies single::is_given(
        #[trigger] parts[i],
        binding::keys(vars),
    ) by {
        lemma_lacks(parts[i], vars);
    }
    laws::law_partial_fill_closes(parts, vars);
}

proof fn lemma_expressions_concat(a: Seq<SpecOfPart>, b: Seq<SpecOfPart>)
    ensures
        single::expressions_of(a + b).len() == single::expressions_of(a).len()
            + single::expressions_of(b).len(),
    decreases b.len(),
{
    if b.len() == 0 {
        assert(a + b =~= a);
    } else {
        assert((a + b).drop_last() =~= a + b.drop_last());
        lemma_expressions_concat(a, b.drop_last());
    }
}

/// Giving values to all the variables leaves a URI: expanding it, with whatever values, gives the text
/// that the parts wrote for the values.
pub proof fn law_whole_partial_fill_is_a_uri(
    template: SpecOfParsed,
    vars: Seq<(Seq<char>, SpecOfGiven)>,
    policy: FillPolicy,
    bindings: Map<Seq<char>, ser::SpecOfBinding>,
)
    requires
        single::partially_filled(template, vars) is Ok,
        forall|i: int|
            0 <= i < template.parts().len() ==> !lacks_a_value(#[trigger] template.parts()[i], vars),
        single::expressions_of(parser::section_parts(template.fragment)).len() == 0,
    ensures
        ser::parts_expansion(
            single::partially_filled(template, vars)->Ok_0.parts(),
            policy,
            bindings,
        ) == Ok::<Seq<char>, ser::SpecOfError>(
            text_left(parser::section_parts(template.auth), vars) + text_left(template.path, vars)
                + text_left(parser::section_parts(template.query), vars) + render::parts_text(
                parser::section_parts(template.fragment),
            ),
        ),
{
    let left = single::partially_filled(template, vars)->Ok_0;
    let auth = parser::section_parts(template.auth);
    let query = parser::section_parts(template.query);
    let all = template.parts();
    assert forall|i: int| 0 <= i < auth.len() implies !lacks_a_value(#[trigger] auth[i], vars) by {
        assert(all[i] == auth[i]);
    }
    assert forall|i: int| 0 <= i < template.path.len() implies !lacks_a_value(
        #[trigger] template.path[i],
        vars,
    ) by {
        assert(all[auth.len() + i] == template.path[i]);
    }
    assert forall|i: int| 0 <= i < query.len() implies !lacks_a_value(#[trigger] query[i], vars) by {
        assert(all[auth.len() + template.path.len() + i] == query[i]);
    }
    lemma_none_lacks(template.path, vars);
    if template.auth is Some {
        lemma_none_lacks(auth, vars);
    }
    if template.query is Some {
        lemma_none_lacks(query, vars);
    }
    lemma_expressions_concat(parser::section_parts(left.auth), left.path);
    lemma_expressions_concat(left.before_query(), parser::section_parts(left.query));
    lemma_expressions_concat(
        left.before_query() + parser::section_parts(left.query),
        parser::section_parts(left.fragment),
    );
    law_partial_fill_keeps_the_text(template, vars);
    laws::law_closed_template(left, policy, bindings);
}

/// Of several values of a name the first counts.
pub proof fn law_first_value_counts(vars: Seq<(Seq<char>, SpecOfGiven)>, k: int)
    requires
        0 <= k < vars.len(),
        forall|j: int| 0 <= j < k ==> (#[trigger] vars[j]).0 != vars[k].0,
    ensures
        policy::value_of(vars, vars[k].0) == Some(vars[k].1),
        policy::first_values(vars).contains(vars[k]),
        forall|i: int|
            0 <= i < policy::first_values(vars).len() && (#[trigger] policy::first_values(vars)[i]).0
                == vars[k].0 ==> policy::first_values(vars)[i] == vars[k],
{
    lemma_place(vars, k, 0);
    lemma_first(vars, k);
}

proof fn lemma_place(vars: Seq<(Seq<char>, SpecOfGiven)>, k: int, i: int)
    requires
        0 <= i <= k < vars.len(),
        forall|j: int| 0 <= j < k ==> (#[trigger] vars[j]).0 != vars[k].0,
    ensures
        binding::place_of(vars, vars[k].0, i) == k,
    decreases k - i,
{
    if i < k {
        assert(vars[i].0 != vars[k].0);
        lemma_place(vars, k, i + 1);
    }
}

proof fn lemma_first(vars: Seq<(Seq<char>, SpecOfGiven)>, k: int)
    requires
        0 <= k < vars.len(),
        forall|j: int| 0 <= j < k ==> (#[trigger] vars[j]).0 != vars[k].0,
    ensures
        policy::first_values(vars).contains(vars[k]),
        forall|i: int|
            0 <= i < policy::first_values(vars).len() && (#[trigger] policy::first_values(vars)[i]).0
                == vars[k].0 ==> policy::first_values(vars)[i] == vars[k],
    decreases vars.len(),
{
    let before = vars.drop_last();
    let earlier = policy::first_values(before);
    let all = policy::first_values(vars);
    lemma_first_names(before);
    if k < before.len() {
        assert(before[k] == vars[k]);
        assert forall|j: int| 0 <= j < k implies (#[trigger] before[j]).0 != before[k].0 by {
            assert(before[j] == vars[j]);
        }
        lemma_first(before, k);
        let at = choose|at: int| 0 <= at < earlier.len() && earlier[at] == vars[k];
        assert(all[at] == vars[k]);
        assert(binding::keys(earlier)[at] == vars[k].0);
    } else {
        if binding::keys(earlier).contains(vars[k].0) {
            let at = choose|at: int|
                0 <= at < earlier.len() && binding::keys(earlier)[at] == vars[k].0;
            assert(before.contains(earlier[at]));
            let j = choose|j: int| 0 <= j < before.len() && before[j] == earlier[at];
            assert(vars[j].0 == vars[k].0);
        }
        assert(all == earlier.push(vars[k]));
        assert(all[earlier.len() as int] == vars[k]);
        assert forall|i: int| 0 <= i < all.len() && (#[trigger] all[i]).0 == vars[k].0 implies all[i]
            == vars[k] by {
            if i < earlier.len() {
                assert(binding::keys(earlier)[i] == vars[k].0);
            }
        }
    }
}

proof fn lemma_first_names(vars: Seq<(Seq<char>, SpecOfGiven)>)
    ensures
        forall|i: int|
            0 <= i < policy::first_values(vars).len() ==> vars.contains(
                #[trigger] policy::first_values(vars)[i],
            ),
    decreases vars.len(),
{
    if vars.len() > 0 {
        let before = vars.drop_last();
        let earlier = policy::first_values(before);
        lemma_first_names(before);
        assert forall|i: int| 0 <= i < policy::first_values(vars).len() implies vars.contains(
            #[trigger] policy::first_values(vars)[i],
        ) by {
            if i < earlier.len() {
                assert(before.contains(earlier[i]));
                let j = choose|j: int| 0 <= j < before.len() && before[j] == earlier[i];
                assert(vars[j] == earlier[i]);
            } else {
                assert(vars[vars.len() - 1] == policy::first_values(vars)[i]);
            }
        }
    }
}

/// Whether the name of a variable of a template is not among the names of values.
pub open spec fn is_missing(
    template: SpecOfParsed,
    vars: Seq<(Seq<char>, SpecOfGiven)>,
    name: Seq<char>,
) -> bool {
    &&& exists|j: int|
        0 <= j < parser::vars_of(template.parts()).len() && (#[trigger] parser::vars_of(
            template.parts(),
        )[j]).name == name
    &&& forall|k: int| 0 <= k < vars.len() ==> (#[trigger] vars[k]).0 != name
}

/// Whether the name of a value is not among the names of a template's variables.
pub open spec fn is_extra(
    template: SpecOfParsed,
    vars: Seq<(Seq<char>, SpecOfGiven)>,
    name: Seq<char>,
) -> bool {
    &&& exists|k: int| 0 <= k < vars.len() && (#[trigger] vars[k]).0 == name
    &&& forall|j: int|
        0 <= j < parser::vars_of(template.parts()).len() ==> (#[trigger] parser::vars_of(
            template.parts(),
        )[j]).name != name
}

/// Where a template is filled by names, a policy that wants all variables to have values is met if
/// and only if none is missing, and one that wants no other values if and only if none is extra. What
/// is refused are the names that are. Apart from that, all the policies give the same.
pub proof fn law_fill_policies(
    template: SpecOfParsed,
    policy: FillPolicy,
    vars: Seq<(Seq<char>, SpecOfGiven)>,
)
    requires
        single::filled(template, FillPolicy::Relaxed, vars) is Ok || single::filled(
            template,
            FillPolicy::Relaxed,
            vars,
        )->Err_0 is CreateString,
    ensures
        match single::filled(template, policy, vars) {
            Err(SpecOfError::MissingCaptures(names)) => {
                &&& policy == FillPolicy::NoMissing || policy == FillPolicy::Strict
                &&& names.len() > 0
                &&& forall|name: Seq<char>| #[trigger]
                    names.contains(name) <==> is_missing(template, vars, name)
            },
            Err(SpecOfError::ExtraCaptures(names)) => {
                &&& policy == FillPolicy::NoExtra || policy == FillPolicy::Strict
                &&& names.len() > 0
                &&& forall|name: Seq<char>| #[trigger]
                    names.contains(name) <==> is_extra(template, vars, name)
            },
            other => {
                &&& other == single::filled(template, FillPolicy::Relaxed, vars)
                &&& policy == FillPolicy::NoMissing || policy == FillPolicy::Strict ==> forall|
                    name: Seq<char>,
                |
                    !#[trigger] is_missing(template, vars, name)
                &&& policy == FillPolicy::NoExtra || policy == FillPolicy::Strict ==> forall|
                    name: Seq<char>,
                |
                    !#[trigger] is_extra(template, vars, name)
            },
        },
{
    let asked = parser::names(parser::vars_of(template.parts()));
    let given = binding::keys(vars);
    let missing = policy::outside_of(parser::distinct(asked), given);
    let extra = policy::outside_of(parser::distinct(given), asked);
    assert forall|name: Seq<char>| #[trigger] missing.contains(name) <==> is_missing(
        template,
        vars,
        name,
    ) by {
        parser::law_distinct(asked);
        policy::lemma_outside_of_contains(parser::distinct(asked), given, name);
        lemma_names(template, vars, name);
    }
    assert forall|name: Seq<char>| #[trigger] extra.contains(name) <==> is_extra(
        template,
        vars,
        name,
    ) by {
        parser::law_distinct(given);
        policy::lemma_outside_of_contains(parser::distinct(given), asked, name);
        lemma_names(template, vars, name);
    }
    assert forall|name: Seq<char>| missing.len() == 0 implies !#[trigger] is_missing(
        template,
        vars,
        name,
    ) by {
        assert(!missing.contains(name));
    }
    assert forall|name: Seq<char>| extra.len() == 0 implies !#[trigger] is_extra(
        template,
        vars,
        name,
    ) by {
        assert(!extra.contains(name));
    }
}

proof fn lemma_names(
    template: SpecOfParsed,
    vars: Seq<(Seq<char>, SpecOfGiven)>,
    name: Seq<char>,
)
    ensures
        parser::names(parser::vars_of(template.parts())).contains(name) <==> exists|j: int|
            0 <= j < parser::vars_of(template.parts()).len() && (#[trigger] parser::vars_of(
                template.parts(),
            )[j]).name == name,
        binding::keys(vars).contains(name) <==> exists|k: int|
            0 <= k < vars.len() && (#[trigger] vars[k]).0 == name,
{
    let list = parser::vars_of(template.parts());
    let asked = parser::names(list);
    let given = binding::keys(vars);
    if asked.contains(name) {
        let j = choose|j: int| 0 <= j < asked.len() && asked[j] == name;
        assert(list[j].name == name);
    }
    if exists|j: int| 0 <= j < list.len() && (#[trigger] list[j]).name == name {
        let j = choose|j: int| 0 <= j < list.len() && (#[trigger] list[j]).name == name;
        assert(asked[j] == name);
    }
    if given.contains(name) {
        let k = choose|k: int| 0 <= k < given.len() && given[k] == name;
        assert(vars[k].0 == name);
    }
    if exists|k: int| 0 <= k < vars.len() && (#[trigger] vars[k]).0 == name {
        let k = choose|k: int| 0 <= k < vars.len() && (#[trigger] vars[k]).0 == name;
        assert(given[k] == name);
    }
}

} // verus!
