//! Which values a URI gives to the variables of a template.
use crate::backend;
use crate::de;
use crate::de::{clone_pairs, SpecOfBinding, UriDeserializer, VarBinding};
use crate::dict::Dict;
use crate::escape;
use crate::form;
use crate::form::percent_decode_bytes;
use crate::parser;
use crate::parser::{
    all_vars, Parsed, Part, SpecOfParsed, SpecOfPart, SpecOfVar, VarMod, VarSpec,
};
use crate::pieces;
use crate::reading;
use crate::render;
use crate::render::{template_re_string, var_re_name};
use crate::round_trip;
use crate::ser;
use crate::ser::separator_for;
use crate::single;
use crate::text;
use crate::policy::distinct_texts;
use crate::text::{chars_of, join_texts, same_text, text_begins_with, text_between};
use crate::{Error, FillPolicy, SpecOfError};
use vstd::prelude::*;

verus! {

broadcast use {crate::text::texts_push, crate::text::text_pairs_push};

/// Whether a variable of that name stands for a single value.
pub open spec fn is_scalar(vars: Seq<SpecOfVar>, name: Seq<char>) -> bool {
    exists|i: int|
        0 <= i < vars.len() && (#[trigger] vars[i]).name == name && vars[i].modifier
            != VarMod::Explode
}

/// Whether a variable of that name is exploded.
pub open spec fn is_explode(vars: Seq<SpecOfVar>, name: Seq<char>) -> bool {
    vars.contains(SpecOfVar { name, modifier: VarMod::Explode })
}

/// Where a name first stands in a list, or else the length of the list.
pub open spec fn place_of<T>(list: Seq<(Seq<char>, T)>, name: Seq<char>, i: int) -> int
    decreases list.len() - i,
{
    if i >= list.len() {
        list.len() as int
    } else if list[i].0 == name {
        i
    } else {
        place_of(list, name, i + 1)
    }
}

/// Whether one modifier leaves more of a value than another.
pub open spec fn outreaches(new: VarMod, kept: VarMod) -> bool {
    match (new, kept) {
        (VarMod::Whole, VarMod::Prefix(_)) => true,
        (VarMod::Prefix(n), VarMod::Prefix(k)) => n > k,
        _ => false,
    }
}

/// The modifier that leaves the most of the single value of a name.
pub open spec fn longest(vars: Seq<SpecOfVar>, name: Seq<char>) -> Option<VarMod>
    decreases vars.len(),
{
    if vars.len() == 0 {
        None
    } else {
        let kept = longest(vars.drop_last(), name);
        let var = vars.last();
        if var.name != name || var.modifier == VarMod::Explode {
            kept
        } else if kept is None || outreaches(var.modifier, kept->0) {
            Some(var.modifier)
        } else {
            kept
        }
    }
}

/// The names of the single values in variables, each with the name under which the most of it is
/// captured.
pub open spec fn capture_names(vars: Seq<SpecOfVar>) -> Seq<(Seq<char>, Seq<char>)> {
    let names = parser::distinct(scalar_names(vars));
    Seq::new(
        names.len(),
        |i: int|
            (
                names[i],
                render::capture_name(
                    SpecOfVar { name: names[i], modifier: longest(vars, names[i])->0 },
                ),
            ),
    )
}

/// The single values in variables, each with the name under which it is captured, as often as it
/// is.
pub open spec fn all_captures(vars: Seq<SpecOfVar>) -> Seq<(Seq<char>, Seq<char>)>
    decreases vars.len(),
{
    if vars.len() == 0 {
        Seq::empty()
    } else if vars.last().modifier == VarMod::Explode {
        all_captures(vars.drop_last())
    } else {
        all_captures(vars.drop_last()).push((vars.last().name, render::capture_name(vars.last())))
    }
}

/// The names of the variables that stand for a single value.
pub open spec fn scalar_names(vars: Seq<SpecOfVar>) -> Seq<Seq<char>>
    decreases vars.len(),
{
    if vars.len() == 0 {
        Seq::empty()
    } else if vars.last().modifier == VarMod::Explode {
        scalar_names(vars.drop_last())
    } else {
        scalar_names(vars.drop_last()).push(vars.last().name)
    }
}

/// The names of the variables that are exploded.
pub open spec fn explode_names(vars: Seq<SpecOfVar>) -> Seq<Seq<char>>
    decreases vars.len(),
{
    if vars.len() == 0 {
        Seq::empty()
    } else if vars.last().modifier == VarMod::Explode {
        explode_names(vars.drop_last()).push(vars.last().name)
    } else {
        explode_names(vars.drop_last())
    }
}

/// The names of the variables that are exploded in parts, each with what stands between its items.
pub open spec fn separated_names(parts: Seq<SpecOfPart>) -> Seq<(char, Seq<char>)>
    decreases parts.len(),
{
    if parts.len() == 0 {
        Seq::empty()
    } else {
        separated_names(parts.drop_last()) + (match parts.last().expression() {
            Some(e) => with_separator(ser::op_separator(e.operator), explode_names(e.vars)),
            None => Seq::empty(),
        })
    }
}

/// Names, each with the same separator.
pub open spec fn with_separator(separator: char, names: Seq<Seq<char>>) -> Seq<(char, Seq<char>)> {
    Seq::new(names.len(), |i: int| (separator, names[i]))
}

/// The text that an encoded text stands for, if that is UTF-8.
pub open spec fn decoded(s: Seq<char>) -> Option<Seq<char>> {
    let bytes = escape::percent_decoded(vstd::utf8::encode_utf8(s));
    if vstd::utf8::valid_utf8(bytes) {
        Some(vstd::utf8::decode_utf8(bytes))
    } else {
        None
    }
}

/// The single values once `name` has the value `new` too.
///
/// Of two values for one name the one begins with the other, and the longer one stays.
pub open spec fn merged(
    scalars: Map<Seq<char>, Seq<char>>,
    name: Seq<char>,
    new: Seq<char>,
) -> Result<Map<Seq<char>, Seq<char>>, SpecOfError> {
    if !scalars.dom().contains(name) || text::begins_with(new, scalars[name]) {
        Ok(scalars.insert(name, new))
    } else if text::begins_with(scalars[name], new) {
        Ok(scalars)
    } else {
        Err(SpecOfError::MismatchedValues(name, scalars[name], new))
    }
}

/// The single values that the parameters of a query give.
pub open spec fn query_scalars(
    vars: Seq<SpecOfVar>,
    scalars: Map<Seq<char>, Seq<char>>,
    pairs: Seq<(Seq<char>, Seq<char>)>,
) -> Result<Map<Seq<char>, Seq<char>>, SpecOfError>
    decreases pairs.len(),
{
    if pairs.len() == 0 {
        Ok(scalars)
    } else if is_scalar(vars, pairs[0].0) {
        match merged(scalars, pairs[0].0, pairs[0].1) {
            Ok(next) => query_scalars(vars, next, pairs.skip(1)),
            Err(error) => Err(error),
        }
    } else {
        query_scalars(vars, scalars, pairs.skip(1))
    }
}

/// The values of the parameters that have a name.
pub open spec fn values_of(pairs: Seq<(Seq<char>, Seq<char>)>, name: Seq<char>) -> Seq<Seq<char>>
    decreases pairs.len(),
{
    if pairs.len() == 0 {
        Seq::empty()
    } else if pairs.last().0 == name {
        values_of(pairs.drop_last(), name).push(pairs.last().1)
    } else {
        values_of(pairs.drop_last(), name)
    }
}

/// A text without the question mark at its beginning.
pub open spec fn unmarked(s: Seq<char>) -> Seq<char> {
    if s.len() > 0 && s[0] == '?' {
        s.skip(1)
    } else {
        s
    }
}

/// The parameters that the literals among parts hold.
pub open spec fn fixed_pairs(parts: Seq<SpecOfPart>) -> Seq<(Seq<char>, Seq<char>)>
    decreases parts.len(),
{
    if parts.len() == 0 {
        Seq::empty()
    } else {
        fixed_pairs(parts.drop_last()) + (match parts.last() {
            SpecOfPart::Lit(l) => form::pairs('&' as u8, vstd::utf8::encode_utf8(unmarked(l))),
            _ => Seq::empty(),
        })
    }
}

/// The parameters that no variable names and that are not `fixed`.
pub open spec fn loose(
    vars: Seq<SpecOfVar>,
    fixed: Seq<(Seq<char>, Seq<char>)>,
    pairs: Seq<(Seq<char>, Seq<char>)>,
) -> Seq<(Seq<char>, Seq<char>)>
    decreases pairs.len(),
{
    if pairs.len() == 0 {
        Seq::empty()
    } else {
        let before = loose(vars, fixed, pairs.drop_last());
        let name = pairs.last().0;
        if is_scalar(vars, name) || is_explode(vars, name) || fixed.contains(pairs.last()) {
            before
        } else {
            before.push(pairs.last())
        }
    }
}

/// The first elements of pairs.
pub open spec fn keys<T>(pairs: Seq<(Seq<char>, T)>) -> Seq<Seq<char>> {
    Seq::new(pairs.len(), |i: int| pairs[i].0)
}

/// What was captured under a name.
pub open spec fn captured(captures: Seq<(Seq<char>, Option<Seq<char>>)>, name: Seq<char>) -> Option<
    Seq<char>,
> {
    let i = place_of(captures, name, 0);
    if i < captures.len() {
        captures[i].1
    } else {
        None
    }
}

/// The single values once those that were captured have come to them. What is not UTF-8 is passed
/// over.
pub open spec fn path_scalars(
    scalars: Map<Seq<char>, Seq<char>>,
    names: Seq<(Seq<char>, Seq<char>)>,
    captures: Seq<(Seq<char>, Option<Seq<char>>)>,
) -> Result<Map<Seq<char>, Seq<char>>, SpecOfError>
    decreases names.len(),
{
    if names.len() == 0 {
        Ok(scalars)
    } else {
        match captured(captures, names[0].1) {
            Some(m) if decoded(m) is Some => match merged(scalars, names[0].0, decoded(m)->0) {
                Ok(next) => path_scalars(next, names.skip(1), captures),
                Err(error) => Err(error),
            },
            _ => path_scalars(scalars, names.skip(1), captures),
        }
    }
}

/// The encoded texts with items in them that were captured, but for the one that holds the
/// parameters that no variable names. What is not UTF-8 is passed over.
pub open spec fn path_lists(
    assoc: Option<Seq<char>>,
    names: Seq<(char, Seq<char>)>,
    captures: Seq<(Seq<char>, Option<Seq<char>>)>,
) -> Map<Seq<char>, (char, Seq<char>)>
    decreases names.len(),
{
    if names.len() == 0 {
        Map::empty()
    } else {
        let before = path_lists(assoc, names.drop_last(), captures);
        let (separator, name) = names.last();
        match captured(captures, name) {
            Some(m) if assoc != Some(name) && decoded(m) is Some => before.insert(
                name,
                (separator, m),
            ),
            _ => before,
        }
    }
}

/// The parameters of the path that no variable names.
pub open spec fn path_pairs(
    assoc: Option<Seq<char>>,
    names: Seq<(char, Seq<char>)>,
    captures: Seq<(Seq<char>, Option<Seq<char>>)>,
) -> Seq<(Seq<char>, Seq<char>)>
    decreases names.len(),
{
    if names.len() == 0 {
        Seq::empty()
    } else {
        let (separator, name) = names.last();
        match captured(captures, name) {
            Some(m) if assoc == Some(name) => form::pairs(
                separator as u8,
                vstd::utf8::encode_utf8(m),
            ),
            _ => path_pairs(assoc, names.drop_last(), captures),
        }
    }
}

/// What was found for each of the ways in which a variable can have a value.
pub struct SpecOfFound {
    pub scalar: Option<Seq<char>>,
    pub path: Option<(char, Seq<char>)>,
    pub query: Option<Seq<Seq<char>>>,
    /// Parameters that no variable names, and what stands between them.
    pub assoc: Option<(char, Seq<(Seq<char>, Seq<char>)>)>,
}

/// The value of a variable for which this was found.
///
/// A single value goes with nothing else, nor does a list from the path with loose parameters.
pub open spec fn binding_of(name: Seq<char>, found: SpecOfFound) -> Result<
    SpecOfBinding,
    SpecOfError,
> {
    match (found.scalar, found.path, found.query, found.assoc) {
        (Some(scalar), _, _, _) => Ok(SpecOfBinding::Scalar(scalar)),
        (None, Some((separator, joined)), None, _) => Ok(
            SpecOfBinding::PathExplode(separator, joined),
        ),
        (None, Some((separator, joined)), Some(query), _) => if query.len() > 0 && de::path_items(
            separator,
            joined,
        ) == query {
            Ok(SpecOfBinding::PathExplode(separator, joined))
        } else {
            Err(
                SpecOfError::MismatchedValues(
                    name,
                    de::plain_text(joined),
                    text::join(query, seq![separator]),
                ),
            )
        },
        (None, None, Some(query), None) => if query.len() > 0 {
            Ok(SpecOfBinding::QueryExplode(query))
        } else {
            Ok(SpecOfBinding::Empty)
        },
        (None, None, Some(query), Some((separator, assoc))) => if query.len() > 0 {
            Err(SpecOfError::UnexpectedVariables(seq![name]))
        } else {
            Ok(SpecOfBinding::Assoc(separator, assoc))
        },
        (None, None, None, Some((separator, assoc))) => Ok(
            SpecOfBinding::Assoc(separator, assoc),
        ),
        (None, None, None, None) => Ok(SpecOfBinding::Empty),
    }
}

/// The parameters of a query, where both the template and the URI have one.
pub open spec fn query_pairs(template: SpecOfParsed, query: Option<Seq<char>>) -> Seq<
    (Seq<char>, Seq<char>),
> {
    if template.query is Some && query is Some {
        form::pairs('&' as u8, vstd::utf8::encode_utf8(query->0))
    } else {
        Seq::empty()
    }
}

/// The variables of the query.
pub open spec fn query_vars(template: SpecOfParsed) -> Seq<SpecOfVar> {
    parser::vars_of(parser::section_parts(template.query))
}

/// The parameters of a query that no variable names and that the template does not hold itself.
pub open spec fn other_pairs(template: SpecOfParsed, query: Option<Seq<char>>) -> Seq<
    (Seq<char>, Seq<char>),
> {
    loose(
        query_vars(template),
        fixed_pairs(parser::section_parts(template.query)),
        query_pairs(template, query),
    )
}

/// The variables of the authority and of the path.
pub open spec fn path_vars(template: SpecOfParsed) -> Seq<SpecOfVar> {
    parser::vars_of(template.before_query())
}

/// All the single values, or the first that does not go with another, or else the parameters of
/// the query that no variable takes.
pub open spec fn all_scalars(
    template: SpecOfParsed,
    query: Option<Seq<char>>,
    captures: Seq<(Seq<char>, Option<Seq<char>>)>,
) -> Result<Map<Seq<char>, Seq<char>>, SpecOfError> {
    let vars = query_vars(template);
    let pairs = query_pairs(template, query);
    let others = other_pairs(template, query);
    match query_scalars(vars, Map::empty(), pairs) {
        Err(error) => Err(error),
        Ok(scalars) => if template.query_assoc is None && others.len() > 0 {
            Err(SpecOfError::UnexpectedVariables(keys(others)))
        } else {
            path_scalars(scalars, all_captures(path_vars(template)), captures)
        },
    }
}

/// What is found for a variable, once all the single values are known.
pub open spec fn found_for(
    template: SpecOfParsed,
    query: Option<Seq<char>>,
    captures: Seq<(Seq<char>, Option<Seq<char>>)>,
    scalars: Map<Seq<char>, Seq<char>>,
    name: Seq<char>,
) -> SpecOfFound {
    let vars = query_vars(template);
    let pairs = query_pairs(template, query);
    let names = separated_names(template.before_query());
    let lists = path_lists(template.path_assoc, names, captures);
    SpecOfFound {
        scalar: if scalars.dom().contains(name) {
            Some(scalars[name])
        } else {
            None
        },
        path: if lists.dom().contains(name) {
            Some(lists[name])
        } else {
            None
        },
        query: if is_explode(vars, name) {
            Some(
                if is_scalar(vars, name) {
                    Seq::empty()
                } else {
                    values_of(pairs, name)
                },
            )
        } else {
            None
        },
        assoc: if template.path_assoc == Some(name) {
            Some((';', path_pairs(template.path_assoc, names, captures)))
        } else if template.query_assoc == Some(name) {
            Some(('&', other_pairs(template, query)))
        } else {
            None
        },
    }
}

/// The values of variables, in order, or why the first that has none has none.
pub open spec fn bindings_of(
    template: SpecOfParsed,
    query: Option<Seq<char>>,
    captures: Seq<(Seq<char>, Option<Seq<char>>)>,
    scalars: Map<Seq<char>, Seq<char>>,
    names: Seq<Seq<char>>,
) -> Result<Seq<(Seq<char>, SpecOfBinding)>, SpecOfError>
    decreases names.len(),
{
    if names.len() == 0 {
        Ok(Seq::empty())
    } else {
        match bindings_of(template, query, captures, scalars, names.drop_last()) {
            Err(error) => Err(error),
            Ok(before) => match binding_of(
                names.last(),
                found_for(template, query, captures, scalars, names.last()),
            ) {
                Err(error) => Err(error),
                Ok(binding) => Ok(before.push((names.last(), binding))),
            },
        }
    }
}

/// The values that a query and what was captured give to the variables of a template.
pub open spec fn bound(
    template: SpecOfParsed,
    query: Option<Seq<char>>,
    captures: Seq<(Seq<char>, Option<Seq<char>>)>,
) -> Result<Seq<(Seq<char>, SpecOfBinding)>, SpecOfError> {
    match all_scalars(template, query, captures) {
        Err(error) => Err(error),
        Ok(scalars) => bindings_of(
            template,
            query,
            captures,
            scalars,
            parser::names(parser::vars_of(template.parts())),
        ),
    }
}

proof fn lemma_query_scalars_match(
    vars: Seq<SpecOfVar>,
    scalars: Map<Seq<char>, Seq<char>>,
    pairs: Seq<(Seq<char>, Seq<char>)>,
)
    ensures
        query_scalars(vars, scalars, pairs) is Err ==> query_scalars(
            vars,
            scalars,
            pairs,
        )->Err_0 !is NoMatch,
    decreases pairs.len(),
{
    if pairs.len() > 0 {
        if !is_scalar(vars, pairs[0].0) {
            lemma_query_scalars_match(vars, scalars, pairs.skip(1));
        } else if let Ok(next) = merged(scalars, pairs[0].0, pairs[0].1) {
            lemma_query_scalars_match(vars, next, pairs.skip(1));
        }
    }
}

proof fn lemma_path_scalars_match(
    scalars: Map<Seq<char>, Seq<char>>,
    names: Seq<(Seq<char>, Seq<char>)>,
    captures: Seq<(Seq<char>, Option<Seq<char>>)>,
)
    ensures
        path_scalars(scalars, names, captures) is Err ==> path_scalars(
            scalars,
            names,
            captures,
        )->Err_0 !is NoMatch,
    decreases names.len(),
{
    if names.len() > 0 {
        match captured(captures, names[0].1) {
            Some(m) if decoded(m) is Some => {
                if let Ok(next) = merged(scalars, names[0].0, decoded(m)->0) {
                    lemma_path_scalars_match(next, names.skip(1), captures);
                }
            },
            _ => {
                lemma_path_scalars_match(scalars, names.skip(1), captures);
            },
        }
    }
}

proof fn lemma_bindings_match(
    template: SpecOfParsed,
    query: Option<Seq<char>>,
    captures: Seq<(Seq<char>, Option<Seq<char>>)>,
    scalars: Map<Seq<char>, Seq<char>>,
    names: Seq<Seq<char>>,
)
    ensures
        bindings_of(template, query, captures, scalars, names) is Err ==> bindings_of(
            template,
            query,
            captures,
            scalars,
            names,
        )->Err_0 !is NoMatch,
    decreases names.len(),
{
    if names.len() > 0 {
        lemma_bindings_match(template, query, captures, scalars, names.drop_last());
    }
}

/// Once a URI has been matched, nothing says that it was not.
pub proof fn lemma_bound_matches(
    template: SpecOfParsed,
    query: Option<Seq<char>>,
    captures: Seq<(Seq<char>, Option<Seq<char>>)>,
)
    ensures
        bound(template, query, captures) is Err ==> bound(
            template,
            query,
            captures,
        )->Err_0 !is NoMatch,
{
    lemma_query_scalars_match(
        query_vars(template),
        Map::empty(),
        query_pairs(template, query),
    );
    if let Ok(scalars) = query_scalars(
        query_vars(template),
        Map::empty(),
        query_pairs(template, query),
    ) {
        lemma_path_scalars_match(scalars, all_captures(path_vars(template)), captures);
    }
    if let Ok(scalars) = all_scalars(template, query, captures) {
        lemma_bindings_match(
            template,
            query,
            captures,
            scalars,
            parser::names(parser::vars_of(template.parts())),
        );
    }
}

/// Whether a name stands both for a single value and for several, or for lists of which only one
/// can be told from the other.
pub open spec fn overlaps(template: SpecOfParsed, name: Seq<char>) -> bool {
    let scalar = is_scalar(path_vars(template), name) || is_scalar(query_vars(template), name);
    let in_path = is_explode(path_vars(template), name);
    ||| scalar && (in_path || is_explode(query_vars(template), name))
    ||| scalar && (template.path_assoc == Some(name) || template.query_assoc == Some(name))
    ||| in_path && template.path_assoc != Some(name) && template.query_assoc == Some(name)
}

/// Whether no name stands for values that cannot be told from one another.
pub open spec fn is_sound(template: SpecOfParsed) -> bool {
    forall|name: Seq<char>| !#[trigger] overlaps(template, name)
}

/// What a list holds that grows by one item.
pub proof fn lemma_push_contains<T>(list: Seq<T>, item: T, other: T)
    ensures
        list.push(item).contains(other) <==> list.contains(other) || other == item,
{
    let all = list.push(item);
    assert(all[list.len() as int] == item);
    if list.contains(other) {
        let i = choose|i: int| 0 <= i < list.len() && list[i] == other;
        assert(all[i] == other);
    }
    if all.contains(other) {
        let i = choose|i: int| 0 <= i < all.len() && all[i] == other;
        if i < list.len() {
            assert(list[i] == other);
        }
    }
}

proof fn lemma_scalar_names(vars: Seq<SpecOfVar>, name: Seq<char>)
    ensures
        scalar_names(vars).contains(name) <==> is_scalar(vars, name),
    decreases vars.len(),
{
    if vars.len() > 0 {
        let before = vars.drop_last();
        let last = vars.last();
        lemma_scalar_names(before, name);
        lemma_push_contains(scalar_names(before), last.name, name);
        if is_scalar(before, name) {
            let i = choose|i: int|
                0 <= i < before.len() && (#[trigger] before[i]).name == name && before[i].modifier
                    != VarMod::Explode;
            assert(vars[i].name == name && vars[i].modifier != VarMod::Explode);
        }
        if last.modifier != VarMod::Explode && last.name == name {
            assert(vars[vars.len() - 1].name == name);
        }
        if is_scalar(vars, name) {
            let i = choose|i: int|
                0 <= i < vars.len() && (#[trigger] vars[i]).name == name && vars[i].modifier
                    != VarMod::Explode;
            if i < before.len() {
                assert(before[i].name == name && before[i].modifier != VarMod::Explode);
            }
        }
    }
}

/// The names of exploded variables are those that have one.
pub proof fn lemma_explode_names(vars: Seq<SpecOfVar>, name: Seq<char>)
    ensures
        explode_names(vars).contains(name) <==> is_explode(vars, name),
    decreases vars.len(),
{
    if vars.len() > 0 {
        let before = vars.drop_last();
        let last = vars.last();
        lemma_explode_names(before, name);
        lemma_push_contains(explode_names(before), last.name, name);
        lemma_push_contains(before, last, (SpecOfVar { name, modifier: VarMod::Explode }));
        assert(vars =~= before.push(last));
    }
}

/// The names of all the variables, in order.
pub fn parsed_template_vars(parsed: &Parsed) -> (list: Vec<String>)
    ensures
        text::texts(list@) == parser::names(parser::vars_of(parsed@.parts())),
{
    let vars = all_vars(&parsed.parts());
    let ghost all = parser::names(parser::vars_view(vars@));
    let mut list: Vec<String> = Vec::new();
    let mut i: usize = 0;
    while i < vars.len()
        invariant
            i <= vars@.len(),
            all == parser::names(parser::vars_view(vars@)),
            text::texts(list@) =~= all.take(i as int),
        decreases vars@.len() - i,
    {
        list.push(vars[i].varname.clone());
        i = i + 1;
    }
    assert(text::texts(list@) =~= all);
    list
}

fn longest_modifier(vars: &Vec<VarSpec>, name: &str) -> (found: Option<VarMod>)
    ensures
        found == longest(parser::vars_view(vars@), name@),
{
    let ghost all = parser::vars_view(vars@);
    let mut found: Option<VarMod> = None;
    let mut i: usize = 0;
    assert(all.take(0) =~= Seq::empty());
    while i < vars.len()
        invariant
            i <= vars@.len(),
            all == parser::vars_view(vars@),
            found == longest(all.take(i as int), name@),
        decreases vars@.len() - i,
    {
        assert(all.take(i + 1).drop_last() =~= all.take(i as int));
        assert(all.take(i + 1).last() == vars@[i as int]@);
        let modifier = vars[i].modifier;
        if modifier != VarMod::Explode && same_text(&vars[i].varname, name) {
            let replaces = match (modifier, found) {
                (_, None) => true,
                (VarMod::Whole, Some(VarMod::Prefix(_))) => true,
                (VarMod::Prefix(n), Some(VarMod::Prefix(k))) => n > k,
                _ => false,
            };
            if replaces {
                found = Some(modifier);
            }
        }
        i = i + 1;
    }
    assert(all.take(i as int) =~= all);
    found
}

proof fn lemma_longest(vars: Seq<SpecOfVar>, name: Seq<char>)
    ensures
        longest(vars, name) is Some <==> scalar_names(vars).contains(name),
    decreases vars.len(),
{
    if vars.len() > 0 {
        lemma_longest(vars.drop_last(), name);
        lemma_push_contains(scalar_names(vars.drop_last()), vars.last().name, name);
    }
}

/// The names of the single values of the authority and the path, each with the name under which the
/// most of it is captured.
pub fn path_scalar_names(parsed: &Parsed) -> (list: Vec<(String, String)>)
    ensures
        text::text_pairs(list@) == capture_names(path_vars(parsed@)),
{
    let vars = all_vars(&parsed.nonquery_parts());
    let ghost all = parser::vars_view(vars@);
    let names = distinct_texts(&names_where(&vars, false));
    let ghost expected = capture_names(all);
    let mut list: Vec<(String, String)> = Vec::new();
    let mut i: usize = 0;
    assert(text::text_pairs(list@) =~= expected.take(0));
    while i < names.len()
        invariant
            i <= names@.len(),
            all == parser::vars_view(vars@),
            expected == capture_names(all),
            text::texts(names@) == parser::distinct(scalar_names(all)),
            text::text_pairs(list@) == expected.take(i as int),
        decreases names@.len() - i,
    {
        proof {
            let name = text::texts(names@)[i as int];
            parser::law_distinct(scalar_names(all));
            assert(parser::distinct(scalar_names(all)).contains(name));
            lemma_longest(all, name);
        }
        if let Some(modifier) = longest_modifier(&vars, &names[i]) {
            let var = VarSpec { varname: names[i].clone(), modifier };
            let ghost before = text::text_pairs(list@);
            list.push((names[i].clone(), var_re_name(&var)));
            assert(text::text_pairs(list@) =~= before.push(expected[i as int]));
            assert(expected.take(i + 1) =~= before.push(expected[i as int]));
        }
        i = i + 1;
    }
    assert(expected.len() == names@.len());
    assert(expected.take(i as int) =~= expected);
    list
}

/// The single values of the authority and the path, each with the name under which it is captured,
/// as often as it is.
pub fn path_captures(parsed: &Parsed) -> (list: Vec<(String, String)>)
    ensures
        text::text_pairs(list@) == all_captures(path_vars(parsed@)),
{
    let vars = all_vars(&parsed.nonquery_parts());
    let ghost all = parser::vars_view(vars@);
    let mut list: Vec<(String, String)> = Vec::new();
    let mut i: usize = 0;
    assert(all.take(0) =~= Seq::empty());
    assert(text::text_pairs(list@) =~= Seq::empty());
    while i < vars.len()
        invariant
            i <= vars@.len(),
            all == parser::vars_view(vars@),
            text::text_pairs(list@) == all_captures(all.take(i as int)),
        decreases vars@.len() - i,
    {
        assert(all.take(i + 1).drop_last() =~= all.take(i as int));
        assert(all.take(i + 1).last() == vars@[i as int]@);
        if vars[i].modifier != VarMod::Explode {
            list.push((vars[i].varname.clone(), var_re_name(&vars[i])));
        }
        i = i + 1;
    }
    assert(all.take(i as int) =~= all);
    list
}

fn names_where(vars: &Vec<VarSpec>, explode: bool) -> (list: Vec<String>)
    ensures
        text::texts(list@) == (if explode {
            explode_names(parser::vars_view(vars@))
        } else {
            scalar_names(parser::vars_view(vars@))
        }),
{
    let ghost all = parser::vars_view(vars@);
    let mut list: Vec<String> = Vec::new();
    let mut i: usize = 0;
    assert(all.take(0) =~= Seq::empty());
    assert(text::texts(list@) =~= Seq::empty());
    while i < vars.len()
        invariant
            i <= vars@.len(),
            all == parser::vars_view(vars@),
            text::texts(list@) == (if explode {
                explode_names(all.take(i as int))
            } else {
                scalar_names(all.take(i as int))
            }),
        decreases vars@.len() - i,
    {
        assert(all.take(i + 1).drop_last() =~= all.take(i as int));
        assert(all.take(i + 1).last() == vars@[i as int]@);
        if (vars[i].modifier == VarMod::Explode) == explode {
            list.push(vars[i].varname.clone());
        }
        i = i + 1;
    }
    assert(all.take(i as int) =~= all);
    list
}

/// The names of the variables of the query that stand for a single value.
pub fn query_scalar_names(parsed: &Parsed) -> (list: Vec<String>)
    ensures
        text::texts(list@) == scalar_names(query_vars(parsed@)),
{
    names_where(&all_vars(&parsed.query_parts()), false)
}

/// The names of the variables of the query that are exploded.
pub fn query_explode_names(parsed: &Parsed) -> (list: Vec<String>)
    ensures
        text::texts(list@) == explode_names(query_vars(parsed@)),
{
    names_where(&all_vars(&parsed.query_parts()), true)
}

/// What a list of names with separators stands for.
pub open spec fn separated_view(list: Seq<(char, String)>) -> Seq<(char, Seq<char>)> {
    Seq::new(list.len(), |i: int| (list[i].0, list[i].1@))
}

/// The names of the variables of the authority and the path that are exploded, each with what
/// stands between its items.
pub fn path_explode_names(parsed: &Parsed) -> (list: Vec<(char, String)>)
    ensures
        separated_view(list@) == separated_names(parsed@.before_query()),
{
    let parts = parsed.nonquery_parts();
    let ghost all = parser::parts_view(parts@);
    let mut list: Vec<(char, String)> = Vec::new();
    let mut i: usize = 0;
    assert(all.take(0) =~= Seq::empty());
    assert(separated_view(list@) =~= Seq::empty());
    while i < parts.len()
        invariant
            i <= parts@.len(),
            all == parser::parts_view(parts@),
            separated_view(list@) == separated_names(all.take(i as int)),
        decreases parts@.len() - i,
    {
        assert(all.take(i + 1).drop_last() =~= all.take(i as int));
        assert(all.take(i + 1).last() == parts@[i as int]@);
        let ghost before = separated_view(list@);
        match parts[i].expression() {
            Some(e) => {
                let separator = separator_for(e.operator);
                let names = names_where(&e.varspecs, true);
                let ghost added = with_separator(separator, text::texts(names@));
                let mut j: usize = 0;
                while j < names.len()
                    invariant
                        j <= names@.len(),
                        added == with_separator(separator, text::texts(names@)),
                        separated_view(list@) =~= before + added.take(j as int),
                    decreases names@.len() - j,
                {
                    let ghost previous = list@;
                    list.push((separator, names[j].clone()));
                    j = j + 1;
                    assert(separated_view(list@) =~= separated_view(previous).push(
                        added[j - 1],
                    ));
                }
                assert(added.take(j as int) =~= added);
            },
            None => {
                assert(before + Seq::<(char, Seq<char>)>::empty() =~= before);
            },
        }
        i = i + 1;
    }
    assert(all.take(i as int) =~= all);
    list
}

/// The text that an encoded text stands for, if that is UTF-8.
pub fn percent_decode(s: &str) -> (out: Option<String>)
    ensures
        text::text_of_option(out) == decoded(s@),
{
    let bytes = percent_decode_bytes(s.as_bytes());
    match core::str::from_utf8(bytes.as_slice()) {
        Ok(decoded) => Some(decoded.to_owned()),
        Err(_) => None,
    }
}

/// The texts of a map.
pub open spec fn text_map(map: Map<Seq<char>, String>) -> Map<Seq<char>, Seq<char>> {
    map.map_values(|value: String| value@)
}

/// The texts of a map from names to texts with their separators.
pub open spec fn list_map(map: Map<Seq<char>, (char, String)>) -> Map<Seq<char>, (char, Seq<char>)> {
    map.map_values(|value: (char, String)| (value.0, value.1@))
}

/// Gives `name` the value `new` too, and leaves all as it was where that does not go.
pub fn new_scalar(scalars: &mut Dict<String>, name: &str, new: String) -> (done: Result<(), Error>)
    ensures
        match done {
            Ok(_) => merged(text_map(old(scalars)@), name@, new@) == Ok::<
                Map<Seq<char>, Seq<char>>,
                SpecOfError,
            >(text_map(final(scalars)@)),
            Err(error) => {
                &&& merged(text_map(old(scalars)@), name@, new@) == Err::<
                    Map<Seq<char>, Seq<char>>,
                    SpecOfError,
                >(error@)
                &&& final(scalars)@ == old(scalars)@
            },
        },
{
    let ghost before = scalars@;
    if let Some(val) = scalars.get(name) {
        if !text_begins_with(&new, val) {
            if text_begins_with(val, &new) {
                return Ok(());
            }
            return Err(Error::MismatchedValues(name.to_owned(), val.clone(), new));
        }
    }
    let ghost value = new;
    scalars.insert(name.to_owned(), new);
    assert(text_map(scalars@) =~= text_map(before).insert(name@, value@));
    Ok(())
}

fn lookup<'a>(captures: &'a Vec<(String, Option<String>)>, name: &str) -> (found: Option<
    &'a String,
>)
    ensures
        match found {
            Some(m) => captured(backend::captures_view(captures@), name@) == Some(m@),
            None => captured(backend::captures_view(captures@), name@) is None,
        },
{
    let mut i: usize = 0;
    while i < captures.len() && !same_text(&captures[i].0, name)
        invariant
            i <= captures@.len(),
            place_of(backend::captures_view(captures@), name@, 0) == place_of(
                backend::captures_view(captures@),
                name@,
                i as int,
            ),
        decreases captures@.len() - i,
    {
        i = i + 1;
    }
    if i < captures.len() {
        match &captures[i].1 {
            Some(m) => Some(m),
            None => None,
        }
    } else {
        None
    }
}

/// Whether a result holds the single values, or the error, that it should.
pub open spec fn is_scalars(
    result: Result<Dict<String>, Error>,
    expected: Result<Map<Seq<char>, Seq<char>>, SpecOfError>,
) -> bool {
    match result {
        Ok(scalars) => expected == Ok::<Map<Seq<char>, Seq<char>>, SpecOfError>(
            text_map(scalars@),
        ),
        Err(error) => expected == Err::<Map<Seq<char>, Seq<char>>, SpecOfError>(error@),
    }
}

fn gather_query_scalars(names: &Vec<String>, pairs: &Vec<(String, String)>, vars: Ghost<
    Seq<SpecOfVar>,
>) -> (result: Result<Dict<String>, Error>)
    requires
        text::texts(names@) == scalar_names(vars@),
    ensures
        is_scalars(
            result,
            query_scalars(vars@, Map::empty(), text::text_pairs(pairs@)),
        ),
{
    let ghost all = text::text_pairs(pairs@);
    let mut scalars: Dict<String> = Dict::new();
    let mut i: usize = 0;
    assert(all.skip(0) =~= all);
    assert(text_map(scalars@) =~= Map::empty());
    while i < pairs.len()
        invariant
            i <= pairs@.len(),
            all == text::text_pairs(pairs@),
            text::texts(names@) == scalar_names(vars@),
            query_scalars(vars@, Map::empty(), all) == query_scalars(
                vars@,
                text_map(scalars@),
                all.skip(i as int),
            ),
        decreases pairs@.len() - i,
    {
        assert(all.skip(i as int).skip(1) =~= all.skip(i + 1));
        proof {
            lemma_scalar_names(vars@, pairs@[i as int].0@);
        }
        if text::holds_text(names, &pairs[i].0) {
            match new_scalar(&mut scalars, &pairs[i].0, pairs[i].1.clone()) {
                Ok(_) => {},
                Err(error) => {
                    return Err(error);
                },
            }
        }
        i = i + 1;
    }
    Ok(scalars)
}

fn holds_pair(list: &Vec<(String, String)>, name: &str, value: &str) -> (holds: bool)
    ensures
        holds == text::text_pairs(list@).contains((name@, value@)),
{
    let ghost all = text::text_pairs(list@);
    let mut i: usize = 0;
    while i < list.len()
        invariant
            i <= list@.len(),
            all == text::text_pairs(list@),
            forall|j: int| 0 <= j < i ==> #[trigger] all[j] != (name@, value@),
        decreases list@.len() - i,
    {
        assert(all[i as int] == (list@[i as int].0@, list@[i as int].1@));
        if same_text(&list[i].0, name) && same_text(&list[i].1, value) {
            return true;
        }
        i = i + 1;
    }
    false
}

fn append_pairs(list: &mut Vec<(String, String)>, more: Vec<(String, String)>)
    ensures
        text::text_pairs(final(list)@) == text::text_pairs(old(list)@) + text::text_pairs(more@),
{
    let ghost before = text::text_pairs(list@);
    let ghost added = text::text_pairs(more@);
    let mut i: usize = 0;
    assert(before + added.take(0) =~= before);
    while i < more.len()
        invariant
            i <= more@.len(),
            added == text::text_pairs(more@),
            text::text_pairs(list@) == before + added.take(i as int),
        decreases more@.len() - i,
    {
        list.push((more[i].0.clone(), more[i].1.clone()));
        assert(before + added.take(i + 1) =~= (before + added.take(i as int)).push(
            added[i as int],
        ));
        i = i + 1;
    }
    assert(added.take(i as int) =~= added);
}

fn unmarked_text(s: &str) -> (out: String)
    ensures
        out@ == unmarked(s@),
{
    let chars = chars_of(s);
    if chars.len() > 0 && chars[0] == '?' {
        let out = text_between(&chars, 1, chars.len());
        assert(out@ =~= s@.skip(1));
        out
    } else {
        s.to_owned()
    }
}

/// The parameters that the literals among parts hold.
pub fn literal_pairs(parts: &Vec<Part>) -> (list: Vec<(String, String)>)
    ensures
        text::text_pairs(list@) == fixed_pairs(parser::parts_view(parts@)),
{
    let ghost all = parser::parts_view(parts@);
    let mut list: Vec<(String, String)> = Vec::new();
    let mut i: usize = 0;
    assert(all.take(0) =~= Seq::empty());
    assert(text::text_pairs(list@) =~= Seq::empty());
    while i < parts.len()
        invariant
            i <= parts@.len(),
            all == parser::parts_view(parts@),
            text::text_pairs(list@) == fixed_pairs(all.take(i as int)),
        decreases parts@.len() - i,
    {
        assert(all.take(i + 1).drop_last() =~= all.take(i as int));
        assert(all.take(i + 1).last() == parts@[i as int]@);
        let ghost before = text::text_pairs(list@);
        match &parts[i] {
            Part::Lit(l) => {
                let own = unmarked_text(l);
                let more = form::parse('&' as u8, own.as_str().as_bytes()).into_pairs();
                append_pairs(&mut list, more);
            },
            _ => {
                assert(before + Seq::<(Seq<char>, Seq<char>)>::empty() =~= before);
            },
        }
        i = i + 1;
    }
    assert(all.take(i as int) =~= all);
    list
}

fn gather_loose(
    scalars: &Vec<String>,
    explodes: &Vec<String>,
    fixed: &Vec<(String, String)>,
    pairs: &Vec<(String, String)>,
    vars: Ghost<Seq<SpecOfVar>>,
) -> (list: Vec<(String, String)>)
    requires
        text::texts(scalars@) == scalar_names(vars@),
        text::texts(explodes@) == explode_names(vars@),
    ensures
        text::text_pairs(list@) == loose(
            vars@,
            text::text_pairs(fixed@),
            text::text_pairs(pairs@),
        ),
{
    let ghost all = text::text_pairs(pairs@);
    let mut list: Vec<(String, String)> = Vec::new();
    let mut i: usize = 0;
    assert(all.take(0) =~= Seq::empty());
    assert(text::text_pairs(list@) =~= Seq::empty());
    while i < pairs.len()
        invariant
            i <= pairs@.len(),
            all == text::text_pairs(pairs@),
            text::texts(scalars@) == scalar_names(vars@),
            text::texts(explodes@) == explode_names(vars@),
            text::text_pairs(list@) == loose(
                vars@,
                text::text_pairs(fixed@),
                all.take(i as int),
            ),
        decreases pairs@.len() - i,
    {
        assert(all.take(i + 1).drop_last() =~= all.take(i as int));
        assert(all.take(i + 1).last() == all[i as int]);
        proof {
            lemma_scalar_names(vars@, pairs@[i as int].0@);
            lemma_explode_names(vars@, pairs@[i as int].0@);
        }
        if !text::holds_text(scalars, &pairs[i].0) && !text::holds_text(explodes, &pairs[i].0)
            && !holds_pair(fixed, &pairs[i].0, &pairs[i].1) {
            list.push((pairs[i].0.clone(), pairs[i].1.clone()));
        }
        i = i + 1;
    }
    assert(all.take(i as int) =~= all);
    list
}

fn gather_values(pairs: &Vec<(String, String)>, name: &str) -> (list: Vec<String>)
    ensures
        text::texts(list@) == values_of(text::text_pairs(pairs@), name@),
{
    let ghost all = text::text_pairs(pairs@);
    let mut list: Vec<String> = Vec::new();
    let mut i: usize = 0;
    assert(all.take(0) =~= Seq::empty());
    assert(text::texts(list@) =~= Seq::empty());
    while i < pairs.len()
        invariant
            i <= pairs@.len(),
            all == text::text_pairs(pairs@),
            text::texts(list@) == values_of(all.take(i as int), name@),
        decreases pairs@.len() - i,
    {
        assert(all.take(i + 1).drop_last() =~= all.take(i as int));
        assert(all.take(i + 1).last() == all[i as int]);
        if same_text(&pairs[i].0, name) {
            list.push(pairs[i].1.clone());
        }
        i = i + 1;
    }
    assert(all.take(i as int) =~= all);
    list
}

fn gather_keys(pairs: &Vec<(String, String)>) -> (list: Vec<String>)
    ensures
        text::texts(list@) == keys(text::text_pairs(pairs@)),
{
    let mut list: Vec<String> = Vec::new();
    let mut i: usize = 0;
    while i < pairs.len()
        invariant
            i <= pairs@.len(),
            text::texts(list@) =~= keys(text::text_pairs(pairs@)).take(i as int),
        decreases pairs@.len() - i,
    {
        list.push(pairs[i].0.clone());
        i = i + 1;
    }
    assert(text::texts(list@) =~= keys(text::text_pairs(pairs@)));
    list
}

fn gather_path_scalars(
    before: Dict<String>,
    names: &Vec<(String, String)>,
    captures: &Vec<(String, Option<String>)>,
) -> (result: Result<Dict<String>, Error>)
    ensures
        is_scalars(
            result,
            path_scalars(
                text_map(before@),
                text::text_pairs(names@),
                backend::captures_view(captures@),
            ),
        ),
{
    let ghost all = text::text_pairs(names@);
    let ghost found = backend::captures_view(captures@);
    let ghost start = text_map(before@);
    let mut scalars = before;
    let mut i: usize = 0;
    assert(all.skip(0) =~= all);
    while i < names.len()
        invariant
            i <= names@.len(),
            all == text::text_pairs(names@),
            found == backend::captures_view(captures@),
            start == text_map(before@),
            path_scalars(start, all, found) == path_scalars(
                text_map(scalars@),
                all.skip(i as int),
                found,
            ),
        decreases names@.len() - i,
    {
        assert(all.skip(i as int).skip(1) =~= all.skip(i + 1));
        if let Some(m) = lookup(captures, &names[i].1) {
            if let Some(new) = percent_decode(m) {
                match new_scalar(&mut scalars, &names[i].0, new) {
                    Ok(_) => {},
                    Err(error) => {
                        return Err(error);
                    },
                }
            }
        }
        i = i + 1;
    }
    Ok(scalars)
}

fn is_name_of(assoc: &Option<String>, name: &str) -> (is: bool)
    ensures
        is == (text::text_of_option(*assoc) == Some(name@)),
{
    match assoc {
        Some(other) => same_text(other, name),
        None => false,
    }
}

fn gather_path_lists(
    assoc: &Option<String>,
    names: &Vec<(char, String)>,
    captures: &Vec<(String, Option<String>)>,
) -> (found: (Dict<(char, String)>, Vec<(String, String)>))
    ensures
        list_map(found.0@) == path_lists(
            text::text_of_option(*assoc),
            separated_view(names@),
            backend::captures_view(captures@),
        ),
        text::text_pairs(found.1@) == path_pairs(
            text::text_of_option(*assoc),
            separated_view(names@),
            backend::captures_view(captures@),
        ),
{
    let ghost all = separated_view(names@);
    let ghost caught = backend::captures_view(captures@);
    let ghost name_of_assoc = text::text_of_option(*assoc);
    let mut lists: Dict<(char, String)> = Dict::new();
    let mut pairs: Vec<(String, String)> = Vec::new();
    let mut i: usize = 0;
    assert(all.take(0) =~= Seq::empty());
    assert(list_map(lists@) =~= Map::empty());
    assert(text::text_pairs(pairs@) =~= Seq::empty());
    while i < names.len()
        invariant
            i <= names@.len(),
            all == separated_view(names@),
            caught == backend::captures_view(captures@),
            name_of_assoc == text::text_of_option(*assoc),
            list_map(lists@) == path_lists(name_of_assoc, all.take(i as int), caught),
            text::text_pairs(pairs@) == path_pairs(name_of_assoc, all.take(i as int), caught),
        decreases names@.len() - i,
    {
        assert(all.take(i + 1).drop_last() =~= all.take(i as int));
        assert(all.take(i + 1).last() == all[i as int]);
        let name = &names[i].1;
        let separator = names[i].0;
        if let Some(m) = lookup(captures, name) {
            if is_name_of(assoc, name) {
                pairs = form::parse(separator as u8, m.as_str().as_bytes()).into_pairs();
            } else if percent_decode(m).is_some() {
                let ghost before = lists@;
                let ghost value = m@;
                lists.insert(name.clone(), (separator, m.clone()));
                assert(list_map(lists@) =~= list_map(before).insert(name@, (separator, value)));
            }
        }
        i = i + 1;
    }
    assert(all.take(i as int) =~= all);
    (lists, pairs)
}

/// The components of a URI.
#[derive(Debug)]
pub struct UriParts {
    pub scheme: Option<String>,
    pub authority: Option<String>,
    pub path: String,
    pub query: Option<String>,
}

/// What a `UriParts` stands for.
#[verifier::ext_equal]
pub struct SpecOfUri {
    pub scheme: Option<Seq<char>>,
    pub authority: Option<Seq<char>>,
    pub path: Seq<char>,
    pub query: Option<Seq<char>>,
}

impl View for UriParts {
    type V = SpecOfUri;

    open spec fn view(&self) -> SpecOfUri {
        SpecOfUri {
            scheme: text::text_of_option(self.scheme),
            authority: text::text_of_option(self.authority),
            path: self.path@,
            query: text::text_of_option(self.query),
        }
    }
}

/// A URI without its query.
pub open spec fn url_of(uri: SpecOfUri) -> Seq<char> {
    match (uri.scheme, uri.authority) {
        (Some(scheme), Some(auth)) => scheme + "://"@ + auth + uri.path,
        (None, Some(auth)) => "//"@ + auth + uri.path,
        (Some(scheme), None) => scheme + "://"@ + uri.path,
        (None, None) => uri.path,
    }
}

impl UriParts {
    /// The URI without its query.
    pub fn url(&self) -> (url: String)
        ensures
            url@ == url_of(self@),
    {
        match (&self.scheme, &self.authority) {
            (Some(scheme), Some(auth)) => {
                let mut url = scheme.clone();
                url.append("://");
                url.append(auth);
                url.append(&self.path);
                url
            },
            (None, Some(auth)) => {
                let mut url = "//".to_owned();
                url.append(auth);
                url.append(&self.path);
                url
            },
            (Some(scheme), None) => {
                let mut url = scheme.clone();
                url.append("://");
                url.append(&self.path);
                url
            },
            (None, None) => self.path.clone(),
        }
    }
}

/// Whether a result holds the values, or the error, that it should.
pub open spec fn is_bound(
    result: Result<UriDeserializer, Error>,
    expected: Result<Seq<(Seq<char>, SpecOfBinding)>, SpecOfError>,
) -> bool {
    match result {
        Ok(de) => expected == Ok::<Seq<(Seq<char>, SpecOfBinding)>, SpecOfError>(
            de::params_view(de.varlist@),
        ),
        Err(error) => expected == Err::<Seq<(Seq<char>, SpecOfBinding)>, SpecOfError>(error@),
    }
}

/// The value of a variable for which this was found.
fn bind(
    name: &str,
    scalar: Option<&String>,
    path: Option<&(char, String)>,
    query: Option<Vec<String>>,
    assoc: Option<(char, &Vec<(String, String)>)>,
    found: Ghost<SpecOfFound>,
) -> (result: Result<VarBinding, Error>)
    requires
        found@.scalar == (match scalar {
            Some(s) => Some(s@),
            None => None,
        }),
        found@.path == (match path {
            Some(p) => Some((p.0, p.1@)),
            None => None,
        }),
        found@.query == (match query {
            Some(list) => Some(text::texts(list@)),
            None => None,
        }),
        found@.assoc == (match assoc {
            Some((separator, list)) => Some((separator, text::text_pairs(list@))),
            None => None,
        }),
    ensures
        match result {
            Ok(binding) => binding_of(name@, found@) == Ok::<SpecOfBinding, SpecOfError>(binding@),
            Err(error) => binding_of(name@, found@) == Err::<SpecOfBinding, SpecOfError>(error@),
        },
{
    match (scalar, path, query, assoc) {
        (Some(scalar), _, _, _) => Ok(VarBinding::Scalar(scalar.clone())),
        (None, Some(list), None, _) => Ok(VarBinding::PathExplode(list.0, list.1.clone())),
        (None, Some(list), Some(query), _) => {
            if query.len() > 0 && same_texts(&de::items_of(list.0, &list.1), &query) {
                Ok(VarBinding::PathExplode(list.0, list.1.clone()))
            } else {
                let joined = join_texts(&query, &text::char_text(list.0));
                Err(Error::MismatchedValues(name.to_owned(), de::plain(&list.1), joined))
            }
        },
        (None, None, Some(query), None) => {
            if query.len() > 0 {
                Ok(VarBinding::QueryExplode(query))
            } else {
                Ok(VarBinding::Empty)
            }
        },
        (None, None, Some(query), Some((separator, assoc))) => {
            if query.len() > 0 {
                let mut names: Vec<String> = Vec::new();
                names.push(name.to_owned());
                assert(text::texts(names@) =~= seq![name@]);
                Err(Error::UnexpectedVariables(names))
            } else {
                Ok(VarBinding::Assoc(separator, clone_pairs(assoc)))
            }
        },
        (None, None, None, Some((separator, assoc))) => Ok(
            VarBinding::Assoc(separator, clone_pairs(assoc)),
        ),
        (None, None, None, None) => Ok(VarBinding::Empty),
    }
}

/// Whether two lists hold the same texts.
pub fn same_texts(a: &Vec<String>, b: &Vec<String>) -> (same: bool)
    ensures
        same == (text::texts(a@) == text::texts(b@)),
{
    if a.len() != b.len() {
        assert(text::texts(a@).len() != text::texts(b@).len());
        return false;
    }
    let mut i: usize = 0;
    while i < a.len()
        invariant
            i <= a@.len() == b@.len(),
            forall|j: int| 0 <= j < i ==> a@[j]@ == b@[j]@,
        decreases a@.len() - i,
    {
        if !same_text(&a[i], &b[i]) {
            assert(text::texts(a@)[i as int] != text::texts(b@)[i as int]);
            return false;
        }
        i = i + 1;
    }
    assert(text::texts(a@) =~= text::texts(b@));
    true
}

proof fn lemma_bindings_failure(
    template: SpecOfParsed,
    query: Option<Seq<char>>,
    captures: Seq<(Seq<char>, Option<Seq<char>>)>,
    scalars: Map<Seq<char>, Seq<char>>,
    names: Seq<Seq<char>>,
    i: int,
)
    requires
        0 <= i < names.len(),
        bindings_of(template, query, captures, scalars, names.take(i)) is Ok,
        bindings_of(template, query, captures, scalars, names.take(i + 1)) is Err,
    ensures
        bindings_of(template, query, captures, scalars, names) == bindings_of(
            template,
            query,
            captures,
            scalars,
            names.take(i + 1),
        ),
    decreases names.len(),
{
    if i == names.len() - 1 {
        assert(names.take(i + 1) =~= names);
    } else {
        assert(names.drop_last().take(i) =~= names.take(i));
        assert(names.drop_last().take(i + 1) =~= names.take(i + 1));
        lemma_bindings_failure(template, query, captures, scalars, names.drop_last(), i);
    }
}

impl UriDeserializer {
    /// The values that a query and what was captured give to the variables of a template.
    ///
    /// No name of the template stands for values that cannot be told from one another.
    pub fn from_captures(
        parsed: &Parsed,
        query: &Option<String>,
        captures: &Vec<(String, Option<String>)>,
    ) -> (result: Result<UriDeserializer, Error>)
        requires
            is_sound(parsed@),
        ensures
            is_bound(
                result,
                bound(
                    parsed@,
                    text::text_of_option(*query),
                    backend::captures_view(captures@),
                ),
            ),
    {
        let ghost template = parsed@;
        let ghost asked = text::text_of_option(*query);
        let ghost caught = backend::captures_view(captures@);
        let ghost vars = query_vars(template);
        let pairs: Vec<(String, String)> = match (&parsed.query, query) {
            (Some(_), Some(q)) => form::parse('&' as u8, q.as_str().as_bytes()).into_pairs(),
            _ => Vec::new(),
        };
        assert(text::text_pairs(pairs@) =~= query_pairs(template, asked));
        let scalar_list = query_scalar_names(parsed);
        let explode_list = query_explode_names(parsed);
        let before = match gather_query_scalars(&scalar_list, &pairs, Ghost(vars)) {
            Ok(scalars) => scalars,
            Err(error) => {
                return Err(error);
            },
        };
        let fixed = literal_pairs(&parsed.query_parts());
        let unnamed = gather_loose(&scalar_list, &explode_list, &fixed, &pairs, Ghost(vars));
        assert(text::text_pairs(unnamed@) == other_pairs(template, asked));
        if parsed.query_assoc.is_none() && unnamed.len() > 0 {
            return Err(Error::UnexpectedVariables(gather_keys(&unnamed)));
        }
        let scalars = match gather_path_scalars(before, &path_captures(parsed), captures) {
            Ok(scalars) => scalars,
            Err(error) => {
                return Err(error);
            },
        };
        let separated = path_explode_names(parsed);
        let (lists, in_path) = gather_path_lists(&parsed.path_assoc, &separated, captures);
        let names = parsed_template_vars(parsed);
        let ghost all = text::texts(names@);
        let ghost single = text_map(scalars@);
        let mut varlist: Vec<(String, VarBinding)> = Vec::new();
        let mut i: usize = 0;
        assert(all.take(0) =~= Seq::empty());
        assert(de::params_view(varlist@) =~= Seq::empty());
        while i < names.len()
            invariant
                i <= names@.len(),
                template == parsed@,
                all == text::texts(names@),
                single == text_map(scalars@),
                vars == query_vars(template),
                text::texts(scalar_list@) == scalar_names(vars),
                text::texts(explode_list@) == explode_names(vars),
                text::text_pairs(pairs@) == query_pairs(template, asked),
                text::text_pairs(unnamed@) == other_pairs(template, asked),
                list_map(lists@) == path_lists(
                    template.path_assoc,
                    separated_names(template.before_query()),
                    caught,
                ),
                text::text_pairs(in_path@) == path_pairs(
                    template.path_assoc,
                    separated_names(template.before_query()),
                    caught,
                ),
                bound(template, asked, caught) == bindings_of(
                    template,
                    asked,
                    caught,
                    single,
                    all,
                ),
                bindings_of(template, asked, caught, single, all.take(i as int)) == Ok::<
                    Seq<(Seq<char>, SpecOfBinding)>,
                    SpecOfError,
                >(de::params_view(varlist@)),
                asked == text::text_of_option(*query),
                caught == backend::captures_view(captures@),
            decreases names@.len() - i,
        {
            assert(all.take(i + 1).drop_last() =~= all.take(i as int));
            assert(all.take(i + 1).last() == all[i as int]);
            let name = &names[i];
            let ghost found = found_for(template, asked, caught, single, name@);
            proof {
                lemma_scalar_names(vars, name@);
                lemma_explode_names(vars, name@);
            }
            let values = if text::holds_text(&explode_list, name) {
                if text::holds_text(&scalar_list, name) {
                    let none: Vec<String> = Vec::new();
                    assert(text::texts(none@) =~= Seq::empty());
                    Some(none)
                } else {
                    Some(gather_values(&pairs, name))
                }
            } else {
                None
            };
            let assoc = if is_name_of(&parsed.path_assoc, name) {
                Some((';', &in_path))
            } else if is_name_of(&parsed.query_assoc, name) {
                Some(('&', &unnamed))
            } else {
                None
            };
            let ghost previous = de::params_view(varlist@);
            match bind(name, scalars.get(name), lists.get(name), values, assoc, Ghost(found)) {
                Ok(binding) => {
                    let ghost param = (name@, binding@);
                    varlist.push((name.clone(), binding));
                    assert(de::params_view(varlist@) =~= previous.push(param));
                },
                Err(error) => {
                    proof {
                        lemma_bindings_failure(template, asked, caught, single, all, i as int);
                    }
                    return Err(error);
                },
            }
            i = i + 1;
        }
        assert(all.take(i as int) =~= all);
        Ok(UriDeserializer { varlist })
    }

    /// The values that a URI gives to the variables of a template, whose regular expression is
    /// `pattern`.
    pub(crate) fn for_uri(uri: &UriParts, parsed: &Parsed, pattern: &str) -> (result: Result<
        UriDeserializer,
        Error,
    >)
        requires
            is_sound(parsed@),
            backend::regex_error(pattern@) is None,
            backend::is_matcher(pattern@),
        ensures
            is_bound(
                result,
                match backend::found_in(pattern@, url_of(uri@)) {
                    None => Err(SpecOfError::NoMatch(url_of(uri@))),
                    Some(captures) => bound(parsed@, uri@.query, captures),
                },
            ),
            pattern@ == render::template_re(parsed@) ==> reading::is_recognised(
                parsed@,
                uri@,
                result,
            ),
            pattern@ == render::template_re(parsed@) ==> reading::is_read_back(
                parsed@,
                uri@,
                result,
            ),
    {
        let url = uri.url();
        let found = backend::find(pattern, &url);
        let result = match &found {
            None => Err(Error::NoMatch(url)),
            Some(captures) => UriDeserializer::from_captures(parsed, &uri.query, captures),
        };
        proof {
            if pattern@ == render::template_re(parsed@) {
                assert forall|policy: FillPolicy, bindings: Map<Seq<char>, ser::SpecOfBinding>|
                    reading::is_matched(
                        parsed@,
                        policy,
                        bindings,
                    ) && #[trigger] ser::parts_expansion(
                        parsed@.before_query(),
                        policy,
                        bindings,
                    ) == Ok::<Seq<char>, ser::SpecOfError>(url_of(uri@)) implies !(
                result matches Err(Error::NoMatch(_))) by {
                    let url = url_of(uri@);
                    reading::law_regex_matches_what_is_written(parsed@);
                    assert(url.take(url.len() as int) =~= url);
                    assert(reading::is_begun_by(parsed@, policy, bindings, url));
                    assert(found is Some);
                    lemma_bound_matches(
                        parsed@,
                        uri@.query,
                        backend::captures_view(found->0@),
                    );
                }
                assert forall|policy: FillPolicy, bindings: Map<Seq<char>, ser::SpecOfBinding>|
                    reading::is_readable(parsed@, bindings) && #[trigger] reading::is_written_as(
                        parsed@,
                        policy,
                        bindings,
                        uri@,
                    ) implies result is Ok && de::params_view(result->Ok_0.varlist@)
                    == round_trip::read_bindings(parsed@, bindings) by {
                    let pieces = reading::template_pieces(parsed@, bindings);
                    reading::law_written_uri_fits_the_regex(parsed@, policy, bindings, uri@);
                    assert(pieces::pattern_of(pieces) == pattern@);
                    assert(backend::captures_view(found->0@) == pieces::groups_of(pieces));
                }
            }
        }
        result
    }
}

/// Whether a URI matches the regular expression of a template, and else why it does not.
pub fn match_uri(uri: &UriParts, parsed: &Parsed) -> (matched: Result<(), Error>)
    ensures
        match single::regex_of(parsed@) {
            Err(error) => matched is Err && matched->Err_0@ == error,
            Ok(pattern) => match backend::found_in(pattern, url_of(uri@)) {
                None => matched is Err && matched->Err_0@ == SpecOfError::NoMatch(url_of(uri@)),
                Some(_) => matched is Ok,
            },
        },
{
    let pattern = template_re_string(parsed);
    match backend::compile(&pattern) {
        Err(message) => Err(Error::RegexParse(message)),
        Ok(_) => {
            let url = uri.url();
            match backend::find(&pattern, &url) {
                None => Err(Error::NoMatch(url)),
                Some(_) => Ok(()),
            }
        },
    }
}

fn overlaps_at(parsed: &Parsed, path: &Vec<VarSpec>, query: &Vec<VarSpec>, name: &str) -> (is: bool)
    requires
        parser::vars_view(path@) == path_vars(parsed@),
        parser::vars_view(query@) == query_vars(parsed@),
    ensures
        is == overlaps(parsed@, name@),
{
    proof {
        lemma_scalar_names(path_vars(parsed@), name@);
        lemma_scalar_names(query_vars(parsed@), name@);
        lemma_explode_names(path_vars(parsed@), name@);
        lemma_explode_names(query_vars(parsed@), name@);
    }
    let scalar = text::holds_text(&names_where(path, false), name) || text::holds_text(
        &names_where(query, false),
        name,
    );
    let in_path = text::holds_text(&names_where(path, true), name);
    let in_query = text::holds_text(&names_where(query, true), name);
    let takes_path = is_name_of(&parsed.path_assoc, name);
    let takes_query = is_name_of(&parsed.query_assoc, name);
    scalar && (in_path || in_query) || scalar && (takes_path || takes_query) || in_path
        && !takes_path && takes_query
}

/// Whether a name of a template stands for values that cannot be told from one another.
pub fn has_overlaps(parsed: &Parsed) -> (has: bool)
    ensures
        has == !is_sound(parsed@),
{
    let path = all_vars(&parsed.nonquery_parts());
    let query = all_vars(&parsed.query_parts());
    let mut i: usize = 0;
    while i < path.len()
        invariant
            i <= path@.len(),
            parser::vars_view(path@) == path_vars(parsed@),
            parser::vars_view(query@) == query_vars(parsed@),
            forall|j: int| 0 <= j < i ==> !overlaps(parsed@, #[trigger] path_vars(parsed@)[j].name),
        decreases path@.len() - i,
    {
        assert(path_vars(parsed@)[i as int] == path@[i as int]@);
        if overlaps_at(parsed, &path, &query, &path[i].varname) {
            return true;
        }
        i = i + 1;
    }
    let mut k: usize = 0;
    while k < query.len()
        invariant
            k <= query@.len(),
            parser::vars_view(path@) == path_vars(parsed@),
            parser::vars_view(query@) == query_vars(parsed@),
            forall|j: int| 0 <= j < k ==> !overlaps(parsed@, #[trigger] query_vars(parsed@)[j].name),
        decreases query@.len() - k,
    {
        assert(query_vars(parsed@)[k as int] == query@[k as int]@);
        if overlaps_at(parsed, &path, &query, &query[k].varname) {
            return true;
        }
        k = k + 1;
    }
    proof {
        let in_path = path_vars(parsed@);
        let in_query = query_vars(parsed@);
        assert forall|name: Seq<char>| !#[trigger] overlaps(parsed@, name) by {
            if is_scalar(in_path, name) {
                let j = choose|j: int|
                    0 <= j < in_path.len() && (#[trigger] in_path[j]).name == name
                        && in_path[j].modifier != VarMod::Explode;
                assert(!overlaps(parsed@, in_path[j].name));
            } else if is_scalar(in_query, name) {
                let j = choose|j: int|
                    0 <= j < in_query.len() && (#[trigger] in_query[j]).name == name
                        && in_query[j].modifier != VarMod::Explode;
                assert(!overlaps(parsed@, in_query[j].name));
            } else if is_explode(in_path, name) {
                let var = SpecOfVar { name, modifier: VarMod::Explode };
                let j = choose|j: int| 0 <= j < in_path.len() && in_path[j] == var;
                assert(!overlaps(parsed@, in_path[j].name));
            }
        }
    }
    false
}

} // verus!
