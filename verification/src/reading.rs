//! A URI that a template has written is one that it reads.
use crate::backend;
use crate::binding;
use crate::binding::SpecOfUri;
use crate::de;
use crate::de::{SpecOfBinding, UriDeserializer};
use crate::deserializer;
use crate::escape;
use crate::laws;
use crate::parser;
use crate::parser::{Op, SpecOfExpression, SpecOfParsed, SpecOfPart, SpecOfVar, VarMod};
use crate::pieces;
use crate::pieces::Piece;
use crate::render;
use crate::render::Place;
use crate::round_trip;
use crate::ser;
use crate::serializer;
use crate::single;
use crate::text;
use crate::value::Value;
use crate::{Error, FillPolicy};
use vstd::prelude::*;

verus! {

/// The group for a variable, with what an expression writes for its value.
pub open spec fn group_for(
    place: Place,
    op: Op,
    var: SpecOfVar,
    bindings: Map<Seq<char>, ser::SpecOfBinding>,
) -> Piece {
    Piece::Group {
        name: render::capture_name(var),
        stops: render::stops(place, op, var.modifier),
        value: round_trip::group_value(op, var, bindings[var.name]),
    }
}

/// Whether an equals sign stands before the value of a variable that an expression names.
pub open spec fn has_sign(value: ser::SpecOfBinding) -> bool {
    value is List || value is Pairs || round_trip::single_text(value).len() > 0
}

/// The pieces for a variable: its name, where an expression writes names, and the group.
pub open spec fn var_pieces(
    place: Place,
    op: Op,
    var: SpecOfVar,
    bindings: Map<Seq<char>, ser::SpecOfBinding>,
) -> Seq<Piece> {
    if op == Op::PathParam && var.modifier != VarMod::Explode {
        seq![
            Piece::Lit(var.name),
            Piece::Sign(has_sign(bindings[var.name])),
            group_for(place, op, var, bindings),
        ]
    } else {
        seq![group_for(place, op, var, bindings)]
    }
}

/// The pieces for variables, with what stands between them.
pub open spec fn vars_pieces(
    place: Place,
    op: Op,
    vars: Seq<SpecOfVar>,
    bindings: Map<Seq<char>, ser::SpecOfBinding>,
) -> Seq<Piece>
    decreases vars.len(),
{
    if vars.len() == 0 {
        Seq::empty()
    } else if vars.len() == 1 {
        var_pieces(place, op, vars[0], bindings)
    } else {
        vars_pieces(place, op, vars.drop_last(), bindings) + (seq![
            Piece::Lit(seq![ser::op_separator(op)]),
        ] + var_pieces(place, op, vars.last(), bindings))
    }
}

/// The pieces of an expression.
pub open spec fn expression_pieces(
    place: Place,
    e: SpecOfExpression,
    bindings: Map<Seq<char>, ser::SpecOfBinding>,
) -> Seq<Piece> {
    seq![Piece::Lit(ser::mark(ser::op_prefix(e.operator)))] + vars_pieces(
        place,
        e.operator,
        e.vars,
        bindings,
    )
}

/// Where the expression of a part stands.
pub open spec fn place_in(in_auth: bool, part: SpecOfPart) -> Place {
    if in_auth {
        Place::Auth
    } else if part is SegPathRest || part is SegRest {
        Place::Rest
    } else {
        Place::Path
    }
}

/// The pieces of a part, which stands in the authority or in the path.
pub open spec fn part_pieces(
    in_auth: bool,
    part: SpecOfPart,
    bindings: Map<Seq<char>, ser::SpecOfBinding>,
) -> Seq<Piece> {
    let place = place_in(in_auth, part);
    match part {
        SpecOfPart::Lit(l) => seq![Piece::Lit(l)],
        SpecOfPart::SegRest(e) => seq![Piece::Lit(seq!['/'])] + expression_pieces(
            place,
            e,
            bindings,
        ),
        SpecOfPart::Expression(e) | SpecOfPart::SegPathVar(e) | SpecOfPart::SegPathRest(
            e,
        ) => expression_pieces(place, e, bindings),
    }
}

/// The pieces of parts, one after the other.
pub open spec fn parts_pieces(
    in_auth: bool,
    parts: Seq<SpecOfPart>,
    bindings: Map<Seq<char>, ser::SpecOfBinding>,
) -> Seq<Piece>
    decreases parts.len(),
{
    if parts.len() == 0 {
        Seq::empty()
    } else {
        parts_pieces(in_auth, parts.drop_last(), bindings) + part_pieces(
            in_auth,
            parts.last(),
            bindings,
        )
    }
}

/// The pieces of the authority and the path of a template.
pub open spec fn template_pieces(
    template: SpecOfParsed,
    bindings: Map<Seq<char>, ser::SpecOfBinding>,
) -> Seq<Piece> {
    parts_pieces(true, parser::section_parts(template.auth), bindings) + parts_pieces(
        false,
        template.path,
        bindings,
    )
}

/// Whether an expression writes the value of a variable with no character at which the group for it
/// ends.
pub open spec fn is_kept(
    place: Place,
    op: Op,
    var: SpecOfVar,
    value: ser::SpecOfBinding,
) -> bool {
    let written = round_trip::group_value(op, var, value);
    forall|i: int|
        0 <= i < written.len() ==> !render::stops(place, op, var.modifier).contains(
            #[trigger] written[i],
        )
}

/// Whether an expression can stand in the authority or in the path.
pub open spec fn is_path_op(op: Op) -> bool {
    op != Op::Fragment && op != Op::Query && op != Op::QueryCont
}

/// Whether an expression has variables, and writes their values so that the groups can take them.
pub open spec fn is_matched_expression(
    place: Place,
    e: SpecOfExpression,
    bindings: Map<Seq<char>, ser::SpecOfBinding>,
) -> bool {
    &&& e.vars.len() > 0
    &&& is_path_op(e.operator)
    &&& forall|i: int|
        0 <= i < e.vars.len() ==> is_kept(
            place,
            e.operator,
            #[trigger] e.vars[i],
            bindings[e.vars[i].name],
        )
}

/// Whether the expression of a part, if it has one, is such.
pub open spec fn is_matched_part(
    in_auth: bool,
    part: SpecOfPart,
    bindings: Map<Seq<char>, ser::SpecOfBinding>,
) -> bool {
    match part.expression() {
        None => true,
        Some(e) => is_matched_expression(place_in(in_auth, part), e, bindings),
    }
}

/// Whether all the expressions of parts are such.
pub open spec fn are_matched_parts(
    in_auth: bool,
    parts: Seq<SpecOfPart>,
    bindings: Map<Seq<char>, ser::SpecOfBinding>,
) -> bool {
    forall|i: int|
        0 <= i < parts.len() ==> is_matched_part(in_auth, #[trigger] parts[i], bindings)
}

/// Whether an expression writes something for each of its variables, or has no more than one,
/// before which it writes nothing, and leaves that out.
pub open spec fn is_written_out(
    e: SpecOfExpression,
    policy: FillPolicy,
    bindings: Map<Seq<char>, ser::SpecOfBinding>,
) -> bool {
    ||| e.vars.len() > 0 && forall|i: int|
        0 <= i < e.vars.len() ==> laws::is_written(e.operator, #[trigger] e.vars[i], bindings)
    ||| e.vars.len() <= 1 && ser::op_prefix(e.operator) is None && forall|i: int|
        0 <= i < e.vars.len() ==> bindings.dom().contains((#[trigger] e.vars[i]).name) && (
        bindings[e.vars[i].name] is Omitted || bindings[e.vars[i].name] is Absent && policy
            == FillPolicy::DropMissing)
}

/// Whether the expressions of parts can stand in the authority or in the path, and are written out.
pub open spec fn are_written_out(
    parts: Seq<SpecOfPart>,
    policy: FillPolicy,
    bindings: Map<Seq<char>, ser::SpecOfBinding>,
) -> bool {
    forall|i: int|
        0 <= i < parts.len() ==> match (#[trigger] parts[i]).expression() {
            None => true,
            Some(e) => is_path_op(e.operator) && is_written_out(e, policy, bindings),
        }
}

proof fn lemma_given_is_written_out(
    in_auth: bool,
    parts: Seq<SpecOfPart>,
    policy: FillPolicy,
    bindings: Map<Seq<char>, ser::SpecOfBinding>,
)
    requires
        are_matched_parts(in_auth, parts, bindings),
        round_trip::are_given(parser::vars_of(parts), bindings),
    ensures
        are_written_out(parts, policy, bindings),
    decreases parts.len(),
{
    if parts.len() > 0 {
        let before = parts.drop_last();
        let last = parts.last();
        assert forall|i: int| 0 <= i < before.len() implies is_matched_part(
            in_auth,
            #[trigger] before[i],
            bindings,
        ) by {
            assert(before[i] == parts[i]);
        }
        lemma_given_concat(parser::vars_of(before), parser::part_vars(last), bindings);
        lemma_given_is_written_out(in_auth, before, policy, bindings);
        assert(is_matched_part(in_auth, parts[parts.len() - 1], bindings));
        assert forall|i: int| 0 <= i < parts.len() implies match (
        #[trigger] parts[i]).expression() {
            None => true,
            Some(e) => is_path_op(e.operator) && is_written_out(e, policy, bindings),
        } by {
            if i < before.len() {
                assert(before[i] == parts[i]);
            } else if let Some(e) = last.expression() {
                assert forall|j: int| 0 <= j < e.vars.len() implies laws::is_written(
                    e.operator,
                    #[trigger] e.vars[j],
                    bindings,
                ) by {
                    assert(parser::part_vars(last)[j] == e.vars[j]);
                    assert(round_trip::is_given(e.vars[j], bindings[e.vars[j].name]));
                }
            }
        }
    }
}

/// Expressions such as `{a}`, `{/a:3}` and `{;a}` write all single values so that the groups can
/// take them, and so that they can be decoded.
pub proof fn law_escaped_values_are_kept(place: Place, op: Op, var: SpecOfVar, value: Seq<char>)
    requires
        op == Op::Simple || op == Op::Path || op == Op::PathParam,
        var.modifier != VarMod::Explode,
    ensures
        is_kept(place, op, var, ser::SpecOfBinding::Scalar(value)),
        round_trip::is_decodable(op, var, ser::SpecOfBinding::Scalar(value)),
{
    let own = ser::wanted(var.modifier, value);
    let written = escape::escaped_text(op, own);
    assert forall|i: int| 0 <= i < written.len() implies !render::stops(
        place,
        op,
        var.modifier,
    ).contains(#[trigger] written[i]) by {
        round_trip::law_values_fit_their_groups(place, op, var.modifier, own, i);
    }
}

/// Expressions such as `{/a*}` that take what is left of the path, and ones such as `{;a*}` and
/// `{a*}` in any place, do so with all lists.
pub proof fn law_lists_are_kept(place: Place, op: Op, var: SpecOfVar, items: Seq<Seq<char>>)
    requires
        op == Op::Simple || op == Op::PathParam || op == Op::Path && place == Place::Rest,
        var.modifier == VarMod::Explode,
        op == Op::PathParam ==> round_trip::is_plain(var.name),
        items.len() > 0,
    ensures
        is_kept(place, op, var, ser::SpecOfBinding::List(items)),
        round_trip::is_decodable(op, var, ser::SpecOfBinding::List(items)),
{
    let sep = ser::op_separator(op);
    let value = ser::SpecOfBinding::List(items);
    let written = round_trip::group_value(op, var, value);
    let stops = render::stops(place, op, var.modifier);
    if op == Op::PathParam {
        let named = ser::named_items(var.name, items);
        let list = round_trip::with_name(var.name, items);
        round_trip::lemma_pairs_text(op, sep, named);
        assert(round_trip::pairs_of(named) =~= list);
        round_trip::law_parameters_are_decodable(sep, list);
        assert forall|i: int| 0 <= i < written.len() implies !stops.contains(
            #[trigger] written[i],
        ) by {
            round_trip::lemma_parameters_chars(sep, list, i);
        }
    } else {
        round_trip::law_path_list_is_read_back(op, items);
        assert forall|i: int| 0 <= i < written.len() implies !stops.contains(
            #[trigger] written[i],
        ) by {
            round_trip::lemma_list_chars(op, sep, items, i);
        }
    }
}

/// Expressions such as `{/a}` and `{;a}` do so with all lists, too.
pub proof fn law_whole_lists_are_kept(place: Place, op: Op, var: SpecOfVar, items: Seq<Seq<char>>)
    requires
        op == Op::Path || op == Op::PathParam,
        var.modifier == VarMod::Whole,
    ensures
        is_kept(place, op, var, ser::SpecOfBinding::List(items)),
        round_trip::is_decodable(op, var, ser::SpecOfBinding::List(items)),
{
    let written = ser::list_text(op, ',', items);
    let stops = render::stops(place, op, var.modifier);
    round_trip::law_whole_list_is_decoded(op, items);
    assert forall|i: int| 0 <= i < written.len() implies !stops.contains(#[trigger] written[i]) by {
        round_trip::lemma_list_chars(op, ',', items, i);
    }
}

/// Expressions such as those do so with all pairs that have plain names.
pub proof fn law_pairs_are_kept(
    place: Place,
    op: Op,
    var: SpecOfVar,
    items: Seq<(Seq<char>, Option<Seq<char>>)>,
)
    requires
        op == Op::Simple || op == Op::PathParam || op == Op::Path && place == Place::Rest,
        var.modifier == VarMod::Explode,
        forall|i: int| 0 <= i < items.len() ==> round_trip::is_plain((#[trigger] items[i]).0),
    ensures
        is_kept(place, op, var, ser::SpecOfBinding::Pairs(items)),
        round_trip::is_decodable(op, var, ser::SpecOfBinding::Pairs(items)),
{
    let sep = ser::op_separator(op);
    let list = round_trip::pairs_of(items);
    let written = round_trip::group_value(op, var, ser::SpecOfBinding::Pairs(items));
    let stops = render::stops(place, op, var.modifier);
    assert forall|i: int| 0 <= i < list.len() implies round_trip::is_plain(
        (#[trigger] list[i]).0,
    ) && round_trip::is_bare(sep, list[i].0) by {
        assert(round_trip::is_plain(items[i].0));
        round_trip::lemma_plain_is_bare(sep, items[i].0);
    }
    round_trip::lemma_pairs_text(op, sep, items);
    assert forall|i: int| 0 <= i < written.len() implies !stops.contains(#[trigger] written[i]) by {
        round_trip::lemma_parameters_chars(sep, list, i);
    }
}

/// What the groups for variables take.
pub open spec fn taken(
    op: Op,
    vars: Seq<SpecOfVar>,
    bindings: Map<Seq<char>, ser::SpecOfBinding>,
) -> Seq<(Seq<char>, Option<Seq<char>>)> {
    Seq::new(
        vars.len(),
        |i: int|
            (
                render::capture_name(vars[i]),
                Some(round_trip::group_value(op, vars[i], bindings[vars[i].name])),
            ),
    )
}

/// What an expression writes for the value of a variable.
pub open spec fn written_value(
    op: Op,
    var: SpecOfVar,
    bindings: Map<Seq<char>, ser::SpecOfBinding>,
) -> Seq<char> {
    ser::value_text(op, var, bindings[var.name])->Ok_0
}

/// Whether what an expression writes for the value of a variable has the form of the group for it.
pub open spec fn has_group(op: Op, var: SpecOfVar, value: ser::SpecOfBinding) -> bool {
    &&& is_path_op(op)
    &&& ser::value_text(op, var, value) is Ok
    &&& op == Op::PathParam ==> value !is Absent && value !is Omitted
}

proof fn lemma_var_pieces(
    place: Place,
    op: Op,
    var: SpecOfVar,
    bindings: Map<Seq<char>, ser::SpecOfBinding>,
)
    requires
        has_group(op, var, bindings[var.name]),
    ensures
        pieces::pattern_of(var_pieces(place, op, var, bindings)) == render::var_re(place, op, var),
        pieces::text_of(var_pieces(place, op, var, bindings)) == written_value(op, var, bindings),
        pieces::groups_of(var_pieces(place, op, var, bindings)) == seq![
            (
                render::capture_name(var),
                Some(round_trip::group_value(op, var, bindings[var.name])),
            ),
        ],
{
    let group = group_for(place, op, var, bindings);
    let taken = round_trip::group_value(op, var, bindings[var.name]);
    let list = var_pieces(place, op, var, bindings);
    pieces::lemma_one(group);
    if op == Op::PathParam && var.modifier != VarMod::Explode {
        let name = Piece::Lit(var.name);
        let sign = Piece::Sign(has_sign(bindings[var.name]));
        pieces::lemma_one(name);
        pieces::lemma_one(sign);
        pieces::lemma_concat(seq![name], seq![sign]);
        pieces::lemma_concat(seq![name] + seq![sign], seq![group]);
        assert(list =~= seq![name] + seq![sign] + seq![group]);
        assert(pieces::pattern_of(list) =~= render::var_re(place, op, var));
        assert(pieces::text_of(list) =~= written_value(op, var, bindings));
        assert(pieces::groups_of(list) =~= seq![(render::capture_name(var), Some(taken))]);
    } else {
        assert(pieces::piece_pattern(group) =~= render::var_re(place, op, var));
        assert(pieces::piece_text(group) =~= written_value(op, var, bindings));
    }
}

proof fn lemma_vars_pieces(
    place: Place,
    op: Op,
    vars: Seq<SpecOfVar>,
    bindings: Map<Seq<char>, ser::SpecOfBinding>,
)
    requires
        forall|i: int|
            0 <= i < vars.len() ==> has_group(op, #[trigger] vars[i], bindings[vars[i].name]),
    ensures
        pieces::pattern_of(vars_pieces(place, op, vars, bindings)) == text::join(
            render::var_res(place, op, vars),
            render::quoted(seq![ser::op_separator(op)]),
        ),
        pieces::text_of(vars_pieces(place, op, vars, bindings)) == text::join(
            Seq::new(vars.len(), |i: int| written_value(op, vars[i], bindings)),
            seq![ser::op_separator(op)],
        ),
        pieces::groups_of(vars_pieces(place, op, vars, bindings)) == taken(op, vars, bindings),
    decreases vars.len(),
{
    let sep = seq![ser::op_separator(op)];
    let list = vars_pieces(place, op, vars, bindings);
    let written = Seq::new(vars.len(), |i: int| written_value(op, vars[i], bindings));
    if vars.len() == 0 {
        assert(pieces::groups_of(list) =~= taken(op, vars, bindings));
    } else {
        let last = vars.last();
        let own = var_pieces(place, op, last, bindings);
        assert(has_group(op, vars[vars.len() - 1], bindings[last.name]));
        lemma_var_pieces(place, op, last, bindings);
        if vars.len() == 1 {
            assert(pieces::groups_of(list) =~= taken(op, vars, bindings));
        } else {
            let before = vars.drop_last();
            assert forall|i: int| 0 <= i < before.len() implies has_group(
                op,
                #[trigger] before[i],
                bindings[before[i].name],
            ) by {
                assert(before[i] == vars[i]);
            }
            lemma_vars_pieces(place, op, before, bindings);
            let first = vars_pieces(place, op, before, bindings);
            pieces::lemma_one(Piece::Lit(sep));
            pieces::lemma_concat(seq![Piece::Lit(sep)], own);
            pieces::lemma_concat(first, seq![Piece::Lit(sep)] + own);
            let group = (
                render::capture_name(last),
                Some(round_trip::group_value(op, last, bindings[last.name])),
            );
            lemma_three(
                render::var_res(place, op, before),
                render::var_res(place, op, vars),
                render::quoted(sep),
            );
            lemma_three(
                Seq::new(before.len(), |i: int| written_value(op, before[i], bindings)),
                written,
                sep,
            );
            assert(Seq::<(Seq<char>, Option<Seq<char>>)>::empty() + seq![group] =~= seq![group]);
            assert(pieces::groups_of(list) == taken(op, before, bindings) + seq![group]);
            assert(pieces::groups_of(list) =~= taken(op, vars, bindings));
        }
    }
}

proof fn lemma_three(before: Seq<Seq<char>>, all: Seq<Seq<char>>, sep: Seq<char>)
    requires
        before.len() > 0,
        all.len() == before.len() + 1,
        forall|i: int| 0 <= i < before.len() ==> #[trigger] before[i] == all[i],
    ensures
        text::join(all, sep) == text::join(before, sep) + (sep + all.last()),
{
    assert(all.drop_last() =~= before);
    assert(text::join(before, sep) + sep + all.last() =~= text::join(before, sep) + (sep
        + all.last()));
}

proof fn lemma_expression_pieces(
    place: Place,
    e: SpecOfExpression,
    bindings: Map<Seq<char>, ser::SpecOfBinding>,
    policy: FillPolicy,
)
    requires
        is_path_op(e.operator),
        is_written_out(e, policy, bindings),
    ensures
        pieces::pattern_of(expression_pieces(place, e, bindings)) == render::expression_re(place, e),
        ser::expansion(e, policy, bindings) == Ok::<
            Seq<char>,
            ser::SpecOfError,
        >(pieces::text_of(expression_pieces(place, e, bindings))),
        pieces::groups_of(expression_pieces(place, e, bindings)) == taken(
            e.operator,
            e.vars,
            bindings,
        ),
{
    let prefix = ser::mark(ser::op_prefix(e.operator));
    let first = seq![Piece::Lit(prefix)];
    let others = vars_pieces(place, e.operator, e.vars, bindings);
    let written = Seq::new(e.vars.len(), |i: int| written_value(e.operator, e.vars[i], bindings));
    assert forall|j: int| 0 <= j < e.vars.len() implies has_group(
        e.operator,
        #[trigger] e.vars[j],
        bindings[e.vars[j].name],
    ) by {}
    lemma_vars_pieces(place, e.operator, e.vars, bindings);
    pieces::lemma_one(Piece::Lit(prefix));
    pieces::lemma_concat(first, others);
    if e.vars.len() > 0 && laws::is_written(e.operator, e.vars[0], bindings) {
        laws::law_full_expansion(e, policy, bindings);
        assert(laws::written_values(e, bindings) =~= written);
    } else {
        assert(text::join(written, seq![ser::op_separator(e.operator)]) =~= Seq::empty());
        assert(pieces::text_of(expression_pieces(place, e, bindings)) =~= Seq::empty());
        reveal_with_fuel(ser::fill_from, 2);
        assert(ser::expansion(e, policy, bindings) == Ok::<Seq<char>, ser::SpecOfError>(
            Seq::empty(),
        ));
    }
    assert(pieces::groups_of(first) + taken(e.operator, e.vars, bindings) =~= taken(
        e.operator,
        e.vars,
        bindings,
    ));
}

/// What the groups for the variables of a part take.
pub open spec fn taken_by_part(
    part: SpecOfPart,
    bindings: Map<Seq<char>, ser::SpecOfBinding>,
) -> Seq<(Seq<char>, Option<Seq<char>>)> {
    match part.expression() {
        None => Seq::empty(),
        Some(e) => taken(e.operator, e.vars, bindings),
    }
}

/// What the groups for the variables of parts take.
pub open spec fn taken_by_parts(
    parts: Seq<SpecOfPart>,
    bindings: Map<Seq<char>, ser::SpecOfBinding>,
) -> Seq<(Seq<char>, Option<Seq<char>>)>
    decreases parts.len(),
{
    if parts.len() == 0 {
        Seq::empty()
    } else {
        taken_by_parts(parts.drop_last(), bindings) + taken_by_part(parts.last(), bindings)
    }
}

proof fn lemma_part_pieces(
    in_auth: bool,
    part: SpecOfPart,
    bindings: Map<Seq<char>, ser::SpecOfBinding>,
    policy: FillPolicy,
)
    requires
        are_written_out(seq![part], policy, bindings),
    ensures
        pieces::pattern_of(part_pieces(in_auth, part, bindings)) == (if in_auth {
            render::auth_re(part)
        } else {
            render::path_re(part)
        }),
        ser::part_expansion(part, policy, bindings) == Ok::<
            Seq<char>,
            ser::SpecOfError,
        >(pieces::text_of(part_pieces(in_auth, part, bindings))),
        pieces::groups_of(part_pieces(in_auth, part, bindings)) == taken_by_part(part, bindings),
{
    let place = place_in(in_auth, part);
    assert(seq![part][0] == part);
    match part {
        SpecOfPart::Lit(l) => {
            pieces::lemma_one(Piece::Lit(l));
        },
        SpecOfPart::Expression(e) | SpecOfPart::SegPathVar(e) | SpecOfPart::SegPathRest(e) => {
            lemma_expression_pieces(place, e, bindings, policy);
        },
        SpecOfPart::SegRest(e) => {
            let slash = Piece::Lit(seq!['/']);
            lemma_expression_pieces(place, e, bindings, policy);
            pieces::lemma_one(slash);
            pieces::lemma_concat(seq![slash], expression_pieces(place, e, bindings));
            assert(render::quoted(seq!['/']) =~= seq!['/']) by {
                assert(seq!['/'].drop_last() =~= Seq::empty());
                assert(render::quoted(Seq::empty()) =~= Seq::empty());
            }
            assert(pieces::groups_of(seq![slash]) + taken_by_part(part, bindings) =~= taken_by_part(
                part,
                bindings,
            ));
        },
    }
}

proof fn lemma_given_concat(
    a: Seq<SpecOfVar>,
    b: Seq<SpecOfVar>,
    bindings: Map<Seq<char>, ser::SpecOfBinding>,
)
    requires
        round_trip::are_given(a + b, bindings),
    ensures
        round_trip::are_given(a, bindings),
        round_trip::are_given(b, bindings),
{
    assert forall|i: int| 0 <= i < a.len() implies bindings.dom().contains((#[trigger] a[i]).name)
        && round_trip::is_given(a[i], bindings[a[i].name]) by {
        assert((a + b)[i] == a[i]);
    }
    assert forall|i: int| 0 <= i < b.len() implies bindings.dom().contains((#[trigger] b[i]).name)
        && round_trip::is_given(b[i], bindings[b[i].name]) by {
        assert((a + b)[a.len() + i] == b[i]);
    }
}

proof fn lemma_parts_pieces(
    in_auth: bool,
    parts: Seq<SpecOfPart>,
    bindings: Map<Seq<char>, ser::SpecOfBinding>,
    policy: FillPolicy,
)
    requires
        are_written_out(parts, policy, bindings),
    ensures
        pieces::pattern_of(parts_pieces(in_auth, parts, bindings)) == render::concat_parts(
            parts,
            if in_auth {
                |part: SpecOfPart| render::auth_re(part)
            } else {
                |part: SpecOfPart| render::path_re(part)
            },
        ),
        ser::parts_expansion(parts, policy, bindings) == Ok::<
            Seq<char>,
            ser::SpecOfError,
        >(pieces::text_of(parts_pieces(in_auth, parts, bindings))),
        pieces::groups_of(parts_pieces(in_auth, parts, bindings)) == taken_by_parts(parts, bindings),
    decreases parts.len(),
{
    if parts.len() > 0 {
        let before = parts.drop_last();
        let last = parts.last();
        assert forall|i: int| 0 <= i < before.len() implies match (
        #[trigger] before[i]).expression() {
            None => true,
            Some(e) => is_path_op(e.operator) && is_written_out(e, policy, bindings),
        } by {
            assert(before[i] == parts[i]);
        }
        lemma_parts_pieces(in_auth, before, bindings, policy);
        assert(parts[parts.len() - 1] == last);
        lemma_part_pieces(in_auth, last, bindings, policy);
        pieces::lemma_concat(
            parts_pieces(in_auth, before, bindings),
            part_pieces(in_auth, last, bindings),
        );
    }
}

/// What the groups for variables take, where these stand in expressions with such operators.
pub open spec fn taken_by(
    ops: Seq<Op>,
    vars: Seq<SpecOfVar>,
    bindings: Map<Seq<char>, ser::SpecOfBinding>,
) -> Seq<(Seq<char>, Option<Seq<char>>)> {
    Seq::new(
        vars.len(),
        |i: int|
            (
                render::capture_name(vars[i]),
                Some(round_trip::group_value(ops[i], vars[i], bindings[vars[i].name])),
            ),
    )
}

proof fn lemma_taken(parts: Seq<SpecOfPart>, bindings: Map<Seq<char>, ser::SpecOfBinding>)
    ensures
        taken_by_parts(parts, bindings) == taken_by(
            round_trip::ops_of(parts),
            parser::vars_of(parts),
            bindings,
        ),
    decreases parts.len(),
{
    let ops = round_trip::ops_of(parts);
    let vars = parser::vars_of(parts);
    let all = taken_by(ops, vars, bindings);
    if parts.len() == 0 {
        assert(taken_by_parts(parts, bindings) =~= all);
    } else {
        let before = parts.drop_last();
        let last = parts.last();
        lemma_taken(before, bindings);
        round_trip::lemma_ops_len(before);
        let count = parser::vars_of(before).len();
        assert forall|i: int| 0 <= i < vars.len() implies #[trigger] taken_by_parts(
            parts,
            bindings,
        )[i] == all[i] by {
            if i < count {
                assert(taken_by_parts(parts, bindings)[i] == taken_by_parts(before, bindings)[i]);
                assert(ops[i] == round_trip::ops_of(before)[i]);
                assert(vars[i] == parser::vars_of(before)[i]);
            } else {
                let e = last.expression()->0;
                assert(vars[i] == e.vars[i - count]);
                assert(ops[i] == e.operator);
                assert(taken_by_parts(parts, bindings)[i] == taken_by_part(last, bindings)[i
                    - count]);
            }
        }
        assert(taken_by_parts(parts, bindings) =~= all);
    }
}

proof fn lemma_place_of(
    list: Seq<(Seq<char>, Option<Seq<char>>)>,
    k: int,
    i: int,
)
    requires
        0 <= i <= k < list.len(),
        forall|j: int| 0 <= j < k ==> (#[trigger] list[j]).0 != list[k].0,
    ensures
        binding::place_of(list, list[k].0, i) == k,
    decreases k - i,
{
    if i < k {
        assert(list[i].0 != list[k].0);
        lemma_place_of(list, k, i + 1);
    }
}

proof fn lemma_expansion_concat(
    a: Seq<SpecOfPart>,
    b: Seq<SpecOfPart>,
    policy: FillPolicy,
    bindings: Map<Seq<char>, ser::SpecOfBinding>,
)
    requires
        ser::parts_expansion(a, policy, bindings) is Ok,
        ser::parts_expansion(b, policy, bindings) is Ok,
    ensures
        ser::parts_expansion(a + b, policy, bindings) == Ok::<Seq<char>, ser::SpecOfError>(
            ser::parts_expansion(a, policy, bindings)->Ok_0 + ser::parts_expansion(
                b,
                policy,
                bindings,
            )->Ok_0,
        ),
    decreases b.len(),
{
    if b.len() == 0 {
        assert(a + b =~= a);
        assert(ser::parts_expansion(a, policy, bindings)->Ok_0 + Seq::<char>::empty()
            =~= ser::parts_expansion(a, policy, bindings)->Ok_0);
    } else {
        lemma_expansion_concat(a, b.drop_last(), policy, bindings);
        assert((a + b).drop_last() =~= a + b.drop_last());
        assert(ser::parts_expansion(a + b, policy, bindings)->Ok_0 =~= ser::parts_expansion(
            a,
            policy,
            bindings,
        )->Ok_0 + ser::parts_expansion(b, policy, bindings)->Ok_0);
    }
}

/// A query section whose parts each begin where a parameter does writes what they do, one after the
/// other.
pub proof fn law_query_section_is_written(
    parts: Seq<SpecOfPart>,
    policy: FillPolicy,
    bindings: Map<Seq<char>, ser::SpecOfBinding>,
)
    requires
        round_trip::is_query_form(parts),
        round_trip::are_given(parser::vars_of(parts), bindings),
    ensures
        ser::parts_expansion(parts, policy, bindings) == Ok::<Seq<char>, ser::SpecOfError>(
            round_trip::written_section(parts, bindings),
        ),
        parts.len() > 0 ==> round_trip::written_section(parts, bindings).len() > 0
            && round_trip::written_section(parts, bindings)[0] == '?',
    decreases parts.len(),
{
    if parts.len() > 0 {
        let before = parts.drop_last();
        let last = parts.last();
        lemma_given_concat(parser::vars_of(before), parser::part_vars(last), bindings);
        assert forall|i: int| 0 <= i < before.len() implies #[trigger] before[i] == parts[i] by {}
        law_query_section_is_written(before, policy, bindings);
        assert(parts[parts.len() - 1] == last);
        if last is Expression {
            round_trip::law_query_is_written(last->Expression_0, policy, bindings);
        }
        let written = round_trip::written_part(last, bindings);
        assert(ser::part_expansion(last, policy, bindings) == Ok::<Seq<char>, ser::SpecOfError>(
            written,
        ));
        if parts.len() == 1 {
            assert(before =~= Seq::empty());
            assert(round_trip::written_section(before, bindings) + written =~= written);
        }
    }
}

/// Whether something behind each value in the authority and the path tells where it ends.
pub open spec fn is_separated(
    template: SpecOfParsed,
    bindings: Map<Seq<char>, ser::SpecOfBinding>,
) -> bool {
    let list = template_pieces(template, bindings);
    forall|i: int|
        0 <= i < list.len() ==> (#[trigger] list[i] is Lit || pieces::is_stopped(list, i))
}

/// Whether the groups of a template's regular expression can take what the template writes for
/// values: in the authority and the path all variables have values of their kinds and plain names,
/// and each value is written with no character at which the group for it ends, and with something
/// behind it that tells where it does.
pub open spec fn is_taken(
    template: SpecOfParsed,
    bindings: Map<Seq<char>, ser::SpecOfBinding>,
) -> bool {
    let path = binding::path_vars(template);
    &&& round_trip::are_given(path, bindings)
    &&& are_matched_parts(true, parser::section_parts(template.auth), bindings)
    &&& are_matched_parts(false, template.path, bindings)
    &&& is_separated(template, bindings)
    &&& forall|i: int| 0 <= i < path.len() ==> round_trip::is_plain((#[trigger] path[i]).name)
}

/// Whether the regular expression of a template matches what the template writes for values: in the
/// authority and the path all expressions are written out, all variables have plain names, and no
/// value is written with a character at which the group for it ends, but for one at the end of the
/// path.
pub open spec fn is_matched(
    template: SpecOfParsed,
    policy: FillPolicy,
    bindings: Map<Seq<char>, ser::SpecOfBinding>,
) -> bool {
    &&& are_written_out(template.before_query(), policy, bindings)
    &&& pieces::are_clean(pieces::cut(template_pieces(template, bindings)))
}

/// Whether a text begins with what a template writes for values before the query.
pub open spec fn is_begun_by(
    template: SpecOfParsed,
    policy: FillPolicy,
    bindings: Map<Seq<char>, ser::SpecOfBinding>,
    uri: Seq<char>,
) -> bool {
    let path = ser::parts_expansion(template.before_query(), policy, bindings);
    path is Ok && text::begins_with(uri, path->Ok_0)
}

/// Whether a regular expression finds something in every text that begins with what a template
/// writes before the query, for all values that it matches.
pub open spec fn is_regex_for(template: SpecOfParsed, pattern: Seq<char>) -> bool {
    forall|policy: FillPolicy, bindings: Map<Seq<char>, ser::SpecOfBinding>, uri: Seq<char>|
        is_matched(template, policy, bindings) && #[trigger] is_begun_by(
            template,
            policy,
            bindings,
            uri,
        ) ==> backend::regex_captures(pattern, uri) is Some
}

/// Whether a template can read back values that it is filled with.
///
/// The values can be told from one another. In the authority and the path the groups of the regular
/// expression can take them, each under a name of its own, and they can be decoded.
pub open spec fn is_readable(
    template: SpecOfParsed,
    bindings: Map<Seq<char>, ser::SpecOfBinding>,
) -> bool {
    let path = binding::path_vars(template);
    let ops = round_trip::ops_of(template.before_query());
    &&& backend::regex_error(render::template_re(template)) is None
    &&& round_trip::are_told_apart(template, bindings)
    &&& is_taken(template, bindings)
    &&& forall|i: int|
        0 <= i < path.len() ==> round_trip::is_decodable(
            ops[i],
            #[trigger] path[i],
            bindings[path[i].name],
        )
    &&& forall|i: int, j: int|
        0 <= i < path.len() && 0 <= j < path.len() && render::capture_name(#[trigger] path[i])
            == render::capture_name(#[trigger] path[j]) ==> i == j
}

/// Whether a URI is what a template writes for values.
pub open spec fn is_written_as(
    template: SpecOfParsed,
    policy: FillPolicy,
    bindings: Map<Seq<char>, ser::SpecOfBinding>,
    uri: SpecOfUri,
) -> bool {
    &&& ser::parts_expansion(template.before_query(), policy, bindings) == Ok::<
        Seq<char>,
        ser::SpecOfError,
    >(binding::url_of(uri))
    &&& template.query is Some ==> uri.query is Some && ser::parts_expansion(
        template.query->0,
        policy,
        bindings,
    ) == Ok::<Seq<char>, ser::SpecOfError>(seq!['?'] + uri.query->0)
}

/// Whether a URI is no stranger to a template that wrote it, for all values that its regular
/// expression matches.
pub open spec fn is_recognised(
    template: SpecOfParsed,
    uri: SpecOfUri,
    result: Result<UriDeserializer, Error>,
) -> bool {
    forall|policy: FillPolicy, bindings: Map<Seq<char>, ser::SpecOfBinding>|
        is_matched(template, policy, bindings) && #[trigger] ser::parts_expansion(
            template.before_query(),
            policy,
            bindings,
        ) == Ok::<Seq<char>, ser::SpecOfError>(binding::url_of(uri)) ==> !(result matches Err(
            Error::NoMatch(_),
        ))
}

/// Whether the values that a template was filled with are read back from the URI that it wrote,
/// for all values that it can read back.
pub open spec fn is_read_back(
    template: SpecOfParsed,
    uri: SpecOfUri,
    result: Result<UriDeserializer, Error>,
) -> bool {
    forall|policy: FillPolicy, bindings: Map<Seq<char>, ser::SpecOfBinding>|
        is_readable(template, bindings) && #[trigger] is_written_as(template, policy, bindings, uri)
            ==> result is Ok && de::params_view(result->Ok_0.varlist@)
            == round_trip::read_bindings(template, bindings)
}

proof fn lemma_decimal_plain(n: nat, i: int)
    requires
        0 <= i < text::decimal(n).len(),
    ensures
        escape::is_ascii(text::decimal(n)[i]),
        escape::is_unreserved(text::decimal(n)[i] as u8),
    decreases n,
{
    if n >= 10 && i < text::decimal(n / 10).len() {
        lemma_decimal_plain(n / 10, i);
    }
}

proof fn lemma_capture_name_plain(var: SpecOfVar)
    requires
        round_trip::is_plain(var.name),
    ensures
        forall|i: int|
            0 <= i < render::capture_name(var).len() ==> escape::is_ascii(
                #[trigger] render::capture_name(var)[i],
            ) && escape::is_unreserved(render::capture_name(var)[i] as u8),
{
    let name = render::capture_name(var);
    assert forall|i: int| 0 <= i < name.len() implies escape::is_ascii(#[trigger] name[i])
        && escape::is_unreserved(name[i] as u8) by {
        if i < var.name.len() {
            assert(name[i] == var.name[i]);
        } else if let VarMod::Prefix(n) = var.modifier {
            if i >= var.name.len() + 2 {
                lemma_decimal_plain(n as nat, i - var.name.len() - 2);
            }
        }
    }
}

proof fn lemma_pieces_clean(
    in_auth: bool,
    parts: Seq<SpecOfPart>,
    bindings: Map<Seq<char>, ser::SpecOfBinding>,
)
    requires
        are_matched_parts(in_auth, parts, bindings),
        forall|i: int|
            0 <= i < parser::vars_of(parts).len() ==> round_trip::is_plain(
                (#[trigger] parser::vars_of(parts)[i]).name,
            ),
    ensures
        forall|i: int|
            0 <= i < parts_pieces(in_auth, parts, bindings).len() ==> pieces::is_clean(
                #[trigger] parts_pieces(in_auth, parts, bindings)[i],
            ),
    decreases parts.len(),
{
    if parts.len() > 0 {
        let before = parts.drop_last();
        let last = parts.last();
        let vars = parser::vars_of(parts);
        let earlier = parser::vars_of(before);
        assert forall|i: int| 0 <= i < before.len() implies is_matched_part(
            in_auth,
            #[trigger] before[i],
            bindings,
        ) by {
            assert(before[i] == parts[i]);
        }
        assert forall|i: int| 0 <= i < earlier.len() implies round_trip::is_plain(
            (#[trigger] earlier[i]).name,
        ) by {
            assert(vars[i] == earlier[i]);
        }
        lemma_pieces_clean(in_auth, before, bindings);
        assert(is_matched_part(in_auth, parts[parts.len() - 1], bindings));
        let own = parser::part_vars(last);
        assert forall|i: int| 0 <= i < own.len() implies round_trip::is_plain(
            (#[trigger] own[i]).name,
        ) by {
            assert(vars[earlier.len() + i] == own[i]);
        }
        let first = parts_pieces(in_auth, before, bindings);
        let added = part_pieces(in_auth, last, bindings);
        let place = place_in(in_auth, last);
        if let Some(e) = last.expression() {
            lemma_vars_clean(place, e.operator, e.vars, bindings);
        }
        assert forall|i: int| 0 <= i < added.len() implies pieces::is_clean(#[trigger] added[i]) by {
            if let Some(e) = last.expression() {
                let k: int = if last is SegRest {
                    2
                } else {
                    1
                };
                if i >= k {
                    assert(added[i] == vars_pieces(place, e.operator, e.vars, bindings)[i - k]);
                }
            }
        }
        assert forall|i: int|
            0 <= i < parts_pieces(in_auth, parts, bindings).len() implies pieces::is_clean(
            #[trigger] parts_pieces(in_auth, parts, bindings)[i],
        ) by {
            if i < first.len() {
                assert(pieces::is_clean(first[i]));
            } else {
                assert(parts_pieces(in_auth, parts, bindings)[i] == added[i - first.len()]);
            }
        }
    }
}

proof fn lemma_vars_clean(
    place: Place,
    op: Op,
    vars: Seq<SpecOfVar>,
    bindings: Map<Seq<char>, ser::SpecOfBinding>,
)
    requires
        is_path_op(op),
        forall|i: int|
            0 <= i < vars.len() ==> round_trip::is_plain((#[trigger] vars[i]).name) && is_kept(
                place,
                op,
                vars[i],
                bindings[vars[i].name],
            ),
    ensures
        forall|i: int|
            0 <= i < vars_pieces(place, op, vars, bindings).len() ==> pieces::is_clean(
                #[trigger] vars_pieces(place, op, vars, bindings)[i],
            ),
    decreases vars.len(),
{
    if vars.len() > 0 {
        let last = vars.last();
        assert(round_trip::is_plain(vars[vars.len() - 1].name) && is_kept(
            place,
            op,
            last,
            bindings[last.name],
        ));
        let stops = render::stops(place, op, last.modifier);
        assert forall|i: int| 0 <= i < stops.len() implies pieces::is_class_char(
            #[trigger] stops[i],
        ) by {
            assert(stops[i] == '/' || stops[i] == '?' || stops[i] == '#' || stops[i]
                == ser::op_separator(op));
        }
        lemma_capture_name_plain(last);
        assert(pieces::is_clean(group_for(place, op, last, bindings)));
        if vars.len() > 1 {
            let before = vars.drop_last();
            assert forall|i: int| 0 <= i < before.len() implies round_trip::is_plain(
                (#[trigger] before[i]).name,
            ) && is_kept(place, op, before[i], bindings[before[i].name]) by {
                assert(before[i] == vars[i]);
            }
            lemma_vars_clean(place, op, before, bindings);
            let first = vars_pieces(place, op, before, bindings);
            assert forall|i: int|
                0 <= i < vars_pieces(place, op, vars, bindings).len() implies pieces::is_clean(
                #[trigger] vars_pieces(place, op, vars, bindings)[i],
            ) by {
                if i < first.len() {
                    assert(pieces::is_clean(first[i]));
                }
            }
        }
    }
}

proof fn lemma_template_pieces(
    template: SpecOfParsed,
    bindings: Map<Seq<char>, ser::SpecOfBinding>,
    policy: FillPolicy,
)
    requires
        are_written_out(template.before_query(), policy, bindings),
    ensures
        pieces::pattern_of(template_pieces(template, bindings)) == render::template_re(template),
        ser::parts_expansion(template.before_query(), policy, bindings) == Ok::<
            Seq<char>,
            ser::SpecOfError,
        >(pieces::text_of(template_pieces(template, bindings))),
        pieces::groups_of(template_pieces(template, bindings)) == taken_by(
            round_trip::ops_of(template.before_query()),
            binding::path_vars(template),
            bindings,
        ),
{
    let auth = parser::section_parts(template.auth);
    let path = template.path;
    let vars = binding::path_vars(template);
    let list = template_pieces(template, bindings);
    round_trip::lemma_vars_concat(auth, path);
    round_trip::lemma_ops_concat(auth, path);
    round_trip::lemma_ops_len(auth);
    assert forall|i: int| 0 <= i < auth.len() implies match (#[trigger] auth[i]).expression() {
        None => true,
        Some(e) => is_path_op(e.operator) && is_written_out(e, policy, bindings),
    } by {
        assert(template.before_query()[i] == auth[i]);
    }
    assert forall|i: int| 0 <= i < path.len() implies match (#[trigger] path[i]).expression() {
        None => true,
        Some(e) => is_path_op(e.operator) && is_written_out(e, policy, bindings),
    } by {
        assert(template.before_query()[auth.len() + i] == path[i]);
    }
    lemma_parts_pieces(true, auth, bindings, policy);
    lemma_parts_pieces(false, path, bindings, policy);
    pieces::lemma_concat(
        parts_pieces(true, auth, bindings),
        parts_pieces(false, path, bindings),
    );
    lemma_expansion_concat(auth, path, policy, bindings);
    lemma_taken(auth, bindings);
    lemma_taken(path, bindings);
    round_trip::lemma_ops_len(path);
    let ops = round_trip::ops_of(template.before_query());
    let groups = taken_by(ops, vars, bindings);
    let in_auth = taken_by_parts(auth, bindings);
    let in_path = taken_by_parts(path, bindings);
    assert(pieces::groups_of(list) == in_auth + in_path);
    assert forall|i: int| 0 <= i < groups.len() implies #[trigger] groups[i] == (in_auth
        + in_path)[i] by {
        if i < in_auth.len() {
            assert(ops[i] == round_trip::ops_of(auth)[i]);
            assert(vars[i] == parser::vars_of(auth)[i]);
        } else {
            assert(ops[i] == round_trip::ops_of(path)[i - in_auth.len()]);
            assert(vars[i] == parser::vars_of(path)[i - in_auth.len()]);
        }
    }
    assert(in_auth + in_path =~= groups);
}

proof fn lemma_template_fits(
    template: SpecOfParsed,
    bindings: Map<Seq<char>, ser::SpecOfBinding>,
)
    requires
        is_taken(template, bindings),
    ensures
        pieces::fits(template_pieces(template, bindings)),
{
    let auth = parser::section_parts(template.auth);
    let vars = binding::path_vars(template);
    let in_auth = parser::vars_of(auth);
    let in_path = parser::vars_of(template.path);
    let list = template_pieces(template, bindings);
    let first = parts_pieces(true, auth, bindings);
    let second = parts_pieces(false, template.path, bindings);
    round_trip::lemma_vars_concat(auth, template.path);
    assert forall|i: int| 0 <= i < in_auth.len() implies round_trip::is_plain(
        (#[trigger] in_auth[i]).name,
    ) by {
        assert(vars[i] == in_auth[i]);
    }
    assert forall|i: int| 0 <= i < in_path.len() implies round_trip::is_plain(
        (#[trigger] in_path[i]).name,
    ) by {
        assert(vars[in_auth.len() + i] == in_path[i]);
    }
    lemma_pieces_clean(true, auth, bindings);
    lemma_pieces_clean(false, template.path, bindings);
    assert forall|i: int| 0 <= i < list.len() implies pieces::is_clean(#[trigger] list[i])
        && pieces::is_stopped(list, i) by {
        if i < first.len() {
            assert(pieces::is_clean(first[i]));
        } else {
            assert(list[i] == second[i - first.len()]);
        }
        assert(list[i] is Lit || pieces::is_stopped(list, i));
    }
}

proof fn lemma_caught(template: SpecOfParsed, bindings: Map<Seq<char>, ser::SpecOfBinding>)
    requires
        is_readable(template, bindings),
    ensures
        round_trip::are_caught(
            taken_by(
                round_trip::ops_of(template.before_query()),
                binding::path_vars(template),
                bindings,
            ),
            round_trip::ops_of(template.before_query()),
            binding::path_vars(template),
            bindings,
        ),
{
    let vars = binding::path_vars(template);
    let ops = round_trip::ops_of(template.before_query());
    let groups = taken_by(ops, vars, bindings);
    assert forall|i: int| 0 <= i < vars.len() implies round_trip::is_decodable(
        ops[i],
        #[trigger] vars[i],
        bindings[vars[i].name],
    ) && binding::captured(groups, render::capture_name(vars[i])) == Some(
        round_trip::group_value(ops[i], vars[i], bindings[vars[i].name]),
    ) by {
        assert(groups[i] == (
            render::capture_name(vars[i]),
            Some(round_trip::group_value(ops[i], vars[i], bindings[vars[i].name])),
        ));
        assert forall|j: int| 0 <= j < i implies (#[trigger] groups[j]).0 != groups[i].0 by {
            assert(groups[j].0 == render::capture_name(vars[j]));
            assert(groups[i].0 == render::capture_name(vars[i]));
        }
        lemma_place_of(groups, i, 0);
    }
}

proof fn lemma_taken_is_written_out(
    template: SpecOfParsed,
    policy: FillPolicy,
    bindings: Map<Seq<char>, ser::SpecOfBinding>,
)
    requires
        is_taken(template, bindings),
    ensures
        are_written_out(template.before_query(), policy, bindings),
{
    let auth = parser::section_parts(template.auth);
    let path = template.path;
    round_trip::lemma_vars_concat(auth, path);
    lemma_given_concat(parser::vars_of(auth), parser::vars_of(path), bindings);
    lemma_given_is_written_out(true, auth, policy, bindings);
    lemma_given_is_written_out(false, path, policy, bindings);
    assert forall|i: int| 0 <= i < template.before_query().len() implies match (
    #[trigger] template.before_query()[i]).expression() {
        None => true,
        Some(e) => is_path_op(e.operator) && is_written_out(e, policy, bindings),
    } by {
        if i < auth.len() {
            assert(template.before_query()[i] == auth[i]);
        } else {
            assert(template.before_query()[i] == path[i - auth.len()]);
        }
    }
}

/// Values that the groups of a template's regular expression can take are values that it matches.
pub proof fn law_taken_is_matched(
    template: SpecOfParsed,
    policy: FillPolicy,
    bindings: Map<Seq<char>, ser::SpecOfBinding>,
)
    requires
        is_taken(template, bindings),
    ensures
        is_matched(template, policy, bindings),
{
    let list = template_pieces(template, bindings);
    let short = pieces::cut(list);
    lemma_taken_is_written_out(template, policy, bindings);
    lemma_template_fits(template, bindings);
    if list.len() > 0 {
        assert(pieces::is_clean(list[list.len() - 1]));
        pieces::lemma_cut_clean(list.last(), short.last());
        pieces::lemma_cut(list);
    }
}

/// What a template writes before the query, for values that the groups of its regular expression
/// can take, is made of pieces that fit that expression, with each group at what was written for
/// its variable.
pub proof fn law_groups_take_what_is_written(
    template: SpecOfParsed,
    policy: FillPolicy,
    bindings: Map<Seq<char>, ser::SpecOfBinding>,
)
    requires
        is_taken(template, bindings),
    ensures
        pieces::fits(template_pieces(template, bindings)),
        pieces::pattern_of(template_pieces(template, bindings)) == render::template_re(template),
        ser::parts_expansion(template.before_query(), policy, bindings) == Ok::<
            Seq<char>,
            ser::SpecOfError,
        >(pieces::text_of(template_pieces(template, bindings))),
        pieces::groups_of(template_pieces(template, bindings)) == taken_by(
            round_trip::ops_of(template.before_query()),
            binding::path_vars(template),
            bindings,
        ),
{
    lemma_taken_is_written_out(template, policy, bindings);
    lemma_template_pieces(template, bindings, policy);
    lemma_template_fits(template, bindings);
}

/// The regular expression of a template finds something in every text that begins with what the
/// template writes before the query, for all values that it matches.
pub proof fn law_regex_matches_what_is_written(template: SpecOfParsed)
    requires
        backend::is_matcher(render::template_re(template)),
    ensures
        is_regex_for(template, render::template_re(template)),
{
    let pattern = render::template_re(template);
    assert forall|
        policy: FillPolicy,
        bindings: Map<Seq<char>, ser::SpecOfBinding>,
        uri: Seq<char>,
    |
        is_matched(template, policy, bindings) && #[trigger] is_begun_by(
            template,
            policy,
            bindings,
            uri,
        ) implies backend::regex_captures(pattern, uri) is Some by {
        let list = template_pieces(template, bindings);
        let short = pieces::cut(list);
        lemma_template_pieces(template, bindings, policy);
        if list.len() > 0 {
            assert(pieces::is_clean(short[short.len() - 1]));
        }
        assert forall|i: int| 0 <= i < list.len() - 1 implies pieces::is_clean(
            #[trigger] list[i],
        ) by {
            assert(short[i] == list[i]);
        }
        pieces::lemma_cut(list);
        text::law_begins_with(uri, pieces::text_of(list), pieces::text_of(short));
        assert(pieces::pattern_of(short) == pattern);
    }
}

/// A URI that a template writes for values begins with what it writes before the query.
pub proof fn law_uri_begins_with_its_path(
    template: SpecOfParsed,
    policy: FillPolicy,
    bindings: Map<Seq<char>, ser::SpecOfBinding>,
    uri: Seq<char>,
)
    requires
        ser::parts_expansion(template.parts(), policy, bindings) == Ok::<
            Seq<char>,
            ser::SpecOfError,
        >(uri),
    ensures
        is_begun_by(template, policy, bindings, uri),
{
    let query = parser::section_parts(template.query);
    let fragment = parser::section_parts(template.fragment);
    assert(template.parts() =~= template.before_query() + (query + fragment));
    lemma_expansion_begins(template.before_query(), query + fragment, policy, bindings);
}

proof fn lemma_expansion_begins(
    a: Seq<SpecOfPart>,
    b: Seq<SpecOfPart>,
    policy: FillPolicy,
    bindings: Map<Seq<char>, ser::SpecOfBinding>,
)
    requires
        ser::parts_expansion(a + b, policy, bindings) is Ok,
    ensures
        ser::parts_expansion(a, policy, bindings) is Ok,
        text::begins_with(
            ser::parts_expansion(a + b, policy, bindings)->Ok_0,
            ser::parts_expansion(a, policy, bindings)->Ok_0,
        ),
    decreases b.len(),
{
    let whole = ser::parts_expansion(a + b, policy, bindings)->Ok_0;
    if b.len() == 0 {
        assert(a + b =~= a);
        assert(whole.take(whole.len() as int) =~= whole);
    } else {
        assert((a + b).drop_last() =~= a + b.drop_last());
        lemma_expansion_begins(a, b.drop_last(), policy, bindings);
        let middle = ser::parts_expansion(a + b.drop_last(), policy, bindings)->Ok_0;
        let first = ser::parts_expansion(a, policy, bindings)->Ok_0;
        assert(whole.take(middle.len() as int) =~= middle);
        text::law_begins_with(whole, middle, first);
    }
}

/// The regular expression of a template finds something in every URI that the template gives for a
/// map or a struct, if it matches the values.
pub proof fn law_regex_matches_what_is_expanded(
    template: SpecOfParsed,
    pattern: Seq<char>,
    policy: FillPolicy,
    context: Value,
    bindings: Map<Seq<char>, ser::SpecOfBinding>,
)
    requires
        is_regex_for(template, pattern),
        is_context_of(context, template, policy, bindings),
        is_matched(template, policy, bindings),
        serializer::filled(template, policy, context) is Ok,
    ensures
        backend::regex_captures(
            pattern,
            serializer::filled(template, policy, context)->Ok_0,
        ) is Some,
{
    let names = serializer::template_names(template);
    assert(serializer::unbound(names).dom() =~= bindings.dom());
    lemma_bound_by_name(
        policy,
        serializer::unbound(names),
        context->Entries_2@,
        bindings,
    );
    law_uri_begins_with_its_path(
        template,
        policy,
        bindings,
        serializer::filled(template, policy, context)->Ok_0,
    );
}

/// A URI that a template writes for values that it can read back fits the regular expression of the
/// template: the groups take what was written for them, and these values are what is read.
pub proof fn law_written_uri_fits_the_regex(
    template: SpecOfParsed,
    policy: FillPolicy,
    bindings: Map<Seq<char>, ser::SpecOfBinding>,
    uri: SpecOfUri,
)
    requires
        is_readable(template, bindings),
        is_written_as(template, policy, bindings, uri),
    ensures
        pieces::fits(template_pieces(template, bindings)),
        pieces::pattern_of(template_pieces(template, bindings)) == render::template_re(template),
        pieces::text_of(template_pieces(template, bindings)) == binding::url_of(uri),
        binding::bound(
            template,
            uri.query,
            pieces::groups_of(template_pieces(template, bindings)),
        ) == Ok::<Seq<(Seq<char>, SpecOfBinding)>, crate::SpecOfError>(
            round_trip::read_bindings(template, bindings),
        ),
{
    let list = template_pieces(template, bindings);
    law_groups_take_what_is_written(template, policy, bindings);
    lemma_caught(template, bindings);
    let groups = pieces::groups_of(list);
    round_trip::lemma_given(template, bindings);
    if template.query is Some {
        let parts = template.query->0;
        if parts.len() == 0 {
            assert(ser::parts_expansion(parts, policy, bindings)->Ok_0.len() == 0);
        } else {
            law_query_section_is_written(parts, policy, bindings);
            assert((seq!['?'] + uri.query->0).skip(1) =~= uri.query->0);
        }
    }
    round_trip::law_values_are_read_back(template, bindings, uri.query, groups);
}

/// What a template writes for values before the query.
pub open spec fn written_url(
    template: SpecOfParsed,
    bindings: Map<Seq<char>, ser::SpecOfBinding>,
) -> Seq<char> {
    pieces::text_of(template_pieces(template, bindings))
}

/// Whether entries are these values by their names.
pub open spec fn are_entries_of(
    entries: Seq<(Value, Value)>,
    bindings: Map<Seq<char>, ser::SpecOfBinding>,
) -> bool {
    &&& forall|i: int|
        0 <= i < entries.len() ==> {
            &&& serializer::key_text((#[trigger] entries[i]).0) is Ok
            &&& bindings.dom().contains(serializer::key_text(entries[i].0)->Ok_0)
            &&& serializer::binding_of(entries[i].1) == Ok::<ser::SpecOfBinding, ser::SpecOfError>(
                bindings[serializer::key_text(entries[i].0)->Ok_0],
            )
        }
    &&& forall|name: Seq<char>| #[trigger]
        bindings.dom().contains(name) ==> exists|i: int|
            0 <= i < entries.len() && serializer::key_text((#[trigger] entries[i]).0) == Ok::<
                Seq<char>,
                ser::SpecOfError,
            >(name)
}

/// Whether a value is a map or a struct with these values for the variables of a template, and no
/// others.
pub open spec fn is_context_of(
    context: Value,
    template: SpecOfParsed,
    policy: FillPolicy,
    bindings: Map<Seq<char>, ser::SpecOfBinding>,
) -> bool {
    let names = serializer::template_names(template);
    &&& context matches Value::Entries(_, len, entries)
    &&& are_entries_of(entries@, bindings)
    &&& serializer::count_error(policy, len, names.len()) is None
    &&& forall|name: Seq<char>| #[trigger] bindings.dom().contains(name) <==> names.contains(name)
}

proof fn lemma_bound_by_name(
    policy: FillPolicy,
    vals: Map<Seq<char>, ser::SpecOfBinding>,
    entries: Seq<(Value, Value)>,
    bindings: Map<Seq<char>, ser::SpecOfBinding>,
)
    requires
        vals.dom() == bindings.dom(),
        forall|i: int|
            0 <= i < entries.len() ==> {
                &&& serializer::key_text((#[trigger] entries[i]).0) is Ok
                &&& bindings.dom().contains(serializer::key_text(entries[i].0)->Ok_0)
                &&& serializer::binding_of(entries[i].1) == Ok::<
                    ser::SpecOfBinding,
                    ser::SpecOfError,
                >(bindings[serializer::key_text(entries[i].0)->Ok_0])
            },
        forall|name: Seq<char>| #[trigger]
            bindings.dom().contains(name) ==> vals[name] == bindings[name]
                || exists|i: int|
                0 <= i < entries.len() && serializer::key_text((#[trigger] entries[i]).0) == Ok::<
                    Seq<char>,
                    ser::SpecOfError,
                >(name),
    ensures
        serializer::bound_by_name(policy, vals, entries) == Ok::<
            Map<Seq<char>, ser::SpecOfBinding>,
            ser::SpecOfError,
        >(bindings),
    decreases entries.len(),
{
    if entries.len() == 0 {
        assert(vals =~= bindings);
    } else {
        let name = serializer::key_text(entries[0].0)->Ok_0;
        let next = vals.insert(name, bindings[name]);
        let rest = entries.skip(1);
        assert(next.dom() =~= bindings.dom());
        assert forall|i: int| 0 <= i < rest.len() implies {
            &&& serializer::key_text((#[trigger] rest[i]).0) is Ok
            &&& bindings.dom().contains(serializer::key_text(rest[i].0)->Ok_0)
            &&& serializer::binding_of(rest[i].1) == Ok::<ser::SpecOfBinding, ser::SpecOfError>(
                bindings[serializer::key_text(rest[i].0)->Ok_0],
            )
        } by {
            assert(rest[i] == entries[i + 1]);
        }
        assert forall|other: Seq<char>| #[trigger] bindings.dom().contains(other) implies next[other]
            == bindings[other] || exists|i: int|
            0 <= i < rest.len() && serializer::key_text((#[trigger] rest[i]).0) == Ok::<
                Seq<char>,
                ser::SpecOfError,
            >(other) by {
            if other != name && vals[other] != bindings[other] {
                let i = choose|i: int|
                    0 <= i < entries.len() && serializer::key_text((#[trigger] entries[i]).0)
                        == Ok::<Seq<char>, ser::SpecOfError>(other);
                assert(rest[i - 1] == entries[i]);
            }
        }
        lemma_bound_by_name(policy, next, rest, bindings);
    }
}

/// Expanding a template with values that it can read back writes a URI whose parts are such that
/// contracting them gives these values again.
pub proof fn law_expanded_is_read_back(
    template: SpecOfParsed,
    policy: FillPolicy,
    bindings: Map<Seq<char>, ser::SpecOfBinding>,
    context: Value,
)
    requires
        is_readable(template, bindings),
        is_context_of(context, template, policy, bindings),
        single::expressions_of(parser::section_parts(template.fragment)).len() == 0,
        template.query is Some ==> template.query->0.len() > 0,
    ensures
        serializer::filled(template, policy, context) == Ok::<Seq<char>, ser::SpecOfError>(
            written_url(template, bindings) + (if template.query is Some {
                seq!['?'] + round_trip::written_query(template, bindings)
            } else {
                Seq::empty()
            }) + render::parts_text(parser::section_parts(template.fragment)),
        ),
        forall|uri: SpecOfUri|
            #![trigger is_written_as(template, policy, bindings, uri)]
            binding::url_of(uri) == written_url(template, bindings) && (template.query is Some
                ==> uri.query == Some(round_trip::written_query(template, bindings)))
                ==> is_written_as(
                template,
                policy,
                bindings,
                uri,
            ),
{
    let auth = parser::section_parts(template.auth);
    let query = parser::section_parts(template.query);
    let fragment = parser::section_parts(template.fragment);
    let names = serializer::template_names(template);
    let entries = context->Entries_2@;
    assert(serializer::unbound(names).dom() =~= bindings.dom());
    lemma_bound_by_name(policy, serializer::unbound(names), entries, bindings);

    lemma_taken_is_written_out(template, policy, bindings);
    lemma_template_pieces(template, bindings, policy);
    round_trip::lemma_given(template, bindings);
    assert(ser::parts_expansion(template.before_query(), policy, bindings) == Ok::<
        Seq<char>,
        ser::SpecOfError,
    >(written_url(template, bindings)));
    if template.query is Some {
        let whole = round_trip::written_section(query, bindings);
        law_query_section_is_written(query, policy, bindings);
        assert(whole =~= seq!['?'] + whole.skip(1));
    }
    lemma_expansion_concat(template.before_query(), query, policy, bindings);
    laws::lemma_closed_expansion(fragment, policy, bindings);
    lemma_expansion_concat(template.before_query() + query, fragment, policy, bindings);
}

/// A list that is read as one text with commas between its items gives the items to a field that is
/// a sequence, if none of them holds a comma.
pub proof fn law_whole_list_fills_a_field(
    key: Seq<char>,
    items: Seq<Seq<char>>,
    wanted: Seq<char>,
)
    requires
        items.len() > 0,
        forall|i: int| 0 <= i < items.len() ==> !(#[trigger] items[i]).contains(','),
    ensures
        deserializer::inner_sequence(
            Some(deserializer::SpecOfKey::Key(key)),
            SpecOfBinding::Scalar(round_trip::single_text(ser::SpecOfBinding::List(items))),
            wanted,
        ) == Ok::<Option<Seq<(Seq<char>, SpecOfBinding)>>, de::SpecOfKind>(
            Some(deserializer::items_numbered(items)),
        ),
{
    text::law_split_undoes_join(items, ',');
}

/// A list that an expression such as `{/list*}` has written gives its items to a field that is a
/// sequence.
///
/// An expression such as `{.list*}` writes a dot in an item as it is, so there the items are those
/// without one.
pub proof fn law_path_list_fills_a_field(
    op: Op,
    key: Option<deserializer::SpecOfKey>,
    items: Seq<Seq<char>>,
    wanted: Seq<char>,
)
    requires
        !escape::lets_reserved_through(op),
        items.len() > 0,
        op == Op::Label ==> forall|i: int|
            0 <= i < items.len() ==> !escape::escaped_text(op, #[trigger] items[i]).contains('.'),
    ensures
        deserializer::inner_sequence(
            key,
            SpecOfBinding::PathExplode(
                ser::op_separator(op),
                ser::list_text(op, ser::op_separator(op), items),
            ),
            wanted,
        ) == Ok::<Option<Seq<(Seq<char>, SpecOfBinding)>>, de::SpecOfKind>(
            Some(deserializer::items_numbered(items)),
        ),
{
    round_trip::law_path_list_is_read_back(op, items);
}

} // verus!
