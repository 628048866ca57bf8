//! Values that can be written into every template.
use crate::backend;
use crate::complete;
use crate::escape;
use crate::given::SpecOfGiven;
use crate::grammar;
use crate::grammar::Section;
use crate::parser;
use crate::parser::{Op, SpecOfExpression, SpecOfPart, SpecOfVar, VarMod};
use crate::primitive;
use crate::render;
use crate::ser;
use crate::shape;
use crate::text;
use crate::writable;
use crate::writable::Held;
use vstd::prelude::*;

verus! {

/// Whether a text holds nothing but ASCII characters, and no percent sign.
pub open spec fn is_plain(v: Seq<char>) -> bool {
    forall|i: int| 0 <= i < v.len() ==> escape::is_ascii(#[trigger] v[i]) && v[i] != '%'
}

proof fn lemma_byte_len(v: Seq<char>, to: int)
    requires
        is_plain(v),
        0 <= to <= v.len(),
    ensures
        writable::byte_len(v, 0, to) == to,
    decreases to,
{
    if to > 0 {
        lemma_byte_len(v, to - 1);
        assert(escape::is_ascii(v[to - 1]));
    }
}

proof fn lemma_run(v: Seq<char>, i: int)
    requires
        is_plain(v),
        0 <= i <= v.len(),
    ensures
        writable::run_end(v, i) == v.len(),
    decreases v.len() - i,
{
    if i < v.len() {
        assert(v[i] != '%');
        lemma_run(v, i + 1);
    }
}

/// A text of ASCII characters without a percent sign can always be written, however many of its
/// characters are wanted. Any text can where all of it is wanted and reserved characters are escaped.
pub proof fn law_plain_texts_are_writable(
    lets_reserved: bool,
    limit: Option<int>,
    v: Seq<char>,
    any: Seq<char>,
)
    requires
        is_plain(v),
        limit matches Some(m) ==> m >= 0,
    ensures
        writable::is_writable(lets_reserved, limit, v),
        writable::is_writable(false, None, any),
{
    if v.len() > 0 {
        lemma_byte_len(v, v.len() - 1);
        if let Some(m) = limit {
            if 0 < m < v.len() {
                lemma_byte_len(v, m - 1);
            }
        }
        lemma_run(v, 1);
        assert(v[0] != '%' && escape::is_ascii(v[0]));
        let len = v.len() as int;
        let taken = writable::last_within(v, 0, len, limit);
        assert(limit matches Some(m) ==> m == 0 || taken < m);
        assert(writable::run_end(v, 1) == len);
        assert(writable::is_writable_from(v, len, Held::Nothing, writable::less(limit, taken)));
        assert(writable::is_writable_from(v, 0, Held::Nothing, limit));
    }
}

/// Whether a value holds only texts of ASCII characters without a percent sign.
pub open spec fn is_plain_value(value: SpecOfGiven) -> bool {
    match value {
        SpecOfGiven::Nothing => true,
        SpecOfGiven::Text(v) => is_plain(v),
        SpecOfGiven::List(items) => forall|i: int|
            0 <= i < items.len() ==> is_plain(#[trigger] items[i]),
        SpecOfGiven::Pairs(items) => forall|i: int|
            0 <= i < items.len() ==> is_plain((#[trigger] items[i]).0) && is_plain(items[i].1),
    }
}

proof fn lemma_plain_value(lets_reserved: bool, limit: Option<int>, value: SpecOfGiven)
    requires
        is_plain_value(value),
        limit matches Some(m) ==> m >= 0,
    ensures
        writable::is_given_writable(lets_reserved, limit, value),
{
    match value {
        SpecOfGiven::Nothing => {},
        SpecOfGiven::Text(v) => {
            law_plain_texts_are_writable(lets_reserved, limit, v, v);
        },
        SpecOfGiven::List(items) => {
            assert forall|i: int| 0 <= i < items.len() implies writable::is_writable(
                lets_reserved,
                None,
                #[trigger] items[i],
            ) by {
                law_plain_texts_are_writable(lets_reserved, None, items[i], items[i]);
            }
        },
        SpecOfGiven::Pairs(items) => {
            assert forall|i: int| 0 <= i < items.len() implies writable::is_writable(
                lets_reserved,
                None,
                (#[trigger] items[i]).0,
            ) && writable::is_writable(lets_reserved, None, items[i].1) by {
                law_plain_texts_are_writable(lets_reserved, None, items[i].0, items[i].0);
                law_plain_texts_are_writable(lets_reserved, None, items[i].1, items[i].1);
            }
        },
    }
}

/// The name of a variable is found in what stands for it in a template, and plain values can be
/// written for it.
pub proof fn law_variables_are_recognised(
    lets_reserved: bool,
    var: SpecOfVar,
    vars: Seq<(Seq<char>, SpecOfGiven)>,
)
    requires
        complete::is_variable(var),
        forall|i: int| 0 <= i < vars.len() ==> is_plain_value((#[trigger] vars[i]).1),
    ensures
        writable::name_of(ser::var_text(var)) == var.name,
        writable::are_writable(lets_reserved, ser::var_text(var), vars),
{
    let spec = ser::var_text(var);
    let name = var.name;
    complete::lemma_name_is_clean(name, ':');
    complete::lemma_name_is_clean(name, '*');
    let limit: Option<int> = match var.modifier {
        VarMod::Prefix(n) => Some(n as int),
        _ => None,
    };
    match var.modifier {
        VarMod::Prefix(n) => {
            let digits = text::decimal(n as nat);
            complete::lemma_length(n as nat);
            assert(!digits.contains(':'));
            text::lemma_split_of_one(name, ':');
            text::lemma_split_of_two(name, digits, ':');
            assert(spec =~= name.push(':') + digits);
            assert(spec.last() == digits[digits.len() - 1]);
            primitive::law_u16_is_read_exactly(digits, n);
            assert(text::split(spec, ':') =~= seq![name, digits]);
        },
        VarMod::Explode => {
            assert(!spec.contains(':')) by {
                assert forall|i: int| 0 <= i < spec.len() implies spec[i] != ':' by {
                    if i < name.len() {
                        assert(name.contains(name[i]));
                    }
                }
            }
            text::lemma_split_of_one(spec, ':');
            assert(spec.drop_last() =~= name);
        },
        VarMod::Whole => {
            text::lemma_split_of_one(spec, ':');
            assert(name.contains(name[name.len() - 1]));
        },
    }
    lemma_plain_value(lets_reserved, limit, SpecOfGiven::Nothing);
    assert forall|i: int|
        0 <= i < vars.len() && (#[trigger] vars[i]).0 == writable::name_of(
            spec,
        ) implies writable::is_spec_writable(lets_reserved, spec, vars[i].1) by {
        lemma_plain_value(lets_reserved, limit, vars[i].1);
    }
}

/// What stands between the braces of an expression is taken apart into its variables, and the two
/// operators that let reserved characters through are known.
pub proof fn law_expressions_are_recognised(e: SpecOfExpression)
    requires
        complete::is_expression(e),
    ensures
        writable::specs_of(render::body_text(e)) == render::var_texts(e.vars),
        writable::lets_reserved(render::body_text(e)) <==> e.operator == Op::Reserved || e.operator
            == Op::Fragment,
{
    let list = render::var_texts(e.vars);
    let joined = text::join(list, seq![',']);
    let body = render::body_text(e);
    complete::law_expressions_are_read(e);
    assert forall|i: int| 0 <= i < list.len() implies !(#[trigger] list[i]).contains(',') by {
        assert(complete::is_variable(e.vars[i]));
        complete::law_variables_are_read(e.vars[i]);
    }
    text::law_split_undoes_join(list, ',');
    if e.operator == Op::Simple {
        assert(body =~= joined);
    } else {
        assert(body.skip(1) =~= joined);
    }
}

proof fn lemma_split_longer(a: Seq<char>, b: Seq<char>, c: char)
    requires
        !b.contains(c),
    ensures
        text::split(a + b, c) == text::split(a, c).drop_last().push(text::split(a, c).last() + b),
        text::split(a, c).len() > 0,
    decreases b.len(),
{
    text::law_join_undoes_split(a, c);
    let before = text::split(a, c);
    if b.len() == 0 {
        assert(a + b =~= a);
        assert(before.last() + b =~= before.last());
        assert(before.drop_last().push(before.last()) =~= before);
    } else {
        let fewer = b.drop_last();
        assert forall|i: int| 0 <= i < fewer.len() implies fewer[i] != c by {
            assert(b.contains(b[i]));
        }
        assert(!fewer.contains(c));
        lemma_split_longer(a, fewer, c);
        assert(b.contains(b[b.len() - 1]));
        assert((a + b).drop_last() =~= a + fewer);
        assert((a + b).last() == b.last());
        let middle = text::split(a + fewer, c);
        assert(middle.drop_last() =~= before.drop_last());
        assert((before.last() + fewer).push(b.last()) =~= before.last() + b);
    }
}

/// Whether a part can stand in a template, without regard to its section.
pub open spec fn is_braced(part: SpecOfPart) -> bool {
    match part {
        SpecOfPart::Lit(l) => !l.contains('{') && !l.contains('}'),
        SpecOfPart::Expression(e) | SpecOfPart::SegPathVar(e) | SpecOfPart::SegPathRest(e)
        | SpecOfPart::SegRest(e) => complete::is_expression(e),
    }
}

/// What stands between braces in parts.
pub open spec fn hole_bodies(parts: Seq<SpecOfPart>) -> Seq<Seq<char>> {
    Seq::new(complete::holes(parts).len(), |i: int| render::body_text(complete::holes(parts)[i]))
}

proof fn lemma_first_piece(x: Seq<char>, l: Seq<char>)
    requires
        !l.contains('}'),
        x.contains('}'),
    ensures
        text::split(x + l, '}')[0] == text::split(x, '}')[0],
{
    lemma_split_longer(x, l, '}');
    let i = choose|i: int| 0 <= i < x.len() && x[i] == '}';
    let a = x.take(i);
    let b = x.skip(i + 1);
    assert(x =~= a.push('}') + b);
    text::law_split_concat(a, b, '}');
    text::law_join_undoes_split(a, '}');
    text::law_join_undoes_split(b, '}');
    assert(text::split(x, '}').len() >= 2);
}

proof fn lemma_bodies(parts: Seq<SpecOfPart>)
    requires
        forall|i: int| 0 <= i < parts.len() ==> is_braced(#[trigger] parts[i]),
    ensures
        writable::bodies(render::parts_text(parts)) == hole_bodies(parts),
        text::split(render::parts_text(parts), '{').len() == complete::holes(parts).len() + 1,
        forall|k: int|
            1 <= k < text::split(render::parts_text(parts), '{').len() ==> (#[trigger] text::split(
                render::parts_text(parts),
                '{',
            )[k]).contains('}'),
    decreases parts.len(),
{
    let s = render::parts_text(parts);
    if parts.len() == 0 {
        assert(s =~= Seq::empty());
        assert(writable::bodies(s) =~= hole_bodies(parts));
    } else {
        let before = parts.drop_last();
        assert forall|i: int| 0 <= i < before.len() implies is_braced(#[trigger] before[i]) by {
            assert(before[i] == parts[i]);
        }
        lemma_bodies(before);
        assert(is_braced(parts[parts.len() - 1]));
        let t = render::parts_text(before);
        match parts.last() {
            SpecOfPart::Lit(l) => {
                lemma_add_literal(t, l);
                assert(hole_bodies(parts) =~= hole_bodies(before));
            },
            SpecOfPart::Expression(e) | SpecOfPart::SegPathVar(e) | SpecOfPart::SegPathRest(e) => {
                lemma_add_expression(t, e);
                assert(complete::holes(parts) == complete::holes(before).push(e));
                assert(hole_bodies(parts) =~= hole_bodies(before).push(render::body_text(e)));
            },
            SpecOfPart::SegRest(e) => {
                let slash = seq!['/'];
                assert(!slash.contains('{') && !slash.contains('}'));
                lemma_add_literal(t, slash);
                lemma_add_expression(t + slash, e);
                assert(t + (slash + render::expression_text(e)) =~= t + slash
                    + render::expression_text(e));
                assert(complete::holes(parts) == complete::holes(before).push(e));
                assert(hole_bodies(parts) =~= hole_bodies(before).push(render::body_text(e)));
            },
        }
    }
}

proof fn lemma_add_literal(t: Seq<char>, l: Seq<char>)
    requires
        !l.contains('{'),
        !l.contains('}'),
        text::split(t, '{').len() > 0,
        forall|k: int|
            1 <= k < text::split(t, '{').len() ==> (#[trigger] text::split(t, '{')[k]).contains('}'),
    ensures
        writable::bodies(t + l) == writable::bodies(t),
        text::split(t + l, '{').len() == text::split(t, '{').len(),
        forall|k: int|
            1 <= k < text::split(t + l, '{').len() ==> (#[trigger] text::split(
                t + l,
                '{',
            )[k]).contains('}'),
{
    let one = text::split(t, '{');
    let two = text::split(t + l, '{');
    lemma_split_longer(t, l, '{');
    let last = one.len() - 1;
    assert forall|k: int| 1 <= k < two.len() implies (#[trigger] two[k]).contains('}')
        && text::split(two[k], '}')[0] == text::split(one[k], '}')[0] by {
        assert(one[k].contains('}'));
        if k == last {
            let x = one[k];
            assert(two[k] == x + l);
            let i = choose|i: int| 0 <= i < x.len() && x[i] == '}';
            assert((x + l)[i] == '}');
            lemma_first_piece(x, l);
        } else {
            assert(two[k] == one[k]);
        }
    }
    assert(writable::bodies(t + l) =~= writable::bodies(t));
}

proof fn lemma_add_expression(t: Seq<char>, e: SpecOfExpression)
    requires
        complete::is_expression(e),
        text::split(t, '{').len() > 0,
        forall|k: int|
            1 <= k < text::split(t, '{').len() ==> (#[trigger] text::split(t, '{')[k]).contains('}'),
    ensures
        ({
            let s = t + render::expression_text(e);
            &&& writable::bodies(s) == writable::bodies(t).push(render::body_text(e))
            &&& text::split(s, '{').len() == text::split(t, '{').len() + 1
            &&& forall|k: int|
                1 <= k < text::split(s, '{').len() ==> (#[trigger] text::split(s, '{')[k]).contains(
                    '}',
                )
        }),
{
    let body = render::body_text(e);
    let s = t + render::expression_text(e);
    let behind = body.push('}') + Seq::<char>::empty();
    complete::law_expressions_are_read(e);
    assert(!behind.contains('{')) by {
        assert forall|i: int| 0 <= i < behind.len() implies behind[i] != '{' by {
            if i < body.len() {
                assert(body.contains(body[i]));
            }
        }
    }
    assert(s =~= t.push('{') + behind);
    text::lemma_split_of_two(t, behind, '{');
    text::lemma_split_of_one(body, '}');
    assert(!Seq::<char>::empty().contains('}'));
    text::lemma_split_of_two(body, Seq::empty(), '}');
    assert(behind[body.len() as int] == '}');
    let one = text::split(t, '{');
    let two = text::split(s, '{');
    assert(two == one.push(behind));
    assert forall|k: int| 1 <= k < two.len() implies (#[trigger] two[k]).contains('}') by {
        if k < one.len() {
            assert(one[k].contains('}'));
        }
    }
    assert(writable::bodies(s) =~= writable::bodies(t).push(body));
}

/// Plain values can be written into every template.
pub proof fn law_plain_values_can_be_written(
    parts: Seq<SpecOfPart>,
    vars: Seq<(Seq<char>, SpecOfGiven)>,
)
    requires
        forall|i: int| 0 <= i < parts.len() ==> is_braced(#[trigger] parts[i]),
        forall|i: int| 0 <= i < vars.len() ==> is_plain_value((#[trigger] vars[i]).1),
    ensures
        writable::bodies(render::parts_text(parts)) == hole_bodies(parts),
        writable::is_expandable(render::parts_text(parts), vars),
{
    let s = render::parts_text(parts);
    lemma_bodies(parts);
    lemma_holes(parts);
    assert forall|k: int| 0 <= k < writable::bodies(s).len() implies writable::is_body_expandable(
        #[trigger] writable::bodies(s)[k],
        vars,
    ) by {
        let e = complete::holes(parts)[k];
        let body = writable::bodies(s)[k];
        assert(complete::is_expression(e));
        law_expressions_are_recognised(e);
        assert forall|j: int| 0 <= j < writable::specs_of(body).len() implies writable::are_writable(
            writable::lets_reserved(body),
            #[trigger] writable::specs_of(body)[j],
            vars,
        ) by {
            assert(complete::is_variable(e.vars[j]));
            law_variables_are_recognised(writable::lets_reserved(body), e.vars[j], vars);
        }
    }
}

proof fn lemma_braced(section: Section, parts: Seq<SpecOfPart>)
    requires
        shape::are_parts(section, parts),
    ensures
        forall|i: int| 0 <= i < parts.len() ==> is_braced(#[trigger] parts[i]),
{
    assert forall|i: int| 0 <= i < parts.len() implies is_braced(#[trigger] parts[i]) by {
        assert(shape::is_part(section, parts[i]));
        if let SpecOfPart::Lit(l) = parts[i] {
            assert forall|k: int| 0 <= k < l.len() implies l[k] != '{' && l[k] != '}' by {
                complete::law_literal_characters(section, l[k]);
            }
        }
    }
}

/// Plain values can be written into every template that was read.
pub proof fn law_plain_values_fit_what_was_read(s: Seq<char>, vars: Seq<(Seq<char>, SpecOfGiven)>)
    requires
        grammar::template_of(s) is Some,
        forall|i: int| 0 <= i < vars.len() ==> is_plain_value((#[trigger] vars[i]).1),
    ensures
        writable::is_expandable(s, vars),
{
    let template = grammar::template_of(s)->0;
    shape::law_parts_are_of_their_kind(s);
    lemma_braced(Section::Auth, parser::section_parts(template.auth));
    lemma_braced(Section::Path, template.path);
    lemma_braced(Section::Query, parser::section_parts(template.query));
    lemma_braced(Section::Fragment, parser::section_parts(template.fragment));
    law_plain_values_can_be_written(template.parts(), vars);
    grammar::law_round_trip(s);
}

proof fn lemma_holes(parts: Seq<SpecOfPart>)
    requires
        forall|i: int| 0 <= i < parts.len() ==> is_braced(#[trigger] parts[i]),
    ensures
        forall|k: int|
            0 <= k < complete::holes(parts).len() ==> complete::is_expression(
                #[trigger] complete::holes(parts)[k],
            ),
    decreases parts.len(),
{
    if parts.len() > 0 {
        let before = parts.drop_last();
        assert forall|i: int| 0 <= i < before.len() implies is_braced(#[trigger] before[i]) by {
            assert(before[i] == parts[i]);
        }
        lemma_holes(before);
        assert(is_braced(parts[parts.len() - 1]));
        assert forall|k: int| 0 <= k < complete::holes(parts).len() implies complete::is_expression(
            #[trigger] complete::holes(parts)[k],
        ) by {
            if k < complete::holes(before).len() {
                assert(complete::holes(parts)[k] == complete::holes(before)[k]);
            }
        }
    }
}

/// Whether a text holds nothing but ASCII characters.
pub open spec fn is_all_ascii(s: Seq<char>) -> bool {
    forall|i: int| 0 <= i < s.len() ==> escape::is_ascii(#[trigger] s[i])
}

proof fn lemma_ascii_join(list: Seq<Seq<char>>)
    requires
        forall|i: int| 0 <= i < list.len() ==> is_all_ascii(#[trigger] list[i]),
    ensures
        is_all_ascii(text::join(list, seq![','])),
    decreases list.len(),
{
    if list.len() == 1 {
        assert(is_all_ascii(list[0]));
    } else if list.len() > 1 {
        let before = list.drop_last();
        assert forall|i: int| 0 <= i < before.len() implies is_all_ascii(#[trigger] before[i]) by {
            assert(before[i] == list[i]);
        }
        lemma_ascii_join(before);
        assert(is_all_ascii(list[list.len() - 1]));
    }
}

proof fn lemma_ascii_var(var: SpecOfVar)
    requires
        complete::is_variable(var),
    ensures
        is_all_ascii(ser::var_text(var)),
{
    assert forall|i: int| 0 <= i < var.name.len() implies escape::is_ascii(
        #[trigger] var.name[i],
    ) by {
        assert(complete::is_varchar_at(var.name, i));
    }
    if let VarMod::Prefix(n) = var.modifier {
        complete::lemma_length(n as nat);
    }
}

proof fn lemma_ascii_expression(e: SpecOfExpression)
    requires
        complete::is_expression(e),
    ensures
        is_all_ascii(render::expression_text(e)),
{
    let list = render::var_texts(e.vars);
    assert forall|i: int| 0 <= i < list.len() implies is_all_ascii(#[trigger] list[i]) by {
        assert(complete::is_variable(e.vars[i]));
        lemma_ascii_var(e.vars[i]);
    }
    lemma_ascii_join(list);
}

proof fn lemma_ascii_own(section: Section, c: char)
    requires
        complete::is_own(section, c),
    ensures
        escape::is_ascii(c),
{
    complete::law_literal_characters(section, c);
}

proof fn lemma_ascii_parts(section: Section, parts: Seq<SpecOfPart>)
    requires
        shape::are_parts(section, parts),
    ensures
        is_all_ascii(render::parts_text(parts)),
    decreases parts.len(),
{
    if parts.len() > 0 {
        let last = parts[parts.len() - 1];
        shape::lemma_drop(section, parts);
        lemma_ascii_parts(section, parts.drop_last());
        assert(shape::is_part(section, last));
        match last {
            SpecOfPart::Lit(l) => {
                assert forall|i: int| 0 <= i < l.len() implies escape::is_ascii(#[trigger] l[i]) by {
                    if complete::is_own(section, l[i]) {
                        lemma_ascii_own(section, l[i]);
                    }
                }
            },
            SpecOfPart::Expression(e) | SpecOfPart::SegPathVar(e) | SpecOfPart::SegPathRest(e)
            | SpecOfPart::SegRest(e) => {
                lemma_ascii_expression(e);
            },
        }
    }
}

/// No character goes on two bytes behind a percent sign in a text of ASCII characters, and every
/// template is one.
pub proof fn law_templates_have_whole_escapes(s: Seq<char>)
    ensures
        is_all_ascii(s) ==> backend::has_whole_escapes(s),
        grammar::template_of(s) is Some ==> is_all_ascii(s) && backend::has_whole_escapes(s),
{
    if grammar::template_of(s) is Some {
        let template = grammar::template_of(s)->0;
        shape::law_parts_are_of_their_kind(s);
        lemma_ascii_parts(Section::Auth, parser::section_parts(template.auth));
        lemma_ascii_parts(Section::Path, template.path);
        lemma_ascii_parts(Section::Query, parser::section_parts(template.query));
        lemma_ascii_parts(Section::Fragment, parser::section_parts(template.fragment));
        render::law_parts_text_concat(parser::section_parts(template.auth), template.path);
        render::law_parts_text_concat(
            template.before_query(),
            parser::section_parts(template.query),
        );
        render::law_parts_text_concat(
            template.before_query() + parser::section_parts(template.query),
            parser::section_parts(template.fragment),
        );
        grammar::law_round_trip(s);
    }
    if is_all_ascii(s) {
        assert forall|i: int| #[trigger] backend::is_cut_between(s, i) by {
            if 0 <= i && i + 1 < s.len() {
                assert(escape::is_ascii(s[i + 1]));
                if i + 2 < s.len() {
                    assert(escape::is_ascii(s[i + 2]));
                }
            }
        }
    }
}

} // verus!
