//! What a template that was read is made of.
use crate::complete;
use crate::grammar;
use crate::grammar::Section;
use crate::parser;
use crate::parser::{Op, SpecOfExpression, SpecOfPart, VarMod};
use crate::text;
use vstd::prelude::*;

verus! {

/// Whether all the values of an expression are written in one piece.
pub open spec fn is_in_pieces(e: SpecOfExpression) -> bool {
    forall|i: int| 0 <= i < e.vars.len() ==> (#[trigger] e.vars[i]).modifier != VarMod::Explode
}

/// Whether a part can stand in a section. What stands for itself is no empty text. An expression
/// with a slash takes segments of the path, and all that are left if one of its values is exploded.
pub open spec fn is_part(section: Section, part: SpecOfPart) -> bool {
    match part {
        SpecOfPart::Lit(l) => l.len() > 0 && complete::is_token_text(section, l),
        SpecOfPart::Expression(e) => complete::is_expression(e) && e.operator != Op::Path,
        SpecOfPart::SegPathVar(e) => complete::is_expression(e) && e.operator == Op::Path
            && is_in_pieces(e),
        SpecOfPart::SegPathRest(e) => complete::is_expression(e) && e.operator == Op::Path
            && !is_in_pieces(e),
        SpecOfPart::SegRest(e) => complete::is_expression(e) && e.operator == Op::Simple
            && !is_in_pieces(e) && section == Section::Path,
    }
}

/// Whether a part can follow another: what stands for itself is not in two pieces, and no exploded
/// value behind a slash in the path leaves the slash alone.
pub open spec fn can_follow(section: Section, before: SpecOfPart, part: SpecOfPart) -> bool {
    before matches SpecOfPart::Lit(l) ==> match part {
        SpecOfPart::Lit(_) => false,
        SpecOfPart::Expression(e) => !(section == Section::Path && e.operator == Op::Simple
            && !is_in_pieces(e) && l.len() > 0 && l.last() == '/'),
        _ => true,
    }
}

/// Whether parts make a section.
pub open spec fn are_parts(section: Section, parts: Seq<SpecOfPart>) -> bool {
    &&& forall|i: int| 0 <= i < parts.len() ==> is_part(section, #[trigger] parts[i])
    &&& forall|i: int, j: int|
        #![trigger parts[i], parts[j]]
        0 <= i < parts.len() && j == i + 1 && j < parts.len() ==> can_follow(
            section,
            parts[i],
            parts[j],
        )
}

proof fn lemma_var(s: Seq<char>)
    requires
        grammar::var_of(s) is Some,
    ensures
        complete::is_variable(grammar::var_of(s)->0),
{
    let var = grammar::var_of(s)->0;
    let colon = grammar::find(s, ':', 0);
    complete::law_names_of_variables(var.name);
    if colon < s.len() {
        let length = s.skip(colon + 1);
        grammar::lemma_number_bound(length);
        grammar::lemma_number_text(length);
    }
}

proof fn lemma_vars(list: Seq<Seq<char>>)
    requires
        grammar::vars_of_texts(list) is Some,
    ensures
        grammar::vars_of_texts(list)->0.len() == list.len(),
        forall|i: int|
            0 <= i < list.len() ==> complete::is_variable(
                #[trigger] grammar::vars_of_texts(list)->0[i],
            ),
    decreases list.len(),
{
    if list.len() > 0 {
        lemma_vars(list.drop_last());
        lemma_var(list.last());
        let before = grammar::vars_of_texts(list.drop_last())->0;
        assert forall|i: int| 0 <= i < list.len() implies complete::is_variable(
            #[trigger] grammar::vars_of_texts(list)->0[i],
        ) by {
            if i < before.len() {
                assert(grammar::vars_of_texts(list)->0[i] == before[i]);
            }
        }
    }
}

proof fn lemma_expression(body: Seq<char>)
    requires
        grammar::expression_of(body) is Some,
    ensures
        complete::is_expression(grammar::expression_of(body)->0),
{
    let list = if grammar::op_of(body) == Op::Simple {
        body
    } else {
        body.skip(1)
    };
    lemma_vars(text::split(list, ','));
    assert(text::split(list, ',').len() > 0);
}

proof fn lemma_own(section: Section, c: char)
    requires
        complete::is_hexadecimal(c),
    ensures
        complete::is_own(section, c),
{
}

proof fn lemma_literal(section: Section, l: Seq<char>, i: int)
    requires
        0 <= i <= l.len(),
        grammar::is_literal_from(section, l, i),
    ensures
        forall|j: int|
            i <= j < l.len() ==> complete::is_own(section, #[trigger] l[j]) || l[j]
                == complete::first_mark(section) || l[j] == '%' && complete::has_digits_behind(l, j),
    decreases l.len() - i,
{
    if i < l.len() {
        complete::law_literal_characters(section, l[i]);
        if grammar::is_escape(l, i) {
            lemma_literal(section, l, i + 3);
            lemma_own(section, l[i + 1]);
            lemma_own(section, l[i + 2]);
            assert(complete::has_digits_behind(l, i));
        } else {
            lemma_literal(section, l, i + 1);
        }
    }
}

proof fn lemma_in_pieces(e: SpecOfExpression)
    ensures
        is_in_pieces(e) <==> !grammar::has_explode(e),
{
    if !is_in_pieces(e) {
        let i = choose|i: int|
            0 <= i < e.vars.len() && (#[trigger] e.vars[i]).modifier == VarMod::Explode;
        assert(e.vars[i].modifier == VarMod::Explode);
    }
}

proof fn lemma_push(section: Section, parts: Seq<SpecOfPart>, part: SpecOfPart)
    requires
        are_parts(section, parts),
        is_part(section, part),
        parts.len() > 0 ==> can_follow(section, parts.last(), part),
    ensures
        are_parts(section, parts.push(part)),
{
    let all = parts.push(part);
    assert forall|i: int| 0 <= i < all.len() implies is_part(section, #[trigger] all[i]) by {
        if i < parts.len() {
            assert(all[i] == parts[i]);
        }
    }
    assert forall|i: int, j: int|
        #![trigger all[i], all[j]]
        0 <= i < all.len() && j == i + 1 && j < all.len() implies can_follow(
        section,
        all[i],
        all[j],
    ) by {
        assert(all[i] == parts[i]);
        if j < parts.len() {
            assert(all[j] == parts[j]);
        }
    }
}

/// Parts without the last of them make a section too.
pub proof fn lemma_drop(section: Section, parts: Seq<SpecOfPart>)
    requires
        are_parts(section, parts),
        parts.len() > 0,
    ensures
        are_parts(section, parts.drop_last()),
{
    let fewer = parts.drop_last();
    assert forall|i: int| 0 <= i < fewer.len() implies is_part(section, #[trigger] fewer[i]) by {
        assert(fewer[i] == parts[i]);
    }
    assert forall|i: int, j: int|
        #![trigger fewer[i], fewer[j]]
        0 <= i < fewer.len() && j == i + 1 && j < fewer.len() implies can_follow(
        section,
        fewer[i],
        fewer[j],
    ) by {
        assert(fewer[i] == parts[i] && fewer[j] == parts[j]);
    }
}

proof fn lemma_push_expression(section: Section, parts: Seq<SpecOfPart>, e: SpecOfExpression)
    requires
        are_parts(section, parts),
        complete::is_expression(e),
    ensures
        are_parts(section, grammar::push_expression(section, parts, e)),
        grammar::push_expression(section, parts, e).len() > 0,
        grammar::push_expression(section, parts, e).last() !is Lit,
{
    lemma_in_pieces(e);
    if e.operator != Op::Path && grammar::takes_rest(section, parts, e) {
        let l = parts.last()->Lit_0;
        let fewer = parts.drop_last();
        assert(is_part(section, parts[parts.len() - 1]));
        lemma_drop(section, parts);
        if l.len() > 1 {
            let shorter = l.drop_last();
            assert forall|i: int| 0 <= i < shorter.len() implies complete::is_own(
                section,
                #[trigger] shorter[i],
            ) || shorter[i] == complete::first_mark(section) || shorter[i] == '%'
                && complete::has_digits_behind(shorter, i) by {
                assert(shorter[i] == l[i]);
                if l[i] == '%' && complete::has_digits_behind(l, i) {
                    assert(l[l.len() - 1] == '/');
                    assert(i + 2 != l.len() - 1);
                    assert(shorter[i + 1] == l[i + 1] && shorter[i + 2] == l[i + 2]);
                }
            }
            if fewer.len() > 0 {
                assert(can_follow(section, parts[parts.len() - 2], parts[parts.len() - 1]));
                assert(fewer.last() == parts[parts.len() - 2]);
            }
            lemma_push(section, fewer, SpecOfPart::Lit(shorter));
            let between = fewer.push(SpecOfPart::Lit(shorter));
            lemma_push(section, between, SpecOfPart::SegRest(e));
        } else {
            lemma_push(section, fewer, SpecOfPart::SegRest(e));
        }
    } else if e.operator != Op::Path {
        lemma_push(section, parts, SpecOfPart::Expression(e));
    } else if grammar::has_explode(e) {
        lemma_push(section, parts, SpecOfPart::SegPathRest(e));
    } else {
        lemma_push(section, parts, SpecOfPart::SegPathVar(e));
    }
}

proof fn lemma_parts(section: Section, s: Seq<char>, i: int, parts: Seq<SpecOfPart>)
    requires
        0 <= i <= s.len(),
        are_parts(section, parts),
        parts.len() > 0 && parts.last() is Lit ==> i == s.len() || s[i] == '{',
        grammar::parts_from(section, s, i, parts) is Some,
    ensures
        are_parts(section, grammar::parts_from(section, s, i, parts)->0),
    decreases s.len() - i,
{
    grammar::lemma_find(s, '{', i);
    grammar::lemma_find(s, '}', i);
    if i < s.len() {
        if s[i] == '{' {
            let close = grammar::find(s, '}', i);
            let body = s.subrange(i + 1, close);
            lemma_expression(body);
            let e = grammar::expression_of(body)->0;
            lemma_push_expression(section, parts, e);
            lemma_parts(section, s, close + 1, grammar::push_expression(section, parts, e));
        } else {
            let end = grammar::find(s, '{', i);
            let l = s.subrange(i, end);
            lemma_literal(section, l, 0);
            lemma_push(section, parts, SpecOfPart::Lit(l));
            lemma_parts(section, s, end, parts.push(SpecOfPart::Lit(l)));
        }
    }
}

/// Each section of a template that was read is made of parts that can stand in it and can follow one
/// another.
pub proof fn law_parts_are_of_their_kind(s: Seq<char>)
    requires
        grammar::template_of(s) is Some,
    ensures
        ({
            let template = grammar::template_of(s)->0;
            &&& are_parts(Section::Auth, parser::section_parts(template.auth))
            &&& are_parts(Section::Path, template.path)
            &&& are_parts(Section::Query, parser::section_parts(template.query))
            &&& are_parts(Section::Fragment, parser::section_parts(template.fragment))
        }),
{
    let fragment_start = grammar::start_from(Section::Fragment, s, 0, s.len() as int);
    let query_start = grammar::start_from(Section::Query, s, 0, fragment_start);
    let path_start = match grammar::authority_start(s) {
        Some(from) => grammar::start_from(Section::Path, s, from, query_start),
        None => 0,
    };
    lemma_section(Section::Auth, s.take(path_start));
    lemma_section(Section::Path, s.subrange(path_start, query_start));
    lemma_section(Section::Query, s.subrange(query_start, fragment_start));
    lemma_section(Section::Fragment, s.skip(fragment_start));
}

proof fn lemma_scheme(s: Seq<char>, i: int)
    requires
        0 <= i <= s.len(),
    ensures
        i <= grammar::scheme_end(s, i) <= s.len(),
        forall|j: int|
            i <= j < grammar::scheme_end(s, i) ==> grammar::is_scheme_char(#[trigger] s[j]),
    decreases s.len() - i,
{
    if i < s.len() && grammar::is_scheme_char(s[i]) {
        lemma_scheme(s, i + 1);
    }
}

/// Whether a text begins with a slash, with an expression that writes one, or with a scheme and an
/// authority.
pub open spec fn begins_well(s: Seq<char>) -> bool {
    ||| s.len() > 0 && s[0] == '/'
    ||| s.len() > 1 && s[0] == '{' && s[1] == '/'
    ||| exists|k: int|
        0 < k && k + 2 < s.len() && complete::is_scheme(#[trigger] s.take(k)) && s[k] == ':' && s[k
            + 1] == '/' && s[k + 2] == '/'
}

/// A text that begins in another way is no template, nor is one with two fragments.
pub proof fn law_what_is_no_template(s: Seq<char>, i: int, j: int)
    ensures
        !begins_well(s) ==> grammar::template_of(s) is None,
        0 <= i < j < s.len() && s[i] == '#' && s[j] == '#' ==> grammar::template_of(s) is None,
{
    let start = grammar::start_from(Section::Fragment, s, 0, s.len() as int);
    grammar::lemma_start_from(Section::Fragment, s, 0, s.len() as int);
    if 0 <= i < j < s.len() && s[i] == '#' && s[j] == '#' {
        assert(grammar::is_start(Section::Fragment, s, i));
        assert(grammar::is_start(Section::Fragment, s, j));
        let from = start + (if s[start] == '#' {
            1int
        } else {
            2
        });
        assert(start <= i);
        grammar::lemma_start_from(Section::Fragment, s, from, s.len() as int);
        assert(j >= from);
        assert(!grammar::is_last_fragment(s, start));
    }
    if grammar::authority_start(s) is Some && !(s[0] == '/') {
        let k = grammar::scheme_end(s, 0);
        lemma_scheme(s, 0);
        let scheme = s.take(k);
        assert(grammar::is_scheme_char(s[0]));
        assert(k > 0);
        assert forall|n: int| 0 <= n < scheme.len() implies complete::is_alphanumeric(
            #[trigger] scheme[n],
        ) || scheme[n] == '+' || scheme[n] == '-' || scheme[n] == '.' by {
            assert(grammar::is_scheme_char(s[n]));
        }
        assert(complete::is_scheme(scheme));
    }
}

proof fn lemma_section(section: Section, s: Seq<char>)
    ensures
        grammar::section_of(section, s) is Some ==> are_parts(
            section,
            grammar::section_of(section, s)->0,
        ),
        are_parts(section, Seq::empty()),
{
    if grammar::section_of(section, s) is Some {
        lemma_parts(section, s, 0, Seq::empty());
    }
}

} // verus!
