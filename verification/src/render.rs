//! Templates as texts.
use crate::parser;
use crate::parser::{Expression, Op, Part, SpecOfExpression, SpecOfPart, SpecOfVar, VarMod, VarSpec};
use crate::ser;
use crate::ser::{prefix_for, separator_for};
use crate::text;
use crate::text::{char_text, chars_of, decimal_text, join_texts};
use vstd::prelude::*;

verus! {

broadcast use crate::text::texts_push;

/// The character that stands for an operator.
pub open spec fn op_mark(op: Op) -> Option<char> {
    match op {
        Op::Simple => None,
        Op::Reserved => Some('+'),
        Op::Fragment => Some('#'),
        Op::Label => Some('.'),
        Op::Path => Some('/'),
        Op::PathParam => Some(';'),
        Op::Query => Some('?'),
        Op::QueryCont => Some('&'),
    }
}

/// The variables as they stand in a template.
pub open spec fn var_texts(vars: Seq<SpecOfVar>) -> Seq<Seq<char>> {
    Seq::new(vars.len(), |i: int| ser::var_text(vars[i]))
}

/// What stands between the braces of an expression.
pub open spec fn body_text(e: SpecOfExpression) -> Seq<char> {
    ser::mark(op_mark(e.operator)) + text::join(var_texts(e.vars), seq![','])
}

/// The expression as it stands in a template.
pub open spec fn expression_text(e: SpecOfExpression) -> Seq<char> {
    seq!['{'] + body_text(e) + seq!['}']
}

/// The part as it stands in a template.
pub open spec fn part_text(part: SpecOfPart) -> Seq<char> {
    match part {
        SpecOfPart::Lit(l) => l,
        SpecOfPart::Expression(e) => expression_text(e),
        SpecOfPart::SegPathVar(e) => expression_text(e),
        SpecOfPart::SegPathRest(e) => expression_text(e),
        SpecOfPart::SegRest(e) => seq!['/'] + expression_text(e),
    }
}

/// The parts as they stand in a template, one after the other.
pub open spec fn parts_text(parts: Seq<SpecOfPart>) -> Seq<char>
    decreases parts.len(),
{
    if parts.len() == 0 {
        Seq::empty()
    } else {
        parts_text(parts.drop_last()) + part_text(parts.last())
    }
}

/// The text of two lists of parts is the text of the one and then that of the other.
pub proof fn law_parts_text_concat(a: Seq<SpecOfPart>, b: Seq<SpecOfPart>)
    ensures
        parts_text(a + b) == parts_text(a) + parts_text(b),
    decreases b.len(),
{
    if b.len() == 0 {
        assert(a + b =~= a);
        assert(parts_text(a) + parts_text(b) =~= parts_text(a));
    } else {
        law_parts_text_concat(a, b.drop_last());
        assert((a + b).drop_last() =~= a + b.drop_last());
        assert(parts_text(a + b) =~= parts_text(a) + parts_text(b));
    }
}

/// The variables as they stand in a template, with commas between them.
fn vars_string(vars: &Vec<VarSpec>) -> (out: String)
    ensures
        out@ == text::join(var_texts(parser::vars_view(vars@)), seq![',']),
{
    let mut list: Vec<String> = Vec::new();
    let mut i: usize = 0;
    while i < vars.len()
        invariant
            i <= vars@.len(),
            text::texts(list@) =~= var_texts(parser::vars_view(vars@)).take(i as int),
        decreases vars@.len() - i,
    {
        list.push(vars[i].to_str());
        i = i + 1;
    }
    assert(text::texts(list@) =~= var_texts(parser::vars_view(vars@)));
    proof {
        reveal_strlit(",");
    }
    assert(","@ =~= seq![',']);
    join_texts(&list, ",")
}

fn mark_for(op: Op) -> (mark: Option<char>)
    ensures
        mark == op_mark(op),
{
    match op {
        Op::Simple => None,
        Op::Reserved => Some('+'),
        Op::Fragment => Some('#'),
        Op::Label => Some('.'),
        Op::Path => Some('/'),
        Op::PathParam => Some(';'),
        Op::Query => Some('?'),
        Op::QueryCont => Some('&'),
    }
}

/// The expression as it stands in a template.
pub fn expression_string(e: &Expression) -> (out: String)
    ensures
        out@ == expression_text(e@),
{
    let mut out = String::new();
    out.push('{');
    match mark_for(e.operator) {
        Some(c) => out.push(c),
        None => {},
    }
    out.append(&vars_string(&e.varspecs));
    out.push('}');
    assert(out@ =~= expression_text(e@));
    out
}

/// The part as it stands in a template.
pub fn original_string(part: &Part) -> (out: String)
    ensures
        out@ == part_text(part@),
{
    match part {
        Part::Lit(l) => l.clone(),
        Part::Expression(e) | Part::SegPathVar(e) | Part::SegPathRest(e) => expression_string(e),
        Part::SegRest(e) => {
            let mut out = String::new();
            out.push('/');
            out.append(&expression_string(e));
            assert(out@ =~= part_text(part@));
            out
        },
    }
}

/// The parts as they stand in a template, one after the other.
pub fn parts_string(parts: &Vec<Part>) -> (out: String)
    ensures
        out@ == parts_text(parser::parts_view(parts@)),
{
    let ghost all = parser::parts_view(parts@);
    let mut out = String::new();
    let mut i: usize = 0;
    assert(all.take(0) =~= Seq::empty());
    while i < parts.len()
        invariant
            i <= parts@.len(),
            all == parser::parts_view(parts@),
            out@ == parts_text(all.take(i as int)),
        decreases parts@.len() - i,
    {
        assert(all.take(i + 1).drop_last() =~= all.take(i as int));
        out.append(&original_string(&parts[i]));
        i = i + 1;
    }
    assert(all.take(i as int) =~= all);
    out
}

/// Whether a character means something else than itself in a regular expression.
pub open spec fn is_meta(c: char) -> bool {
    ||| c == '\\' || c == '.' || c == '+' || c == '*' || c == '?' || c == '(' || c == ')'
    ||| c == '|' || c == '[' || c == ']' || c == '{' || c == '}' || c == '^' || c == '$'
    ||| c == '#' || c == '&' || c == '-' || c == '~'
}

/// The regular expression that matches a text and nothing else.
pub open spec fn quoted(s: Seq<char>) -> Seq<char>
    decreases s.len(),
{
    if s.len() == 0 {
        Seq::empty()
    } else if is_meta(s.last()) {
        quoted(s.drop_last()).push('\\').push(s.last())
    } else {
        quoted(s.drop_last()).push(s.last())
    }
}

/// Where in a URI an expression stands.
#[derive(Clone, Copy, Debug, PartialEq, Eq, Structural)]
pub enum Place {
    Auth,
    Path,
    /// In the path, where it takes what is left.
    Rest,
}

/// The characters that cannot stand in the value of a variable.
pub open spec fn stops(place: Place, op: Op, modifier: VarMod) -> Seq<char> {
    let open = op == Op::Reserved || modifier == VarMod::Explode;
    if place == Place::Auth {
        if open {
            seq!['/']
        } else {
            seq!['/', ser::op_separator(op)]
        }
    } else if op == Op::Reserved || place == Place::Rest && open {
        seq!['?', '#']
    } else if open {
        seq!['/', '?', '#']
    } else {
        seq!['/', '?', '#', ser::op_separator(op)]
    }
}

/// The name under which the value of a variable is captured.
pub open spec fn capture_name(var: SpecOfVar) -> Seq<char> {
    match var.modifier {
        VarMod::Prefix(n) => var.name + seq!['_', 'p'] + text::decimal(n as nat),
        _ => var.name,
    }
}

/// The regular expression for the value of a variable.
pub open spec fn var_re(place: Place, op: Op, var: SpecOfVar) -> Seq<char> {
    (if op == Op::PathParam && var.modifier != VarMod::Explode {
        quoted(var.name) + seq!['=', '?']
    } else {
        Seq::empty()
    }) + seq!['(', '?', '<'] + capture_name(var) + seq!['>', '[', '^'] + stops(
        place,
        op,
        var.modifier,
    ) + seq![']', '*', ')']
}

/// The regular expressions for the values of variables.
pub open spec fn var_res(place: Place, op: Op, vars: Seq<SpecOfVar>) -> Seq<Seq<char>> {
    Seq::new(vars.len(), |i: int| var_re(place, op, vars[i]))
}

/// The regular expression for what an expression writes.
pub open spec fn expression_re(place: Place, e: SpecOfExpression) -> Seq<char> {
    quoted(ser::mark(ser::op_prefix(e.operator))) + text::join(
        var_res(place, e.operator, e.vars),
        quoted(seq![ser::op_separator(e.operator)]),
    )
}

/// The regular expression for what a part of the path writes.
pub open spec fn path_re(part: SpecOfPart) -> Seq<char> {
    match part {
        SpecOfPart::Lit(l) => quoted(l),
        SpecOfPart::Expression(e) => expression_re(Place::Path, e),
        SpecOfPart::SegPathVar(e) => expression_re(Place::Path, e),
        SpecOfPart::SegPathRest(e) => expression_re(Place::Rest, e),
        SpecOfPart::SegRest(e) => seq!['/'] + expression_re(Place::Rest, e),
    }
}

/// The regular expression for what a part of the authority writes.
pub open spec fn auth_re(part: SpecOfPart) -> Seq<char> {
    match part {
        SpecOfPart::Lit(l) => quoted(l),
        SpecOfPart::Expression(e) => expression_re(Place::Auth, e),
        SpecOfPart::SegPathVar(e) => expression_re(Place::Auth, e),
        SpecOfPart::SegPathRest(e) => expression_re(Place::Auth, e),
        SpecOfPart::SegRest(e) => seq!['/'] + expression_re(Place::Auth, e),
    }
}

fn meta(c: char) -> (is: bool)
    ensures
        is == is_meta(c),
{
    match c {
        '\\' | '.' | '+' | '*' | '?' | '(' | ')' | '|' | '[' | ']' | '{' | '}' | '^' | '$' | '#'
        | '&' | '-' | '~' => true,
        _ => false,
    }
}

/// The regular expression that matches a text and nothing else.
pub fn quote(literal: &str) -> (out: String)
    ensures
        out@ == quoted(literal@),
{
    let chars = chars_of(literal);
    let mut out = String::new();
    let mut i: usize = 0;
    assert(chars@.take(0) =~= Seq::empty());
    while i < chars.len()
        invariant
            i <= chars@.len(),
            out@ == quoted(chars@.take(i as int)),
        decreases chars@.len() - i,
    {
        assert(chars@.take(i + 1).drop_last() =~= chars@.take(i as int));
        if meta(chars[i]) {
            out.push('\\');
        }
        out.push(chars[i]);
        i = i + 1;
    }
    assert(chars@.take(i as int) =~= chars@);
    out
}

/// The name under which the value of a variable is captured.
pub fn var_re_name(var: &VarSpec) -> (name: String)
    ensures
        name@ == capture_name(var@),
{
    let mut name = var.varname.clone();
    if let VarMod::Prefix(n) = var.modifier {
        name.push('_');
        name.push('p');
        name.append(&decimal_text(n as u64));
        assert(name@ =~= capture_name(var@));
    }
    name
}

fn push_stops(out: &mut String, place: Place, op: Op, modifier: VarMod)
    ensures
        final(out)@ == old(out)@ + stops(place, op, modifier),
{
    let open = op == Op::Reserved || modifier == VarMod::Explode;
    if place == Place::Auth {
        out.push('/');
        if !open {
            out.push(separator_for(op));
        }
    } else if op == Op::Reserved || place == Place::Rest && open {
        out.push('?');
        out.push('#');
    } else {
        out.push('/');
        out.push('?');
        out.push('#');
        if !open {
            out.push(separator_for(op));
        }
    }
    assert(out@ =~= old(out)@ + stops(place, op, modifier));
}

fn var_re_string(place: Place, op: Op, var: &VarSpec) -> (out: String)
    ensures
        out@ == var_re(place, op, var@),
{
    let mut out = String::new();
    if op == Op::PathParam && var.modifier != VarMod::Explode {
        out.append(&quote(&var.varname));
        out.push('=');
        out.push('?');
    }
    out.push('(');
    out.push('?');
    out.push('<');
    out.append(&var_re_name(var));
    out.push('>');
    out.push('[');
    out.push('^');
    push_stops(&mut out, place, op, var.modifier);
    out.push(']');
    out.push('*');
    out.push(')');
    assert(out@ =~= var_re(place, op, var@));
    out
}

fn expression_re_string(place: Place, e: &Expression) -> (out: String)
    ensures
        out@ == expression_re(place, e@),
{
    let op = e.operator;
    let mut list: Vec<String> = Vec::new();
    let mut i: usize = 0;
    while i < e.varspecs.len()
        invariant
            i <= e.varspecs@.len(),
            op == e.operator,
            text::texts(list@) =~= var_res(place, op, e@.vars).take(i as int),
        decreases e.varspecs@.len() - i,
    {
        list.push(var_re_string(place, op, &e.varspecs[i]));
        i = i + 1;
    }
    assert(text::texts(list@) =~= var_res(place, op, e@.vars));
    let mut out = match prefix_for(op) {
        Some(c) => quote(&char_text(c)),
        None => {
            assert(quoted(Seq::empty()) =~= Seq::empty());
            String::new()
        },
    };
    out.append(&join_texts(&list, &quote(&char_text(separator_for(op)))));
    out
}

/// The regular expression for what a part of the path writes.
pub fn path_re_string(part: &Part) -> (out: String)
    ensures
        out@ == path_re(part@),
{
    match part {
        Part::Lit(l) => quote(l),
        Part::Expression(e) | Part::SegPathVar(e) => expression_re_string(Place::Path, e),
        Part::SegPathRest(e) => expression_re_string(Place::Rest, e),
        Part::SegRest(e) => {
            let mut out = char_text('/');
            out.append(&expression_re_string(Place::Rest, e));
            out
        },
    }
}

/// The regular expression for what a part of the authority writes.
pub fn auth_re_string(part: &Part) -> (out: String)
    ensures
        out@ == auth_re(part@),
{
    match part {
        Part::Lit(l) => quote(l),
        Part::Expression(e) | Part::SegPathVar(e) | Part::SegPathRest(e) => expression_re_string(
            Place::Auth,
            e,
        ),
        Part::SegRest(e) => {
            let mut out = char_text('/');
            out.append(&expression_re_string(Place::Auth, e));
            out
        },
    }
}

/// The texts that `f` gives for parts, one after the other.
pub open spec fn concat_parts(parts: Seq<SpecOfPart>, f: spec_fn(SpecOfPart) -> Seq<char>) -> Seq<
    char,
>
    decreases parts.len(),
{
    if parts.len() == 0 {
        Seq::empty()
    } else {
        concat_parts(parts.drop_last(), f) + f(parts.last())
    }
}

/// The regular expression for the authority and the path of a template's URIs.
pub open spec fn template_re(template: parser::SpecOfParsed) -> Seq<char> {
    concat_parts(parser::section_parts(template.auth), |part: SpecOfPart| auth_re(part))
        + concat_parts(template.path, |part: SpecOfPart| path_re(part))
}

/// The part of a route that a run of variables makes: the first of them takes the segment.
pub open spec fn segment_route(vars: Seq<SpecOfVar>) -> Seq<char> {
    if vars.len() == 0 {
        Seq::empty()
    } else {
        seq![':'] + vars[0].name
    }
}

/// The part of a route that variables make from `i` on, each after a slash.
///
/// The first that is exploded takes the rest of the path.
pub open spec fn path_route(vars: Seq<SpecOfVar>, i: int) -> Seq<char>
    decreases vars.len() - i,
{
    if i < 0 || i >= vars.len() {
        Seq::empty()
    } else if vars[i].modifier == VarMod::Explode {
        seq!['/', '*'] + vars[i].name
    } else {
        seq!['/', ':'] + vars[i].name + path_route(vars, i + 1)
    }
}

/// The part of a route that a part of the path makes.
pub open spec fn part_route(part: SpecOfPart) -> Seq<char> {
    match part {
        SpecOfPart::Lit(l) => l,
        SpecOfPart::Expression(e) => segment_route(e.vars),
        SpecOfPart::SegPathVar(e) => path_route(e.vars, 0),
        SpecOfPart::SegRest(e) => path_route(e.vars, 0),
        SpecOfPart::SegPathRest(e) => path_route(e.vars, 0),
    }
}

/// The part of a route that a run of variables makes: the first of them takes the segment.
pub fn axum7_vars(vars: &Vec<VarSpec>) -> (out: String)
    ensures
        out@ == segment_route(parser::vars_view(vars@)),
{
    let mut out = String::new();
    if vars.len() > 0 {
        out.push(':');
        out.append(&vars[0].varname);
        assert(out@ =~= segment_route(parser::vars_view(vars@)));
    }
    out
}

/// The part of a route that variables make, each after a slash.
///
/// The first that is exploded takes the rest of the path.
pub fn axum7_rest(vars: &Vec<VarSpec>) -> (out: String)
    ensures
        out@ == path_route(parser::vars_view(vars@), 0),
{
    let ghost all = parser::vars_view(vars@);
    let mut out = String::new();
    let mut i: usize = 0;
    assert(out@ + path_route(all, 0) =~= path_route(all, 0));
    while i < vars.len()
        invariant
            i <= vars@.len(),
            all == parser::vars_view(vars@),
            path_route(all, 0) == out@ + path_route(all, i as int),
        decreases vars@.len() - i,
    {
        let ghost before = out@;
        out.push('/');
        if vars[i].modifier == VarMod::Explode {
            out.push('*');
            out.append(&vars[i].varname);
            assert(out@ =~= before + path_route(all, i as int));
            return out;
        }
        out.push(':');
        out.append(&vars[i].varname);
        i = i + 1;
        assert(out@ + path_route(all, i as int) =~= before + path_route(all, i - 1));
    }
    assert(out@ + path_route(all, i as int) =~= out@);
    out
}

/// The route that a path makes for a router that takes `:name` and `*name`.
pub fn path_route_string(parts: &Vec<Part>) -> (out: String)
    ensures
        out@ == concat_parts(parser::parts_view(parts@), |part: SpecOfPart| part_route(part)),
{
    let ghost all = parser::parts_view(parts@);
    let ghost f = |part: SpecOfPart| part_route(part);
    let mut out = String::new();
    let mut i: usize = 0;
    assert(all.take(0) =~= Seq::empty());
    while i < parts.len()
        invariant
            i <= parts@.len(),
            all == parser::parts_view(parts@),
            f == (|part: SpecOfPart| part_route(part)),
            out@ == concat_parts(all.take(i as int), f),
        decreases parts@.len() - i,
    {
        assert(all.take(i + 1).drop_last() =~= all.take(i as int));
        assert(all.take(i + 1).last() == parts@[i as int]@);
        let piece = match &parts[i] {
            Part::Lit(l) => l.clone(),
            Part::Expression(e) => axum7_vars(&e.varspecs),
            Part::SegPathVar(e) | Part::SegRest(e) | Part::SegPathRest(e) => axum7_rest(
                &e.varspecs,
            ),
        };
        out.append(&piece);
        i = i + 1;
    }
    assert(all.take(i as int) =~= all);
    out
}

/// The regular expression for the authority and the path of a template's URIs.
pub fn template_re_string(template: &parser::Parsed) -> (out: String)
    ensures
        out@ == template_re(template@),
{
    let ghost f = |part: SpecOfPart| auth_re(part);
    let ghost g = |part: SpecOfPart| path_re(part);
    let mut out = String::new();
    if let Some(parts) = &template.auth {
        let ghost all = parser::parts_view(parts@);
        let mut i: usize = 0;
        assert(all.take(0) =~= Seq::empty());
        while i < parts.len()
            invariant
                i <= parts@.len(),
                all == parser::parts_view(parts@),
                f == (|part: SpecOfPart| auth_re(part)),
                out@ == concat_parts(all.take(i as int), f),
            decreases parts@.len() - i,
        {
            assert(all.take(i + 1).drop_last() =~= all.take(i as int));
            assert(all.take(i + 1).last() == parts@[i as int]@);
            out.append(&auth_re_string(&parts[i]));
            i = i + 1;
        }
        assert(all.take(i as int) =~= all);
    }
    let ghost before = out@;
    let ghost all = parser::parts_view(template.path@);
    let mut i: usize = 0;
    assert(all.take(0) =~= Seq::empty());
    assert(out@ =~= before + concat_parts(all.take(0), g));
    while i < template.path.len()
        invariant
            i <= template.path@.len(),
            all == parser::parts_view(template.path@),
            g == (|part: SpecOfPart| path_re(part)),
            out@ == before + concat_parts(all.take(i as int), g),
        decreases template.path@.len() - i,
    {
        assert(all.take(i + 1).drop_last() =~= all.take(i as int));
        assert(all.take(i + 1).last() == template.path@[i as int]@);
        out.append(&path_re_string(&template.path[i]));
        assert(out@ =~= before + concat_parts(all.take(i + 1), g));
        i = i + 1;
    }
    assert(all.take(i as int) =~= all);
    out
}

} // verus!
