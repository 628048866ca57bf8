//! The grammar of templates.
//!
//! A template is a URI reference in which expressions stand for what differs between the members
//! of a family of resources.
use crate::parser;
use crate::parser::{
    Expression, Op, Parsed, Part, SpecOfExpression, SpecOfParsed, SpecOfPart, SpecOfVar, VarMod,
    VarSpec,
};
use crate::render;
use crate::ser;
use crate::text;
use crate::text::{chars_of, split_text, text_between};
use vstd::prelude::*;

verus! {

/// Whether a character is a letter of ASCII.
pub open spec fn is_alpha(c: char) -> bool {
    'a' <= c <= 'z' || 'A' <= c <= 'Z'
}

/// Whether a character is a decimal digit.
pub open spec fn is_digit(c: char) -> bool {
    '0' <= c <= '9'
}

/// Whether a character is a hexadecimal digit.
pub open spec fn is_hex(c: char) -> bool {
    is_digit(c) || 'a' <= c <= 'f' || 'A' <= c <= 'F'
}

/// Whether two hexadecimal digits follow the percent sign at `i`.
pub open spec fn is_escape(s: Seq<char>, i: int) -> bool {
    i + 2 < s.len() && s[i] == '%' && is_hex(s[i + 1]) && is_hex(s[i + 2])
}

/// Whether what stands from `i` on ends the name of a variable.
///
/// A name is made of letters, digits, underscores and escapes, with single dots between them.
/// `open` says that something other than a dot has to follow.
pub open spec fn is_name_from(s: Seq<char>, i: int, open: bool) -> bool
    decreases s.len() - i,
{
    if i >= s.len() {
        !open
    } else if is_alpha(s[i]) || is_digit(s[i]) || s[i] == '_' {
        is_name_from(s, i + 1, false)
    } else if is_escape(s, i) {
        is_name_from(s, i + 3, false)
    } else {
        s[i] == '.' && !open && is_name_from(s, i + 1, true)
    }
}

/// Whether a text is the name of a variable.
pub open spec fn is_name(s: Seq<char>) -> bool {
    is_name_from(s, 0, true)
}

/// The number that digits write.
pub open spec fn number(digits: Seq<char>) -> nat
    decreases digits.len(),
{
    if digits.len() == 0 {
        0
    } else {
        number(digits.drop_last()) * 10 + ((digits.last() as u32) - ('0' as u32)) as nat
    }
}

/// Whether a text writes a length: one to four digits, the first of them not zero.
pub open spec fn is_length(s: Seq<char>) -> bool {
    &&& 1 <= s.len() <= 4
    &&& s[0] != '0'
    &&& forall|i: int| 0 <= i < s.len() ==> is_digit(#[trigger] s[i])
}

/// Where `c` first stands in `s` at or after `i`, or else the length of `s`.
pub open spec fn find(s: Seq<char>, c: char, i: int) -> int
    decreases s.len() - i,
{
    if i >= s.len() {
        s.len() as int
    } else if s[i] == c {
        i
    } else {
        find(s, c, i + 1)
    }
}

/// The variable that a text between two commas stands for.
pub open spec fn var_of(s: Seq<char>) -> Option<SpecOfVar> {
    let colon = find(s, ':', 0);
    if colon < s.len() {
        let name = s.take(colon);
        let length = s.skip(colon + 1);
        if is_name(name) && is_length(length) {
            Some(SpecOfVar { name, modifier: VarMod::Prefix(number(length) as u16) })
        } else {
            None
        }
    } else if s.len() > 0 && s.last() == '*' {
        if is_name(s.drop_last()) {
            Some(SpecOfVar { name: s.drop_last(), modifier: VarMod::Explode })
        } else {
            None
        }
    } else if is_name(s) {
        Some(SpecOfVar { name: s, modifier: VarMod::Whole })
    } else {
        None
    }
}

/// The variables that the texts between the commas stand for.
pub open spec fn vars_of_texts(list: Seq<Seq<char>>) -> Option<Seq<SpecOfVar>>
    decreases list.len(),
{
    if list.len() == 0 {
        Some(Seq::empty())
    } else {
        match vars_of_texts(list.drop_last()) {
            None => None,
            Some(before) => match var_of(list.last()) {
                None => None,
                Some(var) => Some(before.push(var)),
            },
        }
    }
}

/// The operator that stands at the beginning of what is between the braces.
pub open spec fn op_of(body: Seq<char>) -> Op {
    if body.len() == 0 {
        Op::Simple
    } else {
        match body[0] {
            '+' => Op::Reserved,
            '#' => Op::Fragment,
            '.' => Op::Label,
            '/' => Op::Path,
            ';' => Op::PathParam,
            '?' => Op::Query,
            '&' => Op::QueryCont,
            _ => Op::Simple,
        }
    }
}

/// The expression that has `body` between its braces.
pub open spec fn expression_of(body: Seq<char>) -> Option<SpecOfExpression> {
    let operator = op_of(body);
    let list = if operator == Op::Simple {
        body
    } else {
        body.skip(1)
    };
    match vars_of_texts(text::split(list, ',')) {
        None => None,
        Some(vars) => Some(SpecOfExpression { operator, vars }),
    }
}

/// The sections of a URI.
#[derive(Clone, Copy, Debug, PartialEq, Eq, Structural)]
pub enum Section {
    Auth,
    Path,
    Query,
    Fragment,
}

/// Whether a character may stand for itself in a section.
pub open spec fn is_literal_char(section: Section, c: char) -> bool {
    ||| is_alpha(c)
    ||| is_digit(c)
    ||| c == '-' || c == '.' || c == '_' || c == '~'
    ||| c == '!' || c == '$' || c == '&' || c == '\'' || c == '(' || c == ')'
    ||| c == '*' || c == '+' || c == ',' || c == ';' || c == '='
    ||| c == ':' || c == '@' || c == '/'
    ||| section == Section::Auth && (c == '[' || c == ']')
    ||| section == Section::Query && c == '?'
    ||| section == Section::Fragment && (c == '?' || c == '#')
}

/// Whether all that stands from `i` on may stand for itself in a section.
pub open spec fn is_literal_from(section: Section, s: Seq<char>, i: int) -> bool
    decreases s.len() - i,
{
    if i >= s.len() {
        true
    } else if is_escape(s, i) {
        is_literal_from(section, s, i + 3)
    } else {
        is_literal_char(section, s[i]) && is_literal_from(section, s, i + 1)
    }
}

/// Whether an expression writes each item of some value by itself.
pub open spec fn has_explode(e: SpecOfExpression) -> bool {
    exists|i: int| 0 <= i < e.vars.len() && (#[trigger] e.vars[i]).modifier == VarMod::Explode
}

/// Whether an expression after `parts` takes what is left of the path, and the slash before it.
pub open spec fn takes_rest(section: Section, parts: Seq<SpecOfPart>, e: SpecOfExpression) -> bool {
    &&& section == Section::Path
    &&& e.operator == Op::Simple
    &&& has_explode(e)
    &&& parts.len() > 0
    &&& parts.last() matches SpecOfPart::Lit(l) && l.len() > 0 && l.last() == '/'
}

/// The parts once an expression follows them.
pub open spec fn push_expression(
    section: Section,
    parts: Seq<SpecOfPart>,
    e: SpecOfExpression,
) -> Seq<SpecOfPart> {
    if e.operator == Op::Path {
        if has_explode(e) {
            parts.push(SpecOfPart::SegPathRest(e))
        } else {
            parts.push(SpecOfPart::SegPathVar(e))
        }
    } else if takes_rest(section, parts, e) {
        let l = parts.last()->Lit_0;
        if l.len() == 1 {
            parts.drop_last().push(SpecOfPart::SegRest(e))
        } else {
            parts.drop_last().push(SpecOfPart::Lit(l.drop_last())).push(SpecOfPart::SegRest(e))
        }
    } else {
        parts.push(SpecOfPart::Expression(e))
    }
}

/// `parts` followed by the parts that a section has from `i` on.
pub open spec fn parts_from(
    section: Section,
    s: Seq<char>,
    i: int,
    parts: Seq<SpecOfPart>,
) -> Option<Seq<SpecOfPart>>
    decreases s.len() - i,
{
    proof {
        lemma_find(s, '{', i);
        lemma_find(s, '}', i);
    }
    if i >= s.len() || i < 0 {
        Some(parts)
    } else if s[i] == '{' {
        let close = find(s, '}', i);
        if close >= s.len() {
            None
        } else {
            match expression_of(s.subrange(i + 1, close)) {
                None => None,
                Some(e) => parts_from(section, s, close + 1, push_expression(section, parts, e)),
            }
        }
    } else {
        let end = find(s, '{', i);
        let l = s.subrange(i, end);
        if is_literal_from(section, l, 0) {
            parts_from(section, s, end, parts.push(SpecOfPart::Lit(l)))
        } else {
            None
        }
    }
}

/// What is found stands at or after the start, and nothing before it is what is looked for.
pub proof fn lemma_find(s: Seq<char>, c: char, i: int)
    ensures
        0 <= i <= s.len() ==> i <= find(s, c, i) <= s.len(),
        find(s, c, i) < s.len() && 0 <= i ==> s[find(s, c, i)] == c,
        forall|j: int| 0 <= i <= j < find(s, c, i) ==> s[j] != c,
    decreases s.len() - i,
{
    if i < s.len() {
        lemma_find(s, c, i + 1);
    }
}

/// The parts of a section.
pub open spec fn section_of(section: Section, s: Seq<char>) -> Option<Seq<SpecOfPart>> {
    parts_from(section, s, 0, Seq::empty())
}

/// Whether a section begins at `i`, with a character or with an expression.
pub open spec fn is_start(section: Section, s: Seq<char>, i: int) -> bool {
    let brace = s[i] == '{' && i + 1 < s.len();
    match section {
        Section::Auth => false,
        Section::Path => s[i] == '/' || brace && s[i + 1] == '/',
        Section::Query => s[i] == '?' || brace && (s[i + 1] == '?' || s[i + 1] == '&'),
        Section::Fragment => s[i] == '#' || brace && s[i + 1] == '#',
    }
}

/// Where a section first begins from `i` on and before `end`, or else `end`.
pub open spec fn start_from(section: Section, s: Seq<char>, i: int, end: int) -> int
    decreases end - i,
{
    if i >= end {
        end
    } else if is_start(section, s, i) {
        i
    } else {
        start_from(section, s, i + 1, end)
    }
}

/// Whether a character may stand in a scheme.
pub open spec fn is_scheme_char(c: char) -> bool {
    is_alpha(c) || is_digit(c) || c == '+' || c == '-' || c == '.'
}

/// Where the characters of a scheme end, from `i` on.
pub open spec fn scheme_end(s: Seq<char>, i: int) -> int
    decreases s.len() - i,
{
    if i < s.len() && is_scheme_char(s[i]) {
        scheme_end(s, i + 1)
    } else {
        i
    }
}

/// Where the authority begins, if there is one.
pub open spec fn authority_start(s: Seq<char>) -> Option<int> {
    let k = scheme_end(s, 0);
    if s.len() >= 2 && s[0] == '/' && s[1] == '/' {
        Some(2)
    } else if s.len() >= 1 && is_alpha(s[0]) && k + 2 < s.len() && s[k] == ':' && s[k + 1] == '/'
        && s[k + 2] == '/' {
        Some(k + 3)
    } else {
        None
    }
}

/// An optional section: it is missing where its text is empty.
pub open spec fn optional_section(section: Section, s: Seq<char>) -> Option<
    Option<Seq<SpecOfPart>>,
> {
    if s.len() == 0 {
        Some(None)
    } else {
        match section_of(section, s) {
            None => None,
            Some(parts) => Some(Some(parts)),
        }
    }
}

/// Whether no second fragment begins after the one at `start`.
pub open spec fn is_last_fragment(s: Seq<char>, start: int) -> bool {
    start < s.len() ==> start_from(
        Section::Fragment,
        s,
        start + (if s[start] == '#' {
            1int
        } else {
            2
        }),
        s.len() as int,
    ) >= s.len()
}

/// The template that a text writes, taken apart.
pub open spec fn template_of(s: Seq<char>) -> Option<SpecOfParsed> {
    let fragment_start = start_from(Section::Fragment, s, 0, s.len() as int);
    let query_start = start_from(Section::Query, s, 0, fragment_start);
    let path_start = match authority_start(s) {
        Some(from) => start_from(Section::Path, s, from, query_start),
        None => 0,
    };
    if !is_last_fragment(s, fragment_start) || (authority_start(
        s,
    ) is None && (s.len() == 0 || !is_start(Section::Path, s, 0))) {
        None
    } else {
        match (
            optional_section(Section::Auth, s.take(path_start)),
            section_of(Section::Path, s.subrange(path_start, query_start)),
            optional_section(Section::Query, s.subrange(query_start, fragment_start)),
            optional_section(Section::Fragment, s.skip(fragment_start)),
        ) {
            (Some(auth), Some(path), Some(query), Some(fragment)) => Some(
                SpecOfParsed { auth, path, query, fragment, path_assoc: None, query_assoc: None },
            ),
            _ => None,
        }
    }
}

/// The text of a template.
pub open spec fn template_text(template: SpecOfParsed) -> Seq<char> {
    render::parts_text(template.parts())
}

/// At most four digits write at most 9999.
pub proof fn lemma_number_bound(digits: Seq<char>)
    requires
        digits.len() <= 4,
        forall|i: int| 0 <= i < digits.len() ==> is_digit(#[trigger] digits[i]),
    ensures
        digits.len() == 0 ==> number(digits) == 0,
        digits.len() == 1 ==> number(digits) <= 9,
        digits.len() == 2 ==> number(digits) <= 99,
        digits.len() == 3 ==> number(digits) <= 999,
        digits.len() == 4 ==> number(digits) <= 9999,
    decreases digits.len(),
{
    if digits.len() > 0 {
        let before = digits.drop_last();
        assert forall|i: int| 0 <= i < before.len() implies is_digit(#[trigger] before[i]) by {
            assert(before[i] == digits[i]);
        }
        lemma_number_bound(before);
        assert(is_digit(digits[digits.len() - 1]));
    }
}

/// A number is written with the digits that write it.
pub proof fn lemma_number_text(digits: Seq<char>)
    requires
        digits.len() > 0,
        digits[0] != '0',
        forall|i: int| 0 <= i < digits.len() ==> is_digit(#[trigger] digits[i]),
    ensures
        text::decimal(number(digits)) == digits,
        number(digits) > 0,
    decreases digits.len(),
{
    let before = digits.drop_last();
    let last = digits.last();
    let d = ((last as u32) - ('0' as u32)) as nat;
    assert(is_digit(digits[digits.len() - 1]));
    assert(digits == before.push(last));
    assert(text::digit(d) == last);
    if digits.len() == 1 {
        assert(number(before) == 0);
        assert(digits =~= seq![last]);
    } else {
        assert forall|i: int| 0 <= i < before.len() implies is_digit(#[trigger] before[i]) by {
            assert(before[i] == digits[i]);
        }
        lemma_number_text(before);
        let n = number(before) * 10 + d;
        assert(n / 10 == number(before) && n % 10 == d);
    }
}

/// A variable is written as it was read.
pub proof fn law_var_text(s: Seq<char>)
    requires
        var_of(s) is Some,
    ensures
        ser::var_text(var_of(s)->0) == s,
{
    let colon = find(s, ':', 0);
    lemma_find(s, ':', 0);
    if colon < s.len() {
        let length = s.skip(colon + 1);
        lemma_number_bound(length);
        lemma_number_text(length);
        assert(s =~= s.take(colon) + seq![':'] + length);
    } else if s.len() > 0 && s.last() == '*' {
        assert(s =~= s.drop_last() + seq!['*']);
    }
}

proof fn lemma_vars_text(list: Seq<Seq<char>>)
    requires
        vars_of_texts(list) is Some,
    ensures
        render::var_texts(vars_of_texts(list)->0) == list,
    decreases list.len(),
{
    if list.len() > 0 {
        let before = vars_of_texts(list.drop_last())->0;
        lemma_vars_text(list.drop_last());
        law_var_text(list.last());
        assert(render::var_texts(vars_of_texts(list)->0) =~= render::var_texts(before).push(
            list.last(),
        ));
        assert(list =~= list.drop_last().push(list.last()));
    } else {
        assert(render::var_texts(vars_of_texts(list)->0) =~= list);
    }
}

/// An expression is written as it was read.
pub proof fn law_expression_text(body: Seq<char>)
    requires
        expression_of(body) is Some,
    ensures
        render::body_text(expression_of(body)->0) == body,
{
    let operator = op_of(body);
    let list = if operator == Op::Simple {
        body
    } else {
        body.skip(1)
    };
    lemma_vars_text(text::split(list, ','));
    text::law_join_undoes_split(list, ',');
    assert(render::body_text(expression_of(body)->0) =~= body);
}

proof fn lemma_push_expression(section: Section, parts: Seq<SpecOfPart>, e: SpecOfExpression)
    ensures
        render::parts_text(push_expression(section, parts, e)) == render::parts_text(parts)
            + render::expression_text(e),
{
    let out = push_expression(section, parts, e);
    if e.operator != Op::Path && takes_rest(section, parts, e) {
        let l = parts.last()->Lit_0;
        let slash = seq!['/'];
        assert(l =~= l.drop_last() + slash);
        assert(out.drop_last() =~= if l.len() == 1 {
            parts.drop_last()
        } else {
            parts.drop_last().push(SpecOfPart::Lit(l.drop_last()))
        });
        if l.len() > 1 {
            assert(out.drop_last().drop_last() =~= parts.drop_last());
        }
        assert(render::parts_text(out.drop_last()) =~= render::parts_text(parts.drop_last())
            + l.drop_last());
        assert(render::parts_text(out) =~= render::parts_text(parts) + render::expression_text(e));
    } else {
        assert(out.drop_last() =~= parts);
    }
}

proof fn lemma_parts_from(section: Section, s: Seq<char>, i: int, parts: Seq<SpecOfPart>)
    requires
        0 <= i <= s.len(),
        parts_from(section, s, i, parts) is Some,
    ensures
        render::parts_text(parts_from(section, s, i, parts)->0) == render::parts_text(parts)
            + s.skip(i),
    decreases s.len() - i,
{
    lemma_find(s, '{', i);
    lemma_find(s, '}', i);
    if i >= s.len() {
        assert(s.skip(i) =~= Seq::empty());
        assert(render::parts_text(parts) + s.skip(i) =~= render::parts_text(parts));
    } else if s[i] == '{' {
        let close = find(s, '}', i);
        let body = s.subrange(i + 1, close);
        let e = expression_of(body)->0;
        law_expression_text(body);
        lemma_push_expression(section, parts, e);
        lemma_parts_from(section, s, close + 1, push_expression(section, parts, e));
        assert(s.skip(i) =~= seq!['{'] + body + seq!['}'] + s.skip(close + 1));
        assert(render::parts_text(parts) + render::expression_text(e) + s.skip(close + 1)
            =~= render::parts_text(parts) + s.skip(i));
    } else {
        let end = find(s, '{', i);
        let l = s.subrange(i, end);
        let next = parts.push(SpecOfPart::Lit(l));
        lemma_parts_from(section, s, end, next);
        assert(next.drop_last() =~= parts);
        assert(s.skip(i) =~= l + s.skip(end));
        assert(render::parts_text(parts) + l + s.skip(end) =~= render::parts_text(parts) + s.skip(
            i,
        ));
    }
}

/// A section is written as it was read.
pub proof fn lemma_section_text(section: Section, s: Seq<char>)
    ensures
        section_of(section, s) is Some ==> render::parts_text(section_of(section, s)->0) == s,
        optional_section(section, s) is Some ==> render::parts_text(
            parser::section_parts(optional_section(section, s)->0),
        ) == s,
{
    if section_of(section, s) is Some {
        lemma_parts_from(section, s, 0, Seq::empty());
        assert(render::parts_text(section_of(section, s)->0) =~= s);
    }
    if s.len() == 0 {
        assert(s =~= Seq::empty());
    }
}

/// Where a section begins it begins first.
pub proof fn lemma_start_from(section: Section, s: Seq<char>, i: int, end: int)
    ensures
        i <= end ==> i <= start_from(section, s, i, end),
        start_from(section, s, i, end) <= end,
        start_from(section, s, i, end) >= i || start_from(section, s, i, end) == end,
        start_from(section, s, i, end) < end ==> is_start(
            section,
            s,
            start_from(section, s, i, end),
        ),
        forall|j: int|
            i <= j < start_from(section, s, i, end) ==> !#[trigger] is_start(section, s, j),
    decreases end - i,
{
    if i < end && !is_start(section, s, i) {
        lemma_start_from(section, s, i + 1, end);
    }
}

/// A template is written as it was read.
pub proof fn law_round_trip(s: Seq<char>)
    requires
        template_of(s) is Some,
    ensures
        template_text(template_of(s)->0) == s,
{
    let template = template_of(s)->0;
    let fragment_start = start_from(Section::Fragment, s, 0, s.len() as int);
    let query_start = start_from(Section::Query, s, 0, fragment_start);
    let path_start = match authority_start(s) {
        Some(from) => start_from(Section::Path, s, from, query_start),
        None => 0,
    };
    lemma_start_from(Section::Fragment, s, 0, s.len() as int);
    lemma_start_from(Section::Query, s, 0, fragment_start);
    lemma_scheme_end(s, 0);
    if let Some(from) = authority_start(s) {
        lemma_start_from(Section::Path, s, from, query_start);
    }
    let auth = s.take(path_start);
    let path = s.subrange(path_start, query_start);
    let query = s.subrange(query_start, fragment_start);
    let fragment = s.skip(fragment_start);
    lemma_section_text(Section::Auth, auth);
    lemma_section_text(Section::Path, path);
    lemma_section_text(Section::Query, query);
    lemma_section_text(Section::Fragment, fragment);
    let parts = template.parts();
    render::law_parts_text_concat(parser::section_parts(template.auth), template.path);
    render::law_parts_text_concat(template.before_query(), parser::section_parts(template.query));
    render::law_parts_text_concat(
        template.before_query() + parser::section_parts(template.query),
        parser::section_parts(template.fragment),
    );
    assert(s =~= auth + path + query + fragment);
}

proof fn lemma_scheme_end(s: Seq<char>, i: int)
    requires
        0 <= i <= s.len(),
    ensures
        i <= scheme_end(s, i) <= s.len(),
    decreases s.len() - i,
{
    if i < s.len() && is_scheme_char(s[i]) {
        lemma_scheme_end(s, i + 1);
    }
}

fn alpha(c: char) -> (is: bool)
    ensures
        is == is_alpha(c),
{
    'a' <= c && c <= 'z' || 'A' <= c && c <= 'Z'
}

fn digit(c: char) -> (is: bool)
    ensures
        is == is_digit(c),
{
    '0' <= c && c <= '9'
}

fn hex(c: char) -> (is: bool)
    ensures
        is == is_hex(c),
{
    digit(c) || 'a' <= c && c <= 'f' || 'A' <= c && c <= 'F'
}

fn escape_at(chars: &Vec<char>, i: usize) -> (is: bool)
    requires
        i < chars@.len(),
    ensures
        is == is_escape(chars@, i as int),
{
    chars.len() - i > 2 && chars[i] == '%' && hex(chars[i + 1]) && hex(chars[i + 2])
}

/// Whether a text is the name of a variable.
pub fn is_varname(name: &str) -> (is: bool)
    ensures
        is == is_name(name@),
{
    let chars = chars_of(name);
    let mut i: usize = 0;
    let mut open = true;
    while i < chars.len()
        invariant
            i <= chars@.len(),
            chars@ == name@,
            is_name(name@) == is_name_from(chars@, i as int, open),
        decreases chars@.len() - i,
    {
        if alpha(chars[i]) || digit(chars[i]) || chars[i] == '_' {
            i = i + 1;
            open = false;
        } else if escape_at(&chars, i) {
            i = i + 3;
            open = false;
        } else if chars[i] == '.' && !open {
            i = i + 1;
            open = true;
        } else {
            return false;
        }
    }
    !open
}

fn find_char(chars: &Vec<char>, c: char, from: usize) -> (at: usize)
    requires
        from <= chars@.len(),
    ensures
        at == find(chars@, c, from as int),
        from <= at <= chars@.len(),
{
    let mut i: usize = from;
    while i < chars.len() && chars[i] != c
        invariant
            from <= i <= chars@.len(),
            find(chars@, c, from as int) == find(chars@, c, i as int),
        decreases chars@.len() - i,
    {
        i = i + 1;
    }
    i
}

fn length_from(chars: &Vec<char>, from: usize) -> (length: Option<u16>)
    requires
        from <= chars@.len(),
    ensures
        match length {
            Some(n) => is_length(chars@.skip(from as int)) && n == number(chars@.skip(from as int)),
            None => !is_length(chars@.skip(from as int)),
        },
{
    let ghost digits = chars@.skip(from as int);
    let count = chars.len() - from;
    if count < 1 || count > 4 || chars[from] == '0' {
        return None;
    }
    let mut n: u16 = 0;
    let mut i: usize = 0;
    assert(digits.take(0) =~= Seq::empty());
    while i < count
        invariant
            count == chars@.len() - from,
            from + count <= usize::MAX,
            1 <= count <= 4,
            from <= chars@.len(),
            i <= count,
            digits == chars@.skip(from as int),
            forall|j: int| 0 <= j < i ==> is_digit(#[trigger] digits[j]),
            n == number(digits.take(i as int)),
            i == 0 ==> n == 0,
            i == 1 ==> n <= 9,
            i == 2 ==> n <= 99,
            i == 3 ==> n <= 999,
        decreases count - i,
    {
        let c = chars[from + i];
        assert(c == digits[i as int]);
        if !digit(c) {
            return None;
        }
        assert(digits.take(i + 1).drop_last() =~= digits.take(i as int));
        n = n * 10 + (c as u32 - '0' as u32) as u16;
        i = i + 1;
    }
    assert(digits.take(i as int) =~= digits);
    Some(n)
}

/// The variable that a text between two commas stands for.
pub fn parse_var(spec: &str) -> (var: Option<VarSpec>)
    ensures
        match var {
            Some(v) => var_of(spec@) == Some(v@),
            None => var_of(spec@) is None,
        },
{
    let chars = chars_of(spec);
    let colon = find_char(&chars, ':', 0);
    if colon < chars.len() {
        let varname = text_between(&chars, 0, colon);
        assert(varname@ =~= spec@.take(colon as int));
        match length_from(&chars, colon + 1) {
            Some(n) => {
                proof {
                    lemma_number_bound(spec@.skip(colon + 1));
                }
                if is_varname(&varname) {
                    Some(VarSpec { varname, modifier: VarMod::Prefix(n) })
                } else {
                    None
                }
            },
            None => None,
        }
    } else if chars.len() > 0 && chars[chars.len() - 1] == '*' {
        let varname = text_between(&chars, 0, chars.len() - 1);
        assert(varname@ =~= spec@.drop_last());
        if is_varname(&varname) {
            Some(VarSpec { varname, modifier: VarMod::Explode })
        } else {
            None
        }
    } else if is_varname(spec) {
        Some(VarSpec { varname: spec.to_owned(), modifier: VarMod::Whole })
    } else {
        None
    }
}

proof fn lemma_no_vars(list: Seq<Seq<char>>, i: int)
    requires
        0 <= i < list.len(),
        var_of(list[i]) is None,
    ensures
        vars_of_texts(list) is None,
    decreases list.len(),
{
    if i < list.len() - 1 {
        lemma_no_vars(list.drop_last(), i);
    }
}

fn parse_op(chars: &Vec<char>, i: usize, end: usize) -> (op: Op)
    requires
        i <= end <= chars@.len(),
    ensures
        op == op_of(chars@.subrange(i as int, end as int)),
{
    if i == end {
        Op::Simple
    } else {
        match chars[i] {
            '+' => Op::Reserved,
            '#' => Op::Fragment,
            '.' => Op::Label,
            '/' => Op::Path,
            ';' => Op::PathParam,
            '?' => Op::Query,
            '&' => Op::QueryCont,
            _ => Op::Simple,
        }
    }
}

/// The expression between the braces before `i` and at `end`.
fn parse_expression(chars: &Vec<char>, i: usize, end: usize) -> (e: Option<Expression>)
    requires
        i <= end <= chars@.len(),
    ensures
        match e {
            Some(e) => expression_of(chars@.subrange(i as int, end as int)) == Some(e@),
            None => expression_of(chars@.subrange(i as int, end as int)) is None,
        },
{
    let ghost body = chars@.subrange(i as int, end as int);
    let operator = parse_op(chars, i, end);
    let from: usize = if operator == Op::Simple {
        i
    } else {
        i + 1
    };
    let list = text_between(chars, from, end);
    assert(list@ =~= if operator == Op::Simple {
        body
    } else {
        body.skip(1)
    });
    let specs = split_text(&list, ',');
    let ghost all = text::texts(specs@);
    let mut varspecs: Vec<VarSpec> = Vec::new();
    let mut k: usize = 0;
    assert(all.take(0) =~= Seq::empty());
    assert(parser::vars_view(varspecs@) =~= Seq::empty());
    while k < specs.len()
        invariant
            k <= specs@.len(),
            all == text::texts(specs@),
            vars_of_texts(all) is None ==> expression_of(body) is None,
            body == chars@.subrange(i as int, end as int),
            vars_of_texts(all.take(k as int)) == Some(parser::vars_view(varspecs@)),
        decreases specs@.len() - k,
    {
        broadcast use crate::parser::vars_view_push;

        assert(all.take(k + 1).drop_last() =~= all.take(k as int));
        assert(all.take(k + 1).last() == specs@[k as int]@);
        match parse_var(&specs[k]) {
            Some(var) => varspecs.push(var),
            None => {
                proof {
                    lemma_no_vars(all, k as int);
                }
                return None;
            },
        }
        k = k + 1;
    }
    assert(all.take(k as int) =~= all);
    Some(Expression { operator, varspecs })
}

fn literal_char(section: Section, c: char) -> (is: bool)
    ensures
        is == is_literal_char(section, c),
{
    alpha(c) || digit(c) || match c {
        '-' | '.' | '_' | '~' => true,
        '!' | '$' | '&' | '\'' | '(' | ')' => true,
        '*' | '+' | ',' | ';' | '=' => true,
        ':' | '@' | '/' => true,
        '[' | ']' => section == Section::Auth,
        '?' => section == Section::Query || section == Section::Fragment,
        '#' => section == Section::Fragment,
        _ => false,
    }
}

fn literal_text(section: Section, literal: &str) -> (is: bool)
    ensures
        is == is_literal_from(section, literal@, 0),
{
    let chars = chars_of(literal);
    let mut i: usize = 0;
    while i < chars.len()
        invariant
            i <= chars@.len(),
            chars@ == literal@,
            is_literal_from(section, literal@, 0) == is_literal_from(section, literal@, i as int),
        decreases chars@.len() - i,
    {
        if escape_at(&chars, i) {
            i = i + 3;
        } else if literal_char(section, chars[i]) {
            i = i + 1;
        } else {
            return false;
        }
    }
    true
}

fn explodes(e: &Expression) -> (is: bool)
    ensures
        is == has_explode(e@),
{
    let mut i: usize = 0;
    while i < e.varspecs.len()
        invariant
            i <= e.varspecs@.len(),
            forall|j: int| 0 <= j < i ==> (#[trigger] e@.vars[j]).modifier != VarMod::Explode,
        decreases e.varspecs@.len() - i,
    {
        assert(e@.vars[i as int].modifier == e.varspecs@[i as int].modifier);
        if e.varspecs[i].modifier == VarMod::Explode {
            return true;
        }
        i = i + 1;
    }
    false
}

/// What is left of a literal that ends in a slash, without it.
fn before_slash(l: &str) -> (before: Option<String>)
    ensures
        match before {
            Some(text) => l@.len() > 0 && l@.last() == '/' && text@ == l@.drop_last(),
            None => l@.len() == 0 || l@.last() != '/',
        },
{
    let chars = chars_of(l);
    if chars.len() == 0 || chars[chars.len() - 1] != '/' {
        None
    } else {
        let text = text_between(&chars, 0, chars.len() - 1);
        assert(text@ =~= l@.drop_last());
        Some(text)
    }
}

fn append_expression(section: Section, parts: &mut Vec<Part>, e: Expression)
    ensures
        parser::parts_view(final(parts)@) == push_expression(
            section,
            parser::parts_view(old(parts)@),
            e@,
        ),
{
    broadcast use crate::parser::parts_view_push;

    let ghost before = parser::parts_view(parts@);
    if e.operator == Op::Path {
        if explodes(&e) {
            parts.push(Part::SegPathRest(e));
        } else {
            parts.push(Part::SegPathVar(e));
        }
        return ;
    }
    if section == Section::Path && e.operator == Op::Simple && explodes(&e) && parts.len() > 0 {
        let shortened = match &parts[parts.len() - 1] {
            Part::Lit(l) => before_slash(l),
            _ => None,
        };
        assert(before.last() == parts@.last()@);
        if let Some(text) = shortened {
            let _ = parts.pop();
            assert(parser::parts_view(parts@) =~= before.drop_last());
            if !text.as_str().is_empty() {
                parts.push(Part::Lit(text));
            }
            parts.push(Part::SegRest(e));
            return ;
        }
    }
    parts.push(Part::Expression(e));
}

/// The parts of the section that stands from `from` up to `to`.
fn parse_section(section: Section, chars: &Vec<char>, from: usize, to: usize) -> (parts: Option<
    Vec<Part>,
>)
    requires
        from <= to <= chars@.len(),
    ensures
        match parts {
            Some(parts) => section_of(section, chars@.subrange(from as int, to as int)) == Some(
                parser::parts_view(parts@),
            ),
            None => section_of(section, chars@.subrange(from as int, to as int)) is None,
        },
{
    let text = text_between(chars, from, to);
    let s = chars_of(&text);
    let ghost expected = section_of(section, s@);
    let mut parts: Vec<Part> = Vec::new();
    let mut i: usize = 0;
    assert(parser::parts_view(parts@) =~= Seq::empty());
    while i < s.len()
        invariant
            i <= s@.len(),
            s@ == chars@.subrange(from as int, to as int),
            expected == section_of(section, s@),
            expected == parts_from(section, s@, i as int, parser::parts_view(parts@)),
        decreases s@.len() - i,
    {
        broadcast use crate::parser::parts_view_push;

        if s[i] == '{' {
            let close = find_char(&s, '}', i);
            if close >= s.len() {
                return None;
            }
            proof {
                lemma_find(s@, '}', i as int);
            }
            match parse_expression(&s, i + 1, close) {
                Some(e) => append_expression(section, &mut parts, e),
                None => {
                    return None;
                },
            }
            i = close + 1;
        } else {
            let end = find_char(&s, '{', i);
            proof {
                lemma_find(s@, '{', i as int);
            }
            let literal = text_between(&s, i, end);
            if !literal_text(section, &literal) {
                return None;
            }
            parts.push(Part::Lit(literal));
            i = end;
        }
    }
    Some(parts)
}

fn parse_optional_section(
    section: Section,
    chars: &Vec<char>,
    from: usize,
    to: usize,
) -> (parts: Option<Option<Vec<Part>>>)
    requires
        from <= to <= chars@.len(),
    ensures
        match parts {
            Some(parts) => optional_section(section, chars@.subrange(from as int, to as int))
                == Some(parser::section_view(parts)),
            None => optional_section(section, chars@.subrange(from as int, to as int)) is None,
        },
{
    if from == to {
        Some(None)
    } else {
        match parse_section(section, chars, from, to) {
            Some(parts) => Some(Some(parts)),
            None => None,
        }
    }
}

fn starts_at(section: Section, chars: &Vec<char>, i: usize) -> (is: bool)
    requires
        i < chars@.len(),
    ensures
        is == is_start(section, chars@, i as int),
{
    let brace = chars[i] == '{' && chars.len() - i > 1;
    match section {
        Section::Auth => false,
        Section::Path => chars[i] == '/' || brace && chars[i + 1] == '/',
        Section::Query => chars[i] == '?' || brace && (chars[i + 1] == '?' || chars[i + 1] == '&'),
        Section::Fragment => chars[i] == '#' || brace && chars[i + 1] == '#',
    }
}

fn find_start(section: Section, chars: &Vec<char>, from: usize, end: usize) -> (at: usize)
    requires
        end <= chars@.len(),
    ensures
        at == start_from(section, chars@, from as int, end as int),
        at <= end,
{
    if from >= end {
        return end;
    }
    let mut i: usize = from;
    while i < end && !starts_at(section, chars, i)
        invariant
            from <= i <= end <= chars@.len(),
            start_from(section, chars@, from as int, end as int) == start_from(
                section,
                chars@,
                i as int,
                end as int,
            ),
        decreases end - i,
    {
        i = i + 1;
    }
    i
}

fn find_authority(chars: &Vec<char>) -> (at: Option<usize>)
    ensures
        match at {
            Some(i) => authority_start(chars@) == Some(i as int) && i <= chars@.len(),
            None => authority_start(chars@) is None,
        },
{
    if chars.len() >= 2 && chars[0] == '/' && chars[1] == '/' {
        return Some(2);
    }
    let mut k: usize = 0;
    while k < chars.len() && (alpha(chars[k]) || digit(chars[k]) || chars[k] == '+' || chars[k]
        == '-' || chars[k] == '.')
        invariant
            k <= chars@.len(),
            scheme_end(chars@, 0) == scheme_end(chars@, k as int),
        decreases chars@.len() - k,
    {
        k = k + 1;
    }
    if chars.len() >= 1 && alpha(chars[0]) && chars.len() - k > 2 && chars[k] == ':' && chars[k + 1]
        == '/' && chars[k + 2] == '/' {
        Some(k + 3)
    } else {
        None
    }
}

/// Takes a template apart, if its text is one.
pub fn parse(template: &str) -> (parsed: Option<Parsed>)
    ensures
        match parsed {
            Some(p) => template_of(template@) == Some(p@),
            None => template_of(template@) is None,
        },
{
    let chars = chars_of(template);
    let fragment_start = find_start(Section::Fragment, &chars, 0, chars.len());
    let query_start = find_start(Section::Query, &chars, 0, fragment_start);
    let authority = find_authority(&chars);
    let path_start: usize = match authority {
        Some(from) => find_start(Section::Path, &chars, from, query_start),
        None => 0,
    };
    if fragment_start < chars.len() {
        if chars[fragment_start] == '#' {
            if find_start(Section::Fragment, &chars, fragment_start + 1, chars.len())
                < chars.len() {
                return None;
            }
        } else {
            assert(is_start(Section::Fragment, chars@, fragment_start as int)) by {
                lemma_start_from(Section::Fragment, chars@, 0, chars@.len() as int);
            }
            if find_start(Section::Fragment, &chars, fragment_start + 2, chars.len())
                < chars.len() {
                return None;
            }
        }
    }
    if authority.is_none() && (chars.len() == 0 || !starts_at(Section::Path, &chars, 0)) {
        return None;
    }
    assert(chars@.take(path_start as int) =~= chars@.subrange(0, path_start as int));
    assert(chars@.skip(fragment_start as int) =~= chars@.subrange(
        fragment_start as int,
        chars@.len() as int,
    ));
    let auth = parse_optional_section(Section::Auth, &chars, 0, path_start);
    let path = parse_section(Section::Path, &chars, path_start, query_start);
    let query = parse_optional_section(Section::Query, &chars, query_start, fragment_start);
    let fragment = parse_optional_section(
        Section::Fragment,
        &chars,
        fragment_start,
        chars.len(),
    );
    match (auth, path, query, fragment) {
        (Some(auth), Some(path), Some(query), Some(fragment)) => Some(
            Parsed { auth, path, query, fragment, path_assoc: None, query_assoc: None },
        ),
        _ => None,
    }
}

} // verus!
