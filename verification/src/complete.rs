//! Every text that a template can be written as is read, with the expressions that stand in it.
use crate::grammar;
use crate::grammar::Section;
use crate::parser;
use crate::parser::{Op, SpecOfExpression, SpecOfParsed, SpecOfPart, SpecOfVar, VarMod};
use crate::primitive;
use crate::render;
use crate::ser;
use crate::text;
use vstd::prelude::*;

verus! {

/// Whether a character is a letter or a digit.
pub open spec fn is_alphanumeric(c: char) -> bool {
    'a' <= c <= 'z' || 'A' <= c <= 'Z' || '0' <= c <= '9'
}

/// Whether a character is a hexadecimal digit.
pub open spec fn is_hexadecimal(c: char) -> bool {
    '0' <= c <= '9' || 'a' <= c <= 'f' || 'A' <= c <= 'F'
}

/// Whether two hexadecimal digits stand behind the place `i`.
pub open spec fn has_digits_behind(s: Seq<char>, i: int) -> bool {
    i + 2 < s.len() && is_hexadecimal(s[i + 1]) && is_hexadecimal(s[i + 2])
}

/// Whether what stands at the place `i` can stand there in the name of a variable: a letter, a digit,
/// an underscore, a percent sign with two hexadecimal digits behind it, or a dot with something
/// other than a dot on both sides.
pub open spec fn is_varchar_at(s: Seq<char>, i: int) -> bool {
    ||| is_alphanumeric(s[i])
    ||| s[i] == '_'
    ||| s[i] == '%' && has_digits_behind(s, i)
    ||| s[i] == '.' && 0 < i && i + 1 < s.len() && s[i - 1] != '.' && s[i + 1] != '.'
}

/// Whether a text can be the name of a variable.
pub open spec fn is_varname_text(s: Seq<char>) -> bool {
    s.len() > 0 && forall|i: int| 0 <= i < s.len() ==> #[trigger] is_varchar_at(s, i)
}

proof fn lemma_name_from(s: Seq<char>, i: int, open: bool)
    requires
        0 <= i <= s.len(),
        open <==> i == 0 || s[i - 1] == '.',
        s.len() > 0,
        forall|j: int| 0 <= j < s.len() ==> #[trigger] is_varchar_at(s, j),
    ensures
        grammar::is_name_from(s, i, open),
    decreases s.len() - i,
{
    if i >= s.len() {
        assert(is_varchar_at(s, i - 1));
    } else {
        assert(is_varchar_at(s, i));
        if is_alphanumeric(s[i]) || s[i] == '_' {
            lemma_name_from(s, i + 1, false);
        } else if s[i] == '%' {
            lemma_name_from(s, i + 3, false);
        } else {
            lemma_name_from(s, i + 1, true);
        }
    }
}

proof fn lemma_name_chars(s: Seq<char>, i: int, open: bool)
    requires
        0 <= i <= s.len(),
        open <==> i == 0 || s[i - 1] == '.',
        grammar::is_name_from(s, i, open),
    ensures
        i == 0 ==> s.len() > 0,
        forall|j: int| i <= j < s.len() ==> #[trigger] is_varchar_at(s, j),
        i < s.len() && open ==> s[i] != '.',
        i >= s.len() ==> !open,
    decreases s.len() - i,
{
    if i < s.len() {
        if grammar::is_alpha(s[i]) || grammar::is_digit(s[i]) || s[i] == '_' {
            lemma_name_chars(s, i + 1, false);
        } else if grammar::is_escape(s, i) {
            lemma_name_chars(s, i + 3, false);
            assert(is_varchar_at(s, i));
            assert(is_varchar_at(s, i + 1));
            assert(is_varchar_at(s, i + 2));
        } else {
            lemma_name_chars(s, i + 1, true);
            assert(is_varchar_at(s, i));
        }
        assert forall|j: int| i <= j < s.len() implies #[trigger] is_varchar_at(s, j) by {
            if j == i {
                assert(is_varchar_at(s, i));
            }
        }
    }
}

/// A text is the name of a variable if and only if it is made of letters, digits, underscores and
/// escapes, with single dots between them.
pub proof fn law_names_of_variables(s: Seq<char>)
    ensures
        grammar::is_name(s) <==> is_varname_text(s),
{
    if is_varname_text(s) {
        lemma_name_from(s, 0, true);
    }
    if grammar::is_name(s) {
        lemma_name_chars(s, 0, true);
    }
}

/// Whether a variable can stand in a template: it has a name, and of its value all or the first one to
/// 9999 characters are wanted.
pub open spec fn is_variable(var: SpecOfVar) -> bool {
    is_varname_text(var.name) && (var.modifier matches VarMod::Prefix(n) ==> 1 <= n <= 9999)
}

/// The name of a variable holds no other characters.
pub proof fn lemma_name_is_clean(s: Seq<char>, c: char)
    requires
        is_varname_text(s),
        !is_alphanumeric(c),
        c != '_',
        c != '%',
        c != '.',
    ensures
        !s.contains(c),
{
    if s.contains(c) {
        let i = choose|i: int| 0 <= i < s.len() && s[i] == c;
        assert(is_varchar_at(s, i));
    }
}

proof fn lemma_find_nothing(s: Seq<char>, c: char, i: int)
    requires
        0 <= i <= s.len(),
        forall|j: int| i <= j < s.len() ==> s[j] != c,
    ensures
        grammar::find(s, c, i) == s.len(),
    decreases s.len() - i,
{
    if i < s.len() {
        lemma_find_nothing(s, c, i + 1);
    }
}

proof fn lemma_find_at(s: Seq<char>, c: char, i: int, at: int)
    requires
        0 <= i <= at < s.len(),
        s[at] == c,
        forall|j: int| i <= j < at ==> s[j] != c,
    ensures
        grammar::find(s, c, i) == at,
    decreases at - i,
{
    if i < at {
        lemma_find_at(s, c, i + 1, at);
    }
}

/// How many characters are wanted is written with digits.
pub proof fn lemma_length(n: nat)
    requires
        1 <= n <= 9999,
    ensures
        grammar::is_length(text::decimal(n)),
        grammar::number(text::decimal(n)) == n,
        forall|i: int|
            0 <= i < text::decimal(n).len() ==> '0' <= #[trigger] text::decimal(n)[i] <= '9',
{
    let digits = text::decimal(n);
    primitive::law_integers_are_read_back(n as int);
    primitive::law_texts_of_integers(digits, false);
    assert(digits[0] != '+') by {
        lemma_decimal_first(n);
    }
    lemma_decimal_first(n);
    reveal_with_fuel(text::decimal, 5);
}

proof fn lemma_decimal_first(n: nat)
    requires
        n > 0,
    ensures
        text::decimal(n).len() > 0,
        '1' <= text::decimal(n)[0] <= '9',
    decreases n,
{
    if n >= 10 {
        lemma_decimal_first(n / 10);
        assert(text::decimal(n)[0] == text::decimal(n / 10)[0]);
    }
}

/// A variable is read as it was written.
pub proof fn law_variables_are_read(var: SpecOfVar)
    requires
        is_variable(var),
    ensures
        grammar::var_of(ser::var_text(var)) == Some(var),
        !ser::var_text(var).contains(','),
        !ser::var_text(var).contains('{'),
        !ser::var_text(var).contains('}'),
        !ser::var_text(var).contains('#'),
        !ser::var_text(var).contains('?'),
        !ser::var_text(var).contains('/'),
        ser::var_text(var).len() > 0,
        ser::var_text(var)[0] == var.name[0],
{
    let s = ser::var_text(var);
    let name = var.name;
    law_names_of_variables(name);
    lemma_name_is_clean(name, ':');
    lemma_name_is_clean(name, '*');
    assert(s[0] == name[0]);
    match var.modifier {
        VarMod::Prefix(n) => {
            let length = text::decimal(n as nat);
            lemma_length(n as nat);
            assert forall|j: int| 0 <= j < name.len() implies s[j] != ':' by {
                assert(name.contains(name[j]));
            }
            lemma_find_at(s, ':', 0, name.len() as int);
            assert(s.take(name.len() as int) =~= name);
            assert(s.skip(name.len() as int + 1) =~= length);
        },
        VarMod::Explode => {
            assert forall|j: int| 0 <= j < s.len() implies s[j] != ':' by {
                if j < name.len() {
                    assert(name.contains(name[j]));
                }
            }
            lemma_find_nothing(s, ':', 0);
            assert(s.drop_last() =~= name);
        },
        VarMod::Whole => {
            assert forall|j: int| 0 <= j < s.len() implies s[j] != ':' by {
                assert(name.contains(name[j]));
            }
            lemma_find_nothing(s, ':', 0);
            assert(name.contains(name[name.len() - 1]));
        },
    }
    lemma_var_text_is_clean(var, ',');
    lemma_var_text_is_clean(var, '{');
    lemma_var_text_is_clean(var, '}');
    lemma_var_text_is_clean(var, '#');
    lemma_var_text_is_clean(var, '?');
    lemma_var_text_is_clean(var, '/');
}

proof fn lemma_var_text_is_clean(var: SpecOfVar, c: char)
    requires
        is_variable(var),
        c == ',' || c == '{' || c == '}' || c == '#' || c == '?' || c == '/',
    ensures
        !ser::var_text(var).contains(c),
{
    let s = ser::var_text(var);
    lemma_name_is_clean(var.name, c);
    if s.contains(c) {
        let i = choose|i: int| 0 <= i < s.len() && s[i] == c;
        if i < var.name.len() {
            assert(var.name.contains(var.name[i]));
        } else if let VarMod::Prefix(n) = var.modifier {
            if i > var.name.len() {
                lemma_length(n as nat);
                assert(s[i] == text::decimal(n as nat)[i - var.name.len() - 1]);
            }
        }
    }
}

/// Whether an expression can stand in a template.
pub open spec fn is_expression(e: SpecOfExpression) -> bool {
    e.vars.len() > 0 && forall|i: int| 0 <= i < e.vars.len() ==> is_variable(#[trigger] e.vars[i])
}

proof fn lemma_vars_of_texts(vars: Seq<SpecOfVar>)
    requires
        forall|i: int| 0 <= i < vars.len() ==> is_variable(#[trigger] vars[i]),
    ensures
        grammar::vars_of_texts(render::var_texts(vars)) == Some(vars),
    decreases vars.len(),
{
    let list = render::var_texts(vars);
    if vars.len() > 0 {
        let before = vars.drop_last();
        assert forall|i: int| 0 <= i < before.len() implies is_variable(#[trigger] before[i]) by {
            assert(before[i] == vars[i]);
        }
        lemma_vars_of_texts(before);
        assert(list.drop_last() =~= render::var_texts(before));
        assert(is_variable(vars[vars.len() - 1]));
        law_variables_are_read(vars.last());
        assert(before.push(vars.last()) =~= vars);
    } else {
        assert(list =~= Seq::empty());
        assert(vars =~= Seq::empty());
    }
}

proof fn lemma_join_is_clean(list: Seq<Seq<char>>, c: char)
    requires
        c != ',',
        forall|i: int| 0 <= i < list.len() ==> !(#[trigger] list[i]).contains(c),
    ensures
        !text::join(list, seq![',']).contains(c),
    decreases list.len(),
{
    let whole = text::join(list, seq![',']);
    if list.len() == 1 {
        assert(!list[0].contains(c));
    } else if list.len() > 1 {
        let before = list.drop_last();
        assert forall|i: int| 0 <= i < before.len() implies !(#[trigger] before[i]).contains(c) by {
            assert(before[i] == list[i]);
        }
        lemma_join_is_clean(before, c);
        assert(!list[list.len() - 1].contains(c));
        let first = text::join(before, seq![',']);
        if whole.contains(c) {
            let i = choose|i: int| 0 <= i < whole.len() && whole[i] == c;
            if i < first.len() {
                assert(first.contains(first[i]));
            } else if i > first.len() {
                assert(list.last()[i - first.len() - 1] == c);
                assert(list.last().contains(c));
            }
        }
    }
}

/// An expression is read as it was written, and what is between its braces holds no brace, and, but
/// for its first character, none with which a section begins.
pub proof fn law_expressions_are_read(e: SpecOfExpression)
    requires
        is_expression(e),
    ensures
        grammar::expression_of(render::body_text(e)) == Some(e),
        !render::body_text(e).contains('{'),
        !render::body_text(e).contains('}'),
        render::body_text(e).len() > 0,
        forall|i: int|
            0 < i < render::body_text(e).len() ==> ({
                let c = #[trigger] render::body_text(e)[i];
                c != '#' && c != '?' && c != '/'
            }),
        match render::op_mark(e.operator) {
            Some(mark) => render::body_text(e)[0] == mark,
            None => is_alphanumeric(render::body_text(e)[0]) || render::body_text(e)[0] == '_'
                || render::body_text(e)[0] == '%',
        },
{
    let list = render::var_texts(e.vars);
    let mark = ser::mark(render::op_mark(e.operator));
    let joined = text::join(list, seq![',']);
    let body = render::body_text(e);
    assert forall|i: int| 0 <= i < list.len() implies !(#[trigger] list[i]).contains(',')
        && !list[i].contains('{') && !list[i].contains('}') && !list[i].contains('#')
        && !list[i].contains('?') && !list[i].contains('/') by {
        assert(is_variable(e.vars[i]));
        law_variables_are_read(e.vars[i]);
    }
    text::law_split_undoes_join(list, ',');
    lemma_vars_of_texts(e.vars);
    lemma_join_is_clean(list, '{');
    lemma_join_is_clean(list, '}');
    lemma_join_is_clean(list, '#');
    lemma_join_is_clean(list, '?');
    lemma_join_is_clean(list, '/');
    assert(is_variable(e.vars[0]));
    law_variables_are_read(e.vars[0]);
    assert(is_varchar_at(e.vars[0].name, 0));
    lemma_join_first(list);
    assert(joined[0] == e.vars[0].name[0]);
    if e.operator == Op::Simple {
        assert(body =~= joined);
    } else {
        assert(body[0] == mark[0]);
        assert(body.skip(1) =~= joined);
    }
    assert(grammar::op_of(body) == e.operator);
    assert(!body.contains('{') && !body.contains('}')) by {
        assert forall|i: int| 0 <= i < body.len() implies body[i] != '{' && body[i] != '}' by {
            if i >= mark.len() {
                assert(joined.contains(joined[i - mark.len()]));
            }
        }
    }
    assert forall|i: int| 0 < i < body.len() implies ({
        let c = #[trigger] body[i];
        c != '#' && c != '?' && c != '/'
    }) by {
        assert(joined.contains(joined[i - mark.len()]));
    }
}

proof fn lemma_join_first(list: Seq<Seq<char>>)
    requires
        list.len() > 0,
        list[0].len() > 0,
    ensures
        text::join(list, seq![',']).len() > 0,
        text::join(list, seq![','])[0] == list[0][0],
    decreases list.len(),
{
    if list.len() > 1 {
        lemma_join_first(list.drop_last());
    }
}

/// Whether a character can stand for itself anywhere in a URI but in a scheme: a letter, a digit, or
/// one of these marks.
pub open spec fn is_common(c: char) -> bool {
    ||| is_alphanumeric(c)
    ||| seq!['-', '.', '_', '~', '!', '$', '&', '\'', '(', ')', '*', '+', ',', ';', '=', ':', '@']
        .contains(c)
}

/// Whether a character can stand for itself in a section, but for the mark with which the section
/// begins.
pub open spec fn is_own(section: Section, c: char) -> bool {
    match section {
        Section::Auth => is_common(c) || c == '[' || c == ']',
        Section::Path => is_common(c) || c == '/',
        Section::Query | Section::Fragment => is_common(c) || c == '/' || c == '?',
    }
}

/// The mark with which a section begins.
pub open spec fn first_mark(section: Section) -> char {
    match section {
        Section::Auth | Section::Path => '/',
        Section::Query => '?',
        Section::Fragment => '#',
    }
}

/// What may stand for itself in a section, by its character: what can do so there, and the mark with
/// which the section begins.
pub proof fn law_literal_characters(section: Section, c: char)
    ensures
        grammar::is_literal_char(section, c) <==> is_own(section, c) || c == first_mark(section),
        is_own(section, c) ==> c != '{' && c != '}' && c != '#' && c != '%',
        is_common(c) ==> c != '?' && c != '/',
{
    let marks = seq![
        '-',
        '.',
        '_',
        '~',
        '!',
        '$',
        '&',
        '\'',
        '(',
        ')',
        '*',
        '+',
        ',',
        ';',
        '=',
        ':',
        '@',
    ];
    if marks.contains(c) {
        let i = choose|i: int| 0 <= i < marks.len() && marks[i] == c;
        assert(marks[i] == c);
    } else {
        assert forall|i: int| 0 <= i < marks.len() implies #[trigger] marks[i] != c by {}
        assert(marks[0] != c && marks[1] != c && marks[2] != c && marks[3] != c && marks[4] != c);
        assert(marks[5] != c && marks[6] != c && marks[7] != c && marks[8] != c && marks[9] != c);
        assert(marks[10] != c && marks[11] != c && marks[12] != c && marks[13] != c);
        assert(marks[14] != c && marks[15] != c && marks[16] != c);
    }
}

proof fn lemma_literal_from(section: Section, l: Seq<char>, i: int)
    requires
        0 <= i <= l.len(),
        is_token_text(section, l),
    ensures
        grammar::is_literal_from(section, l, i),
    decreases l.len() - i,
{
    if i < l.len() {
        law_literal_characters(section, l[i]);
        if grammar::is_escape(l, i) {
            lemma_literal_from(section, l, i + 3);
        } else {
            lemma_literal_from(section, l, i + 1);
        }
    }
}

/// The expressions among parts, in order.
pub open spec fn holes(parts: Seq<SpecOfPart>) -> Seq<SpecOfExpression>
    decreases parts.len(),
{
    if parts.len() == 0 {
        Seq::empty()
    } else {
        match parts.last().expression() {
            Some(e) => holes(parts.drop_last()).push(e),
            None => holes(parts.drop_last()),
        }
    }
}

/// Whether literals and expressions can follow one another: no literal is empty, and no two of them
/// stand side by side.
pub open spec fn are_tokens(section: Section, tokens: Seq<SpecOfPart>) -> bool {
    &&& forall|i: int|
        0 <= i < tokens.len() ==> match #[trigger] tokens[i] {
            SpecOfPart::Lit(l) => l.len() > 0 && is_token_text(section, l),
            SpecOfPart::Expression(e) => is_expression(e),
            _ => false,
        }
    &&& forall|i: int, j: int|
        #![trigger tokens[i], tokens[j]]
        0 <= i < tokens.len() && j == i + 1 && j < tokens.len() ==> !(tokens[i] is Lit
            && tokens[j] is Lit)
}

/// Whether a text can stand for itself in a section: each of its characters can, or is the mark with
/// which the section begins, or is a percent sign with two hexadecimal digits behind it.
pub open spec fn is_token_text(section: Section, l: Seq<char>) -> bool {
    forall|i: int|
        0 <= i < l.len() ==> is_own(section, #[trigger] l[i]) || l[i] == first_mark(section)
            || l[i] == '%' && has_digits_behind(l, i)
}

proof fn lemma_holes_push(section: Section, parts: Seq<SpecOfPart>, e: SpecOfExpression)
    ensures
        holes(grammar::push_expression(section, parts, e)) == holes(parts).push(e),
{
    reveal_with_fuel(holes, 3);
    let out = grammar::push_expression(section, parts, e);
    if e.operator != Op::Path && grammar::takes_rest(section, parts, e) {
        let l = parts.last()->Lit_0;
        if l.len() == 1 {
            assert(out.drop_last() =~= parts.drop_last());
        } else {
            assert(out.drop_last() =~= parts.drop_last().push(SpecOfPart::Lit(l.drop_last())));
            assert(out.drop_last().drop_last() =~= parts.drop_last());
        }
    } else {
        assert(out.drop_last() =~= parts);
    }
}

proof fn lemma_holes_first(tokens: Seq<SpecOfPart>)
    requires
        tokens.len() > 0,
    ensures
        holes(tokens) == (match tokens[0].expression() {
            Some(e) => seq![e],
            None => Seq::empty(),
        }) + holes(tokens.skip(1)),
    decreases tokens.len(),
{
    let own = match tokens[0].expression() {
        Some(e) => seq![e],
        None => Seq::<SpecOfExpression>::empty(),
    };
    if tokens.len() == 1 {
        assert(tokens.drop_last() =~= Seq::empty());
        assert(tokens.skip(1) =~= Seq::empty());
        assert(holes(tokens) =~= own + holes(tokens.skip(1)));
    } else {
        lemma_holes_first(tokens.drop_last());
        assert(tokens.drop_last().skip(1) =~= tokens.skip(1).drop_last());
        assert(tokens.drop_last()[0] == tokens[0]);
        assert(tokens.skip(1).last() == tokens.last());
        assert(holes(tokens) =~= own + holes(tokens.skip(1)));
    }
}

proof fn lemma_text_first(tokens: Seq<SpecOfPart>)
    requires
        tokens.len() > 0,
    ensures
        render::parts_text(tokens) == render::part_text(tokens[0]) + render::parts_text(
            tokens.skip(1),
        ),
{
    reveal_with_fuel(render::parts_text, 2);
    let first = seq![tokens[0]];
    render::law_parts_text_concat(first, tokens.skip(1));
    assert(first + tokens.skip(1) =~= tokens);
    assert(first.drop_last() =~= Seq::empty());
    assert(render::parts_text(first) =~= render::part_text(tokens[0]));
}

proof fn lemma_tokens_skip(section: Section, tokens: Seq<SpecOfPart>)
    requires
        are_tokens(section, tokens),
        tokens.len() > 0,
    ensures
        are_tokens(section, tokens.skip(1)),
{
    let rest = tokens.skip(1);
    assert forall|i: int| 0 <= i < rest.len() implies match #[trigger] rest[i] {
        SpecOfPart::Lit(l) => l.len() > 0 && is_token_text(section, l),
        SpecOfPart::Expression(e) => is_expression(e),
        _ => false,
    } by {
        assert(rest[i] == tokens[i + 1]);
    }
    assert forall|i: int, j: int|
        #![trigger rest[i], rest[j]]
        0 <= i < rest.len() && j == i + 1 && j < rest.len() implies !(rest[i] is Lit
        && rest[j] is Lit) by {
        assert(rest[i] == tokens[i + 1] && rest[j] == tokens[j + 1]);
    }
}

proof fn lemma_literal_step(
    section: Section,
    s: Seq<char>,
    at: int,
    end: int,
    parts: Seq<SpecOfPart>,
    l: Seq<char>,
)
    requires
        0 <= at < end <= s.len(),
        s.subrange(at, end) == l,
        is_token_text(section, l),
        end == s.len() || s[end] == '{',
    ensures
        grammar::parts_from(section, s, at, parts) == grammar::parts_from(
            section,
            s,
            end,
            parts.push(SpecOfPart::Lit(l)),
        ),
{
    assert forall|j: int| at <= j < end implies s[j] != '{' by {
        assert(s[j] == l[j - at]);
        law_literal_characters(section, l[j - at]);
    }
    if end == s.len() {
        lemma_find_nothing(s, '{', at);
    } else {
        lemma_find_at(s, '{', at, end);
    }
    lemma_literal_from(section, l, 0);
}

proof fn lemma_expression_step(
    section: Section,
    s: Seq<char>,
    at: int,
    end: int,
    parts: Seq<SpecOfPart>,
    e: SpecOfExpression,
)
    requires
        0 <= at < end <= s.len(),
        s.subrange(at, end) == render::expression_text(e),
        is_expression(e),
    ensures
        grammar::parts_from(section, s, at, parts) == grammar::parts_from(
            section,
            s,
            end,
            grammar::push_expression(section, parts, e),
        ),
{
    let own = render::expression_text(e);
    let body = render::body_text(e);
    let close = end - 1;
    law_expressions_are_read(e);
    assert(own =~= seq!['{'] + body + seq!['}']);
    assert(s.subrange(at, end).len() == end - at);
    assert(end - at == body.len() + 2);
    assert forall|j: int| at <= j < end implies s[j] == #[trigger] own[j - at] by {
        assert(s.subrange(at, end)[j - at] == s[j]);
    }
    assert(s[at] == own[0] && s[close] == own[close - at]);
    assert forall|j: int| at <= j < close implies s[j] != '}' by {
        assert(s[j] == own[j - at]);
        if j > at {
            assert(own[j - at] == body[j - at - 1]);
            assert(body.contains(body[j - at - 1]));
        }
    }
    lemma_find_at(s, '}', at, close);
    assert(s.subrange(at + 1, close) =~= body) by {
        assert forall|j: int| 0 <= j < body.len() implies s.subrange(at + 1, close)[j] == body[j] by {
            assert(s[at + 1 + j] == own[at + 1 + j - at]);
        }
    }
}

proof fn lemma_parts_are_read(
    section: Section,
    s: Seq<char>,
    at: int,
    parts: Seq<SpecOfPart>,
    tokens: Seq<SpecOfPart>,
)
    requires
        are_tokens(section, tokens),
        0 <= at <= s.len(),
        s.skip(at) == render::parts_text(tokens),
    ensures
        grammar::parts_from(section, s, at, parts) matches Some(read) && holes(read) == holes(parts)
            + holes(tokens),
    decreases tokens.len(),
{
    let whole = render::parts_text(tokens);
    if tokens.len() == 0 {
        assert(whole.len() == 0);
        assert(holes(parts) + holes(tokens) =~= holes(parts));
    } else {
        let rest = tokens.skip(1);
        let own = render::part_text(tokens[0]);
        let end = at + own.len();
        lemma_text_first(tokens);
        lemma_holes_first(tokens);
        lemma_tokens_skip(section, tokens);
        assert(s.skip(end) =~= s.skip(at).skip(own.len() as int));
        assert(whole.skip(own.len() as int) =~= render::parts_text(rest));
        assert(s.subrange(at, end) =~= s.skip(at).take(own.len() as int));
        assert(whole.take(own.len() as int) =~= own);
        match tokens[0] {
            SpecOfPart::Lit(l) => {
                if rest.len() > 0 {
                    assert(!(tokens[0] is Lit && tokens[1] is Lit));
                    assert(rest[0] == tokens[1]);
                    lemma_text_first(rest);
                    assert(s.skip(end)[0] == '{');
                }
                lemma_literal_step(section, s, at, end, parts, l);
                let next = parts.push(SpecOfPart::Lit(l));
                lemma_parts_are_read(section, s, end, next, rest);
                assert(next.drop_last() =~= parts);
                assert(holes(next) == holes(parts));
                assert(holes(parts) + holes(tokens) =~= holes(next) + holes(rest));
            },
            SpecOfPart::Expression(e) => {
                assert(own == render::expression_text(e));
                lemma_expression_step(section, s, at, end, parts, e);
                let next = grammar::push_expression(section, parts, e);
                lemma_holes_push(section, parts, e);
                lemma_parts_are_read(section, s, end, next, rest);
                assert(holes(parts) + holes(tokens) =~= holes(next) + holes(rest));
            },
            _ => {},
        }
    }
}

/// Whether no section of a kind begins in a text, nor at its end with what may follow.
spec fn begins_nowhere(section: Section, s: Seq<char>) -> bool {
    &&& forall|j: int| 0 <= j < s.len() ==> !#[trigger] grammar::is_start(section, s, j)
    &&& s.len() > 0 ==> s.last() != '{'
}

proof fn lemma_nowhere_in_two(section: Section, a: Seq<char>, b: Seq<char>)
    requires
        begins_nowhere(section, a),
    ensures
        forall|j: int| 0 <= j < a.len() ==> !#[trigger] grammar::is_start(section, a + b, j),
        begins_nowhere(section, b) ==> begins_nowhere(section, a + b),
{
    let whole = a + b;
    assert forall|j: int| 0 <= j < a.len() implies !#[trigger] grammar::is_start(section, whole, j) by {
        assert(!grammar::is_start(section, a, j));
        assert(whole[j] == a[j]);
    }
    if begins_nowhere(section, b) {
        assert forall|j: int| 0 <= j < whole.len() implies !#[trigger] grammar::is_start(
            section,
            whole,
            j,
        ) by {
            if j >= a.len() {
                assert(!grammar::is_start(section, b, j - a.len()));
                assert(whole[j] == b[j - a.len()]);
            }
        }
    }
}

/// Whether an expression with an operator begins a section.
pub open spec fn opens(section: Section, op: Op) -> bool {
    match section {
        Section::Auth => false,
        Section::Path => op == Op::Path,
        Section::Query => op == Op::Query || op == Op::QueryCont,
        Section::Fragment => op == Op::Fragment,
    }
}

/// Whether a later section begins in no token: no literal holds its mark, and no expression opens it.
pub open spec fn are_before(section: Section, tokens: Seq<SpecOfPart>) -> bool {
    forall|i: int|
        0 <= i < tokens.len() ==> match #[trigger] tokens[i] {
            SpecOfPart::Lit(l) => !l.contains(first_mark(section)),
            SpecOfPart::Expression(e) => !opens(section, e.operator),
            _ => false,
        }
}

proof fn lemma_nowhere_in_token(section: Section, kind: Section, token: SpecOfPart)
    requires
        section != Section::Auth,
        match token {
            SpecOfPart::Lit(l) => l.len() > 0 && is_token_text(kind, l) && !l.contains(
                first_mark(section),
            ),
            SpecOfPart::Expression(e) => is_expression(e) && !opens(section, e.operator),
            _ => false,
        },
    ensures
        begins_nowhere(section, render::part_text(token)),
{
    let s = render::part_text(token);
    match token {
        SpecOfPart::Lit(l) => {
            assert forall|j: int| 0 <= j < s.len() implies !#[trigger] grammar::is_start(
                section,
                s,
                j,
            ) by {
                assert(l.contains(l[j]));
                law_literal_characters(kind, l[j]);
            }
            law_literal_characters(kind, l[l.len() - 1]);
        },
        SpecOfPart::Expression(e) => {
            let body = render::body_text(e);
            law_expressions_are_read(e);
            assert(s =~= seq!['{'] + body + seq!['}']);
            assert forall|j: int| 0 <= j < s.len() implies !#[trigger] grammar::is_start(
                section,
                s,
                j,
            ) by {
                if j == 0 {
                    assert(s[1] == body[0]);
                } else if j <= body.len() {
                    assert(s[j] == body[j - 1]);
                    assert(body.contains(body[j - 1]));
                    if j == 1 {
                        assert(s[1] == body[0]);
                    }
                }
            }
        },
        _ => {},
    }
}

proof fn lemma_nowhere(section: Section, kind: Section, tokens: Seq<SpecOfPart>)
    requires
        section != Section::Auth,
        are_tokens(kind, tokens),
        are_before(section, tokens),
    ensures
        begins_nowhere(section, render::parts_text(tokens)),
    decreases tokens.len(),
{
    if tokens.len() > 0 {
        let rest = tokens.skip(1);
        lemma_tokens_skip(kind, tokens);
        assert forall|i: int| 0 <= i < rest.len() implies match #[trigger] rest[i] {
            SpecOfPart::Lit(l) => !l.contains(first_mark(section)),
            SpecOfPart::Expression(e) => !opens(section, e.operator),
            _ => false,
        } by {
            assert(rest[i] == tokens[i + 1]);
        }
        lemma_nowhere(section, kind, rest);
        lemma_nowhere_in_token(section, kind, tokens[0]);
        lemma_text_first(tokens);
        lemma_nowhere_in_two(
            section,
            render::part_text(tokens[0]),
            render::parts_text(rest),
        );
    }
}

proof fn lemma_start_at(section: Section, s: Seq<char>, i: int, at: int, end: int)
    requires
        i <= at <= end,
        forall|j: int| i <= j < at ==> !#[trigger] grammar::is_start(section, s, j),
        at < end ==> grammar::is_start(section, s, at),
    ensures
        grammar::start_from(section, s, i, end) == at,
    decreases at - i,
{
    if i < at {
        assert(!grammar::is_start(section, s, i));
        lemma_start_at(section, s, i + 1, at, end);
    }
}

/// Whether a section begins with its mark, or with an expression that writes it.
pub open spec fn begins(section: Section, tokens: Seq<SpecOfPart>) -> bool {
    tokens.len() > 0 && match tokens[0] {
        SpecOfPart::Lit(l) => l.len() > 0 && l[0] == first_mark(section),
        SpecOfPart::Expression(e) => opens(section, e.operator),
        _ => false,
    }
}

/// Whether a fragment holds no second one: its mark stands at its beginning only.
pub open spec fn is_one_fragment(tokens: Seq<SpecOfPart>) -> bool {
    tokens.len() > 0 ==> are_before(Section::Fragment, tokens.skip(1)) && match tokens[0] {
        SpecOfPart::Lit(l) => !l.skip(1).contains('#'),
        _ => true,
    }
}

/// Whether a path, a query and a fragment can follow one another. The query and the fragment may be
/// missing.
pub open spec fn are_sections(
    path: Seq<SpecOfPart>,
    query: Seq<SpecOfPart>,
    fragment: Seq<SpecOfPart>,
) -> bool {
    &&& are_tokens(Section::Path, path)
    &&& are_before(Section::Query, path)
    &&& are_before(Section::Fragment, path)
    &&& are_tokens(Section::Query, query)
    &&& query.len() > 0 ==> begins(Section::Query, query)
    &&& are_before(Section::Fragment, query)
    &&& are_tokens(Section::Fragment, fragment)
    &&& fragment.len() > 0 ==> begins(Section::Fragment, fragment)
    &&& is_one_fragment(fragment)
}

proof fn lemma_start_in_second(section: Section, a: Seq<char>, b: Seq<char>, j: int)
    requires
        0 <= j < b.len(),
    ensures
        grammar::is_start(section, a + b, a.len() + j) == grammar::is_start(section, b, j),
{
    let whole = a + b;
    assert(whole[a.len() + j] == b[j]);
    if j + 1 < b.len() {
        assert(whole[a.len() + j + 1] == b[j + 1]);
    }
}

proof fn lemma_begins(section: Section, kind: Section, tokens: Seq<SpecOfPart>)
    requires
        section != Section::Auth,
        are_tokens(kind, tokens),
        begins(section, tokens),
    ensures
        render::parts_text(tokens).len() > 0,
        grammar::is_start(section, render::parts_text(tokens), 0),
        render::parts_text(tokens)[0] == first_mark(section) || render::parts_text(tokens)[0] == '{',
{
    let s = render::parts_text(tokens);
    lemma_text_first(tokens);
    match tokens[0] {
        SpecOfPart::Lit(l) => {
            assert(s[0] == l[0]);
        },
        SpecOfPart::Expression(e) => {
            let own = render::expression_text(e);
            let body = render::body_text(e);
            law_expressions_are_read(e);
            assert(own =~= seq!['{'] + body + seq!['}']);
            assert(s[0] == own[0] && s[1] == own[1] && own[1] == body[0]);
        },
        _ => {},
    }
}

proof fn lemma_tokens_text_len(section: Section, tokens: Seq<SpecOfPart>)
    requires
        are_tokens(section, tokens),
    ensures
        render::parts_text(tokens).len() == 0 <==> tokens.len() == 0,
{
    if tokens.len() > 0 {
        lemma_text_first(tokens);
        match tokens[0] {
            SpecOfPart::Lit(l) => {},
            SpecOfPart::Expression(e) => {
                assert(render::expression_text(e).len() >= 2);
            },
            _ => {},
        }
    }
}

proof fn lemma_one_fragment(a: Seq<char>, fragment: Seq<SpecOfPart>)
    requires
        are_tokens(Section::Fragment, fragment),
        fragment.len() > 0 ==> begins(Section::Fragment, fragment),
        is_one_fragment(fragment),
    ensures
        grammar::is_last_fragment(a + render::parts_text(fragment), a.len() as int),
{
    if fragment.len() > 0 {
        let kind = Section::Fragment;
        let f = render::parts_text(fragment);
        let s = a + f;
        let rest = fragment.skip(1);
        let tail = render::parts_text(rest);
        lemma_begins(kind, kind, fragment);
        lemma_text_first(fragment);
        lemma_tokens_skip(kind, fragment);
        lemma_nowhere(kind, kind, rest);
        assert(s[a.len() as int] == f[0]);
        match fragment[0] {
            SpecOfPart::Lit(l) => {
                let behind = l.skip(1);
                assert forall|j: int| 0 <= j < behind.len() implies !#[trigger] grammar::is_start(
                    kind,
                    behind,
                    j,
                ) by {
                    assert(behind.contains(behind[j]));
                    law_literal_characters(kind, l[j + 1]);
                }
                if behind.len() > 0 {
                    law_literal_characters(kind, l[l.len() - 1]);
                    assert(behind.last() == l[l.len() - 1]);
                    assert(behind.contains(behind.last()));
                }
                assert(begins_nowhere(kind, behind));
                lemma_nowhere_in_two(kind, behind, tail);
                assert(f[0] == l[0]);
                assert(f =~= seq![l[0]] + (behind + tail));
                lemma_no_start_behind(a, seq![l[0]], behind + tail);
            },
            SpecOfPart::Expression(e) => {
                let own = render::expression_text(e);
                let body = render::body_text(e);
                law_expressions_are_read(e);
                assert(own =~= seq!['{'] + body + seq!['}']);
                let behind = own.skip(2);
                let first = own.take(2);
                assert forall|j: int| 0 <= j < behind.len() implies !#[trigger] grammar::is_start(
                    kind,
                    behind,
                    j,
                ) by {
                    assert(behind[j] == own[j + 2]);
                    if j + 2 <= body.len() {
                        assert(own[j + 2] == body[j + 1]);
                        assert(body.contains(body[j + 1]));
                    }
                }
                assert(behind.last() == own[own.len() - 1]);
                assert(begins_nowhere(kind, behind));
                lemma_nowhere_in_two(kind, behind, tail);
                assert(f[0] == '{');
                assert(f =~= first + (behind + tail));
                lemma_no_start_behind(a, first, behind + tail);
            },
            _ => {},
        }
    }
}

proof fn lemma_no_start_behind(a: Seq<char>, first: Seq<char>, behind: Seq<char>)
    requires
        begins_nowhere(Section::Fragment, behind),
    ensures
        grammar::start_from(
            Section::Fragment,
            a + (first + behind),
            (a.len() + first.len()) as int,
            (a + (first + behind)).len() as int,
        ) == (a + (first + behind)).len(),
{
    let s = a + (first + behind);
    let front = a + first;
    assert(s =~= front + behind);
    assert forall|j: int| front.len() <= j < s.len() implies !#[trigger] grammar::is_start(
        Section::Fragment,
        s,
        j,
    ) by {
        lemma_start_in_second(Section::Fragment, front, behind, j - front.len());
        assert(!grammar::is_start(Section::Fragment, behind, j - front.len()));
    }
    lemma_start_at(
        Section::Fragment,
        s,
        front.len() as int,
        s.len() as int,
        s.len() as int,
    );
}

proof fn lemma_section_is_read(section: Section, tokens: Seq<SpecOfPart>)
    requires
        are_tokens(section, tokens),
    ensures
        ({
            let s = render::parts_text(tokens);
            &&& grammar::section_of(section, s) matches Some(parts) && holes(parts) == holes(tokens)
                && render::parts_text(parts) == s
            &&& grammar::optional_section(section, s) matches Some(found) && holes(
                parser::section_parts(found),
            ) == holes(tokens) && render::parts_text(parser::section_parts(found)) == s && (
            found is Some <==> tokens.len() > 0)
        }),
{
    let s = render::parts_text(tokens);
    assert(s.skip(0) =~= s);
    lemma_parts_are_read(section, s, 0, Seq::empty(), tokens);
    assert(holes(Seq::empty()) + holes(tokens) =~= holes(tokens));
    grammar::lemma_section_text(section, s);
    lemma_tokens_text_len(section, tokens);
}

/// Whether a template was read with these sections: each has the text and the expressions of its own,
/// and is missing where it is empty, but for the path.
pub open spec fn has_sections(
    template: SpecOfParsed,
    auth: Seq<SpecOfPart>,
    path: Seq<SpecOfPart>,
    query: Seq<SpecOfPart>,
    fragment: Seq<SpecOfPart>,
) -> bool {
    &&& template.auth is Some <==> auth.len() > 0
    &&& template.query is Some <==> query.len() > 0
    &&& template.fragment is Some <==> fragment.len() > 0
    &&& render::parts_text(parser::section_parts(template.auth)) == render::parts_text(auth)
    &&& render::parts_text(template.path) == render::parts_text(path)
    &&& render::parts_text(parser::section_parts(template.query)) == render::parts_text(query)
    &&& render::parts_text(parser::section_parts(template.fragment)) == render::parts_text(fragment)
    &&& holes(parser::section_parts(template.auth)) == holes(auth)
    &&& holes(template.path) == holes(path)
    &&& holes(parser::section_parts(template.query)) == holes(query)
    &&& holes(parser::section_parts(template.fragment)) == holes(fragment)
    &&& template.path_assoc is None
    &&& template.query_assoc is None
}

/// The text that four sections write.
pub open spec fn sections_text(
    auth: Seq<SpecOfPart>,
    path: Seq<SpecOfPart>,
    query: Seq<SpecOfPart>,
    fragment: Seq<SpecOfPart>,
) -> Seq<char> {
    render::parts_text(auth) + render::parts_text(path) + render::parts_text(query)
        + render::parts_text(fragment)
}

proof fn lemma_section_starts(a: Seq<char>, p: Seq<char>, q: Seq<char>, f: Seq<char>)
    requires
        begins_nowhere(Section::Fragment, a + p + q),
        begins_nowhere(Section::Query, a + p),
        f.len() > 0 ==> grammar::is_start(Section::Fragment, f, 0),
        q.len() > 0 ==> grammar::is_start(Section::Query, q, 0),
    ensures
        ({
            let s = a + p + q + f;
            let query_start = (a.len() + p.len()) as int;
            let fragment_start = (a.len() + p.len() + q.len()) as int;
            &&& grammar::start_from(Section::Fragment, s, 0, s.len() as int) == fragment_start
            &&& grammar::start_from(Section::Query, s, 0, fragment_start) == query_start
            &&& s.take(a.len() as int) == a
            &&& s.subrange(a.len() as int, query_start) == p
            &&& s.subrange(query_start, fragment_start) == q
            &&& s.skip(fragment_start) == f
        }),
{
    let s = a + p + q + f;
    let query_start = (a.len() + p.len()) as int;
    let fragment_start = (a.len() + p.len() + q.len()) as int;
    lemma_nowhere_in_two(Section::Fragment, a + p + q, f);
    if f.len() > 0 {
        lemma_start_in_second(Section::Fragment, a + p + q, f, 0);
    }
    lemma_start_at(Section::Fragment, s, 0, fragment_start, s.len() as int);
    lemma_nowhere_in_two(Section::Query, a + p, q + f);
    assert(s =~= a + p + (q + f));
    if q.len() > 0 {
        lemma_start_in_longer(Section::Query, q, f);
        lemma_start_in_second(Section::Query, a + p, q + f, 0);
    }
    lemma_start_at(Section::Query, s, 0, query_start, fragment_start);
    assert(s.take(a.len() as int) =~= a);
    assert(s.subrange(a.len() as int, query_start) =~= p);
    assert(s.subrange(query_start, fragment_start) =~= q);
    assert(s.skip(fragment_start) =~= f);
}

proof fn lemma_sections_begin(
    auth: Seq<SpecOfPart>,
    path: Seq<SpecOfPart>,
    query: Seq<SpecOfPart>,
    fragment: Seq<SpecOfPart>,
)
    requires
        are_sections(path, query, fragment),
        are_tokens(Section::Auth, auth),
        are_before(Section::Query, auth),
        are_before(Section::Fragment, auth),
    ensures
        ({
            let a = render::parts_text(auth);
            let p = render::parts_text(path);
            let q = render::parts_text(query);
            let f = render::parts_text(fragment);
            &&& begins_nowhere(Section::Fragment, a + p + q)
            &&& begins_nowhere(Section::Query, a + p)
            &&& f.len() > 0 ==> grammar::is_start(Section::Fragment, f, 0)
            &&& q.len() > 0 ==> grammar::is_start(Section::Query, q, 0)
        }),
{
    let a = render::parts_text(auth);
    let p = render::parts_text(path);
    let q = render::parts_text(query);
    lemma_nowhere(Section::Fragment, Section::Auth, auth);
    lemma_nowhere(Section::Fragment, Section::Path, path);
    lemma_nowhere(Section::Fragment, Section::Query, query);
    lemma_nowhere(Section::Query, Section::Auth, auth);
    lemma_nowhere(Section::Query, Section::Path, path);
    lemma_nowhere_in_two(Section::Fragment, a, p);
    lemma_nowhere_in_two(Section::Fragment, a + p, q);
    lemma_nowhere_in_two(Section::Query, a, p);
    lemma_tokens_text_len(Section::Fragment, fragment);
    lemma_tokens_text_len(Section::Query, query);
    if fragment.len() > 0 {
        lemma_begins(Section::Fragment, Section::Fragment, fragment);
    }
    if query.len() > 0 {
        lemma_begins(Section::Query, Section::Query, query);
    }
}

proof fn lemma_sections_are_read(
    auth: Seq<SpecOfPart>,
    path: Seq<SpecOfPart>,
    query: Seq<SpecOfPart>,
    fragment: Seq<SpecOfPart>,
)
    requires
        are_sections(path, query, fragment),
        are_tokens(Section::Auth, auth),
        are_before(Section::Query, auth),
        are_before(Section::Fragment, auth),
        ({
            let s = sections_text(auth, path, query, fragment);
            let end = (render::parts_text(auth).len() + render::parts_text(path).len()) as int;
            match grammar::authority_start(s) {
                Some(from) => grammar::start_from(Section::Path, s, from, end)
                    == render::parts_text(auth).len(),
                None => auth.len() == 0 && s.len() > 0 && grammar::is_start(Section::Path, s, 0),
            }
        }),
    ensures
        grammar::template_of(sections_text(auth, path, query, fragment)) matches Some(template)
            && has_sections(template, auth, path, query, fragment),
{
    let a = render::parts_text(auth);
    let p = render::parts_text(path);
    let q = render::parts_text(query);
    let f = render::parts_text(fragment);
    lemma_section_is_read(Section::Auth, auth);
    lemma_section_is_read(Section::Path, path);
    lemma_section_is_read(Section::Query, query);
    lemma_section_is_read(Section::Fragment, fragment);
    lemma_sections_begin(auth, path, query, fragment);
    lemma_section_starts(a, p, q, f);
    lemma_one_fragment(a + p + q, fragment);
    if auth.len() == 0 {
        assert(a =~= Seq::empty());
    }
}

proof fn lemma_start_in_longer(section: Section, a: Seq<char>, b: Seq<char>)
    requires
        a.len() > 0,
        grammar::is_start(section, a, 0),
    ensures
        grammar::is_start(section, a + b, 0),
{
    assert((a + b)[0] == a[0]);
    if a.len() > 1 {
        assert((a + b)[1] == a[1]);
    }
}

/// Every text of a template without an authority is read, each section with its own text and its own
/// expressions. Its path begins with one slash, or with an expression that writes one.
pub proof fn law_templates_are_read(
    path: Seq<SpecOfPart>,
    query: Seq<SpecOfPart>,
    fragment: Seq<SpecOfPart>,
)
    requires
        are_sections(path, query, fragment),
        begins(Section::Path, path),
        path[0] matches SpecOfPart::Lit(l) ==> l.len() > 1 ==> l[1] != '/',
    ensures
        grammar::template_of(sections_text(Seq::empty(), path, query, fragment)) matches Some(template)
            && has_sections(template, Seq::empty(), path, query, fragment),
{
    let auth = Seq::<SpecOfPart>::empty();
    let p = render::parts_text(path);
    let q = render::parts_text(query);
    let f = render::parts_text(fragment);
    let s = sections_text(auth, path, query, fragment);
    lemma_begins(Section::Path, Section::Path, path);
    lemma_start_in_longer(Section::Path, p, q + f);
    assert(render::parts_text(auth).len() == 0);
    assert(s =~= p + (q + f));
    assert(s[0] == p[0]);
    lemma_text_first(path);
    if let SpecOfPart::Lit(l) = path[0] {
        let rest = path.skip(1);
        assert(p[0] == l[0]);
        if l.len() > 1 {
            assert(p[1] == l[1] && s[1] == p[1]);
        } else if rest.len() > 0 {
            assert(!(path[0] is Lit && path[1] is Lit));
            assert(rest[0] == path[1]);
            lemma_text_first(rest);
            assert(render::parts_text(rest)[0] == '{');
            assert(p[1] == '{' && s[1] == p[1]);
        } else {
            assert(render::parts_text(rest).len() == 0);
            assert(p.len() == 1);
            lemma_tokens_text_len(Section::Query, query);
            lemma_tokens_text_len(Section::Fragment, fragment);
            if query.len() > 0 {
                lemma_begins(Section::Query, Section::Query, query);
                assert(s[1] == q[0]);
            } else if fragment.len() > 0 {
                lemma_begins(Section::Fragment, Section::Fragment, fragment);
                assert(q =~= Seq::empty());
                assert(s[1] == f[0]);
            }
        }
    }
    assert(grammar::authority_start(s) is None);
    lemma_sections_are_read(auth, path, query, fragment);
}

/// Whether a text can be a scheme: a letter, and after it letters, digits and the marks `+`, `-` and
/// `.`.
pub open spec fn is_scheme(s: Seq<char>) -> bool {
    &&& s.len() > 0
    &&& 'a' <= s[0] <= 'z' || 'A' <= s[0] <= 'Z'
    &&& forall|i: int|
        0 <= i < s.len() ==> is_alphanumeric(#[trigger] s[i]) || s[i] == '+' || s[i] == '-' || s[i]
            == '.'
}

/// What stands before an authority: two slashes, and before them a scheme and a colon, if there is
/// a scheme.
pub open spec fn before_authority(scheme: Option<Seq<char>>) -> Seq<char> {
    match scheme {
        Some(name) => name + seq![':', '/', '/'],
        None => seq!['/', '/'],
    }
}

/// The literals and expressions once a text stands before them.
pub open spec fn after_text(before: Seq<char>, tokens: Seq<SpecOfPart>) -> Seq<SpecOfPart> {
    if tokens.len() > 0 && tokens[0] is Lit {
        seq![SpecOfPart::Lit(before + tokens[0]->Lit_0)] + tokens.skip(1)
    } else {
        seq![SpecOfPart::Lit(before)] + tokens
    }
}

proof fn lemma_scheme_end_at(s: Seq<char>, i: int, end: int)
    requires
        0 <= i <= end < s.len(),
        forall|j: int| i <= j < end ==> grammar::is_scheme_char(#[trigger] s[j]),
        !grammar::is_scheme_char(s[end]),
    ensures
        grammar::scheme_end(s, i) == end,
    decreases end - i,
{
    if i < end {
        assert(grammar::is_scheme_char(s[i]));
        lemma_scheme_end_at(s, i + 1, end);
    }
}

proof fn lemma_before_authority(scheme: Option<Seq<char>>, behind: Seq<char>)
    requires
        scheme matches Some(name) ==> is_scheme(name),
    ensures
        grammar::authority_start(before_authority(scheme) + behind) == Some(
            before_authority(scheme).len() as int,
        ),
        is_token_text(Section::Auth, before_authority(scheme)),
        !before_authority(scheme).contains('?'),
        !before_authority(scheme).contains('#'),
        before_authority(scheme).len() > 0,
{
    let before = before_authority(scheme);
    let s = before + behind;
    assert forall|i: int| 0 <= i < before.len() implies s[i] == before[i] by {}
    match scheme {
        Some(name) => {
            assert forall|i: int| 0 <= i < name.len() implies grammar::is_scheme_char(
                #[trigger] s[i],
            ) by {
                assert(s[i] == name[i]);
            }
            assert(s[0] == name[0]);
            assert(s[name.len() as int] == ':');
            assert(s[name.len() as int + 1] == '/');
            assert(s[name.len() as int + 2] == '/');
            lemma_scheme_end_at(s, 0, name.len() as int);
            assert forall|i: int| 0 <= i < before.len() implies (is_own(
                Section::Auth,
                #[trigger] before[i],
            ) || before[i] == '/') && before[i] != '?' && before[i] != '#' by {
                if i < name.len() {
                    assert(before[i] == name[i]);
                }
                law_literal_characters(Section::Auth, before[i]);
            }
        },
        None => {
            assert(s[0] == '/' && s[1] == '/');
        },
    }
}

proof fn lemma_after_text(before: Seq<char>, tokens: Seq<SpecOfPart>)
    requires
        are_tokens(Section::Auth, tokens),
        are_before(Section::Query, tokens),
        are_before(Section::Fragment, tokens),
        is_token_text(Section::Auth, before),
        before.len() > 0,
        !before.contains('?'),
        !before.contains('#'),
    ensures
        are_tokens(Section::Auth, after_text(before, tokens)),
        are_before(Section::Query, after_text(before, tokens)),
        are_before(Section::Fragment, after_text(before, tokens)),
        render::parts_text(after_text(before, tokens)) == before + render::parts_text(tokens),
        holes(after_text(before, tokens)) == holes(tokens),
{
    let out = after_text(before, tokens);
    let first = out[0]->Lit_0;
    lemma_text_first(out);
    lemma_holes_first(out);
    if tokens.len() > 0 {
        lemma_text_first(tokens);
        lemma_holes_first(tokens);
    }
    let merged = tokens.len() > 0 && tokens[0] is Lit;
    let shift: int = if merged {
        0
    } else {
        1
    };
    let l = if merged {
        tokens[0]->Lit_0
    } else {
        Seq::empty()
    };
    assert(first =~= before + l);
    assert forall|i: int| 1 <= i < out.len() implies out[i] == #[trigger] tokens[i - shift] by {}
    assert forall|i: int| 0 <= i < first.len() implies (is_own(Section::Auth, #[trigger] first[i])
        || first[i] == '/' || first[i] == '%' && has_digits_behind(first, i)) && first[i] != '?'
        && first[i] != '#' by {
        if i < before.len() {
            assert(first[i] == before[i]);
            assert(before.contains(before[i]));
            assert(is_own(Section::Auth, before[i]) || before[i] == '/' || before[i] == '%'
                && has_digits_behind(before, i));
            if before[i] == '%' && has_digits_behind(before, i) {
                assert(first[i + 1] == before[i + 1] && first[i + 2] == before[i + 2]);
            }
        } else {
            let k = i - before.len();
            assert(first[i] == l[k]);
            assert(l.contains(l[k]));
            assert(is_own(Section::Auth, l[k]) || l[k] == '/' || l[k] == '%' && has_digits_behind(
                l,
                k,
            ));
            if l[k] == '%' && has_digits_behind(l, k) {
                assert(first[i + 1] == l[k + 1] && first[i + 2] == l[k + 2]);
            }
        }
    }
    assert(!first.contains('?') && !first.contains('#'));
    assert forall|i: int| 0 <= i < out.len() implies match #[trigger] out[i] {
        SpecOfPart::Lit(l) => l.len() > 0 && is_token_text(Section::Auth, l) && !l.contains('?')
            && !l.contains('#'),
        SpecOfPart::Expression(e) => is_expression(e) && !opens(Section::Query, e.operator)
            && !opens(Section::Fragment, e.operator),
        _ => false,
    } by {
        if i > 0 {
            assert(out[i] == tokens[i - shift]);
        }
    }
    assert forall|i: int, j: int|
        #![trigger out[i], out[j]]
        0 <= i < out.len() && j == i + 1 && j < out.len() implies !(out[i] is Lit
        && out[j] is Lit) by {
        assert(out[j] == tokens[j - shift]);
        if i > 0 {
            assert(out[i] == tokens[i - shift]);
        } else if merged {
            assert(!(tokens[0] is Lit && tokens[1] is Lit));
        }
    }
    if merged {
        assert(out.skip(1) =~= tokens.skip(1));
    } else {
        assert(out.skip(1) =~= tokens);
    }
    assert(render::parts_text(out) =~= before + render::parts_text(tokens));
    assert(holes(out) =~= holes(tokens));
}

/// Every text of a template with an authority is read, each section with its own text and its own
/// expressions. The path is empty, or begins with a slash or with an expression that writes one.
pub proof fn law_templates_with_authority_are_read(
    scheme: Option<Seq<char>>,
    authority: Seq<SpecOfPart>,
    path: Seq<SpecOfPart>,
    query: Seq<SpecOfPart>,
    fragment: Seq<SpecOfPart>,
)
    requires
        scheme matches Some(name) ==> is_scheme(name),
        are_tokens(Section::Auth, authority),
        are_before(Section::Path, authority),
        are_before(Section::Query, authority),
        are_before(Section::Fragment, authority),
        are_sections(path, query, fragment),
        path.len() > 0 ==> begins(Section::Path, path),
    ensures
        ({
            let auth = after_text(before_authority(scheme), authority);
            &&& render::parts_text(auth) == before_authority(scheme) + render::parts_text(authority)
            &&& holes(auth) == holes(authority)
            &&& grammar::template_of(sections_text(auth, path, query, fragment)) matches Some(
                template,
            ) && has_sections(template, auth, path, query, fragment)
        }),
{
    let before = before_authority(scheme);
    let auth = after_text(before, authority);
    let h = render::parts_text(authority);
    let p = render::parts_text(path);
    let q = render::parts_text(query);
    let f = render::parts_text(fragment);
    let s = sections_text(auth, path, query, fragment);
    let from = before.len() as int;
    let behind = h + (p + q + f);
    lemma_before_authority(scheme, behind);
    lemma_after_text(before, authority);
    assert(s =~= before + behind);
    let path_start = (before.len() + h.len()) as int;
    let query_start = path_start + p.len();
    lemma_nowhere(Section::Path, Section::Auth, authority);
    lemma_nowhere_in_two(Section::Path, h, p + q + f);
    assert forall|j: int| from <= j < path_start implies !#[trigger] grammar::is_start(
        Section::Path,
        s,
        j,
    ) by {
        lemma_start_in_second(Section::Path, before, behind, j - from);
        assert(!grammar::is_start(Section::Path, behind, j - from));
    }
    if path.len() > 0 {
        lemma_begins(Section::Path, Section::Path, path);
        lemma_start_in_longer(Section::Path, p, q + f);
        assert(p + q + f =~= p + (q + f));
        lemma_start_in_second(Section::Path, before + h, p + q + f, 0);
        assert(s =~= (before + h) + (p + q + f));
    }
    lemma_start_at(Section::Path, s, from, path_start, query_start);
    lemma_sections_are_read(auth, path, query, fragment);
}

} // verus!
