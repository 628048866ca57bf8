//! Filling a template with values.
use crate::dict::Dict;
use crate::escape;
use crate::escape::escape_reserved;
use crate::parser;
use crate::parser::{
    Expression, Op, Parsed, Part, SpecOfExpression, SpecOfPart, SpecOfVar, VarMod, VarSpec,
};
use crate::text;
use crate::text::{chars_of, decimal_text, text_between};
use crate::FillPolicy;
use vstd::prelude::*;

verus! {

broadcast use crate::text::texts_push;

/// `core::str::Utf8Error`, which says where bytes stop being UTF-8.
#[verifier::external_type_specification]
#[verifier::external_body]
pub struct ExUtf8Error(core::str::Utf8Error);

/// Why a template could not be filled.
#[derive(Debug)]
pub enum Error {
    CustomError(String),
    /// Fewer values are given than the template has variables.
    MissingPositionalFields(usize, usize),
    /// More values are given than the template has variables.
    ExtraPositionalFields(usize, usize),
    /// A value is given after all variables have theirs.
    OverrunPositionalField,
    /// A variable has no value.
    MissingNamedVariable(String),
    /// A variable of the template is not among the bindings.
    BindingsDontMatchExpression,
    /// A value that cannot be a key.
    InvalidKeyType(String),
    /// A value is given before its key.
    SerializationStateError,
    /// A value is given for a name that is no variable of the template.
    ExtraNamedField(String),
    NotUTF8(core::str::Utf8Error),
    /// A value that cannot stand inside a list or a map.
    InvalidComplexType(String),
    /// A variable of which only the first characters are wanted has a list or a map as its value.
    PrefixedComplexValue(String, String),
}

/// What an `Error` stands for.
#[verifier::ext_equal]
pub enum SpecOfError {
    CustomError(Seq<char>),
    MissingPositionalFields(int, int),
    ExtraPositionalFields(int, int),
    OverrunPositionalField,
    MissingNamedVariable(Seq<char>),
    BindingsDontMatchExpression,
    InvalidKeyType(Seq<char>),
    SerializationStateError,
    ExtraNamedField(Seq<char>),
    NotUTF8(core::str::Utf8Error),
    InvalidComplexType(Seq<char>),
    PrefixedComplexValue(Seq<char>, Seq<char>),
}

impl View for Error {
    type V = SpecOfError;

    open spec fn view(&self) -> SpecOfError {
        match *self {
            Error::CustomError(message) => SpecOfError::CustomError(message@),
            Error::MissingPositionalFields(got, expected) => SpecOfError::MissingPositionalFields(
                got as int,
                expected as int,
            ),
            Error::ExtraPositionalFields(got, expected) => SpecOfError::ExtraPositionalFields(
                got as int,
                expected as int,
            ),
            Error::OverrunPositionalField => SpecOfError::OverrunPositionalField,
            Error::MissingNamedVariable(name) => SpecOfError::MissingNamedVariable(name@),
            Error::BindingsDontMatchExpression => SpecOfError::BindingsDontMatchExpression,
            Error::InvalidKeyType(kind) => SpecOfError::InvalidKeyType(kind@),
            Error::SerializationStateError => SpecOfError::SerializationStateError,
            Error::ExtraNamedField(name) => SpecOfError::ExtraNamedField(name@),
            Error::NotUTF8(error) => SpecOfError::NotUTF8(error),
            Error::InvalidComplexType(kind) => SpecOfError::InvalidComplexType(kind@),
            Error::PrefixedComplexValue(kind, name) => SpecOfError::PrefixedComplexValue(
                kind@,
                name@,
            ),
        }
    }
}

impl Clone for Error {
    fn clone(&self) -> (copy: Self)
        ensures
            copy@ == self@,
    {
        match self {
            Error::CustomError(message) => Error::CustomError(message.clone()),
            Error::MissingPositionalFields(got, expected) => Error::MissingPositionalFields(
                *got,
                *expected,
            ),
            Error::ExtraPositionalFields(got, expected) => Error::ExtraPositionalFields(
                *got,
                *expected,
            ),
            Error::OverrunPositionalField => Error::OverrunPositionalField,
            Error::MissingNamedVariable(name) => Error::MissingNamedVariable(name.clone()),
            Error::BindingsDontMatchExpression => Error::BindingsDontMatchExpression,
            Error::InvalidKeyType(kind) => Error::InvalidKeyType(kind.clone()),
            Error::SerializationStateError => Error::SerializationStateError,
            Error::ExtraNamedField(name) => Error::ExtraNamedField(name.clone()),
            Error::NotUTF8(error) => Error::NotUTF8(*error),
            Error::InvalidComplexType(kind) => Error::InvalidComplexType(kind.clone()),
            Error::PrefixedComplexValue(kind, name) => Error::PrefixedComplexValue(
                kind.clone(),
                name.clone(),
            ),
        }
    }
}

/// The value of a variable.
#[derive(Debug)]
pub enum VarBinding {
    /// No value is given.
    Absent,
    /// The value is given as nothing.
    Omitted,
    Scalar(String),
    List(Vec<String>),
    Pairs(Vec<(String, Option<String>)>),
}

/// What a `VarBinding` stands for.
#[verifier::ext_equal]
pub enum SpecOfBinding {
    Absent,
    Omitted,
    Scalar(Seq<char>),
    List(Seq<Seq<char>>),
    Pairs(Seq<(Seq<char>, Option<Seq<char>>)>),
}

/// What a list of pairs stands for.
pub open spec fn pairs_view(pairs: Seq<(String, Option<String>)>) -> Seq<
    (Seq<char>, Option<Seq<char>>),
> {
    Seq::new(pairs.len(), |i: int| (pairs[i].0@, text::text_of_option(pairs[i].1)))
}

impl View for VarBinding {
    type V = SpecOfBinding;

    open spec fn view(&self) -> SpecOfBinding {
        match *self {
            VarBinding::Absent => SpecOfBinding::Absent,
            VarBinding::Omitted => SpecOfBinding::Omitted,
            VarBinding::Scalar(val) => SpecOfBinding::Scalar(val@),
            VarBinding::List(items) => SpecOfBinding::List(text::texts(items@)),
            VarBinding::Pairs(items) => SpecOfBinding::Pairs(pairs_view(items@)),
        }
    }
}

/// The values of the variables, by their names.
pub open spec fn bindings_view(bindings: Map<Seq<char>, VarBinding>) -> Map<
    Seq<char>,
    SpecOfBinding,
> {
    bindings.map_values(|binding: VarBinding| binding@)
}

/// The text that holds the character, or the empty text.
pub open spec fn mark(c: Option<char>) -> Seq<char> {
    match c {
        Some(c) => seq![c],
        None => Seq::empty(),
    }
}

/// What an expression writes before its first value.
pub open spec fn op_prefix(op: Op) -> Option<char> {
    match op {
        Op::Simple | Op::Reserved => None,
        Op::Fragment => Some('#'),
        Op::Label => Some('.'),
        Op::Path => Some('/'),
        Op::PathParam => Some(';'),
        Op::Query => Some('?'),
        Op::QueryCont => Some('&'),
    }
}

/// What an expression writes between its values.
pub open spec fn op_separator(op: Op) -> char {
    match op {
        Op::Simple | Op::Reserved | Op::Fragment => ',',
        Op::Label => '.',
        Op::Path => '/',
        Op::PathParam => ';',
        Op::Query | Op::QueryCont => '&',
    }
}

/// Whether an expression writes the names of its variables.
pub open spec fn is_named(op: Op) -> bool {
    op == Op::PathParam || op == Op::Query || op == Op::QueryCont
}

/// The variable as it stands in a template.
pub open spec fn var_text(var: SpecOfVar) -> Seq<char> {
    match var.modifier {
        VarMod::Prefix(n) => var.name + seq![':'] + text::decimal(n as nat),
        VarMod::Explode => var.name + seq!['*'],
        VarMod::Whole => var.name,
    }
}

/// As many of the first characters of `val` as the modifier wants.
pub open spec fn wanted(modifier: VarMod, val: Seq<char>) -> Seq<char> {
    match modifier {
        VarMod::Prefix(n) => if n < val.len() {
            val.take(n as int)
        } else {
            val
        },
        _ => val,
    }
}

/// The items of a list, escaped, with `separator` between them.
pub open spec fn list_text(op: Op, separator: char, items: Seq<Seq<char>>) -> Seq<char> {
    text::join(
        Seq::new(items.len(), |i: int| escape::escaped_text(op, items[i])),
        seq![separator],
    )
}

/// A pair with its value escaped.
pub open spec fn pair_text(op: Op, joiner: char, pair: (Seq<char>, Option<Seq<char>>)) -> Seq<
    char,
> {
    pair.0.push(joiner) + (match pair.1 {
        Some(val) => escape::escaped_text(op, val),
        None => Seq::empty(),
    })
}

/// Pairs with their values escaped: `separator` between the pairs, `joiner` within them.
pub open spec fn pairs_text(
    op: Op,
    separator: char,
    joiner: char,
    items: Seq<(Seq<char>, Option<Seq<char>>)>,
) -> Seq<char> {
    text::join(
        Seq::new(items.len(), |i: int| pair_text(op, joiner, items[i])),
        seq![separator],
    )
}

/// Each item with the name of its variable.
pub open spec fn named_items(name: Seq<char>, items: Seq<Seq<char>>) -> Seq<
    (Seq<char>, Option<Seq<char>>),
> {
    Seq::new(items.len(), |i: int| (name, Some(items[i])))
}

/// What an expression writes before a value that is not exploded: its name, where it writes names.
pub open spec fn name_text(op: Op, name: Seq<char>) -> Seq<char> {
    if is_named(op) {
        name.push('=')
    } else {
        Seq::empty()
    }
}

/// What an expression writes for the value of a variable, or why it cannot.
pub open spec fn value_text(op: Op, var: SpecOfVar, value: SpecOfBinding) -> Result<
    Seq<char>,
    SpecOfError,
> {
    match value {
        SpecOfBinding::Scalar(val) => Ok(
            (if op == Op::PathParam && val.len() == 0 {
                var.name
            } else {
                name_text(op, var.name)
            }) + escape::escaped_text(op, wanted(var.modifier, val)),
        ),
        SpecOfBinding::List(items) => match var.modifier {
            VarMod::Prefix(_) => Err(SpecOfError::PrefixedComplexValue("map"@, var.name)),
            VarMod::Whole => Ok(name_text(op, var.name) + list_text(op, ',', items)),
            VarMod::Explode => if is_named(op) {
                Ok(pairs_text(op, op_separator(op), '=', named_items(var.name, items)))
            } else {
                Ok(list_text(op, op_separator(op), items))
            },
        },
        SpecOfBinding::Pairs(items) => match var.modifier {
            VarMod::Prefix(_) => Err(SpecOfError::PrefixedComplexValue("map"@, var.name)),
            VarMod::Whole => Ok(name_text(op, var.name) + pairs_text(op, ',', ',', items)),
            VarMod::Explode => Ok(pairs_text(op, op_separator(op), '=', items)),
        },
        _ => Ok(Seq::empty()),
    }
}

/// Whether nothing at all is written for a value, not even what goes before it.
pub open spec fn is_silent(op: Op, value: SpecOfBinding) -> bool {
    op == Op::Label && value == SpecOfBinding::List(Seq::empty())
}

/// How an expression for variables that have no value yet begins, where `joiner` would go before a
/// value.
pub open spec fn held_open(op: Op, joiner: Option<char>) -> Seq<char> {
    match op {
        Op::Simple => mark(joiner) + seq!['{'],
        Op::Reserved => mark(joiner) + seq!['{', '+'],
        Op::Fragment => if joiner == Some('#') {
            seq!['{', '#']
        } else {
            mark(joiner) + seq!['{', '+']
        },
        Op::Label => seq!['{', '.'],
        Op::Path => seq!['{', '/'],
        Op::PathParam => seq!['{', ';'],
        Op::Query => if joiner == Some('?') {
            seq!['{', '?']
        } else {
            seq!['{', '&']
        },
        Op::QueryCont => seq!['{', '&'],
    }
}

/// `out` followed by the values of the variables from `i` on, the first of them after `joiner`.
pub open spec fn fill_from(
    e: SpecOfExpression,
    policy: FillPolicy,
    bindings: Map<Seq<char>, SpecOfBinding>,
    i: nat,
    joiner: Option<char>,
    out: Seq<char>,
) -> Result<Seq<char>, SpecOfError>
    decreases e.vars.len() - i, 0int,
{
    if i >= e.vars.len() {
        Ok(out)
    } else {
        let var = e.vars[i as int];
        if !bindings.dom().contains(var.name) {
            Err(SpecOfError::BindingsDontMatchExpression)
        } else {
            let value = bindings[var.name];
            match value {
                SpecOfBinding::Absent => match policy {
                    FillPolicy::NoMissing | FillPolicy::Strict => Err(
                        SpecOfError::MissingNamedVariable(var.name),
                    ),
                    FillPolicy::NoExtra | FillPolicy::Relaxed => hold_from(
                        e,
                        policy,
                        bindings,
                        i + 1,
                        out + held_open(e.operator, joiner) + var_text(var),
                    ),
                    FillPolicy::DropMissing => fill_from(e, policy, bindings, i + 1, joiner, out),
                },
                SpecOfBinding::Omitted => fill_from(e, policy, bindings, i + 1, joiner, out),
                _ => match value_text(e.operator, var, value) {
                    Err(error) => Err(error),
                    Ok(text) => fill_from(
                        e,
                        policy,
                        bindings,
                        i + 1,
                        Some(op_separator(e.operator)),
                        out + (if is_silent(e.operator, value) {
                            Seq::empty()
                        } else {
                            mark(joiner)
                        }) + text,
                    ),
                },
            }
        }
    }
}

/// `out`, which ends within an expression for variables without a value, followed by what the
/// variables from `i` on add to it.
pub open spec fn hold_from(
    e: SpecOfExpression,
    policy: FillPolicy,
    bindings: Map<Seq<char>, SpecOfBinding>,
    i: nat,
    out: Seq<char>,
) -> Result<Seq<char>, SpecOfError>
    decreases e.vars.len() - i, 1int,
{
    if i >= e.vars.len() {
        Ok(out.push('}'))
    } else {
        let var = e.vars[i as int];
        if !bindings.dom().contains(var.name) {
            Err(SpecOfError::BindingsDontMatchExpression)
        } else if bindings[var.name] == SpecOfBinding::Absent {
            hold_from(e, policy, bindings, i + 1, out.push(',') + var_text(var))
        } else {
            fill_from(e, policy, bindings, i, Some(op_separator(e.operator)), out.push('}'))
        }
    }
}

/// What an expression writes for the values of its variables.
pub open spec fn expansion(
    e: SpecOfExpression,
    policy: FillPolicy,
    bindings: Map<Seq<char>, SpecOfBinding>,
) -> Result<Seq<char>, SpecOfError> {
    fill_from(e, policy, bindings, 0, op_prefix(e.operator), Seq::empty())
}

/// What a part of a template writes for the values of its variables.
pub open spec fn part_expansion(
    part: SpecOfPart,
    policy: FillPolicy,
    bindings: Map<Seq<char>, SpecOfBinding>,
) -> Result<Seq<char>, SpecOfError> {
    match part {
        SpecOfPart::Lit(l) => Ok(l),
        SpecOfPart::Expression(e) | SpecOfPart::SegPathVar(e) | SpecOfPart::SegPathRest(
            e,
        ) => expansion(e, policy, bindings),
        SpecOfPart::SegRest(e) => match expansion(e, policy, bindings) {
            Ok(text) => Ok(seq!['/'] + text),
            Err(error) => Err(error),
        },
    }
}

/// What parts write, one after the other, or why the first of them that cannot does not.
pub open spec fn parts_expansion(
    parts: Seq<SpecOfPart>,
    policy: FillPolicy,
    bindings: Map<Seq<char>, SpecOfBinding>,
) -> Result<Seq<char>, SpecOfError>
    decreases parts.len(),
{
    if parts.len() == 0 {
        Ok(Seq::empty())
    } else {
        match parts_expansion(parts.drop_last(), policy, bindings) {
            Err(error) => Err(error),
            Ok(before) => match part_expansion(parts.last(), policy, bindings) {
                Err(error) => Err(error),
                Ok(text) => Ok(before + text),
            },
        }
    }
}

/// Whether a result holds the text, or the error, that it should.
pub open spec fn is_text_result(
    result: Result<String, Error>,
    expected: Result<Seq<char>, SpecOfError>,
) -> bool {
    match result {
        Ok(text) => expected == Ok::<Seq<char>, SpecOfError>(text@),
        Err(error) => expected == Err::<Seq<char>, SpecOfError>(error@),
    }
}

impl VarSpec {
    /// The variable as it stands in a template.
    pub fn to_str(&self) -> (text: String)
        ensures
            text@ == var_text(self@),
    {
        let mut text = self.varname.clone();
        match self.modifier {
            VarMod::Prefix(n) => {
                text.push(':');
                text.append(&decimal_text(n as u64));
                assert(text@ =~= var_text(self@));
            },
            VarMod::Explode => {
                text.push('*');
                assert(text@ =~= var_text(self@));
            },
            VarMod::Whole => {},
        }
        text
    }
}

/// What an expression writes before its first value.
pub fn prefix_for(op: Op) -> (prefix: Option<char>)
    ensures
        prefix == op_prefix(op),
{
    match op {
        Op::Simple | Op::Reserved => None,
        Op::Fragment => Some('#'),
        Op::Label => Some('.'),
        Op::Path => Some('/'),
        Op::PathParam => Some(';'),
        Op::Query => Some('?'),
        Op::QueryCont => Some('&'),
    }
}

/// What an expression writes between its values.
pub fn separator_for(op: Op) -> (separator: char)
    ensures
        separator == op_separator(op),
{
    match op {
        Op::Simple | Op::Reserved | Op::Fragment => ',',
        Op::Label => '.',
        Op::Path => '/',
        Op::PathParam => ';',
        Op::Query | Op::QueryCont => '&',
    }
}

fn push_mark(resolved: &mut String, c: Option<char>)
    ensures
        final(resolved)@ == old(resolved)@ + mark(c),
{
    match c {
        Some(c) => resolved.push(c),
        None => {},
    }
    assert(resolved@ =~= old(resolved)@ + mark(c));
}

/// Appends the items of a list, escaped, with `separator` between them.
pub fn expand_list(items: &Vec<String>, op: Op, separator: char, resolved: &mut String)
    ensures
        final(resolved)@ == old(resolved)@ + list_text(op, separator, text::texts(items@)),
{
    let ghost whole = Seq::new(
        items@.len(),
        |i: int| escape::escaped_text(op, text::texts(items@)[i]),
    );
    let mut i: usize = 0;
    assert(whole.take(0) =~= Seq::empty());
    assert(resolved@ =~= resolved@ + text::join(whole.take(0), seq![separator]));
    while i < items.len()
        invariant
            i <= items@.len(),
            whole.len() == items@.len(),
            forall|j: int|
                0 <= j < items@.len() ==> whole[j] == escape::escaped_text(op, items@[j]@),
            resolved@ == old(resolved)@ + text::join(whole.take(i as int), seq![separator]),
        decreases items@.len() - i,
    {
        assert(whole.take(i + 1).drop_last() =~= whole.take(i as int));
        if i > 0 {
            resolved.push(separator);
        }
        escape_reserved(op, resolved, &items[i]);
        i = i + 1;
        assert(resolved@ =~= old(resolved)@ + text::join(whole.take(i as int), seq![separator]));
    }
    assert(whole.take(i as int) =~= whole);
}

/// Appends pairs with their values escaped: `separator` between the pairs, `joiner` within them.
pub fn expand_map(
    op: Op,
    separator: char,
    joiner: char,
    resolved: &mut String,
    items: &Vec<(String, Option<String>)>,
)
    ensures
        final(resolved)@ == old(resolved)@ + pairs_text(op, separator, joiner, pairs_view(items@)),
{
    let ghost whole = Seq::new(
        items@.len(),
        |i: int| pair_text(op, joiner, pairs_view(items@)[i]),
    );
    let mut i: usize = 0;
    assert(whole.take(0) =~= Seq::empty());
    assert(resolved@ =~= resolved@ + text::join(whole.take(0), seq![separator]));
    while i < items.len()
        invariant
            i <= items@.len(),
            whole.len() == items@.len(),
            forall|j: int|
                0 <= j < items@.len() ==> whole[j] == pair_text(op, joiner, pairs_view(items@)[j]),
            resolved@ == old(resolved)@ + text::join(whole.take(i as int), seq![separator]),
        decreases items@.len() - i,
    {
        assert(whole.take(i + 1).drop_last() =~= whole.take(i as int));
        if i > 0 {
            resolved.push(separator);
        }
        resolved.append(&items[i].0);
        resolved.push(joiner);
        if let Some(val) = &items[i].1 {
            escape_reserved(op, resolved, val);
        }
        i = i + 1;
        assert(resolved@ =~= old(resolved)@ + text::join(whole.take(i as int), seq![separator]));
    }
    assert(whole.take(i as int) =~= whole);
}

fn named_pairs(name: &str, items: &Vec<String>) -> (pairs: Vec<(String, Option<String>)>)
    ensures
        pairs_view(pairs@) == named_items(name@, text::texts(items@)),
{
    let mut pairs: Vec<(String, Option<String>)> = Vec::new();
    let mut i: usize = 0;
    while i < items.len()
        invariant
            i <= items@.len(),
            pairs@.len() == i,
            forall|j: int|
                0 <= j < i ==> pairs@[j].0@ == name@ && text::text_of_option(
                    #[trigger] pairs@[j].1,
                ) == Some(items@[j]@),
        decreases items@.len() - i,
    {
        pairs.push((name.to_owned(), Some(items[i].clone())));
        i = i + 1;
    }
    assert(pairs_view(pairs@) =~= named_items(name@, text::texts(items@)));
    pairs
}

fn push_name(resolved: &mut String, op: Op, name: &str)
    ensures
        final(resolved)@ == old(resolved)@ + name_text(op, name@),
{
    if op == Op::PathParam || op == Op::Query || op == Op::QueryCont {
        resolved.append(name);
        resolved.push('=');
    }
    assert(resolved@ =~= old(resolved)@ + name_text(op, name@));
}

fn push_wanted(resolved: &mut String, op: Op, modifier: VarMod, val: &str)
    ensures
        final(resolved)@ == old(resolved)@ + escape::escaped_text(op, wanted(modifier, val@)),
{
    if let VarMod::Prefix(n) = modifier {
        let chars = chars_of(val);
        let n: usize = n as usize;
        if n < chars.len() {
            let src = text_between(&chars, 0, n);
            assert(src@ =~= wanted(modifier, val@));
            escape_reserved(op, resolved, &src);
            return ;
        }
    }
    escape_reserved(op, resolved, val);
}

/// Appends what an expression writes for the value of a variable.
fn push_value(resolved: &mut String, op: Op, varspec: &VarSpec, value: &VarBinding) -> (done: Result<
    (),
    Error,
>)
    ensures
        match done {
            Ok(_) => value_text(op, varspec@, value@) is Ok && final(resolved)@ == old(resolved)@
                + value_text(op, varspec@, value@)->Ok_0,
            Err(error) => value_text(op, varspec@, value@) == Err::<Seq<char>, SpecOfError>(error@),
        },
{
    let ghost before = resolved@;
    let ghost expected = value_text(op, varspec@, value@);
    match value {
        VarBinding::Scalar(val) => {
            if op == Op::PathParam && val.as_str().is_empty() {
                resolved.append(&varspec.varname);
            } else {
                push_name(resolved, op, &varspec.varname);
            }
            push_wanted(resolved, op, varspec.modifier, val);
            assert(resolved@ =~= before + expected->Ok_0);
        },
        VarBinding::List(items) => {
            match varspec.modifier {
                VarMod::Prefix(_) => {
                    return Err(
                        Error::PrefixedComplexValue("map".to_owned(), varspec.varname.clone()),
                    );
                },
                VarMod::Whole => {
                    push_name(resolved, op, &varspec.varname);
                    expand_list(items, op, ',', resolved);
                },
                VarMod::Explode => match op {
                    Op::PathParam | Op::Query | Op::QueryCont => {
                        let withname = named_pairs(&varspec.varname, items);
                        expand_map(op, separator_for(op), '=', resolved, &withname);
                    },
                    _ => expand_list(items, op, separator_for(op), resolved),
                },
            }
            assert(resolved@ =~= before + expected->Ok_0);
        },
        VarBinding::Pairs(items) => {
            match varspec.modifier {
                VarMod::Prefix(_) => {
                    return Err(
                        Error::PrefixedComplexValue("map".to_owned(), varspec.varname.clone()),
                    );
                },
                VarMod::Whole => {
                    push_name(resolved, op, &varspec.varname);
                    expand_map(op, ',', ',', resolved, items);
                },
                VarMod::Explode => {
                    expand_map(op, separator_for(op), '=', resolved, items);
                },
            }
            assert(resolved@ =~= before + expected->Ok_0);
        },
        _ => {
            assert(resolved@ =~= before + Seq::<char>::empty());
        },
    }
    Ok(())
}

fn push_held_open(resolved: &mut String, op: Op, joiner: Option<char>)
    ensures
        final(resolved)@ == old(resolved)@ + held_open(op, joiner),
{
    let ghost before = resolved@;
    match op {
        Op::Simple => {
            push_mark(resolved, joiner);
            resolved.push('{');
        },
        Op::Reserved => {
            push_mark(resolved, joiner);
            resolved.push('{');
            resolved.push('+');
        },
        Op::Fragment => {
            if joiner == Some('#') {
                resolved.push('{');
                resolved.push('#');
            } else {
                push_mark(resolved, joiner);
                resolved.push('{');
                resolved.push('+');
            }
        },
        Op::Label => {
            resolved.push('{');
            resolved.push('.');
        },
        Op::Path => {
            resolved.push('{');
            resolved.push('/');
        },
        Op::PathParam => {
            resolved.push('{');
            resolved.push(';');
        },
        Op::Query => {
            resolved.push('{');
            if joiner == Some('?') {
                resolved.push('?');
            } else {
                resolved.push('&');
            }
        },
        Op::QueryCont => {
            resolved.push('{');
            resolved.push('&');
        },
    }
    assert(resolved@ =~= before + held_open(op, joiner));
}

/// What an expression writes for the values of its variables.
///
/// The text falls into stripes: values, where the variables have them, and new expressions for the
/// variables that have none. A policy that forbids missing variables ends it at the first of them.
pub fn mapvars(expression: &Expression, policy: FillPolicy, bindings: &Dict<VarBinding>) -> (result:
    Result<String, Error>)
    ensures
        is_text_result(result, expansion(expression@, policy, bindings_view(bindings@))),
{
    let op = expression.operator;
    let count = expression.varspecs.len();
    let ghost e = expression@;
    let ghost b = bindings_view(bindings@);
    let ghost expected = expansion(e, policy, b);
    let mut resolved = String::new();
    let mut joiner = prefix_for(op);
    let mut held = false;
    let mut i: usize = 0;
    while i < count
        invariant
            e == expression@,
            b == bindings_view(bindings@),
            op == e.operator,
            count == e.vars.len(),
            i <= count,
            expected == expansion(e, policy, b),
            held ==> hold_from(e, policy, b, i as nat, resolved@) == expected,
            !held ==> fill_from(e, policy, b, i as nat, joiner, resolved@) == expected,
        decreases count - i,
    {
        let varspec = &expression.varspecs[i];
        assert(e.vars[i as int] == varspec@);
        let value = match bindings.get(&varspec.varname) {
            Some(value) => value,
            None => {
                return Err(Error::BindingsDontMatchExpression);
            },
        };
        assert(b[varspec.varname@] == value@);
        let absent = match value {
            VarBinding::Absent => true,
            _ => false,
        };
        if held && !absent {
            resolved.push('}');
            joiner = Some(separator_for(op));
            held = false;
        }
        assert(!held ==> fill_from(e, policy, b, i as nat, joiner, resolved@) == expected);
        if held {
            resolved.push(',');
            resolved.append(&varspec.to_str());
        } else {
            match value {
                VarBinding::Absent => match policy {
                    FillPolicy::NoMissing | FillPolicy::Strict => {
                        return Err(Error::MissingNamedVariable(varspec.varname.clone()));
                    },
                    FillPolicy::NoExtra | FillPolicy::Relaxed => {
                        push_held_open(&mut resolved, op, joiner);
                        resolved.append(&varspec.to_str());
                        held = true;
                    },
                    FillPolicy::DropMissing => {},
                },
                VarBinding::Omitted => {},
                _ => {
                    let silent = match value {
                        VarBinding::List(items) => op == Op::Label && items.len() == 0,
                        _ => false,
                    };
                    proof {
                        match value {
                            VarBinding::List(items) => {
                                if items@.len() == 0 {
                                    assert(text::texts(items@) =~= Seq::empty());
                                }
                            },
                            _ => {},
                        }
                    }
                    if !silent {
                        push_mark(&mut resolved, joiner);
                    } else {
                        assert(resolved@ =~= resolved@ + Seq::<char>::empty());
                    }
                    match push_value(&mut resolved, op, varspec, value) {
                        Ok(_) => {},
                        Err(error) => {
                            return Err(error);
                        },
                    }
                    joiner = Some(separator_for(op));
                },
            }
        }
        i = i + 1;
    }
    if held {
        resolved.push('}');
    }
    Ok(resolved)
}

/// What the parts of a template write for the values of the variables.
pub fn mapexprs(template: &Parsed, policy: FillPolicy, bindings: &Dict<VarBinding>) -> (result:
    Result<String, Error>)
    ensures
        is_text_result(
            result,
            parts_expansion(template@.parts(), policy, bindings_view(bindings@)),
        ),
{
    let parts = template.parts();
    let ghost all = template@.parts();
    let ghost b = bindings_view(bindings@);
    let mut out = String::new();
    let mut i: usize = 0;
    assert(all.take(0) =~= Seq::empty());
    while i < parts.len()
        invariant
            i <= parts@.len(),
            all == template@.parts(),
            parser::parts_view(parts@) == all,
            b == bindings_view(bindings@),
            parts_expansion(all.take(i as int), policy, b) == Ok::<Seq<char>, SpecOfError>(out@),
        decreases parts@.len() - i,
    {
        assert(all.take(i + 1).drop_last() =~= all.take(i as int));
        assert(all[i as int] == parts@[i as int]@);
        let written = match &parts[i] {
            Part::Lit(l) => Ok(l.clone()),
            Part::Expression(e) | Part::SegPathVar(e) | Part::SegPathRest(e) => mapvars(
                e,
                policy,
                bindings,
            ),
            Part::SegRest(e) => {
                out.push('/');
                mapvars(e, policy, bindings)
            },
        };
        match written {
            Ok(text) => {
                out.append(&text);
            },
            Err(error) => {
                proof {
                    lemma_first_failure(all, i as int, policy, b);
                }
                return Err(error);
            },
        }
        i = i + 1;
        assert(parts_expansion(all.take(i as int), policy, b)->Ok_0 =~= out@);
    }
    assert(all.take(i as int) =~= all);
    Ok(out)
}

proof fn lemma_first_failure(
    parts: Seq<SpecOfPart>,
    i: int,
    policy: FillPolicy,
    bindings: Map<Seq<char>, SpecOfBinding>,
)
    requires
        0 <= i < parts.len(),
        parts_expansion(parts.take(i), policy, bindings) is Ok,
        part_expansion(parts[i], policy, bindings) is Err,
    ensures
        parts_expansion(parts, policy, bindings) == Err::<Seq<char>, SpecOfError>(
            part_expansion(parts[i], policy, bindings)->Err_0,
        ),
    decreases parts.len(),
{
    if i == parts.len() - 1 {
        assert(parts.drop_last() =~= parts.take(i));
    } else {
        assert(parts.drop_last().take(i) =~= parts.take(i));
        lemma_first_failure(parts.drop_last(), i, policy, bindings);
    }
}

} // verus!
