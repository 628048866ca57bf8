//! A template and what can be done with it.
use crate::backend;
use crate::backend::{check_template, compile, expand_template, into_iri_reference};
use crate::binding;
use crate::binding::{SpecOfUri, UriParts};
use crate::de;
use crate::de::UriDeserializer;
use crate::dict::Dict;
use crate::given;
use crate::given::{Given, SpecOfGiven};
use crate::grammar;
use crate::parser;
use crate::parser::{all_vars, Parsed, Part, SpecOfParsed, SpecOfPart, VarSpec};
use crate::policy;
use crate::policy::{Context, Listable, PolicyContext, Values};
use crate::reading;
use crate::render;
use crate::render::{original_string, parts_string, path_route_string, template_re_string};
use crate::ser;
use crate::ser::{mapexprs, VarBinding};
use crate::serializer;
use crate::serializer::fill;
use crate::text;
use crate::text::holds_text;
use crate::value::Value;
use crate::writable;
use crate::{Error, FillPolicy, Serde6570, SpecOfError};
use vstd::prelude::*;

verus! {

broadcast use {crate::text::texts_push, crate::text::text_pairs_push};

/// Whether a result holds the text, or the error, that it should.
pub open spec fn is_text(
    result: Result<String, Error>,
    expected: Result<Seq<char>, SpecOfError>,
) -> bool {
    match result {
        Ok(out) => expected == Ok::<Seq<char>, SpecOfError>(out@),
        Err(error) => expected == Err::<Seq<char>, SpecOfError>(error@),
    }
}

/// A text that is an IRI reference, or why it is none.
pub open spec fn iri_reference(s: Seq<char>) -> Result<Seq<char>, SpecOfError> {
    match backend::iri_reference_error(s) {
        Some(message) => Err(SpecOfError::CreateString(message)),
        None => Ok(s),
    }
}

/// The URI that a template gives for a value.
pub open spec fn expanded(template: SpecOfParsed, policy: FillPolicy, context: Value) -> Result<
    Seq<char>,
    SpecOfError,
> {
    match serializer::filled(template, policy, context) {
        Err(error) => Err(SpecOfError::URITemplating(error)),
        Ok(s) => iri_reference(s),
    }
}

/// The regular expression for the URIs of a template.
pub open spec fn regex_of(template: SpecOfParsed) -> Result<Seq<char>, SpecOfError> {
    let pattern = render::template_re(template);
    match backend::regex_error(pattern) {
        Some(message) => Err(SpecOfError::RegexParse(message)),
        None => Ok(pattern),
    }
}

/// The values that a URI gives to the variables of a template.
pub open spec fn contracted(template: SpecOfParsed, uri: SpecOfUri) -> Result<
    Seq<(Seq<char>, de::SpecOfBinding)>,
    SpecOfError,
> {
    match regex_of(template) {
        Err(error) => Err(error),
        Ok(pattern) => match backend::found_in(pattern, binding::url_of(uri)) {
            None => Err(SpecOfError::NoMatch(binding::url_of(uri))),
            Some(captures) => binding::bound(template, uri.query, captures),
        },
    }
}

/// The route of a template for a router that takes `:name` and `*name`.
pub open spec fn route_of(template: SpecOfParsed) -> Seq<char> {
    render::concat_parts(template.path, |part: SpecOfPart| render::part_route(part))
}

/// The template whose path begins with `prefix`.
pub open spec fn prefixed(template: SpecOfParsed, prefix: Seq<char>) -> SpecOfParsed {
    SpecOfParsed { path: seq![SpecOfPart::Lit(prefix)] + template.path, ..template }
}

/// A text that is a URI template, or why it is none.
pub open spec fn checked_template(s: Seq<char>) -> Result<Seq<char>, SpecOfError> {
    if !backend::has_whole_escapes(s) {
        Err(SpecOfError::IriTempate("malformed escape"@))
    } else {
        match backend::uri_template_error(s) {
            Some(message) => Err(SpecOfError::IriTempate(message)),
            None => Ok(s),
        }
    }
}

/// The text of a template, if it is a URI template.
pub open spec fn uri_template(template: SpecOfParsed) -> Result<Seq<char>, SpecOfError> {
    checked_template(grammar::template_text(template))
}

/// The value of a map that a given value is.
pub open spec fn binding_of_given(value: SpecOfGiven) -> ser::SpecOfBinding {
    match value {
        SpecOfGiven::Nothing => ser::SpecOfBinding::Omitted,
        SpecOfGiven::Text(s) => ser::SpecOfBinding::Scalar(s),
        SpecOfGiven::List(items) => ser::SpecOfBinding::List(items),
        SpecOfGiven::Pairs(items) => ser::SpecOfBinding::Pairs(
            Seq::new(items.len(), |i: int| (items[i].0, Some(items[i].1))),
        ),
    }
}

/// What names stand for where some of them have values.
pub open spec fn given_bindings(
    names: Seq<Seq<char>>,
    vars: Seq<(Seq<char>, SpecOfGiven)>,
) -> Map<Seq<char>, ser::SpecOfBinding> {
    Map::new(
        |name: Seq<char>| names.contains(name),
        |name: Seq<char>|
            match policy::value_of(vars, name) {
                Some(value) => binding_of_given(value),
                None => ser::SpecOfBinding::Omitted,
            },
    )
}

/// What parts, the text of which is `s`, write for values by their names.
///
/// Where one of the values cannot be written into the text from outside, they are written as those
/// of a map are.
pub open spec fn written_parts(
    parts: Seq<SpecOfPart>,
    s: Seq<char>,
    vars: Seq<(Seq<char>, SpecOfGiven)>,
) -> Result<Seq<char>, SpecOfError> {
    if writable::is_expandable(s, policy::first_values(vars)) {
        match backend::iri_expansion(s, policy::first_values(vars)) {
            Ok(out) => Ok(out),
            Err(message) => Err(SpecOfError::IriTempate(message)),
        }
    } else {
        match ser::parts_expansion(
            parts,
            FillPolicy::DropMissing,
            given_bindings(parser::names(parser::vars_of(parts)), vars),
        ) {
            Ok(out) => Ok(out),
            Err(error) => Err(SpecOfError::URITemplating(error)),
        }
    }
}

/// The URI that a template gives for values by their names.
pub open spec fn filled(
    template: SpecOfParsed,
    policy: FillPolicy,
    vars: Seq<(Seq<char>, SpecOfGiven)>,
) -> Result<Seq<char>, SpecOfError> {
    let asked = parser::names(parser::vars_of(template.parts()));
    let given = binding::keys(vars);
    match uri_template(template) {
        Err(error) => Err(error),
        Ok(s) => match written_parts(template.parts(), s, vars) {
            Err(error) => Err(error),
            Ok(out) => match policy::policy_error(
                policy,
                policy::outside_of(parser::distinct(asked), given),
                policy::outside_of(parser::distinct(given), asked),
            ) {
                Some(error) => Err(error),
                None => iri_reference(out),
            },
        },
    }
}

/// Whether a template whose text holds no brace is written as it is.
pub open spec fn is_kept_without_braces(
    template: SpecOfParsed,
    result: Result<String, Error>,
) -> bool {
    result is Ok && !grammar::template_text(template).contains('{') ==> result->Ok_0@
        == grammar::template_text(template)
}

/// Whether texts are refused only with the template that they should fill.
pub open spec fn takes_texts(
    template: SpecOfParsed,
    vars: Seq<(Seq<char>, SpecOfGiven)>,
    result: Result<String, Error>,
) -> bool {
    given::are_texts(vars) && result is Err && result->Err_0 is IriTempate ==> uri_template(
        template,
    ) is Err
}

proof fn lemma_first_texts(vars: Seq<(Seq<char>, SpecOfGiven)>)
    requires
        given::are_texts(vars),
    ensures
        given::are_texts(policy::first_values(vars)),
    decreases vars.len(),
{
    if vars.len() > 0 {
        let before = vars.drop_last();
        assert forall|i: int| 0 <= i < before.len() implies (#[trigger] before[i]).1 is Text by {
            assert(before[i] == vars[i]);
        }
        lemma_first_texts(before);
        assert(vars[vars.len() - 1].1 is Text);
    }
}

/// Whether all the variables of a part are among names.
pub open spec fn is_given(part: SpecOfPart, names: Seq<Seq<char>>) -> bool {
    let asked = parser::part_vars(part);
    forall|i: int| 0 <= i < asked.len() ==> names.contains((#[trigger] asked[i]).name)
}

/// A part once values are given: it becomes a literal where all its variables have one.
pub open spec fn filled_part(part: SpecOfPart, vars: Seq<(Seq<char>, SpecOfGiven)>) -> Result<
    SpecOfPart,
    SpecOfError,
> {
    let s = render::part_text(part);
    if part is Lit || !is_given(part, binding::keys(vars)) {
        Ok(part)
    } else {
        match checked_template(s) {
            Err(error) => Err(error),
            Ok(_) => match written_parts(seq![part], s, vars) {
                Err(error) => Err(error),
                Ok(out) => Ok(SpecOfPart::Lit(out)),
            },
        }
    }
}

/// Parts once values are given, or why the first that cannot be filled is not.
pub open spec fn filled_parts(parts: Seq<SpecOfPart>, vars: Seq<(Seq<char>, SpecOfGiven)>) -> Result<
    Seq<SpecOfPart>,
    SpecOfError,
>
    decreases parts.len(),
{
    if parts.len() == 0 {
        Ok(Seq::empty())
    } else {
        match filled_parts(parts.drop_last(), vars) {
            Err(error) => Err(error),
            Ok(before) => match filled_part(parts.last(), vars) {
                Err(error) => Err(error),
                Ok(part) => Ok(before.push(part)),
            },
        }
    }
}

/// An optional section once values are given.
pub open spec fn filled_section(
    section: Option<Seq<SpecOfPart>>,
    vars: Seq<(Seq<char>, SpecOfGiven)>,
) -> Result<Option<Seq<SpecOfPart>>, SpecOfError> {
    match section {
        None => Ok(None),
        Some(parts) => match filled_parts(parts, vars) {
            Err(error) => Err(error),
            Ok(parts) => Ok(Some(parts)),
        },
    }
}

/// The template for the variables that have no value, once values are given to the others in the
/// authority, in the path and in the query.
pub open spec fn partially_filled(
    template: SpecOfParsed,
    vars: Seq<(Seq<char>, SpecOfGiven)>,
) -> Result<SpecOfParsed, SpecOfError> {
    match filled_section(template.auth, vars) {
        Err(error) => Err(error),
        Ok(auth) => match filled_parts(template.path, vars) {
            Err(error) => Err(error),
            Ok(path) => match filled_section(template.query, vars) {
                Err(error) => Err(error),
                Ok(query) => Ok(SpecOfParsed { auth, path, query, ..template }),
            },
        },
    }
}

/// The parts that are no literals.
pub open spec fn expressions_of(parts: Seq<SpecOfPart>) -> Seq<SpecOfPart>
    decreases parts.len(),
{
    if parts.len() == 0 {
        Seq::empty()
    } else if parts.last() is Lit {
        expressions_of(parts.drop_last())
    } else {
        expressions_of(parts.drop_last()).push(parts.last())
    }
}

/// A template.
#[derive(Debug)]
pub struct InnerSingle {
    pub parsed: Parsed,
}

impl Clone for InnerSingle {
    fn clone(&self) -> (copy: Self)
        ensures
            copy.parsed@ == self.parsed@,
    {
        InnerSingle { parsed: self.parsed.clone() }
    }
}

proof fn lemma_filled_failure(parts: Seq<SpecOfPart>, vars: Seq<(Seq<char>, SpecOfGiven)>, i: int)
    requires
        0 <= i < parts.len(),
        filled_parts(parts.take(i), vars) is Ok,
        filled_part(parts[i], vars) is Err,
    ensures
        filled_parts(parts, vars) == Err::<Seq<SpecOfPart>, SpecOfError>(
            filled_part(parts[i], vars)->Err_0,
        ),
    decreases parts.len(),
{
    if i == parts.len() - 1 {
        assert(parts.drop_last() =~= parts.take(i));
    } else {
        assert(parts.drop_last().take(i) =~= parts.take(i));
        lemma_filled_failure(parts.drop_last(), vars, i);
    }
}

/// Whether all the variables of a part are among names.
pub fn all_given(part: &Part, names: &Vec<String>) -> (given: bool)
    ensures
        given == is_given(part@, text::texts(names@)),
{
    match part.expression() {
        None => true,
        Some(e) => {
            let ghost asked = e@.vars;
            let mut i: usize = 0;
            while i < e.varspecs.len()
                invariant
                    i <= e.varspecs@.len(),
                    asked == e@.vars,
                    asked == parser::part_vars(part@),
                    forall|j: int|
                        0 <= j < i ==> text::texts(names@).contains((#[trigger] asked[j]).name),
                decreases e.varspecs@.len() - i,
            {
                assert(asked[i as int].name == e.varspecs@[i as int].varname@);
                if !holds_text(names, &e.varspecs[i].varname) {
                    return false;
                }
                i = i + 1;
            }
            true
        },
    }
}

fn checked_text(s: String) -> (result: Result<String, Error>)
    ensures
        is_text(result, checked_template(s@)),
{
    if !backend::whole_escapes(&s) {
        return Err(Error::IriTempate("malformed escape".to_owned()));
    }
    match check_template(&s) {
        Ok(_) => Ok(s),
        Err(message) => Err(Error::IriTempate(message)),
    }
}

fn binding_for(value: &Given) -> (binding: VarBinding)
    ensures
        binding@ == binding_of_given(value@),
{
    match value {
        Given::Nothing => VarBinding::Omitted,
        Given::Text(s) => VarBinding::Scalar(s.clone()),
        Given::List(items) => VarBinding::List(crate::de::clone_texts(items)),
        Given::Pairs(items) => {
            let ghost all = text::text_pairs(items@);
            let mut pairs: Vec<(String, Option<String>)> = Vec::new();
            let mut i: usize = 0;
            while i < items.len()
                invariant
                    i <= items@.len(),
                    all == text::text_pairs(items@),
                    ser::pairs_view(pairs@) =~= Seq::new(
                        i as nat,
                        |j: int| (all[j].0, Some(all[j].1)),
                    ),
                decreases items@.len() - i,
            {
                let ghost before = ser::pairs_view(pairs@);
                pairs.push((items[i].0.clone(), Some(items[i].1.clone())));
                assert(ser::pairs_view(pairs@) =~= before.push(
                    (all[i as int].0, Some(all[i as int].1)),
                ));
                i = i + 1;
            }
            VarBinding::Pairs(pairs)
        },
    }
}

fn bindings_for(names: &Vec<String>, vars: &Values) -> (bindings: Dict<VarBinding>)
    ensures
        ser::bindings_view(bindings@) == given_bindings(
            text::texts(names@),
            given::givens(vars.0@),
        ),
{
    let ghost all = text::texts(names@);
    let ghost pairs = given::givens(vars.0@);
    let mut bindings: Dict<VarBinding> = Dict::new();
    let mut i: usize = 0;
    assert(ser::bindings_view(bindings@) =~= given_bindings(all.take(0), pairs));
    while i < names.len()
        invariant
            i <= names@.len(),
            all == text::texts(names@),
            pairs == given::givens(vars.0@),
            ser::bindings_view(bindings@) == given_bindings(all.take(i as int), pairs),
        decreases names@.len() - i,
    {
        let ghost before = all.take(i as int);
        let ghost previous = bindings@;
        let binding = match vars.visit(&names[i]) {
            Some(value) => binding_for(value),
            None => VarBinding::Omitted,
        };
        let ghost bound = binding;
        bindings.insert(names[i].clone(), binding);
        proof {
            let name = all[i as int];
            assert(bound@ == given_bindings(seq![name], pairs)[name]) by {
                assert(seq![name][0] == name);
            }
            assert(ser::bindings_view(bindings@) =~= ser::bindings_view(previous).insert(
                name,
                bound@,
            ));
            assert(all.take(i + 1) =~= before.push(name));
            let have = ser::bindings_view(bindings@);
            let want = given_bindings(all.take(i + 1), pairs);
            assert forall|other: Seq<char>| #[trigger] have.dom().contains(other)
                == want.dom().contains(other) by {
                binding::lemma_push_contains(before, name, other);
            }
            assert(have.dom() =~= want.dom());
            assert forall|other: Seq<char>| #[trigger] want.dom().contains(other) implies have[other]
                == want[other] by {
                if other != name {
                    assert(given_bindings(before, pairs).dom().contains(other));
                }
            }
            assert(have =~= want);
        }
        i = i + 1;
    }
    assert(all.take(i as int) =~= all);
    bindings
}

fn var_names(vars: &Vec<VarSpec>) -> (names: Vec<String>)
    ensures
        text::texts(names@) == parser::names(parser::vars_view(vars@)),
{
    let ghost all = parser::names(parser::vars_view(vars@));
    let mut names: Vec<String> = Vec::new();
    let mut i: usize = 0;
    while i < vars.len()
        invariant
            i <= vars@.len(),
            all == parser::names(parser::vars_view(vars@)),
            text::texts(names@) =~= all.take(i as int),
        decreases vars@.len() - i,
    {
        names.push(vars[i].varname.clone());
        i = i + 1;
    }
    assert(text::texts(names@) =~= all);
    names
}

/// The text of a part whose variables all have values.
fn filled_text(part: &Part, vars: &Values, values: &Vec<(String, Given)>) -> (result: Result<
    String,
    Error,
>)
    requires
        given::givens(values@) == policy::first_values(given::givens(vars.0@)),
    ensures
        match checked_template(render::part_text(part@)) {
            Ok(s) => is_text(result, written_parts(seq![part@], s, given::givens(vars.0@))),
            Err(error) => result is Err && result->Err_0@ == error,
        },
{
    let s = match checked_text(original_string(part)) {
        Ok(s) => s,
        Err(error) => {
            return Err(error);
        },
    };
    if writable::expandable(&s, values) {
        return match expand_template(&s, values) {
            Ok(out) => Ok(out),
            Err(message) => Err(Error::IriTempate(message)),
        };
    }
    let mut one: Vec<Part> = Vec::new();
    one.push(part.clone());
    assert(parser::parts_view(one@) =~= seq![part@]);
    let bindings = bindings_for(&var_names(&all_vars(&one)), vars);
    let template = Parsed {
        auth: None,
        path: one,
        query: None,
        fragment: None,
        path_assoc: None,
        query_assoc: None,
    };
    assert(template@.parts() =~= seq![part@]);
    match mapexprs(&template, FillPolicy::DropMissing, &bindings) {
        Ok(out) => Ok(out),
        Err(error) => Err(Error::URITemplating(error)),
    }
}

/// Fills the parts whose variables all have values, and leaves the others.
pub fn fill_parts(parts: &Vec<Part>, vars: &Values) -> (result: Result<Vec<Part>, Error>)
    ensures
        match result {
            Ok(out) => filled_parts(parser::parts_view(parts@), given::givens(vars.0@)) == Ok::<
                Seq<SpecOfPart>,
                SpecOfError,
            >(parser::parts_view(out@)),
            Err(error) => filled_parts(parser::parts_view(parts@), given::givens(vars.0@))
                == Err::<Seq<SpecOfPart>, SpecOfError>(error@),
        },
{
    let ghost all = parser::parts_view(parts@);
    let ghost pairs = given::givens(vars.0@);
    let names = vars.list_vars();
    let values = vars.first_values();
    let mut out: Vec<Part> = Vec::new();
    let mut i: usize = 0;
    assert(all.take(0) =~= Seq::empty());
    assert(parser::parts_view(out@) =~= Seq::empty());
    while i < parts.len()
        invariant
            i <= parts@.len(),
            all == parser::parts_view(parts@),
            pairs == given::givens(vars.0@),
            text::texts(names@) == binding::keys(pairs),
            given::givens(values@) == policy::first_values(pairs),
            filled_parts(all.take(i as int), pairs) == Ok::<Seq<SpecOfPart>, SpecOfError>(
                parser::parts_view(out@),
            ),
        decreases parts@.len() - i,
    {
        broadcast use crate::parser::parts_view_push;

        assert(all.take(i + 1).drop_last() =~= all.take(i as int));
        assert(all.take(i + 1).last() == parts@[i as int]@);
        let part = &parts[i];
        if part.expression().is_none() || !all_given(part, &names) {
            out.push(part.clone());
        } else {
            match filled_text(part, vars, &values) {
                Ok(s) => {
                    out.push(Part::Lit(s));
                },
                Err(error) => {
                    proof {
                        lemma_filled_failure(all, pairs, i as int);
                    }
                    return Err(error);
                },
            }
        }
        i = i + 1;
    }
    assert(all.take(i as int) =~= all);
    Ok(out)
}

fn fill_section(section: &Option<Vec<Part>>, vars: &Values) -> (result: Result<
    Option<Vec<Part>>,
    Error,
>)
    ensures
        match result {
            Ok(out) => filled_section(parser::section_view(*section), given::givens(vars.0@))
                == Ok::<Option<Seq<SpecOfPart>>, SpecOfError>(parser::section_view(out)),
            Err(error) => filled_section(
                parser::section_view(*section),
                given::givens(vars.0@),
            ) == Err::<Option<Seq<SpecOfPart>>, SpecOfError>(error@),
        },
{
    match section {
        None => Ok(None),
        Some(parts) => match fill_parts(parts, vars) {
            Ok(parts) => Ok(Some(parts)),
            Err(error) => Err(error),
        },
    }
}

fn reference_of(s: String) -> (result: Result<String, Error>)
    ensures
        is_text(result, iri_reference(s@)),
{
    match into_iri_reference(s) {
        Ok(iri) => Ok(iri),
        Err(message) => Err(Error::CreateString(message)),
    }
}

impl InnerSingle {
    /// The parts that are no literals.
    pub fn expressions(&self) -> (list: Vec<Part>)
        ensures
            parser::parts_view(list@) == expressions_of(self.parsed@.parts()),
    {
        let parts = self.parsed.parts();
        let ghost all = parser::parts_view(parts@);
        let mut list: Vec<Part> = Vec::new();
        let mut i: usize = 0;
        assert(all.take(0) =~= Seq::empty());
        assert(parser::parts_view(list@) =~= Seq::empty());
        while i < parts.len()
            invariant
                i <= parts@.len(),
                all == parser::parts_view(parts@),
                parser::parts_view(list@) == expressions_of(all.take(i as int)),
            decreases parts@.len() - i,
        {
            broadcast use crate::parser::parts_view_push;

            assert(all.take(i + 1).drop_last() =~= all.take(i as int));
            assert(all.take(i + 1).last() == parts@[i as int]@);
            if parts[i].expression().is_some() {
                list.push(parts[i].clone());
            }
            i = i + 1;
        }
        assert(all.take(i as int) =~= all);
        list
    }

    /// The regular expression for the authority and the path of the template's URIs.
    pub fn re_str(&self) -> (out: String)
        ensures
            out@ == render::template_re(self.parsed@),
    {
        template_re_string(&self.parsed)
    }

    /// The text of the template.
    pub fn template_string(&self) -> (out: String)
        ensures
            out@ == grammar::template_text(self.parsed@),
    {
        parts_string(&self.parsed.parts())
    }

    /// The template for the variables that have no value, once values are given to the others in
    /// the authority, in the path and in the query.
    pub fn partial_fill_single<C: Context>(&self, vars: &C) -> (result: Result<InnerSingle, Error>)
        ensures
            match result {
                Ok(single) => partially_filled(self.parsed@, vars.given()) == Ok::<
                    SpecOfParsed,
                    SpecOfError,
                >(single.parsed@),
                Err(error) => partially_filled(self.parsed@, vars.given()) == Err::<
                    SpecOfParsed,
                    SpecOfError,
                >(error@),
            },
    {
        let vars = &Values(vars.values());
        let auth = match fill_section(&self.parsed.auth, vars) {
            Ok(auth) => auth,
            Err(error) => {
                return Err(error);
            },
        };
        let path = match fill_parts(&self.parsed.path, vars) {
            Ok(path) => path,
            Err(error) => {
                return Err(error);
            },
        };
        let query = match fill_section(&self.parsed.query, vars) {
            Ok(query) => query,
            Err(error) => {
                return Err(error);
            },
        };
        let mut filled = InnerSingle { parsed: self.parsed.clone() };
        filled.parsed.auth = auth;
        filled.parsed.path = path;
        filled.parsed.query = query;
        Ok(filled)
    }

    /// The URI that the template gives for values by their names.
    pub fn fill_uritemplate<C: Context>(&self, policy: FillPolicy, vars: &C) -> (result: Result<
        String,
        Error,
    >)
        ensures
            is_text(result, filled(self.parsed@, policy, vars.given())),
            is_kept_without_braces(self.parsed@, result),
            takes_texts(self.parsed@, vars.given(), result),
    {
        let vars = &Values(vars.values());
        let template = match self.template() {
            Ok(template) => template,
            Err(error) => {
                return Err(error);
            },
        };
        let names = binding::parsed_template_vars(&self.parsed);
        let mut context = PolicyContext::new(vars.clone());
        context.visit_all(&names);
        let values = vars.first_values();
        proof {
            if given::are_texts(given::givens(vars.0@)) {
                lemma_first_texts(given::givens(vars.0@));
            }
            if !template@.contains('{') {
                writable::law_no_expression_is_expandable(
                    template@,
                    given::givens(values@),
                );
            }
        }
        let out = if writable::expandable(&template, &values) {
            match expand_template(&template, &values) {
                Ok(out) => out,
                Err(message) => {
                    return Err(Error::IriTempate(message));
                },
            }
        } else {
            match mapexprs(&self.parsed, FillPolicy::DropMissing, &bindings_for(&names, vars)) {
                Ok(out) => out,
                Err(error) => {
                    return Err(Error::URITemplating(error));
                },
            }
        };
        match context.check(policy) {
            Ok(_) => {},
            Err(error) => {
                return Err(error);
            },
        }
        reference_of(out)
    }
}

impl Serde6570 for InnerSingle {
    open spec fn parsed_template(&self) -> SpecOfParsed {
        self.parsed@
    }

    open spec fn is_valid(&self) -> bool {
        true
    }

    fn expand(&self, policy: FillPolicy, context: Value) -> (result: Result<String, Error>) {
        assert(self.parsed_template() == self.parsed@);
        match fill(&self.parsed, policy, context) {
            Ok(s) => reference_of(s),
            Err(error) => Err(Error::URITemplating(error)),
        }
    }

    fn contract(&self, uri: &UriParts) -> (result: Result<UriDeserializer, Error>) {
        let pattern = self.re_str();
        match compile(&pattern) {
            Ok(_) => UriDeserializer::for_uri(uri, &self.parsed, &pattern),
            Err(message) => Err(Error::RegexParse(message)),
        }
    }

    fn matchit_route(&self) -> (route: String) {
        path_route_string(&self.parsed.path)
    }

    fn regex(&mut self) -> (result: Result<String, Error>) {
        let pattern = self.re_str();
        match compile(&pattern) {
            Ok(_) => {
                proof {
                    reading::law_regex_matches_what_is_written(self.parsed@);
                }
                Ok(pattern)
            },
            Err(message) => Err(Error::RegexParse(message)),
        }
    }

    fn prefixed(&mut self, prefix: &str) -> (longer: Self) {
        let mut longer = InnerSingle { parsed: self.parsed.clone() };
        let ghost before = parser::parts_view(longer.parsed.path@);
        longer.parsed.path.insert(0, Part::Lit(prefix.to_owned()));
        assert(parser::parts_view(longer.parsed.path@) =~= seq![SpecOfPart::Lit(prefix@)] + before);
        longer
    }

    fn fill<C: Context>(&self, vars: &C) -> (result: Result<String, Error>) {
        self.fill_uritemplate(FillPolicy::NoMissing, vars)
    }

    fn partial_fill<C: Context>(&self, vars: &C) -> (result: Result<InnerSingle, Error>) {
        self.partial_fill_single(vars)
    }

    fn template(&self) -> (result: Result<String, Error>) {
        checked_text(self.template_string())
    }

    fn is_closed(&self) -> (closed: bool) {
        let list = self.expressions();
        assert(parser::parts_view(list@).len() == list@.len());
        list.len() == 0
    }
}

} // verus!
