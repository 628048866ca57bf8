//! URI templates that are filled with values and that values are read back with.
use vstd::prelude::*;

pub mod backend;
pub mod binding;
pub mod cached;
pub mod complete;
pub mod de;
pub mod deserializer;
pub mod dict;
pub mod elements;
pub mod escape;
pub mod expandable;
pub mod extract;
pub mod form;
pub mod found;
pub mod given;
pub mod grammar;
pub mod held;
pub mod laws;
pub mod marks;
pub mod parser;
pub mod partial;
pub mod pieces;
pub mod policy;
pub mod primitive;
pub mod reading;
pub mod render;
pub mod round_trip;
pub mod routes;
pub mod ser;
pub mod serializer;
pub mod shape;
pub mod single;
pub mod text;
pub mod typed;
pub mod value;
pub mod writable;
pub mod written;

use crate::binding::UriParts;
use crate::de::UriDeserializer;
use crate::parser::{Parsed, SpecOfParsed};
pub use crate::given::Given;
pub use crate::policy::{Context, Listable, Values, VarsList};
use crate::single::InnerSingle;
use crate::value::Value;
use std::fmt::Debug;
use std::hash::Hash;

verus! {

/// What to do where the values given and the variables of a template differ.
#[derive(Clone, Copy, Debug, PartialEq, Eq, Structural)]
pub enum FillPolicy {
    Relaxed,
    NoMissing,
    NoExtra,
    Strict,
    DropMissing,
}

/// Why something could not be done with a template.
#[derive(Debug)]
#[non_exhaustive]
pub enum Error {
    /// The text is no URI template.
    IriTempate(String),
    /// The text is no IRI reference.
    CreateString(String),
    /// The template makes no regular expression.
    RegexParse(String),
    /// The text is no template.
    Parsing(String),
    /// Variables have no value.
    MissingCaptures(Vec<String>),
    /// Values have no variable.
    ExtraCaptures(Vec<String>),
    /// Fields cannot take the parameters that no other variable names.
    ParseAnnotation(parser::Error),
    /// The template could not be filled.
    URITemplating(ser::Error),
    /// A variable has two values that do not go together.
    MismatchedValues(String, String, String),
    /// The URI is none of the template's.
    NoMatch(String),
    /// The URI holds parameters that no variable takes.
    UnexpectedVariables(Vec<String>),
    /// What was captured does not fit the type wanted.
    Deserialization(de::UriDeserializationError),
}

/// What an `Error` stands for.
#[verifier::ext_equal]
pub enum SpecOfError {
    IriTempate(Seq<char>),
    CreateString(Seq<char>),
    RegexParse(Seq<char>),
    Parsing(Seq<char>),
    MissingCaptures(Seq<Seq<char>>),
    ExtraCaptures(Seq<Seq<char>>),
    ParseAnnotation(parser::SpecOfError),
    URITemplating(ser::SpecOfError),
    MismatchedValues(Seq<char>, Seq<char>, Seq<char>),
    NoMatch(Seq<char>),
    UnexpectedVariables(Seq<Seq<char>>),
    Deserialization(de::SpecOfKind),
}

impl View for Error {
    type V = SpecOfError;

    open spec fn view(&self) -> SpecOfError {
        match *self {
            Error::IriTempate(message) => SpecOfError::IriTempate(message@),
            Error::CreateString(message) => SpecOfError::CreateString(message@),
            Error::RegexParse(message) => SpecOfError::RegexParse(message@),
            Error::Parsing(message) => SpecOfError::Parsing(message@),
            Error::MissingCaptures(names) => SpecOfError::MissingCaptures(text::texts(names@)),
            Error::ExtraCaptures(names) => SpecOfError::ExtraCaptures(text::texts(names@)),
            Error::ParseAnnotation(error) => SpecOfError::ParseAnnotation(error@),
            Error::URITemplating(error) => SpecOfError::URITemplating(error@),
            Error::MismatchedValues(name, a, b) => SpecOfError::MismatchedValues(name@, a@, b@),
            Error::NoMatch(url) => SpecOfError::NoMatch(url@),
            Error::UnexpectedVariables(names) => SpecOfError::UnexpectedVariables(
                text::texts(names@),
            ),
            Error::Deserialization(error) => SpecOfError::Deserialization(error.kind@),
        }
    }
}

impl Clone for Error {
    fn clone(&self) -> (copy: Self)
        ensures
            copy@ == self@,
    {
        match self {
            Error::IriTempate(message) => Error::IriTempate(message.clone()),
            Error::CreateString(message) => Error::CreateString(message.clone()),
            Error::RegexParse(message) => Error::RegexParse(message.clone()),
            Error::Parsing(message) => Error::Parsing(message.clone()),
            Error::MissingCaptures(names) => Error::MissingCaptures(de::clone_texts(names)),
            Error::ExtraCaptures(names) => Error::ExtraCaptures(de::clone_texts(names)),
            Error::ParseAnnotation(error) => Error::ParseAnnotation(error.clone()),
            Error::URITemplating(error) => Error::URITemplating(error.clone()),
            Error::MismatchedValues(name, a, b) => Error::MismatchedValues(
                name.clone(),
                a.clone(),
                b.clone(),
            ),
            Error::NoMatch(url) => Error::NoMatch(url.clone()),
            Error::UnexpectedVariables(names) => Error::UnexpectedVariables(de::clone_texts(names)),
            Error::Deserialization(error) => Error::Deserialization(error.clone()),
        }
    }
}

/// What can be done with a template.
///
/// Two types do it, one of them with what it has kept from earlier calls. What they do is the same.
pub trait Serde6570: Sized {
    /// The template.
    spec fn parsed_template(&self) -> SpecOfParsed;

    /// Whether what was kept from earlier calls is what they gave.
    spec fn is_valid(&self) -> bool;

    /// The URI for a value.
    fn expand(&self, policy: FillPolicy, context: Value) -> (result: Result<String, Error>)
        requires
            self.is_valid(),
        ensures
            single::is_text(result, single::expanded(self.parsed_template(), policy, context)),
    ;

    /// The values that a URI gives to the variables.
    ///
    /// No name of the template stands for values that cannot be told from one another.
    fn contract(&self, uri: &UriParts) -> (result: Result<UriDeserializer, Error>)
        requires
            self.is_valid(),
            binding::is_sound(self.parsed_template()),
        ensures
            binding::is_bound(result, single::contracted(self.parsed_template(), uri@)),
            reading::is_recognised(self.parsed_template(), uri@, result),
            reading::is_read_back(self.parsed_template(), uri@, result),
    ;

    /// The route for a router that takes `:name` and `*name`.
    fn matchit_route(&self) -> (route: String)
        requires
            self.is_valid(),
        ensures
            route@ == single::route_of(self.parsed_template()),
    ;

    /// The regular expression for the authority and the path of the URIs: it matches those that
    /// the template writes.
    fn regex(&mut self) -> (result: Result<String, Error>)
        requires
            old(self).is_valid(),
        ensures
            final(self).is_valid(),
            final(self).parsed_template() == old(self).parsed_template(),
            single::is_text(result, single::regex_of(old(self).parsed_template())),
            result is Ok ==> reading::is_regex_for(
                old(self).parsed_template(),
                result->Ok_0@,
            ),
    ;

    /// The template for a group of URIs whose paths begin with `prefix`.
    fn prefixed(&mut self, prefix: &str) -> (longer: Self)
        requires
            old(self).is_valid(),
        ensures
            final(self).is_valid(),
            final(self).parsed_template() == old(self).parsed_template(),
            longer.is_valid(),
            longer.parsed_template() == single::prefixed(old(self).parsed_template(), prefix@),
    ;

    /// The URI for values by their names. All the variables have one.
    fn fill<C: Context>(&self, vars: &C) -> (result: Result<String, Error>)
        requires
            self.is_valid(),
        ensures
            single::is_text(
                result,
                single::filled(self.parsed_template(), FillPolicy::NoMissing, vars.given()),
            ),
            single::is_kept_without_braces(self.parsed_template(), result),
            single::takes_texts(self.parsed_template(), vars.given(), result),
    ;

    /// The template for the variables that have no value, once values are given to the others.
    fn partial_fill<C: Context>(&self, vars: &C) -> (result: Result<InnerSingle, Error>)
        requires
            self.is_valid(),
        ensures
            match result {
                Ok(left) => single::partially_filled(
                    self.parsed_template(),
                    vars.given(),
                ) == Ok::<SpecOfParsed, SpecOfError>(left.parsed@),
                Err(error) => single::partially_filled(
                    self.parsed_template(),
                    vars.given(),
                ) == Err::<SpecOfParsed, SpecOfError>(error@),
            },
    ;

    /// The text of the template, if it is a URI template.
    fn template(&self) -> (result: Result<String, Error>)
        requires
            self.is_valid(),
        ensures
            single::is_text(result, single::uri_template(self.parsed_template())),
    ;

    /// Whether there are no variables, so that what is left is a URI.
    fn is_closed(&self) -> (closed: bool)
        requires
            self.is_valid(),
        ensures
            closed == (single::expressions_of(self.parsed_template().parts()).len() == 0),
    ;
}

/// What a template is made from.
pub trait ResourceMapping: Debug + Clone + Hash + Send + Sync + Eq + Sized + 'static {
    /// The text of the template.
    fn route_template(&self) -> String;

    /// The fields that take the parameters that no other variable names. Mostly there are none.
    fn assoc_fields(&self) -> (fields: Vec<String>)
        default_ensures
            fields@.len() == 0,
    {
        Vec::new()
    }
}

/// The text of a template, and the fields that take the parameters that no other variable names.
#[derive(Debug, PartialEq, Eq, Hash)]
pub struct ResourceMappingString(pub String, pub Vec<String>);

impl Clone for ResourceMappingString {
    fn clone(&self) -> (copy: Self)
        ensures
            copy.0@ == self.0@,
            text::texts(copy.1@) == text::texts(self.1@),
    {
        ResourceMappingString(self.0.clone(), de::clone_texts(&self.1))
    }
}

impl ResourceMapping for ResourceMappingString {
    fn route_template(&self) -> (template: String)
        ensures
            template@ == self.0@,
    {
        self.0.clone()
    }

    fn assoc_fields(&self) -> (fields: Vec<String>)
        ensures
            text::texts(fields@) == text::texts(self.1@),
    {
        de::clone_texts(&self.1)
    }
}

/// The template that a text and the fields for other parameters make.
pub open spec fn template_from(template: Seq<char>, fields: Seq<Seq<char>>) -> Result<
    SpecOfParsed,
    SpecOfError,
> {
    match grammar::template_of(template) {
        None => Err(SpecOfError::Parsing("malformed template: "@ + template)),
        Some(plain) => match parser::with_assocs(plain, fields) {
            Err(error) => Err(SpecOfError::ParseAnnotation(error)),
            Ok(parsed) => Ok(parsed),
        },
    }
}

/// Whether a result holds the template, or the error, that a mapping should make.
pub open spec fn is_template_from<RM: ResourceMapping>(
    mapping: RM,
    result: Result<SpecOfParsed, SpecOfError>,
) -> bool {
    exists|template: String, fields: Vec<String>|
        {
            &&& #[trigger] call_ensures(RM::route_template, (&mapping,), template)
            &&& #[trigger] call_ensures(RM::assoc_fields, (&mapping,), fields)
            &&& result == template_from(template@, text::texts(fields@))
        }
}

/// Whether a mapping always gives the same text and the same fields.
pub open spec fn is_fixed<RM: ResourceMapping>(mapping: RM) -> bool {
    &&& forall|a: String, b: String|
        #![trigger call_ensures(RM::route_template, (&mapping,), a), call_ensures(
            RM::route_template,
            (&mapping,),
            b,
        )]
        call_ensures(RM::route_template, (&mapping,), a) && call_ensures(
            RM::route_template,
            (&mapping,),
            b,
        ) ==> a@ == b@
    &&& forall|a: Vec<String>, b: Vec<String>|
        #![trigger call_ensures(RM::assoc_fields, (&mapping,), a), call_ensures(
            RM::assoc_fields,
            (&mapping,),
            b,
        )]
        call_ensures(RM::assoc_fields, (&mapping,), a) && call_ensures(
            RM::assoc_fields,
            (&mapping,),
            b,
        ) ==> text::texts(a@) == text::texts(b@)
}

/// A mapping that always gives the same text and the same fields makes one template, whichever of
/// `parsed`, `process` and `cached::RouteMap::named` it is given to, and however often.
pub proof fn law_one_template<RM: ResourceMapping>(
    mapping: RM,
    one: Result<SpecOfParsed, SpecOfError>,
    other: Result<SpecOfParsed, SpecOfError>,
)
    requires
        is_fixed(mapping),
        is_template_from(mapping, one),
        is_template_from(mapping, other),
    ensures
        one == other,
{
}

/// Takes apart the template of a text and of the fields for other parameters.
pub fn parse_mapping(template: &str, fields: Vec<String>) -> (result: Result<Parsed, Error>)
    ensures
        match result {
            Ok(p) => template_from(template@, text::texts(fields@)) == Ok::<
                SpecOfParsed,
                SpecOfError,
            >(p@),
            Err(error) => template_from(template@, text::texts(fields@)) == Err::<
                SpecOfParsed,
                SpecOfError,
            >(error@),
        },
{
    match grammar::parse(template) {
        None => {
            let mut message = "malformed template: ".to_owned();
            message.append(template);
            Err(Error::Parsing(message))
        },
        Some(mut plain) => match plain.annotate_assocs(fields) {
            Ok(_) => Ok(plain),
            Err(error) => Err(Error::ParseAnnotation(error)),
        },
    }
}

/// Takes apart the template of a mapping.
pub fn parsed<RT: ResourceMapping>(rt: RT) -> (result: Result<Parsed, Error>)
    ensures
        is_template_from(
            rt,
            match result {
                Ok(p) => Ok(p@),
                Err(error) => Err(error@),
            },
        ),
{
    let template = rt.route_template();
    let fields = rt.assoc_fields();
    parse_mapping(&template, fields)
}

/// The template of a mapping.
pub fn process<RM: ResourceMapping>(rm: RM) -> (result: Result<InnerSingle, Error>)
    ensures
        is_template_from(
            rm,
            match result {
                Ok(template) => Ok(template.parsed@),
                Err(error) => Err(error@),
            },
        ),
{
    match parsed(rm) {
        Ok(parsed) => Ok(InnerSingle { parsed }),
        Err(error) => Err(error),
    }
}

impl Error {
    /// The status of a response that says what went wrong: whether the request was at fault, or
    /// else the server, as where no value can be read as the type wanted.
    pub fn status_code(&self) -> (code: u16)
        ensures
            code == (match self@ {
                SpecOfError::UnexpectedVariables(_) => 400u16,
                SpecOfError::Deserialization(de::SpecOfKind::UnsupportedType { .. }) => 500u16,
                SpecOfError::Deserialization(_) => 400u16,
                SpecOfError::MismatchedValues(_, _, _) => 400u16,
                _ => 500u16,
            }),
    {
        match self {
            Error::Deserialization(error) => match error.kind {
                de::ErrorKind::UnsupportedType { .. } => 500,
                _ => 400,
            },
            Error::UnexpectedVariables(_) | Error::MismatchedValues(_, _, _) => 400,
            Error::IriTempate(_) | Error::RegexParse(_) | Error::CreateString(_) | Error::Parsing(
                _,
            ) | Error::MissingCaptures(_) | Error::ExtraCaptures(_) | Error::URITemplating(_)
            | Error::NoMatch(_) | Error::ParseAnnotation(_) => 500,
        }
    }
}

} // verus!
