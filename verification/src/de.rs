//! Reading values back out of a URI.
use crate::binding;
use crate::binding::percent_decode;
use crate::text;
use crate::text::{decimal_text, join_texts, split_text};
use vstd::prelude::*;

verus! {

broadcast use {crate::text::texts_push, crate::text::text_pairs_push};

/// Why what was read from a URI does not fit the type wanted.
#[derive(Debug)]
pub struct UriDeserializationError {
    pub kind: ErrorKind,
}

/// In which way what was read from a URI does not fit the type wanted.
#[derive(Debug, PartialEq, Eq)]
#[non_exhaustive]
#[allow(inconsistent_fields)]
pub enum ErrorKind {
    /// The URI contained the wrong number of parameters.
    WrongNumberOfParameters {
        /// The number of actual parameters in the URI.
        got: usize,
        /// The number of expected parameters.
        expected: usize,
    },
    /// The type wanted cannot hold the variables in the template.
    CantFillParameters {
        /// The names of the variables.
        got: Vec<String>,
        /// The number of expected parameters.
        expected: usize,
    },
    /// Failed to parse the value at a specific key into the expected type.
    ///
    /// This variant is used when deserializing into types that have named fields, such as structs.
    ParseErrorAtKey {
        /// The key at which the value was located.
        key: String,
        /// The value from the URI.
        value: String,
        /// The expected type of the value.
        expected_type: &'static str,
    },
    /// Failed to parse the value at a specific index into the expected type.
    ///
    /// This variant is used when deserializing into sequence types, such as tuples.
    ParseErrorAtIndex {
        /// The index at which the value was located.
        index: usize,
        /// The value from the URI.
        value: String,
        /// The expected type of the value.
        expected_type: &'static str,
    },
    /// Failed to parse a value into the expected type.
    ///
    /// This variant is used when deserializing into a primitive type (such as `String` and `u32`).
    ParseError {
        /// The value from the URI.
        value: String,
        /// The expected type of the value.
        expected_type: &'static str,
    },
    /// Tried to deserialize into an unsupported type such as nested maps.
    ///
    /// This error kind is caused by programmer errors and thus gets converted into a `500 Internal
    /// Server Error` response.
    UnsupportedType {
        /// The name of the unsupported type.
        name: &'static str,
    },
    /// The value cannot be of the type.
    MismatchedValue {
        /// The expected type of the value.
        expected_type: &'static str,
    },
    /// Catch-all variant for errors that don't fit any other variant.
    Message(String),
}

/// What an `ErrorKind` stands for.
#[verifier::ext_equal]
pub enum SpecOfKind {
    WrongNumberOfParameters { got: int, expected: int },
    CantFillParameters { names: Seq<Seq<char>>, expected: int },
    ParseErrorAtKey { key: Seq<char>, value: Seq<char>, expected_type: Seq<char> },
    ParseErrorAtIndex { index: int, value: Seq<char>, expected_type: Seq<char> },
    ParseError { value: Seq<char>, expected_type: Seq<char> },
    UnsupportedType { name: Seq<char> },
    MismatchedValue { expected_type: Seq<char> },
    Message(Seq<char>),
}

impl View for ErrorKind {
    type V = SpecOfKind;

    open spec fn view(&self) -> SpecOfKind {
        match *self {
            ErrorKind::WrongNumberOfParameters { got, expected } => {
                SpecOfKind::WrongNumberOfParameters { got: got as int, expected: expected as int }
            },
            ErrorKind::CantFillParameters { got, expected } => SpecOfKind::CantFillParameters {
                names: text::texts(got@),
                expected: expected as int,
            },
            ErrorKind::ParseErrorAtKey { key, value, expected_type } => {
                SpecOfKind::ParseErrorAtKey {
                    key: key@,
                    value: value@,
                    expected_type: expected_type@,
                }
            },
            ErrorKind::ParseErrorAtIndex { index, value, expected_type } => {
                SpecOfKind::ParseErrorAtIndex {
                    index: index as int,
                    value: value@,
                    expected_type: expected_type@,
                }
            },
            ErrorKind::ParseError { value, expected_type } => SpecOfKind::ParseError {
                value: value@,
                expected_type: expected_type@,
            },
            ErrorKind::UnsupportedType { name } => SpecOfKind::UnsupportedType { name: name@ },
            ErrorKind::MismatchedValue { expected_type } => SpecOfKind::MismatchedValue {
                expected_type: expected_type@,
            },
            ErrorKind::Message(message) => SpecOfKind::Message(message@),
        }
    }
}

/// The value of a variable, as a URI gives it.
#[derive(Debug)]
pub enum VarBinding {
    Scalar(String),
    /// Text from the path with encoded items in it, and what stands between them.
    PathExplode(char, String),
    /// The values of a parameter that comes more than once.
    QueryExplode(Vec<String>),
    /// Names with their values, and what stands between them.
    Assoc(char, Vec<(String, String)>),
    Empty,
}

/// What a `VarBinding` stands for.
#[verifier::ext_equal]
pub enum SpecOfBinding {
    Scalar(Seq<char>),
    PathExplode(char, Seq<char>),
    QueryExplode(Seq<Seq<char>>),
    Assoc(char, Seq<(Seq<char>, Seq<char>)>),
    Empty,
}

impl View for VarBinding {
    type V = SpecOfBinding;

    open spec fn view(&self) -> SpecOfBinding {
        match *self {
            VarBinding::Scalar(v) => SpecOfBinding::Scalar(v@),
            VarBinding::PathExplode(sep, joined) => SpecOfBinding::PathExplode(sep, joined@),
            VarBinding::QueryExplode(items) => SpecOfBinding::QueryExplode(text::texts(items@)),
            VarBinding::Assoc(sep, list) => SpecOfBinding::Assoc(sep, text::text_pairs(list@)),
            VarBinding::Empty => SpecOfBinding::Empty,
        }
    }
}

/// Reads values from what a URI gives to the variables of a template.
#[derive(Debug)]
pub struct UriDeserializer {
    pub varlist: Vec<(String, VarBinding)>,
}

/// Names with the values of their variables.
pub open spec fn params_view(params: Seq<(String, VarBinding)>) -> Seq<
    (Seq<char>, SpecOfBinding),
> {
    Seq::new(params.len(), |i: int| (params[i].0@, params[i].1@))
}

/// A name and a value with an equals sign between them.
pub open spec fn equation(pair: (Seq<char>, Seq<char>)) -> Seq<char> {
    pair.0.push('=') + pair.1
}

/// The names and values with equals signs between them.
pub open spec fn equations(list: Seq<(Seq<char>, Seq<char>)>) -> Seq<Seq<char>> {
    Seq::new(list.len(), |i: int| equation(list[i]))
}

/// The text that an encoded text of the path stands for: itself, where what it encodes is not UTF-8.
pub open spec fn plain_text(encoded: Seq<char>) -> Seq<char> {
    match binding::decoded(encoded) {
        Some(plain) => plain,
        None => encoded,
    }
}

/// The items of an encoded text of the path, with `sep` between them.
pub open spec fn path_items(sep: char, joined: Seq<char>) -> Seq<Seq<char>> {
    let encoded = text::split(joined, sep);
    Seq::new(encoded.len(), |i: int| plain_text(encoded[i]))
}

/// The value of a variable as one text, which is to be read as the type `expected`. The values of a
/// parameter that comes more than once are no such text.
pub open spec fn binding_text(binding: SpecOfBinding, expected: Seq<char>) -> Result<
    Seq<char>,
    SpecOfKind,
> {
    match binding {
        SpecOfBinding::Scalar(v) => Ok(v),
        SpecOfBinding::PathExplode(_, joined) => Ok(plain_text(joined)),
        SpecOfBinding::QueryExplode(_) => Err(
            SpecOfKind::MismatchedValue { expected_type: expected },
        ),
        SpecOfBinding::Assoc(sep, list) => Ok(text::join(equations(list), seq![sep])),
        SpecOfBinding::Empty => Ok(Seq::empty()),
    }
}

/// Whether a result holds the text, or the error, that it should.
pub open spec fn is_text(
    result: Result<String, UriDeserializationError>,
    expected: Result<Seq<char>, SpecOfKind>,
) -> bool {
    match result {
        Ok(out) => expected == Ok::<Seq<char>, SpecOfKind>(out@),
        Err(error) => expected == Err::<Seq<char>, SpecOfKind>(error.kind@),
    }
}

/// The text that an encoded text of the path stands for.
pub fn plain(encoded: &str) -> (out: String)
    ensures
        out@ == plain_text(encoded@),
{
    match percent_decode(encoded) {
        Some(out) => out,
        None => encoded.to_owned(),
    }
}

/// The items of an encoded text of the path, with `sep` between them.
pub fn items_of(sep: char, joined: &str) -> (items: Vec<String>)
    ensures
        text::texts(items@) == path_items(sep, joined@),
{
    let encoded = split_text(joined, sep);
    let mut items: Vec<String> = Vec::new();
    let mut i: usize = 0;
    while i < encoded.len()
        invariant
            i <= encoded@.len(),
            text::texts(encoded@) == text::split(joined@, sep),
            text::texts(items@) =~= path_items(sep, joined@).take(i as int),
        decreases encoded@.len() - i,
    {
        assert(text::texts(encoded@)[i as int] == encoded@[i as int]@);
        items.push(plain(&encoded[i]));
        i = i + 1;
    }
    assert(text::texts(encoded@).len() == encoded@.len());
    assert(text::texts(items@) =~= path_items(sep, joined@));
    items
}

/// A copy of a list of strings.
pub fn clone_texts(list: &Vec<String>) -> (copy: Vec<String>)
    ensures
        text::texts(copy@) == text::texts(list@),
{
    let mut copy: Vec<String> = Vec::new();
    let mut i: usize = 0;
    while i < list.len()
        invariant
            i <= list@.len(),
            text::texts(copy@) =~= text::texts(list@).take(i as int),
        decreases list@.len() - i,
    {
        copy.push(list[i].clone());
        i = i + 1;
    }
    assert(text::texts(copy@) =~= text::texts(list@));
    copy
}

/// A copy of a list of pairs of strings.
pub fn clone_pairs(list: &Vec<(String, String)>) -> (copy: Vec<(String, String)>)
    ensures
        text::text_pairs(copy@) == text::text_pairs(list@),
{
    let mut copy: Vec<(String, String)> = Vec::new();
    let mut i: usize = 0;
    while i < list.len()
        invariant
            i <= list@.len(),
            text::text_pairs(copy@) =~= text::text_pairs(list@).take(i as int),
        decreases list@.len() - i,
    {
        copy.push((list[i].0.clone(), list[i].1.clone()));
        i = i + 1;
    }
    assert(text::text_pairs(copy@) =~= text::text_pairs(list@));
    copy
}

impl Clone for ErrorKind {
    fn clone(&self) -> (copy: Self)
        ensures
            copy@ == self@,
    {
        match self {
            ErrorKind::WrongNumberOfParameters { got, expected } => {
                ErrorKind::WrongNumberOfParameters { got: *got, expected: *expected }
            },
            ErrorKind::CantFillParameters { got, expected } => ErrorKind::CantFillParameters {
                got: clone_texts(got),
                expected: *expected,
            },
            ErrorKind::ParseErrorAtKey { key, value, expected_type } => {
                ErrorKind::ParseErrorAtKey {
                    key: key.clone(),
                    value: value.clone(),
                    expected_type: *expected_type,
                }
            },
            ErrorKind::ParseErrorAtIndex { index, value, expected_type } => {
                ErrorKind::ParseErrorAtIndex {
                    index: *index,
                    value: value.clone(),
                    expected_type: *expected_type,
                }
            },
            ErrorKind::ParseError { value, expected_type } => ErrorKind::ParseError {
                value: value.clone(),
                expected_type: *expected_type,
            },
            ErrorKind::UnsupportedType { name } => ErrorKind::UnsupportedType { name: *name },
            ErrorKind::MismatchedValue { expected_type } => ErrorKind::MismatchedValue {
                expected_type: *expected_type,
            },
            ErrorKind::Message(message) => ErrorKind::Message(message.clone()),
        }
    }
}

impl Clone for UriDeserializationError {
    fn clone(&self) -> (copy: Self)
        ensures
            copy.kind@ == self.kind@,
    {
        UriDeserializationError { kind: self.kind.clone() }
    }
}

impl Clone for VarBinding {
    fn clone(&self) -> (copy: Self)
        ensures
            copy@ == self@,
    {
        match self {
            VarBinding::Scalar(v) => VarBinding::Scalar(v.clone()),
            VarBinding::PathExplode(sep, joined) => VarBinding::PathExplode(*sep, joined.clone()),
            VarBinding::QueryExplode(items) => VarBinding::QueryExplode(clone_texts(items)),
            VarBinding::Assoc(sep, list) => VarBinding::Assoc(*sep, clone_pairs(list)),
            VarBinding::Empty => VarBinding::Empty,
        }
    }
}

impl VarBinding {
    /// The value as one text, which is to be read as the type `expected`.
    pub fn to_str(&self, expected: &'static str) -> (result: Result<
        String,
        UriDeserializationError,
    >)
        ensures
            is_text(result, binding_text(self@, expected@)),
    {
        match self {
            VarBinding::Scalar(v) => Ok(v.clone()),
            VarBinding::PathExplode(_, joined) => Ok(plain(joined)),
            VarBinding::QueryExplode(_) => Err(UriDeserializationError::mismatched_value(expected)),
            VarBinding::Assoc(sep, list) => {
                let mut lines: Vec<String> = Vec::new();
                let mut i: usize = 0;
                while i < list.len()
                    invariant
                        i <= list@.len(),
                        text::texts(lines@) =~= equations(text::text_pairs(list@)).take(i as int),
                    decreases list@.len() - i,
                {
                    let mut line = list[i].0.clone();
                    line.push('=');
                    line.append(&list[i].1);
                    lines.push(line);
                    i = i + 1;
                }
                assert(text::texts(lines@) =~= equations(text::text_pairs(list@)));
                Ok(join_texts(&lines, &text::char_text(*sep)))
            },
            VarBinding::Empty => {
                let out = String::new();
                assert(out@ =~= Seq::empty());
                Ok(out)
            },
        }
    }
}

/// The names of parameters.
pub open spec fn param_names(params: Seq<(Seq<char>, SpecOfBinding)>) -> Seq<Seq<char>> {
    Seq::new(params.len(), |i: int| params[i].0)
}

impl UriDeserializationError {
    /// An error of a kind.
    pub fn new(kind: ErrorKind) -> (error: Self)
        ensures
            error.kind == kind,
    {
        UriDeserializationError { kind }
    }

    /// There are too few parameters.
    pub fn wrong_number_of_parameters(got: usize, expected: usize) -> (error: Self)
        ensures
            error.kind@ == (SpecOfKind::WrongNumberOfParameters {
                got: got as int,
                expected: expected as int,
            }),
    {
        UriDeserializationError { kind: ErrorKind::WrongNumberOfParameters { got, expected } }
    }

    /// The variables are not as many as are expected.
    pub fn cant_fill_parameters(varlist: &Vec<(String, VarBinding)>, expected: usize) -> (error:
        Self)
        ensures
            error.kind@ == (SpecOfKind::CantFillParameters {
                names: param_names(params_view(varlist@)),
                expected: expected as int,
            }),
    {
        let mut got: Vec<String> = Vec::new();
        let mut i: usize = 0;
        while i < varlist.len()
            invariant
                i <= varlist@.len(),
                text::texts(got@) =~= param_names(params_view(varlist@)).take(i as int),
            decreases varlist@.len() - i,
        {
            got.push(varlist[i].0.clone());
            i = i + 1;
        }
        assert(text::texts(got@) =~= param_names(params_view(varlist@)));
        UriDeserializationError { kind: ErrorKind::CantFillParameters { got, expected } }
    }

    /// The type wanted cannot be read from a URI.
    pub fn unsupported_type(name: &'static str) -> (error: Self)
        ensures
            error.kind@ == (SpecOfKind::UnsupportedType { name: name@ }),
    {
        UriDeserializationError::new(ErrorKind::UnsupportedType { name })
    }

    /// The value cannot be of the type wanted.
    pub fn mismatched_value(name: &'static str) -> (error: Self)
        ensures
            error.kind@ == (SpecOfKind::MismatchedValue { expected_type: name@ }),
    {
        UriDeserializationError::new(ErrorKind::MismatchedValue { expected_type: name })
    }

    /// An error with a message of its own.
    pub fn custom(message: String) -> (error: Self)
        ensures
            error.kind@ == SpecOfKind::Message(message@),
    {
        UriDeserializationError::new(ErrorKind::Message(message))
    }

    /// What the error says.
    pub fn to_string(&self) -> (message: String)
        ensures
            message@ == message_of(self.kind@),
    {
        self.kind.to_string()
    }
}

/// How `Debug` writes a text.
pub uninterp spec fn debug_text(value: Seq<char>) -> Seq<char>;

/// `str`'s `Debug`, as `format!` writes it: the text in quotes, with escapes. What it writes has a
/// name.
#[verifier::external_body]
pub(crate) fn debug_string(value: &str) -> (out: String)
    ensures
        out@ == debug_text(value@),
{
    format!("{value:?}")
}

/// How `Debug` writes the texts of a list.
pub open spec fn debug_texts(list: Seq<Seq<char>>) -> Seq<Seq<char>> {
    Seq::new(list.len(), |i: int| debug_text(list[i]))
}

/// What is added where only one parameter is expected.
pub open spec fn single_note(expected: int) -> Seq<char> {
    if expected == 1 {
        ". Note that multiple parameters must be extracted with a tuple `Path<(_, _)>` or a struct `Path<YourParams>`"@
    } else {
        Seq::empty()
    }
}

/// What an error says.
pub open spec fn message_of(kind: SpecOfKind) -> Seq<char> {
    match kind {
        SpecOfKind::Message(message) => message,
        SpecOfKind::WrongNumberOfParameters { got, expected } => {
            "Wrong number of path arguments for `Path`. Expected "@ + text::decimal(expected as nat)
                + " but got "@ + text::decimal(got as nat) + single_note(expected)
        },
        SpecOfKind::CantFillParameters { names, expected } => {
            "Wrong number of path arguments for `Path`. Variables ["@ + text::join(
                debug_texts(names),
                ", "@,
            ) + "]("@ + text::decimal(names.len()) + ") but expected "@ + text::decimal(
                expected as nat,
            ) + single_note(expected)
        },
        SpecOfKind::UnsupportedType { name } => "Unsupported type `"@ + name + "`"@,
        SpecOfKind::MismatchedValue { expected_type } => "value not suitable for type `"@
            + expected_type + "`"@,
        SpecOfKind::ParseErrorAtKey { key, value, expected_type } => {
            "Cannot parse `"@ + key + "` with value `"@ + debug_text(value) + "` to a `"@
                + expected_type + "`"@
        },
        SpecOfKind::ParseError { value, expected_type } => {
            "Cannot parse `"@ + debug_text(value) + "` to a `"@ + expected_type + "`"@
        },
        SpecOfKind::ParseErrorAtIndex { index, value, expected_type } => {
            "Cannot parse value at index "@ + text::decimal(index as nat) + " with value `"@
                + debug_text(value) + "` to a `"@ + expected_type + "`"@
        },
    }
}

fn push_single_note(out: &mut String, expected: usize)
    ensures
        final(out)@ == old(out)@ + single_note(expected as int),
{
    if expected == 1 {
        out.append(
            ". Note that multiple parameters must be extracted with a tuple `Path<(_, _)>` or a struct `Path<YourParams>`",
        );
    }
    assert(out@ =~= old(out)@ + single_note(expected as int));
}

impl ErrorKind {
    /// What the error says.
    pub fn to_string(&self) -> (message: String)
        ensures
            message@ == message_of(self@),
    {
        match self {
            ErrorKind::Message(error) => error.clone(),
            ErrorKind::WrongNumberOfParameters { got, expected } => {
                let mut out = "Wrong number of path arguments for `Path`. Expected ".to_owned();
                out.append(&decimal_text(*expected as u64));
                out.append(" but got ");
                out.append(&decimal_text(*got as u64));
                push_single_note(&mut out, *expected);
                out
            },
            ErrorKind::CantFillParameters { got, expected } => {
                let mut shown: Vec<String> = Vec::new();
                let mut i: usize = 0;
                while i < got.len()
                    invariant
                        i <= got@.len(),
                        text::texts(shown@) =~= debug_texts(text::texts(got@)).take(i as int),
                    decreases got@.len() - i,
                {
                    shown.push(debug_string(&got[i]));
                    i = i + 1;
                }
                assert(text::texts(shown@) =~= debug_texts(text::texts(got@)));
                let mut out = "Wrong number of path arguments for `Path`. Variables [".to_owned();
                out.append(&join_texts(&shown, ", "));
                out.append("](");
                out.append(&decimal_text(got.len() as u64));
                out.append(") but expected ");
                out.append(&decimal_text(*expected as u64));
                push_single_note(&mut out, *expected);
                out
            },
            ErrorKind::UnsupportedType { name } => {
                let mut out = "Unsupported type `".to_owned();
                out.append(name);
                out.append("`");
                out
            },
            ErrorKind::MismatchedValue { expected_type } => {
                let mut out = "value not suitable for type `".to_owned();
                out.append(expected_type);
                out.append("`");
                out
            },
            ErrorKind::ParseErrorAtKey { key, value, expected_type } => {
                let mut out = "Cannot parse `".to_owned();
                out.append(key);
                out.append("` with value `");
                out.append(&debug_string(value));
                out.append("` to a `");
                out.append(expected_type);
                out.append("`");
                out
            },
            ErrorKind::ParseError { value, expected_type } => {
                let mut out = "Cannot parse `".to_owned();
                out.append(&debug_string(value));
                out.append("` to a `");
                out.append(expected_type);
                out.append("`");
                out
            },
            ErrorKind::ParseErrorAtIndex { index, value, expected_type } => {
                let mut out = "Cannot parse value at index ".to_owned();
                out.append(&decimal_text(*index as u64));
                out.append(" with value `");
                out.append(&debug_string(value));
                out.append("` to a `");
                out.append(expected_type);
                out.append("`");
                out
            },
        }
    }
}

} // verus!
