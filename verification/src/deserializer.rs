//! The steps by which values of a type are read.
use crate::de;
use crate::de::{
    debug_string, ErrorKind, SpecOfBinding, SpecOfKind, UriDeserializationError, UriDeserializer,
    VarBinding,
};
use crate::form;
use crate::primitive::Primitive;
use crate::text;
use crate::text::{decimal_text, split_text};
use vstd::prelude::*;

verus! {

/// Where a value stands: under a key, or at an index, where it has a name too.
#[derive(Debug)]
pub enum KeyOrIdx {
    Key(String),
    Idx { idx: usize, key: String },
}

/// What a `KeyOrIdx` stands for.
#[verifier::ext_equal]
pub enum SpecOfKey {
    Key(Seq<char>),
    Idx(int, Seq<char>),
}

impl View for KeyOrIdx {
    type V = SpecOfKey;

    open spec fn view(&self) -> SpecOfKey {
        match *self {
            KeyOrIdx::Key(key) => SpecOfKey::Key(key@),
            KeyOrIdx::Idx { idx, key } => SpecOfKey::Idx(idx as int, key@),
        }
    }
}

impl Clone for KeyOrIdx {
    fn clone(&self) -> (copy: Self)
        ensures
            copy@ == self@,
    {
        match self {
            KeyOrIdx::Key(key) => KeyOrIdx::Key(key.clone()),
            KeyOrIdx::Idx { idx, key } => KeyOrIdx::Idx { idx: *idx, key: key.clone() },
        }
    }
}

/// Where a value stands, if that is known.
pub open spec fn key_view(key: Option<KeyOrIdx>) -> Option<SpecOfKey> {
    match key {
        Some(key) => Some(key@),
        None => None,
    }
}

/// Items as values of one name.
pub open spec fn items_named(name: Seq<char>, items: Seq<Seq<char>>) -> Seq<
    (Seq<char>, SpecOfBinding),
> {
    Seq::new(items.len(), |i: int| (name, SpecOfBinding::Scalar(items[i])))
}

/// Items as values whose names are their numbers.
pub open spec fn items_numbered(items: Seq<Seq<char>>) -> Seq<(Seq<char>, SpecOfBinding)> {
    Seq::new(items.len(), |i: int| (text::decimal(i as nat), SpecOfBinding::Scalar(items[i])))
}

/// Pairs as names with their values.
pub open spec fn pairs_bound(pairs: Seq<(Seq<char>, Seq<char>)>) -> Seq<
    (Seq<char>, SpecOfBinding),
> {
    Seq::new(pairs.len(), |i: int| (pairs[i].0, SpecOfBinding::Scalar(pairs[i].1)))
}

/// The text of the only parameter, if it has one.
pub open spec fn single_text(params: Seq<(Seq<char>, SpecOfBinding)>, expected: Seq<char>) -> Result<
    Seq<char>,
    SpecOfKind,
> {
    if params.len() != 1 {
        Err(SpecOfKind::CantFillParameters { names: de::param_names(params), expected: 1 })
    } else {
        match params[0].1 {
            SpecOfBinding::Scalar(scalar) => Ok(scalar),
            SpecOfBinding::PathExplode(_, joined) => Ok(de::plain_text(joined)),
            SpecOfBinding::QueryExplode(_) | SpecOfBinding::Assoc(_, _) => Err(
                SpecOfKind::MismatchedValue { expected_type: expected },
            ),
            SpecOfBinding::Empty => Err(
                SpecOfKind::ParseError { value: "<empty>"@, expected_type: expected },
            ),
        }
    }
}

/// The parameters as a sequence: where there is only one and it has items, these.
pub open spec fn sequence_of(params: Seq<(Seq<char>, SpecOfBinding)>) -> Seq<
    (Seq<char>, SpecOfBinding),
> {
    if params.len() == 1 {
        match params[0].1 {
            SpecOfBinding::PathExplode(sep, s) => items_named(params[0].0, de::path_items(sep, s)),
            SpecOfBinding::QueryExplode(l) => items_named(params[0].0, l),
            _ => params,
        }
    } else {
        params
    }
}

/// Why the parameters cannot be a tuple of `len` values.
pub open spec fn tuple_error(params: Seq<(Seq<char>, SpecOfBinding)>, len: int) -> Option<
    SpecOfKind,
> {
    match sequence_kind(params) {
        SequenceKind::Path => None,
        SequenceKind::Query(count) => if count < len {
            Some(SpecOfKind::WrongNumberOfParameters { got: count, expected: len })
        } else {
            None
        },
        SequenceKind::Params => if params.len() < len {
            Some(
                SpecOfKind::CantFillParameters { names: de::param_names(params), expected: len },
            )
        } else {
            None
        },
    }
}

/// Where the values of a sequence come from.
pub enum SequenceKind {
    Path,
    Query(int),
    Params,
}

/// Where the values of a sequence come from.
pub open spec fn sequence_kind(params: Seq<(Seq<char>, SpecOfBinding)>) -> SequenceKind {
    if params.len() == 1 {
        match params[0].1 {
            SpecOfBinding::PathExplode(_, _) => SequenceKind::Path,
            SpecOfBinding::QueryExplode(l) => SequenceKind::Query(l.len() as int),
            _ => SequenceKind::Params,
        }
    } else {
        SequenceKind::Params
    }
}

/// What is said of a value that is no variant of an enum.
pub open spec fn no_variant(value: Seq<char>) -> Seq<char> {
    "invalid value: string "@ + de::debug_text(value) + ", expected an enum variant"@
}

/// The name of the variant that the parameters give.
pub open spec fn variant_of(params: Seq<(Seq<char>, SpecOfBinding)>) -> Result<
    Seq<char>,
    SpecOfKind,
> {
    if params.len() != 1 {
        Err(SpecOfKind::CantFillParameters { names: de::param_names(params), expected: 1 })
    } else {
        match params[0].1 {
            SpecOfBinding::Scalar(value) => Ok(value),
            other => match de::binding_text(other, "enum"@) {
                Ok(value) => Err(SpecOfKind::Message(no_variant(value))),
                Err(kind) => Err(kind),
            },
        }
    }
}

/// Whether a result holds the value that a text writes, or else the error `failure`.
pub open spec fn is_value<T: Primitive>(
    result: Result<T, UriDeserializationError>,
    written: Seq<char>,
    failure: SpecOfKind,
) -> bool {
    match T::read(written) {
        Some(value) => result == Ok::<T, UriDeserializationError>(value),
        None => result is Err && result->Err_0.kind@ == failure,
    }
}

/// Reads the values of a sequence.
#[derive(Debug)]
pub struct SeqDeserializer {
    pub params: Vec<(String, VarBinding)>,
    /// The number of values that have been read.
    pub idx: usize,
}

/// Reads the entries of a map.
#[derive(Debug)]
pub struct MapDeserializer {
    pub params: Vec<(String, VarBinding)>,
    /// The number of keys that have been read.
    pub idx: usize,
    /// The key of the value that comes next.
    pub key: Option<KeyOrIdx>,
    pub value: Option<VarBinding>,
}

/// Reads a key.
#[derive(Debug)]
pub struct KeyDeserializer {
    pub key: String,
}

/// Reads a value.
#[derive(Debug)]
pub struct ValueDeserializer {
    pub key: Option<KeyOrIdx>,
    pub value: VarBinding,
}

/// Reads a name and then its value.
#[derive(Debug)]
pub struct PairDeserializer {
    /// The name, if it has not been read.
    pub key: Option<String>,
    pub value: Option<VarBinding>,
}

/// An element of a pair.
#[derive(Debug)]
pub enum PairElement {
    Key(KeyDeserializer),
    Value(ValueDeserializer),
}

/// Reads the variant of an enum.
#[derive(Debug)]
pub struct EnumDeserializer {
    pub value: String,
}

/// A variant that holds nothing.
#[derive(Debug)]
pub struct UnitVariant;

impl SeqDeserializer {
    /// The values that have not been read.
    pub open spec fn left(self) -> Seq<(Seq<char>, SpecOfBinding)> {
        de::params_view(self.params@).skip(self.idx as int)
    }

    fn of(params: Vec<(String, VarBinding)>) -> (seq: Self)
        ensures
            seq.idx == 0,
            seq.left() == de::params_view(params@),
    {
        let seq = SeqDeserializer { params, idx: 0 };
        assert(seq.left() =~= de::params_view(params@));
        seq
    }

    /// The next value, with its index and its name.
    pub fn next_element(&mut self) -> (element: Option<ValueDeserializer>)
        requires
            old(self).idx <= old(self).params@.len(),
        ensures
            final(self).idx <= final(self).params@.len(),
            match element {
                Some(value) => {
                    &&& old(self).left().len() > 0
                    &&& key_view(value.key) == Some(
                        SpecOfKey::Idx(old(self).idx as int, old(self).left()[0].0),
                    )
                    &&& value.value@ == old(self).left()[0].1
                    &&& final(self).left() == old(self).left().skip(1)
                    &&& final(self).idx == old(self).idx + 1
                },
                None => old(self).left().len() == 0 && *final(self) == *old(self),
            },
    {
        if self.idx < self.params.len() {
            let idx = self.idx;
            self.idx = self.idx + 1;
            let key = KeyOrIdx::Idx { idx, key: self.params[idx].0.clone() };
            assert(self.left() =~= old(self).left().skip(1));
            Some(ValueDeserializer { key: Some(key), value: self.params[idx].1.clone() })
        } else {
            None
        }
    }
}

impl MapDeserializer {
    /// The entries whose keys have not been read.
    pub open spec fn left(self) -> Seq<(Seq<char>, SpecOfBinding)> {
        de::params_view(self.params@).skip(self.idx as int)
    }

    fn of(params: Vec<(String, VarBinding)>) -> (map: Self)
        ensures
            map.idx == 0,
            map.left() == de::params_view(params@),
            map.key is None,
            map.value is None,
    {
        let map = MapDeserializer { params, idx: 0, key: None, value: None };
        assert(map.left() =~= de::params_view(params@));
        map
    }

    /// The next key. Its value is kept until it is asked for.
    pub fn next_key(&mut self) -> (key: Option<KeyDeserializer>)
        requires
            old(self).idx <= old(self).params@.len(),
        ensures
            final(self).idx <= final(self).params@.len(),
            match key {
                Some(key) => {
                    &&& old(self).left().len() > 0
                    &&& key.key@ == old(self).left()[0].0
                    &&& key_view(final(self).key) == Some(SpecOfKey::Key(old(self).left()[0].0))
                    &&& final(self).value is Some
                    &&& final(self).value->0@ == old(self).left()[0].1
                    &&& final(self).left() == old(self).left().skip(1)
                },
                None => old(self).left().len() == 0 && *final(self) == *old(self),
            },
    {
        if self.idx < self.params.len() {
            let idx = self.idx;
            self.idx = self.idx + 1;
            self.key = Some(KeyOrIdx::Key(self.params[idx].0.clone()));
            self.value = Some(self.params[idx].1.clone());
            assert(self.left() =~= old(self).left().skip(1));
            Some(KeyDeserializer { key: self.params[idx].0.clone() })
        } else {
            None
        }
    }

    /// The value of the key that was read last.
    pub fn next_value(&mut self) -> (value: Result<ValueDeserializer, UriDeserializationError>)
        ensures
            final(self).idx == old(self).idx,
            final(self).params == old(self).params,
            final(self).value is None,
            match value {
                Ok(value) => {
                    &&& old(self).value is Some
                    &&& value.value == old(self).value->0
                    &&& value.key == old(self).key
                    &&& final(self).key is None
                },
                Err(error) => {
                    &&& old(self).value is None
                    &&& error.kind@ == SpecOfKind::Message("value is missing"@)
                    &&& final(self).key == old(self).key
                },
            },
    {
        match self.value.take() {
            Some(value) => Ok(ValueDeserializer { key: self.key.take(), value }),
            None => Err(UriDeserializationError::custom("value is missing".to_owned())),
        }
    }

    /// The next key and its value.
    pub fn next_entry(&mut self) -> (entry: Option<(KeyDeserializer, ValueDeserializer)>)
        requires
            old(self).idx <= old(self).params@.len(),
        ensures
            final(self).idx <= final(self).params@.len(),
            final(self).key == old(self).key,
            final(self).value == old(self).value,
            match entry {
                Some((key, value)) => {
                    &&& old(self).left().len() > 0
                    &&& key.key@ == old(self).left()[0].0
                    &&& key_view(value.key) == Some(SpecOfKey::Key(old(self).left()[0].0))
                    &&& value.value@ == old(self).left()[0].1
                    &&& final(self).left() == old(self).left().skip(1)
                },
                None => old(self).left().len() == 0 && *final(self) == *old(self),
            },
    {
        if self.idx < self.params.len() {
            let idx = self.idx;
            self.idx = self.idx + 1;
            let vk = KeyOrIdx::Key(self.params[idx].0.clone());
            let key = KeyDeserializer { key: self.params[idx].0.clone() };
            assert(self.left() =~= old(self).left().skip(1));
            Some((key, ValueDeserializer { key: Some(vk), value: self.params[idx].1.clone() }))
        } else {
            None
        }
    }
}

impl KeyDeserializer {
    /// The key as a text.
    pub fn deserialize_str(&self) -> (out: String)
        ensures
            out@ == self.key@,
    {
        self.key.clone()
    }

    /// A key is a text and nothing else.
    pub fn deserialize_any(&self) -> (error: UriDeserializationError)
        ensures
            error.kind@ == SpecOfKind::Message("Unexpected key type"@),
    {
        UriDeserializationError::custom("Unexpected key type".to_owned())
    }
}

fn named_params(name: &str, items: &Vec<String>) -> (params: Vec<(String, VarBinding)>)
    ensures
        de::params_view(params@) == items_named(name@, text::texts(items@)),
{
    let ghost all = items_named(name@, text::texts(items@));
    let mut params: Vec<(String, VarBinding)> = Vec::new();
    let mut i: usize = 0;
    assert(de::params_view(params@) =~= all.take(0));
    while i < items.len()
        invariant
            i <= items@.len(),
            all == items_named(name@, text::texts(items@)),
            de::params_view(params@) == all.take(i as int),
        decreases items@.len() - i,
    {
        let ghost before = de::params_view(params@);
        params.push((name.to_owned(), VarBinding::Scalar(items[i].clone())));
        assert(de::params_view(params@) =~= before.push(all[i as int]));
        assert(all.take(i + 1) =~= before.push(all[i as int]));
        i = i + 1;
    }
    assert(all.take(i as int) =~= all);
    params
}

fn numbered_params(items: &Vec<String>) -> (params: Vec<(String, VarBinding)>)
    ensures
        de::params_view(params@) == items_numbered(text::texts(items@)),
{
    let ghost all = items_numbered(text::texts(items@));
    let mut params: Vec<(String, VarBinding)> = Vec::new();
    let mut i: usize = 0;
    assert(de::params_view(params@) =~= all.take(0));
    while i < items.len()
        invariant
            i <= items@.len(),
            all == items_numbered(text::texts(items@)),
            de::params_view(params@) == all.take(i as int),
        decreases items@.len() - i,
    {
        let ghost before = de::params_view(params@);
        params.push((decimal_text(i as u64), VarBinding::Scalar(items[i].clone())));
        assert(de::params_view(params@) =~= before.push(all[i as int]));
        assert(all.take(i + 1) =~= before.push(all[i as int]));
        i = i + 1;
    }
    assert(all.take(i as int) =~= all);
    params
}

fn pair_params(pairs: &Vec<(String, String)>) -> (params: Vec<(String, VarBinding)>)
    ensures
        de::params_view(params@) == pairs_bound(text::text_pairs(pairs@)),
{
    let ghost all = pairs_bound(text::text_pairs(pairs@));
    let mut params: Vec<(String, VarBinding)> = Vec::new();
    let mut i: usize = 0;
    assert(de::params_view(params@) =~= all.take(0));
    while i < pairs.len()
        invariant
            i <= pairs@.len(),
            all == pairs_bound(text::text_pairs(pairs@)),
            de::params_view(params@) == all.take(i as int),
        decreases pairs@.len() - i,
    {
        let ghost before = de::params_view(params@);
        params.push((pairs[i].0.clone(), VarBinding::Scalar(pairs[i].1.clone())));
        assert(de::params_view(params@) =~= before.push(all[i as int]));
        assert(all.take(i + 1) =~= before.push(all[i as int]));
        i = i + 1;
    }
    assert(all.take(i as int) =~= all);
    params
}

impl UriDeserializer {
    /// The parameters.
    pub open spec fn params(self) -> Seq<(Seq<char>, SpecOfBinding)> {
        de::params_view(self.varlist@)
    }

    /// The text of the only parameter, which is to be read as the type `expected`.
    pub fn single_value(&self, expected: &'static str) -> (result: Result<
        String,
        UriDeserializationError,
    >)
        ensures
            de::is_text(result, single_text(self.params(), expected@)),
    {
        if self.varlist.len() == 1 {
            match &self.varlist[0].1 {
                VarBinding::Scalar(scalar) => Ok(scalar.clone()),
                VarBinding::PathExplode(_, joined) => Ok(de::plain(joined)),
                VarBinding::QueryExplode(_) | VarBinding::Assoc(_, _) => Err(
                    UriDeserializationError::mismatched_value(expected),
                ),
                VarBinding::Empty => Err(
                    UriDeserializationError::new(
                        ErrorKind::ParseError {
                            value: "<empty>".to_owned(),
                            expected_type: expected,
                        },
                    ),
                ),
            }
        } else {
            Err(UriDeserializationError::cant_fill_parameters(&self.varlist, 1))
        }
    }

    /// The only parameter as a value of a primitive type.
    pub fn deserialize_value<T: Primitive>(&self) -> (result: Result<T, UriDeserializationError>)
        ensures
            match single_text(self.params(), T::name()) {
                Ok(written) => is_value(
                    result,
                    written,
                    (SpecOfKind::ParseError { value: written, expected_type: T::name() }),
                ),
                Err(kind) => result is Err && result->Err_0.kind@ == kind,
            },
    {
        let written = match self.single_value(T::expected_type()) {
            Ok(written) => written,
            Err(error) => {
                return Err(error);
            },
        };
        match T::parse_value(&written) {
            Some(value) => Ok(value),
            None => Err(
                UriDeserializationError::new(
                    ErrorKind::ParseError { value: written, expected_type: T::expected_type() },
                ),
            ),
        }
    }

    /// The only parameter as a text of its own.
    pub fn deserialize_string(&self) -> (result: Result<String, UriDeserializationError>)
        ensures
            de::is_text(result, single_text(self.params(), "String"@)),
    {
        self.single_value("String")
    }

    /// The only parameter as a text.
    pub fn deserialize_str(&self) -> (result: Result<String, UriDeserializationError>)
        ensures
            de::is_text(
                result,
                if self.params().len() == 1 {
                    de::binding_text(self.params()[0].1, "str"@)
                } else {
                    Err(
                        SpecOfKind::CantFillParameters {
                            names: de::param_names(self.params()),
                            expected: 1,
                        },
                    )
                },
            ),
    {
        if self.varlist.len() == 1 {
            self.varlist[0].1.to_str("str")
        } else {
            Err(UriDeserializationError::cant_fill_parameters(&self.varlist, 1))
        }
    }

    /// The parameters as a sequence.
    pub fn deserialize_seq(self) -> (seq: SeqDeserializer)
        ensures
            seq.idx == 0,
            seq.left() == sequence_of(self.params()),
    {
        if self.varlist.len() == 1 {
            match &self.varlist[0].1 {
                VarBinding::PathExplode(sep, s) => {
                    return SeqDeserializer::of(
                        named_params(&self.varlist[0].0, &de::items_of(*sep, s)),
                    );
                },
                VarBinding::QueryExplode(l) => {
                    return SeqDeserializer::of(named_params(&self.varlist[0].0, l));
                },
                _ => {},
            }
        }
        SeqDeserializer::of(self.varlist)
    }

    /// The parameters as a tuple of `len` values, if they are as many.
    pub fn deserialize_tuple(self, len: usize) -> (result: Result<
        SeqDeserializer,
        UriDeserializationError,
    >)
        ensures
            match result {
                Ok(seq) => {
                    &&& tuple_error(self.params(), len as int) is None
                    &&& seq.idx == 0
                    &&& seq.left() == sequence_of(self.params())
                },
                Err(error) => tuple_error(self.params(), len as int) == Some(error.kind@),
            },
    {
        if self.varlist.len() == 1 {
            match &self.varlist[0].1 {
                VarBinding::PathExplode(_, _) => {
                    return Ok(self.deserialize_seq());
                },
                VarBinding::QueryExplode(l) => {
                    if l.len() < len {
                        return Err(
                            UriDeserializationError::wrong_number_of_parameters(l.len(), len),
                        );
                    }
                    return Ok(self.deserialize_seq());
                },
                _ => {},
            }
        }
        if self.varlist.len() < len {
            return Err(UriDeserializationError::cant_fill_parameters(&self.varlist, len));
        }
        Ok(SeqDeserializer::of(self.varlist))
    }

    /// The parameters as a map.
    pub fn deserialize_map(self) -> (map: MapDeserializer)
        ensures
            map.idx == 0,
            map.left() == self.params(),
            map.key is None,
            map.value is None,
    {
        MapDeserializer::of(self.varlist)
    }

    /// The only parameter as the name of a variant.
    pub fn deserialize_enum(&self) -> (result: Result<EnumDeserializer, UriDeserializationError>)
        ensures
            match result {
                Ok(de) => variant_of(self.params()) == Ok::<Seq<char>, SpecOfKind>(de.value@),
                Err(error) => variant_of(self.params()) == Err::<Seq<char>, SpecOfKind>(
                    error.kind@,
                ),
            },
    {
        if self.varlist.len() == 1 {
            match &self.varlist[0].1 {
                VarBinding::Scalar(value) => Ok(EnumDeserializer { value: value.clone() }),
                val => match val.to_str("enum") {
                    Ok(value) => {
                        let mut message = "invalid value: string ".to_owned();
                        message.append(&debug_string(&value));
                        message.append(", expected an enum variant");
                        Err(UriDeserializationError::custom(message))
                    },
                    Err(error) => Err(error),
                },
            }
        } else {
            Err(UriDeserializationError::cant_fill_parameters(&self.varlist, 1))
        }
    }
}

/// Why a text could not be read where it stands.
pub open spec fn failure_at(
    key: Option<SpecOfKey>,
    value: Seq<char>,
    expected: Seq<char>,
) -> SpecOfKind {
    match key {
        Some(SpecOfKey::Key(key)) => SpecOfKind::ParseErrorAtKey {
            key,
            value,
            expected_type: expected,
        },
        Some(SpecOfKey::Idx(index, _)) => SpecOfKind::ParseErrorAtIndex {
            index,
            value,
            expected_type: expected,
        },
        None => SpecOfKind::ParseError { value, expected_type: expected },
    }
}

/// The values inside a value, where it can have some: none where it is empty.
///
/// A single value under a key holds those between its commas.
pub open spec fn inner_sequence(
    key: Option<SpecOfKey>,
    value: SpecOfBinding,
    wanted: Seq<char>,
) -> Result<Option<Seq<(Seq<char>, SpecOfBinding)>>, SpecOfKind> {
    match value {
        SpecOfBinding::Scalar(scalar) => match key {
            Some(SpecOfKey::Key(_)) => Ok(Some(items_numbered(text::split(scalar, ',')))),
            _ => Err(SpecOfKind::UnsupportedType { name: wanted }),
        },
        SpecOfBinding::PathExplode(sep, joined) => Ok(
            Some(items_numbered(de::path_items(sep, joined))),
        ),
        SpecOfBinding::QueryExplode(items) => Ok(Some(items_numbered(items))),
        SpecOfBinding::Assoc(_, items) => Ok(Some(pairs_bound(items))),
        SpecOfBinding::Empty => Ok(None),
    }
}

/// The entries inside a value, where it can have some: none where it is empty.
pub open spec fn inner_map(value: SpecOfBinding) -> Result<
    Option<Seq<(Seq<char>, SpecOfBinding)>>,
    SpecOfKind,
> {
    match value {
        SpecOfBinding::Assoc(_, items) => Ok(Some(pairs_bound(items))),
        SpecOfBinding::PathExplode(sep, joined) => Ok(
            Some(pairs_bound(form::pairs(sep as u8, vstd::utf8::encode_utf8(joined)))),
        ),
        SpecOfBinding::Empty => Ok(None),
        _ => Err(SpecOfKind::MismatchedValue { expected_type: "non-map value"@ }),
    }
}

impl ValueDeserializer {
    /// Why the text of the value could not be read as the type `expected`.
    pub fn parse_failure(&self, value: String, expected: &'static str) -> (error:
        UriDeserializationError)
        ensures
            error.kind@ == failure_at(key_view(self.key), value@, expected@),
    {
        let kind = match &self.key {
            Some(KeyOrIdx::Key(key)) => ErrorKind::ParseErrorAtKey {
                key: key.clone(),
                value,
                expected_type: expected,
            },
            Some(KeyOrIdx::Idx { idx, key: _ }) => ErrorKind::ParseErrorAtIndex {
                index: *idx,
                value,
                expected_type: expected,
            },
            None => ErrorKind::ParseError { value, expected_type: expected },
        };
        UriDeserializationError::new(kind)
    }

    /// The value as one of a primitive type.
    pub fn deserialize_value<T: Primitive>(&self) -> (result: Result<T, UriDeserializationError>)
        ensures
            match de::binding_text(self.value@, T::name()) {
                Ok(written) => is_value(
                    result,
                    written,
                    failure_at(key_view(self.key), written, T::name()),
                ),
                Err(kind) => result is Err && result->Err_0.kind@ == kind,
            },
    {
        let written = match self.value.to_str(T::expected_type()) {
            Ok(written) => written,
            Err(error) => {
                return Err(error);
            },
        };
        match T::parse_value(&written) {
            Some(value) => Ok(value),
            None => Err(self.parse_failure(written, T::expected_type())),
        }
    }

    /// The text of the value, which is to be read as the type `expected`.
    pub fn text_value(&self, expected: &'static str) -> (result: Result<
        String,
        UriDeserializationError,
    >)
        ensures
            de::is_text(result, de::binding_text(self.value@, expected@)),
    {
        self.value.to_str(expected)
    }

    /// The value as a text.
    pub fn deserialize_str(&self) -> (result: Result<String, UriDeserializationError>)
        ensures
            de::is_text(result, de::binding_text(self.value@, "String"@)),
    {
        self.text_value("String")
    }

    /// The value as a pair of its name and itself, where it stands at an index. Another value, or a
    /// tuple of another length, is none.
    pub fn deserialize_tuple(self, len: usize, wanted: &'static str) -> (result: Result<
        PairDeserializer,
        UriDeserializationError,
    >)
        ensures
            match key_view(self.key) {
                Some(SpecOfKey::Idx(_, name)) if len == 2 => {
                    &&& result is Ok
                    &&& text::text_of_option(result->Ok_0.key) == Some(name)
                    &&& result->Ok_0.value == Some(self.value)
                },
                _ => result is Err && result->Err_0.kind@ == (SpecOfKind::UnsupportedType {
                    name: wanted@,
                }),
            },
    {
        match self.key {
            Some(KeyOrIdx::Idx { idx: _, key }) => {
                if len == 2 {
                    Ok(PairDeserializer { key: Some(key), value: Some(self.value) })
                } else {
                    Err(UriDeserializationError::unsupported_type(wanted))
                }
            },
            _ => Err(UriDeserializationError::unsupported_type(wanted)),
        }
    }

    /// The value as a map.
    pub fn deserialize_map(self) -> (result: Result<
        Option<MapDeserializer>,
        UriDeserializationError,
    >)
        ensures
            match result {
                Ok(Some(map)) => {
                    &&& map.idx == 0
                    &&& map.key is None
                    &&& map.value is None
                    &&& inner_map(self.value@) == Ok::<
                        Option<Seq<(Seq<char>, SpecOfBinding)>>,
                        SpecOfKind,
                    >(Some(map.left()))
                },
                Ok(None) => inner_map(self.value@) == Ok::<
                    Option<Seq<(Seq<char>, SpecOfBinding)>>,
                    SpecOfKind,
                >(None),
                Err(error) => inner_map(self.value@) == Err::<
                    Option<Seq<(Seq<char>, SpecOfBinding)>>,
                    SpecOfKind,
                >(error.kind@),
            },
    {
        match &self.value {
            VarBinding::Assoc(_, items) => Ok(Some(MapDeserializer::of(pair_params(items)))),
            VarBinding::PathExplode(sep, joined) => {
                let items = form::parse(*sep as u8, joined.as_str().as_bytes()).into_pairs();
                Ok(Some(MapDeserializer::of(pair_params(&items))))
            },
            VarBinding::Empty => Ok(None),
            VarBinding::Scalar(_) | VarBinding::QueryExplode(_) => Err(
                UriDeserializationError::mismatched_value("non-map value"),
            ),
        }
    }

    /// The value as a sequence, which is to be of the type `wanted`.
    pub fn deserialize_seq(self, wanted: &'static str) -> (result: Result<
        Option<SeqDeserializer>,
        UriDeserializationError,
    >)
        ensures
            match result {
                Ok(Some(seq)) => {
                    &&& seq.idx == 0
                    &&& inner_sequence(key_view(self.key), self.value@, wanted@) == Ok::<
                        Option<Seq<(Seq<char>, SpecOfBinding)>>,
                        SpecOfKind,
                    >(Some(seq.left()))
                },
                Ok(None) => inner_sequence(key_view(self.key), self.value@, wanted@) == Ok::<
                    Option<Seq<(Seq<char>, SpecOfBinding)>>,
                    SpecOfKind,
                >(None),
                Err(error) => inner_sequence(key_view(self.key), self.value@, wanted@) == Err::<
                    Option<Seq<(Seq<char>, SpecOfBinding)>>,
                    SpecOfKind,
                >(error.kind@),
            },
    {
        match &self.value {
            VarBinding::Scalar(scalar) => match &self.key {
                Some(KeyOrIdx::Key(_)) => Ok(
                    Some(SeqDeserializer::of(numbered_params(&split_text(scalar, ',')))),
                ),
                _ => Err(UriDeserializationError::unsupported_type(wanted)),
            },
            VarBinding::PathExplode(sep, joined) => Ok(
                Some(SeqDeserializer::of(numbered_params(&de::items_of(*sep, joined)))),
            ),
            VarBinding::QueryExplode(items) => Ok(
                Some(SeqDeserializer::of(numbered_params(items))),
            ),
            VarBinding::Assoc(_, items) => Ok(Some(SeqDeserializer::of(pair_params(items)))),
            VarBinding::Empty => Ok(None),
        }
    }

    /// The value as the name of a variant.
    pub fn deserialize_enum(&self) -> (result: Result<EnumDeserializer, UriDeserializationError>)
        ensures
            match result {
                Ok(de) => de::binding_text(self.value@, "enum"@) == Ok::<Seq<char>, SpecOfKind>(
                    de.value@,
                ),
                Err(error) => de::binding_text(self.value@, "enum"@) == Err::<
                    Seq<char>,
                    SpecOfKind,
                >(error.kind@),
            },
    {
        match self.value.to_str("enum") {
            Ok(value) => Ok(EnumDeserializer { value }),
            Err(error) => Err(error),
        }
    }
}

impl PairDeserializer {
    /// The next element: the name, if it has not been read, and then the value.
    pub fn next_element(&mut self) -> (element: Option<PairElement>)
        ensures
            final(self).key is None,
            match element {
                Some(PairElement::Key(key)) => {
                    &&& old(self).key == Some(key.key)
                    &&& final(self).value == old(self).value
                },
                Some(PairElement::Value(value)) => {
                    &&& old(self).key is None
                    &&& old(self).value == Some(value.value)
                    &&& value.key is None
                    &&& final(self).value is None
                },
                None => {
                    &&& old(self).key is None
                    &&& old(self).value is None
                    &&& final(self).value is None
                },
            },
    {
        match self.key.take() {
            Some(key) => Some(PairElement::Key(KeyDeserializer { key })),
            None => match self.value.take() {
                Some(value) => Some(PairElement::Value(ValueDeserializer { key: None, value })),
                None => None,
            },
        }
    }
}

impl EnumDeserializer {
    /// The name of the variant, which holds nothing.
    pub fn variant(self) -> (variant: (KeyDeserializer, UnitVariant))
        ensures
            variant.0.key == self.value,
    {
        (KeyDeserializer { key: self.value }, UnitVariant)
    }
}

impl UnitVariant {
    /// A variant of this kind holds no value.
    pub fn newtype_variant(self) -> (error: UriDeserializationError)
        ensures
            error.kind@ == (SpecOfKind::UnsupportedType { name: "newtype enum variant"@ }),
    {
        UriDeserializationError::unsupported_type("newtype enum variant")
    }

    /// A variant of this kind holds no tuple.
    pub fn tuple_variant(self) -> (error: UriDeserializationError)
        ensures
            error.kind@ == (SpecOfKind::UnsupportedType { name: "tuple enum variant"@ }),
    {
        UriDeserializationError::unsupported_type("tuple enum variant")
    }

    /// A variant of this kind holds no fields.
    pub fn struct_variant(self) -> (error: UriDeserializationError)
        ensures
            error.kind@ == (SpecOfKind::UnsupportedType { name: "struct enum variant"@ }),
    {
        UriDeserializationError::unsupported_type("struct enum variant")
    }
}

} // verus!
