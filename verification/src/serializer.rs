//! From values to the bindings of a template's variables.
use crate::dict::Dict;
use crate::parser;
use crate::parser::{all_vars, distinct_names, Parsed, SpecOfParsed};
use crate::ser;
use crate::ser::{mapexprs, Error, SpecOfBinding, SpecOfError, VarBinding};
use crate::text;
use crate::text::{bool_text, char_text, decimal_text, signed_text};
use crate::value;
use crate::value::Value;
use crate::FillPolicy;
use vstd::prelude::*;

verus! {

broadcast use crate::text::texts_push;

/// What `core::str::from_utf8` says of bytes that are no UTF-8: up to where they are, and how many
/// of those that follow are not.
pub uninterp spec fn utf8_error(bytes: Seq<u8>) -> core::str::Utf8Error;

/// `core::str::from_utf8`: the text that the bytes encode, if they are UTF-8, and else an error,
/// which has a name.
pub assume_specification[ core::str::from_utf8 ](v: &[u8]) -> (decoded: Result<
    &str,
    core::str::Utf8Error,
>)
    ensures
        match decoded {
            Ok(s) => vstd::utf8::valid_utf8(v@) && s@ == vstd::utf8::decode_utf8(v@),
            Err(error) => !vstd::utf8::valid_utf8(v@) && error == utf8_error(v@),
        },
;

/// The text of a value that has one, or why it should have one and does not.
pub open spec fn scalar_text(value: Value) -> Option<Result<Seq<char>, SpecOfError>> {
    match value {
        Value::Bool(b) => Some(
            Ok(
                if b {
                    "true"@
                } else {
                    "false"@
                },
            ),
        ),
        Value::I64(n) => Some(Ok(text::signed(n as int))),
        Value::U64(n) => Some(Ok(text::decimal(n as nat))),
        Value::Char(c) => Some(Ok(seq![c])),
        Value::Str(s) => Some(Ok(s@)),
        Value::Bytes(bytes) => Some(
            if vstd::utf8::valid_utf8(bytes@) {
                Ok(vstd::utf8::decode_utf8(bytes@))
            } else {
                Err(SpecOfError::NotUTF8(utf8_error(bytes@)))
            },
        ),
        _ => None,
    }
}

/// The name of a value that says that there is none.
pub open spec fn nothing_name(value: Value) -> Option<Seq<char>> {
    match value {
        Value::Null => Some("none"@),
        Value::Unit => Some("unit"@),
        Value::UnitStruct => Some("unit struct"@),
        Value::UnitVariant => Some("unit variant"@),
        _ => None,
    }
}

/// The name of a value that holds several values.
pub open spec fn complex_name(value: Value) -> Option<Seq<char>> {
    match value {
        Value::Items(kind, _, _) => Some(kind.spec_name()),
        Value::Entries(kind, _, _) => Some(kind.spec_name()),
        _ => None,
    }
}

/// The text of a value that is a key.
pub open spec fn key_text(value: Value) -> Result<Seq<char>, SpecOfError> {
    let inner = value::unwrapped(value);
    match scalar_text(inner) {
        Some(text) => text,
        None => match nothing_name(inner) {
            Some(name) => Err(SpecOfError::InvalidKeyType(name)),
            None => Err(SpecOfError::InvalidComplexType(complex_name(inner)->0)),
        },
    }
}

/// The text of a value inside a list or a map, where it has one.
pub open spec fn item_text(value: Value) -> Result<Option<Seq<char>>, SpecOfError> {
    let inner = value::unwrapped(value);
    match scalar_text(inner) {
        Some(Ok(text)) => Ok(Some(text)),
        Some(Err(error)) => Err(error),
        None => match nothing_name(inner) {
            Some(_) => Ok(None),
            None => Err(SpecOfError::InvalidComplexType(complex_name(inner)->0)),
        },
    }
}

/// The texts of the values that have one.
pub open spec fn listed(items: Seq<Value>) -> Result<Seq<Seq<char>>, SpecOfError>
    decreases items.len(),
{
    if items.len() == 0 {
        Ok(Seq::empty())
    } else {
        match listed(items.drop_last()) {
            Err(error) => Err(error),
            Ok(before) => list_step(before, items.last()),
        }
    }
}

/// A list that grows by the text of a value, if that has one.
pub open spec fn list_step(before: Seq<Seq<char>>, item: Value) -> Result<
    Seq<Seq<char>>,
    SpecOfError,
> {
    match item_text(item) {
        Err(error) => Err(error),
        Ok(None) => Ok(before),
        Ok(Some(text)) => Ok(before.push(text)),
    }
}

/// The texts of the keys and of their values.
pub open spec fn paired(entries: Seq<(Value, Value)>) -> Result<
    Seq<(Seq<char>, Option<Seq<char>>)>,
    SpecOfError,
>
    decreases entries.len(),
{
    if entries.len() == 0 {
        Ok(Seq::empty())
    } else {
        match paired(entries.drop_last()) {
            Err(error) => Err(error),
            Ok(before) => match key_text(entries.last().0) {
                Err(error) => Err(error),
                Ok(key) => pair_step(before, key, entries.last().1),
            },
        }
    }
}

/// Pairs that grow by a key and the text of its value.
pub open spec fn pair_step(
    before: Seq<(Seq<char>, Option<Seq<char>>)>,
    key: Seq<char>,
    value: Value,
) -> Result<Seq<(Seq<char>, Option<Seq<char>>)>, SpecOfError> {
    match item_text(value) {
        Err(error) => Err(error),
        Ok(text) => Ok(before.push((key, text))),
    }
}

/// The binding that a value gives to a variable.
pub open spec fn binding_of(value: Value) -> Result<SpecOfBinding, SpecOfError> {
    let inner = value::unwrapped(value);
    match inner {
        Value::Items(_, _, items) => match listed(items@) {
            Ok(texts) => Ok(SpecOfBinding::List(texts)),
            Err(error) => Err(error),
        },
        Value::Entries(_, _, entries) => match paired(entries@) {
            Ok(pairs) => Ok(SpecOfBinding::Pairs(pairs)),
            Err(error) => Err(error),
        },
        _ => match scalar_text(inner) {
            Some(Ok(text)) => Ok(SpecOfBinding::Scalar(text)),
            Some(Err(error)) => Err(error),
            None => Ok(SpecOfBinding::Omitted),
        },
    }
}

/// The bindings before any value is given: every variable has none.
pub open spec fn unbound(names: Seq<Seq<char>>) -> Map<Seq<char>, SpecOfBinding> {
    Map::new(|name: Seq<char>| names.contains(name), |name: Seq<char>| SpecOfBinding::Absent)
}

/// Why as many values as announced cannot fill as many variables as there are.
pub open spec fn count_error(policy: FillPolicy, len: Option<usize>, count: nat) -> Option<
    SpecOfError,
> {
    match len {
        None => None,
        Some(len) => if refuses_missing(policy) && len < count {
            Some(SpecOfError::MissingPositionalFields(len as int, count as int))
        } else if refuses_extra(policy) && len > count {
            Some(SpecOfError::ExtraPositionalFields(len as int, count as int))
        } else {
            None
        },
    }
}

/// Whether variables that get no value are an error.
pub open spec fn refuses_missing(policy: FillPolicy) -> bool {
    policy == FillPolicy::NoMissing || policy == FillPolicy::Strict
}

/// Whether values that no variable takes are an error.
pub open spec fn refuses_extra(policy: FillPolicy) -> bool {
    policy == FillPolicy::NoExtra || policy == FillPolicy::Strict
}

/// The bindings once the values have been given, each to the first of the variables in `pos` that
/// have none.
pub open spec fn bound_by_position(
    policy: FillPolicy,
    pos: Seq<Seq<char>>,
    vals: Map<Seq<char>, SpecOfBinding>,
    items: Seq<Value>,
) -> Result<Map<Seq<char>, SpecOfBinding>, SpecOfError>
    decreases items.len(),
{
    if items.len() == 0 {
        Ok(vals)
    } else if pos.len() == 0 {
        if refuses_extra(policy) {
            Err(SpecOfError::OverrunPositionalField)
        } else {
            Ok(vals)
        }
    } else {
        match binding_of(items[0]) {
            Err(error) => Err(error),
            Ok(binding) => bound_by_position(
                policy,
                pos.skip(1),
                vals.insert(pos[0], binding),
                items.skip(1),
            ),
        }
    }
}

/// The bindings once `name` has been given a value.
pub open spec fn bind_name(
    policy: FillPolicy,
    vals: Map<Seq<char>, SpecOfBinding>,
    name: Seq<char>,
    value: Value,
) -> Result<Map<Seq<char>, SpecOfBinding>, SpecOfError> {
    if vals.dom().contains(name) {
        match binding_of(value) {
            Err(error) => Err(error),
            Ok(binding) => Ok(vals.insert(name, binding)),
        }
    } else if refuses_extra(policy) {
        Err(SpecOfError::ExtraNamedField(name))
    } else {
        Ok(vals)
    }
}

/// The bindings once the entries have been given, in order.
pub open spec fn bound_by_name(
    policy: FillPolicy,
    vals: Map<Seq<char>, SpecOfBinding>,
    entries: Seq<(Value, Value)>,
) -> Result<Map<Seq<char>, SpecOfBinding>, SpecOfError>
    decreases entries.len(),
{
    if entries.len() == 0 {
        Ok(vals)
    } else {
        match key_text(entries[0].0) {
            Err(error) => Err(error),
            Ok(name) => match bind_name(policy, vals, name, entries[0].1) {
                Err(error) => Err(error),
                Ok(vals) => bound_by_name(policy, vals, entries.skip(1)),
            },
        }
    }
}

/// The names of a template's variables, each where it stands first.
pub open spec fn template_names(template: SpecOfParsed) -> Seq<Seq<char>> {
    parser::distinct(parser::names(parser::vars_of(template.parts())))
}

/// The text of a template once the bindings are known.
pub open spec fn finished(
    template: SpecOfParsed,
    policy: FillPolicy,
    bound: Result<Map<Seq<char>, SpecOfBinding>, SpecOfError>,
) -> Result<Seq<char>, SpecOfError> {
    match bound {
        Err(error) => Err(error),
        Ok(vals) => ser::parts_expansion(template.parts(), policy, vals),
    }
}

/// The text of a template filled with values in order.
pub open spec fn filled_by_position(
    template: SpecOfParsed,
    policy: FillPolicy,
    len: Option<usize>,
    items: Seq<Value>,
) -> Result<Seq<char>, SpecOfError> {
    let names = template_names(template);
    match count_error(policy, len, names.len()) {
        Some(error) => Err(error),
        None => finished(
            template,
            policy,
            bound_by_position(policy, names, unbound(names), items),
        ),
    }
}

/// The text of a template filled with values by their names.
pub open spec fn filled_by_name(
    template: SpecOfParsed,
    policy: FillPolicy,
    len: Option<usize>,
    entries: Seq<(Value, Value)>,
) -> Result<Seq<char>, SpecOfError> {
    let names = template_names(template);
    match count_error(policy, len, names.len()) {
        Some(error) => Err(error),
        None => finished(template, policy, bound_by_name(policy, unbound(names), entries)),
    }
}

/// The text of a template filled with a value.
///
/// Entries are taken by their names and items by their positions. Another value stands alone in
/// its position, unless it says that there is none.
pub open spec fn filled(template: SpecOfParsed, policy: FillPolicy, context: Value) -> Result<
    Seq<char>,
    SpecOfError,
> {
    match context {
        Value::Entries(_, len, entries) => filled_by_name(template, policy, len, entries@),
        Value::Items(_, len, items) => filled_by_position(template, policy, len, items@),
        Value::Wrapped(inner) => filled_by_position(template, policy, Some(1), seq![*inner]),
        _ => if nothing_name(context) is Some {
            filled_by_position(template, policy, Some(0), Seq::empty())
        } else {
            filled_by_position(template, policy, Some(1), seq![context])
        },
    }
}

/// The value inside all that wraps it.
pub fn unwrap_value(value: &Value) -> (inner: &Value)
    ensures
        *inner == value::unwrapped(*value),
        *inner !is Wrapped,
    decreases value,
{
    match value {
        Value::Wrapped(inner) => unwrap_value(inner),
        _ => value,
    }
}

fn scalar(value: &Value) -> (text: Option<Result<String, Error>>)
    ensures
        match text {
            Some(Ok(s)) => scalar_text(*value) == Some(Ok::<Seq<char>, SpecOfError>(s@)),
            Some(Err(e)) => scalar_text(*value) == Some(Err::<Seq<char>, SpecOfError>(e@)),
            None => scalar_text(*value) is None,
        },
{
    match value {
        Value::Bool(b) => Some(Ok(bool_text(*b))),
        Value::I64(n) => Some(Ok(signed_text(*n))),
        Value::U64(n) => Some(Ok(decimal_text(*n))),
        Value::Char(c) => Some(Ok(char_text(*c))),
        Value::Str(s) => Some(Ok(s.clone())),
        Value::Bytes(bytes) => match core::str::from_utf8(bytes.as_slice()) {
            Ok(s) => Some(Ok(s.to_owned())),
            Err(error) => Some(Err(Error::NotUTF8(error))),
        },
        _ => None,
    }
}

/// Turns values into keys.
#[derive(Debug)]
pub struct KeySerializer {}

impl KeySerializer {
    /// The text of a value that is a key.
    pub fn serialize(value: &Value) -> (text: Result<String, Error>)
        ensures
            ser::is_text_result(text, key_text(*value)),
    {
        let inner = unwrap_value(value);
        match scalar(inner) {
            Some(text) => text,
            None => match inner {
                Value::Null => Err(Error::InvalidKeyType("none".to_owned())),
                Value::Unit => Err(Error::InvalidKeyType("unit".to_owned())),
                Value::UnitStruct => Err(Error::InvalidKeyType("unit struct".to_owned())),
                Value::UnitVariant => Err(Error::InvalidKeyType("unit variant".to_owned())),
                Value::Items(kind, _, _) => Err(Error::InvalidComplexType(kind.name())),
                Value::Entries(kind, _, _) => Err(Error::InvalidComplexType(kind.name())),
                _ => Err(Error::SerializationStateError),
            },
        }
    }
}

/// Turns values into the items of a list or a map.
#[derive(Debug)]
pub struct ValueSerializer {}

impl ValueSerializer {
    /// The text of a value inside a list or a map, where it has one.
    pub fn serialize(value: &Value) -> (text: Result<Option<String>, Error>)
        ensures
            match text {
                Ok(s) => item_text(*value) == Ok::<Option<Seq<char>>, SpecOfError>(
                    text::text_of_option(s),
                ),
                Err(e) => item_text(*value) == Err::<Option<Seq<char>>, SpecOfError>(e@),
            },
    {
        let inner = unwrap_value(value);
        match scalar(inner) {
            Some(Ok(text)) => Ok(Some(text)),
            Some(Err(error)) => Err(error),
            None => match inner {
                Value::Items(kind, _, _) => Err(Error::InvalidComplexType(kind.name())),
                Value::Entries(kind, _, _) => Err(Error::InvalidComplexType(kind.name())),
                _ => Ok(None),
            },
        }
    }
}

/// Gathers the items of a list.
#[derive(Debug)]
pub struct ListSerializer {
    pub output: Vec<String>,
}

impl ListSerializer {
    /// A list without items.
    pub fn new() -> (list: Self)
        ensures
            text::texts(list.output@) == Seq::<Seq<char>>::empty(),
    {
        let list = ListSerializer { output: Vec::new() };
        assert(text::texts(list.output@) =~= Seq::<Seq<char>>::empty());
        list
    }

    /// Adds a value, if it has a text.
    pub fn serialize_element(&mut self, value: &Value) -> (done: Result<(), Error>)
        ensures
            match done {
                Ok(_) => list_step(text::texts(old(self).output@), *value) == Ok::<
                    Seq<Seq<char>>,
                    SpecOfError,
                >(text::texts(final(self).output@)),
                Err(e) => {
                    &&& list_step(text::texts(old(self).output@), *value) == Err::<
                        Seq<Seq<char>>,
                        SpecOfError,
                    >(e@)
                    &&& final(self).output@ == old(self).output@
                },
            },
    {
        match ValueSerializer::serialize(value) {
            Ok(Some(text)) => {
                self.output.push(text);
                Ok(())
            },
            Ok(None) => Ok(()),
            Err(error) => Err(error),
        }
    }

    /// The binding of a variable to the list.
    pub fn end(self) -> (binding: VarBinding)
        ensures
            binding@ == SpecOfBinding::List(text::texts(self.output@)),
    {
        VarBinding::List(self.output)
    }
}

/// Gathers the pairs of a map.
#[derive(Debug)]
pub struct AssocSerializer {
    pub key: Option<String>,
    pub output: Vec<(String, Option<String>)>,
}

impl AssocSerializer {
    /// A map without pairs.
    pub fn new() -> (assoc: Self)
        ensures
            assoc.key is None,
            ser::pairs_view(assoc.output@) == Seq::<(Seq<char>, Option<Seq<char>>)>::empty(),
    {
        let assoc = AssocSerializer { key: None, output: Vec::new() };
        assert(ser::pairs_view(assoc.output@) =~= Seq::empty());
        assoc
    }

    /// Adds a pair.
    pub fn insert_value(&mut self, name: String, value: &Value) -> (done: Result<(), Error>)
        ensures
            final(self).key == old(self).key,
            match done {
                Ok(_) => pair_step(ser::pairs_view(old(self).output@), name@, *value) == Ok::<
                    Seq<(Seq<char>, Option<Seq<char>>)>,
                    SpecOfError,
                >(ser::pairs_view(final(self).output@)),
                Err(e) => {
                    &&& pair_step(ser::pairs_view(old(self).output@), name@, *value) == Err::<
                        Seq<(Seq<char>, Option<Seq<char>>)>,
                        SpecOfError,
                    >(e@)
                    &&& final(self).output@ == old(self).output@
                },
            },
    {
        let ghost before = ser::pairs_view(self.output@);
        match ValueSerializer::serialize(value) {
            Ok(text) => {
                let ghost pair = (name@, text::text_of_option(text));
                self.output.push((name, text));
                assert(ser::pairs_view(self.output@) =~= before.push(pair));
                Ok(())
            },
            Err(error) => Err(error),
        }
    }

    /// Keeps a key for the value that follows.
    pub fn serialize_key(&mut self, key: &Value) -> (done: Result<(), Error>)
        ensures
            final(self).output@ == old(self).output@,
            match done {
                Ok(_) => final(self).key is Some && key_text(*key) == Ok::<Seq<char>, SpecOfError>(
                    final(self).key->0@,
                ),
                Err(e) => final(self).key == old(self).key && key_text(*key) == Err::<
                    Seq<char>,
                    SpecOfError,
                >(e@),
            },
    {
        match KeySerializer::serialize(key) {
            Ok(name) => {
                self.key = Some(name);
                Ok(())
            },
            Err(error) => Err(error),
        }
    }

    /// Adds a pair of the key that is kept and a value.
    pub fn serialize_value(&mut self, value: &Value) -> (done: Result<(), Error>)
        ensures
            final(self).key is None,
            match done {
                Ok(_) => old(self).key is Some && pair_step(
                    ser::pairs_view(old(self).output@),
                    old(self).key->0@,
                    *value,
                ) == Ok::<Seq<(Seq<char>, Option<Seq<char>>)>, SpecOfError>(
                    ser::pairs_view(final(self).output@),
                ),
                Err(e) => {
                    &&& final(self).output@ == old(self).output@
                    &&& match old(self).key {
                        None => e@ == SpecOfError::SerializationStateError,
                        Some(name) => pair_step(
                            ser::pairs_view(old(self).output@),
                            name@,
                            *value,
                        ) == Err::<Seq<(Seq<char>, Option<Seq<char>>)>, SpecOfError>(e@),
                    }
                },
            },
    {
        match self.key.take() {
            Some(name) => self.insert_value(name, value),
            None => Err(Error::SerializationStateError),
        }
    }

    /// The binding of a variable to the map.
    pub fn end(self) -> (binding: VarBinding)
        ensures
            binding@ == SpecOfBinding::Pairs(ser::pairs_view(self.output@)),
    {
        VarBinding::Pairs(self.output)
    }
}

proof fn lemma_listed_failure(items: Seq<Value>, i: int)
    requires
        0 <= i < items.len(),
        listed(items.take(i)) is Ok,
        list_step(listed(items.take(i))->Ok_0, items[i]) is Err,
    ensures
        listed(items) == Err::<Seq<Seq<char>>, SpecOfError>(
            list_step(listed(items.take(i))->Ok_0, items[i])->Err_0,
        ),
    decreases items.len(),
{
    if i == items.len() - 1 {
        assert(items.drop_last() =~= items.take(i));
    } else {
        assert(items.drop_last().take(i) =~= items.take(i));
        lemma_listed_failure(items.drop_last(), i);
    }
}

proof fn lemma_paired_failure(entries: Seq<(Value, Value)>, i: int)
    requires
        0 <= i < entries.len(),
        paired(entries.take(i)) is Ok,
        paired(entries.take(i + 1)) is Err,
    ensures
        paired(entries) == paired(entries.take(i + 1)),
    decreases entries.len(),
{
    if i == entries.len() - 1 {
        assert(entries =~= entries.take(i + 1));
    } else {
        assert(entries.drop_last().take(i) =~= entries.take(i));
        assert(entries.drop_last().take(i + 1) =~= entries.take(i + 1));
        lemma_paired_failure(entries.drop_last(), i);
    }
}

/// Turns values into the bindings of variables.
#[derive(Debug)]
pub struct VariableSerializer {}

/// Whether a result holds the binding, or the error, that it should.
pub open spec fn is_binding_result(
    result: Result<VarBinding, Error>,
    expected: Result<SpecOfBinding, SpecOfError>,
) -> bool {
    match result {
        Ok(binding) => expected == Ok::<SpecOfBinding, SpecOfError>(binding@),
        Err(error) => expected == Err::<SpecOfBinding, SpecOfError>(error@),
    }
}

impl VariableSerializer {
    /// The binding that a value gives to a variable.
    pub fn serialize(value: &Value) -> (binding: Result<VarBinding, Error>)
        ensures
            is_binding_result(binding, binding_of(*value)),
    {
        let inner = unwrap_value(value);
        match inner {
            Value::Items(_, _, items) => {
                let mut list = ListSerializer::new();
                let mut i: usize = 0;
                assert(items@.take(0) =~= Seq::empty());
                while i < items.len()
                    invariant
                        i <= items@.len(),
                        listed(items@.take(i as int)) == Ok::<Seq<Seq<char>>, SpecOfError>(
                            text::texts(list.output@),
                        ),
                        binding_of(*value) == (match listed(items@) {
                            Ok(texts) => Ok(SpecOfBinding::List(texts)),
                            Err(error) => Err(error),
                        }),
                    decreases items@.len() - i,
                {
                    assert(items@.take(i + 1).drop_last() =~= items@.take(i as int));
                    match list.serialize_element(&items[i]) {
                        Ok(_) => {},
                        Err(error) => {
                            proof {
                                lemma_listed_failure(items@, i as int);
                            }
                            return Err(error);
                        },
                    }
                    i = i + 1;
                }
                assert(items@.take(i as int) =~= items@);
                Ok(list.end())
            },
            Value::Entries(_, _, entries) => {
                let mut assoc = AssocSerializer::new();
                let mut i: usize = 0;
                assert(entries@.take(0) =~= Seq::empty());
                while i < entries.len()
                    invariant
                        i <= entries@.len(),
                        paired(entries@.take(i as int)) == Ok::<
                            Seq<(Seq<char>, Option<Seq<char>>)>,
                            SpecOfError,
                        >(ser::pairs_view(assoc.output@)),
                        binding_of(*value) == (match paired(entries@) {
                            Ok(pairs) => Ok(SpecOfBinding::Pairs(pairs)),
                            Err(error) => Err(error),
                        }),
                    decreases entries@.len() - i,
                {
                    assert(entries@.take(i + 1).drop_last() =~= entries@.take(i as int));
                    match assoc.serialize_key(&entries[i].0) {
                        Ok(_) => {},
                        Err(error) => {
                            proof {
                                lemma_paired_failure(entries@, i as int);
                            }
                            return Err(error);
                        },
                    }
                    match assoc.serialize_value(&entries[i].1) {
                        Ok(_) => {},
                        Err(error) => {
                            proof {
                                lemma_paired_failure(entries@, i as int);
                            }
                            return Err(error);
                        },
                    }
                    i = i + 1;
                }
                assert(entries@.take(i as int) =~= entries@);
                Ok(assoc.end())
            },
            _ => match scalar(inner) {
                Some(Ok(text)) => Ok(VarBinding::Scalar(text)),
                Some(Err(error)) => Err(error),
                None => Ok(VarBinding::Omitted),
            },
        }
    }
}

fn absent_bindings(list: &Vec<String>) -> (vals: Dict<VarBinding>)
    ensures
        ser::bindings_view(vals@) == unbound(text::texts(list@)),
{
    let ghost all = text::texts(list@);
    let mut vals: Dict<VarBinding> = Dict::new();
    let mut i: usize = 0;
    assert(ser::bindings_view(vals@) =~= unbound(all.take(0)));
    while i < list.len()
        invariant
            i <= list@.len(),
            all == text::texts(list@),
            ser::bindings_view(vals@) == unbound(all.take(i as int)),
        decreases list@.len() - i,
    {
        let ghost before = all.take(i as int);
        let ghost after = all.take(i + 1);
        let ghost previous = vals@;
        vals.insert(list[i].clone(), VarBinding::Absent);
        proof {
            assert(ser::bindings_view(vals@) =~= unbound(before).insert(
                all[i as int],
                SpecOfBinding::Absent,
            )) by {
                assert(ser::bindings_view(previous) == unbound(before));
                assert(vals@ == previous.insert(all[i as int], VarBinding::Absent));
                assert(ser::bindings_view(vals@) =~= ser::bindings_view(previous).insert(
                    all[i as int],
                    SpecOfBinding::Absent,
                ));
            }
            assert(after =~= before.push(all[i as int]));
            assert forall|name: Seq<char>|
                after.contains(name) <==> before.contains(name) || name == all[i as int] by {
                assert(after[i as int] == all[i as int]);
                if before.contains(name) {
                    let j = choose|j: int| 0 <= j < before.len() && before[j] == name;
                    assert(after[j] == name);
                }
                if after.contains(name) {
                    let j = choose|j: int| 0 <= j < after.len() && after[j] == name;
                    if j < i {
                        assert(before[j] == name);
                    }
                }
            }
            assert(ser::bindings_view(vals@) =~= unbound(after));
        }
        i = i + 1;
    }
    assert(all.take(i as int) =~= all);
    vals
}

fn check_count(policy: FillPolicy, len: Option<usize>, count: usize) -> (done: Result<(), Error>)
    ensures
        match done {
            Ok(_) => count_error(policy, len, count as nat) is None,
            Err(error) => count_error(policy, len, count as nat) == Some(error@),
        },
{
    if let Some(l) = len {
        match policy {
            FillPolicy::NoMissing | FillPolicy::Strict => {
                if l < count {
                    return Err(Error::MissingPositionalFields(l, count));
                }
            },
            _ => {},
        }
        match policy {
            FillPolicy::NoExtra | FillPolicy::Strict => {
                if l > count {
                    return Err(Error::ExtraPositionalFields(l, count));
                }
            },
            _ => {},
        }
    }
    Ok(())
}

fn takes_extra(policy: FillPolicy) -> (takes: bool)
    ensures
        takes == !refuses_extra(policy),
{
    match policy {
        FillPolicy::Relaxed | FillPolicy::DropMissing | FillPolicy::NoMissing => true,
        FillPolicy::NoExtra | FillPolicy::Strict => false,
    }
}

/// Fills a template with values in order.
pub struct PositionSerializer {
    pub template: Parsed,
    pub policy: FillPolicy,
    /// The variables that have no value yet.
    pub pos: Vec<String>,
    pub vals: Dict<VarBinding>,
}

impl PositionSerializer {
    /// Starts to fill a template; `len` values are announced.
    pub fn build(policy: FillPolicy, len: Option<usize>, template: Parsed) -> (built: Result<
        Self,
        Error,
    >)
        ensures
            match built {
                Ok(s) => {
                    let names = template_names(template@);
                    &&& count_error(policy, len, names.len()) is None
                    &&& s.template@ == template@
                    &&& s.policy == policy
                    &&& text::texts(s.pos@) == names
                    &&& ser::bindings_view(s.vals@) == unbound(names)
                },
                Err(error) => count_error(policy, len, template_names(template@).len()) == Some(
                    error@,
                ),
            },
    {
        let pos = distinct_names(&all_vars(&template.parts()));
        assert(text::texts(pos@) == template_names(template@));
        let vals = absent_bindings(&pos);
        match check_count(policy, len, pos.len()) {
            Ok(_) => Ok(PositionSerializer { template, policy, pos, vals }),
            Err(error) => Err(error),
        }
    }

    /// Gives a value to the first of the variables that have none.
    pub fn serialize_element(&mut self, value: &Value) -> (done: Result<(), Error>)
        ensures
            final(self).template == old(self).template,
            final(self).policy == old(self).policy,
            match done {
                Ok(_) => if old(self).pos@.len() == 0 {
                    &&& !refuses_extra(old(self).policy)
                    &&& final(self).pos@ == old(self).pos@
                    &&& final(self).vals == old(self).vals
                } else {
                    &&& binding_of(*value) is Ok
                    &&& final(self).pos@ == old(self).pos@.skip(1)
                    &&& ser::bindings_view(final(self).vals@) == ser::bindings_view(
                        old(self).vals@,
                    ).insert(old(self).pos@[0]@, binding_of(*value)->Ok_0)
                },
                Err(error) => if old(self).pos@.len() == 0 {
                    &&& refuses_extra(old(self).policy)
                    &&& error@ == SpecOfError::OverrunPositionalField
                    &&& final(self).pos@ == old(self).pos@
                    &&& final(self).vals == old(self).vals
                } else {
                    &&& binding_of(*value) == Err::<SpecOfBinding, SpecOfError>(error@)
                    &&& final(self).pos@ == old(self).pos@.skip(1)
                    &&& final(self).vals == old(self).vals
                },
            },
    {
        if self.pos.len() == 0 {
            return if takes_extra(self.policy) {
                Ok(())
            } else {
                Err(Error::OverrunPositionalField)
            };
        }
        let name = self.pos.remove(0);
        assert(self.pos@ =~= old(self).pos@.skip(1));
        match VariableSerializer::serialize(value) {
            Ok(binding) => {
                let ghost before = self.vals@;
                let ghost key = name@;
                let ghost bound = binding;
                self.vals.insert(name, binding);
                assert(ser::bindings_view(self.vals@) =~= ser::bindings_view(before).insert(
                    key,
                    bound@,
                ));
                Ok(())
            },
            Err(error) => Err(error),
        }
    }

    /// The text of the template.
    pub fn end(self) -> (text: Result<String, Error>)
        ensures
            ser::is_text_result(
                text,
                ser::parts_expansion(
                    self.template@.parts(),
                    self.policy,
                    ser::bindings_view(self.vals@),
                ),
            ),
    {
        mapexprs(&self.template, self.policy, &self.vals)
    }
}

/// Fills a template with values by their names.
pub struct NamedSerializer {
    pub template: Parsed,
    pub policy: FillPolicy,
    /// The name of the value that comes next.
    pub key: Option<String>,
    pub vals: Dict<VarBinding>,
}

impl NamedSerializer {
    /// Starts to fill a template; `len` values are announced.
    pub fn build(policy: FillPolicy, len: Option<usize>, template: Parsed) -> (built: Result<
        Self,
        Error,
    >)
        ensures
            match built {
                Ok(s) => {
                    let names = template_names(template@);
                    &&& count_error(policy, len, names.len()) is None
                    &&& s.template@ == template@
                    &&& s.policy == policy
                    &&& s.key is None
                    &&& ser::bindings_view(s.vals@) == unbound(names)
                },
                Err(error) => count_error(policy, len, template_names(template@).len()) == Some(
                    error@,
                ),
            },
    {
        let list = distinct_names(&all_vars(&template.parts()));
        assert(text::texts(list@) == template_names(template@));
        let vals = absent_bindings(&list);
        match check_count(policy, len, list.len()) {
            Ok(_) => Ok(NamedSerializer { template, policy, key: None, vals }),
            Err(error) => Err(error),
        }
    }

    /// Gives a value to the variable `name`, if there is one.
    pub fn insert_value(&mut self, name: String, value: &Value) -> (done: Result<(), Error>)
        ensures
            final(self).template == old(self).template,
            final(self).policy == old(self).policy,
            final(self).key == old(self).key,
            is_bound(
                done,
                ser::bindings_view(old(self).vals@),
                ser::bindings_view(final(self).vals@),
                bind_name(old(self).policy, ser::bindings_view(old(self).vals@), name@, *value),
            ),
    {
        if self.vals.contains_key(&name) {
            match VariableSerializer::serialize(value) {
                Ok(binding) => {
                    let ghost before = self.vals@;
                    let ghost key = name@;
                    let ghost bound = binding;
                    self.vals.insert(name, binding);
                    assert(ser::bindings_view(self.vals@) =~= ser::bindings_view(before).insert(
                        key,
                        bound@,
                    ));
                    Ok(())
                },
                Err(error) => Err(error),
            }
        } else if takes_extra(self.policy) {
            Ok(())
        } else {
            Err(Error::ExtraNamedField(name))
        }
    }

    /// Gives a value to the variable that `key` names, if there is one.
    pub fn serialize_entry(&mut self, key: &Value, value: &Value) -> (done: Result<(), Error>)
        ensures
            final(self).template == old(self).template,
            final(self).policy == old(self).policy,
            final(self).key == old(self).key,
            is_bound(
                done,
                ser::bindings_view(old(self).vals@),
                ser::bindings_view(final(self).vals@),
                match key_text(*key) {
                    Ok(name) => bind_name(
                        old(self).policy,
                        ser::bindings_view(old(self).vals@),
                        name,
                        *value,
                    ),
                    Err(error) => Err(error),
                },
            ),
    {
        match KeySerializer::serialize(key) {
            Ok(name) => self.insert_value(name, value),
            Err(error) => Err(error),
        }
    }

    /// Keeps a name for the value that follows.
    pub fn serialize_key(&mut self, key: &Value) -> (done: Result<(), Error>)
        ensures
            final(self).template == old(self).template,
            final(self).policy == old(self).policy,
            final(self).vals == old(self).vals,
            match done {
                Ok(_) => final(self).key is Some && key_text(*key) == Ok::<Seq<char>, SpecOfError>(
                    final(self).key->0@,
                ),
                Err(e) => final(self).key == old(self).key && key_text(*key) == Err::<
                    Seq<char>,
                    SpecOfError,
                >(e@),
            },
    {
        match KeySerializer::serialize(key) {
            Ok(name) => {
                self.key = Some(name);
                Ok(())
            },
            Err(error) => Err(error),
        }
    }

    /// Gives a value to the variable whose name is kept, if there is one.
    pub fn serialize_value(&mut self, value: &Value) -> (done: Result<(), Error>)
        ensures
            final(self).template == old(self).template,
            final(self).policy == old(self).policy,
            final(self).key is None,
            is_bound(
                done,
                ser::bindings_view(old(self).vals@),
                ser::bindings_view(final(self).vals@),
                match old(self).key {
                    Some(name) => bind_name(
                        old(self).policy,
                        ser::bindings_view(old(self).vals@),
                        name@,
                        *value,
                    ),
                    None => Err(SpecOfError::SerializationStateError),
                },
            ),
    {
        match self.key.take() {
            Some(name) => self.insert_value(name, value),
            None => Err(Error::SerializationStateError),
        }
    }

    /// Gives a value to the variable `key`, if there is one.
    pub fn serialize_field(&mut self, key: &str, value: &Value) -> (done: Result<(), Error>)
        ensures
            final(self).template == old(self).template,
            final(self).policy == old(self).policy,
            final(self).key == old(self).key,
            is_bound(
                done,
                ser::bindings_view(old(self).vals@),
                ser::bindings_view(final(self).vals@),
                bind_name(old(self).policy, ser::bindings_view(old(self).vals@), key@, *value),
            ),
    {
        self.insert_value(key.to_owned(), value)
    }

    /// The text of the template.
    pub fn end(self) -> (text: Result<String, Error>)
        ensures
            ser::is_text_result(
                text,
                ser::parts_expansion(
                    self.template@.parts(),
                    self.policy,
                    ser::bindings_view(self.vals@),
                ),
            ),
    {
        mapexprs(&self.template, self.policy, &self.vals)
    }
}

/// Whether a step that should give the bindings `expected` has given them, or else has failed as
/// it should and left them as they were.
pub open spec fn is_bound(
    done: Result<(), Error>,
    before: Map<Seq<char>, SpecOfBinding>,
    after: Map<Seq<char>, SpecOfBinding>,
    expected: Result<Map<Seq<char>, SpecOfBinding>, SpecOfError>,
) -> bool {
    match done {
        Ok(_) => expected == Ok::<Map<Seq<char>, SpecOfBinding>, SpecOfError>(after),
        Err(error) => after == before && expected == Err::<
            Map<Seq<char>, SpecOfBinding>,
            SpecOfError,
        >(error@),
    }
}

fn fill_by_position(
    parsed: &Parsed,
    policy: FillPolicy,
    len: Option<usize>,
    items: &Vec<Value>,
) -> (text: Result<String, Error>)
    ensures
        ser::is_text_result(text, filled_by_position(parsed@, policy, len, items@)),
{
    let mut serializer = match PositionSerializer::build(policy, len, parsed.clone()) {
        Ok(serializer) => serializer,
        Err(error) => {
            return Err(error);
        },
    };
    let ghost names = template_names(parsed@);
    let ghost bound = bound_by_position(policy, names, unbound(names), items@);
    let mut i: usize = 0;
    assert(items@.skip(0) =~= items@);
    while i < items.len()
        invariant
            i <= items@.len(),
            names == template_names(parsed@),
            bound == bound_by_position(policy, names, unbound(names), items@),
            count_error(policy, len, names.len()) is None,
            serializer.policy == policy,
            serializer.template@ == parsed@,
            bound == bound_by_position(
                policy,
                text::texts(serializer.pos@),
                ser::bindings_view(serializer.vals@),
                items@.skip(i as int),
            ),
        decreases items@.len() - i,
    {
        let ghost pos = text::texts(serializer.pos@);
        assert(items@.skip(i as int).skip(1) =~= items@.skip(i + 1));
        match serializer.serialize_element(&items[i]) {
            Ok(_) => {
                assert(pos.len() > 0 ==> text::texts(serializer.pos@) =~= pos.skip(1));
            },
            Err(error) => {
                return Err(error);
            },
        }
        i = i + 1;
    }
    serializer.end()
}

fn fill_by_name(
    parsed: &Parsed,
    policy: FillPolicy,
    len: Option<usize>,
    entries: &Vec<(Value, Value)>,
) -> (text: Result<String, Error>)
    ensures
        ser::is_text_result(text, filled_by_name(parsed@, policy, len, entries@)),
{
    let mut serializer = match NamedSerializer::build(policy, len, parsed.clone()) {
        Ok(serializer) => serializer,
        Err(error) => {
            return Err(error);
        },
    };
    let ghost names = template_names(parsed@);
    let ghost bound = bound_by_name(policy, unbound(names), entries@);
    let mut i: usize = 0;
    assert(entries@.skip(0) =~= entries@);
    while i < entries.len()
        invariant
            i <= entries@.len(),
            names == template_names(parsed@),
            bound == bound_by_name(policy, unbound(names), entries@),
            count_error(policy, len, names.len()) is None,
            serializer.policy == policy,
            serializer.template@ == parsed@,
            bound == bound_by_name(
                policy,
                ser::bindings_view(serializer.vals@),
                entries@.skip(i as int),
            ),
        decreases entries@.len() - i,
    {
        assert(entries@.skip(i as int).skip(1) =~= entries@.skip(i + 1));
        match serializer.serialize_entry(&entries[i].0, &entries[i].1) {
            Ok(_) => {},
            Err(error) => {
                return Err(error);
            },
        }
        i = i + 1;
    }
    serializer.end()
}

/// The text of a template filled with a value.
pub fn fill(parsed: &Parsed, policy: FillPolicy, context: Value) -> (text: Result<String, Error>)
    ensures
        ser::is_text_result(text, filled(parsed@, policy, context)),
{
    match context {
        Value::Entries(_, len, entries) => fill_by_name(parsed, policy, len, &entries),
        Value::Items(_, len, items) => fill_by_position(parsed, policy, len, &items),
        Value::Null | Value::Unit | Value::UnitStruct | Value::UnitVariant => {
            let items: Vec<Value> = Vec::new();
            assert(items@ =~= Seq::empty());
            fill_by_position(parsed, policy, Some(0), &items)
        },
        Value::Wrapped(inner) => {
            let mut items: Vec<Value> = Vec::new();
            items.push(*inner);
            assert(items@ =~= seq![*inner]);
            fill_by_position(parsed, policy, Some(1), &items)
        },
        _ => {
            let ghost value = context;
            let mut items: Vec<Value> = Vec::new();
            items.push(context);
            assert(items@ =~= seq![value]);
            fill_by_position(parsed, policy, Some(1), &items)
        },
    }
}

} // verus!
