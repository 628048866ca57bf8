//! Values by their names, and which of them a template takes.
use crate::binding;
use crate::given;
use crate::given::{Given, SpecOfGiven};
use crate::parser;
use crate::text;
use crate::text::{holds_text, same_text};
use crate::{Error, FillPolicy, SpecOfError};
use vstd::prelude::*;

verus! {

broadcast use {crate::text::texts_push, crate::given::givens_push};

/// What can list the names of its values.
pub trait Listable {
    /// The names of the values.
    fn list_vars(&self) -> Vec<String>;
}

/// Names with their values.
#[derive(Debug)]
pub struct VarsList(pub Vec<(String, String)>);

impl Clone for VarsList {
    fn clone(&self) -> (copy: Self)
        ensures
            text::text_pairs(copy.0@) == text::text_pairs(self.0@),
    {
        VarsList(crate::de::clone_pairs(&self.0))
    }
}

impl Listable for VarsList {
    fn list_vars(&self) -> (names: Vec<String>)
        ensures
            text::texts(names@) == binding::keys(text::text_pairs(self.0@)),
    {
        let mut names: Vec<String> = Vec::new();
        let mut i: usize = 0;
        while i < self.0.len()
            invariant
                i <= self.0@.len(),
                text::texts(names@) =~= binding::keys(text::text_pairs(self.0@)).take(i as int),
            decreases self.0@.len() - i,
        {
            names.push(self.0[i].0.clone());
            i = i + 1;
        }
        assert(text::texts(names@) =~= binding::keys(text::text_pairs(self.0@)));
        names
    }
}

/// What can give values to variables by their names.
pub trait Context: Listable {
    /// The names with their values.
    spec fn given(&self) -> Seq<(Seq<char>, SpecOfGiven)>;

    /// The names with their values.
    fn values(&self) -> (list: Vec<(String, Given)>)
        ensures
            given::givens(list@) == self.given(),
    ;
}

/// Texts as values.
pub open spec fn given_texts(pairs: Seq<(Seq<char>, Seq<char>)>) -> Seq<(Seq<char>, SpecOfGiven)> {
    Seq::new(pairs.len(), |i: int| (pairs[i].0, SpecOfGiven::Text(pairs[i].1)))
}

impl Context for VarsList {
    open spec fn given(&self) -> Seq<(Seq<char>, SpecOfGiven)> {
        given_texts(text::text_pairs(self.0@))
    }

    fn values(&self) -> (list: Vec<(String, Given)>) {
        let mut list: Vec<(String, Given)> = Vec::new();
        let mut i: usize = 0;
        while i < self.0.len()
            invariant
                i <= self.0@.len(),
                given::givens(list@) =~= self.given().take(i as int),
            decreases self.0@.len() - i,
        {
            list.push((self.0[i].0.clone(), Given::Text(self.0[i].1.clone())));
            i = i + 1;
        }
        assert(given::givens(list@) =~= self.given());
        list
    }
}

/// Names with their values, of any kind.
#[derive(Debug)]
pub struct Values(pub Vec<(String, Given)>);

impl Clone for Values {
    fn clone(&self) -> (copy: Self)
        ensures
            given::givens(copy.0@) == given::givens(self.0@),
    {
        Values(self.values())
    }
}

impl Listable for Values {
    fn list_vars(&self) -> (names: Vec<String>)
        ensures
            text::texts(names@) == binding::keys(given::givens(self.0@)),
    {
        let mut names: Vec<String> = Vec::new();
        let mut i: usize = 0;
        while i < self.0.len()
            invariant
                i <= self.0@.len(),
                text::texts(names@) =~= binding::keys(given::givens(self.0@)).take(i as int),
            decreases self.0@.len() - i,
        {
            names.push(self.0[i].0.clone());
            i = i + 1;
        }
        assert(text::texts(names@) =~= binding::keys(given::givens(self.0@)));
        names
    }
}

impl Context for Values {
    open spec fn given(&self) -> Seq<(Seq<char>, SpecOfGiven)> {
        given::givens(self.0@)
    }

    fn values(&self) -> (list: Vec<(String, Given)>) {
        let mut list: Vec<(String, Given)> = Vec::new();
        let mut i: usize = 0;
        while i < self.0.len()
            invariant
                i <= self.0@.len(),
                given::givens(list@) =~= given::givens(self.0@).take(i as int),
            decreases self.0@.len() - i,
        {
            list.push((self.0[i].0.clone(), self.0[i].1.clone()));
            i = i + 1;
        }
        assert(given::givens(list@) =~= self.given());
        list
    }
}

/// The first of the values of a name.
pub open spec fn value_of<T>(pairs: Seq<(Seq<char>, T)>, name: Seq<char>) -> Option<T> {
    let i = binding::place_of(pairs, name, 0);
    if i < pairs.len() {
        Some(pairs[i].1)
    } else {
        None
    }
}

/// Names with the first of their values.
pub open spec fn first_values<T>(pairs: Seq<(Seq<char>, T)>) -> Seq<(Seq<char>, T)>
    decreases pairs.len(),
{
    if pairs.len() == 0 {
        Seq::empty()
    } else {
        let before = first_values(pairs.drop_last());
        if binding::keys(before).contains(pairs.last().0) {
            before
        } else {
            before.push(pairs.last())
        }
    }
}

/// What an optional value stands for.
pub open spec fn given_option(value: Option<Given>) -> Option<SpecOfGiven> {
    match value {
        Some(given) => Some(given@),
        None => None,
    }
}

impl Values {
    /// The value of a variable: the first that its name has.
    pub fn visit(&self, name: &str) -> (value: Option<&Given>)
        ensures
            match value {
                Some(v) => value_of(given::givens(self.0@), name@) == Some(v@),
                None => value_of(given::givens(self.0@), name@) is None,
            },
    {
        let mut i: usize = 0;
        while i < self.0.len() && !same_text(&self.0[i].0, name)
            invariant
                i <= self.0@.len(),
                binding::place_of(given::givens(self.0@), name@, 0) == binding::place_of(
                    given::givens(self.0@),
                    name@,
                    i as int,
                ),
            decreases self.0@.len() - i,
        {
            i = i + 1;
        }
        if i < self.0.len() {
            Some(&self.0[i].1)
        } else {
            None
        }
    }

    /// The names with the first of their values.
    pub fn first_values(&self) -> (list: Vec<(String, Given)>)
        ensures
            given::givens(list@) == first_values(given::givens(self.0@)),
    {
        let ghost all = given::givens(self.0@);
        let mut list: Vec<(String, Given)> = Vec::new();
        let mut names: Vec<String> = Vec::new();
        let mut i: usize = 0;
        assert(all.take(0) =~= Seq::empty());
        assert(given::givens(list@) =~= Seq::empty());
        assert(text::texts(names@) =~= binding::keys(given::givens(list@)));
        while i < self.0.len()
            invariant
                i <= self.0@.len(),
                all == given::givens(self.0@),
                given::givens(list@) == first_values(all.take(i as int)),
                text::texts(names@) == binding::keys(given::givens(list@)),
            decreases self.0@.len() - i,
        {
            assert(all.take(i + 1).drop_last() =~= all.take(i as int));
            assert(all.take(i + 1).last() == all[i as int]);
            if !holds_text(&names, &self.0[i].0) {
                let ghost before = given::givens(list@);
                names.push(self.0[i].0.clone());
                list.push((self.0[i].0.clone(), self.0[i].1.clone()));
                assert(binding::keys(before.push(all[i as int])) =~= binding::keys(before).push(
                    all[i as int].0,
                ));
            }
            i = i + 1;
        }
        assert(all.take(i as int) =~= all);
        list
    }
}

/// The names of one list that another does not hold.
pub open spec fn outside_of(list: Seq<Seq<char>>, other: Seq<Seq<char>>) -> Seq<Seq<char>>
    decreases list.len(),
{
    if list.len() == 0 {
        Seq::empty()
    } else if other.contains(list.last()) {
        outside_of(list.drop_last(), other)
    } else {
        outside_of(list.drop_last(), other).push(list.last())
    }
}

/// The names that are not `name`.
pub open spec fn without(list: Seq<Seq<char>>, name: Seq<char>) -> Seq<Seq<char>> {
    outside_of(list, seq![name])
}

/// The names, and `name` at the end if it is not among them.
pub open spec fn including(list: Seq<Seq<char>>, name: Seq<char>) -> Seq<Seq<char>> {
    if list.contains(name) {
        list
    } else {
        list.push(name)
    }
}

/// Why values cannot fill a template, where these names are missing and these are extra.
pub open spec fn policy_error(
    policy: FillPolicy,
    missing: Seq<Seq<char>>,
    extra: Seq<Seq<char>>,
) -> Option<SpecOfError> {
    if missing.len() > 0 && (policy == FillPolicy::Strict || policy == FillPolicy::NoMissing) {
        Some(SpecOfError::MissingCaptures(missing))
    } else if extra.len() > 0 && (policy == FillPolicy::Strict || policy == FillPolicy::NoExtra) {
        Some(SpecOfError::ExtraCaptures(extra))
    } else {
        None
    }
}

/// Values, and which of their names a template asks for.
pub struct PolicyContext {
    pub provided: Vec<String>,
    /// The names that have not been asked for.
    pub extra: Vec<String>,
    /// The names that have been asked for and have no value.
    pub missing: Vec<String>,
    pub inner: Values,
}

/// The texts of a list, each where it stands first.
pub fn distinct_texts(list: &Vec<String>) -> (out: Vec<String>)
    ensures
        text::texts(out@) == parser::distinct(text::texts(list@)),
{
    let ghost all = text::texts(list@);
    let mut out: Vec<String> = Vec::new();
    let mut i: usize = 0;
    assert(all.take(0) =~= Seq::empty());
    assert(text::texts(out@) =~= Seq::empty());
    while i < list.len()
        invariant
            i <= list@.len(),
            all == text::texts(list@),
            text::texts(out@) == parser::distinct(all.take(i as int)),
        decreases list@.len() - i,
    {
        assert(all.take(i + 1).drop_last() =~= all.take(i as int));
        assert(all.take(i + 1).last() == all[i as int]);
        if !holds_text(&out, &list[i]) {
            out.push(list[i].clone());
        }
        i = i + 1;
    }
    assert(all.take(i as int) =~= all);
    out
}

fn texts_without(list: &Vec<String>, name: &str) -> (out: Vec<String>)
    ensures
        text::texts(out@) == without(text::texts(list@), name@),
{
    let ghost all = text::texts(list@);
    let mut out: Vec<String> = Vec::new();
    let mut i: usize = 0;
    assert(all.take(0) =~= Seq::empty());
    assert(text::texts(out@) =~= Seq::empty());
    while i < list.len()
        invariant
            i <= list@.len(),
            all == text::texts(list@),
            text::texts(out@) == without(all.take(i as int), name@),
        decreases list@.len() - i,
    {
        assert(all.take(i + 1).drop_last() =~= all.take(i as int));
        assert(all.take(i + 1).last() == all[i as int]);
        assert(seq![name@].contains(all[i as int]) <==> all[i as int] == name@) by {
            assert(seq![name@][0] == name@);
        }
        if !same_text(&list[i], name) {
            out.push(list[i].clone());
        }
        i = i + 1;
    }
    assert(all.take(i as int) =~= all);
    out
}

impl PolicyContext {
    /// Values of which no template has asked for any.
    pub fn new(inner: Values) -> (context: Self)
        ensures
            context.inner == inner,
            context.provided@.len() == 0,
            context.extra@.len() == 0,
            context.missing@.len() == 0,
    {
        PolicyContext { provided: Vec::new(), extra: Vec::new(), missing: Vec::new(), inner }
    }

    /// Begins to ask: all the names are there, and none of them has been asked for.
    pub fn on_expansion_start(&mut self)
        ensures
            final(self).inner == old(self).inner,
            text::texts(final(self).provided@) == parser::distinct(
                binding::keys(given::givens(old(self).inner.0@)),
            ),
            text::texts(final(self).extra@) == parser::distinct(
                binding::keys(given::givens(old(self).inner.0@)),
            ),
            text::texts(final(self).missing@) == Seq::<Seq<char>>::empty(),
    {
        let names = self.inner.list_vars();
        self.provided = distinct_texts(&names);
        self.extra = distinct_texts(&names);
        self.missing = Vec::new();
        assert(text::texts(self.missing@) =~= Seq::<Seq<char>>::empty());
    }

    /// Asks for the value of a variable.
    pub fn visit(&mut self, name: &str) -> (value: Option<Given>)
        ensures
            given_option(value) == value_of(given::givens(old(self).inner.0@), name@),
            final(self).inner == old(self).inner,
            final(self).provided == old(self).provided,
            text::texts(final(self).extra@) == without(text::texts(old(self).extra@), name@),
            text::texts(final(self).missing@) == (if text::texts(old(self).provided@).contains(
                name@,
            ) {
                text::texts(old(self).missing@)
            } else {
                including(text::texts(old(self).missing@), name@)
            }),
    {
        self.extra = texts_without(&self.extra, name);
        if !holds_text(&self.provided, name) && !holds_text(&self.missing, name) {
            self.missing.push(name.to_owned());
        }
        match self.inner.visit(name) {
            Some(value) => Some(value.clone()),
            None => None,
        }
    }

    /// Whether the policy allows the names that are missing and those that are extra.
    pub fn check(&self, policy: FillPolicy) -> (checked: Result<(), Error>)
        ensures
            match checked {
                Ok(_) => policy_error(
                    policy,
                    text::texts(self.missing@),
                    text::texts(self.extra@),
                ) is None,
                Err(error) => policy_error(
                    policy,
                    text::texts(self.missing@),
                    text::texts(self.extra@),
                ) == Some(error@),
            },
    {
        match policy {
            FillPolicy::Strict | FillPolicy::NoMissing => {
                if self.missing.len() > 0 {
                    return Err(Error::MissingCaptures(crate::de::clone_texts(&self.missing)));
                }
            },
            _ => {},
        }
        match policy {
            FillPolicy::Strict | FillPolicy::NoExtra => {
                if self.extra.len() > 0 {
                    return Err(Error::ExtraCaptures(crate::de::clone_texts(&self.extra)));
                }
            },
            _ => {},
        }
        Ok(())
    }

    /// Asks for the values of all the variables, one after the other.
    pub fn visit_all(&mut self, names: &Vec<String>)
        ensures
            final(self).inner == old(self).inner,
            text::texts(final(self).missing@) == outside_of(
                parser::distinct(text::texts(names@)),
                binding::keys(given::givens(old(self).inner.0@)),
            ),
            text::texts(final(self).extra@) == outside_of(
                parser::distinct(binding::keys(given::givens(old(self).inner.0@))),
                text::texts(names@),
            ),
    {
        self.on_expansion_start();
        let ghost given = binding::keys(given::givens(self.inner.0@));
        let ghost all = text::texts(names@);
        let mut i: usize = 0;
        proof {
            assert(all.take(0) =~= Seq::empty());
            lemma_outside_of_nothing(parser::distinct(given));
        }
        while i < names.len()
            invariant
                i <= names@.len(),
                all == text::texts(names@),
                self.inner == old(self).inner,
                given == binding::keys(given::givens(old(self).inner.0@)),
                text::texts(self.provided@) == parser::distinct(given),
                text::texts(self.missing@) == outside_of(
                    parser::distinct(all.take(i as int)),
                    given,
                ),
                text::texts(self.extra@) == outside_of(
                    parser::distinct(given),
                    all.take(i as int),
                ),
            decreases names@.len() - i,
        {
            let ghost done = all.take(i as int);
            let ghost name = all[i as int];
            proof {
                assert(all.take(i + 1) =~= done.push(name));
                assert(done.push(name).drop_last() =~= done);
                parser::law_distinct(given);
                parser::law_distinct(done);
                assert(parser::distinct(given).contains(name) <==> given.contains(name));
                lemma_outside_of_push(parser::distinct(given), done, name);
                lemma_outside_of_contains(parser::distinct(done), given, name);
                if !parser::distinct(done).contains(name) {
                    assert(parser::distinct(done.push(name)) == parser::distinct(done).push(name));
                    assert(parser::distinct(done).push(name).drop_last() =~= parser::distinct(
                        done,
                    ));
                }
            }
            let _ = self.visit(&names[i]);
            i = i + 1;
        }
        assert(all.take(i as int) =~= all);
    }
}

proof fn lemma_outside_of_nothing(list: Seq<Seq<char>>)
    ensures
        outside_of(list, Seq::empty()) == list,
    decreases list.len(),
{
    if list.len() > 0 {
        lemma_outside_of_nothing(list.drop_last());
        assert(list.drop_last().push(list.last()) =~= list);
    }
}

/// A list without the names of another holds those that are in the one and not in the other.
pub proof fn lemma_outside_of_contains(list: Seq<Seq<char>>, other: Seq<Seq<char>>, name: Seq<char>)
    ensures
        outside_of(list, other).contains(name) <==> list.contains(name) && !other.contains(name),
    decreases list.len(),
{
    if list.len() > 0 {
        let before = list.drop_last();
        lemma_outside_of_contains(before, other, name);
        binding::lemma_push_contains(before, list.last(), name);
        binding::lemma_push_contains(outside_of(before, other), list.last(), name);
        assert(list =~= before.push(list.last()));
    }
}

proof fn lemma_outside_of_push(list: Seq<Seq<char>>, other: Seq<Seq<char>>, name: Seq<char>)
    ensures
        outside_of(list, other.push(name)) == without(outside_of(list, other), name),
    decreases list.len(),
{
    if list.len() > 0 {
        let before = list.drop_last();
        let last = list.last();
        lemma_outside_of_push(before, other, name);
        binding::lemma_push_contains(other, name, last);
        assert(seq![name].contains(last) <==> last == name) by {
            assert(seq![name][0] == name);
        }
        let kept = outside_of(before, other);
        assert(kept.push(last).drop_last() =~= kept);
    }
}

} // verus!
