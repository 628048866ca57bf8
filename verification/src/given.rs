//! Values that are given to variables one by one.
use crate::de::{clone_pairs, clone_texts};
use crate::text;
use vstd::prelude::*;

verus! {

/// A value that is given to a variable.
#[derive(Debug)]
pub enum Given {
    /// The value is given as nothing.
    Nothing,
    Text(String),
    List(Vec<String>),
    /// The members of an associative array.
    Pairs(Vec<(String, String)>),
}

/// What a `Given` stands for.
#[verifier::ext_equal]
pub enum SpecOfGiven {
    Nothing,
    Text(Seq<char>),
    List(Seq<Seq<char>>),
    Pairs(Seq<(Seq<char>, Seq<char>)>),
}

impl View for Given {
    type V = SpecOfGiven;

    open spec fn view(&self) -> SpecOfGiven {
        match *self {
            Given::Nothing => SpecOfGiven::Nothing,
            Given::Text(s) => SpecOfGiven::Text(s@),
            Given::List(items) => SpecOfGiven::List(text::texts(items@)),
            Given::Pairs(items) => SpecOfGiven::Pairs(text::text_pairs(items@)),
        }
    }
}

impl Clone for Given {
    fn clone(&self) -> (copy: Self)
        ensures
            copy@ == self@,
    {
        match self {
            Given::Nothing => Given::Nothing,
            Given::Text(s) => Given::Text(s.clone()),
            Given::List(items) => Given::List(clone_texts(items)),
            Given::Pairs(items) => Given::Pairs(clone_pairs(items)),
        }
    }
}

/// What a list of names with values stands for.
pub open spec fn givens(list: Seq<(String, Given)>) -> Seq<(Seq<char>, SpecOfGiven)> {
    Seq::new(list.len(), |i: int| (list[i].0@, list[i].1@))
}

/// What a list that grows by one name with its value stands for.
pub broadcast proof fn givens_push(list: Seq<(String, Given)>, pair: (String, Given))
    ensures
        #[trigger] givens(list.push(pair)) == givens(list).push((pair.0@, pair.1@)),
{
    assert(givens(list.push(pair)) =~= givens(list).push((pair.0@, pair.1@)));
}

/// Whether all values are texts.
pub open spec fn are_texts(vars: Seq<(Seq<char>, SpecOfGiven)>) -> bool {
    forall|i: int| 0 <= i < vars.len() ==> (#[trigger] vars[i]).1 is Text
}

} // verus!
