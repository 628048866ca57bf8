//! Templates that keep what they have worked out.
use crate::binding::{same_texts, UriParts};
use crate::de::{clone_texts, UriDeserializer};
use crate::dict::Dict;
use crate::parser::SpecOfParsed;
use crate::policy::Context;
use crate::reading;
use crate::single;
use crate::single::InnerSingle;
use crate::text;
use crate::text::same_text;
use crate::value::Value;
use crate::{parse_mapping, Error, FillPolicy, ResourceMapping, Serde6570, SpecOfError};
use vstd::prelude::*;

verus! {

/// A template that keeps its regular expression and the templates with a prefix once they have
/// been asked for.
#[derive(Debug)]
pub struct Entry {
    pub inner: InnerSingle,
    pub prefixes: Dict<InnerSingle>,
    pub regex: Option<Result<String, Error>>,
}

/// Whether the templates that are kept with a prefix are those of the template.
pub open spec fn are_prefixed(template: SpecOfParsed, kept: Map<Seq<char>, InnerSingle>) -> bool {
    forall|prefix: Seq<char>| #[trigger]
        kept.dom().contains(prefix) ==> kept[prefix].parsed@ == single::prefixed(template, prefix)
}

impl Entry {
    /// A template that has kept nothing.
    pub fn new(inner: InnerSingle) -> (entry: Self)
        ensures
            entry.is_valid(),
            entry.parsed_template() == inner.parsed@,
            entry.regex is None,
            entry.prefixes@.dom() == Set::<Seq<char>>::empty(),
    {
        Entry { inner, prefixes: Dict::new(), regex: None }
    }
}

fn clone_regex(regex: &Option<Result<String, Error>>) -> (copy: Option<Result<String, Error>>)
    ensures
        match (*regex, copy) {
            (None, None) => true,
            (Some(Ok(a)), Some(Ok(b))) => a@ == b@,
            (Some(Err(a)), Some(Err(b))) => a@ == b@,
            _ => false,
        },
{
    match regex {
        None => None,
        Some(Ok(pattern)) => Some(Ok(pattern.clone())),
        Some(Err(error)) => Some(Err(error.clone())),
    }
}

impl Clone for Entry {
    fn clone(&self) -> (copy: Self)
        ensures
            self.is_valid() ==> copy.is_valid(),
            copy.parsed_template() == self.parsed_template(),
            copy.regex is Some <==> self.regex is Some,
            copy.prefixes@.dom() == self.prefixes@.dom(),
            forall|prefix: Seq<char>| #[trigger]
                self.prefixes@.dom().contains(prefix) ==> copy.prefixes@[prefix].parsed@
                    == self.prefixes@[prefix].parsed@,
    {
        Entry {
            inner: self.inner.clone(),
            prefixes: self.prefixes.clone(),
            regex: clone_regex(&self.regex),
        }
    }
}

impl Serde6570 for Entry {
    open spec fn parsed_template(&self) -> SpecOfParsed {
        self.inner.parsed@
    }

    open spec fn is_valid(&self) -> bool {
        &&& self.regex is Some ==> single::is_text(
            self.regex->0,
            single::regex_of(self.inner.parsed@),
        )
        &&& self.regex matches Some(Ok(pattern)) ==> reading::is_regex_for(
            self.inner.parsed@,
            pattern@,
        )
        &&& are_prefixed(self.inner.parsed@, self.prefixes@)
    }

    fn expand(&self, policy: FillPolicy, context: Value) -> (result: Result<String, Error>) {
        self.inner.expand(policy, context)
    }

    fn contract(&self, uri: &UriParts) -> (result: Result<UriDeserializer, Error>) {
        self.inner.contract(uri)
    }

    fn matchit_route(&self) -> (route: String) {
        self.inner.matchit_route()
    }

    fn regex(&mut self) -> (result: Result<String, Error>)
        ensures
            final(self).regex is Some,
            old(self).regex is Some ==> final(self).regex == old(self).regex,
            final(self).prefixes == old(self).prefixes,
    {
        if self.regex.is_none() {
            let made = self.inner.regex();
            self.regex = Some(made);
        }
        match &self.regex {
            Some(Ok(pattern)) => Ok(pattern.clone()),
            Some(Err(error)) => Err(error.clone()),
            None => self.inner.regex(),
        }
    }

    fn prefixed(&mut self, prefix: &str) -> (longer: Self)
        ensures
            final(self).prefixes@.dom() == old(self).prefixes@.dom().insert(prefix@),
            forall|other: Seq<char>| #[trigger]
                old(self).prefixes@.dom().contains(other) ==> final(self).prefixes@[other]
                    == old(self).prefixes@[other],
            final(self).regex == old(self).regex,
    {
        if let Some(kept) = self.prefixes.get(prefix) {
            return Entry::new(kept.clone());
        }
        let made = self.inner.prefixed(prefix);
        self.prefixes.insert(prefix.to_owned(), made.clone());
        Entry::new(made)
    }

    fn fill<C: Context>(&self, vars: &C) -> (result: Result<String, Error>) {
        self.inner.fill_uritemplate(FillPolicy::NoMissing, vars)
    }

    fn partial_fill<C: Context>(&self, vars: &C) -> (result: Result<InnerSingle, Error>) {
        self.inner.partial_fill_single(vars)
    }

    fn template(&self) -> (result: Result<String, Error>) {
        self.inner.template()
    }

    fn is_closed(&self) -> (closed: bool) {
        self.inner.is_closed()
    }
}

/// A template with what it was made from.
#[derive(Debug)]
pub struct Stored {
    pub template: String,
    pub fields: Vec<String>,
    pub entry: Entry,
}

/// The templates of the mappings that have been asked for.
#[derive(Debug)]
pub struct RouteMap {
    pub store: Vec<Stored>,
}

/// Whether the template of a text and of fields is stored.
pub open spec fn holds(store: Seq<Stored>, template: Seq<char>, fields: Seq<Seq<char>>) -> bool {
    exists|i: int|
        0 <= i < store.len() && (#[trigger] store[i]).template@ == template && text::texts(
            store[i].fields@,
        ) == fields
}

/// Whether what is stored has grown by a template that was not, and by nothing else.
pub open spec fn is_stored(
    before: Seq<Stored>,
    after: Seq<Stored>,
    template: Seq<char>,
    fields: Seq<Seq<char>>,
    made: Result<SpecOfParsed, SpecOfError>,
) -> bool {
    if holds(before, template, fields) || made is Err {
        after == before
    } else {
        &&& after.len() == before.len() + 1
        &&& after.drop_last() == before
        &&& after.last().template@ == template
        &&& text::texts(after.last().fields@) == fields
        &&& after.last().entry.parsed_template() == made->Ok_0
    }
}

/// What the template of a mapping is, or why it has none.
pub open spec fn entry_view(result: Result<Entry, Error>) -> Result<SpecOfParsed, SpecOfError> {
    match result {
        Ok(entry) => Ok(entry.parsed_template()),
        Err(error) => Err(error@),
    }
}

impl RouteMap {
    /// Whether each template is the one that its text and its fields make.
    pub open spec fn is_valid(self) -> bool {
        forall|i: int|
            0 <= i < self.store@.len() ==> {
                let stored = #[trigger] self.store@[i];
                &&& stored.entry.is_valid()
                &&& crate::template_from(stored.template@, text::texts(stored.fields@)) == Ok::<
                    SpecOfParsed,
                    SpecOfError,
                >(stored.entry.parsed_template())
            }
    }

    /// No templates.
    pub fn new() -> (map: Self)
        ensures
            map.is_valid(),
            map.store@.len() == 0,
    {
        RouteMap { store: Vec::new() }
    }

    fn find(&self, template: &str, fields: &Vec<String>) -> (at: Option<usize>)
        ensures
            match at {
                Some(i) => {
                    &&& i < self.store@.len()
                    &&& self.store@[i as int].template@ == template@
                    &&& text::texts(self.store@[i as int].fields@) == text::texts(fields@)
                },
                None => forall|i: int|
                    0 <= i < self.store@.len() ==> (#[trigger] self.store@[i]).template@
                        != template@ || text::texts(self.store@[i].fields@) != text::texts(fields@),
            },
    {
        let mut i: usize = 0;
        while i < self.store.len()
            invariant
                i <= self.store@.len(),
                forall|j: int|
                    0 <= j < i ==> (#[trigger] self.store@[j]).template@ != template@
                        || text::texts(self.store@[j].fields@) != text::texts(fields@),
            decreases self.store@.len() - i,
        {
            if same_text(&self.store[i].template, template) && same_texts(
                &self.store[i].fields,
                fields,
            ) {
                return Some(i);
            }
            i = i + 1;
        }
        None
    }

    /// The template of a mapping: the one that is stored, or else one that is stored from now on.
    pub fn named<RM: ResourceMapping>(&mut self, rt: RM) -> (result: Result<Entry, Error>)
        requires
            old(self).is_valid(),
        ensures
            final(self).is_valid(),
            result is Ok ==> result->Ok_0.is_valid(),
            crate::is_template_from(rt, entry_view(result)),
            exists|template: String, fields: Vec<String>|
                {
                    &&& #[trigger] call_ensures(RM::route_template, (&rt,), template)
                    &&& #[trigger] call_ensures(RM::assoc_fields, (&rt,), fields)
                    &&& entry_view(result) == crate::template_from(
                        template@,
                        text::texts(fields@),
                    )
                    &&& is_stored(
                        old(self).store@,
                        final(self).store@,
                        template@,
                        text::texts(fields@),
                        crate::template_from(template@, text::texts(fields@)),
                    )
                },
    {
        let template = rt.route_template();
        let fields = rt.assoc_fields();
        if let Some(i) = self.find(&template, &fields) {
            return Ok(self.store[i].entry.clone());
        }
        let key = clone_texts(&fields);
        match parse_mapping(&template, fields) {
            Ok(parsed) => {
                let entry = Entry::new(InnerSingle { parsed });
                let out = entry.clone();
                self.store.push(Stored { template, fields: key, entry });
                assert(self.store@.drop_last() =~= old(self).store@);
                Ok(out)
            },
            Err(error) => Err(error),
        }
    }
}

/// The template of one text and of the same fields is asked for twice: the second time it is stored
/// already, and it is the same.
pub proof fn law_named_once(
    before: Seq<Stored>,
    between: Seq<Stored>,
    after: Seq<Stored>,
    template: Seq<char>,
    fields: Seq<Seq<char>>,
    first: Result<Entry, Error>,
    second: Result<Entry, Error>,
)
    requires
        is_stored(before, between, template, fields, crate::template_from(template, fields)),
        entry_view(first) == crate::template_from(template, fields),
        is_stored(between, after, template, fields, crate::template_from(template, fields)),
        entry_view(second) == crate::template_from(template, fields),
    ensures
        after == between,
        first is Ok ==> holds(between, template, fields),
        entry_view(second) == entry_view(first),
{
    if first is Ok && !holds(before, template, fields) {
        let i = between.len() - 1;
        assert(between[i].template@ == template);
        assert(text::texts(between[i].fields@) == fields);
    }
}

} // verus!
