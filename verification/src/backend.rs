//! What the library has from the crates for regular expressions and for IRIs.
use crate::escape;
use crate::given;
use crate::given::{Given, SpecOfGiven};
use crate::pieces;
use crate::pieces::Piece;
use crate::text;
use crate::text::chars_of;
use crate::writable;
use iri_string::spec::IriSpec;
use iri_string::template::simple_context::{SimpleContext, Value};
use iri_string::template::UriTemplateStr;
use vstd::prelude::*;

verus! {

/// What `regex::Regex::new` says of a pattern: nothing, or else its error as `Debug` writes it.
pub uninterp spec fn regex_error(pattern: Seq<char>) -> Option<Seq<char>>;

/// What `regex::Regex::captures` finds in a text: the groups of the pattern in order, each with its
/// name, if it has one, and with what it matched, if it took part in the match.
pub uninterp spec fn regex_captures(pattern: Seq<char>, haystack: Seq<char>) -> Option<
    Seq<(Option<Seq<char>>, Option<Seq<char>>)>,
>;

/// What `iri_string::template::UriTemplateStr::new` says of a text: nothing, or else its error as
/// `Debug` writes it.
pub uninterp spec fn uri_template_error(template: Seq<char>) -> Option<Seq<char>>;

/// What `iri_string::template::UriTemplateStr::expand_dynamic_to_string` writes, for IRIs, where
/// each name has the value that stands with it, or else its error as `Debug` writes it.
pub uninterp spec fn iri_expansion(
    template: Seq<char>,
    vars: Seq<(Seq<char>, SpecOfGiven)>,
) -> Result<Seq<char>, Seq<char>>;

/// What `iri_string::types::IriReferenceString::try_from` says of a text: nothing, or else its
/// error as `Debug` writes it.
pub uninterp spec fn iri_reference_error(iri: Seq<char>) -> Option<Seq<char>>;

/// Whether a result holds no error where there should be none, and else the one there should be.
pub open spec fn is_checked<T>(result: Result<T, String>, error: Option<Seq<char>>) -> bool {
    match result {
        Ok(_) => error is None,
        Err(message) => error == Some(message@),
    }
}

/// What a list of names with optional texts stands for.
pub open spec fn captures_view(captures: Seq<(String, Option<String>)>) -> Seq<
    (Seq<char>, Option<Seq<char>>),
> {
    Seq::new(captures.len(), |i: int| (captures[i].0@, text::text_of_option(captures[i].1)))
}

/// What a list of optional names with optional texts stands for.
pub open spec fn groups_view(groups: Seq<(Option<String>, Option<String>)>) -> Seq<
    (Option<Seq<char>>, Option<Seq<char>>),
> {
    Seq::new(
        groups.len(),
        |i: int| (text::text_of_option(groups[i].0), text::text_of_option(groups[i].1)),
    )
}

/// The groups that have a name.
pub open spec fn named(groups: Seq<(Option<Seq<char>>, Option<Seq<char>>)>) -> Seq<
    (Seq<char>, Option<Seq<char>>),
>
    decreases groups.len(),
{
    if groups.len() == 0 {
        Seq::empty()
    } else {
        match groups.last().0 {
            Some(name) => named(groups.drop_last()).push((name, groups.last().1)),
            None => named(groups.drop_last()),
        }
    }
}

/// What a text gives to the groups of a pattern that have a name, if it fits.
pub open spec fn found_in(pattern: Seq<char>, haystack: Seq<char>) -> Option<
    Seq<(Seq<char>, Option<Seq<char>>)>,
> {
    match regex_captures(pattern, haystack) {
        Some(groups) => Some(named(groups)),
        None => None,
    }
}

/// Whether something is found with a pattern in every text that begins with the text of pieces that
/// make the pattern, where no group takes a character that stops it.
pub open spec fn is_matcher(pattern: Seq<char>) -> bool {
    forall|pieces: Seq<Piece>, haystack: Seq<char>|
        pieces::are_clean(pieces) && #[trigger] pieces::pattern_of(pieces) == pattern
            && text::begins_with(haystack, pieces::text_of(pieces)) ==> #[trigger] regex_captures(
            pattern,
            haystack,
        ) is Some
}

/// `regex::Regex::new`: whether it takes the pattern, and what it says where it does not, has a
/// name. With a pattern that it takes and that is made of quoted literals, of `=?` and of groups
/// such as `(?<name>[^/?#]*)`, `regex::Regex::captures` finds something in every text that begins
/// with those literals, with equals signs that are there or not, and with a text for each group
/// that holds no character which stops it: for a match of the pattern is there.
#[verifier::external_body]
pub(crate) fn compile(pattern: &str) -> (compiled: Result<(), String>)
    ensures
        is_checked(compiled, regex_error(pattern@)),
        compiled is Ok ==> is_matcher(pattern@),
{
    regex::Regex::new(pattern).map(|_| ()).map_err(|error| format!("{error:?}"))
}

/// `regex::Regex::captures`: what it finds has a name. Where the pattern is made of quoted literals,
/// of `=?` and of groups such as `(?<name>[^/?#]*)`, and the haystack of those literals, of the
/// equals signs that are there and, for each group, of a text that holds no character which stops
/// it, it finds the whole of the haystack, with each group at its text, if behind each group there
/// are literals that end the haystack or hold a character which stops the group: for the first
/// match that it looks for begins where the haystack does, each repetition takes as much as it can,
/// and if the group took more, then the literals would not end with the haystack, or would not have
/// that character where it first comes. The pattern is one that `regex::Regex::new` takes, so that
/// nothing here panics.
#[verifier::external_body]
fn captures(pattern: &str, haystack: &str) -> (found: Option<
    Vec<(Option<String>, Option<String>)>,
>)
    requires
        regex_error(pattern@) is None,
    ensures
        match found {
            Some(list) => regex_captures(pattern@, haystack@) == Some(groups_view(list@)),
            None => regex_captures(pattern@, haystack@) is None,
        },
        forall|pieces: Seq<Piece>|
            pieces::fits(pieces) && #[trigger] pieces::pattern_of(pieces) == pattern@
                && pieces::text_of(pieces) == haystack@ ==> found is Some && named(
                groups_view(found->0@),
            ) == pieces::groups_of(pieces),
{
    let regex = regex::Regex::new(pattern).expect("a pattern that compiles");
    let captures = regex.captures(haystack)?;
    let texts = captures.iter().map(|found| found.map(|found| found.as_str().to_owned()));
    Some(regex.capture_names().map(|name| name.map(str::to_owned)).zip(texts).collect())
}

/// What a text gives to the groups of a pattern that have a name, if it fits.
pub(crate) fn find(pattern: &str, haystack: &str) -> (found: Option<
    Vec<(String, Option<String>)>,
>)
    requires
        regex_error(pattern@) is None,
    ensures
        match found {
            Some(list) => found_in(pattern@, haystack@) == Some(captures_view(list@)),
            None => found_in(pattern@, haystack@) is None,
        },
        forall|pieces: Seq<Piece>|
            pieces::fits(pieces) && #[trigger] pieces::pattern_of(pieces) == pattern@
                && pieces::text_of(pieces) == haystack@ ==> found is Some && captures_view(
                found->0@,
            ) == pieces::groups_of(pieces),
{
    let groups = match captures(pattern, haystack) {
        Some(groups) => groups,
        None => {
            return None;
        },
    };
    let ghost all = groups_view(groups@);
    let mut list: Vec<(String, Option<String>)> = Vec::new();
    let mut i: usize = 0;
    assert(all.take(0) =~= Seq::empty());
    assert(captures_view(list@) =~= Seq::empty());
    while i < groups.len()
        invariant
            i <= groups@.len(),
            all == groups_view(groups@),
            captures_view(list@) == named(all.take(i as int)),
        decreases groups@.len() - i,
    {
        assert(all.take(i + 1).drop_last() =~= all.take(i as int));
        assert(all.take(i + 1).last() == all[i as int]);
        if let Some(name) = &groups[i].0 {
            let ghost before = captures_view(list@);
            let caught = match &groups[i].1 {
                Some(caught) => Some(caught.clone()),
                None => None,
            };
            list.push((name.clone(), caught));
            assert(captures_view(list@) =~= before.push((name@, all[i as int].1)));
        }
        i = i + 1;
    }
    assert(all.take(i as int) =~= all);
    Some(list)
}

/// Whether two bytes behind a percent sign at the place `i` a character ends, or there are not as
/// many.
pub open spec fn is_cut_between(s: Seq<char>, i: int) -> bool {
    0 <= i && i + 1 < s.len() && s[i] == '%' ==> {
        ||| writable::width(s[i + 1]) == 2
        ||| escape::is_ascii(s[i + 1]) && (i + 2 < s.len() ==> escape::is_ascii(s[i + 2]))
    }
}

/// Whether two bytes behind each percent sign a character ends, or there are not as many.
pub open spec fn has_whole_escapes(s: Seq<char>) -> bool {
    forall|i: int| #[trigger] is_cut_between(s, i)
}

/// Whether two bytes behind each percent sign a character ends, or there are not as many.
pub fn whole_escapes(s: &str) -> (are: bool)
    ensures
        are == has_whole_escapes(s@),
{
    let chars = chars_of(s);
    let mut i: usize = 0;
    while i < chars.len()
        invariant
            i <= chars@.len(),
            chars@ == s@,
            forall|k: int| k < i ==> #[trigger] is_cut_between(s@, k),
        decreases chars@.len() - i,
    {
        if chars[i] == '%' && i + 1 < chars.len() {
            let bytes = writable::width_of(chars[i + 1]);
            if bytes != 2 && (bytes != 1 || i + 2 < chars.len() && writable::width_of(chars[i + 2])
                != 1) {
                assert(!is_cut_between(s@, i as int));
                return false;
            }
        }
        assert(is_cut_between(s@, i as int));
        i = i + 1;
    }
    assert forall|k: int| #[trigger] is_cut_between(s@, k) by {}
    true
}

/// `iri_string::template::UriTemplateStr::new`: whether it takes the text, and what it says where
/// it does not, has a name. It cuts off two bytes behind a percent sign, so that no character goes
/// on there.
#[verifier::external_body]
pub(crate) fn check_template(template: &str) -> (checked: Result<(), String>)
    requires
        has_whole_escapes(template@),
    ensures
        is_checked(checked, uri_template_error(template@)),
{
    let checked = UriTemplateStr::new(template);
    checked.map(|_| ()).map_err(|error| format!("{error:?}"))
}

/// `iri_string::template::UriTemplateStr::expand_dynamic_to_string`, for IRIs: what it writes, or
/// what it says where it does not, has a name. It fails only where the first characters of a list or
/// of pairs are wanted. What is no expression it writes as it is. The text is one that
/// `UriTemplateStr::new` takes.
///
/// Where only the first characters of a value are wanted, it subtracts how far into the value the
/// last of them stands, in bytes, and how many are wanted fits sixteen bits. Behind `{+` and `{#` it
/// looks for escapes in a value: it takes a character that follows one, or that comes first, for one
/// byte, and it expects no character behind an ASCII one that it has left over from escapes that are
/// no UTF-8. The values are such that nothing of this goes wrong.
#[verifier::external_body]
pub(crate) fn expand_template(template: &str, vars: &Vec<(String, Given)>) -> (expanded: Result<
    String,
    String,
>)
    requires
        has_whole_escapes(template@),
        uri_template_error(template@) is None,
        writable::is_expandable(template@, given::givens(vars@)),
    ensures
        match expanded {
            Ok(s) => iri_expansion(template@, given::givens(vars@)) == Ok::<
                Seq<char>,
                Seq<char>,
            >(s@),
            Err(message) => iri_expansion(template@, given::givens(vars@)) == Err::<
                Seq<char>,
                Seq<char>,
            >(message@),
        },
        !template@.contains('{') ==> expanded is Ok && expanded->Ok_0@ == template@,
        expanded is Err ==> !given::are_texts(given::givens(vars@)),
{
    let mut context = SimpleContext::new();
    for (name, given) in vars {
        let value = match given {
            Given::Nothing => Value::Undefined,
            Given::Text(s) => Value::String(s.clone()),
            Given::List(items) => Value::List(items.clone()),
            Given::Pairs(items) => Value::Assoc(items.clone()),
        };
        context.insert(name.clone(), value);
    }
    let template = UriTemplateStr::new(template).expect("a template");
    let expanded = template.expand_dynamic_to_string::<IriSpec, _>(&mut context);
    expanded.map_err(|error| format!("{error:?}"))
}

/// `iri_string::types::IriReferenceString::try_from`: whether it takes the text, and what it says
/// where it does not, has a name. It keeps the text that it takes.
#[verifier::external_body]
pub(crate) fn into_iri_reference(iri: String) -> (checked: Result<String, String>)
    ensures
        is_checked(checked, iri_reference_error(iri@)),
        checked is Ok ==> checked->Ok_0@ == iri@,
{
    let checked = iri_string::types::IriReferenceString::try_from(iri);
    checked.map(|iri| iri.into()).map_err(|error| format!("{error:?}"))
}

} // verus!
