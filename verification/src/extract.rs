//! Routes that are found from the place at which another one is nested.
use crate::text;
use crate::text::{join_texts, same_text, split_text};
use vstd::prelude::*;

verus! {

broadcast use crate::text::texts_push;

/// A route, and the path under which it is nested.
#[derive(Debug)]
pub struct NestedRoute<R> {
    pub nested_path: String,
    pub nick: R,
}

/// The segments once one that is relative to them has been followed.
pub open spec fn step(segments: Seq<Seq<char>>, relative: Seq<char>) -> Seq<Seq<char>> {
    if relative == ".."@ {
        if segments.len() > 0 {
            segments.drop_last()
        } else {
            segments
        }
    } else if relative == "."@ || relative == ""@ {
        segments
    } else {
        segments.push(relative)
    }
}

/// The segments once those that are relative to them have been followed, one after the other.
pub open spec fn steps(segments: Seq<Seq<char>>, relative: Seq<Seq<char>>) -> Seq<Seq<char>>
    decreases relative.len(),
{
    if relative.len() == 0 {
        segments
    } else {
        step(steps(segments, relative.drop_last()), relative.last())
    }
}

/// The path that is `rel` from the path `nested`.
pub open spec fn nested(nested: Seq<char>, rel: Seq<char>) -> Seq<char> {
    if rel == ""@ || rel == "."@ {
        nested
    } else {
        text::join(steps(text::split(nested, '/'), text::split(rel, '/')), seq!['/'])
    }
}

/// The path that is `rel` from the path `nested`.
pub fn nest_rel(nested: &str, rel: &str) -> (path: String)
    ensures
        path@ == self::nested(nested@, rel@),
{
    if same_text(rel, "") || same_text(rel, ".") {
        return nested.to_owned();
    }
    let mut parts = split_text(nested, '/');
    let relative = split_text(rel, '/');
    let ghost start = text::texts(parts@);
    let ghost all = text::texts(relative@);
    let mut i: usize = 0;
    assert(all.take(0) =~= Seq::empty());
    while i < relative.len()
        invariant
            i <= relative@.len(),
            all == text::texts(relative@),
            text::texts(parts@) == steps(start, all.take(i as int)),
        decreases relative@.len() - i,
    {
        assert(all.take(i + 1).drop_last() =~= all.take(i as int));
        assert(all.take(i + 1).last() == all[i as int]);
        let ghost before = text::texts(parts@);
        if same_text(&relative[i], "..") {
            let _ = parts.pop();
            assert(text::texts(parts@) =~= if before.len() > 0 {
                before.drop_last()
            } else {
                before
            });
        } else if !same_text(&relative[i], ".") && !same_text(&relative[i], "") {
            parts.push(relative[i].clone());
        }
        i = i + 1;
    }
    assert(all.take(i as int) =~= all);
    join_texts(&parts, &text::char_text('/'))
}

impl<R> NestedRoute<R> {
    /// The default of another kind of route, nested `rel` from this one.
    pub fn default_relative_route<N: Default>(&self, rel: &str) -> (route: NestedRoute<N>)
        ensures
            route.nested_path@ == nested(self.nested_path@, rel@),
            call_ensures(N::default, (), route.nick),
    {
        NestedRoute { nested_path: nest_rel(&self.nested_path, rel), nick: N::default() }
    }

    /// Another route, nested `rel` from this one.
    pub fn relative_route<N>(&self, rel: &str, nick: N) -> (route: NestedRoute<N>)
        ensures
            route.nested_path@ == nested(self.nested_path@, rel@),
            route.nick == nick,
    {
        NestedRoute { nested_path: nest_rel(&self.nested_path, rel), nick }
    }
}

/// A segment that is followed and left again leads back.
pub proof fn law_there_and_back(path: Seq<char>, segment: Seq<char>)
    requires
        !segment.contains('/'),
        segment != ""@,
        segment != "."@,
        segment != ".."@,
    ensures
        nested(path, segment.push('/') + ".."@) == path,
{
    reveal_strlit("..");
    reveal_strlit(".");
    reveal_strlit("");
    let rel = segment.push('/') + ".."@;
    assert(rel.len() >= 3);
    assert(!".."@.contains('/'));
    text::lemma_split_of_two(segment, ".."@, '/');
    text::lemma_split_of_one(segment, '/');
    let start = text::split(path, '/');
    let list = text::split(rel, '/');
    assert(list =~= seq![segment, ".."@]);
    assert(list.drop_last() =~= seq![segment]);
    assert(list.drop_last().drop_last() =~= Seq::empty());
    assert(steps(start, list.drop_last().drop_last()) == start);
    assert(steps(start, list.drop_last()) == start.push(segment));
    assert(steps(start, list) =~= start);
    text::law_join_undoes_split(path, '/');
}

/// One segment is followed by putting it behind a slash.
pub proof fn law_one_segment(path: Seq<char>, segment: Seq<char>)
    requires
        !segment.contains('/'),
        segment != ""@,
        segment != "."@,
        segment != ".."@,
    ensures
        nested(path, segment) == path.push('/') + segment,
{
    text::lemma_split_of_one(segment, '/');
    let start = text::split(path, '/');
    let list = seq![segment];
    assert(list.drop_last() =~= Seq::empty());
    assert(steps(start, list.drop_last()) == start);
    text::law_join_undoes_split(path, '/');
    let all = start.push(segment);
    assert(all.drop_last() =~= start);
    assert(text::join(all, seq!['/']) =~= path.push('/') + segment);
}

proof fn lemma_steps_concat(
    segments: Seq<Seq<char>>,
    a: Seq<Seq<char>>,
    b: Seq<Seq<char>>,
)
    ensures
        steps(segments, a + b) == steps(steps(segments, a), b),
    decreases b.len(),
{
    if b.len() == 0 {
        assert(a + b =~= a);
    } else {
        lemma_steps_concat(segments, a, b.drop_last());
        assert((a + b).drop_last() =~= a + b.drop_last());
    }
}

proof fn lemma_steps_clean(segments: Seq<Seq<char>>, relative: Seq<Seq<char>>, i: int)
    requires
        forall|k: int| 0 <= k < segments.len() ==> !(#[trigger] segments[k]).contains('/'),
        forall|k: int| 0 <= k < relative.len() ==> !(#[trigger] relative[k]).contains('/'),
        0 <= i < steps(segments, relative).len(),
    ensures
        !steps(segments, relative)[i].contains('/'),
    decreases relative.len(),
{
    if relative.len() > 0 {
        let fewer = relative.drop_last();
        let before = steps(segments, fewer);
        assert forall|k: int| 0 <= k < fewer.len() implies !(#[trigger] fewer[k]).contains('/') by {
            assert(fewer[k] == relative[k]);
        }
        if i < before.len() {
            lemma_steps_clean(segments, fewer, i);
        } else {
            assert(!relative[relative.len() - 1].contains('/'));
        }
    }
}

proof fn lemma_standing_still(segments: Seq<Seq<char>>, rel: Seq<char>)
    requires
        rel == ""@ || rel == "."@,
    ensures
        steps(segments, text::split(rel, '/')) == segments,
{
    reveal_strlit("..");
    reveal_strlit(".");
    reveal_strlit("");
    assert(!rel.contains('/'));
    text::lemma_split_of_one(rel, '/');
    let list = text::split(rel, '/');
    assert(list.drop_last() =~= Seq::empty());
    assert(steps(segments, list.drop_last()) == segments);
    assert(list.last() == rel);
    assert(rel.len() < 2);
}

/// Whether a path leads to the same place from an empty segment as from none at all.
pub open spec fn is_rooted(rel: Seq<char>) -> bool {
    let relative = text::split(rel, '/');
    text::join(steps(seq![Seq::empty()], relative), seq!['/']) == text::join(
        steps(Seq::empty(), relative),
        seq!['/'],
    )
}

/// Nesting at one path and then at another from there is nesting at the two with a slash between
/// them.
///
/// Where the first leaves no segment at all, the second leads to the same place only if it does so
/// from an empty segment too.
pub proof fn law_nesting_adds_up(path: Seq<char>, a: Seq<char>, b: Seq<char>)
    requires
        steps(text::split(path, '/'), text::split(a, '/')).len() > 0 || is_rooted(b),
    ensures
        nested(nested(path, a), b) == nested(path, a.push('/') + b),
{
    reveal_strlit("..");
    reveal_strlit(".");
    reveal_strlit("");
    let start = text::split(path, '/');
    let first = text::split(a, '/');
    let second = text::split(b, '/');
    let middle = steps(start, first);
    let rel = a.push('/') + b;
    assert(rel[a.len() as int] == '/');
    assert(rel != ""@ && rel != "."@) by {
        assert(rel.len() > 0);
        if rel == "."@ {
            assert(rel[0] == '.');
        }
    }
    text::law_split_concat(a, b, '/');
    lemma_steps_concat(start, first, second);
    assert(nested(path, rel) == text::join(steps(middle, second), seq!['/']));
    assert forall|k: int| 0 <= k < start.len() implies !(#[trigger] start[k]).contains('/') by {
        text::law_split_is_clean(path, '/', k);
    }
    assert forall|k: int| 0 <= k < first.len() implies !(#[trigger] first[k]).contains('/') by {
        text::law_split_is_clean(a, '/', k);
    }
    assert forall|k: int| 0 <= k < middle.len() implies !(#[trigger] middle[k]).contains('/') by {
        lemma_steps_clean(start, first, k);
    }
    let between = nested(path, a);
    if a == ""@ || a == "."@ {
        lemma_standing_still(start, a);
        text::law_join_undoes_split(path, '/');
    }
    assert(between == text::join(middle, seq!['/']));
    if b == ""@ || b == "."@ {
        lemma_standing_still(middle, b);
    } else if middle.len() > 0 {
        text::law_split_undoes_join(middle, '/');
    } else {
        assert(middle =~= Seq::empty());
        assert(between =~= Seq::empty());
        assert(text::split(between, '/') =~= seq![Seq::empty()]);
    }
}

} // verus!
