//! The route of a template takes the paths that the template writes.
use crate::laws;
use crate::parser::{Op, SpecOfExpression, SpecOfParsed, SpecOfPart, SpecOfVar, VarMod};
use crate::render;
use crate::ser;
use crate::single;
use crate::text;
use crate::FillPolicy;
use vstd::prelude::*;

verus! {

/// What one segment of a route takes of a segment of a path: `:name` takes any that is not empty,
/// and else the two are equal.
pub open spec fn taken_by_segment(pattern: Seq<char>, segment: Seq<char>) -> Option<
    Seq<(Seq<char>, Seq<char>)>,
> {
    if pattern.len() > 0 && pattern[0] == ':' {
        if segment.len() > 0 {
            Some(seq![(pattern.skip(1), segment)])
        } else {
            None
        }
    } else if pattern.len() > 0 && pattern[0] == '*' {
        None
    } else if pattern == segment {
        Some(Seq::empty())
    } else {
        None
    }
}

/// What the segments of a route take of those of a path, one by one.
pub open spec fn taken_by_segments(patterns: Seq<Seq<char>>, segments: Seq<Seq<char>>) -> Option<
    Seq<(Seq<char>, Seq<char>)>,
>
    decreases patterns.len(),
{
    if patterns.len() != segments.len() {
        None
    } else if patterns.len() == 0 {
        Some(Seq::empty())
    } else {
        match (
            taken_by_segments(patterns.drop_last(), segments.drop_last()),
            taken_by_segment(patterns.last(), segments.last()),
        ) {
            (Some(before), Some(own)) => Some(before + own),
            _ => None,
        }
    }
}

/// What a route takes of a path, with the names under which it does, if it takes the path: as segment
/// by segment, but that `*name` at the end takes all that is left.
pub open spec fn routed(route: Seq<char>, path: Seq<char>) -> Option<Seq<(Seq<char>, Seq<char>)>> {
    let patterns = text::split(route, '/');
    let segments = text::split(path, '/');
    let last = patterns.last();
    if last.len() > 0 && last[0] == '*' {
        let k = patterns.len() - 1;
        let rest = text::join(segments.skip(k), seq!['/']);
        if segments.len() < patterns.len() || rest.len() == 0 {
            None
        } else {
            match taken_by_segments(patterns.drop_last(), segments.take(k)) {
                Some(before) => Some(before.push((last.skip(1), rest))),
                None => None,
            }
        }
    } else {
        taken_by_segments(patterns, segments)
    }
}

/// Whether a text is a segment of a path that is not empty.
pub open spec fn is_segment(s: Seq<char>) -> bool {
    s.len() > 0 && !s.contains('/')
}

/// What an expression writes for one of its variables.
pub open spec fn value_at(
    e: SpecOfExpression,
    j: int,
    bindings: Map<Seq<char>, ser::SpecOfBinding>,
) -> Seq<char> {
    ser::value_text(e.operator, e.vars[j], bindings[e.vars[j].name])->Ok_0
}

/// What an expression writes.
pub open spec fn written(
    e: SpecOfExpression,
    policy: FillPolicy,
    bindings: Map<Seq<char>, ser::SpecOfBinding>,
) -> Seq<char> {
    ser::expansion(e, policy, bindings)->Ok_0
}

/// Where the first of the variables from `i` on stands that is exploded.
pub open spec fn first_exploded(vars: Seq<SpecOfVar>, i: int) -> int
    decreases vars.len() - i,
{
    if i < 0 || i >= vars.len() || vars[i].modifier == VarMod::Explode {
        i
    } else {
        first_exploded(vars, i + 1)
    }
}

/// Whether an expression writes a segment for each of its variables before the place `k`, and
/// something for all of them.
pub open spec fn has_segments(
    e: SpecOfExpression,
    k: int,
    bindings: Map<Seq<char>, ser::SpecOfBinding>,
) -> bool {
    &&& e.operator == Op::Path
    &&& forall|j: int|
        0 <= j < e.vars.len() ==> laws::is_written(e.operator, #[trigger] e.vars[j], bindings)
            && !e.vars[j].name.contains('/')
    &&& forall|j: int|
        0 <= j < k ==> is_segment(#[trigger] value_at(e, j, bindings)) && e.vars[j].modifier
            != VarMod::Explode
}

/// The texts that an expression writes for its variables from the place `k` on, with slashes between.
pub open spec fn rest_from(
    e: SpecOfExpression,
    k: int,
    bindings: Map<Seq<char>, ser::SpecOfBinding>,
) -> Seq<char> {
    text::join(laws::written_values(e, bindings).skip(k), seq!['/'])
}

/// Whether a part begins with a slash, whatever its variables have.
pub open spec fn begins_a_segment(part: SpecOfPart) -> bool {
    match part {
        SpecOfPart::Lit(l) => l.len() > 0 && l[0] == '/',
        SpecOfPart::Expression(_) => false,
        _ => true,
    }
}

/// Whether a part of a path fills whole segments: a literal holds no character that means something
/// in a route; an expression such as `{a}` stands between a slash and a slash or the end, and writes
/// one segment; one such as `{/a,b}` writes one for each variable; and one that takes what is left
/// stands at the end.
pub open spec fn fills_segments(
    parts: Seq<SpecOfPart>,
    i: int,
    policy: FillPolicy,
    bindings: Map<Seq<char>, ser::SpecOfBinding>,
) -> bool {
    let is_last = i + 1 == parts.len();
    match parts[i] {
        SpecOfPart::Lit(l) => !l.contains(':') && !l.contains('*'),
        SpecOfPart::Expression(e) => {
            &&& i > 0
            &&& parts[i - 1] matches SpecOfPart::Lit(l) && l.len() > 0 && l.last() == '/'
            &&& is_last || begins_a_segment(parts[i + 1])
            &&& e.vars.len() > 0
            &&& !e.vars[0].name.contains('/')
            &&& ser::expansion(e, policy, bindings) is Ok
            &&& is_segment(written(e, policy, bindings))
        },
        SpecOfPart::SegPathVar(e) => {
            &&& is_last || begins_a_segment(parts[i + 1])
            &&& e.vars.len() > 0
            &&& has_segments(e, e.vars.len() as int, bindings)
        },
        SpecOfPart::SegPathRest(e) => {
            let k = first_exploded(e.vars, 0);
            &&& is_last
            &&& k < e.vars.len()
            &&& has_segments(e, k, bindings)
            &&& rest_from(e, k, bindings).len() > 0
        },
        SpecOfPart::SegRest(e) => {
            &&& is_last
            &&& e.vars.len() > 0
            &&& e.vars[0].modifier == VarMod::Explode
            &&& !e.vars[0].name.contains('/')
            &&& ser::expansion(e, policy, bindings) is Ok
            &&& written(e, policy, bindings).len() > 0
        },
    }
}

/// Whether all the parts of a path fill whole segments.
pub open spec fn is_routable(
    parts: Seq<SpecOfPart>,
    policy: FillPolicy,
    bindings: Map<Seq<char>, ser::SpecOfBinding>,
) -> bool {
    forall|i: int| 0 <= i < parts.len() ==> #[trigger] fills_segments(parts, i, policy, bindings)
}

/// The names of the first variables of an expression, with what it writes for them.
pub open spec fn named_values(
    e: SpecOfExpression,
    count: int,
    bindings: Map<Seq<char>, ser::SpecOfBinding>,
) -> Seq<(Seq<char>, Seq<char>)> {
    Seq::new(count as nat, |j: int| (e.vars[j].name, value_at(e, j, bindings)))
}

/// The names of variables of a part, with what it writes for them.
pub open spec fn part_params(
    part: SpecOfPart,
    policy: FillPolicy,
    bindings: Map<Seq<char>, ser::SpecOfBinding>,
) -> Seq<(Seq<char>, Seq<char>)> {
    match part {
        SpecOfPart::Lit(_) => Seq::empty(),
        SpecOfPart::Expression(e) | SpecOfPart::SegRest(e) => seq![
            (e.vars[0].name, written(e, policy, bindings)),
        ],
        SpecOfPart::SegPathVar(e) => named_values(e, e.vars.len() as int, bindings),
        SpecOfPart::SegPathRest(e) => {
            let k = first_exploded(e.vars, 0);
            named_values(e, k, bindings).push((e.vars[k].name, rest_from(e, k, bindings)))
        },
    }
}

/// The names of variables of parts, with what these write for them.
pub open spec fn params_of(
    parts: Seq<SpecOfPart>,
    policy: FillPolicy,
    bindings: Map<Seq<char>, ser::SpecOfBinding>,
) -> Seq<(Seq<char>, Seq<char>)>
    decreases parts.len(),
{
    if parts.len() == 0 {
        Seq::empty()
    } else {
        params_of(parts.drop_last(), policy, bindings) + part_params(parts.last(), policy, bindings)
    }
}

/// Whether a route takes a path so far, with these parameters; `closed` says that the last segment
/// is a parameter.
spec fn is_aligned(
    route: Seq<char>,
    path: Seq<char>,
    params: Seq<(Seq<char>, Seq<char>)>,
    closed: bool,
) -> bool {
    let patterns = text::split(route, '/');
    let segments = text::split(path, '/');
    &&& patterns.len() > 0
    &&& patterns.len() == segments.len()
    &&& taken_by_segments(patterns, segments) == Some(params)
    &&& !closed ==> patterns.last() == segments.last() && !patterns.last().contains(':')
        && !patterns.last().contains('*')
    &&& closed ==> patterns.last().len() > 0 && patterns.last()[0] == ':'
}

proof fn lemma_nothing_is_aligned()
    ensures
        is_aligned(Seq::empty(), Seq::empty(), Seq::empty(), false),
{
    let nothing = Seq::<char>::empty();
    let one = seq![nothing];
    assert(text::split(nothing, '/') =~= one);
    assert(one.drop_last() =~= Seq::empty());
    assert(taken_by_segments(one, one) == Some(Seq::<(Seq<char>, Seq<char>)>::empty())) by {
        assert(taken_by_segments(one.drop_last(), one.drop_last()) == Some(
            Seq::<(Seq<char>, Seq<char>)>::empty(),
        ));
        assert(Seq::<(Seq<char>, Seq<char>)>::empty() + Seq::empty()
            =~= Seq::<(Seq<char>, Seq<char>)>::empty());
    }
}

proof fn lemma_append_char(
    route: Seq<char>,
    path: Seq<char>,
    params: Seq<(Seq<char>, Seq<char>)>,
    closed: bool,
    c: char,
)
    requires
        is_aligned(route, path, params, closed),
        c != ':',
        c != '*',
        closed ==> c == '/',
    ensures
        is_aligned(route.push(c), path.push(c), params, false),
{
    let patterns = text::split(route, '/');
    let segments = text::split(path, '/');
    let nothing = Seq::<char>::empty();
    let none = Seq::<(Seq<char>, Seq<char>)>::empty();
    assert(route.push(c).drop_last() =~= route);
    assert(path.push(c).drop_last() =~= path);
    assert(params + none =~= params);
    if c == '/' {
        assert(patterns.push(nothing).drop_last() =~= patterns);
        assert(segments.push(nothing).drop_last() =~= segments);
        assert(taken_by_segment(nothing, nothing) == Some(none));
    } else {
        let last = patterns.last();
        let longer = last.push(c);
        let before = taken_by_segments(patterns.drop_last(), segments.drop_last())->0;
        assert(!longer.contains(':') && !longer.contains('*')) by {
            assert forall|i: int| 0 <= i < longer.len() implies longer[i] != ':' && longer[i]
                != '*' by {
                if i < last.len() {
                    assert(last.contains(last[i]));
                }
            }
        }
        assert(longer.contains(longer[0]));
        if last.len() > 0 {
            assert(last.contains(last[0]));
        }
        assert(taken_by_segment(last, last) == Some(none));
        assert(taken_by_segment(longer, longer) == Some(none));
        assert(before + none =~= before);
        assert(patterns.drop_last().push(longer).drop_last() =~= patterns.drop_last());
        assert(segments.drop_last().push(longer).drop_last() =~= segments.drop_last());
    }
}

proof fn lemma_append_literal(
    route: Seq<char>,
    path: Seq<char>,
    params: Seq<(Seq<char>, Seq<char>)>,
    closed: bool,
    l: Seq<char>,
)
    requires
        is_aligned(route, path, params, closed),
        !l.contains(':'),
        !l.contains('*'),
        closed ==> l.len() > 0 && l[0] == '/',
    ensures
        is_aligned(route + l, path + l, params, false),
    decreases l.len(),
{
    if l.len() == 0 {
        assert(route + l =~= route);
        assert(path + l =~= path);
    } else {
        let before = l.drop_last();
        let c = l.last();
        assert(l.contains(l[l.len() - 1]));
        assert(route + l =~= (route + before).push(c));
        assert(path + l =~= (path + before).push(c));
        if before.len() == 0 {
            assert(route + before =~= route);
            assert(path + before =~= path);
            lemma_append_char(route, path, params, closed, c);
        } else {
            assert forall|i: int| 0 <= i < before.len() implies before[i] != ':' && before[i]
                != '*' by {
                assert(l.contains(l[i]));
            }
            lemma_append_literal(route, path, params, closed, before);
            lemma_append_char(route + before, path + before, params, false, c);
        }
    }
}

proof fn lemma_append_segment(
    route: Seq<char>,
    path: Seq<char>,
    params: Seq<(Seq<char>, Seq<char>)>,
    closed: bool,
    name: Seq<char>,
    value: Seq<char>,
)
    requires
        is_aligned(route, path, params, closed),
        !name.contains('/'),
        is_segment(value),
    ensures
        is_aligned(
            route + (seq!['/', ':'] + name),
            path + (seq!['/'] + value),
            params.push((name, value)),
            true,
        ),
{
    let patterns = text::split(route, '/');
    let segments = text::split(path, '/');
    let marked = seq![':'] + name;
    assert(!marked.contains('/')) by {
        assert forall|i: int| 0 <= i < marked.len() implies marked[i] != '/' by {
            if i > 0 {
                assert(name.contains(name[i - 1]));
            }
        }
    }
    text::lemma_split_of_two(route, marked, '/');
    text::lemma_split_of_two(path, value, '/');
    assert(route + (seq!['/', ':'] + name) =~= route.push('/') + marked);
    assert(path + (seq!['/'] + value) =~= path.push('/') + value);
    assert(patterns.push(marked).drop_last() =~= patterns);
    assert(segments.push(value).drop_last() =~= segments);
    assert(marked.skip(1) =~= name);
    assert(params + seq![(name, value)] =~= params.push((name, value)));
}

proof fn lemma_fill_segment(
    route: Seq<char>,
    path: Seq<char>,
    params: Seq<(Seq<char>, Seq<char>)>,
    name: Seq<char>,
    value: Seq<char>,
)
    requires
        is_aligned(route, path, params, false),
        route.len() > 0,
        route.last() == '/',
        path.len() > 0,
        path.last() == '/',
        !name.contains('/'),
        is_segment(value),
    ensures
        is_aligned(
            route + (seq![':'] + name),
            path + value,
            params.push((name, value)),
            true,
        ),
{
    let route_before = route.drop_last();
    let path_before = path.drop_last();
    let nothing = Seq::<char>::empty();
    let none = Seq::<(Seq<char>, Seq<char>)>::empty();
    let patterns = text::split(route_before, '/');
    let segments = text::split(path_before, '/');
    text::law_join_undoes_split(route_before, '/');
    text::law_join_undoes_split(path_before, '/');
    assert(text::split(route, '/') == patterns.push(nothing));
    assert(text::split(path, '/') == segments.push(nothing));
    assert(patterns.push(nothing).drop_last() =~= patterns);
    assert(segments.push(nothing).drop_last() =~= segments);
    let before = taken_by_segments(patterns, segments)->0;
    assert(taken_by_segment(nothing, nothing) == Some(none));
    assert(before + none =~= before);
    let marked = seq![':'] + name;
    assert(!marked.contains('/')) by {
        assert forall|i: int| 0 <= i < marked.len() implies marked[i] != '/' by {
            if i > 0 {
                assert(name.contains(name[i - 1]));
            }
        }
    }
    text::lemma_split_of_two(route_before, marked, '/');
    text::lemma_split_of_two(path_before, value, '/');
    assert(route + marked =~= route_before.push('/') + marked);
    assert(path + value =~= path_before.push('/') + value);
    assert(patterns.push(marked).drop_last() =~= patterns);
    assert(segments.push(value).drop_last() =~= segments);
    assert(marked.skip(1) =~= name);
    assert(params + seq![(name, value)] =~= params.push((name, value)));
}

proof fn lemma_take_rest(
    route: Seq<char>,
    path: Seq<char>,
    params: Seq<(Seq<char>, Seq<char>)>,
    closed: bool,
    name: Seq<char>,
    rest: Seq<char>,
)
    requires
        is_aligned(route, path, params, closed),
        !name.contains('/'),
        rest.len() > 0,
    ensures
        routed(route + (seq!['/', '*'] + name), path + (seq!['/'] + rest)) == Some(
            params.push((name, rest)),
        ),
{
    let patterns = text::split(route, '/');
    let segments = text::split(path, '/');
    let marked = seq!['*'] + name;
    assert(!marked.contains('/')) by {
        assert forall|i: int| 0 <= i < marked.len() implies marked[i] != '/' by {
            if i > 0 {
                assert(name.contains(name[i - 1]));
            }
        }
    }
    text::lemma_split_of_two(route, marked, '/');
    text::law_split_concat(path, rest, '/');
    text::law_join_undoes_split(rest, '/');
    assert(route + (seq!['/', '*'] + name) =~= route.push('/') + marked);
    assert(path + (seq!['/'] + rest) =~= path.push('/') + rest);
    let all = segments + text::split(rest, '/');
    assert(all.skip(segments.len() as int) =~= text::split(rest, '/'));
    assert(all.take(segments.len() as int) =~= segments);
    assert(patterns.push(marked).drop_last() =~= patterns);
    assert(marked.skip(1) =~= name);
}

/// The segments of an expression's values from one place to another.
spec fn segments_between(
    e: SpecOfExpression,
    i: int,
    k: int,
    bindings: Map<Seq<char>, ser::SpecOfBinding>,
) -> Seq<char>
    decreases k - i,
{
    if i >= k {
        Seq::empty()
    } else {
        segments_between(e, i, k - 1, bindings) + (seq!['/'] + value_at(e, k - 1, bindings))
    }
}

/// The part of a route for an expression's variables from the first to the place `k`.
spec fn route_before(e: SpecOfExpression, k: int) -> Seq<char>
    decreases k,
{
    if k <= 0 {
        Seq::empty()
    } else {
        route_before(e, k - 1) + (seq!['/', ':'] + e.vars[k - 1].name)
    }
}

proof fn lemma_path_route(e: SpecOfExpression, k: int)
    requires
        0 <= k <= e.vars.len(),
        forall|j: int| 0 <= j < k ==> (#[trigger] e.vars[j]).modifier != VarMod::Explode,
    ensures
        render::path_route(e.vars, 0) == route_before(e, k) + render::path_route(e.vars, k),
    decreases k,
{
    if k == 0 {
        assert(route_before(e, 0) + render::path_route(e.vars, 0) =~= render::path_route(
            e.vars,
            0,
        ));
    } else {
        lemma_path_route(e, k - 1);
        assert(e.vars[k - 1].modifier != VarMod::Explode);
        assert(route_before(e, k - 1) + (seq!['/', ':'] + e.vars[k - 1].name + render::path_route(
            e.vars,
            k,
        )) =~= route_before(e, k) + render::path_route(e.vars, k));
    }
}

proof fn lemma_append_segments(
    route: Seq<char>,
    path: Seq<char>,
    params: Seq<(Seq<char>, Seq<char>)>,
    closed: bool,
    e: SpecOfExpression,
    k: int,
    bindings: Map<Seq<char>, ser::SpecOfBinding>,
)
    requires
        is_aligned(route, path, params, closed),
        0 <= k <= e.vars.len(),
        has_segments(e, k, bindings),
    ensures
        is_aligned(
            route + route_before(e, k),
            path + segments_between(e, 0, k, bindings),
            params + named_values(e, k, bindings),
            closed || k > 0,
        ),
    decreases k,
{
    if k == 0 {
        assert(route + route_before(e, 0) =~= route);
        assert(path + segments_between(e, 0, 0, bindings) =~= path);
        assert(params + named_values(e, 0, bindings) =~= params);
    } else {
        lemma_append_segments(route, path, params, closed, e, k - 1, bindings);
        let name = e.vars[k - 1].name;
        let value = value_at(e, k - 1, bindings);
        assert(is_segment(value));
        lemma_append_segment(
            route + route_before(e, k - 1),
            path + segments_between(e, 0, k - 1, bindings),
            params + named_values(e, k - 1, bindings),
            closed || k - 1 > 0,
            name,
            value,
        );
        assert(route + route_before(e, k) =~= route + route_before(e, k - 1) + (seq!['/', ':']
            + name));
        assert(path + segments_between(e, 0, k, bindings) =~= path + segments_between(
            e,
            0,
            k - 1,
            bindings,
        ) + (seq!['/'] + value));
        assert(params + named_values(e, k, bindings) =~= (params + named_values(
            e,
            k - 1,
            bindings,
        )).push((name, value)));
    }
}

proof fn lemma_written_segments(
    e: SpecOfExpression,
    k: int,
    bindings: Map<Seq<char>, ser::SpecOfBinding>,
)
    requires
        0 < k <= e.vars.len(),
    ensures
        seq!['/'] + text::join(laws::written_values(e, bindings).take(k), seq!['/'])
            == segments_between(e, 0, k, bindings),
    decreases k,
{
    let values = laws::written_values(e, bindings);
    if k == 1 {
        assert(values.take(1) =~= seq![values[0]]);
        assert(segments_between(e, 0, 0, bindings) =~= Seq::empty());
        assert(segments_between(e, 0, 1, bindings) =~= seq!['/'] + values[0]);
    } else {
        lemma_written_segments(e, k - 1, bindings);
        assert(values.take(k).drop_last() =~= values.take(k - 1));
        assert(values.take(k).last() == value_at(e, k - 1, bindings));
        assert(seq!['/'] + text::join(values.take(k), seq!['/']) =~= segments_between(
            e,
            0,
            k,
            bindings,
        ));
    }
}

/// What an expression such as `{/a,b}` writes is a segment for each of its variables.
proof fn lemma_path_expansion(
    e: SpecOfExpression,
    k: int,
    policy: FillPolicy,
    bindings: Map<Seq<char>, ser::SpecOfBinding>,
)
    requires
        0 <= k <= e.vars.len(),
        e.vars.len() > 0,
        has_segments(e, k, bindings),
    ensures
        ser::expansion(e, policy, bindings) is Ok,
        written(e, policy, bindings) == segments_between(e, 0, k, bindings) + (if k
            < e.vars.len() {
            seq!['/'] + rest_from(e, k, bindings)
        } else {
            Seq::empty()
        }),
{
    let values = laws::written_values(e, bindings);
    let n = e.vars.len() as int;
    laws::law_full_expansion(e, policy, bindings);
    assert(values.take(n) =~= values);
    if k == n {
        lemma_written_segments(e, n, bindings);
        assert(segments_between(e, 0, k, bindings) + Seq::<char>::empty() =~= segments_between(
            e,
            0,
            k,
            bindings,
        ));
    } else if k == 0 {
        assert(values.skip(0) =~= values);
        assert(segments_between(e, 0, 0, bindings) + (seq!['/'] + rest_from(e, 0, bindings))
            =~= seq!['/'] + rest_from(e, 0, bindings));
    } else {
        lemma_written_segments(e, k, bindings);
        text::law_join_concat(values.take(k), values.skip(k), seq!['/']);
        assert(values.take(k) + values.skip(k) =~= values);
        assert(written(e, policy, bindings) =~= segments_between(e, 0, k, bindings) + (seq!['/']
            + rest_from(e, k, bindings)));
    }
}

proof fn lemma_first_exploded(vars: Seq<SpecOfVar>, i: int)
    requires
        0 <= i <= vars.len(),
    ensures
        i <= first_exploded(vars, i) <= vars.len(),
        forall|j: int|
            i <= j < first_exploded(vars, i) ==> (#[trigger] vars[j]).modifier != VarMod::Explode,
        first_exploded(vars, i) < vars.len() ==> vars[first_exploded(vars, i)].modifier
            == VarMod::Explode,
    decreases vars.len() - i,
{
    if i < vars.len() && vars[i].modifier != VarMod::Explode {
        lemma_first_exploded(vars, i + 1);
    }
}

/// The route for the first parts of a path.
spec fn route_so_far(parts: Seq<SpecOfPart>, n: int) -> Seq<char> {
    render::concat_parts(parts.take(n), |part: SpecOfPart| render::part_route(part))
}

proof fn lemma_one_more_part(parts: Seq<SpecOfPart>, n: int)
    requires
        0 <= n < parts.len(),
    ensures
        route_so_far(parts, n + 1) == route_so_far(parts, n) + render::part_route(parts[n]),
        parts.take(n + 1).drop_last() == parts.take(n),
        parts.take(n + 1).last() == parts[n],
{
    assert(parts.take(n + 1).drop_last() =~= parts.take(n));
}

proof fn lemma_so_far(
    parts: Seq<SpecOfPart>,
    n: int,
    policy: FillPolicy,
    bindings: Map<Seq<char>, ser::SpecOfBinding>,
)
    requires
        0 <= n <= parts.len(),
        is_routable(parts, policy, bindings),
        forall|i: int|
            0 <= i < n ==> !(#[trigger] parts[i] is SegRest) && !(parts[i] is SegPathRest),
    ensures
        ser::parts_expansion(parts.take(n), policy, bindings) is Ok,
        is_aligned(
            route_so_far(parts, n),
            ser::parts_expansion(parts.take(n), policy, bindings)->Ok_0,
            params_of(parts.take(n), policy, bindings),
            n > 0 && !(parts[n - 1] is Lit),
        ),
    decreases n,
{
    if n == 0 {
        assert(parts.take(0) =~= Seq::empty());
        lemma_nothing_is_aligned();
    } else {
        let k = n - 1;
        lemma_so_far(parts, k, policy, bindings);
        lemma_one_more_part(parts, k);
        assert(fills_segments(parts, k, policy, bindings));
        assert(!(parts[k] is SegRest) && !(parts[k] is SegPathRest));
        let route = route_so_far(parts, k);
        let path = ser::parts_expansion(parts.take(k), policy, bindings)->Ok_0;
        let params = params_of(parts.take(k), policy, bindings);
        let closed = k > 0 && !(parts[k - 1] is Lit);
        if k > 0 {
            assert(fills_segments(parts, k - 1, policy, bindings));
            assert(!(parts[k - 1] is SegRest) && !(parts[k - 1] is SegPathRest));
        }
        match parts[k] {
            SpecOfPart::Lit(l) => {
                lemma_append_literal(route, path, params, closed, l);
                assert(params + Seq::<(Seq<char>, Seq<char>)>::empty() =~= params);
            },
            SpecOfPart::Expression(e) => {
                let l = parts[k - 1]->Lit_0;
                let value = written(e, policy, bindings);
                lemma_one_more_part(parts, k - 1);
                assert(route.last() == l.last());
                assert(path.last() == l.last());
                lemma_fill_segment(route, path, params, e.vars[0].name, value);
                assert(params + part_params(parts[k], policy, bindings) =~= params.push(
                    (e.vars[0].name, value),
                ));
            },
            SpecOfPart::SegPathVar(e) => {
                let count = e.vars.len() as int;
                lemma_append_segments(route, path, params, closed, e, count, bindings);
                assert forall|j: int| 0 <= j < count implies (#[trigger] e.vars[j]).modifier
                    != VarMod::Explode by {
                    assert(is_segment(value_at(e, j, bindings)));
                }
                lemma_path_route(e, count);
                assert(route_before(e, count) + render::path_route(e.vars, count) =~= route_before(
                    e,
                    count,
                ));
                lemma_path_expansion(e, count, policy, bindings);
                assert(written(e, policy, bindings) =~= segments_between(e, 0, count, bindings));
            },
            _ => {},
        }
    }
}

proof fn lemma_not_the_rest(
    route: Seq<char>,
    path: Seq<char>,
    params: Seq<(Seq<char>, Seq<char>)>,
    closed: bool,
)
    requires
        is_aligned(route, path, params, closed),
    ensures
        routed(route, path) == Some(params),
{
    let last = text::split(route, '/').last();
    if last.len() > 0 && last[0] == '*' {
        assert(last.contains(last[0]));
    }
}

/// The route of a template takes the paths that the template writes, if its parts fill whole segments:
/// each literal segment is there, and each other one is taken under the name of the variable that
/// wrote it, and what is left under the name of the first that is exploded.
pub proof fn law_route_takes_what_is_written(
    template: SpecOfParsed,
    policy: FillPolicy,
    bindings: Map<Seq<char>, ser::SpecOfBinding>,
)
    requires
        is_routable(template.path, policy, bindings),
    ensures
        ser::parts_expansion(template.path, policy, bindings) matches Ok(path) && routed(
            single::route_of(template),
            path,
        ) == Some(params_of(template.path, policy, bindings)),
{
    let parts = template.path;
    let n = parts.len() as int;
    let route = single::route_of(template);
    assert(parts.take(n) =~= parts);
    if n == 0 || !(parts[n - 1] is SegRest) && !(parts[n - 1] is SegPathRest) {
        assert forall|i: int| 0 <= i < n implies !(#[trigger] parts[i] is SegRest) && !(
        parts[i] is SegPathRest) by {
            assert(fills_segments(parts, i, policy, bindings));
        }
        lemma_so_far(parts, n, policy, bindings);
        lemma_not_the_rest(
            route,
            ser::parts_expansion(parts, policy, bindings)->Ok_0,
            params_of(parts, policy, bindings),
            n > 0 && !(parts[n - 1] is Lit),
        );
    } else {
        let k = n - 1;
        assert forall|i: int| 0 <= i < k implies !(#[trigger] parts[i] is SegRest) && !(
        parts[i] is SegPathRest) by {
            assert(fills_segments(parts, i, policy, bindings));
        }
        lemma_so_far(parts, k, policy, bindings);
        lemma_one_more_part(parts, k);
        assert(fills_segments(parts, k, policy, bindings));
        let before = route_so_far(parts, k);
        let path = ser::parts_expansion(parts.take(k), policy, bindings)->Ok_0;
        let params = params_of(parts.take(k), policy, bindings);
        let closed = k > 0 && !(parts[k - 1] is Lit);
        match parts[k] {
            SpecOfPart::SegPathRest(e) => {
                let at = first_exploded(e.vars, 0);
                lemma_first_exploded(e.vars, 0);
                lemma_append_segments(before, path, params, closed, e, at, bindings);
                lemma_path_route(e, at);
                lemma_path_expansion(e, at, policy, bindings);
                let name = e.vars[at].name;
                let rest = rest_from(e, at, bindings);
                assert(laws::is_written(e.operator, e.vars[at], bindings));
                lemma_take_rest(
                    before + route_before(e, at),
                    path + segments_between(e, 0, at, bindings),
                    params + named_values(e, at, bindings),
                    closed || at > 0,
                    name,
                    rest,
                );
                assert(route =~= before + route_before(e, at) + (seq!['/', '*'] + name));
                assert(ser::parts_expansion(parts, policy, bindings)->Ok_0 =~= path
                    + segments_between(e, 0, at, bindings) + (seq!['/'] + rest));
                assert(params_of(parts, policy, bindings) =~= (params + named_values(
                    e,
                    at,
                    bindings,
                )).push((name, rest)));
            },
            SpecOfPart::SegRest(e) => {
                let name = e.vars[0].name;
                let rest = written(e, policy, bindings);
                lemma_take_rest(before, path, params, closed, name, rest);
                assert(route =~= before + (seq!['/', '*'] + name));
                assert(ser::parts_expansion(parts, policy, bindings)->Ok_0 =~= path + (seq!['/']
                    + rest));
                assert(params_of(parts, policy, bindings) =~= params.push((name, rest)));
            },
            _ => {},
        }
    }
}

/// The route of an expression such as `{/a,b}` names each of its variables, in order, up to the
/// first that is exploded, and that one: whatever values they have.
pub proof fn law_route_names_the_variables(e: SpecOfExpression)
    requires
        e.vars.len() > 0,
        forall|j: int| 0 <= j < e.vars.len() ==> !(#[trigger] e.vars[j]).name.contains('/'),
    ensures
        ({
            let k = first_exploded(e.vars, 0);
            let names = text::split(render::path_route(e.vars, 0), '/');
            &&& names.len() == (if k < e.vars.len() {
                k + 2
            } else {
                k + 1
            })
            &&& names[0].len() == 0
            &&& forall|j: int|
                0 <= j < k ==> names[j + 1] == seq![':'] + (#[trigger] e.vars[j]).name
            &&& k < e.vars.len() ==> names[k + 1] == seq!['*'] + e.vars[k].name
        }),
{
    let k = first_exploded(e.vars, 0);
    lemma_first_exploded(e.vars, 0);
    lemma_route_segments(e, k);
    lemma_path_route(e, k);
    if k < e.vars.len() {
        let marked = seq!['*'] + e.vars[k].name;
        assert(!marked.contains('/')) by {
            assert forall|i: int| 0 <= i < marked.len() implies marked[i] != '/' by {
                if i > 0 {
                    assert(e.vars[k].name.contains(e.vars[k].name[i - 1]));
                }
            }
        }
        text::lemma_split_of_two(route_before(e, k), marked, '/');
        assert(render::path_route(e.vars, 0) =~= route_before(e, k).push('/') + marked);
    } else {
        assert(render::path_route(e.vars, 0) =~= route_before(e, k));
    }
}

proof fn lemma_route_segments(e: SpecOfExpression, k: int)
    requires
        0 <= k <= e.vars.len(),
        forall|j: int| 0 <= j < e.vars.len() ==> !(#[trigger] e.vars[j]).name.contains('/'),
    ensures
        text::split(route_before(e, k), '/').len() == k + 1,
        text::split(route_before(e, k), '/')[0].len() == 0,
        forall|j: int|
            0 <= j < k ==> text::split(route_before(e, k), '/')[j + 1] == seq![':'] + (
            #[trigger] e.vars[j]).name,
    decreases k,
{
    if k > 0 {
        lemma_route_segments(e, k - 1);
        let name = e.vars[k - 1].name;
        let marked = seq![':'] + name;
        assert(!marked.contains('/')) by {
            assert forall|i: int| 0 <= i < marked.len() implies marked[i] != '/' by {
                if i > 0 {
                    assert(name.contains(name[i - 1]));
                }
            }
        }
        text::lemma_split_of_two(route_before(e, k - 1), marked, '/');
        assert(route_before(e, k) =~= route_before(e, k - 1).push('/') + marked);
    }
}

} // verus!
