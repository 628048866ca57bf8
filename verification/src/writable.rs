//! Which values `iri-string` can write into a template without a panic.
use crate::escape;
use crate::given;
use crate::given::{Given, SpecOfGiven};
use crate::primitive::Primitive;
use crate::text;
use crate::text::{chars_of, same_text, split_text, text_between};
use vstd::prelude::*;

verus! {

/// What escapes that stand one behind the other have come to.
#[derive(Clone, Copy, Debug)]
pub enum Held {
    /// They make whole characters, or what follows does not go with them.
    Nothing,
    /// The last `len` of them begin a character that `need` more end, the next of which is in a range.
    Begun { need: u8, low: u8, high: u8, len: u8 },
    /// The last of them did not go with those before it.
    Left(u8),
}

/// What one more escape does.
#[derive(Clone, Copy, Debug)]
pub enum Step {
    /// It ends a character, and what is held with it is written.
    Whole,
    /// It does not end one yet.
    Part(Held),
    /// So many escapes are written, as they make no character, and something is left.
    Broken(u8, Held),
    /// It does not go with an ASCII character that is left.
    Stuck,
}

/// How many bytes follow one with which a character of several bytes begins, and in which range the
/// next of them is.
pub open spec fn after_first(b: u8) -> Option<(u8, u8, u8)> {
    if 0xc2 <= b <= 0xdf {
        Some((1, 0x80, 0xbf))
    } else if b == 0xe0 {
        Some((2, 0xa0, 0xbf))
    } else if b == 0xed {
        Some((2, 0x80, 0x9f))
    } else if 0xe1 <= b <= 0xef {
        Some((2, 0x80, 0xbf))
    } else if b == 0xf0 {
        Some((3, 0x90, 0xbf))
    } else if 0xf1 <= b <= 0xf3 {
        Some((3, 0x80, 0xbf))
    } else if b == 0xf4 {
        Some((3, 0x80, 0x8f))
    } else {
        None
    }
}

/// What a byte does where a character has begun.
pub open spec fn step_within(need: u8, low: u8, high: u8, len: u8, b: u8) -> Step {
    if !(low <= b <= high) {
        Step::Broken(len, Held::Left(b))
    } else if need <= 1 {
        Step::Whole
    } else {
        Step::Part(
            Held::Begun { need: (need - 1) as u8, low: 0x80, high: 0xbf, len: (len + 1) as u8 },
        )
    }
}

/// What the escape of a byte does.
pub open spec fn step(held: Held, b: u8) -> Step {
    match held {
        Held::Nothing => match after_first(b) {
            Some((need, low, high)) => Step::Part(Held::Begun { need, low, high, len: 1 }),
            None => if b < 0x80 {
                Step::Whole
            } else {
                Step::Broken(1, Held::Nothing)
            },
        },
        Held::Begun { need, low, high, len } => step_within(need, low, high, len, b),
        Held::Left(a) => match after_first(a) {
            Some((need, low, high)) => step_within(need, low, high, 1, b),
            None => if a >= 0x80 {
                Step::Broken(1, Held::Left(b))
            } else if b < 0x80 {
                Step::Whole
            } else {
                Step::Stuck
            },
        },
    }
}

/// How many escapes are held.
pub open spec fn held_len(held: Held) -> int {
    match held {
        Held::Nothing => 0,
        Held::Begun { need: _, low: _, high: _, len } => len as int,
        Held::Left(_) => 1,
    }
}

/// The value of a character that is a hexadecimal digit.
pub open spec fn hex_of(c: char) -> Option<u8> {
    if escape::is_ascii(c) {
        escape::hex_value(c as u8)
    } else {
        None
    }
}

/// How many hexadecimal digits stand from the place `i` on, up to two.
pub open spec fn digits_at(v: Seq<char>, i: int) -> int {
    if i >= v.len() || hex_of(v[i]) is None {
        0
    } else if i + 1 >= v.len() || hex_of(v[i + 1]) is None {
        1
    } else {
        2
    }
}

/// The byte whose escape two digits make.
pub open spec fn byte_at(v: Seq<char>, i: int) -> u8 {
    (hex_of(v[i])->0 * 16 + hex_of(v[i + 1])->0) as u8
}

/// Where the next percent sign stands, or the end.
pub open spec fn run_end(v: Seq<char>, i: int) -> int
    decreases v.len() - i,
{
    if i < 0 || i >= v.len() || v[i] == '%' {
        i
    } else {
        run_end(v, i + 1)
    }
}

/// A run ends within the text.
pub proof fn lemma_run_end(v: Seq<char>, i: int)
    requires
        0 <= i <= v.len(),
    ensures
        i <= run_end(v, i) <= v.len(),
    decreases v.len() - i,
{
    if i < v.len() && v[i] != '%' {
        lemma_run_end(v, i + 1);
    }
}

/// How many bytes the UTF-8 of a character has.
pub open spec fn width(c: char) -> int {
    if c <= '\u{7f}' {
        1
    } else if c <= '\u{7ff}' {
        2
    } else if c <= '\u{ffff}' {
        3
    } else {
        4
    }
}

/// How many bytes the UTF-8 of a stretch of a text has.
pub open spec fn byte_len(v: Seq<char>, from: int, to: int) -> int
    decreases to - from,
{
    if to <= from {
        0
    } else {
        byte_len(v, from, to - 1) + width(v[to - 1])
    }
}

/// What is left of a limit, if there is one.
pub open spec fn less(limit: Option<int>, n: int) -> Option<int> {
    match limit {
        None => None,
        Some(m) => if n < m {
            Some(m - n)
        } else {
            Some(0)
        },
    }
}

/// How far into a run of `len` characters the last one stands that is within a limit, in bytes.
pub open spec fn last_within(v: Seq<char>, from: int, len: int, limit: Option<int>) -> int {
    match limit {
        Some(m) if m < len => byte_len(v, from, from + m - 1),
        _ => byte_len(v, from, from + len - 1),
    }
}

/// Whether a value can be written from the place `i` on, where reserved characters and escapes stay
/// as they are, and no more than `limit` characters are wanted.
///
/// A character that is not ASCII must not come first, nor behind an escape or a part of one. From
/// the limit, it is taken how far into a run of other characters the last one stands that is wanted,
/// in bytes: that must not be more than the limit. Nothing is read once the limit is used up.
pub open spec fn is_writable_from(v: Seq<char>, i: int, held: Held, limit: Option<int>) -> bool
    decreases v.len() - i,
{
    if i < 0 || i >= v.len() {
        true
    } else if v[i] == '%' {
        let count = digits_at(v, i + 1);
        if count == 2 {
            match step(held, byte_at(v, i + 1)) {
                Step::Stuck => false,
                Step::Part(next) => is_writable_from(v, i + 3, next, limit),
                Step::Whole => limit == Some(0int) || is_writable_from(
                    v,
                    i + 3,
                    Held::Nothing,
                    less(limit, 1),
                ),
                Step::Broken(n, next) => limit == Some(0int) || is_writable_from(
                    v,
                    i + 3,
                    next,
                    less(limit, n as int),
                ),
            }
        } else if i + 1 + count >= v.len() {
            true
        } else {
            let rest = less(limit, held_len(held));
            ||| limit == Some(0int)
            ||| rest == Some(0int)
            ||| count == 1 && rest == Some(1int)
            ||| escape::is_ascii(v[i + 1 + count]) && is_writable_from(
                v,
                i + 1 + count,
                Held::Nothing,
                less(rest, 1),
            )
        }
    } else {
        proof {
            lemma_run_end(v, i + 1);
        }
        let rest = if held is Begun {
            less(limit, held_len(held))
        } else {
            limit
        };
        let end = run_end(v, i + 1);
        let taken = last_within(v, i, end - i, rest);
        ||| limit == Some(0int)
        ||| escape::is_ascii(v[i]) && (rest == Some(0int) || (rest matches Some(m) ==> taken <= m)
            && is_writable_from(v, end, Held::Nothing, less(rest, taken)))
    }
}

/// Whether a value can be written, of which no more than `limit` characters are wanted.
///
/// Where reserved characters are escaped, the last one that is wanted must not stand farther into
/// the value than the limit, in bytes.
pub open spec fn is_writable(lets_reserved: bool, limit: Option<int>, v: Seq<char>) -> bool {
    if lets_reserved {
        is_writable_from(v, 0, Held::Nothing, limit)
    } else {
        limit matches Some(m) ==> m == 0 || v.len() == 0 || last_within(
            v,
            0,
            v.len() as int,
            limit,
        ) < m
    }
}

/// The expressions of a template, without their braces.
pub open spec fn bodies(template: Seq<char>) -> Seq<Seq<char>> {
    let stretches = text::split(template, '{');
    Seq::new(
        (stretches.len() - 1) as nat,
        |k: int| text::split(stretches[k + 1], '}')[0],
    )
}

/// Whether a character is an operator of an expression.
pub open spec fn is_operator(c: char) -> bool {
    c == '+' || c == '#' || c == '.' || c == '/' || c == ';' || c == '?' || c == '&'
}

/// The variables of an expression, as they stand in it.
pub open spec fn specs_of(body: Seq<char>) -> Seq<Seq<char>> {
    text::split(
        if body.len() > 0 && is_operator(body[0]) {
            body.skip(1)
        } else {
            body
        },
        ',',
    )
}

/// Whether an expression lets reserved characters through.
pub open spec fn lets_reserved(body: Seq<char>) -> bool {
    body.len() > 0 && (body[0] == '+' || body[0] == '#')
}

/// The name of a variable.
pub open spec fn name_of(spec: Seq<char>) -> Seq<char> {
    if spec.len() > 0 && spec.last() == '*' {
        spec.drop_last()
    } else {
        text::split(spec, ':')[0]
    }
}

/// Whether the items of a list can be written.
pub open spec fn are_texts_writable(lets_reserved: bool, items: Seq<Seq<char>>) -> bool {
    forall|i: int|
        0 <= i < items.len() ==> is_writable(lets_reserved, None, #[trigger] items[i])
}

/// Whether the names and the values of pairs can be written.
pub open spec fn are_pairs_writable(
    lets_reserved: bool,
    items: Seq<(Seq<char>, Seq<char>)>,
) -> bool {
    forall|i: int|
        0 <= i < items.len() ==> is_writable(lets_reserved, None, (#[trigger] items[i]).0)
            && is_writable(lets_reserved, None, items[i].1)
}

/// Whether a value can be written for a variable. Where no more than `limit` characters of it are
/// wanted, a list is refused before anything of it is written, and so are pairs.
pub open spec fn is_given_writable(
    lets_reserved: bool,
    limit: Option<int>,
    value: SpecOfGiven,
) -> bool {
    match value {
        SpecOfGiven::Nothing => true,
        SpecOfGiven::Text(v) => is_writable(lets_reserved, limit, v),
        SpecOfGiven::List(items) => limit is None ==> are_texts_writable(lets_reserved, items),
        SpecOfGiven::Pairs(items) => limit is None ==> are_pairs_writable(lets_reserved, items),
    }
}

/// Whether a value can be written for a variable, of which no more than 65535 characters are wanted.
pub open spec fn is_spec_writable(
    lets_reserved: bool,
    spec: Seq<char>,
    value: SpecOfGiven,
) -> bool {
    let pieces = text::split(spec, ':');
    if pieces.len() < 2 {
        is_given_writable(lets_reserved, None, value)
    } else {
        match u16::read(pieces[1]) {
            None => false,
            Some(n) => is_given_writable(lets_reserved, Some(n as int), value),
        }
    }
}

/// Whether the values can be written for a variable, which wants no more than 65535 characters.
pub open spec fn are_writable(
    lets_reserved: bool,
    spec: Seq<char>,
    vars: Seq<(Seq<char>, SpecOfGiven)>,
) -> bool {
    &&& is_spec_writable(lets_reserved, spec, SpecOfGiven::Nothing)
    &&& forall|i: int|
        0 <= i < vars.len() && (#[trigger] vars[i]).0 == name_of(spec) ==> is_spec_writable(
            lets_reserved,
            spec,
            vars[i].1,
        )
}

/// Whether the values can be written into an expression.
pub open spec fn is_body_expandable(body: Seq<char>, vars: Seq<(Seq<char>, SpecOfGiven)>) -> bool {
    forall|j: int|
        0 <= j < specs_of(body).len() ==> are_writable(
            lets_reserved(body),
            #[trigger] specs_of(body)[j],
            vars,
        )
}

/// Whether the values can be written into all the expressions of a template.
pub open spec fn is_expandable(template: Seq<char>, vars: Seq<(Seq<char>, SpecOfGiven)>) -> bool {
    forall|k: int|
        0 <= k < bodies(template).len() ==> is_body_expandable(
            #[trigger] bodies(template)[k],
            vars,
        )
}

/// Anything can be written into a template without expressions.
pub proof fn law_no_expression_is_expandable(
    template: Seq<char>,
    vars: Seq<(Seq<char>, SpecOfGiven)>,
)
    requires
        !template.contains('{'),
    ensures
        is_expandable(template, vars),
{
    text::lemma_split_of_one(template, '{');
}

/// What is left of a limit, in the code.
pub open spec fn limit_view(limit: Option<u32>) -> Option<int> {
    match limit {
        None => None,
        Some(m) => Some(m as int),
    }
}

fn bytes_after_first(b: u8) -> (found: Option<(u8, u8, u8)>)
    ensures
        found == after_first(b),
{
    if 0xc2 <= b && b <= 0xdf {
        Some((1, 0x80, 0xbf))
    } else if b == 0xe0 {
        Some((2, 0xa0, 0xbf))
    } else if b == 0xed {
        Some((2, 0x80, 0x9f))
    } else if 0xe1 <= b && b <= 0xef {
        Some((2, 0x80, 0xbf))
    } else if b == 0xf0 {
        Some((3, 0x90, 0xbf))
    } else if 0xf1 <= b && b <= 0xf3 {
        Some((3, 0x80, 0xbf))
    } else if b == 0xf4 {
        Some((3, 0x80, 0x8f))
    } else {
        None
    }
}

/// Whether a character that has begun ends within four bytes.
spec fn is_short(held: Held) -> bool {
    held matches Held::Begun { need, low: _, high: _, len } ==> need + len <= 4
}

fn next_within(need: u8, low: u8, high: u8, len: u8, b: u8) -> (next: Step)
    requires
        need + len <= 4,
    ensures
        next == step_within(need, low, high, len, b),
        next matches Step::Part(held) ==> is_short(held),
{
    if !(low <= b && b <= high) {
        Step::Broken(len, Held::Left(b))
    } else if need <= 1 {
        Step::Whole
    } else {
        Step::Part(Held::Begun { need: need - 1, low: 0x80, high: 0xbf, len: len + 1 })
    }
}

fn next_step(held: Held, b: u8) -> (next: Step)
    requires
        is_short(held),
    ensures
        next == step(held, b),
        next matches Step::Part(held) ==> is_short(held),
        next matches Step::Broken(_, held) ==> is_short(held),
{
    match held {
        Held::Nothing => match bytes_after_first(b) {
            Some((need, low, high)) => Step::Part(Held::Begun { need, low, high, len: 1 }),
            None => if b < 0x80 {
                Step::Whole
            } else {
                Step::Broken(1, Held::Nothing)
            },
        },
        Held::Begun { need, low, high, len } => next_within(need, low, high, len, b),
        Held::Left(a) => match bytes_after_first(a) {
            Some((need, low, high)) => next_within(need, low, high, 1, b),
            None => if a >= 0x80 {
                Step::Broken(1, Held::Left(b))
            } else if b < 0x80 {
                Step::Whole
            } else {
                Step::Stuck
            },
        },
    }
}

fn ascii(c: char) -> (is: bool)
    ensures
        is == escape::is_ascii(c),
{
    '\0' <= c && c <= '\u{7f}'
}

fn value_of_hex(c: char) -> (value: Option<u8>)
    ensures
        value == hex_of(c),
        value matches Some(d) ==> d < 16,
{
    if !ascii(c) {
        return None;
    }
    let b: u8 = c as u8;
    if '0' as u8 <= b && b <= '9' as u8 {
        Some(b - '0' as u8)
    } else if 'A' as u8 <= b && b <= 'F' as u8 {
        Some(b - 'A' as u8 + 10)
    } else if 'a' as u8 <= b && b <= 'f' as u8 {
        Some(b - 'a' as u8 + 10)
    } else {
        None
    }
}

fn count_digits(chars: &Vec<char>, i: usize) -> (count: usize)
    requires
        i <= chars@.len(),
    ensures
        count == digits_at(chars@, i as int),
        i + count <= chars@.len(),
        count <= 2,
{
    if i >= chars.len() || value_of_hex(chars[i]).is_none() {
        0
    } else if i + 1 >= chars.len() || value_of_hex(chars[i + 1]).is_none() {
        1
    } else {
        2
    }
}

fn escaped_byte(chars: &Vec<char>, i: usize) -> (b: u8)
    requires
        i + 1 < chars.len(),
        digits_at(chars@, i as int) == 2,
    ensures
        b == byte_at(chars@, i as int),
{
    match (value_of_hex(chars[i]), value_of_hex(chars[i + 1])) {
        (Some(high), Some(low)) => high * 16 + low,
        _ => 0,
    }
}

fn end_of_run(chars: &Vec<char>, from: usize) -> (end: usize)
    requires
        from <= chars@.len(),
    ensures
        end == run_end(chars@, from as int),
        from <= end <= chars@.len(),
{
    let mut end: usize = from;
    while end < chars.len() && chars[end] != '%'
        invariant
            from <= end <= chars@.len(),
            run_end(chars@, from as int) == run_end(chars@, end as int),
        decreases chars@.len() - end,
    {
        end = end + 1;
    }
    end
}

/// How many bytes the UTF-8 of a character has.
pub fn width_of(c: char) -> (bytes: u32)
    ensures
        bytes == width(c),
        1 <= bytes <= 4,
        bytes == 1 <==> escape::is_ascii(c),
{
    if c <= '\u{7f}' {
        1
    } else if c <= '\u{7ff}' {
        2
    } else if c <= '\u{ffff}' {
        3
    } else {
        4
    }
}

/// How far into a run the last character stands that is within a limit, in bytes.
fn bytes_within(chars: &Vec<char>, from: usize, len: usize, limit: u32) -> (taken: u32)
    requires
        from + len <= chars@.len(),
        0 < len,
        0 < limit <= 65535,
    ensures
        taken == last_within(chars@, from as int, len as int, Some(limit as int)),
{
    let count: usize = if (limit as usize) < len {
        limit as usize - 1
    } else {
        len - 1
    };
    let mut taken: u32 = 0;
    let mut i: usize = 0;
    while i < count
        invariant
            i <= count < 65535,
            from + count < chars.len(),
            taken == byte_len(chars@, from as int, from + i),
            taken <= 4 * i,
        decreases count - i,
    {
        taken = taken + width_of(chars[from + i]);
        i = i + 1;
    }
    taken
}

fn limit_less(limit: Option<u32>, n: u32) -> (rest: Option<u32>)
    ensures
        limit_view(rest) == less(limit_view(limit), n as int),
        rest matches Some(r) ==> limit matches Some(m) && r <= m,
{
    match limit {
        None => None,
        Some(m) => if n < m {
            Some(m - n)
        } else {
            Some(0)
        },
    }
}

fn used_up(limit: Option<u32>) -> (is: bool)
    ensures
        is == (limit_view(limit) == Some(0int)),
{
    match limit {
        None => false,
        Some(m) => m == 0,
    }
}

fn count_held(held: Held) -> (len: u32)
    ensures
        len == held_len(held),
{
    match held {
        Held::Nothing => 0,
        Held::Begun { need: _, low: _, high: _, len } => len as u32,
        Held::Left(_) => 1,
    }
}

fn has_begun(held: Held) -> (has: bool)
    ensures
        has == (held is Begun),
{
    match held {
        Held::Begun { need: _, low: _, high: _, len: _ } => true,
        _ => false,
    }
}

fn writable_with_reserved(chars: &Vec<char>, wanted: Option<u32>) -> (is: bool)
    requires
        wanted matches Some(m) ==> m <= 65535,
    ensures
        is == is_writable_from(chars@, 0, Held::Nothing, limit_view(wanted)),
{
    let ghost v = chars@;
    let mut held = Held::Nothing;
    let mut limit = wanted;
    let mut i: usize = 0;
    while i < chars.len()
        invariant
            i <= chars@.len(),
            v == chars@,
            limit matches Some(m) ==> m <= 65535,
            is_short(held),
            is_writable_from(v, 0, Held::Nothing, limit_view(wanted)) == is_writable_from(
                v,
                i as int,
                held,
                limit_view(limit),
            ),
        decreases chars@.len() - i,
    {
        if chars[i] == '%' {
            let count = count_digits(chars, i + 1);
            if count == 2 {
                match next_step(held, escaped_byte(chars, i + 1)) {
                    Step::Stuck => {
                        return false;
                    },
                    Step::Part(next) => {
                        held = next;
                    },
                    Step::Whole => {
                        if used_up(limit) {
                            return true;
                        }
                        limit = limit_less(limit, 1);
                        held = Held::Nothing;
                    },
                    Step::Broken(n, next) => {
                        if used_up(limit) {
                            return true;
                        }
                        limit = limit_less(limit, n as u32);
                        held = next;
                    },
                }
                i = i + 3;
            } else if i + 1 + count >= chars.len() {
                return true;
            } else {
                let rest = limit_less(limit, count_held(held));
                if used_up(limit) || used_up(rest) {
                    return true;
                }
                let next = limit_less(rest, 1);
                if count == 1 && used_up(next) {
                    return true;
                }
                if !ascii(chars[i + 1 + count]) {
                    return false;
                }
                limit = next;
                held = Held::Nothing;
                i = i + 1 + count;
            }
        } else {
            if used_up(limit) {
                return true;
            }
            if !ascii(chars[i]) {
                return false;
            }
            let rest = if has_begun(held) {
                limit_less(limit, count_held(held))
            } else {
                limit
            };
            if used_up(rest) {
                return true;
            }
            let end = end_of_run(chars, i + 1);
            if let Some(m) = rest {
                let taken = bytes_within(chars, i, end - i, m);
                if taken > m {
                    return false;
                }
                limit = limit_less(rest, taken);
            } else {
                limit = None;
            }
            held = Held::Nothing;
            i = end;
        }
    }
    true
}

fn writable(lets_reserved: bool, limit: Option<u32>, value: &str) -> (is: bool)
    requires
        limit matches Some(m) ==> m <= 65535,
    ensures
        is == is_writable(lets_reserved, limit_view(limit), value@),
{
    let chars = chars_of(value);
    if lets_reserved {
        return writable_with_reserved(&chars, limit);
    }
    match limit {
        None => true,
        Some(m) => m == 0 || chars.len() == 0 || bytes_within(&chars, 0, chars.len(), m) < m,
    }
}

fn texts_writable(lets_reserved: bool, items: &Vec<String>) -> (are: bool)
    ensures
        are == are_texts_writable(lets_reserved, text::texts(items@)),
{
    let ghost all = text::texts(items@);
    let mut i: usize = 0;
    while i < items.len()
        invariant
            i <= items@.len(),
            all == text::texts(items@),
            forall|j: int| 0 <= j < i ==> is_writable(lets_reserved, None, #[trigger] all[j]),
        decreases items@.len() - i,
    {
        if !writable(lets_reserved, None, &items[i]) {
            assert(!is_writable(lets_reserved, None, all[i as int]));
            return false;
        }
        i = i + 1;
    }
    true
}

fn pairs_writable(lets_reserved: bool, items: &Vec<(String, String)>) -> (are: bool)
    ensures
        are == are_pairs_writable(lets_reserved, text::text_pairs(items@)),
{
    let ghost all = text::text_pairs(items@);
    let mut i: usize = 0;
    while i < items.len()
        invariant
            i <= items@.len(),
            all == text::text_pairs(items@),
            forall|j: int|
                0 <= j < i ==> is_writable(lets_reserved, None, (#[trigger] all[j]).0)
                    && is_writable(lets_reserved, None, all[j].1),
        decreases items@.len() - i,
    {
        let key = writable(lets_reserved, None, &items[i].0);
        let value = writable(lets_reserved, None, &items[i].1);
        assert(all[i as int] == (items@[i as int].0@, items@[i as int].1@));
        if !key || !value {
            return false;
        }
        i = i + 1;
    }
    true
}

fn given_writable(lets_reserved: bool, limit: Option<u32>, value: &Given) -> (is: bool)
    requires
        limit matches Some(m) ==> m <= 65535,
    ensures
        is == is_given_writable(lets_reserved, limit_view(limit), value@),
{
    match value {
        Given::Nothing => true,
        Given::Text(v) => writable(lets_reserved, limit, v),
        Given::List(items) => limit.is_some() || texts_writable(lets_reserved, items),
        Given::Pairs(items) => limit.is_some() || pairs_writable(lets_reserved, items),
    }
}

fn spec_writable(lets_reserved: bool, spec: &str, value: &Given) -> (is: bool)
    ensures
        is == is_spec_writable(lets_reserved, spec@, value@),
{
    let pieces = split_text(spec, ':');
    if pieces.len() < 2 {
        assert(text::split(spec@, ':').len() < 2);
        return given_writable(lets_reserved, None, value);
    }
    assert(text::split(spec@, ':')[1] == pieces@[1]@);
    match u16::parse_value(&pieces[1]) {
        None => false,
        Some(n) => given_writable(lets_reserved, Some(n as u32), value),
    }
}

fn spec_name(spec: &str) -> (name: String)
    ensures
        name@ == name_of(spec@),
{
    let chars = chars_of(spec);
    if chars.len() > 0 && chars[chars.len() - 1] == '*' {
        let name = text_between(&chars, 0, chars.len() - 1);
        assert(name@ =~= spec@.drop_last());
        return name;
    }
    proof {
        text::law_join_undoes_split(spec@, ':');
    }
    let pieces = split_text(spec, ':');
    assert(text::split(spec@, ':')[0] == pieces@[0]@);
    pieces[0].clone()
}

fn all_writable(lets_reserved: bool, spec: &str, vars: &Vec<(String, Given)>) -> (are: bool)
    ensures
        are == are_writable(lets_reserved, spec@, given::givens(vars@)),
{
    let ghost all = given::givens(vars@);
    if !spec_writable(lets_reserved, spec, &Given::Nothing) {
        return false;
    }
    let name = spec_name(spec);
    let mut i: usize = 0;
    while i < vars.len()
        invariant
            i <= vars@.len(),
            all == given::givens(vars@),
            name@ == name_of(spec@),
            forall|j: int|
                0 <= j < i && (#[trigger] all[j]).0 == name_of(spec@) ==> is_spec_writable(
                    lets_reserved,
                    spec@,
                    all[j].1,
                ),
        decreases vars@.len() - i,
    {
        assert(all[i as int] == (vars@[i as int].0@, vars@[i as int].1@));
        if same_text(&vars[i].0, &name) && !spec_writable(lets_reserved, spec, &vars[i].1) {
            assert(!is_spec_writable(lets_reserved, spec@, all[i as int].1));
            return false;
        }
        i = i + 1;
    }
    true
}

fn body_expandable(body: &str, vars: &Vec<(String, Given)>) -> (is: bool)
    ensures
        is == is_body_expandable(body@, given::givens(vars@)),
{
    let chars = chars_of(body);
    let mut reserved = false;
    let mut start: usize = 0;
    if chars.len() > 0 {
        let c = chars[0];
        reserved = c == '+' || c == '#';
        if reserved || c == '.' || c == '/' || c == ';' || c == '?' || c == '&' {
            start = 1;
        }
    }
    let rest = text_between(&chars, start, chars.len());
    assert(rest@ =~= if body@.len() > 0 && is_operator(body@[0]) {
        body@.skip(1)
    } else {
        body@
    });
    let specs = split_text(&rest, ',');
    let mut j: usize = 0;
    while j < specs.len()
        invariant
            j <= specs@.len(),
            text::texts(specs@) == specs_of(body@),
            reserved == lets_reserved(body@),
            forall|k: int|
                0 <= k < j ==> are_writable(
                    lets_reserved(body@),
                    #[trigger] specs_of(body@)[k],
                    given::givens(vars@),
                ),
        decreases specs@.len() - j,
    {
        assert(specs_of(body@)[j as int] == specs@[j as int]@);
        if !all_writable(reserved, &specs[j], vars) {
            return false;
        }
        j = j + 1;
    }
    assert(specs_of(body@).len() == specs@.len());
    true
}

/// Whether the values can be written into all the expressions of a template.
pub fn expandable(template: &str, vars: &Vec<(String, Given)>) -> (is: bool)
    ensures
        is == is_expandable(template@, given::givens(vars@)),
{
    let stretches = split_text(template, '{');
    let ghost all = text::split(template@, '{');
    let mut k: usize = 1;
    while k < stretches.len()
        invariant
            1 <= k,
            all == text::split(template@, '{'),
            text::texts(stretches@) == all,
            forall|i: int|
                0 <= i < k - 1 && i < bodies(template@).len() ==> is_body_expandable(
                    #[trigger] bodies(template@)[i],
                    given::givens(vars@),
                ),
        decreases stretches@.len() - k,
    {
        proof {
            text::law_join_undoes_split(all[k as int], '}');
        }
        let pieces = split_text(&stretches[k], '}');
        assert(text::split(all[k as int], '}')[0] == pieces@[0]@);
        assert(bodies(template@)[k - 1] == pieces@[0]@);
        if !body_expandable(&pieces[0], vars) {
            return false;
        }
        k = k + 1;
    }
    proof {
        text::law_join_undoes_split(template@, '{');
    }
    assert(all.len() == stretches@.len());
    true
}

} // verus!
