//! Operations on texts, that is on sequences of characters.
use vstd::prelude::*;

verus! {

/// `std::string::String::push`: appends the character to the text.
pub assume_specification[ String::push ](s: &mut String, c: char)
    ensures
        final(s)@ == old(s)@.push(c),
;

/// The texts that a list of strings holds.
pub open spec fn texts(list: Seq<String>) -> Seq<Seq<char>> {
    Seq::new(list.len(), |i: int| list[i]@)
}

/// The texts of a list that grows by one string.
pub broadcast proof fn texts_push(list: Seq<String>, text: String)
    ensures
        #[trigger] texts(list.push(text)) == texts(list).push(text@),
{
    assert(texts(list.push(text)) =~= texts(list).push(text@));
}

/// The texts that a list of pairs of strings holds.
pub open spec fn text_pairs(list: Seq<(String, String)>) -> Seq<(Seq<char>, Seq<char>)> {
    Seq::new(list.len(), |i: int| (list[i].0@, list[i].1@))
}

/// The texts of a list that grows by one pair.
pub broadcast proof fn text_pairs_push(list: Seq<(String, String)>, pair: (String, String))
    ensures
        #[trigger] text_pairs(list.push(pair)) == text_pairs(list).push((pair.0@, pair.1@)),
{
    assert(text_pairs(list.push(pair)) =~= text_pairs(list).push((pair.0@, pair.1@)));
}

/// The text of an optional string.
pub open spec fn text_of_option(text: Option<String>) -> Option<Seq<char>> {
    match text {
        Some(s) => Some(s@),
        None => None,
    }
}

/// The digit `d`, for `d` below ten.
pub open spec fn digit(d: nat) -> char {
    (('0' as u32) + d) as u32 as char
}

/// `n` written in decimal, without leading zeros.
pub open spec fn decimal(n: nat) -> Seq<char>
    decreases n,
{
    if n < 10 {
        seq![digit(n)]
    } else {
        decimal(n / 10).push(digit(n % 10))
    }
}

/// `n` written in decimal, with a sign where it is negative.
pub open spec fn signed(n: int) -> Seq<char> {
    if n < 0 {
        seq!['-'] + decimal((-n) as nat)
    } else {
        decimal(n as nat)
    }
}

/// The texts of `list`, one after the other, with `separator` between them.
pub open spec fn join(list: Seq<Seq<char>>, separator: Seq<char>) -> Seq<char>
    decreases list.len(),
{
    if list.len() == 0 {
        Seq::empty()
    } else if list.len() == 1 {
        list[0]
    } else {
        join(list.drop_last(), separator) + separator + list.last()
    }
}

/// The stretches of `text` between the occurrences of `c`.
pub open spec fn split(text: Seq<char>, c: char) -> Seq<Seq<char>>
    decreases text.len(),
{
    if text.len() == 0 {
        seq![Seq::empty()]
    } else {
        let before = split(text.drop_last(), c);
        if text.last() == c {
            before.push(Seq::empty())
        } else {
            before.drop_last().push(before.last().push(text.last()))
        }
    }
}

/// Whether `text` begins with `start`.
pub open spec fn begins_with(text: Seq<char>, start: Seq<char>) -> bool {
    start.len() <= text.len() && text.take(start.len() as int) == start
}

/// Joining with a character undoes splitting at it.
pub proof fn law_join_undoes_split(text: Seq<char>, c: char)
    ensures
        split(text, c).len() > 0,
        join(split(text, c), seq![c]) == text,
    decreases text.len(),
{
    if text.len() > 0 {
        let before = split(text.drop_last(), c);
        law_join_undoes_split(text.drop_last(), c);
        assert(text == text.drop_last().push(text.last()));
        if text.last() == c {
            let all = before.push(Seq::empty());
            assert(all.drop_last() == before);
            assert(join(all, seq![c]) == text);
        } else {
            let all = before.drop_last().push(before.last().push(text.last()));
            assert(all.drop_last() == before.drop_last());
            assert(join(all, seq![c]) == text);
        }
    }
}

/// A text that ends in `c` and another one is split into what the first is split into and the other.
pub proof fn lemma_split_of_two(a: Seq<char>, b: Seq<char>, c: char)
    requires
        !b.contains(c),
    ensures
        split(a.push(c) + b, c) == split(a, c).push(b),
    decreases b.len(),
{
    let whole = a.push(c) + b;
    if b.len() == 0 {
        assert(whole.drop_last() =~= a);
        assert(b =~= Seq::empty());
    } else {
        let shorter = b.drop_last();
        assert(!shorter.contains(c)) by {
            if shorter.contains(c) {
                let i = choose|i: int| 0 <= i < shorter.len() && shorter[i] == c;
                assert(b[i] == c);
            }
        }
        lemma_split_of_two(a, shorter, c);
        assert(whole.drop_last() =~= a.push(c) + shorter);
        assert(b[b.len() - 1] != c);
        let before = split(a, c);
        assert(before.push(shorter).drop_last() =~= before);
        assert(shorter.push(b.last()) =~= b);
    }
}

/// A text without `c` is split into itself.
pub proof fn lemma_split_of_one(s: Seq<char>, c: char)
    requires
        !s.contains(c),
    ensures
        split(s, c) == seq![s],
    decreases s.len(),
{
    if s.len() == 0 {
        assert(s =~= Seq::empty());
        assert(split(s, c) =~= seq![s]);
    } else {
        let shorter = s.drop_last();
        assert(!shorter.contains(c)) by {
            if shorter.contains(c) {
                let i = choose|i: int| 0 <= i < shorter.len() && shorter[i] == c;
                assert(s[i] == c);
            }
        }
        lemma_split_of_one(shorter, c);
        assert(s[s.len() - 1] != c);
        assert(shorter.push(s.last()) =~= s);
        assert(split(s, c) =~= seq![s]);
    }
}

/// Splitting at a character undoes joining with it, if no text of the list holds it.
pub proof fn law_split_undoes_join(list: Seq<Seq<char>>, c: char)
    requires
        list.len() > 0,
        forall|i: int| 0 <= i < list.len() ==> !(#[trigger] list[i]).contains(c),
    ensures
        split(join(list, seq![c]), c) == list,
    decreases list.len(),
{
    assert(!list[list.len() - 1].contains(c));
    if list.len() == 1 {
        lemma_split_of_one(list[0], c);
        assert(list =~= seq![list[0]]);
    } else {
        let before = list.drop_last();
        assert forall|i: int| 0 <= i < before.len() implies !(#[trigger] before[i]).contains(c) by {
            assert(before[i] == list[i]);
        }
        law_split_undoes_join(before, c);
        lemma_split_of_two(join(before, seq![c]), list.last(), c);
        assert(join(list, seq![c]) =~= join(before, seq![c]).push(c) + list.last());
        assert(before.push(list.last()) =~= list);
    }
}

/// A text that is made of two with `c` between them is split into what both are split into.
pub proof fn law_split_concat(a: Seq<char>, b: Seq<char>, c: char)
    ensures
        split(a.push(c) + b, c) == split(a, c) + split(b, c),
    decreases b.len(),
{
    let whole = a.push(c) + b;
    law_join_undoes_split(a, c);
    law_join_undoes_split(b, c);
    if b.len() == 0 {
        assert(whole =~= a.push(c));
        assert(whole.drop_last() =~= a);
        assert(split(whole, c) =~= split(a, c) + split(b, c));
    } else {
        law_split_concat(a, b.drop_last(), c);
        law_join_undoes_split(b.drop_last(), c);
        assert(whole.drop_last() =~= a.push(c) + b.drop_last());
        assert(split(whole, c) =~= split(a, c) + split(b, c));
    }
}

/// None of the stretches into which a text is split holds what it is split at.
pub proof fn law_split_is_clean(text: Seq<char>, c: char, i: int)
    requires
        0 <= i < split(text, c).len(),
    ensures
        !split(text, c)[i].contains(c),
    decreases text.len(),
{
    if text.len() > 0 {
        let before = split(text.drop_last(), c);
        law_join_undoes_split(text.drop_last(), c);
        if text.last() == c {
            if i < before.len() {
                law_split_is_clean(text.drop_last(), c, i);
            }
        } else {
            law_split_is_clean(text.drop_last(), c, i);
            if i == before.len() - 1 {
                let last = before.last();
                let longer = last.push(text.last());
                if longer.contains(c) {
                    let k = choose|k: int| 0 <= k < longer.len() && longer[k] == c;
                    assert(last[k] == c);
                }
            }
        }
    }
}

/// Two lists that are joined one after the other, with the separator between them, are joined.
pub proof fn law_join_concat(a: Seq<Seq<char>>, b: Seq<Seq<char>>, separator: Seq<char>)
    requires
        a.len() > 0,
        b.len() > 0,
    ensures
        join(a + b, separator) == join(a, separator) + separator + join(b, separator),
    decreases b.len(),
{
    let all = a + b;
    assert(all.drop_last() =~= a + b.drop_last());
    if b.len() == 1 {
        assert(a + b.drop_last() =~= a);
    } else {
        law_join_concat(a, b.drop_last(), separator);
        assert(join(all, separator) =~= join(a, separator) + separator + join(b, separator));
    }
}

/// What two texts begin with, the one of which begins with the other, the longer begins with.
pub proof fn law_begins_with(long: Seq<char>, middle: Seq<char>, short: Seq<char>)
    ensures
        begins_with(long, long),
        begins_with(long, middle) && begins_with(middle, short) ==> begins_with(long, short),
        begins_with(long, middle) && begins_with(long, short) ==> begins_with(middle, short)
            || begins_with(short, middle),
        begins_with(long, short) && begins_with(short, long) ==> long == short,
{
    assert(long.take(long.len() as int) =~= long);
    if begins_with(long, middle) && begins_with(middle, short) {
        assert(long.take(short.len() as int) =~= middle.take(short.len() as int));
    }
    if begins_with(long, middle) && begins_with(long, short) {
        if short.len() <= middle.len() {
            assert(middle.take(short.len() as int) =~= long.take(short.len() as int));
        } else {
            assert(short.take(middle.len() as int) =~= long.take(middle.len() as int));
        }
    }
}

/// The characters of a text, one by one.
pub fn chars_of(text: &str) -> (chars: Vec<char>)
    ensures
        chars@ == text@,
{
    let mut chars: Vec<char> = Vec::new();
    for c in it: text.chars()
        invariant
            it.seq() == text@,
            chars@ == text@.take(it.index() as int),
    {
        assert(text@.take(it.index() + 1) =~= text@.take(it.index() as int).push(c));
        chars.push(c);
    }
    assert(text@.take(text@.len() as int) =~= text@);
    chars
}

/// The text made of the characters from `from` up to `to`.
pub fn text_between(chars: &Vec<char>, from: usize, to: usize) -> (text: String)
    requires
        from <= to <= chars@.len(),
    ensures
        text@ == chars@.subrange(from as int, to as int),
{
    let mut text = String::new();
    let mut i: usize = from;
    while i < to
        invariant
            from <= i <= to <= chars@.len(),
            text@ == chars@.subrange(from as int, i as int),
        decreases to - i,
    {
        assert(chars@.subrange(from as int, i + 1) =~= chars@.subrange(from as int, i as int).push(
            chars@[i as int],
        ));
        text.push(chars[i]);
        i = i + 1;
    }
    text
}

/// Whether two texts are the same.
pub fn same_text(a: &str, b: &str) -> (same: bool)
    ensures
        same == (a@ == b@),
{
    a.to_owned() == b.to_owned()
}

/// Whether `list` holds `text`.
pub fn holds_text(list: &Vec<String>, text: &str) -> (found: bool)
    ensures
        found == texts(list@).contains(text@),
{
    let mut i: usize = 0;
    while i < list.len()
        invariant
            i <= list@.len(),
            forall|j: int| 0 <= j < i ==> list@[j]@ != text@,
        decreases list@.len() - i,
    {
        if same_text(&list[i], text) {
            assert(texts(list@)[i as int] == text@);
            return true;
        }
        i = i + 1;
    }
    false
}

/// Whether `text` begins with `start`.
pub fn text_begins_with(text: &str, start: &str) -> (begins: bool)
    ensures
        begins == begins_with(text@, start@),
{
    let whole = chars_of(text);
    let head = chars_of(start);
    if head.len() > whole.len() {
        return false;
    }
    let mut i: usize = 0;
    while i < head.len()
        invariant
            head@ == start@,
            whole@ == text@,
            i <= head@.len() <= whole@.len(),
            forall|j: int| 0 <= j < i ==> head@[j] == whole@[j],
        decreases head@.len() - i,
    {
        if head[i] != whole[i] {
            assert(text@.take(start@.len() as int)[i as int] != start@[i as int]);
            return false;
        }
        i = i + 1;
    }
    assert(text@.take(start@.len() as int) =~= start@);
    true
}

/// `n` written in decimal.
pub fn decimal_text(n: u64) -> (text: String)
    ensures
        text@ == decimal(n as nat),
    decreases n,
{
    let d: u8 = (n % 10) as u8;
    let last = ('0' as u8 + d) as char;
    assert(last == digit((n % 10) as nat));
    if n < 10 {
        let mut text = String::new();
        text.push(last);
        assert(text@ =~= decimal(n as nat));
        text
    } else {
        let mut text = decimal_text(n / 10);
        text.push(last);
        text
    }
}

/// `n` written in decimal, with a sign where it is negative.
pub fn signed_text(n: i64) -> (text: String)
    ensures
        text@ == signed(n as int),
{
    if n < 0 {
        let mut text = String::new();
        text.push('-');
        text.append(&decimal_text((-(n as i128)) as u64));
        assert(text@ =~= signed(n as int));
        text
    } else {
        decimal_text(n as u64)
    }
}

/// `true` or `false`.
pub fn bool_text(b: bool) -> (text: String)
    ensures
        text@ == (if b {
            "true"@
        } else {
            "false"@
        }),
{
    if b {
        "true".to_owned()
    } else {
        "false".to_owned()
    }
}

/// The text that holds `c` alone.
pub fn char_text(c: char) -> (text: String)
    ensures
        text@ == seq![c],
{
    let mut text = String::new();
    text.push(c);
    assert(text@ =~= seq![c]);
    text
}

/// The texts of `list`, with `separator` between them.
pub fn join_texts(list: &Vec<String>, separator: &str) -> (text: String)
    ensures
        text@ == join(texts(list@), separator@),
{
    let mut text = String::new();
    let mut i: usize = 0;
    assert(texts(list@).take(0) =~= Seq::empty());
    while i < list.len()
        invariant
            i <= list@.len(),
            text@ == join(texts(list@).take(i as int), separator@),
        decreases list@.len() - i,
    {
        assert(texts(list@).take(i + 1).drop_last() =~= texts(list@).take(i as int));
        if i > 0 {
            text.append(separator);
        }
        text.append(&list[i]);
        assert(text@ =~= join(texts(list@).take(i + 1), separator@));
        i = i + 1;
    }
    assert(texts(list@).take(list@.len() as int) =~= texts(list@));
    text
}

/// The stretches of `text` between the occurrences of `c`.
pub fn split_text(text: &str, c: char) -> (list: Vec<String>)
    ensures
        texts(list@) == split(text@, c),
{
    let chars = chars_of(text);
    let mut list: Vec<String> = Vec::new();
    let mut current = String::new();
    let mut i: usize = 0;
    assert(chars@.take(0) =~= Seq::empty());
    assert(texts(list@).push(current@) =~= split(chars@.take(0), c));
    while i < chars.len()
        invariant
            i <= chars@.len(),
            texts(list@).push(current@) == split(chars@.take(i as int), c),
        decreases chars@.len() - i,
    {
        let ghost before = split(chars@.take(i as int), c);
        assert(chars@.take(i + 1).drop_last() =~= chars@.take(i as int));
        if chars[i] == c {
            list.push(current);
            current = String::new();
            assert(texts(list@) =~= before);
        } else {
            assert(before.drop_last() =~= texts(list@));
            current.push(chars[i]);
        }
        i = i + 1;
    }
    assert(chars@.take(chars@.len() as int) =~= chars@);
    let ghost done = texts(list@).push(current@);
    list.push(current);
    assert(texts(list@) =~= done);
    list
}

} // verus!
