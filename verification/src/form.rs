//! Names and values in the `application/x-www-form-urlencoded` syntax, also with other separators.
use crate::escape;
use crate::text;
use vstd::prelude::*;
use vstd::slice::slice_subrange;

verus! {

/// What `String::from_utf8_lossy` makes of bytes that are not UTF-8.
pub uninterp spec fn utf8_replaced(bytes: Seq<u8>) -> Seq<char>;

/// The text that bytes encode, with replacements for those that encode none.
pub open spec fn utf8_lossy(bytes: Seq<u8>) -> Seq<char> {
    if vstd::utf8::valid_utf8(bytes) {
        vstd::utf8::decode_utf8(bytes)
    } else {
        utf8_replaced(bytes)
    }
}

/// `String::from_utf8_lossy`: bytes that are UTF-8 give the text that they encode. What the others
/// give has a name.
#[verifier::external_body]
fn from_utf8_lossy(bytes: &[u8]) -> (decoded: String)
    ensures
        decoded@ == (if vstd::utf8::valid_utf8(bytes@) {
            vstd::utf8::decode_utf8(bytes@)
        } else {
            utf8_replaced(bytes@)
        }),
{
    String::from_utf8_lossy(bytes).into_owned()
}

/// `percent_encoding::percent_decode`: each percent sign before two hexadecimal digits gives the
/// byte of that value, and every other byte stays.
#[verifier::external_body]
pub(crate) fn percent_decode_bytes(bytes: &[u8]) -> (decoded: Vec<u8>)
    ensures
        decoded@ == escape::percent_decoded(bytes@),
{
    percent_encoding::percent_decode(bytes).collect()
}

/// Bytes with a space in the place of each plus sign.
pub open spec fn spaced(bytes: Seq<u8>) -> Seq<u8> {
    Seq::new(
        bytes.len(),
        |i: int|
            if bytes[i] == '+' as u8 {
                ' ' as u8
            } else {
                bytes[i]
            },
    )
}

/// The text that encoded bytes stand for.
pub open spec fn decoded(bytes: Seq<u8>) -> Seq<char> {
    utf8_lossy(escape::percent_decoded(spaced(bytes)))
}

/// Where `b` first stands in `bytes` at or after `i`, or else the length of `bytes`.
pub open spec fn find_byte(bytes: Seq<u8>, b: u8, i: int) -> int
    decreases bytes.len() - i,
{
    if i >= bytes.len() {
        bytes.len() as int
    } else if bytes[i] == b {
        i
    } else {
        find_byte(bytes, b, i + 1)
    }
}

/// What is found stands at or after the start, and nothing before it is what is looked for.
pub proof fn lemma_find_byte(bytes: Seq<u8>, b: u8, i: int)
    ensures
        0 <= i <= bytes.len() ==> i <= find_byte(bytes, b, i) <= bytes.len(),
        0 <= i && find_byte(bytes, b, i) < bytes.len() ==> bytes[find_byte(bytes, b, i)] == b,
        forall|j: int| 0 <= i <= j < find_byte(bytes, b, i) ==> bytes[j] != b,
    decreases bytes.len() - i,
{
    if i < bytes.len() {
        lemma_find_byte(bytes, b, i + 1);
    }
}

/// What stands before the first `b`.
pub open spec fn before(bytes: Seq<u8>, b: u8) -> Seq<u8> {
    bytes.take(find_byte(bytes, b, 0))
}

/// What stands after the first `b`.
pub open spec fn after(bytes: Seq<u8>, b: u8) -> Seq<u8> {
    if find_byte(bytes, b, 0) < bytes.len() {
        bytes.skip(find_byte(bytes, b, 0) + 1)
    } else {
        Seq::empty()
    }
}

/// The name and the value that a stretch between two separators stands for.
pub open spec fn pair_of(bytes: Seq<u8>) -> (Seq<char>, Seq<char>) {
    (decoded(before(bytes, '=' as u8)), decoded(after(bytes, '=' as u8)))
}

/// The names and the values in the stretches between the separators, without the empty ones.
pub open spec fn pairs(sep: u8, input: Seq<u8>) -> Seq<(Seq<char>, Seq<char>)>
    decreases input.len(),
{
    proof {
        lemma_find_byte(input, sep, 0);
    }
    if input.len() == 0 {
        Seq::empty()
    } else if before(input, sep).len() == 0 {
        pairs(sep, after(input, sep))
    } else {
        seq![pair_of(before(input, sep))] + pairs(sep, after(input, sep))
    }
}

/// Bytes with a space in the place of each plus sign.
pub fn replace_plus(input: &[u8]) -> (replaced: Vec<u8>)
    ensures
        replaced@ == spaced(input@),
{
    let mut replaced: Vec<u8> = Vec::new();
    let mut i: usize = 0;
    while i < input.len()
        invariant
            i <= input@.len(),
            replaced@ =~= spaced(input@).take(i as int),
        decreases input@.len() - i,
    {
        if input[i] == '+' as u8 {
            replaced.push(' ' as u8);
        } else {
            replaced.push(input[i]);
        }
        i = i + 1;
    }
    assert(replaced@ =~= spaced(input@));
    replaced
}

/// The text that bytes encode, with replacements for those that encode none.
pub fn decode_utf8_lossy(input: Vec<u8>) -> (text: String)
    ensures
        text@ == utf8_lossy(input@),
{
    from_utf8_lossy(input.as_slice())
}

/// The text that encoded bytes stand for.
pub fn decode(input: &[u8]) -> (text: String)
    ensures
        text@ == decoded(input@),
{
    let replaced = replace_plus(input);
    decode_utf8_lossy(percent_decode_bytes(replaced.as_slice()))
}

/// Names and values that are still to be read.
#[derive(Clone, Copy)]
pub struct Parse<'a> {
    pub sep: u8,
    pub input: &'a [u8],
}

/// Reads names and values from bytes in the `application/x-www-form-urlencoded` syntax, with
/// `sep` between them.
///
/// The names and the values are percent-decoded: `%23first=%25try%25` gives the one pair
/// `("#first", "%try%")`.
pub fn parse(sep: u8, input: &[u8]) -> (parse: Parse<'_>)
    ensures
        parse.sep == sep,
        parse.input@ == input@,
{
    Parse { sep, input }
}

fn position(bytes: &[u8], b: u8) -> (at: usize)
    ensures
        at == find_byte(bytes@, b, 0),
        at <= bytes@.len(),
{
    let mut i: usize = 0;
    while i < bytes.len() && bytes[i] != b
        invariant
            i <= bytes@.len(),
            find_byte(bytes@, b, 0) == find_byte(bytes@, b, i as int),
        decreases bytes@.len() - i,
    {
        i = i + 1;
    }
    i
}

fn split_at_byte(bytes: &[u8], b: u8) -> (halves: (&[u8], &[u8]))
    ensures
        halves.0@ == before(bytes@, b),
        halves.1@ == after(bytes@, b),
        bytes@.len() > 0 ==> halves.1@.len() < bytes@.len(),
{
    let at = position(bytes, b);
    let first = slice_subrange(bytes, 0, at);
    assert(first@ =~= before(bytes@, b));
    let second = if at < bytes.len() {
        slice_subrange(bytes, at + 1, bytes.len())
    } else {
        slice_subrange(bytes, at, at)
    };
    assert(second@ =~= after(bytes@, b));
    (first, second)
}

impl<'a> Parse<'a> {
    /// The next name and its value.
    pub fn next(&mut self) -> (item: Option<(String, String)>)
        ensures
            final(self).sep == old(self).sep,
            match item {
                Some(pair) => {
                    &&& pairs(old(self).sep, old(self).input@) == seq![(pair.0@, pair.1@)] + pairs(
                        old(self).sep,
                        final(self).input@,
                    )
                    &&& final(self).input@.len() < old(self).input@.len()
                },
                None => pairs(old(self).sep, old(self).input@).len() == 0
                    && final(self).input@.len() == 0,
            },
    {
        while self.input.len() > 0
            invariant
                self.sep == old(self).sep,
                self.input@.len() <= old(self).input@.len(),
                pairs(self.sep, self.input@) == pairs(old(self).sep, old(self).input@),
            decreases self.input@.len(),
        {
            let (sequence, rest) = split_at_byte(self.input, self.sep);
            self.input = rest;
            if sequence.len() > 0 {
                let (name, value) = split_at_byte(sequence, '=' as u8);
                return Some((decode(name), decode(value)));
            }
        }
        None
    }

    /// All the names and their values.
    pub fn into_pairs(self) -> (list: Vec<(String, String)>)
        ensures
            text::text_pairs(list@) == pairs(self.sep, self.input@),
    {
        let mut parse = self;
        let mut list: Vec<(String, String)> = Vec::new();
        assert(text::text_pairs(list@) + pairs(self.sep, self.input@) =~= pairs(
            self.sep,
            self.input@,
        ));
        let mut more = true;
        while more
            invariant
                parse.sep == self.sep,
                !more ==> pairs(self.sep, parse.input@).len() == 0,
                text::text_pairs(list@) + pairs(self.sep, parse.input@) == pairs(
                    self.sep,
                    self.input@,
                ),
            decreases parse.input@.len(), (if more { 1int } else { 0int }),
        {
            broadcast use crate::text::text_pairs_push;

            let ghost read = text::text_pairs(list@);
            let ghost left = pairs(self.sep, parse.input@);
            match parse.next() {
                Some(pair) => {
                    list.push(pair);
                    assert(read.push((pair.0@, pair.1@)) + pairs(self.sep, parse.input@)
                        =~= read + left);
                },
                None => {
                    more = false;
                    assert(left =~= pairs(self.sep, parse.input@));
                },
            }
        }
        assert(text::text_pairs(list@) + pairs(self.sep, parse.input@) =~= text::text_pairs(list@));
        list
    }
}

/// The parameters of two texts with a separator between them are those of the one and then those of
/// the other.
pub proof fn law_pairs_add_up(sep: u8, a: Seq<u8>, b: Seq<u8>)
    ensures
        pairs(sep, a.push(sep) + b) == pairs(sep, a) + pairs(sep, b),
    decreases a.len(),
{
    let whole = a.push(sep) + b;
    let at = find_byte(a, sep, 0);
    lemma_find_byte(a, sep, 0);
    lemma_find_byte(whole, sep, 0);
    let k = find_byte(whole, sep, 0);
    assert(whole[a.len() as int] == sep);
    assert(k <= a.len());
    if at < a.len() {
        assert(whole[at] == sep);
        assert(k <= at);
        if k < at {
            assert(a[k] == whole[k]);
        }
    } else if k < a.len() {
        assert(a[k] == whole[k]);
    }
    assert(k == at);
    assert(before(whole, sep) =~= before(a, sep));
    if at < a.len() {
        let rest = after(a, sep);
        assert(after(whole, sep) =~= rest.push(sep) + b);
        law_pairs_add_up(sep, rest, b);
    } else {
        assert(after(whole, sep) =~= b);
        assert(pairs(sep, Seq::<u8>::empty()) =~= Seq::empty());
        assert(a.len() == 0 ==> a =~= Seq::empty());
    }
    assert(pairs(sep, whole) =~= pairs(sep, a) + pairs(sep, b));
}

} // verus!
