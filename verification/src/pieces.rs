//! Patterns that are made of literals and of named groups, and texts that fit them.
use crate::escape;
use crate::render;
use crate::text;
use vstd::prelude::*;

verus! {

/// A piece of a pattern, and of a text that fits it.
#[verifier::ext_equal]
pub enum Piece {
    /// A text that stands for itself.
    Lit(Seq<char>),
    /// An equals sign that may be there or not.
    Sign(bool),
    /// A group with a name that takes all but the characters `stops`, and the text that it takes.
    Group { name: Seq<char>, stops: Seq<char>, value: Seq<char> },
}

/// The regular expression of a piece.
pub open spec fn piece_pattern(piece: Piece) -> Seq<char> {
    match piece {
        Piece::Lit(l) => render::quoted(l),
        Piece::Sign(_) => seq!['=', '?'],
        Piece::Group { name, stops, value: _ } => seq!['(', '?', '<'] + name + seq!['>', '[', '^']
            + stops + seq![']', '*', ')'],
    }
}

/// The text of a piece.
pub open spec fn piece_text(piece: Piece) -> Seq<char> {
    match piece {
        Piece::Lit(l) => l,
        Piece::Sign(is_there) => if is_there {
            seq!['=']
        } else {
            Seq::empty()
        },
        Piece::Group { name: _, stops: _, value } => value,
    }
}

/// The regular expression of pieces, one after the other.
pub open spec fn pattern_of(pieces: Seq<Piece>) -> Seq<char>
    decreases pieces.len(),
{
    if pieces.len() == 0 {
        Seq::empty()
    } else {
        pattern_of(pieces.drop_last()) + piece_pattern(pieces.last())
    }
}

/// The text of pieces, one after the other.
pub open spec fn text_of(pieces: Seq<Piece>) -> Seq<char>
    decreases pieces.len(),
{
    if pieces.len() == 0 {
        Seq::empty()
    } else {
        text_of(pieces.drop_last()) + piece_text(pieces.last())
    }
}

/// What the groups take, by their names.
pub open spec fn groups_of(pieces: Seq<Piece>) -> Seq<(Seq<char>, Option<Seq<char>>)>
    decreases pieces.len(),
{
    if pieces.len() == 0 {
        Seq::empty()
    } else {
        match pieces.last() {
            Piece::Group { name, stops: _, value } => groups_of(pieces.drop_last()).push(
                (name, Some(value)),
            ),
            _ => groups_of(pieces.drop_last()),
        }
    }
}

/// Whether a character means itself in a class of a regular expression.
pub open spec fn is_class_char(c: char) -> bool {
    c == '/' || c == '?' || c == '#' || c == ',' || c == '.' || c == ';'
}

/// Whether a name and the characters that stop a group mean themselves in its pattern, and none of
/// these characters stands in what it takes.
pub open spec fn is_clean(piece: Piece) -> bool {
    match piece {
        Piece::Lit(_) | Piece::Sign(_) => true,
        Piece::Group { name, stops, value } => {
            &&& forall|i: int|
                0 <= i < name.len() ==> escape::is_ascii(#[trigger] name[i])
                    && escape::is_unreserved(name[i] as u8)
            &&& stops.len() > 0
            &&& forall|i: int| 0 <= i < stops.len() ==> is_class_char(#[trigger] stops[i])
            &&& forall|i: int| 0 <= i < value.len() ==> !stops.contains(#[trigger] value[i])
        },
    }
}

/// The literals that stand one after the other from the piece `i` on, as one text.
pub open spec fn literal_at(pieces: Seq<Piece>, i: int) -> Seq<char>
    decreases pieces.len() - i,
{
    if 0 <= i < pieces.len() && pieces[i] is Lit {
        pieces[i]->Lit_0 + literal_at(pieces, i + 1)
    } else {
        Seq::empty()
    }
}

/// Whether there are none but literals from the piece `i` on.
pub open spec fn is_literal_from(pieces: Seq<Piece>, i: int) -> bool {
    forall|j: int| i <= j < pieces.len() ==> #[trigger] pieces[j] is Lit
}

/// Whether a text holds one of these characters.
pub open spec fn holds_one_of(s: Seq<char>, stops: Seq<char>) -> bool {
    exists|i: int| 0 <= i < s.len() && stops.contains(#[trigger] s[i])
}

/// Whether the piece at `i` ends where it should: a group before literals that end the text or hold
/// a character that stops it, and an equals sign that is not there before something else than one.
pub open spec fn is_stopped(pieces: Seq<Piece>, i: int) -> bool {
    match pieces[i] {
        Piece::Lit(_) => true,
        Piece::Sign(is_there) => is_there || i + 1 < pieces.len() && match pieces[i + 1] {
            Piece::Group { name: _, stops: _, value } => {
                let rest = value + literal_at(pieces, i + 2);
                rest.len() == 0 || rest[0] != '='
            },
            _ => false,
        },
        Piece::Group { name: _, stops, value: _ } => is_literal_from(pieces, i + 1)
            || holds_one_of(literal_at(pieces, i + 1), stops),
    }
}

/// Whether no group can take more or less of the text of the pieces than it should.
pub open spec fn fits(pieces: Seq<Piece>) -> bool {
    forall|i: int|
        0 <= i < pieces.len() ==> is_clean(#[trigger] pieces[i]) && is_stopped(pieces, i)
}

/// Whether in all of the pieces a pattern means what it should, and a group takes what it can.
pub open spec fn are_clean(pieces: Seq<Piece>) -> bool {
    forall|i: int| 0 <= i < pieces.len() ==> is_clean(#[trigger] pieces[i])
}

/// What stands in a text before the first of these characters.
pub open spec fn before_stop(s: Seq<char>, stops: Seq<char>) -> Seq<char>
    decreases s.len(),
{
    if s.len() == 0 {
        s
    } else {
        let before = before_stop(s.drop_last(), stops);
        if before.len() < s.len() - 1 || stops.contains(s.last()) {
            before
        } else {
            s
        }
    }
}

/// The pieces, where a group that is the last of them takes no more than it can.
pub open spec fn cut(pieces: Seq<Piece>) -> Seq<Piece> {
    if pieces.len() == 0 {
        pieces
    } else {
        match pieces.last() {
            Piece::Group { name, stops, value } => pieces.drop_last().push(
                Piece::Group { name, stops, value: before_stop(value, stops) },
            ),
            _ => pieces,
        }
    }
}

proof fn lemma_before_stop(s: Seq<char>, stops: Seq<char>)
    ensures
        text::begins_with(s, before_stop(s, stops)),
        forall|i: int|
            0 <= i < before_stop(s, stops).len() ==> !stops.contains(
                #[trigger] before_stop(s, stops)[i],
            ),
    decreases s.len(),
{
    if s.len() > 0 {
        let before = before_stop(s.drop_last(), stops);
        lemma_before_stop(s.drop_last(), stops);
        if before.len() < s.len() - 1 || stops.contains(s.last()) {
            assert(s.take(before.len() as int) =~= s.drop_last().take(before.len() as int));
        } else {
            assert(s.drop_last().take(before.len() as int) =~= s.drop_last());
            assert(s.take(s.len() as int) =~= s);
            assert forall|i: int| 0 <= i < s.len() implies !stops.contains(#[trigger] s[i]) by {
                if i < s.len() - 1 {
                    assert(before[i] == s[i]);
                }
            }
        }
    } else {
        assert(s.take(0) =~= s);
    }
}

/// A group that is clean stays so when it takes no more than it can.
pub proof fn lemma_cut_clean(whole: Piece, short: Piece)
    requires
        is_clean(whole),
        short == cut(seq![whole]).last(),
    ensures
        is_clean(short),
{
    if let Piece::Group { name: _, stops, value } = whole {
        lemma_before_stop(value, stops);
    }
}

/// Where all pieces are clean but for what a group at the end takes, cutting it makes them clean,
/// keeps their pattern, and leaves a text with which theirs begins.
pub proof fn lemma_cut(pieces: Seq<Piece>)
    requires
        forall|i: int| 0 <= i < pieces.len() - 1 ==> is_clean(#[trigger] pieces[i]),
        pieces.len() > 0 ==> is_clean(cut(pieces).last()),
    ensures
        are_clean(cut(pieces)),
        pattern_of(cut(pieces)) == pattern_of(pieces),
        text::begins_with(text_of(pieces), text_of(cut(pieces))),
{
    let all = text_of(pieces);
    if pieces.len() > 0 {
        let short = cut(pieces);
        assert(short.drop_last() =~= pieces.drop_last());
        assert forall|i: int| 0 <= i < short.len() implies is_clean(#[trigger] short[i]) by {
            if i < pieces.len() - 1 {
                assert(short[i] == pieces[i]);
            }
        }
        if let Piece::Group { name: _, stops, value } = pieces.last() {
            let before = text_of(pieces.drop_last());
            let kept = before_stop(value, stops);
            lemma_before_stop(value, stops);
            assert(all.take((before + kept).len() as int) =~= before + value.take(
                kept.len() as int,
            ));
        } else {
            assert(all.take(all.len() as int) =~= all);
        }
    } else {
        assert(all.take(all.len() as int) =~= all);
    }
}

/// The pattern and the text of two runs of pieces are those of the one and then of the other.
pub proof fn lemma_concat(a: Seq<Piece>, b: Seq<Piece>)
    ensures
        pattern_of(a + b) == pattern_of(a) + pattern_of(b),
        text_of(a + b) == text_of(a) + text_of(b),
        groups_of(a + b) == groups_of(a) + groups_of(b),
    decreases b.len(),
{
    if b.len() == 0 {
        assert(a + b =~= a);
        assert(pattern_of(a) + pattern_of(b) =~= pattern_of(a));
        assert(text_of(a) + text_of(b) =~= text_of(a));
        assert(groups_of(a) + groups_of(b) =~= groups_of(a));
    } else {
        lemma_concat(a, b.drop_last());
        assert((a + b).drop_last() =~= a + b.drop_last());
        assert(pattern_of(a + b) =~= pattern_of(a) + pattern_of(b));
        assert(text_of(a + b) =~= text_of(a) + text_of(b));
        assert(groups_of(a + b) =~= groups_of(a) + groups_of(b));
    }
}

/// The pattern and the text of one piece.
pub proof fn lemma_one(piece: Piece)
    ensures
        pattern_of(seq![piece]) == piece_pattern(piece),
        text_of(seq![piece]) == piece_text(piece),
        groups_of(seq![piece]) == (match piece {
            Piece::Group { name, stops: _, value } => seq![(name, Some(value))],
            _ => Seq::empty(),
        }),
{
    let pieces = seq![piece];
    assert(pieces.drop_last() =~= Seq::empty());
    assert(pattern_of(pieces.drop_last()) =~= Seq::empty());
    assert(text_of(pieces.drop_last()) =~= Seq::empty());
    assert(groups_of(pieces.drop_last()) =~= Seq::empty());
    assert(pattern_of(pieces) =~= piece_pattern(piece));
    assert(text_of(pieces) =~= piece_text(piece));
    assert(groups_of(pieces) =~= (match piece {
        Piece::Group { name, stops: _, value } => seq![(name, Some(value))],
        _ => Seq::empty(),
    }));
}

} // verus!
