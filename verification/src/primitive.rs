//! Values of the primitive types, read from texts.
use crate::grammar;
use crate::text;
use crate::text::{chars_of, same_text};
use vstd::prelude::*;

verus! {

/// Whether there is at least one character and all of them are digits.
pub open spec fn is_number(s: Seq<char>) -> bool {
    s.len() > 0 && forall|i: int| 0 <= i < s.len() ==> grammar::is_digit(#[trigger] s[i])
}

/// The integer that a text writes: digits, with a sign before them or without.
pub open spec fn integer(s: Seq<char>, signed: bool) -> Option<int> {
    let is_marked = s.len() > 0 && (s[0] == '+' || signed && s[0] == '-');
    let digits = if is_marked {
        s.skip(1)
    } else {
        s
    };
    if !is_number(digits) {
        None
    } else if is_marked && s[0] == '-' {
        Some(-(grammar::number(digits) as int))
    } else {
        Some(grammar::number(digits) as int)
    }
}

/// A type whose values texts write.
pub trait Primitive: Sized {
    /// The value that a text writes.
    spec fn read(s: Seq<char>) -> Option<Self>;

    /// The name of the type.
    spec fn name() -> Seq<char>;

    /// The value that a text writes.
    fn parse_value(s: &str) -> (value: Option<Self>)
        ensures
            value == Self::read(s@),
    ;

    /// The name of the type.
    fn expected_type() -> (expected: &'static str)
        ensures
            expected@ == Self::name(),
    ;
}

proof fn lemma_number_grows(digits: Seq<char>, i: int)
    requires
        0 <= i <= digits.len(),
        forall|j: int| 0 <= j < digits.len() ==> grammar::is_digit(#[trigger] digits[j]),
    ensures
        grammar::number(digits.take(i)) <= grammar::number(digits),
    decreases digits.len(),
{
    if i == digits.len() {
        assert(digits.take(i) =~= digits);
    } else {
        let before = digits.drop_last();
        assert forall|j: int| 0 <= j < before.len() implies grammar::is_digit(
            #[trigger] before[j],
        ) by {
            assert(before[j] == digits[j]);
        }
        lemma_number_grows(before, i);
        assert(before.take(i) =~= digits.take(i));
        assert(grammar::is_digit(digits[digits.len() - 1]));
    }
}

proof fn lemma_decimal(n: nat)
    ensures
        is_number(text::decimal(n)),
        grammar::number(text::decimal(n)) == n,
    decreases n,
{
    let digits = text::decimal(n);
    if n < 10 {
        assert(digits.drop_last() =~= Seq::empty());
        assert(grammar::number(digits.drop_last()) == 0);
    } else {
        lemma_decimal(n / 10);
        assert(digits.drop_last() =~= text::decimal(n / 10));
        assert forall|i: int| 0 <= i < digits.len() implies grammar::is_digit(
            #[trigger] digits[i],
        ) by {
            if i < digits.len() - 1 {
                assert(digits[i] == text::decimal(n / 10)[i]);
            }
        }
    }
}

/// An integer that is written in decimal is read as itself.
pub proof fn law_integers_are_read_back(n: int)
    ensures
        integer(text::signed(n), true) == Some(n),
        n >= 0 ==> integer(text::decimal(n as nat), false) == Some(n),
{
    if n < 0 {
        lemma_decimal((-n) as nat);
        assert(text::signed(n).skip(1) =~= text::decimal((-n) as nat));
    } else {
        lemma_decimal(n as nat);
        assert(grammar::is_digit(text::decimal(n as nat)[0]));
    }
}

fn magnitude(chars: &Vec<char>, from: usize) -> (value: Option<u128>)
    requires
        from <= chars@.len(),
    ensures
        match value {
            Some(n) => is_number(chars@.skip(from as int)) && n == grammar::number(
                chars@.skip(from as int),
            ),
            None => is_number(chars@.skip(from as int)) ==> grammar::number(
                chars@.skip(from as int),
            ) > u128::MAX,
        },
{
    let ghost digits = chars@.skip(from as int);
    let mut n: u128 = 0;
    let mut i: usize = from;
    if i >= chars.len() {
        return None;
    }
    assert(digits.take(0) =~= Seq::empty());
    while i < chars.len()
        invariant
            from <= i <= chars@.len(),
            digits == chars@.skip(from as int),
            forall|j: int| 0 <= j < i - from ==> grammar::is_digit(#[trigger] digits[j]),
            n == grammar::number(digits.take(i - from)),
        decreases chars@.len() - i,
    {
        let c = chars[i];
        assert(c == digits[i - from]);
        if !('0' <= c && c <= '9') {
            return None;
        }
        let d: u128 = (c as u32 - '0' as u32) as u128;
        assert(digits.take(i - from + 1).drop_last() =~= digits.take(i - from));
        if n > (u128::MAX - d) / 10 {
            proof {
                assert(n * 10 + d > u128::MAX);
                if is_number(digits) {
                    lemma_number_grows(digits, i - from + 1);
                }
            }
            return None;
        }
        n = n * 10 + d;
        i = i + 1;
    }
    assert(digits.take(i - from) =~= digits);
    Some(n)
}

fn unsigned(s: &str) -> (value: Option<u128>)
    ensures
        match value {
            Some(n) => integer(s@, false) == Some(n as int),
            None => integer(s@, false) is Some ==> integer(s@, false)->0 > u128::MAX,
        },
{
    let chars = chars_of(s);
    if chars.len() > 0 && chars[0] == '+' {
        magnitude(&chars, 1)
    } else {
        assert(s@.skip(0) =~= s@);
        magnitude(&chars, 0)
    }
}

fn signed(s: &str) -> (value: Option<i128>)
    ensures
        match value {
            Some(n) => integer(s@, true) == Some(n as int),
            None => integer(s@, true) is Some ==> !(i128::MIN <= integer(s@, true)->0 <= i128::MAX),
        },
{
    let chars = chars_of(s);
    if chars.len() > 0 && chars[0] == '-' {
        match magnitude(&chars, 1) {
            Some(m) => if m <= i128::MAX as u128 {
                Some(-(m as i128))
            } else if m == i128::MAX as u128 + 1 {
                Some(i128::MIN)
            } else {
                None
            },
            None => None,
        }
    } else {
        assert(s@.skip(0) =~= s@);
        let from: usize = if chars.len() > 0 && chars[0] == '+' {
            1
        } else {
            0
        };
        match magnitude(&chars, from) {
            Some(m) => if m <= i128::MAX as u128 {
                Some(m as i128)
            } else {
                None
            },
            None => None,
        }
    }
}

impl Primitive for bool {
    open spec fn read(s: Seq<char>) -> Option<bool> {
        if s == "true"@ {
            Some(true)
        } else if s == "false"@ {
            Some(false)
        } else {
            None
        }
    }

    open spec fn name() -> Seq<char> {
        "bool"@
    }

    fn parse_value(s: &str) -> (value: Option<bool>) {
        if same_text(s, "true") {
            Some(true)
        } else if same_text(s, "false") {
            Some(false)
        } else {
            None
        }
    }

    fn expected_type() -> (expected: &'static str) {
        "bool"
    }
}

impl Primitive for char {
    open spec fn read(s: Seq<char>) -> Option<char> {
        if s.len() == 1 {
            Some(s[0])
        } else {
            None
        }
    }

    open spec fn name() -> Seq<char> {
        "char"@
    }

    fn parse_value(s: &str) -> (value: Option<char>) {
        let chars = chars_of(s);
        if chars.len() == 1 {
            Some(chars[0])
        } else {
            None
        }
    }

    fn expected_type() -> (expected: &'static str) {
        "char"
    }
}

impl Primitive for i8 {
    open spec fn read(s: Seq<char>) -> Option<i8> {
        match integer(s, true) {
            Some(n) if i8::MIN <= n <= i8::MAX => Some(n as i8),
            _ => None,
        }
    }

    open spec fn name() -> Seq<char> {
        "i8"@
    }

    fn parse_value(s: &str) -> (value: Option<i8>) {
        match signed(s) {
            Some(n) => if i8::MIN as i128 <= n && n <= i8::MAX as i128 {
                Some(n as i8)
            } else {
                None
            },
            None => None,
        }
    }

    fn expected_type() -> (expected: &'static str) {
        "i8"
    }
}

impl Primitive for i16 {
    open spec fn read(s: Seq<char>) -> Option<i16> {
        match integer(s, true) {
            Some(n) if i16::MIN <= n <= i16::MAX => Some(n as i16),
            _ => None,
        }
    }

    open spec fn name() -> Seq<char> {
        "i16"@
    }

    fn parse_value(s: &str) -> (value: Option<i16>) {
        match signed(s) {
            Some(n) => if i16::MIN as i128 <= n && n <= i16::MAX as i128 {
                Some(n as i16)
            } else {
                None
            },
            None => None,
        }
    }

    fn expected_type() -> (expected: &'static str) {
        "i16"
    }
}

impl Primitive for i32 {
    open spec fn read(s: Seq<char>) -> Option<i32> {
        match integer(s, true) {
            Some(n) if i32::MIN <= n <= i32::MAX => Some(n as i32),
            _ => None,
        }
    }

    open spec fn name() -> Seq<char> {
        "i32"@
    }

    fn parse_value(s: &str) -> (value: Option<i32>) {
        match signed(s) {
            Some(n) => if i32::MIN as i128 <= n && n <= i32::MAX as i128 {
                Some(n as i32)
            } else {
                None
            },
            None => None,
        }
    }

    fn expected_type() -> (expected: &'static str) {
        "i32"
    }
}

impl Primitive for i64 {
    open spec fn read(s: Seq<char>) -> Option<i64> {
        match integer(s, true) {
            Some(n) if i64::MIN <= n <= i64::MAX => Some(n as i64),
            _ => None,
        }
    }

    open spec fn name() -> Seq<char> {
        "i64"@
    }

    fn parse_value(s: &str) -> (value: Option<i64>) {
        match signed(s) {
            Some(n) => if i64::MIN as i128 <= n && n <= i64::MAX as i128 {
                Some(n as i64)
            } else {
                None
            },
            None => None,
        }
    }

    fn expected_type() -> (expected: &'static str) {
        "i64"
    }
}

impl Primitive for i128 {
    open spec fn read(s: Seq<char>) -> Option<i128> {
        match integer(s, true) {
            Some(n) if i128::MIN <= n <= i128::MAX => Some(n as i128),
            _ => None,
        }
    }

    open spec fn name() -> Seq<char> {
        "i128"@
    }

    fn parse_value(s: &str) -> (value: Option<i128>) {
        signed(s)
    }

    fn expected_type() -> (expected: &'static str) {
        "i128"
    }
}

impl Primitive for u8 {
    open spec fn read(s: Seq<char>) -> Option<u8> {
        match integer(s, false) {
            Some(n) if u8::MIN <= n <= u8::MAX => Some(n as u8),
            _ => None,
        }
    }

    open spec fn name() -> Seq<char> {
        "u8"@
    }

    fn parse_value(s: &str) -> (value: Option<u8>) {
        match unsigned(s) {
            Some(n) => if n <= u8::MAX as u128 {
                Some(n as u8)
            } else {
                None
            },
            None => None,
        }
    }

    fn expected_type() -> (expected: &'static str) {
        "u8"
    }
}

impl Primitive for u16 {
    open spec fn read(s: Seq<char>) -> Option<u16> {
        match integer(s, false) {
            Some(n) if u16::MIN <= n <= u16::MAX => Some(n as u16),
            _ => None,
        }
    }

    open spec fn name() -> Seq<char> {
        "u16"@
    }

    fn parse_value(s: &str) -> (value: Option<u16>) {
        match unsigned(s) {
            Some(n) => if n <= u16::MAX as u128 {
                Some(n as u16)
            } else {
                None
            },
            None => None,
        }
    }

    fn expected_type() -> (expected: &'static str) {
        "u16"
    }
}

impl Primitive for u32 {
    open spec fn read(s: Seq<char>) -> Option<u32> {
        match integer(s, false) {
            Some(n) if u32::MIN <= n <= u32::MAX => Some(n as u32),
            _ => None,
        }
    }

    open spec fn name() -> Seq<char> {
        "u32"@
    }

    fn parse_value(s: &str) -> (value: Option<u32>) {
        match unsigned(s) {
            Some(n) => if n <= u32::MAX as u128 {
                Some(n as u32)
            } else {
                None
            },
            None => None,
        }
    }

    fn expected_type() -> (expected: &'static str) {
        "u32"
    }
}

impl Primitive for u64 {
    open spec fn read(s: Seq<char>) -> Option<u64> {
        match integer(s, false) {
            Some(n) if u64::MIN <= n <= u64::MAX => Some(n as u64),
            _ => None,
        }
    }

    open spec fn name() -> Seq<char> {
        "u64"@
    }

    fn parse_value(s: &str) -> (value: Option<u64>) {
        match unsigned(s) {
            Some(n) => if n <= u64::MAX as u128 {
                Some(n as u64)
            } else {
                None
            },
            None => None,
        }
    }

    fn expected_type() -> (expected: &'static str) {
        "u64"
    }
}

impl Primitive for u128 {
    open spec fn read(s: Seq<char>) -> Option<u128> {
        match integer(s, false) {
            Some(n) if u128::MIN <= n <= u128::MAX => Some(n as u128),
            _ => None,
        }
    }

    open spec fn name() -> Seq<char> {
        "u128"@
    }

    fn parse_value(s: &str) -> (value: Option<u128>) {
        unsigned(s)
    }

    fn expected_type() -> (expected: &'static str) {
        "u128"
    }
}

/// Which texts write an integer: at least one digit, with nothing but a sign before the digits.
pub proof fn law_texts_of_integers(s: Seq<char>, signed: bool)
    ensures
        integer(s, signed) is Some <==> {
            let from: int = if s.len() > 0 && (s[0] == '+' || signed && s[0] == '-') {
                1
            } else {
                0
            };
            from < s.len() && forall|i: int| from <= i < s.len() ==> '0' <= #[trigger] s[i] <= '9'
        },
{
    let from: int = if s.len() > 0 && (s[0] == '+' || signed && s[0] == '-') {
        1
    } else {
        0
    };
    let digits = s.skip(from);
    assert(s.skip(0) =~= s);
    assert(digits.len() == s.len() - from);
    if is_number(digits) {
        assert forall|i: int| from <= i < s.len() implies '0' <= #[trigger] s[i] <= '9' by {
            assert(grammar::is_digit(digits[i - from]));
        }
    }
    if from < s.len() && (forall|i: int| from <= i < s.len() ==> '0' <= #[trigger] s[i] <= '9') {
        assert forall|i: int| 0 <= i < digits.len() implies grammar::is_digit(
            #[trigger] digits[i],
        ) by {
            assert(digits[i] == s[from + i]);
        }
    }
}

/// A digit that stands before others counts as often as they have places.
pub proof fn law_digits_count_by_their_place(c: char, digits: Seq<char>)
    requires
        '0' <= c <= '9',
        forall|i: int| 0 <= i < digits.len() ==> '0' <= #[trigger] digits[i] <= '9',
    ensures
        integer(seq![c] + digits, false) == Some(
            (c as int - '0' as int) * vstd::arithmetic::power::pow(10, digits.len()) + (
            if digits.len() == 0 {
                0
            } else {
                integer(digits, false)->0
            }),
        ),
    decreases digits.len(),
{
    let whole = seq![c] + digits;
    let n = c as int - '0' as int;
    law_texts_of_integers(whole, false);
    assert forall|i: int| 0 <= i < whole.len() implies '0' <= #[trigger] whole[i] <= '9' by {
        if i > 0 {
            assert(whole[i] == digits[i - 1]);
        }
    }
    vstd::arithmetic::power::lemma_pow0(10);
    if digits.len() == 0 {
        assert(whole =~= seq![c]);
        assert(whole.drop_last() =~= Seq::empty());
        assert(grammar::number(whole.drop_last()) == 0);
    } else {
        let before = digits.drop_last();
        assert forall|i: int| 0 <= i < before.len() implies '0' <= #[trigger] before[i] <= '9' by {
            assert(before[i] == digits[i]);
        }
        law_digits_count_by_their_place(c, before);
        law_texts_of_integers(digits, false);
        law_texts_of_integers(before, false);
        law_texts_of_integers(seq![c] + before, false);
        assert(whole.drop_last() =~= seq![c] + before);
        assert(digits[digits.len() - 1] == digits.last());
        assert(whole.last() == digits.last());
        let p = vstd::arithmetic::power::pow(10, before.len());
        vstd::arithmetic::power::lemma_pow_adds(10, before.len(), 1);
        vstd::arithmetic::power::lemma_pow1(10);
        assert(vstd::arithmetic::power::pow(10, digits.len()) == p * 10);
        assert((n * p) * 10 == n * (p * 10)) by (nonlinear_arith);
        if before.len() == 0 {
            assert(before =~= Seq::empty());
            assert(grammar::number(before) == 0);
        }
        assert(digits[0] != '+');
        assert(before.len() > 0 ==> before[0] == digits[0]);
    }
}

/// A sign before digits makes the integer negative or leaves it as it is.
pub proof fn law_signs(digits: Seq<char>, signed: bool)
    requires
        digits.len() > 0,
        '0' <= digits[0] <= '9',
    ensures
        integer(seq!['+'] + digits, signed) == integer(digits, false),
        integer(digits, signed) == integer(digits, false),
        integer(seq!['-'] + digits, false) is None,
        integer(seq!['-'] + digits, true) == (match integer(digits, false) {
            Some(n) => Some(-n),
            None => None,
        }),
{
    assert((seq!['+'] + digits).skip(1) =~= digits);
    assert((seq!['-'] + digits).skip(1) =~= digits);
    let marked = seq!['-'] + digits;
    assert(marked[0] == '-');
    assert(!grammar::is_digit(marked[0]));
}

/// The texts of `true` and `false` are these words, and no other text is read as one of them.
pub proof fn law_bools_are_words(s: Seq<char>, b: bool)
    ensures
        bool::read(s) == Some(b) <==> s == if b {
            "true"@
        } else {
            "false"@
        },
{
    reveal_strlit("true");
    reveal_strlit("false");
    assert("true"@.len() != "false"@.len());
}

/// A character is read from the text that holds it alone, and from no other.
pub proof fn law_chars_are_texts(s: Seq<char>, c: char)
    ensures
        char::read(s) == Some(c) <==> s == seq![c],
{
    if s.len() == 1 {
        assert(s =~= seq![s[0]]);
    }
}

/// A text is read as a `u8` if and only if it writes that integer, and each `u8` is read from
/// its decimal text.
pub proof fn law_u8_is_read_exactly(s: Seq<char>, v: u8)
    ensures
        u8::read(s) == Some(v) <==> integer(s, false) == Some(v as int),
        u8::read(text::decimal(v as nat)) == Some(v),
{
    law_integers_are_read_back(v as int);
}

/// A text is read as a `u16` if and only if it writes that integer, and each `u16` is read from
/// its decimal text.
pub proof fn law_u16_is_read_exactly(s: Seq<char>, v: u16)
    ensures
        u16::read(s) == Some(v) <==> integer(s, false) == Some(v as int),
        u16::read(text::decimal(v as nat)) == Some(v),
{
    law_integers_are_read_back(v as int);
}

/// A text is read as a `u32` if and only if it writes that integer, and each `u32` is read from
/// its decimal text.
pub proof fn law_u32_is_read_exactly(s: Seq<char>, v: u32)
    ensures
        u32::read(s) == Some(v) <==> integer(s, false) == Some(v as int),
        u32::read(text::decimal(v as nat)) == Some(v),
{
    law_integers_are_read_back(v as int);
}

/// A text is read as a `u64` if and only if it writes that integer, and each `u64` is read from
/// its decimal text.
pub proof fn law_u64_is_read_exactly(s: Seq<char>, v: u64)
    ensures
        u64::read(s) == Some(v) <==> integer(s, false) == Some(v as int),
        u64::read(text::decimal(v as nat)) == Some(v),
{
    law_integers_are_read_back(v as int);
}

/// A text is read as a `u128` if and only if it writes that integer, and each `u128` is read from
/// its decimal text.
pub proof fn law_u128_is_read_exactly(s: Seq<char>, v: u128)
    ensures
        u128::read(s) == Some(v) <==> integer(s, false) == Some(v as int),
        u128::read(text::decimal(v as nat)) == Some(v),
{
    law_integers_are_read_back(v as int);
}

/// A text is read as an `i8` if and only if it writes that integer, and each `i8` is read from
/// its decimal text.
pub proof fn law_i8_is_read_exactly(s: Seq<char>, v: i8)
    ensures
        i8::read(s) == Some(v) <==> integer(s, true) == Some(v as int),
        i8::read(text::signed(v as int)) == Some(v),
{
    law_integers_are_read_back(v as int);
}

/// A text is read as an `i16` if and only if it writes that integer, and each `i16` is read from
/// its decimal text.
pub proof fn law_i16_is_read_exactly(s: Seq<char>, v: i16)
    ensures
        i16::read(s) == Some(v) <==> integer(s, true) == Some(v as int),
        i16::read(text::signed(v as int)) == Some(v),
{
    law_integers_are_read_back(v as int);
}

/// A text is read as an `i32` if and only if it writes that integer, and each `i32` is read from
/// its decimal text.
pub proof fn law_i32_is_read_exactly(s: Seq<char>, v: i32)
    ensures
        i32::read(s) == Some(v) <==> integer(s, true) == Some(v as int),
        i32::read(text::signed(v as int)) == Some(v),
{
    law_integers_are_read_back(v as int);
}

/// A text is read as an `i64` if and only if it writes that integer, and each `i64` is read from
/// its decimal text.
pub proof fn law_i64_is_read_exactly(s: Seq<char>, v: i64)
    ensures
        i64::read(s) == Some(v) <==> integer(s, true) == Some(v as int),
        i64::read(text::signed(v as int)) == Some(v),
{
    law_integers_are_read_back(v as int);
}

/// A text is read as an `i128` if and only if it writes that integer, and each `i128` is read from
/// its decimal text.
pub proof fn law_i128_is_read_exactly(s: Seq<char>, v: i128)
    ensures
        i128::read(s) == Some(v) <==> integer(s, true) == Some(v as int),
        i128::read(text::signed(v as int)) == Some(v),
{
    law_integers_are_read_back(v as int);
}

} // verus!
