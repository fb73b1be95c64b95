//! Text as bytes: comparing, splitting at white space, and decimal numbers.

use vstd::prelude::*;
use vstd::string::*;

verus! {

/// Whether a byte is ASCII white space.
pub open spec fn is_space(b: u8) -> bool {
    b == 32 || (9 <= b <= 13)
}

/// The bytes of a piece of text are the bytes of the word `word`.
pub open spec fn is_word(text: Seq<u8>, word: &str) -> bool {
    text == word.spec_bytes()
}

/// Whether two pieces of text are the same.
pub fn same_bytes(a: &[u8], b: &[u8]) -> (r: bool)
    ensures
        r == (a@ == b@),
{
    if a.len() != b.len() {
        return false;
    }
    let mut i: usize = 0;
    while i < a.len()
        invariant
            i <= a@.len() == b@.len(),
            forall|j: int| 0 <= j < i ==> a@[j] == b@[j],
        decreases a@.len() - i,
    {
        if a[i] != b[i] {
            return false;
        }
        i = i + 1;
    }
    assert(a@ =~= b@);
    true
}

/// Whether a piece of text is the word `word`.
pub fn token_is(text: &[u8], word: &str) -> (r: bool)
    ensures
        r == is_word(text@, word),
{
    same_bytes(text, word.as_bytes())
}

/// The end of the word that starts at `from`: the place of the first white
/// space from there on, or the end of the text.
pub open spec fn word_end(text: Seq<u8>, from: int) -> int
    decreases text.len() - from,
{
    if from < 0 || from >= text.len() || is_space(text[from]) {
        from
    } else {
        word_end(text, from + 1)
    }
}

/// The words of a text from the place `from` on: the pieces between white
/// space, none of them empty, in their order.
pub open spec fn words_from(text: Seq<u8>, from: int) -> Seq<Seq<u8>>
    decreases text.len() - from,
{
    if from < 0 || from >= text.len() {
        Seq::<Seq<u8>>::empty()
    } else if is_space(text[from]) {
        words_from(text, from + 1)
    } else {
        let end = word_end(text, from);
        if from < end <= text.len() {
            seq![text.subrange(from, end)] + words_from(text, end)
        } else {
            Seq::<Seq<u8>>::empty()
        }
    }
}

/// The words of a text.
pub open spec fn words_of(text: Seq<u8>) -> Seq<Seq<u8>> {
    words_from(text, 0)
}

/// The end of a word lies behind its start and within the text.
pub proof fn lemma_word_end(text: Seq<u8>, from: int)
    requires
        0 <= from < text.len(),
        !is_space(text[from]),
    ensures
        from < word_end(text, from) <= text.len(),
        forall|i: int| from <= i < word_end(text, from) ==> !is_space(#[trigger] text[i]),
        word_end(text, from) < text.len() ==> is_space(text[word_end(text, from)]),
    decreases text.len() - from,
{
    assert(word_end(text, from) == word_end(text, from + 1));
    if from + 1 < text.len() && !is_space(text[from + 1]) {
        lemma_word_end(text, from + 1);
        assert forall|i: int| from <= i < word_end(text, from) implies !is_space(
            #[trigger] text[i],
        ) by {
            if i > from {
            }
        }
    } else {
        assert(word_end(text, from + 1) == from + 1);
    }
}

/// The views of a list of words.
pub open spec fn views(words: Seq<Vec<u8>>) -> Seq<Seq<u8>> {
    words.map_values(|w: Vec<u8>| w@)
}

/// Splits a text into its words.
pub fn split_words(text: &[u8]) -> (words: Vec<Vec<u8>>)
    ensures
        views(words@) == words_of(text@),
{
    let mut words: Vec<Vec<u8>> = Vec::new();
    let mut i: usize = 0;
    let n = text.len();
    assert(views(words@) =~= Seq::<Seq<u8>>::empty());
    while i < n
        invariant
            i <= n == text@.len(),
            words_of(text@) == views(words@) + words_from(text@, i as int),
        decreases n - i,
    {
        let b = text[i];
        if b == 32 || (9 <= b && b <= 13) {
            i = i + 1;
        } else {
            let start = i;
            let mut word: Vec<u8> = Vec::new();
            proof {
                lemma_word_end(text@, start as int);
            }
            while i < n && !(text[i] == 32 || (9 <= text[i] && text[i] <= 13))
                invariant
                    start <= i <= n == text@.len(),
                    word@ == text@.subrange(start as int, i as int),
                    word_end(text@, start as int) == word_end(text@, i as int),
                    i <= word_end(text@, start as int) <= n,
                decreases n - i,
            {
                proof {
                    lemma_word_end(text@, i as int);
                    assert(word_end(text@, i as int) == word_end(text@, i + 1));
                }
                word.push(text[i]);
                i = i + 1;
                assert(word@ =~= text@.subrange(start as int, i as int));
            }
            let ghost before = views(words@);
            words.push(word);
            proof {
                assert(i == word_end(text@, start as int));
                assert(views(words@) =~= before.push(text@.subrange(start as int, i as int)));
                assert(before + (seq![text@.subrange(start as int, i as int)] + words_from(
                    text@,
                    i as int,
                )) =~= views(words@) + words_from(text@, i as int));
            }
        }
    }
    assert(views(words@) + Seq::<Seq<u8>>::empty() =~= views(words@));
    words
}

/// The number that a text of decimal digits stands for.
pub open spec fn digits_value(text: Seq<u8>) -> nat
    decreases text.len(),
{
    if text.len() == 0 {
        0
    } else {
        10 * digits_value(text.drop_last()) + (text.last() - 48) as nat
    }
}

/// Whether a text is made of decimal digits alone.
pub open spec fn all_digits(text: Seq<u8>) -> bool {
    forall|i: int| 0 <= i < text.len() ==> 48 <= #[trigger] text[i] <= 57
}

/// The number that a text stands for if it is an unsigned decimal number not
/// above `max`: digits, at least one, after at most one plus sign.
pub open spec fn unsigned_value(text: Seq<u8>, max: nat) -> Option<nat> {
    let digits = if text.len() > 0 && text[0] == 43 {
        text.subrange(1, text.len() as int)
    } else {
        text
    };
    if digits.len() > 0 && all_digits(digits) && digits_value(digits) <= max {
        Some(digits_value(digits))
    } else {
        None
    }
}

/// The number that a text stands for if it is a decimal number from `-max -
/// 1` to `max`: digits, at least one, after at most one sign.
pub open spec fn signed_value(text: Seq<u8>, max: nat) -> Option<int> {
    if text.len() > 0 && text[0] == 45 {
        let digits = text.subrange(1, text.len() as int);
        if digits.len() > 0 && all_digits(digits) && digits_value(digits) <= max + 1 {
            Some(-(digits_value(digits) as int))
        } else {
            None
        }
    } else {
        match unsigned_value(text, max) {
            Some(v) => Some(v as int),
            None => None,
        }
    }
}

/// More digits make a number no smaller.
proof fn lemma_digits_grow(text: Seq<u8>, k: int)
    requires
        0 <= k <= text.len(),
        all_digits(text),
    ensures
        digits_value(text.subrange(0, k)) <= digits_value(text),
    decreases text.len() - k,
{
    if k < text.len() {
        let next = text.subrange(0, k + 1);
        assert(next.drop_last() =~= text.subrange(0, k));
        assert(48 <= text[k] <= 57);
        assert(next.last() == text[k]);
        lemma_digits_grow(text, k + 1);
    } else {
        assert(text.subrange(0, k) =~= text);
    }
}

/// Reads the digits of a text from the place `from` on as a number not above
/// `max`.
fn parse_digits(text: &[u8], from: usize, max: u128) -> (r: Option<u128>)
    requires
        from <= text@.len(),
        max <= u64::MAX + 1,
    ensures
        r == ({
            let digits = text@.subrange(from as int, text@.len() as int);
            if digits.len() > 0 && all_digits(digits) && digits_value(digits) <= max {
                Some(digits_value(digits) as u128)
            } else {
                None
            }
        }),
{
    let n = text.len();
    let ghost digits = text@.subrange(from as int, n as int);
    if from == n {
        return None;
    }
    let mut value: u128 = 0;
    let mut i: usize = from;
    while i < n
        invariant
            from <= i <= n == text@.len(),
            digits == text@.subrange(from as int, n as int),
            all_digits(digits.subrange(0, i - from)),
            value == digits_value(digits.subrange(0, i - from)),
            value <= max <= u64::MAX + 1,
        decreases n - i,
    {
        let b = text[i];
        if b < 48 || b > 57 {
            assert(digits[i - from] == b);
            return None;
        }
        let ghost shorter = digits.subrange(0, i - from);
        let ghost longer = digits.subrange(0, i - from + 1);
        proof {
            assert(longer.drop_last() =~= shorter);
            assert(longer.last() == b);
            assert forall|j: int| 0 <= j < longer.len() implies 48 <= #[trigger] longer[j]
                <= 57 by {
                if j < i - from {
                    assert(shorter[j] == longer[j]);
                }
            }
        }
        value = value * 10 + (b - 48) as u128;
        if value > max {
            proof {
                // the rest can only make the number larger, if it is one
                if all_digits(digits) {
                    lemma_digits_grow(digits, i - from + 1);
                }
            }
            return None;
        }
        i = i + 1;
    }
    assert(digits.subrange(0, n - from) =~= digits);
    Some(value)
}

/// Reads an unsigned decimal number not above `max`.
pub fn parse_unsigned(text: &[u8], max: u64) -> (r: Option<u64>)
    ensures
        match r {
            Some(v) => unsigned_value(text@, max as nat) == Some(v as nat),
            None => unsigned_value(text@, max as nat) is None,
        },
{
    let from: usize = if text.len() > 0 && text[0] == 43 {
        1
    } else {
        0
    };
    proof {
        if from == 0 {
            assert(text@.subrange(0, text@.len() as int) =~= text@);
        }
    }
    match parse_digits(text, from, max as u128) {
        Some(v) => Some(v as u64),
        None => None,
    }
}

/// Reads a decimal number from `-max - 1` to `max`.
pub fn parse_signed(text: &[u8], max: u64) -> (r: Option<i128>)
    requires
        max <= i64::MAX,
    ensures
        match r {
            Some(v) => signed_value(text@, max as nat) == Some(v as int),
            None => signed_value(text@, max as nat) is None,
        },
{
    if text.len() > 0 && text[0] == 45 {
        match parse_digits(text, 1, max as u128 + 1) {
            Some(v) => Some(-(v as i128)),
            None => None,
        }
    } else {
        match parse_unsigned(text, max) {
            Some(v) => Some(v as i128),
            None => None,
        }
    }
}

} // verus!
