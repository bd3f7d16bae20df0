use vstd::prelude::*;
use crate::error::Error;

verus! {

/// A tile code: 0 for the blank (or an empty square), 1 to 26 for `A` to `Z`.
pub type Letter = u8;

/// The characters that stand for a tile: the blank and `A` to `Z`.
pub open spec fn is_tile_char(c: char) -> bool {
    c == ' ' || ('A' <= c && c <= 'Z')
}

/// The code of a tile character.
pub open spec fn letter_of(c: char) -> Letter {
    if c == ' ' {
        0
    } else {
        (c as u32 - 0x40) as u8
    }
}

/// The character of a tile code.
pub open spec fn char_of(l: Letter) -> char {
    if l == 0 {
        ' '
    } else {
        (l + 0x40) as u8 as char
    }
}

/// Every character of `s` stands for a tile.
pub open spec fn all_tile_chars(s: Seq<char>) -> bool {
    forall|i: int| 0 <= i < s.len() ==> is_tile_char(#[trigger] s[i])
}

/// Every code of `w` is a tile code.
pub open spec fn all_tile_codes(w: Seq<Letter>) -> bool {
    forall|i: int| 0 <= i < w.len() ==> #[trigger] w[i] <= 26
}

/// Every code of `w` is a true letter, `A` to `Z`.
pub open spec fn all_letters(w: Seq<Letter>) -> bool {
    forall|i: int| 0 <= i < w.len() ==> 1 <= #[trigger] w[i] <= 26
}

/// The codes of a string of tile characters.
pub open spec fn letters_of(s: Seq<char>) -> Seq<Letter> {
    Seq::new(s.len(), |i: int| letter_of(s[i]))
}

/// The characters of a sequence of tile codes.
pub open spec fn chars_of(w: Seq<Letter>) -> Seq<char> {
    Seq::new(w.len(), |i: int| char_of(w[i]))
}

/// The position of the first character of `s` that stands for no tile, or the
/// length of `s` when there is none.
pub open spec fn first_invalid(s: Seq<char>) -> int
    decreases s.len(),
{
    if s.len() == 0 || !is_tile_char(s[0]) {
        0
    } else {
        1 + first_invalid(s.skip(1))
    }
}

/// Values that stand for a tile and can be written as its character.
pub trait ToChar {
    /// Whether the value stands for a tile.
    spec fn is_tile(&self) -> bool;

    /// The character the value stands for.
    spec fn as_char(&self) -> char;

    /// The character of the tile.
    fn to_char(&self) -> (c: char)
        requires
            self.is_tile(),
        ensures
            c == self.as_char(),
    ;
}

impl ToChar for Letter {
    open spec fn is_tile(&self) -> bool {
        *self <= 26
    }

    open spec fn as_char(&self) -> char {
        char_of(*self)
    }

    fn to_char(&self) -> (c: char) {
        if *self == 0 {
            ' '
        } else {
            (*self + 0x40) as char
        }
    }
}

/// Values that can be read from the character of a tile.
pub trait FromChar: Sized {
    /// Whether the character stands for a value of this type.
    spec fn accepts(letter: char) -> bool;

    /// The value the character stands for.
    spec fn of_char(letter: char) -> Self;

    /// The value of the tile that the character stands for.
    fn from_char(letter: char) -> (l: Self)
        requires
            Self::accepts(letter),
        ensures
            l == Self::of_char(letter),
    ;
}

impl FromChar for Letter {
    open spec fn accepts(letter: char) -> bool {
        is_tile_char(letter)
    }

    open spec fn of_char(letter: char) -> Letter {
        letter_of(letter)
    }

    fn from_char(letter: char) -> (l: Letter) {
        if letter == ' ' {
            0
        } else {
            (letter as u8) - 0x40
        }
    }
}

/// The code of `c`, or the error that names `c` when it stands for no tile.
pub fn parse_letter(c: char) -> (r: Result<Letter, Error>)
    ensures
        is_tile_char(c) ==> r == Ok::<Letter, Error>(letter_of(c)),
        !is_tile_char(c) ==> r == Err::<Letter, Error>(Error::InvalidCharacter(c)),
{
    if c == ' ' || ('A' <= c && c <= 'Z') {
        Ok(Letter::from_char(c))
    } else {
        Err(Error::InvalidCharacter(c))
    }
}

/// The codes of the characters of `word`, or the error that names its first
/// character that stands for no tile.
pub fn parse_word(word: &str) -> (r: Result<Vec<Letter>, Error>)
    ensures
        all_tile_chars(word@) ==> r is Ok && r->Ok_0@ == letters_of(word@),
        !all_tile_chars(word@) ==> 0 <= first_invalid(word@) < word@.len() && r == Err::<
            Vec<Letter>,
            Error,
        >(Error::InvalidCharacter(word@[first_invalid(word@)])),
        r is Ok ==> all_tile_codes(r->Ok_0@),
{
    let mut letters: Vec<Letter> = Vec::new();
    for c in it: word.chars()
        invariant
            it.seq() == word@,
            letters@ == letters_of(word@.take(it.index() as int)),
            all_tile_chars(word@.take(it.index() as int)),
    {
        let ghost k = it.index() as int;
        match parse_letter(c) {
            Ok(l) => {
                letters.push(l);
                proof {
                    assert(word@.take(k + 1) == word@.take(k).push(word@[k]));
                    assert(letters@ =~= letters_of(word@.take(k + 1)));
                }
            },
            Err(e) => {
                proof {
                    lemma_first_invalid_at(word@, k);
                }
                return Err(e);
            },
        }
    }
    proof {
        assert(word@.take(word@.len() as int) == word@);
    }
    Ok(letters)
}

/// The string that spells the tile codes of `word`.
pub fn word_to_string(word: &Vec<Letter>) -> (s: String)
    requires
        all_tile_codes(word@),
    ensures
        s@ == chars_of(word@),
{
    let mut s = String::new();
    let mut i: usize = 0;
    while i < word.len()
        invariant
            i <= word.len(),
            all_tile_codes(word@),
            s@ == chars_of(word@.take(i as int)),
        decreases word.len() - i,
    {
        let c = word[i].to_char();
        push_char(&mut s, c);
        proof {
            assert(word@.take(i + 1) == word@.take(i as int).push(word@[i as int]));
            assert(s@ =~= chars_of(word@.take(i + 1)));
        }
        i = i + 1;
    }
    proof {
        assert(word@.take(word@.len() as int) == word@);
    }
    s
}

/// `String::push`: the standard library appends the character to the end of
/// the string and leaves what came before it as it was.
#[verifier::external_body]
pub(crate) fn push_char(s: &mut String, c: char)
    ensures
        final(s)@ == old(s)@.push(c),
{
    s.push(c);
}

/// Where the first `k` characters stand for tiles and the next one does not,
/// `k` is the position of the first invalid character.
pub proof fn lemma_first_invalid_at(s: Seq<char>, k: int)
    requires
        0 <= k < s.len(),
        all_tile_chars(s.take(k)),
        !is_tile_char(s[k]),
    ensures
        first_invalid(s) == k,
        !all_tile_chars(s),
    decreases k,
{
    if k > 0 {
        assert(s.take(k)[0] == s[0]);
        assert forall|i: int| 0 <= i < k - 1 implies is_tile_char(#[trigger] s.skip(1).take(k - 1)[i]) by {
            assert(s.skip(1).take(k - 1)[i] == s.take(k)[i + 1]);
        }
        lemma_first_invalid_at(s.skip(1), k - 1);
    }
}

/// Encoding a tile character and decoding the code gives the character back.
pub proof fn lemma_char_round_trip(c: char)
    requires
        is_tile_char(c),
    ensures
        letter_of(c) <= 26,
        char_of(letter_of(c)) == c,
{
}

/// Decoding a tile code and encoding the character gives the code back.
pub proof fn lemma_letter_round_trip(l: Letter)
    requires
        l <= 26,
    ensures
        is_tile_char(char_of(l)),
        letter_of(char_of(l)) == l,
{
}

/// The two conversions between words and strings undo each other.
pub proof fn lemma_word_round_trip(w: Seq<Letter>)
    requires
        all_tile_codes(w),
    ensures
        all_tile_chars(chars_of(w)),
        letters_of(chars_of(w)) == w,
{
    assert forall|i: int| 0 <= i < w.len() implies is_tile_char(#[trigger] chars_of(w)[i]) by {
        lemma_letter_round_trip(w[i]);
    }
    assert forall|i: int| 0 <= i < w.len() implies letters_of(chars_of(w))[i] == w[i] by {
        lemma_letter_round_trip(w[i]);
    }
    assert(letters_of(chars_of(w)) =~= w);
}

} // verus!
