//! Errors of the solver, and the messages that describe them.
use vstd::prelude::*;
use vstd::string::StringExecFns;

use crate::text::push_char;

verus! {

/// Why an input was refused.
#[derive(Clone, Debug)]
pub enum SolverError {
    /// A word that does not have five letters once trimmed.
    WordLength { word: String },
    /// A five-byte word with a byte that is not an ASCII letter.
    WordNotLowercase { word: String },
    /// A well-formed word that the word list does not hold.
    UnknownWord { word: String },
    /// A score row that does not have five tiles.
    MatchLength { text: String },
    /// A score row with a character that is no tile.
    UnknownTile { tile: char, text: String },
    /// Tile values that are not five values in `0..=2`.
    TileValues { tiles: Vec<u8> },
}

/// What `{:?}` prints for a string.
pub uninterp spec fn str_debug(s: Seq<char>) -> Seq<char>;

/// What `{:?}` prints for a character.
pub uninterp spec fn char_debug(c: char) -> Seq<char>;

/// The character of the decimal digit `d`.
pub open spec fn digit_char(d: nat) -> char {
    ((d + 48) as u8) as char
}

/// The decimal digits of `n`, most significant first.
pub open spec fn decimal_text(n: nat) -> Seq<char>
    decreases n,
{
    if n < 10 {
        seq![digit_char(n)]
    } else {
        decimal_text(n / 10) + seq![digit_char(n % 10)]
    }
}

/// The decimal values of the bytes `b`, separated by a comma and a space.
pub open spec fn byte_values_text(b: Seq<u8>) -> Seq<char>
    decreases b.len(),
{
    if b.len() == 0 {
        Seq::empty()
    } else if b.len() == 1 {
        decimal_text(b[0] as nat)
    } else {
        byte_values_text(b.drop_last()) + seq![',', ' '] + decimal_text(b.last() as nat)
    }
}

/// What `{:?}` prints for a list of bytes: their decimal values, separated
/// by a comma and a space, in square brackets.
pub open spec fn bytes_debug(b: Seq<u8>) -> Seq<char> {
    seq!['['] + byte_values_text(b) + seq![']']
}

/// Formats `s` with `<str as Debug>::fmt` (quoted, with escapes); the result
/// depends on the characters of `s` alone.
#[verifier::external_body]
fn debug_str(s: &str) -> (out: String)
    ensures
        out@ == str_debug(s@),
{
    format!("{:?}", s)
}

/// Formats `c` with `<char as Debug>::fmt`; the result depends on `c` alone.
#[verifier::external_body]
fn debug_char(c: char) -> (out: String)
    ensures
        out@ == char_debug(c),
{
    format!("{:?}", c)
}

/// Appends the decimal digits of `n` to `s`.
fn push_decimal(s: &mut String, n: u8)
    ensures
        final(s)@ == old(s)@ + decimal_text(n as nat),
{
    let ghost start = s@;
    proof {
        reveal_with_fuel(decimal_text, 3);
    }
    if n >= 100 {
        push_char(s, (n / 100 + 48) as char);
        push_char(s, (n / 10 % 10 + 48) as char);
        assert((n as nat / 10) / 10 == n as nat / 100);
        assert(decimal_text(n as nat / 10) =~= seq![digit_char(n as nat / 100), digit_char(n as nat / 10 % 10)]);
    } else if n >= 10 {
        push_char(s, (n / 10 + 48) as char);
    }
    push_char(s, (n % 10 + 48) as char);
    assert(s@ =~= start + decimal_text(n as nat));
}

/// The text that `{:?}` prints for the bytes `b`.
fn bytes_text(b: &[u8]) -> (out: String)
    ensures
        out@ == bytes_debug(b@),
{
    let mut s = String::new();
    push_char(&mut s, '[');
    for i in 0..b.len()
        invariant
            s@ == seq!['['] + byte_values_text(b@.take(i as int)),
    {
        let ghost before = s@;
        if i > 0 {
            push_char(&mut s, ',');
            push_char(&mut s, ' ');
        }
        push_decimal(&mut s, b[i]);
        proof {
            let next = b@.take(i + 1);
            assert(next.drop_last() =~= b@.take(i as int));
            assert(next.last() == b@[i as int]);
            if i == 0 {
                assert(b@.take(0) =~= Seq::<u8>::empty());
            }
            assert(s@ =~= seq!['['] + byte_values_text(next));
        }
    }
    assert(b@.take(b@.len() as int) =~= b@);
    push_char(&mut s, ']');
    assert(s@ =~= bytes_debug(b@));
    s
}

/// The text that describes `e`.
pub open spec fn message_spec(e: SolverError) -> Seq<char> {
    match e {
        SolverError::WordLength { word } => "expected a five-letter word, got "@ + str_debug(word@),
        SolverError::WordNotLowercase { word } => "word contains a non-lowercase ASCII letter: "@
            + str_debug(word@),
        SolverError::UnknownWord { word } => str_debug(word@) + " is not in words.txt"@,
        SolverError::MatchLength { text } => "expected five tiles, got "@ + str_debug(text@),
        SolverError::UnknownTile { tile, text } => "unknown tile "@ + char_debug(tile) + " in "@
            + str_debug(text@),
        SolverError::TileValues { tiles } => "expected five tile values in 0..=2, got "@
            + bytes_debug(tiles@),
    }
}

impl SolverError {
    /// The text that describes the error.
    pub fn message(&self) -> (m: String)
        ensures
            m@ == message_spec(*self),
    {
        match self {
            SolverError::WordLength { word } => {
                let m = String::from_str("expected a five-letter word, got ");
                m.concat(debug_str(word.as_str()).as_str())
            },
            SolverError::WordNotLowercase { word } => {
                let m = String::from_str("word contains a non-lowercase ASCII letter: ");
                m.concat(debug_str(word.as_str()).as_str())
            },
            SolverError::UnknownWord { word } => {
                let m = debug_str(word.as_str());
                m.concat(" is not in words.txt")
            },
            SolverError::MatchLength { text } => {
                let m = String::from_str("expected five tiles, got ");
                m.concat(debug_str(text.as_str()).as_str())
            },
            SolverError::UnknownTile { tile, text } => {
                let m = String::from_str("unknown tile ");
                let m = m.concat(debug_char(*tile).as_str());
                let m = m.concat(" in ");
                m.concat(debug_str(text.as_str()).as_str())
            },
            SolverError::TileValues { tiles } => {
                let m = String::from_str("expected five tile values in 0..=2, got ");
                m.concat(bytes_text(tiles.as_slice()).as_str())
            },
        }
    }
}

} // verus!
