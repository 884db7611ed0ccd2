//! Reading words and score rows from text, and writing them back.
use vstd::prelude::*;

use crate::error::SolverError;
use crate::text::{ascii_lower, chars_of, push_char, trim, trim_range};
use crate::word::{is_match, is_word, Match, Word, BLACK, GREEN, WORD_LEN, YELLOW};

verus! {

/// Number of bytes that UTF-8 takes for `c`.
pub open spec fn utf8_width(c: char) -> nat {
    if (c as u32) < 0x80 {
        1
    } else if (c as u32) < 0x800 {
        2
    } else if (c as u32) < 0x10000 {
        3
    } else {
        4
    }
}

/// Number of bytes that UTF-8 takes for `s`.
pub open spec fn utf8_len(s: Seq<char>) -> nat
    decreases s.len(),
{
    if s.len() == 0 {
        0
    } else {
        utf8_len(s.drop_last()) + utf8_width(s.last())
    }
}

/// `c` is an ASCII letter of either case.
pub open spec fn is_ascii_letter(c: char) -> bool {
    ('a' <= c && c <= 'z') || ('A' <= c && c <= 'Z')
}

/// Every character of `s` is an ASCII letter.
pub open spec fn all_letters(s: Seq<char>) -> bool {
    forall|i: int| 0 <= i < s.len() ==> is_ascii_letter(#[trigger] s[i])
}

/// The letter number of an ASCII letter, `a` and `A` being 0.
pub open spec fn letter_value(c: char) -> u8 {
    ((ascii_lower(c) as u32) - 97) as u8
}

/// `w` is the word whose letters `s` spells.
pub open spec fn spells(w: Word, s: Seq<char>) -> bool {
    &&& s.len() == WORD_LEN
    &&& forall|i: int| 0 <= i < WORD_LEN ==> #[trigger] w[i] == letter_value(s[i])
}

/// A text spells at most one word.
pub proof fn lemma_spells_unique(a: Word, b: Word, s: Seq<char>)
    requires
        spells(a, s),
        spells(b, s),
    ensures
        a == b,
{
    assert(a =~= b);
}

/// The character that writes the letter number `l`.
pub open spec fn letter_char(l: u8) -> char {
    (l + 97) as char
}

/// The text of a word.
pub open spec fn word_text(w: Word) -> Seq<char> {
    Seq::new(WORD_LEN as nat, |i: int| letter_char(w[i]))
}

/// The character that writes a tile: `B`, `Y`, `G`, or `?` for any other
/// value.
pub open spec fn tile_char(t: u8) -> char {
    if t == BLACK {
        'B'
    } else if t == YELLOW {
        'Y'
    } else if t == GREEN {
        'G'
    } else {
        '?'
    }
}

/// The text of a score row.
pub open spec fn match_text(m: Seq<u8>) -> Seq<char> {
    Seq::new(m.len(), |i: int| tile_char(m[i]))
}

/// The tile that a character stands for: a black square, `B` or `b` for
/// black; a yellow square, `Y` or `y` for yellow; a green square, `G` or `g`
/// for green.
pub open spec fn tile_value(c: char) -> Option<u8> {
    if c == '\u{2b1b}' || c == 'B' || c == 'b' {
        Some(BLACK)
    } else if c == '\u{1f7e8}' || c == 'Y' || c == 'y' {
        Some(YELLOW)
    } else if c == '\u{1f7e9}' || c == 'G' || c == 'g' {
        Some(GREEN)
    } else {
        None
    }
}

/// The first `n` characters of `s` are all tiles.
pub open spec fn tiles_upto(s: Seq<char>, n: int) -> bool {
    forall|j: int| 0 <= j < n && j < s.len() ==> #[trigger] tile_value(s[j]) is Some
}

proof fn lemma_utf8_len_monotone(s: Seq<char>, k: int)
    requires
        0 <= k <= s.len(),
    ensures
        utf8_len(s.take(k)) <= utf8_len(s),
    decreases s.len(),
{
    if k < s.len() {
        lemma_utf8_len_monotone(s.drop_last(), k);
        assert(s.drop_last().take(k) =~= s.take(k));
    } else {
        assert(s.take(k) =~= s);
    }
}

proof fn lemma_utf8_len_ascii(s: Seq<char>)
    requires
        all_letters(s),
    ensures
        utf8_len(s) == s.len(),
    decreases s.len(),
{
    if s.len() > 0 {
        assert(is_ascii_letter(s[s.len() - 1]));
        lemma_utf8_len_ascii(s.drop_last());
    }
}

/// `t` is the text of a word: five bytes of UTF-8, all ASCII letters.
pub open spec fn is_word_text(t: Seq<char>) -> bool {
    utf8_len(t) == WORD_LEN && all_letters(t)
}

/// How a text that is no word is refused: `true` where it does not take five
/// bytes, `false` where a byte is not an ASCII letter.
pub open spec fn word_fault(t: Seq<char>) -> bool {
    utf8_len(t) != WORD_LEN
}

/// Reads the word spelled by `chars[start..end]`, or says why it is no word.
pub fn word_from_chars(chars: &Vec<char>, start: usize, end: usize) -> (res: Result<Word, bool>)
    requires
        start <= end <= chars@.len(),
    ensures
        match res {
            Ok(w) => is_word_text(chars@.subrange(start as int, end as int)) && spells(
                w,
                chars@.subrange(start as int, end as int),
            ) && is_word(w),
            Err(fault) => !is_word_text(chars@.subrange(start as int, end as int)) && fault
                == word_fault(chars@.subrange(start as int, end as int)),
        },
{
    let ghost t = chars@.subrange(start as int, end as int);
    let mut total: usize = 0;
    let mut i = start;
    while i < end && total <= WORD_LEN
        invariant
            start <= i <= end <= chars@.len(),
            t == chars@.subrange(start as int, end as int),
            total == utf8_len(t.take(i - start)),
            total <= WORD_LEN + 4,
        decreases end - i,
    {
        let c = chars[i];
        let code: u32 = c as u32;
        let width: usize = if code < 0x80 {
            1
        } else if code < 0x800 {
            2
        } else if code < 0x10000 {
            3
        } else {
            4
        };
        assert(t.take(i + 1 - start).drop_last() =~= t.take(i - start));
        total = total + width;
        i = i + 1;
    }
    proof {
        lemma_utf8_len_monotone(t, i - start);
        if i == end {
            assert(t.take(i - start) =~= t);
        }
    }
    if total != WORD_LEN {
        return Err(true);
    }
    let mut k = start;
    while k < end
        invariant
            start <= k <= end <= chars@.len(),
            t == chars@.subrange(start as int, end as int),
            utf8_len(t) == WORD_LEN,
            forall|j: int| 0 <= j < k - start ==> is_ascii_letter(#[trigger] t[j]),
        decreases end - k,
    {
        let c = chars[k];
        if !(('a' <= c && c <= 'z') || ('A' <= c && c <= 'Z')) {
            assert(!is_ascii_letter(t[k - start]));
            return Err(false);
        }
        k = k + 1;
    }
    proof {
        lemma_utf8_len_ascii(t);
    }
    let mut letters: Word = [0u8; WORD_LEN];
    for j in 0..WORD_LEN
        invariant
            end - start == WORD_LEN,
            start + WORD_LEN <= chars@.len(),
            t == chars@.subrange(start as int, end as int),
            all_letters(t),
            forall|q: int| 0 <= q < j ==> #[trigger] letters[q] == letter_value(t[q]) && letters[q] < 26,
    {
        let c = chars[start + j];
        assert(c == t[j as int]);
        assert(is_ascii_letter(t[j as int]));
        let lower = if 'A' <= c && c <= 'Z' {
            ((c as u8) + 32) as char
        } else {
            c
        };
        letters[j] = (lower as u8) - 97;
    }
    Ok(letters)
}

/// `err` is how the word text `t` is refused, carrying the text `word`.
pub open spec fn word_error(t: Seq<char>, word: Seq<char>, err: SolverError) -> bool {
    match err {
        SolverError::WordLength { word: w } => utf8_len(t) != WORD_LEN && w@ == word,
        SolverError::WordNotLowercase { word: w } => utf8_len(t) == WORD_LEN && !all_letters(t)
            && w@ == word,
        _ => false,
    }
}

/// Reads a five-letter word: the text is trimmed, and each of its five
/// characters must be an ASCII letter of either case.
pub fn parse_word(word: &str) -> (res: Result<Word, SolverError>)
    ensures
        match res {
            Ok(w) => is_word_text(trim(word@)) && spells(w, trim(word@)) && is_word(w),
            Err(e) => !is_word_text(trim(word@)) && word_error(trim(word@), word@, e),
        },
{
    let chars = chars_of(word);
    let (start, end) = trim_range(&chars, 0, chars.len());
    assert(chars@.subrange(0, chars@.len() as int) =~= chars@);
    match word_from_chars(&chars, start, end) {
        Ok(w) => Ok(w),
        Err(true) => Err(SolverError::WordLength { word: word.to_owned() }),
        Err(false) => Err(SolverError::WordNotLowercase { word: word.to_owned() }),
    }
}

/// The text of a word, one lower-case letter per position.
pub fn word_to_string(word: &Word) -> (s: String)
    requires
        is_word(*word),
    ensures
        s@ == word_text(*word),
{
    let mut s = String::new();
    for i in 0..WORD_LEN
        invariant
            is_word(*word),
            s@ == word_text(*word).take(i as int),
    {
        push_char(&mut s, (word[i] + 97) as char);
        assert(s@ =~= word_text(*word).take(i + 1));
    }
    assert(word_text(*word).take(WORD_LEN as int) =~= word_text(*word));
    s
}

/// The text of a score row: `B`, `Y` or `G` per tile.
pub fn match_to_string(row: &Match) -> (s: String)
    ensures
        s@ == match_text(row@),
{
    let mut s = String::new();
    for i in 0..WORD_LEN
        invariant
            s@ == match_text(row@).take(i as int),
    {
        let tile = row[i];
        let c = if tile == BLACK {
            'B'
        } else if tile == YELLOW {
            'Y'
        } else if tile == GREEN {
            'G'
        } else {
            '?'
        };
        push_char(&mut s, c);
        assert(s@ =~= match_text(row@).take(i + 1));
    }
    assert(match_text(row@).take(WORD_LEN as int) =~= match_text(row@));
    s
}

/// The tile that `c` stands for.
fn tile_of(c: char) -> (t: Option<u8>)
    ensures
        t == tile_value(c),
{
    if c == '\u{2b1b}' || c == 'B' || c == 'b' {
        Some(BLACK)
    } else if c == '\u{1f7e8}' || c == 'Y' || c == 'y' {
        Some(YELLOW)
    } else if c == '\u{1f7e9}' || c == 'G' || c == 'g' {
        Some(GREEN)
    } else {
        None
    }
}

/// Reads a score row from its text: the trimmed text must be five tile
/// characters. The first character that is no tile is reported, unless five
/// tiles come before it.
pub fn parse_match_text(match_text: &str) -> (res: Result<Match, SolverError>)
    ensures
        match res {
            Ok(m) => trim(match_text@).len() == WORD_LEN && is_match(m) && forall|i: int|
                0 <= i < WORD_LEN ==> tile_value(#[trigger] trim(match_text@)[i]) == Some(m[i]),
            Err(SolverError::UnknownTile { tile, text }) => text@ == match_text@ && exists|k: int|
                0 <= k < WORD_LEN && k < trim(match_text@).len() && tiles_upto(
                    trim(match_text@),
                    k,
                ) && #[trigger] tile_value(trim(match_text@)[k]) is None && tile == trim(
                    match_text@,
                )[k],
            Err(SolverError::MatchLength { text }) => text@ == match_text@ && trim(
                match_text@,
            ).len() != WORD_LEN && tiles_upto(trim(match_text@), WORD_LEN as int),
            _ => false,
        },
{
    let chars = chars_of(match_text);
    let (start, end) = trim_range(&chars, 0, chars.len());
    let ghost t = trim(match_text@);
    assert(chars@.subrange(0, chars@.len() as int) =~= chars@);
    assert(chars@.subrange(start as int, end as int) == t);
    let mut row: Match = [BLACK; WORD_LEN];
    let mut idx: usize = 0;
    while start + idx < end
        invariant
            start <= end <= chars@.len(),
            start + idx <= end,
            idx <= WORD_LEN,
            chars@.subrange(start as int, end as int) == t,
            t == trim(match_text@),
            tiles_upto(t, idx as int),
            forall|q: int| 0 <= q < idx ==> tile_value(#[trigger] t[q]) == Some(row[q]),
            forall|q: int| 0 <= q < WORD_LEN ==> #[trigger] row[q] <= GREEN,
        decreases end - (start + idx),
    {
        if idx >= WORD_LEN {
            return Err(SolverError::MatchLength { text: match_text.to_owned() });
        }
        let c = chars[start + idx];
        assert(c == t[idx as int]);
        match tile_of(c) {
            Some(v) => {
                row[idx] = v;
            },
            None => {
                return Err(SolverError::UnknownTile { tile: c, text: match_text.to_owned() });
            },
        }
        idx = idx + 1;
    }
    if idx != WORD_LEN {
        return Err(SolverError::MatchLength { text: match_text.to_owned() });
    }
    Ok(row)
}

/// A score row as it arrives: as text, or as tile values.
#[derive(Clone, Debug)]
pub enum MatchInput {
    Text(String),
    Tiles(Vec<u8>),
}

/// Whether `tiles` are five values in `0..=2`.
fn tiles_in_range(tiles: &Vec<u8>) -> (ok: bool)
    ensures
        ok == (tiles@.len() == WORD_LEN && forall|i: int| 0 <= i < WORD_LEN ==> #[trigger] tiles@[i] <= GREEN),
{
    if tiles.len() != WORD_LEN {
        return false;
    }
    for i in 0..WORD_LEN
        invariant
            tiles@.len() == WORD_LEN,
            forall|q: int| 0 <= q < i ==> #[trigger] tiles@[q] <= GREEN,
    {
        if tiles[i] > GREEN {
            return false;
        }
    }
    true
}

/// Reads a score row given as text or as tile values; tile values must be
/// five values in `0..=2`.
pub fn parse_match_input(input: MatchInput) -> (res: Result<Match, SolverError>)
    ensures
        match input {
            MatchInput::Text(text) => match res {
                Ok(m) => trim(text@).len() == WORD_LEN && is_match(m) && forall|i: int|
                    0 <= i < WORD_LEN ==> tile_value(#[trigger] trim(text@)[i]) == Some(m[i]),
                Err(SolverError::UnknownTile { tile, text: t }) => t@ == text@ && exists|k: int|
                    0 <= k < WORD_LEN && k < trim(text@).len() && tiles_upto(trim(text@), k)
                        && #[trigger] tile_value(trim(text@)[k]) is None && tile == trim(text@)[k],
                Err(SolverError::MatchLength { text: t }) => t@ == text@ && trim(text@).len()
                    != WORD_LEN && tiles_upto(trim(text@), WORD_LEN as int),
                _ => false,
            },
            MatchInput::Tiles(tiles) => match res {
                Ok(m) => m@ == tiles@ && is_match(m),
                Err(SolverError::TileValues { tiles: t }) => t@ == tiles@ && !(tiles@.len()
                    == WORD_LEN && forall|i: int| 0 <= i < WORD_LEN ==> #[trigger] tiles@[i] <= GREEN),
                _ => false,
            },
        },
{
    match input {
        MatchInput::Text(text) => parse_match_text(text.as_str()),
        MatchInput::Tiles(tiles) => {
            if !tiles_in_range(&tiles) {
                return Err(SolverError::TileValues { tiles });
            }
            let mut row: Match = [BLACK; WORD_LEN];
            for i in 0..WORD_LEN
                invariant
                    tiles@.len() == WORD_LEN,
                    forall|q: int| 0 <= q < WORD_LEN ==> #[trigger] tiles@[q] <= GREEN,
                    forall|q: int| 0 <= q < i ==> #[trigger] row[q] == tiles@[q],
            {
                row[i] = tiles[i];
            }
            assert(row@ =~= tiles@);
            Ok(row)
        },
    }
}

} // verus!
