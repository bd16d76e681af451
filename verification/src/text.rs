//! Cutting a mesh description into logical lines and words.

use vstd::prelude::*;

verus! {

/// The kinds of character at which a scan stops.
#[derive(Copy, Clone, Debug, PartialEq, Eq, Structural)]
pub enum Mark {
    /// A line feed.
    Newline,
    /// A white-space character.
    Space,
    /// Any character that is not white space.
    Ink,
    /// A slash.
    Slash,
    /// Any character that is not a decimal digit.
    NonDigit,
}

/// Whether `c` has the Unicode property `White_Space`.
pub open spec fn is_space(c: char) -> bool {
    let u = c as u32;
    ||| 0x09 <= u <= 0x0D
    ||| u == 0x20
    ||| u == 0x85
    ||| u == 0xA0
    ||| u == 0x1680
    ||| 0x2000 <= u <= 0x200A
    ||| u == 0x2028
    ||| u == 0x2029
    ||| u == 0x202F
    ||| u == 0x205F
    ||| u == 0x3000
}

/// Whether `c` is one of the digits `0` to `9`.
pub open spec fn is_digit(c: char) -> bool {
    '0' <= c <= '9'
}

impl Mark {
    /// Whether a scan for this mark stops at `c`.
    pub open spec fn at(self, c: char) -> bool {
        match self {
            Mark::Newline => c == '\n',
            Mark::Space => is_space(c),
            Mark::Ink => !is_space(c),
            Mark::Slash => c == '/',
            Mark::NonDigit => !is_digit(c),
        }
    }

    /// Computes [`Mark::at`].
    pub fn matches(self, c: char) -> (stop: bool)
        ensures
            stop == self.at(c),
    {
        match self {
            Mark::Newline => c == '\n',
            Mark::Space => white_space(c),
            Mark::Ink => !white_space(c),
            Mark::Slash => c == '/',
            Mark::NonDigit => !('0' <= c && c <= '9'),
        }
    }
}

/// Computes [`is_space`].
pub fn white_space(c: char) -> (space: bool)
    ensures
        space == is_space(c),
{
    let u: u32 = c as u32;
    (0x09 <= u && u <= 0x0D) || u == 0x20 || u == 0x85 || u == 0xA0 || u == 0x1680 || (0x2000 <= u
        && u <= 0x200A) || u == 0x2028 || u == 0x2029 || u == 0x202F || u == 0x205F || u == 0x3000
}

/// The first position at or after `from` that holds `mark`, or the length
/// of `s` if there is none.
pub open spec fn scan(s: Seq<char>, from: int, mark: Mark) -> int
    decreases s.len() - from,
{
    if from >= s.len() {
        s.len() as int
    } else if mark.at(s[from]) {
        from
    } else {
        scan(s, from + 1, mark)
    }
}

/// A scan ends within the text, at the mark, and passes none on its way.
pub proof fn lemma_scan(s: Seq<char>, from: int, mark: Mark)
    requires
        0 <= from <= s.len(),
    ensures
        from <= scan(s, from, mark) <= s.len(),
        scan(s, from, mark) < s.len() ==> mark.at(s[scan(s, from, mark)]),
        forall|j: int| from <= j < scan(s, from, mark) ==> !mark.at(#[trigger] s[j]),
    decreases s.len() - from,
{
    if from < s.len() && !mark.at(s[from]) {
        lemma_scan(s, from + 1, mark);
    }
}

/// Computes [`scan`].
pub fn find(s: &Vec<char>, from: usize, mark: Mark) -> (end: usize)
    requires
        from <= s@.len(),
    ensures
        end == scan(s@, from as int, mark),
        from <= end <= s@.len(),
{
    let mut i: usize = from;
    while i < s.len() && !mark.matches(s[i])
        invariant
            from <= i <= s@.len(),
            scan(s@, from as int, mark) == scan(s@, i as int, mark),
        decreases s@.len() - i,
    {
        i += 1;
    }
    i
}

/// Copies the characters of `s` from position `from` up to `to`.
pub fn copy_range(s: &Vec<char>, from: usize, to: usize) -> (part: Vec<char>)
    requires
        from <= to <= s@.len(),
    ensures
        part@ == s@.subrange(from as int, to as int),
{
    let mut part: Vec<char> = Vec::new();
    let mut i: usize = from;
    while i < to
        invariant
            from <= i <= to <= s@.len(),
            part@ == s@.subrange(from as int, i as int),
        decreases to - i,
    {
        part.push(s[i]);
        assert(part@ =~= s@.subrange(from as int, i as int + 1));
        i += 1;
    }
    part
}

/// The characters of a string.
pub fn to_chars(s: &str) -> (chars: Vec<char>)
    ensures
        chars@ == s@,
{
    let mut chars: Vec<char> = Vec::new();
    for c in it: s.chars()
        invariant
            chars@ == it.seq().take(it.index() as int),
            it.seq() == s@,
    {
        chars.push(c);
    }
    chars
}

/// The text from position `from` on with every backslash that is followed
/// by a line feed replaced, together with that line feed, by one space.
pub open spec fn joined_from(s: Seq<char>, from: int) -> Seq<char>
    decreases s.len() - from,
{
    if from >= s.len() {
        Seq::empty()
    } else if from + 1 < s.len() && s[from] == '\\' && s[from + 1] == '\n' {
        seq![' '] + joined_from(s, from + 2)
    } else {
        seq![s[from]] + joined_from(s, from + 1)
    }
}

/// The text with its continued lines joined: see [`joined_from`].
pub open spec fn joined(s: Seq<char>) -> Seq<char> {
    joined_from(s, 0)
}

/// Computes [`joined`].
pub fn join_continuations(s: &Vec<char>) -> (out: Vec<char>)
    ensures
        out@ == joined(s@),
{
    let mut out: Vec<char> = Vec::new();
    let mut i: usize = 0;
    while i < s.len()
        invariant
            i <= s@.len(),
            joined(s@) == out@ + joined_from(s@, i as int),
        decreases s@.len() - i,
    {
        if s[i] == '\\' && i + 1 < s.len() && s[i + 1] == '\n' {
            assert(out@.push(' ') + joined_from(s@, i + 2) =~= out@ + (seq![' '] + joined_from(
                s@,
                i + 2,
            )));
            out.push(' ');
            i += 2;
        } else {
            assert(out@.push(s@[i as int]) + joined_from(s@, i + 1) =~= out@ + (seq![s@[i as int]]
                + joined_from(s@, i + 1)));
            out.push(s[i]);
            i += 1;
        }
    }
    assert(out@ + joined_from(s@, i as int) =~= out@);
    out
}

/// The lines of the text from position `from` on: the pieces between line
/// feeds. A text that ends in a line feed has an empty last line.
pub open spec fn lines_from(s: Seq<char>, from: int) -> Seq<Seq<char>>
    decreases s.len() - from,
{
    let end = scan(s, from, Mark::Newline);
    if from < 0 || from > s.len() {
        Seq::empty()
    } else if end >= s.len() {
        seq![s.subrange(from, s.len() as int)]
    } else {
        proof {
            lemma_scan(s, from, Mark::Newline);
        }
        seq![s.subrange(from, end)] + lines_from(s, end + 1)
    }
}

/// The lines of the text: see [`lines_from`].
pub open spec fn lines(s: Seq<char>) -> Seq<Seq<char>> {
    lines_from(s, 0)
}

/// The rows of characters that a vector of vectors holds.
pub open spec fn rows(v: Seq<Vec<char>>) -> Seq<Seq<char>> {
    Seq::new(v.len(), |i: int| v[i]@)
}

/// Computes [`lines`].
pub fn split_lines(s: &Vec<char>) -> (out: Vec<Vec<char>>)
    ensures
        rows(out@) == lines(s@),
{
    let mut out: Vec<Vec<char>> = Vec::new();
    let mut i: usize = 0;
    assert(rows(out@) + lines_from(s@, 0) =~= lines(s@));
    loop
        invariant_except_break
            lines(s@) == rows(out@) + lines_from(s@, i as int),
        invariant
            i <= s@.len(),
        ensures
            rows(out@) == lines(s@),
        decreases s@.len() - i,
    {
        let end = find(s, i, Mark::Newline);
        let line = copy_range(s, i, end);
        let ghost before = rows(out@);
        out.push(line);
        assert(rows(out@) =~= before.push(line@));
        if end >= s.len() {
            assert(before.push(line@) =~= before + seq![line@]);
            break;
        }
        assert(before.push(line@) + lines_from(s@, end + 1) =~= before + (seq![line@] + lines_from(
            s@,
            end + 1,
        )));
        i = end + 1;
    }
    out
}

/// The words of the text from position `from` on: the longest runs of
/// characters that are not white space.
pub open spec fn words_from(s: Seq<char>, from: int) -> Seq<Seq<char>>
    decreases s.len() - from,
{
    let begin = scan(s, from, Mark::Ink);
    let end = scan(s, begin, Mark::Space);
    if from < 0 || begin >= s.len() {
        Seq::empty()
    } else {
        proof {
            lemma_scan(s, from, Mark::Ink);
            lemma_scan(s, begin, Mark::Space);
        }
        seq![s.subrange(begin, end)] + words_from(s, end)
    }
}

/// The words of a line: see [`words_from`].
pub open spec fn words(s: Seq<char>) -> Seq<Seq<char>> {
    words_from(s, 0)
}

/// Computes [`words`].
pub fn split_words(s: &Vec<char>) -> (out: Vec<Vec<char>>)
    ensures
        rows(out@) == words(s@),
{
    let mut out: Vec<Vec<char>> = Vec::new();
    let mut i: usize = 0;
    assert(rows(out@) + words_from(s@, 0) =~= words(s@));
    loop
        invariant_except_break
            words(s@) == rows(out@) + words_from(s@, i as int),
        invariant
            i <= s@.len(),
        ensures
            rows(out@) == words(s@),
        decreases s@.len() - i,
    {
        let begin = find(s, i, Mark::Ink);
        if begin >= s.len() {
            assert(rows(out@) + words_from(s@, i as int) =~= rows(out@));
            break;
        }
        let end = find(s, begin, Mark::Space);
        proof {
            lemma_scan(s@, begin as int, Mark::Space);
        }
        let word = copy_range(s, begin, end);
        let ghost before = rows(out@);
        out.push(word);
        assert(rows(out@) =~= before.push(word@));
        assert(before.push(word@) + words_from(s@, end as int) =~= before + (seq![word@]
            + words_from(s@, end as int)));
        i = end;
    }
    out
}

/// Every word is non-empty and free of white space.
pub proof fn lemma_words_are_ink(s: Seq<char>, from: int)
    requires
        0 <= from <= s.len(),
    ensures
        forall|k: int|
            0 <= k < words_from(s, from).len() ==> (#[trigger] words_from(s, from)[k]).len() > 0
                && forall|j: int|
                0 <= j < words_from(s, from)[k].len() ==> !is_space(words_from(s, from)[k][j]),
    decreases s.len() - from,
{
    let begin = scan(s, from, Mark::Ink);
    let end = scan(s, begin, Mark::Space);
    lemma_scan(s, from, Mark::Ink);
    if begin < s.len() {
        lemma_scan(s, begin, Mark::Space);
        lemma_words_are_ink(s, end);
        let rest = words_from(s, end);
        let word = s.subrange(begin, end);
        assert(words_from(s, from) == seq![word] + rest);
        assert forall|k: int| 0 <= k < words_from(s, from).len() implies (#[trigger] words_from(
            s,
            from,
        )[k]).len() > 0 && forall|j: int|
            0 <= j < words_from(s, from)[k].len() ==> !is_space(words_from(s, from)[k][j]) by {
            if k == 0 {
                assert(words_from(s, from)[0] == word);
                assert forall|j: int| 0 <= j < word.len() implies !is_space(word[j]) by {
                    assert(word[j] == s[begin + j]);
                }
            } else {
                assert(words_from(s, from)[k] == rest[k - 1]);
            }
        }
    }
}

} // verus!
