//! The commands of the interactive terminal front end, parsed from a line of
//! input: `n` (next page), `p` (previous page), `s <n>` / `r <n>` (select or
//! reject the n-th visible image, counting from 1) and `q` (quit).

use vstd::prelude::*;
use vstd::string::*;

verus! {

/// A parsed command line.
#[derive(Debug, Clone, Copy, PartialEq, Eq, Structural)]
pub enum Command {
    Next,
    Prev,
    /// Select the image at this (0-based) position of the visible page.
    Select(usize),
    /// Reject the image at this (0-based) position of the visible page.
    Reject(usize),
    Quit,
    /// `s` or `r` followed by something that is not a number.
    InvalidIndex,
    /// Anything else.
    Unknown,
}

/// Unicode white space, as `char::is_whitespace` defines it.
pub open spec fn is_space(c: char) -> bool {
    ||| ('\u{9}' <= c && c <= '\u{d}')
    ||| c == ' '
    ||| c == '\u{85}'
    ||| c == '\u{a0}'
    ||| c == '\u{1680}'
    ||| ('\u{2000}' <= c && c <= '\u{200a}')
    ||| c == '\u{2028}'
    ||| c == '\u{2029}'
    ||| c == '\u{202f}'
    ||| c == '\u{205f}'
    ||| c == '\u{3000}'
}

fn space(c: char) -> (b: bool)
    ensures
        b == is_space(c),
{
    ('\u{9}' <= c && c <= '\u{d}') || c == ' ' || c == '\u{85}' || c == '\u{a0}' || c
        == '\u{1680}' || ('\u{2000}' <= c && c <= '\u{200a}') || c == '\u{2028}' || c
        == '\u{2029}' || c == '\u{202f}' || c == '\u{205f}' || c == '\u{3000}'
}

/// The white-space-separated words of a line, in order.
pub open spec fn words(s: Seq<char>) -> Seq<Seq<char>>
    decreases s.len(),
{
    if s.len() == 0 {
        Seq::empty()
    } else if is_space(s[0]) {
        words(s.drop_first())
    } else {
        let n = word_len(s);
        proof {
            lemma_word_len_bounds(s);
        }
        seq![s.take(n)] + words(s.skip(n))
    }
}

/// The length of the run of non-space characters that starts `s`.
pub open spec fn word_len(s: Seq<char>) -> int
    decreases s.len(),
{
    if s.len() == 0 || is_space(s[0]) {
        0
    } else {
        1 + word_len(s.drop_first())
    }
}

/// A word is a non-empty run of non-space characters that ends at a space or
/// at the end of the line.
pub proof fn lemma_word_len_bounds(s: Seq<char>)
    ensures
        0 <= word_len(s) <= s.len(),
        s.len() > 0 && !is_space(s[0]) ==> word_len(s) > 0,
        forall|i: int| 0 <= i < word_len(s) ==> !is_space(#[trigger] s[i]),
        word_len(s) < s.len() ==> is_space(s[word_len(s)]),
    decreases s.len(),
{
    if s.len() > 0 && !is_space(s[0]) {
        lemma_word_len_bounds(s.drop_first());
        assert forall|i: int| 0 <= i < word_len(s) implies !is_space(#[trigger] s[i]) by {
            if i > 0 {
                assert(s[i] == s.drop_first()[i - 1]);
            }
        }
        if word_len(s) < s.len() {
            assert(s[word_len(s)] == s.drop_first()[word_len(s) - 1]);
        }
    }
}

/// The decimal value of a sequence of ASCII digits.
pub open spec fn decimal_value(d: Seq<char>) -> nat
    decreases d.len(),
{
    if d.len() == 0 {
        0
    } else {
        decimal_value(d.drop_last()) * 10 + ((d.last() as nat) - ('0' as nat)) as nat
    }
}

/// Whether every character is an ASCII digit.
pub open spec fn all_digits(d: Seq<char>) -> bool {
    forall|i: int| 0 <= i < d.len() ==> '0' <= #[trigger] d[i] && d[i] <= '9'
}

/// The digits of a number text: without its leading `+`, if it has one.
pub open spec fn number_digits(t: Seq<char>) -> Seq<char> {
    if t.len() > 0 && t[0] == '+' {
        t.drop_first()
    } else {
        t
    }
}

/// What `str::parse::<usize>` gives: an optional `+`, then one or more ASCII
/// digits whose value fits in a `usize`.
pub open spec fn parse_count(t: Seq<char>) -> Option<usize> {
    let d = number_digits(t);
    if d.len() > 0 && all_digits(d) && decimal_value(d) <= usize::MAX {
        Some(decimal_value(d) as usize)
    } else {
        None
    }
}

/// The command a line of input stands for.
pub open spec fn command_of(line: Seq<char>) -> Command {
    let w = words(line);
    if w.len() == 1 && w[0] == seq!['n'] {
        Command::Next
    } else if w.len() == 1 && w[0] == seq!['p'] {
        Command::Prev
    } else if w.len() == 1 && w[0] == seq!['q'] {
        Command::Quit
    } else if w.len() == 2 && (w[0] == seq!['s'] || w[0] == seq!['r']) {
        match parse_count(w[1]) {
            Some(n) => {
                let index = if n > 0 {
                    (n - 1) as usize
                } else {
                    0
                };
                if w[0] == seq!['s'] {
                    Command::Select(index)
                } else {
                    Command::Reject(index)
                }
            },
            None => Command::InvalidIndex,
        }
    } else {
        Command::Unknown
    }
}

/// The characters of `line` in `[start, end)`.
fn slice_chars(line: &str, start: usize, end: usize) -> (out: Vec<char>)
    requires
        start <= end <= line@.len(),
    ensures
        out@ == line@.subrange(start as int, end as int),
{
    let mut out: Vec<char> = Vec::new();
    let mut i = start;
    while i < end
        invariant
            start <= i <= end <= line@.len(),
            out@ == line@.subrange(start as int, i as int),
        decreases end - i,
    {
        out.push(line.get_char(i));
        i = i + 1;
        assert(out@ =~= line@.subrange(start as int, i as int));
    }
    out
}

/// Split a line into its white-space-separated words.
fn split_words(line: &str) -> (out: Vec<Vec<char>>)
    ensures
        out@.len() == words(line@).len(),
        forall|i: int| 0 <= i < out@.len() ==> #[trigger] out@[i]@ == words(line@)[i],
{
    let len = line.unicode_len();
    let mut out: Vec<Vec<char>> = Vec::new();
    let mut i: usize = 0;
    assert(line@.skip(0) =~= line@);
    while i < len
        invariant
            len == line@.len(),
            i <= len,
            forall|j: int| 0 <= j < out@.len() ==> #[trigger] out@[j]@ == words(line@)[j],
            words(line@) =~= out@.map_values(|v: Vec<char>| v@) + words(line@.skip(i as int)),
        decreases len - i,
    {
        let ghost rest = line@.skip(i as int);
        assert(rest[0] == line@[i as int]);
        if space(line.get_char(i)) {
            assert(rest.drop_first() =~= line@.skip(i + 1));
            i = i + 1;
        } else {
            let mut j = i;
            proof {
                lemma_word_len_bounds(rest);
            }
            while j < len && !space(line.get_char(j))
                invariant
                    len == line@.len(),
                    i <= j <= len,
                    rest == line@.skip(i as int),
                    j - i <= word_len(rest),
                    0 <= word_len(rest) <= rest.len(),
                    forall|k: int| 0 <= k < word_len(rest) ==> !is_space(#[trigger] rest[k]),
                    word_len(rest) < rest.len() ==> is_space(rest[word_len(rest)]),
                decreases len - j,
            {
                assert(rest[j - i] == line@[j as int]);
                j = j + 1;
            }
            proof {
                if j < len {
                    assert(rest[j - i] == line@[j as int]);
                }
                assert(j - i == word_len(rest));
            }
            let word = slice_chars(line, i, j);
            let ghost before = out@;
            out.push(word);
            proof {
                assert(rest.take(j - i) =~= line@.subrange(i as int, j as int));
                assert(rest.skip(j - i) =~= line@.skip(j as int));
                assert(out@.map_values(|v: Vec<char>| v@) =~= before.map_values(|v: Vec<char>| v@).push(word@));
                assert(words(rest) =~= seq![rest.take(j - i)] + words(rest.skip(j - i)));
            }
            i = j;
        }
    }
    proof {
        assert(line@.skip(len as int) =~= Seq::<char>::empty());
        assert(words(line@) =~= out@.map_values(|v: Vec<char>| v@));
        assert forall|k: int| 0 <= k < out@.len() implies #[trigger] out@[k]@ == words(line@)[k] by {
            assert(out@.map_values(|v: Vec<char>| v@)[k] == out@[k]@);
        }
    }
    out
}

/// Whether `word` is the single character `c`.
fn is_word(word: &Vec<char>, c: char) -> (b: bool)
    ensures
        b == (word@ == seq![c]),
{
    if word.len() == 1 && word[0] == c {
        assert(word@ =~= seq![c]);
        true
    } else {
        false
    }
}

proof fn lemma_decimal_push(d: Seq<char>, c: char)
    ensures
        decimal_value(d.push(c)) == decimal_value(d) * 10 + ((c as nat) - ('0' as nat)) as nat,
{
    assert(d.push(c).drop_last() =~= d);
}

/// `str::parse::<usize>`: an optional `+`, then ASCII digits, without overflow.
fn parse_number(t: &Vec<char>) -> (n: Option<usize>)
    ensures
        n == parse_count(t@),
{
    let start: usize = if t.len() > 0 && t[0] == '+' { 1 } else { 0 };
    let ghost d = number_digits(t@);
    proof {
        assert(d =~= t@.skip(start as int));
    }
    if start == t.len() {
        return None;
    }
    let mut value: usize = 0;
    let mut i = start;
    assert(d.take(0) =~= Seq::<char>::empty());
    while i < t.len()
        invariant
            start <= i <= t@.len(),
            start < t@.len(),
            d == t@.skip(start as int),
            d == number_digits(t@),
            all_digits(d.take(i - start)),
            value == decimal_value(d.take(i - start)),
        decreases t@.len() - i,
    {
        let c = t[i];
        assert(d[i - start] == c);
        assert(d.take(i - start + 1) =~= d.take(i - start).push(c));
        if c < '0' || c > '9' {
            assert(!('0' <= d[i - start] && d[i - start] <= '9'));
            assert(!all_digits(d));
            return None;
        }
        let digit = (c as u32 - '0' as u32) as usize;
        proof {
            lemma_decimal_push(d.take(i - start), c);
        }
        let next: u128 = (value as u128) * 10 + (digit as u128);
        proof {
            assert(all_digits(d.take(i - start + 1))) by {
                assert forall|j: int| 0 <= j < i - start + 1 implies '0' <= #[trigger] d.take(
                    i - start + 1,
                )[j] && d.take(i - start + 1)[j] <= '9' by {
                    if j < i - start {
                        assert(d.take(i - start + 1)[j] == d.take(i - start)[j]);
                    }
                }
            }
        }
        if next > usize::MAX as u128 {
            proof {
                lemma_prefix_value_bound(d, (i - start + 1) as int);
            }
            return None;
        }
        value = next as usize;
        i = i + 1;
    }
    assert(d.take(i - start) =~= d);
    Some(value)
}

/// The value of digits never shrinks when more digits follow.
proof fn lemma_prefix_value_bound(d: Seq<char>, k: int)
    requires
        0 <= k <= d.len(),
        all_digits(d.take(k)),
    ensures
        all_digits(d) ==> decimal_value(d.take(k)) <= decimal_value(d),
    decreases d.len() - k,
{
    if k < d.len() && all_digits(d) {
        assert(d.take(k + 1) =~= d.take(k).push(d[k]));
        lemma_decimal_push(d.take(k), d[k]);
        lemma_prefix_value_bound(d, k + 1);
    } else if k == d.len() {
        assert(d.take(k) =~= d);
    }
}

/// Parse a line of input into a command.
pub fn parse_command(line: &str) -> (cmd: Command)
    ensures
        cmd == command_of(line@),
{
    let w = split_words(line);
    if w.len() == 1 && is_word(&w[0], 'n') {
        Command::Next
    } else if w.len() == 1 && is_word(&w[0], 'p') {
        Command::Prev
    } else if w.len() == 1 && is_word(&w[0], 'q') {
        Command::Quit
    } else if w.len() == 2 && (is_word(&w[0], 's') || is_word(&w[0], 'r')) {
        match parse_number(&w[1]) {
            Some(n) => {
                let index = if n > 0 { n - 1 } else { 0 };
                if is_word(&w[0], 's') {
                    Command::Select(index)
                } else {
                    Command::Reject(index)
                }
            },
            None => Command::InvalidIndex,
        }
    } else {
        Command::Unknown
    }
}

} // verus!
