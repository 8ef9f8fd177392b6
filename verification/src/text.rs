//! Lines and whitespace-separated tokens of a byte stream.
//!
//! A stream is cut into lines at every line feed; a last line without a line
//! feed counts when it is not empty. A line is cut into tokens at runs of
//! whitespace. A carriage return is whitespace, so text with either kind of
//! line ending yields the same tokens.

use vstd::prelude::*;

verus! {

/// The separators between tokens: space, tab, line feed, vertical tab,
/// form feed and carriage return.
pub open spec fn is_space(b: u8) -> bool {
    b == 32 || (9 <= b && b <= 13)
}

/// Number of bytes from index `from` up to the next line feed or the end.
pub open spec fn line_len(s: Seq<u8>, from: int) -> nat
    decreases s.len() - from,
{
    if 0 <= from < s.len() && s[from] != 10 {
        (1 + line_len(s, from + 1)) as nat
    } else {
        0
    }
}

/// The lines of `s` that start at index `from` or later.
pub open spec fn lines_from(s: Seq<u8>, from: int) -> Seq<Seq<u8>>
    decreases s.len() - from,
{
    if 0 <= from < s.len() {
        let end = from + line_len(s, from);
        if end < s.len() {
            seq![s.subrange(from, end)] + lines_from(s, end + 1)
        } else {
            seq![s.subrange(from, end)]
        }
    } else {
        Seq::empty()
    }
}

/// The lines of a whole text.
pub open spec fn split_lines(s: Seq<u8>) -> Seq<Seq<u8>> {
    lines_from(s, 0)
}

/// Number of bytes from index `from` up to the next separator or the end.
pub open spec fn token_len(s: Seq<u8>, from: int) -> nat
    decreases s.len() - from,
{
    if 0 <= from < s.len() && !is_space(s[from]) {
        (1 + token_len(s, from + 1)) as nat
    } else {
        0
    }
}

/// The tokens of `s` that start at index `from` or later.
pub open spec fn tokens_from(s: Seq<u8>, from: int) -> Seq<Seq<u8>>
    decreases s.len() - from,
{
    if 0 <= from < s.len() {
        if is_space(s[from]) {
            tokens_from(s, from + 1)
        } else {
            let end = from + 1 + token_len(s, from + 1);
            if end < s.len() {
                seq![s.subrange(from, end)] + tokens_from(s, end)
            } else {
                seq![s.subrange(from, end)]
            }
        }
    } else {
        Seq::empty()
    }
}

/// The whitespace-separated tokens of a line, in order.
pub open spec fn tokens(s: Seq<u8>) -> Seq<Seq<u8>> {
    tokens_from(s, 0)
}

/// Tells whether a byte separates tokens.
pub fn is_space_byte(b: u8) -> (r: bool)
    ensures
        r == is_space(b),
{
    b == 32 || (9 <= b && b <= 13)
}

/// Finds the tokens of a line. Each pair holds the index of a token's first
/// byte and the index just past its last byte.
pub fn token_spans(line: &[u8]) -> (spans: Vec<(usize, usize)>)
    ensures
        spans.len() == tokens(line@).len(),
        forall|k: int|
            0 <= k < spans.len() ==> {
                &&& (#[trigger] spans[k]).0 < spans[k].1 <= line.len()
                &&& line@.subrange(spans[k].0 as int, spans[k].1 as int) == tokens(line@)[k]
            },
{
    let n = line.len();
    let mut spans: Vec<(usize, usize)> = Vec::new();
    let ghost mut done: Seq<Seq<u8>> = Seq::empty();
    let mut i: usize = 0;
    while i < n
        invariant
            i <= n,
            n == line.len(),
            tokens(line@) == done + tokens_from(line@, i as int),
            spans.len() == done.len(),
            forall|k: int|
                0 <= k < spans.len() ==> {
                    &&& (#[trigger] spans[k]).0 < spans[k].1 <= n
                    &&& line@.subrange(spans[k].0 as int, spans[k].1 as int) == done[k]
                },
        decreases n - i,
    {
        if is_space_byte(line[i]) {
            i += 1;
        } else {
            let start = i;
            let mut j: usize = i + 1;
            while j < n && !is_space_byte(line[j])
                invariant
                    start < j <= n,
                    n == line.len(),
                    start + 1 + token_len(line@, start + 1) == j + token_len(line@, j as int),
                decreases n - j,
            {
                j += 1;
            }
            proof {
                let token = line@.subrange(start as int, j as int);
                assert(tokens_from(line@, start as int) == seq![token] + tokens_from(
                    line@,
                    j as int,
                ));
                assert(done.push(token) + tokens_from(line@, j as int) =~= done + (seq![token]
                    + tokens_from(line@, j as int)));
                done = done.push(token);
            }
            spans.push((start, j));
            i = j;
        }
    }
    assert(done + tokens_from(line@, n as int) =~= done);
    spans
}

/// A text that is read line by line.
pub struct LineReader {
    bytes: Vec<u8>,
    pos: usize,
}

impl LineReader {
    #[verifier::type_invariant]
    spec fn in_bounds(self) -> bool {
        self.pos <= self.bytes.len()
    }

    /// The lines that have not been read yet.
    pub closed spec fn lines(self) -> Seq<Seq<u8>> {
        lines_from(self.bytes@, self.pos as int)
    }

    /// A reader at the start of `bytes`.
    pub fn new(bytes: Vec<u8>) -> (reader: Self)
        ensures
            reader.lines() == split_lines(bytes@),
    {
        LineReader { bytes, pos: 0 }
    }

    /// Takes the next line off the text, without its line feed.
    pub fn next_line(&mut self) -> (line: Option<Vec<u8>>)
        ensures
            match line {
                Some(bytes) => {
                    &&& old(self).lines().len() > 0
                    &&& bytes@ == old(self).lines()[0]
                    &&& final(self).lines() == old(self).lines().skip(1)
                },
                None => old(self).lines().len() == 0 && final(self).lines() == old(self).lines(),
            },
    {
        proof {
            use_type_invariant(&*self);
        }
        let n = self.bytes.len();
        let start = self.pos;
        if start >= n {
            return None;
        }
        let mut out: Vec<u8> = Vec::new();
        let mut i: usize = start;
        while i < n && self.bytes[i] != 10
            invariant
                start <= i <= n,
                n == self.bytes.len(),
                start == self.pos,
                *self == *old(self),
                out@ == self.bytes@.subrange(start as int, i as int),
                start + line_len(self.bytes@, start as int) == i + line_len(self.bytes@, i as int),
            decreases n - i,
        {
            out.push(self.bytes[i]);
            i += 1;
        }
        let ghost rest = lines_from(self.bytes@, i + 1);
        assert(old(self).lines() == seq![out@] + rest);
        assert((seq![out@] + rest).skip(1) =~= rest);
        if i < n {
            self.pos = i + 1;
        } else {
            self.pos = n;
        }
        Some(out)
    }
}

} // verus!
