//! The position index: from a character offset to a 1-based line and column,
//! and from a line number back to the line's text.

use crate::text::{chars_of, push_chars};
use vstd::prelude::*;

verus! {

/// The text as the index keeps it: a newline is appended unless the text
/// already ends with one.
pub open spec fn normalized(text: Seq<char>) -> Seq<char> {
    if text.len() > 0 && text.last() == '\n' {
        text
    } else {
        text.push('\n')
    }
}

/// The offsets at which lines start, in ascending order: offset 0, and the
/// offset just past every newline.
pub open spec fn line_starts(s: Seq<char>) -> Seq<int>
    decreases s.len(),
{
    if s.len() == 0 {
        seq![0int]
    } else if s.last() == '\n' {
        line_starts(s.drop_last()).push(s.len() as int)
    } else {
        line_starts(s.drop_last())
    }
}

/// The 1-based line that holds `offset`: the number of line starts at or
/// before it. An offset beyond the text belongs to the last line.
pub open spec fn line_of(s: Seq<char>, offset: int) -> int {
    if offset > s.len() {
        line_starts(s).len() as int
    } else {
        line_starts(s.take(offset)).len() as int
    }
}

/// The 1-based column of `offset` within its line. An offset beyond the text
/// is reported at column 1.
pub open spec fn col_of(s: Seq<char>, offset: int) -> int {
    if offset > s.len() {
        1
    } else {
        offset - line_starts(s.take(offset)).last() + 1
    }
}

/// The text of line `line`, its newline included, when the line is followed
/// by another line start; no text otherwise.
pub open spec fn line_text(s: Seq<char>, line: int) -> Option<Seq<char>> {
    let starts = line_starts(s);
    if 1 <= line < starts.len() {
        Some(s.subrange(starts[line - 1], starts[line]))
    } else {
        None
    }
}

/// Line starts begin with 0, lie within the text, ascend strictly, and each
/// but the first stands just past a newline.
pub proof fn lemma_line_starts_shape(s: Seq<char>)
    ensures
        line_starts(s).len() >= 1,
        line_starts(s)[0] == 0,
        forall|k: int| 0 <= k < line_starts(s).len() ==> 0 <= #[trigger] line_starts(s)[k] <= s.len(),
        forall|j: int, k: int|
            0 <= j < k < line_starts(s).len() ==> line_starts(s)[j] < line_starts(s)[k],
        forall|k: int|
            0 < k < line_starts(s).len() ==> s[#[trigger] line_starts(s)[k] - 1] == '\n',
        s.len() > 0 && s.last() == '\n' ==> line_starts(s).last() == s.len(),
    decreases s.len(),
{
    if s.len() > 0 {
        let p = s.drop_last();
        lemma_line_starts_shape(p);
        let f = line_starts(s);
        assert forall|k: int| 0 < k < f.len() implies s[#[trigger] f[k] - 1] == '\n' by {
            if k < line_starts(p).len() {
                assert(f[k] == line_starts(p)[k]);
                assert(p[f[k] - 1] == s[f[k] - 1]);
            }
        }
    }
}

/// The line starts of a prefix are the line starts of the whole text that do
/// not lie beyond the prefix.
pub proof fn lemma_line_starts_prefix(s: Seq<char>, offset: int)
    requires
        0 <= offset <= s.len(),
    ensures
        line_starts(s.take(offset)).len() <= line_starts(s).len(),
        line_starts(s.take(offset)) == line_starts(s).take(
            line_starts(s.take(offset)).len() as int,
        ),
        forall|k: int|
            0 <= k < line_starts(s.take(offset)).len() ==> #[trigger] line_starts(s)[k] <= offset,
        forall|k: int|
            line_starts(s.take(offset)).len() <= k < line_starts(s).len()
                ==> #[trigger] line_starts(s)[k] > offset,
    decreases s.len(),
{
    if offset == s.len() {
        assert(s.take(offset) =~= s);
        lemma_line_starts_shape(s);
        assert(line_starts(s).take(line_starts(s).len() as int) =~= line_starts(s));
    } else {
        let p = s.drop_last();
        assert(p.take(offset) =~= s.take(offset));
        lemma_line_starts_prefix(p, offset);
        lemma_line_starts_shape(p);
        let n = line_starts(s.take(offset)).len() as int;
        assert(line_starts(p).take(n) =~= line_starts(s).take(n));
    }
}

/// The line number never decreases as the offset grows.
pub proof fn lemma_line_monotonic(s: Seq<char>, a: int, b: int)
    requires
        0 <= a <= b,
    ensures
        line_of(s, a) <= line_of(s, b),
{
    if a <= s.len() {
        lemma_line_starts_prefix(s, a);
        if b <= s.len() {
            lemma_line_starts_prefix(s, b);
            lemma_line_starts_shape(s);
            let na = line_starts(s.take(a)).len() as int;
            let nb = line_starts(s.take(b)).len() as int;
            if na > nb {
                assert(line_starts(s)[nb] <= a);
                assert(line_starts(s)[nb] > b);
            }
        }
    }
}

/// Every offset within the span of line `n`, from its start up to the start
/// of the next line, is reported on line `n`, at its distance from the
/// line's start plus one.
pub proof fn lemma_line_span(s: Seq<char>, n: int, offset: int)
    requires
        1 <= n <= line_starts(s).len(),
        line_starts(s)[n - 1] <= offset <= s.len(),
        n < line_starts(s).len() ==> offset < line_starts(s)[n],
    ensures
        line_of(s, offset) == n,
        col_of(s, offset) == offset - line_starts(s)[n - 1] + 1,
{
    lemma_line_starts_shape(s);
    lemma_line_starts_prefix(s, offset);
    let m = line_starts(s.take(offset)).len() as int;
    lemma_line_starts_shape(s.take(offset));
    if m < n {
        assert(line_starts(s)[n - 1] > offset);
    }
    if m > n {
        assert(line_starts(s)[n] <= offset);
    }
    assert(line_starts(s.take(offset)).last() == line_starts(s).take(m)[m - 1]);
}

/// An index over a source text that answers where an offset lies.
#[derive(Debug)]
pub struct LinePos {
    content: Vec<char>,
    start_offset: Vec<usize>,
}

impl View for LinePos {
    type V = Seq<char>;

    /// The normalized text that the index was built from.
    closed spec fn view(&self) -> Seq<char> {
        self.content@
    }
}

impl Clone for LinePos {
    fn clone(&self) -> (r: Self)
        ensures
            r@ == self@,
    {
        proof {
            use_type_invariant(self);
        }
        let content = self.content.clone();
        let start_offset = self.start_offset.clone();
        assert(content@ =~= self.content@);
        assert(start_offset@ =~= self.start_offset@);
        LinePos { content, start_offset }
    }
}

impl LinePos {
    #[verifier::type_invariant]
    spec fn well_formed(&self) -> bool {
        &&& self.content@.len() > 0
        &&& self.content@.last() == '\n'
        &&& self.start_offset@.len() == line_starts(self.content@).len()
        &&& forall|k: int|
            0 <= k < self.start_offset@.len() ==> self.start_offset@[k] as int == line_starts(
                self.content@,
            )[k]
    }

    /// Builds the index of `content`, normalizing it to end with a newline.
    pub fn new(content: &str) -> (r: Self)
        ensures
            r@ == normalized(content@),
    {
        let mut chars = chars_of(content);
        let n = chars.len();
        if n == 0 || chars[n - 1] != '\n' {
            chars.push('\n');
        }
        assert(chars@ == normalized(content@));
        let mut start_offset: Vec<usize> = Vec::new();
        start_offset.push(0);
        let mut i: usize = 0;
        assert(chars@.take(0).len() == 0);
        while i < chars.len()
            invariant
                i <= chars.len(),
                start_offset@.len() == line_starts(chars@.take(i as int)).len(),
                forall|k: int|
                    0 <= k < start_offset@.len() ==> start_offset@[k] as int == line_starts(
                        chars@.take(i as int),
                    )[k],
            decreases chars.len() - i,
        {
            proof {
                let next = chars@.take(i + 1);
                assert(next.drop_last() =~= chars@.take(i as int));
                assert(next.last() == chars@[i as int]);
            }
            if chars[i] == '\n' {
                start_offset.push(i + 1);
            }
            i += 1;
        }
        assert(chars@.take(i as int) =~= chars@);
        LinePos { content: chars, start_offset }
    }

    /// The 1-based line and column of `offset`.
    ///
    /// An offset past the end of the text is clamped: it is reported on the
    /// last line, at column 1.
    pub fn line_col(&self, offset: usize) -> (r: (usize, usize))
        ensures
            r.0 == line_of(self@, offset as int),
            r.1 == col_of(self@, offset as int),
            1 <= r.0 <= line_starts(self@).len(),
            1 <= r.1,
    {
        proof {
            use_type_invariant(self);
            lemma_line_starts_shape(self.content@);
        }
        if offset > self.content.len() {
            return (self.start_offset.len(), 1);
        }
        let mut lo: usize = 1;
        let mut hi: usize = self.start_offset.len();
        while lo < hi
            invariant
                1 <= lo <= hi <= self.start_offset@.len(),
                self.start_offset@.len() == line_starts(self.content@).len(),
                forall|k: int|
                    0 <= k < self.start_offset@.len() ==> self.start_offset@[k] as int
                        == line_starts(self.content@)[k],
                forall|j: int, k: int|
                    0 <= j < k < line_starts(self.content@).len() ==> line_starts(
                        self.content@,
                    )[j] < line_starts(self.content@)[k],
                forall|k: int| 0 <= k < lo ==> self.start_offset@[k] <= offset,
                forall|k: int| hi <= k < self.start_offset@.len() ==> self.start_offset@[k] > offset,
            decreases hi - lo,
        {
            let mid = lo + (hi - lo) / 2;
            if self.start_offset[mid] <= offset {
                proof {
                    assert forall|k: int| 0 <= k < mid + 1 implies self.start_offset@[k]
                        <= offset by {
                        if k < mid {
                            assert(line_starts(self.content@)[k] < line_starts(self.content@)[mid as int]);
                        }
                    }
                }
                lo = mid + 1;
            } else {
                proof {
                    assert forall|k: int|
                        mid <= k < self.start_offset@.len() implies self.start_offset@[k]
                        > offset by {
                        if k > mid {
                            assert(line_starts(self.content@)[mid as int] < line_starts(self.content@)[k]);
                        }
                    }
                }
                hi = mid;
            }
        }
        proof {
            lemma_line_starts_prefix(self.content@, offset as int);
            let m = line_starts(self.content@.take(offset as int)).len() as int;
            if m < lo {
                assert(line_starts(self.content@)[m] > offset);
                assert(self.start_offset@[m] <= offset);
            }
            if m > lo {
                assert(line_starts(self.content@)[lo as int] <= offset);
                assert(self.start_offset@[lo as int] > offset);
            }
            assert(line_starts(self.content@.take(offset as int)).last() == line_starts(
                self.content@,
            ).take(m)[m - 1]);
        }
        let col = offset - self.start_offset[lo - 1] + 1;
        (lo, col)
    }

    /// The text of line `line` (1-based), with its newline, or `None` when
    /// the text has no such line.
    pub fn get_line(&self, line: usize) -> (r: Option<String>)
        ensures
            match r {
                Some(t) => line_text(self@, line as int) == Some(t@),
                None => line_text(self@, line as int) is None,
            },
    {
        proof {
            use_type_invariant(self);
            lemma_line_starts_shape(self.content@);
        }
        if line == 0 || line >= self.start_offset.len() {
            return None;
        }
        let start = self.start_offset[line - 1];
        let end = self.start_offset[line];
        proof {
            assert(line_starts(self.content@)[line - 1] < line_starts(self.content@)[line as int]);
        }
        let mut text = String::new();
        push_chars(&mut text, &self.content, start, end);
        assert(text@ =~= self.content@.subrange(start as int, end as int));
        Some(text)
    }
}

} // verus!
