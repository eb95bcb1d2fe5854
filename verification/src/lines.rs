//! Splitting a text into its lines.
//!
//! A line ends at a line feed, or at the end of the text. A carriage return
//! directly in front of the line feed belongs to the line ending. The last
//! line need not be ended, and a text that ends with a line ending has no
//! empty line after it.

use vstd::prelude::*;

verus! {

/// The number of characters of `s` in front of its first line feed; the
/// length of `s` if it holds none.
pub open spec fn first_break(s: Seq<char>) -> int
    decreases s.len(),
{
    if s.len() == 0 || s[0] == '\n' {
        0
    } else {
        1 + first_break(s.drop_first())
    }
}

/// `line` without the carriage return at its end, if it has one.
pub open spec fn without_carriage_return(line: Seq<char>) -> Seq<char> {
    if line.len() > 0 && line.last() == '\r' {
        line.drop_last()
    } else {
        line
    }
}

/// The lines of the text `s`, in order and without their line endings.
pub open spec fn lines_of(s: Seq<char>) -> Seq<Seq<char>>
    decreases s.len(),
{
    if s.len() == 0 {
        Seq::empty()
    } else {
        let n = first_break(s);
        if 0 <= n < s.len() {
            seq![without_carriage_return(s.take(n))] + lines_of(s.skip(n + 1))
        } else {
            seq![s]
        }
    }
}

/// The texts that the vectors in `lines` hold.
pub open spec fn texts_of(lines: Seq<Vec<char>>) -> Seq<Seq<char>> {
    Seq::new(lines.len(), |i: int| lines[i]@)
}

/// `first_break(s)` is `k` where no line feed stands in front of position
/// `k` and one stands at `k`, or `s` ends there.
pub proof fn lemma_first_break(s: Seq<char>, k: int)
    requires
        0 <= k <= s.len(),
        forall|j: int| 0 <= j < k ==> s[j] != '\n',
        k < s.len() ==> s[k] == '\n',
    ensures
        first_break(s) == k,
    decreases s.len(),
{
    if s.len() == 0 || s[0] == '\n' {
    } else {
        let t = s.drop_first();
        assert(forall|j: int| 0 <= j < k - 1 ==> t[j] != '\n');
        lemma_first_break(t, k - 1);
    }
}

/// `first_break(s)` is a position of `s` or its length; no line feed stands
/// in front of it, and one stands at it unless `s` ends there.
pub proof fn lemma_first_break_is_first(s: Seq<char>)
    ensures
        0 <= first_break(s) <= s.len(),
        forall|j: int| 0 <= j < first_break(s) ==> s[j] != '\n',
        first_break(s) < s.len() ==> s[first_break(s)] == '\n',
    decreases s.len(),
{
    if s.len() == 0 || s[0] == '\n' {
    } else {
        let t = s.drop_first();
        lemma_first_break_is_first(t);
        assert forall|j: int| 0 <= j < first_break(s) implies s[j] != '\n' by {
            if j > 0 {
                assert(s[j] == t[j - 1]);
            }
        }
    }
}

/// Splits `content` into its lines.
pub fn split_lines(content: &str) -> (lines: Vec<Vec<char>>)
    ensures
        texts_of(lines@) == lines_of(content@),
{
    let mut lines: Vec<Vec<char>> = Vec::new();
    let mut current: Vec<char> = Vec::new();
    let ghost mut start: int = 0;
    proof {
        assert(content@.skip(0) =~= content@);
    }
    for c in it: content.chars()
        invariant
            it.seq() == content@,
            0 <= start <= it.index(),
            current@ == content@.subrange(start, it.index() as int),
            forall|j: int| start <= j < it.index() ==> content@[j] != '\n',
            lines_of(content@) == texts_of(lines@) + lines_of(content@.skip(start)),
    {
        let ghost i = it.index() as int;
        let ghost rest = content@.skip(start);
        if c == '\n' {
            proof {
                assert(forall|j: int| 0 <= j < i - start ==> rest[j] != '\n');
                lemma_first_break(rest, i - start);
                assert(rest.take(i - start) =~= current@);
                assert(rest.skip(i - start + 1) =~= content@.skip(i + 1));
            }
            let n = current.len();
            if n > 0 && current[n - 1] == '\r' {
                current.pop();
            }
            lines.push(current);
            current = Vec::new();
            proof {
                start = i + 1;
            }
        } else {
            current.push(c);
        }
    }
    let ghost rest = content@.skip(start);
    proof {
        assert(forall|j: int| 0 <= j < rest.len() ==> rest[j] != '\n');
        lemma_first_break(rest, rest.len() as int);
    }
    if current.len() > 0 {
        lines.push(current);
    }
    lines
}

} // verus!
