//! Line splitting and literal substring containment, the two text
//! operations the search engine is built from.

use vstd::prelude::*;

verus! {

use vstd::string::StrSliceExecFns;

/// Index of the first `'\n'` in `s`, or `s.len()` when there is none.
pub open spec fn first_nl(s: Seq<char>) -> int
    decreases s.len(),
{
    if s.len() == 0 {
        0
    } else if s[0] == '\n' {
        0
    } else {
        1 + first_nl(s.subrange(1, s.len() as int))
    }
}

/// A line with one trailing carriage return removed, any other line unchanged.
pub open spec fn strip_cr(line: Seq<char>) -> Seq<char> {
    if line.len() > 0 && line[line.len() - 1] == '\r' {
        line.subrange(0, line.len() - 1)
    } else {
        line
    }
}

/// The lines of `s`: pieces split at `'\n'`, with a carriage return standing
/// directly before the split removed.  Text after the last `'\n'` forms a
/// final line kept verbatim; an empty `s` has no lines, and a trailing `'\n'`
/// adds none.
pub open spec fn lines_spec(s: Seq<char>) -> Seq<Seq<char>>
    decreases s.len(),
{
    if s.len() == 0 {
        Seq::empty()
    } else {
        let i = first_nl(s);
        if 0 <= i && i < s.len() {
            seq![strip_cr(s.subrange(0, i))] + lines_spec(s.subrange(i + 1, s.len() as int))
        } else {
            seq![s]
        }
    }
}

pub proof fn lemma_first_nl(s: Seq<char>)
    ensures
        0 <= first_nl(s) <= s.len(),
        first_nl(s) < s.len() ==> s[first_nl(s)] == '\n',
        forall|k: int| 0 <= k < first_nl(s) ==> s[k] != '\n',
    decreases s.len(),
{
    if s.len() == 0 {
    } else if s[0] == '\n' {
    } else {
        let t = s.subrange(1, s.len() as int);
        lemma_first_nl(t);
        assert forall|k: int| 0 <= k < first_nl(s) implies s[k] != '\n' by {
            if k >= 1 {
                assert(s[k] == t[k - 1]);
            }
        }
        if first_nl(s) < s.len() {
            assert(s[first_nl(s)] == t[first_nl(s) - 1]);
        }
    }
}

/// `first_nl` is pinned by its defining facts: no `'\n'` before `j`, and
/// either `j` is the length or `s[j]` is a `'\n'`.
proof fn lemma_first_nl_at(s: Seq<char>, j: int)
    requires
        0 <= j <= s.len(),
        forall|k: int| 0 <= k < j ==> s[k] != '\n',
        j == s.len() || s[j] == '\n',
    ensures
        first_nl(s) == j,
{
    lemma_first_nl(s);
    let i = first_nl(s);
    if i < j {
        assert(s[i] != '\n');
        assert(false);
    } else if j < i {
        assert(s[j] != '\n');
        assert(false);
    }
}

/// Peels the line ending at the `'\n'` at position `i` off the suffix of `s`
/// that starts at `start`.
proof fn lemma_lines_step(s: Seq<char>, start: int, i: int)
    requires
        0 <= start <= i < s.len(),
        forall|k: int| start <= k < i ==> s[k] != '\n',
        s[i] == '\n',
    ensures
        lines_spec(s.subrange(start, s.len() as int)) == seq![strip_cr(s.subrange(start, i))]
            + lines_spec(s.subrange(i + 1, s.len() as int)),
{
    let suf = s.subrange(start, s.len() as int);
    assert forall|k: int| 0 <= k < i - start implies suf[k] != '\n' by {
        assert(suf[k] == s[k + start]);
    }
    assert(suf[i - start] == s[i]);
    lemma_first_nl_at(suf, i - start);
    assert(suf.subrange(0, i - start) =~= s.subrange(start, i));
    assert(suf.subrange(i - start + 1, suf.len() as int) =~= s.subrange(i + 1, s.len() as int));
}

/// A suffix of `s` without any `'\n'` is one final line, or no line at all
/// when it is empty.
proof fn lemma_lines_tail(s: Seq<char>, start: int)
    requires
        0 <= start <= s.len(),
        forall|k: int| start <= k < s.len() ==> s[k] != '\n',
    ensures
        start < s.len() ==> lines_spec(s.subrange(start, s.len() as int)) == seq![
            s.subrange(start, s.len() as int),
        ],
        start == s.len() ==> lines_spec(s.subrange(start, s.len() as int))
            == Seq::<Seq<char>>::empty(),
{
    let suf = s.subrange(start, s.len() as int);
    if start < s.len() {
        assert forall|k: int| 0 <= k < suf.len() implies suf[k] != '\n' by {
            assert(suf[k] == s[k + start]);
        }
        lemma_first_nl_at(suf, suf.len() as int);
    } else {
        assert(suf =~= Seq::<char>::empty());
    }
}

/// Splits `contents` into its lines, as `lines_spec` describes them.  The
/// returned elements are slices of the original buffer, not copies.
pub fn split_lines<'a>(contents: &'a str) -> (r: Vec<&'a str>)
    ensures
        r.deep_view() == lines_spec(contents@),
{
    let n: usize = contents.unicode_len();
    let mut out: Vec<&'a str> = Vec::new();
    let mut start: usize = 0;
    let mut i: usize = 0;
    proof {
        assert(contents@.subrange(0, n as int) =~= contents@);
        assert(out.deep_view() + lines_spec(contents@) =~= lines_spec(contents@));
    }
    while i < n
        invariant
            start <= i <= n,
            n == contents@.len(),
            forall|k: int| start <= k < i ==> contents@[k] != '\n',
            lines_spec(contents@) == out.deep_view() + lines_spec(
                contents@.subrange(start as int, n as int),
            ),
        decreases n - i,
    {
        let c = contents.get_char(i);
        if c == '\n' {
            let end: usize = if i > start && contents.get_char(i - 1) == '\r' {
                i - 1
            } else {
                i
            };
            let line = contents.substring_char(start, end);
            let ghost out0 = out.deep_view();
            proof {
                lemma_lines_step(contents@, start as int, i as int);
                let lseq = contents@.subrange(start as int, i as int);
                if i > start && contents@[i - 1] == '\r' {
                    assert(lseq[lseq.len() - 1] == contents@[i - 1]);
                    assert(strip_cr(lseq) =~= contents@.subrange(start as int, end as int));
                } else {
                    assert(strip_cr(lseq) == lseq);
                }
            }
            out.push(line);
            proof {
                let lseq = contents@.subrange(start as int, i as int);
                assert(out.deep_view() =~= out0.push(strip_cr(lseq)));
                assert(out.deep_view() + lines_spec(
                    contents@.subrange(i + 1, n as int),
                ) =~= out0 + (seq![strip_cr(lseq)] + lines_spec(
                    contents@.subrange(i + 1, n as int),
                )));
            }
            start = i + 1;
        }
        i = i + 1;
    }
    proof {
        lemma_lines_tail(contents@, start as int);
    }
    if start < n {
        let line = contents.substring_char(start, n);
        let ghost out0 = out.deep_view();
        out.push(line);
        proof {
            assert(out.deep_view() =~= out0.push(contents@.subrange(start as int, n as int)));
            assert(out.deep_view() =~= out0 + seq![
                contents@.subrange(start as int, n as int),
            ]);
        }
    }
    out
}

/// A match of `pat` as a contiguous run starting at position `i` of `text`.
pub open spec fn is_match_at(text: Seq<char>, pat: Seq<char>, i: int) -> bool {
    &&& 0 <= i
    &&& i + pat.len() <= text.len()
    &&& text.subrange(i, i + pat.len()) == pat
}

/// Whether `text` holds `pat` as a contiguous run of characters.
pub open spec fn contains_seq(text: Seq<char>, pat: Seq<char>) -> bool {
    exists|i: int| is_match_at(text, pat, i)
}

/// An empty pattern occurs in every text.
pub proof fn lemma_contains_empty(text: Seq<char>, pat: Seq<char>)
    requires
        pat.len() == 0,
    ensures
        contains_seq(text, pat),
{
    assert(text.subrange(0, 0) =~= pat);
    assert(is_match_at(text, pat, 0));
}

/// Whether `pat@` occurs at position `i` of `text@`; `n` and `m` are the
/// two lengths, passed in so the caller counts characters only once.
fn match_at(text: &str, pat: &str, i: usize, n: usize, m: usize) -> (r: bool)
    requires
        n == text@.len(),
        m == pat@.len(),
        i + m <= n,
    ensures
        r == is_match_at(text@, pat@, i as int),
{
    let mut j: usize = 0;
    while j < m
        invariant
            n == text@.len(),
            m == pat@.len(),
            i + m <= n,
            j <= m,
            forall|k: int| 0 <= k < j ==> text@[i + k] == pat@[k],
        decreases m - j,
    {
        if text.get_char(i + j) != pat.get_char(j) {
            proof {
                let sub = text@.subrange(i as int, i + m);
                assert(sub[j as int] == text@[i + j]);
                assert(sub[j as int] != pat@[j as int]);
            }
            return false;
        }
        j = j + 1;
    }
    proof {
        assert(text@.subrange(i as int, i + m) =~= pat@);
    }
    true
}

/// Whether `pat@` occurs anywhere in `text@`.
pub fn contains_str(text: &str, pat: &str) -> (r: bool)
    ensures
        r == contains_seq(text@, pat@),
{
    let n: usize = text.unicode_len();
    let m: usize = pat.unicode_len();
    if m == 0 {
        proof {
            lemma_contains_empty(text@, pat@);
        }
        return true;
    }
    if m > n {
        proof {
            assert(forall|k: int| !(#[trigger] is_match_at(text@, pat@, k)));
        }
        return false;
    }
    let mut i: usize = 0;
    while i <= n - m
        invariant
            n == text@.len(),
            m == pat@.len(),
            1 <= m <= n,
            i <= n - m + 1,
            forall|k: int| 0 <= k < i ==> !is_match_at(text@, pat@, k),
        decreases n - m - i + 1,
    {
        if match_at(text, pat, i, n, m) {
            return true;
        }
        i = i + 1;
    }
    proof {
        assert forall|k: int| !(#[trigger] is_match_at(text@, pat@, k)) by {
            if 0 <= k && k + m <= n {
                assert(!is_match_at(text@, pat@, k));
            }
        }
    }
    false
}

} // verus!
