//! Cutting the text of a query string into segments, and a segment into its
//! key and its value.

use crate::text::copy_range;
use vstd::prelude::*;

verus! {

/// `text` with every `+` turned into a space.
pub open spec fn plus_to_space(text: Seq<char>) -> Seq<char> {
    Seq::new(text.len(), |i: int| if text[i] == '+' { ' ' } else { text[i] })
}

/// The length of the longest prefix of `s` in which `c` does not occur.
pub open spec fn run_len(s: Seq<char>, c: char) -> nat
    decreases s.len(),
{
    if s.len() == 0 || s[0] == c {
        0
    } else {
        1 + run_len(s.skip(1), c)
    }
}

/// The non-empty pieces into which the occurrences of `sep` cut `s`, in the
/// order in which they stand in `s`.
pub open spec fn segments(s: Seq<char>, sep: char) -> Seq<Seq<char>>
    decreases s.len(),
{
    if s.len() == 0 {
        Seq::empty()
    } else {
        let n = run_len(s, sep) as int;
        let rest = if n < s.len() {
            segments(s.skip(n + 1), sep)
        } else {
            Seq::empty()
        };
        if n == 0 {
            rest
        } else {
            seq![s.take(n)] + rest
        }
    }
}

/// The key and the value of a segment, both still percent-encoded: what
/// stands before and behind the first `=`. A segment without `=` is its own
/// key and has the empty value.
pub open spec fn split_pair(seg: Seq<char>) -> (Seq<char>, Seq<char>) {
    let n = run_len(seg, '=') as int;
    if n < seg.len() {
        (seg.take(n), seg.skip(n + 1))
    } else {
        (seg, Seq::empty())
    }
}

/// A prefix without `c` that ends at an occurrence of `c`, or at the end of
/// `s`, is the run that [`run_len`] measures.
proof fn lemma_run_len(s: Seq<char>, c: char, n: int)
    requires
        0 <= n <= s.len(),
        forall|k: int| 0 <= k < n ==> s[k] != c,
        n == s.len() || s[n] == c,
    ensures
        run_len(s, c) == n,
    decreases n,
{
    if n > 0 {
        let t = s.skip(1);
        assert forall|k: int| 0 <= k < n - 1 implies t[k] != c by {
            assert(t[k] == s[k + 1]);
        }
        lemma_run_len(t, c, n - 1);
    }
}

/// The run in front of `s` is no longer than `s`, holds no `c`, and ends at
/// an occurrence of `c` unless it ends with `s`.
proof fn lemma_run_len_bounds(s: Seq<char>, c: char)
    ensures
        run_len(s, c) <= s.len(),
        forall|k: int| 0 <= k < run_len(s, c) ==> s[k] != c,
        run_len(s, c) < s.len() ==> s[run_len(s, c) as int] == c,
    decreases s.len(),
{
    if s.len() > 0 && s[0] != c {
        let t = s.skip(1);
        lemma_run_len_bounds(t, c);
        assert forall|k: int| 0 <= k < run_len(s, c) implies s[k] != c by {
            if k > 0 {
                assert(t[k - 1] == s[k]);
            }
        }
    }
}

/// The segments of two texts that a separator joins are the segments of
/// the first and then the segments of the second.
pub(crate) proof fn lemma_segments_join(x: Seq<char>, y: Seq<char>, sep: char)
    ensures
        segments(x + seq![sep] + y, sep) == segments(x, sep) + segments(y, sep),
    decreases x.len(),
{
    let s = x + seq![sep] + y;
    if x.len() == 0 {
        assert(s.skip(1) =~= y);
        assert(segments(x, sep) + segments(y, sep) =~= segments(y, sep));
    } else {
        let n = run_len(x, sep) as int;
        lemma_run_len_bounds(x, sep);
        assert forall|k: int| 0 <= k < n implies s[k] != sep by {
            assert(s[k] == x[k]);
        }
        lemma_run_len(s, sep, n);
        assert(s.take(n) =~= x.take(n));
        if n < x.len() {
            assert(s.skip(n + 1) =~= x.skip(n + 1) + seq![sep] + y);
            lemma_segments_join(x.skip(n + 1), y, sep);
            assert(segments(s, sep) =~= segments(x, sep) + segments(y, sep));
        } else {
            assert(s.skip(n + 1) =~= y);
            assert(segments(s, sep) =~= segments(x, sep) + segments(y, sep));
        }
    }
}

/// No segment is empty, and none holds the separator.
pub proof fn lemma_segments_are_whole(s: Seq<char>, sep: char)
    ensures
        forall|i: int|
            0 <= i < segments(s, sep).len() ==> (#[trigger] segments(s, sep)[i]).len() > 0
                && !segments(s, sep)[i].contains(sep),
    decreases s.len(),
{
    if s.len() > 0 {
        let n = run_len(s, sep) as int;
        lemma_run_len_bounds(s, sep);
        let rest = if n < s.len() {
            segments(s.skip(n + 1), sep)
        } else {
            Seq::empty()
        };
        if n < s.len() {
            lemma_segments_are_whole(s.skip(n + 1), sep);
        }
        assert forall|i: int| 0 <= i < segments(s, sep).len() implies (#[trigger] segments(
            s,
            sep,
        )[i]).len() > 0 && !segments(s, sep)[i].contains(sep) by {
            if n > 0 && i == 0 {
                let head = s.take(n);
                assert(segments(s, sep)[0] == head);
                if head.contains(sep) {
                    let k = choose|k: int| 0 <= k < head.len() && head[k] == sep;
                    assert(s[k] == sep);
                }
            } else if n > 0 {
                assert(segments(s, sep)[i] == rest[i - 1]);
            } else {
                assert(segments(s, sep)[i] == rest[i]);
            }
        }
    }
}

/// The index of the first `c` in `chars` at or behind `from`, or the length
/// of `chars` where there is none.
pub(crate) fn find_char(chars: &Vec<char>, from: usize, c: char) -> (at: usize)
    requires
        from <= chars.len(),
    ensures
        from <= at <= chars.len(),
        at == from + run_len(chars@.skip(from as int), c),
{
    let mut at: usize = from;
    while at < chars.len() && chars[at] != c
        invariant
            from <= at <= chars.len(),
            forall|k: int| from <= k < at ==> chars@[k] != c,
        decreases chars.len() - at,
    {
        at += 1;
    }
    proof {
        let tail = chars@.skip(from as int);
        assert forall|k: int| 0 <= k < at - from implies tail[k] != c by {
            assert(tail[k] == chars@[from + k]);
        }
        lemma_run_len(tail, c, at - from);
    }
    at
}

/// `text` with every `+` turned into a space.
pub fn replace_plus(text: &Vec<char>) -> (out: Vec<char>)
    ensures
        out@ == plus_to_space(text@),
{
    let mut out: Vec<char> = Vec::new();
    let mut i: usize = 0;
    while i < text.len()
        invariant
            i <= text.len(),
            out.len() == i,
            forall|k: int| 0 <= k < i ==> out@[k] == plus_to_space(text@)[k],
        decreases text.len() - i,
    {
        let c = text[i];
        out.push(if c == '+' { ' ' } else { c });
        i += 1;
    }
    out
}

/// The non-empty pieces into which `sep` cuts `text`.
pub fn split_segments(text: &Vec<char>, sep: char) -> (segs: Vec<Vec<char>>)
    ensures
        segs.deep_view() == segments(text@, sep),
{
    let mut segs: Vec<Vec<char>> = Vec::new();
    let mut start: usize = 0;
    assert(text@.skip(0) =~= text@);
    while start < text.len()
        invariant
            start <= text.len(),
            segments(text@, sep) == segs.deep_view() + segments(text@.skip(start as int), sep),
        decreases text.len() - start,
    {
        let end = find_char(text, start, sep);
        let ghost tail = text@.skip(start as int);
        let ghost before = segs.deep_view();
        let next = if end < text.len() { end + 1 } else { end };
        proof {
            if end < text.len() {
                assert(tail.skip(end - start + 1) =~= text@.skip(next as int));
            } else {
                assert(text@.skip(next as int) =~= Seq::<char>::empty());
            }
        }
        if end > start {
            let seg = copy_range(text, start, end);
            proof {
                assert(seg@ =~= tail.take(end - start));
            }
            let ghost held = segs@;
            segs.push(seg);
            proof {
                assert(seg.deep_view() =~= tail.take(end - start));
                assert forall|k: int| 0 <= k < held.len() implies segs.deep_view()[k]
                    == before[k] by {
                    assert(segs@[k] == held[k]);
                }
            }
        }
        start = next;
    }
    proof {
        assert(segments(text@.skip(start as int), sep) =~= Seq::<Seq<char>>::empty());
    }
    segs
}

} // verus!
