//! Byte-level text utilities for the log format: substring search and
//! splitting file contents into lines.
//!
//! Lines are separated by the newline byte; a final newline ends the last
//! line rather than opening an empty one.

use vstd::prelude::*;

verus! {

/// The newline byte that separates log lines.
pub open spec fn nl() -> u8 {
    10
}

/// `needle` occurs in `hay` starting at position `i`.
pub open spec fn spec_match_at(hay: Seq<u8>, needle: Seq<u8>, i: int) -> bool {
    &&& 0 <= i
    &&& i + needle.len() <= hay.len()
    &&& hay.subrange(i, i + needle.len() as int) == needle
}

/// `needle` occurs somewhere in `hay` as a contiguous run of bytes.
pub open spec fn spec_contains(hay: Seq<u8>, needle: Seq<u8>) -> bool {
    exists|i: int| spec_match_at(hay, needle, i)
}

/// Every sequence contains itself, starting at its first position.
pub proof fn lemma_contains_self(s: Seq<u8>)
    ensures
        spec_contains(s, s),
{
    assert(s.subrange(0, s.len() as int) =~= s);
    assert(spec_match_at(s, s, 0));
}

/// Naive substring search, proved equivalent to `spec_contains`.
pub fn contains_bytes(hay: &Vec<u8>, needle: &Vec<u8>) -> (r: bool)
    ensures
        r == spec_contains(hay@, needle@),
{
    let n = needle.len();
    let h = hay.len();
    if n > h {
        return false;
    }
    let mut i: usize = 0;
    while i <= h - n
        invariant
            n <= h,
            h == hay@.len(),
            n == needle@.len(),
            i <= h - n + 1,
            forall|j: int| 0 <= j < i ==> !spec_match_at(hay@, needle@, j),
        decreases h - n + 1 - i,
    {
        let mut j: usize = 0;
        while j < n && hay[i + j] == needle[j]
            invariant
                n <= h,
                h == hay@.len(),
                n == needle@.len(),
                i + n <= h,
                j <= n,
                forall|k: int| 0 <= k < j ==> hay@[i + k] == needle@[k],
            decreases n - j,
        {
            j = j + 1;
        }
        if j == n {
            proof {
                assert(hay@.subrange(i as int, i as int + n as int) =~= needle@);
                assert(spec_match_at(hay@, needle@, i as int));
            }
            return true;
        }
        proof {
            assert(!spec_match_at(hay@, needle@, i as int)) by {
                if spec_match_at(hay@, needle@, i as int) {
                    assert(hay@.subrange(i as int, i as int + n as int)[j as int]
                        == hay@[i + j]);
                }
            }
        }
        i = i + 1;
    }
    proof {
        assert(forall|j: int| !spec_match_at(hay@, needle@, j)) by {
            assert(forall|j: int| j >= i ==> !spec_match_at(hay@, needle@, j));
        }
    }
    false
}

/// Splitting on every newline byte; the result always holds one more
/// piece than the input holds newlines, so it is never empty.
pub open spec fn spec_split_raw(s: Seq<u8>) -> Seq<Seq<u8>>
    decreases s.len(),
{
    if s.len() == 0 {
        seq![Seq::<u8>::empty()]
    } else if s[0] == nl() {
        seq![Seq::<u8>::empty()] + spec_split_raw(s.skip(1))
    } else {
        let r = spec_split_raw(s.skip(1));
        seq![seq![s[0]] + r[0]] + r.skip(1)
    }
}

pub proof fn lemma_split_raw_nonempty(s: Seq<u8>)
    ensures
        spec_split_raw(s).len() >= 1,
    decreases s.len(),
{
    if s.len() > 0 {
        lemma_split_raw_nonempty(s.skip(1));
    }
}

/// How one appended byte changes the split: a newline opens a fresh empty
/// piece, any other byte extends the last piece.
pub proof fn lemma_split_raw_push(s: Seq<u8>, c: u8)
    ensures
        c == nl() ==> spec_split_raw(s.push(c)) == spec_split_raw(s).push(Seq::<u8>::empty()),
        c != nl() ==> spec_split_raw(s.push(c)) == spec_split_raw(s).update(
            spec_split_raw(s).len() - 1,
            spec_split_raw(s).last().push(c),
        ),
    decreases s.len(),
{
    lemma_split_raw_nonempty(s);
    if s.len() == 0 {
        assert(s.push(c)[0] == c);
        assert(s.push(c).skip(1) =~= Seq::<u8>::empty());
        assert(spec_split_raw(Seq::<u8>::empty()) =~~= seq![Seq::<u8>::empty()]);
        assert(s =~= Seq::<u8>::empty());
        if c == nl() {
            assert(spec_split_raw(s.push(c)) =~~= spec_split_raw(s).push(Seq::<u8>::empty()));
        } else {
            assert(spec_split_raw(s.push(c)) =~~= spec_split_raw(s).update(
                spec_split_raw(s).len() - 1,
                spec_split_raw(s).last().push(c),
            ));
        }
    } else {
        let t = s.skip(1);
        lemma_split_raw_nonempty(t);
        lemma_split_raw_push(t, c);
        assert(s.push(c)[0] == s[0]);
        assert(s.push(c).skip(1) =~= t.push(c));
        if c == nl() {
            if s[0] == nl() {
                assert(spec_split_raw(s.push(c)) =~~= spec_split_raw(s).push(
                    Seq::<u8>::empty(),
                ));
            } else {
                assert(spec_split_raw(t.push(c))[0] == spec_split_raw(t)[0]);
                assert(spec_split_raw(s.push(c)) =~~= spec_split_raw(s).push(
                    Seq::<u8>::empty(),
                ));
            }
        } else {
            if s[0] == nl() {
                assert(spec_split_raw(s.push(c)) =~~= spec_split_raw(s).update(
                    spec_split_raw(s).len() - 1,
                    spec_split_raw(s).last().push(c),
                ));
            } else {
                let r = spec_split_raw(t);
                if r.len() == 1 {
                    assert(spec_split_raw(t.push(c))[0] == r[0].push(c));
                    assert(seq![s[0]] + r[0].push(c) =~= (seq![s[0]] + r[0]).push(c));
                    assert(spec_split_raw(s.push(c)) =~~= spec_split_raw(s).update(
                        spec_split_raw(s).len() - 1,
                        spec_split_raw(s).last().push(c),
                    ));
                } else {
                    assert(spec_split_raw(t.push(c))[0] == r[0]);
                    assert(spec_split_raw(s.push(c)) =~~= spec_split_raw(s).update(
                        spec_split_raw(s).len() - 1,
                        spec_split_raw(s).last().push(c),
                    ));
                }
            }
        }
    }
}

/// The lines of a log file: raw newline splitting, except that a final
/// newline closes the last line instead of starting an empty one, and an
/// empty file has no lines.
pub open spec fn spec_lines(s: Seq<u8>) -> Seq<Seq<u8>> {
    if s.len() == 0 {
        Seq::<Seq<u8>>::empty()
    } else if s.last() == nl() {
        spec_split_raw(s.drop_last())
    } else {
        spec_split_raw(s)
    }
}

pub fn split_lines(contents: &Vec<u8>) -> (r: Vec<Vec<u8>>)
    ensures
        r.deep_view() == spec_lines(contents@),
{
    let len = contents.len();
    let mut out: Vec<Vec<u8>> = Vec::new();
    let mut cur: Vec<u8> = Vec::new();
    let mut i: usize = 0;
    proof {
        assert(contents@.take(0) =~= Seq::<u8>::empty());
        assert(out.deep_view().push(cur@) =~~= spec_split_raw(contents@.take(0)));
    }
    while i < len
        invariant
            i <= len,
            len == contents@.len(),
            out.deep_view().push(cur@) == spec_split_raw(contents@.take(i as int)),
        decreases len - i,
    {
        let c = contents[i];
        proof {
            assert(contents@.take(i + 1) =~= contents@.take(i as int).push(contents@[i as int]));
            lemma_split_raw_push(contents@.take(i as int), c);
        }
        if c == 10 {
            let ghost prev = out.deep_view();
            let ghost prev_cur = cur@;
            out.push(cur);
            cur = Vec::new();
            proof {
                assert(out.deep_view() =~~= prev.push(prev_cur));
                assert(out.deep_view().push(cur@) =~~= spec_split_raw(
                    contents@.take(i + 1),
                ));
            }
        } else {
            let ghost prev = out.deep_view();
            let ghost prev_cur = cur@;
            cur.push(c);
            proof {
                assert(out.deep_view().push(cur@) =~~= prev.push(prev_cur).update(
                    prev.push(prev_cur).len() - 1,
                    prev_cur.push(c),
                ));
            }
        }
        i = i + 1;
    }
    proof {
        assert(contents@.take(len as int) =~= contents@);
    }
    if len == 0 {
        proof {
            assert(out.deep_view() =~~= spec_lines(contents@));
        }
        out
    } else if contents[len - 1] == 10 {
        proof {
            assert(contents@ =~= contents@.drop_last().push(contents@.last()));
            lemma_split_raw_push(contents@.drop_last(), contents@.last());
            let ghost dl = spec_split_raw(contents@.drop_last());
            assert(out.deep_view().push(cur@) == dl.push(Seq::<u8>::empty()));
            assert((out.deep_view().push(cur@)).drop_last() =~~= out.deep_view());
            assert((dl.push(Seq::<u8>::empty())).drop_last() =~~= dl);
            assert(out.deep_view() =~~= spec_split_raw(contents@.drop_last()));
        }
        out
    } else {
        let ghost prev = out.deep_view();
        let ghost prev_cur = cur@;
        out.push(cur);
        proof {
            assert(out.deep_view() =~~= prev.push(prev_cur));
        }
        out
    }
}

} // verus!
