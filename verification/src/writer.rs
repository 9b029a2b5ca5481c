//! The log writer's header logic: a file gets at most one `YYYY-MM-DD`
//! header per day, appended (after a blank separator line) only when no
//! line of the file holds today's date text yet.

use vstd::prelude::*;
use crate::date::Date;
use crate::date::format_date;
use crate::date::lemma_date_bytes_no_newline;
use crate::date::spec_date_bytes;
use crate::text::contains_bytes;
use crate::text::lemma_contains_self;
use crate::text::lemma_split_raw_nonempty;
use crate::text::lemma_split_raw_push;
use crate::text::spec_contains;
use crate::text::spec_lines;
use crate::text::spec_split_raw;
use crate::text::split_lines;

verus! {

/// Some line of the file holds the textual form of `d`.
pub open spec fn spec_has_date_line(lines: Seq<Seq<u8>>, d: Date) -> bool {
    exists|i: int| 0 <= i < lines.len() && spec_contains(lines[i], spec_date_bytes(d))
}

/// What the header-ensure operation appends when the header is missing:
/// a blank separator line, then the date header line.
pub open spec fn spec_header_appendix(d: Date) -> Seq<u8> {
    seq![10u8] + spec_date_bytes(d) + seq![10u8]
}

/// The file contents after the header-ensure operation.
pub open spec fn spec_with_header(c: Seq<u8>, d: Date) -> Seq<u8> {
    if spec_has_date_line(spec_lines(c), d) {
        c
    } else {
        c + spec_header_appendix(d)
    }
}

pub fn has_date_line(lines: &Vec<Vec<u8>>, today: &Date) -> (r: bool)
    requires
        today.valid(),
    ensures
        r == spec_has_date_line(lines.deep_view(), *today),
{
    let db = format_date(today);
    let mut i: usize = 0;
    while i < lines.len()
        invariant
            i <= lines.len(),
            today.valid(),
            db@ == spec_date_bytes(*today),
            forall|j: int| 0 <= j < i ==> !spec_contains(
                #[trigger] lines.deep_view()[j],
                spec_date_bytes(*today),
            ),
        decreases lines.len() - i,
    {
        if contains_bytes(&lines[i], &db) {
            proof {
                assert(lines.deep_view()[i as int] == lines[i as int]@);
            }
            return true;
        }
        proof {
            assert(lines.deep_view()[i as int] == lines[i as int]@);
        }
        i = i + 1;
    }
    false
}

/// Reads the file's lines; when none of them holds today's date text,
/// appends a blank line and today's header; otherwise leaves the
/// contents unchanged.
pub fn ensure_today_header(contents: &Vec<u8>, today: &Date) -> (r: Vec<u8>)
    requires
        today.valid(),
    ensures
        r@ == spec_with_header(contents@, *today),
{
    let lines = split_lines(contents);
    let mut out = contents.clone();
    proof {
        assert(out@ =~= contents@);
    }
    if has_date_line(&lines, today) {
        return out;
    }
    let db = format_date(today);
    out.push(10);
    let mut k: usize = 0;
    while k < db.len()
        invariant
            k <= db.len(),
            db@ == spec_date_bytes(*today),
            out@ == contents@ + seq![10u8] + db@.take(k as int),
        decreases db.len() - k,
    {
        let b = db[k];
        out.push(b);
        proof {
            assert(db@.take(k + 1) =~= db@.take(k as int).push(db@[k as int]));
            assert(contents@ + seq![10u8] + db@.take(k + 1) =~= (contents@ + seq![10u8]
                + db@.take(k as int)).push(db@[k as int]));
        }
        k = k + 1;
    }
    out.push(10);
    proof {
        assert(db@.take(db@.len() as int) =~= db@);
        assert(out@ =~= contents@ + spec_header_appendix(*today));
    }
    out
}

/// How a run of bytes without a newline changes the split: it extends the
/// last piece and opens no new one.
pub proof fn lemma_split_raw_append_run(s: Seq<u8>, t: Seq<u8>)
    requires
        forall|k: int| 0 <= k < t.len() ==> t[k] != 10,
    ensures
        spec_split_raw(s + t) == spec_split_raw(s).update(
            spec_split_raw(s).len() - 1,
            spec_split_raw(s).last() + t,
        ),
    decreases t.len(),
{
    lemma_split_raw_nonempty(s);
    if t.len() == 0 {
        assert(s + t =~= s);
        assert(spec_split_raw(s).last() + t =~= spec_split_raw(s).last());
        assert(spec_split_raw(s + t) =~~= spec_split_raw(s).update(
            spec_split_raw(s).len() - 1,
            spec_split_raw(s).last() + t,
        ));
    } else {
        let t0 = t.drop_last();
        lemma_split_raw_append_run(s, t0);
        lemma_split_raw_push(s + t0, t.last());
        assert(s + t =~= (s + t0).push(t.last()));
        assert((spec_split_raw(s).last() + t0).push(t.last()) =~= spec_split_raw(s).last() + t);
        assert(spec_split_raw(s + t) =~~= spec_split_raw(s).update(
            spec_split_raw(s).len() - 1,
            spec_split_raw(s).last() + t,
        ));
    }
}

/// Running the header-ensure operation twice in the same day appends
/// exactly one header: the second run finds the header the first one
/// wrote, and leaves the file as it is.
pub proof fn lemma_ensure_header_idempotent(c: Seq<u8>, d: Date)
    requires
        d.valid(),
    ensures
        spec_with_header(spec_with_header(c, d), d) == spec_with_header(c, d),
{
    if !spec_has_date_line(spec_lines(c), d) {
        let db = spec_date_bytes(d);
        let app = spec_header_appendix(d);
        let n = c + app;
        assert(app.len() == db.len() + 2);
        assert(n.len() == c.len() + db.len() + 2);
        assert(n.last() == app[app.len() - 1]);
        assert(n.last() == 10);
        let body = n.drop_last();
        assert(body =~= c.push(10) + db);
        lemma_split_raw_push(c, 10);
        lemma_date_bytes_no_newline(d);
        lemma_split_raw_append_run(c.push(10), db);
        lemma_split_raw_nonempty(c);
        assert(Seq::<u8>::empty() + db =~= db);
        assert(spec_split_raw(body) =~~= spec_split_raw(c).push(db));
        let lines_n = spec_lines(n);
        assert(lines_n == spec_split_raw(body));
        assert(lines_n[lines_n.len() - 1] == db);
        lemma_contains_self(db);
        assert(spec_has_date_line(lines_n, d));
    }
}

} // verus!
