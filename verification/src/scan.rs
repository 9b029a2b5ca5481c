//! The log scanner: walks the lines of a file in order, tracks the date
//! context set by header lines, and emits the lines that fall inside a
//! date range and match an optional pattern.

use vstd::prelude::*;
use crate::date::Date;
use crate::date::date_le;
use crate::date::format_date;
use crate::date::parse_date;
use crate::date::spec_date_bytes;
use crate::date::spec_date_le;
use crate::date::spec_min_date;
use crate::date::spec_max_date;
use crate::date::spec_parse_date;
use crate::date::lemma_day_number_bounds;
use crate::text::contains_bytes;
use crate::text::spec_contains;
use crate::text::spec_lines;
use crate::text::split_lines;

verus! {

/// `d` lies inside the inclusive range.
pub open spec fn spec_in_range(d: Date, start: Date, end: Date) -> bool {
    spec_date_le(start, d) && spec_date_le(d, end)
}

/// A non-header line is shown when no pattern was given, or when it holds
/// the pattern, or when it holds the textual form of its date.
pub open spec fn spec_line_matches(line: Seq<u8>, d: Date, pattern: Option<Seq<u8>>) -> bool {
    match pattern {
        None => true,
        Some(p) => spec_contains(line, p) || spec_contains(line, spec_date_bytes(d)),
    }
}

/// The scan over a line sequence: a header line resets the current date
/// and is always emitted; any other line is emitted only once a header
/// has been seen, its date is in range, and the pattern agrees.
pub open spec fn spec_scan(
    lines: Seq<Seq<u8>>,
    start: Date,
    end: Date,
    pattern: Option<Seq<u8>>,
    cur: Option<Date>,
) -> Seq<Seq<u8>>
    decreases lines.len(),
{
    if lines.len() == 0 {
        Seq::<Seq<u8>>::empty()
    } else {
        let line = lines[0];
        let rest = lines.skip(1);
        match spec_parse_date(line) {
            Some(d) => seq![line] + spec_scan(rest, start, end, pattern, Some(d)),
            None => match cur {
                Some(d) => if spec_in_range(d, start, end) && spec_line_matches(
                    line,
                    d,
                    pattern,
                ) {
                    seq![line] + spec_scan(rest, start, end, pattern, cur)
                } else {
                    spec_scan(rest, start, end, pattern, cur)
                },
                None => spec_scan(rest, start, end, pattern, cur),
            },
        }
    }
}

pub open spec fn spec_pattern_view(pattern: Option<&Vec<u8>>) -> Option<Seq<u8>> {
    match pattern {
        Some(p) => Some(p@),
        None => None,
    }
}

/// Scans a file already split into lines.
pub fn scan_lines(
    lines: &Vec<Vec<u8>>,
    start: &Date,
    end: &Date,
    pattern: Option<&Vec<u8>>,
) -> (r: Vec<Vec<u8>>)
    requires
        start.valid(),
        end.valid(),
    ensures
        r.deep_view() == spec_scan(
            lines.deep_view(),
            *start,
            *end,
            spec_pattern_view(pattern),
            None,
        ),
{
    let ghost all = lines.deep_view();
    let ghost pat = spec_pattern_view(pattern);
    let mut out: Vec<Vec<u8>> = Vec::new();
    let mut cur: Option<Date> = None;
    let mut i: usize = 0;
    proof {
        assert(all.skip(0) =~= all);
    }
    while i < lines.len()
        invariant
            i <= lines.len(),
            all == lines.deep_view(),
            all.len() == lines.len(),
            pat == spec_pattern_view(pattern),
            start.valid(),
            end.valid(),
            match cur {
                Some(d) => d.valid(),
                None => true,
            },
            spec_scan(all, *start, *end, pat, None) == out.deep_view() + spec_scan(
                all.skip(i as int),
                *start,
                *end,
                pat,
                cur,
            ),
        decreases lines.len() - i,
    {
        let line = &lines[i];
        let ghost prev_out = out.deep_view();
        let ghost prev_cur = cur;
        proof {
            assert(all.skip(i as int)[0] == all[i as int]);
            assert(all[i as int] == line@);
            assert(all.skip(i as int).skip(1) =~= all.skip(i + 1));
        }
        match parse_date(line) {
            Some(d) => {
                out.push(line.clone());
                cur = Some(d);
                proof {
                    assert(out.deep_view() =~= prev_out.push(line@));
                    assert(prev_out + (seq![line@] + spec_scan(
                        all.skip(i + 1),
                        *start,
                        *end,
                        pat,
                        cur,
                    )) =~= out.deep_view() + spec_scan(all.skip(i + 1), *start, *end, pat, cur));
                }
            },
            None => {
                match &cur {
                    Some(d) => {
                        let dd = *d;
                        if date_le(start, &dd) && date_le(&dd, end) {
                            let shown = match pattern {
                                None => true,
                                Some(p) => {
                                    if contains_bytes(line, p) {
                                        true
                                    } else {
                                        let db = format_date(&dd);
                                        contains_bytes(line, &db)
                                    }
                                },
                            };
                            if shown {
                                out.push(line.clone());
                                proof {
                                    assert(out.deep_view() =~= prev_out.push(line@));
                                    assert(prev_out + (seq![line@] + spec_scan(
                                        all.skip(i + 1),
                                        *start,
                                        *end,
                                        pat,
                                        cur,
                                    )) =~= out.deep_view() + spec_scan(
                                        all.skip(i + 1),
                                        *start,
                                        *end,
                                        pat,
                                        cur,
                                    ));
                                }
                            }
                        }
                    },
                    None => {},
                }
            },
        }
        i = i + 1;
    }
    proof {
        assert(all.skip(i as int) =~= Seq::<Seq<u8>>::empty());
        assert(out.deep_view() + Seq::<Seq<u8>>::empty() =~= out.deep_view());
    }
    out
}

/// Scans raw file contents: splits them into lines, then walks them.
pub fn scan(
    contents: &Vec<u8>,
    start: &Date,
    end: &Date,
    pattern: Option<&Vec<u8>>,
) -> (r: Vec<Vec<u8>>)
    requires
        start.valid(),
        end.valid(),
    ensures
        r.deep_view() == spec_scan(
            spec_lines(contents@),
            *start,
            *end,
            spec_pattern_view(pattern),
            None,
        ),
{
    let lines = split_lines(contents);
    scan_lines(&lines, start, end, pattern)
}

/// The scan with no date filter at all: what an unbounded range leaves.
pub open spec fn spec_scan_all(
    lines: Seq<Seq<u8>>,
    pattern: Option<Seq<u8>>,
    cur: Option<Date>,
) -> Seq<Seq<u8>>
    decreases lines.len(),
{
    if lines.len() == 0 {
        Seq::<Seq<u8>>::empty()
    } else {
        let line = lines[0];
        let rest = lines.skip(1);
        match spec_parse_date(line) {
            Some(d) => seq![line] + spec_scan_all(rest, pattern, Some(d)),
            None => match cur {
                Some(d) => if spec_line_matches(line, d, pattern) {
                    seq![line] + spec_scan_all(rest, pattern, cur)
                } else {
                    spec_scan_all(rest, pattern, cur)
                },
                None => spec_scan_all(rest, pattern, cur),
            },
        }
    }
}

/// Scanning with the unbounded range filters nothing out by date: every
/// header is emitted, and after a header a line is emitted exactly when
/// the pattern is absent, occurs in it, or its date's text occurs in it.
pub proof fn lemma_scan_unbounded(
    lines: Seq<Seq<u8>>,
    pattern: Option<Seq<u8>>,
    cur: Option<Date>,
)
    requires
        match cur {
            Some(d) => d.valid(),
            None => true,
        },
    ensures
        spec_scan(lines, spec_min_date(), spec_max_date(), pattern, cur) == spec_scan_all(
            lines,
            pattern,
            cur,
        ),
    decreases lines.len(),
{
    if lines.len() > 0 {
        let line = lines[0];
        let rest = lines.skip(1);
        match spec_parse_date(line) {
            Some(d) => {
                lemma_scan_unbounded(rest, pattern, Some(d));
            },
            None => {
                match cur {
                    Some(d) => {
                        lemma_day_number_bounds(d);
                        lemma_scan_unbounded(rest, pattern, cur);
                    },
                    None => {
                        lemma_scan_unbounded(rest, pattern, cur);
                    },
                }
            },
        }
    }
}

/// A line that stands before any header is never emitted, whatever the
/// range and pattern: the scan of such a file is the scan of its tail.
pub proof fn lemma_pre_header_line_skipped(
    lines: Seq<Seq<u8>>,
    start: Date,
    end: Date,
    pattern: Option<Seq<u8>>,
)
    requires
        lines.len() > 0,
        spec_parse_date(lines[0]) is None,
    ensures
        spec_scan(lines, start, end, pattern, None) == spec_scan(
            lines.skip(1),
            start,
            end,
            pattern,
            None,
        ),
{
}

} // verus!
