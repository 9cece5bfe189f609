//! A query's requests: which byte ranges a reader asks for, and how close ranges merge into
//! one request.

use vstd::prelude::*;

use crate::bytes::{sort_spans, sorted_spans, Span};
use crate::prune::Mechanisms;
use crate::reader::FooterOptions;

verus! {

/// How to issue requests.
#[derive(Clone, Copy, Debug, PartialEq, Eq, Structural)]
pub struct Strategy {
    pub footer: FooterOptions,
    pub connections: usize,
    /// Two ranges this close or closer become one request: `Some(0)` merges ranges that touch.
    /// `None` never merges, so every range is its own request.
    pub coalesce_gap: Option<u64>,
    /// Read whole column chunks, even when the page index would allow single pages.
    pub whole_chunks: bool,
    pub mechanisms: Mechanisms,
}

/// Whether a span starting at `start` joins a merged range ending at `end`: within `gap`
/// bytes of it, or, with no gap given, overlapping it.
pub open spec fn joins(end: u64, start: u64, gap: Option<u64>) -> bool {
    match gap {
        Some(g) => start <= (if end + g <= u64::MAX {
            end + g
        } else {
            u64::MAX as int
        }),
        None => start < end,
    }
}

/// Spans taken in order, each one that joins the last merged range extending it to cover
/// both, each other one starting a new range.
pub open spec fn merge_within(s: Seq<Span>, gap: Option<u64>) -> Seq<Span>
    decreases s.len(),
{
    if s.len() == 0 {
        Seq::empty()
    } else {
        let m = merge_within(s.drop_last(), gap);
        let x = s.last();
        if m.len() > 0 && joins(m.last().end, x.start, gap) {
            m.update(
                m.len() - 1,
                Span {
                    start: m.last().start,
                    end: if m.last().end < x.end {
                        x.end
                    } else {
                        m.last().end
                    },
                },
            )
        } else {
            m.push(x)
        }
    }
}

/// Sort spans, then merge each one into the range before it when it starts within `gap`
/// bytes of that range's end (with no gap, only when they overlap).
pub fn coalesce(spans: Vec<Span>, gap: Option<u64>) -> (out: Vec<Span>)
    ensures
        out@ == merge_within(sorted_spans(spans@), gap),
{
    let sorted = sort_spans(spans);
    let mut out: Vec<Span> = Vec::new();
    let mut i: usize = 0;
    while i < sorted.len()
        invariant
            i <= sorted@.len(),
            out@ == merge_within(sorted@.take(i as int), gap),
        decreases sorted@.len() - i,
    {
        let s = sorted[i];
        proof {
            assert(sorted@.take(i + 1).drop_last() =~= sorted@.take(i as int));
        }
        let n = out.len();
        if n > 0 {
            let last = out[n - 1];
            let merges = match gap {
                Some(g) => s.start <= last.end.saturating_add(g),
                None => s.start < last.end,
            };
            if merges {
                let end = if last.end < s.end { s.end } else { last.end };
                out.set(n - 1, Span { start: last.start, end });
            } else {
                out.push(s);
            }
        } else {
            out.push(s);
        }
        i = i + 1;
    }
    assert(sorted@.take(sorted@.len() as int) =~= sorted@);
    out
}

} // verus!
