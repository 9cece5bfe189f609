//! Skipping data: deciding, from metadata alone, what a query does not need to read.
//!
//! A reader is given a condition on one column, such as `order_id = 431` or `amount_cents > 9000`.
//! Before it reads a page it asks whether any value in the page's range can satisfy the
//! condition. Every answer is either "skip", which must be certain, or "read", which only means
//! "cannot rule it out". A wrong "skip" loses rows; a wrong "read" costs bytes. Each decision
//! records why.

use std::cmp::Ordering;

use vstd::prelude::*;
use vstd::relations::{sorted_by, total_ordering};
use vstd::seq_lib::{lemma_sorted_unique, to_multiset_insert};

use crate::bytes::Span;
use crate::schema::Leaf;
use crate::stats::{
    at_most, below, column_comparator, comparator_for, lemma_value_order, opt_str_view, value_order,
    Comparator,
};
use crate::text::{debug_text, str_eq};

verus! {

#[derive(Clone, Copy, Debug, PartialEq, Eq, Structural)]
pub enum Op {
    Eq,
    NotEq,
    Lt,
    LtEq,
    Gt,
    GtEq,
    IsNull,
    IsNotNull,
}

/// The symbol a condition writes an operator with.
pub open spec fn op_symbol(op: Op) -> Seq<char> {
    match op {
        Op::Eq => "="@,
        Op::NotEq => "!="@,
        Op::Lt => "<"@,
        Op::LtEq => "<="@,
        Op::Gt => ">"@,
        Op::GtEq => ">="@,
        Op::IsNull => "is null"@,
        Op::IsNotNull => "is not null"@,
    }
}

/// The operator a symbol names, if any.
pub open spec fn op_named(s: Seq<char>) -> Option<Op> {
    if s == "="@ {
        Some(Op::Eq)
    } else if s == "!="@ {
        Some(Op::NotEq)
    } else if s == "<"@ {
        Some(Op::Lt)
    } else if s == "<="@ {
        Some(Op::LtEq)
    } else if s == ">"@ {
        Some(Op::Gt)
    } else if s == ">="@ {
        Some(Op::GtEq)
    } else if s == "is null"@ {
        Some(Op::IsNull)
    } else if s == "is not null"@ {
        Some(Op::IsNotNull)
    } else {
        None
    }
}

/// Whether a value that compares to the condition's value as `o` satisfies `op`. Null, which
/// has no order, satisfies no comparison.
pub open spec fn op_holds(op: Op, o: Option<Ordering>) -> bool {
    match (op, o) {
        (Op::Eq, Some(Ordering::Equal)) => true,
        (Op::NotEq, Some(Ordering::Less)) | (Op::NotEq, Some(Ordering::Greater)) => true,
        (Op::Lt, Some(Ordering::Less)) => true,
        (Op::LtEq, Some(Ordering::Less)) | (Op::LtEq, Some(Ordering::Equal)) => true,
        (Op::Gt, Some(Ordering::Greater)) => true,
        (Op::GtEq, Some(Ordering::Greater)) | (Op::GtEq, Some(Ordering::Equal)) => true,
        _ => false,
    }
}

impl Op {
    pub fn parse(s: &str) -> (r: Result<Op, String>)
        ensures
            match op_named(s@) {
                Some(op) => r == Ok::<Op, String>(op),
                None => r matches Err(e) && e@ == "unknown comparison "@ + debug_text(s@),
            },
    {
        if str_eq(s, "=") {
            Ok(Op::Eq)
        } else if str_eq(s, "!=") {
            Ok(Op::NotEq)
        } else if str_eq(s, "<") {
            Ok(Op::Lt)
        } else if str_eq(s, "<=") {
            Ok(Op::LtEq)
        } else if str_eq(s, ">") {
            Ok(Op::Gt)
        } else if str_eq(s, ">=") {
            Ok(Op::GtEq)
        } else if str_eq(s, "is null") {
            Ok(Op::IsNull)
        } else if str_eq(s, "is not null") {
            Ok(Op::IsNotNull)
        } else {
            let mut m = "unknown comparison ".to_owned();
            let q = crate::text::debug_quoted(s);
            m.append(q.as_str());
            Err(m)
        }
    }

    pub fn symbol(&self) -> (s: &'static str)
        ensures
            s@ == op_symbol(*self),
    {
        match self {
            Op::Eq => "=",
            Op::NotEq => "!=",
            Op::Lt => "<",
            Op::LtEq => "<=",
            Op::Gt => ">",
            Op::GtEq => ">=",
            Op::IsNull => "is null",
            Op::IsNotNull => "is not null",
        }
    }

    /// Whether a value compares this way. Null matches nothing but `is null`.
    pub fn satisfied_by(&self, ordering: Option<Ordering>) -> (b: bool)
        ensures
            b == op_holds(*self, ordering),
    {
        match (self, ordering) {
            (Op::Eq, Some(Ordering::Equal)) => true,
            (Op::NotEq, Some(Ordering::Less)) | (Op::NotEq, Some(Ordering::Greater)) => true,
            (Op::Lt, Some(Ordering::Less)) => true,
            (Op::LtEq, Some(Ordering::Less)) | (Op::LtEq, Some(Ordering::Equal)) => true,
            (Op::Gt, Some(Ordering::Greater)) => true,
            (Op::GtEq, Some(Ordering::Greater)) | (Op::GtEq, Some(Ordering::Equal)) => true,
            _ => false,
        }
    }
}

/// A condition on one column: `column op value`.
#[derive(Clone, Debug, PartialEq)]
pub struct Predicate {
    pub column: usize,
    pub op: Op,
    /// The value as PLAIN bytes, as statistics store it. `None` for `is null` and `is not null`.
    pub value: Option<Vec<u8>>,
    pub comparator: Comparator,
}

/// Whether one row's value satisfies a condition; `None` is null.
pub open spec fn row_holds(p: Predicate, value: Option<Seq<u8>>) -> bool {
    match p.op {
        Op::IsNull => value is None,
        Op::IsNotNull => value is Some,
        op => match (value, p.value) {
            (Some(v), Some(x)) => op_holds(op, value_order(p.comparator, v, x@)),
            _ => false,
        },
    }
}

pub open spec fn opt_slice_view(o: Option<&[u8]>) -> Option<Seq<u8>> {
    match o {
        Some(s) => Some(s@),
        None => None,
    }
}

impl Predicate {
    /// Whether one row's value satisfies the condition. `None` is null.
    pub fn row_matches(&self, value: Option<&[u8]>) -> (b: bool)
        ensures
            b == row_holds(*self, opt_slice_view(value)),
    {
        match self.op {
            Op::IsNull => value.is_none(),
            Op::IsNotNull => value.is_some(),
            op => match (value, &self.value) {
                (Some(v), Some(x)) => op.satisfied_by(self.comparator.compare(v, x.as_slice())),
                _ => false,
            },
        }
    }
}

/// A decision and the reason for it.
#[derive(Clone, Debug, PartialEq, Eq)]
pub struct Decision {
    pub skip: bool,
    pub why: String,
}

/// A decision as a value: whether to skip, and the reason.
pub open spec fn decided(d: Decision, skip: bool, why: Seq<char>) -> bool {
    d.skip == skip && d.why@ == why
}

fn skip(why: &str) -> (d: Decision)
    ensures
        decided(d, true, why@),
{
    Decision { skip: true, why: why.to_owned() }
}

fn read(why: &str) -> (d: Decision)
    ensures
        decided(d, false, why@),
{
    Decision { skip: false, why: why.to_owned() }
}

/// What a minimum and maximum, a null count and a value count decide for a condition: whether
/// it is certain that no value satisfies it, and why.
pub open spec fn bounds_decision(
    p: Predicate,
    bounds: Option<(Seq<u8>, Seq<u8>)>,
    null_count: Option<i64>,
    num_values: i64,
) -> (bool, Seq<char>) {
    let all_null = null_count == Some(num_values) && num_values > 0;
    if p.op == Op::IsNull {
        if null_count == Some(0i64) {
            (true, "the null count is zero"@)
        } else {
            (false, "the null count is not zero, or not recorded"@)
        }
    } else if p.op == Op::IsNotNull {
        if all_null {
            (true, "every value is null"@)
        } else {
            (false, "some values are not null"@)
        }
    } else if all_null {
        (true, "every value is null, and null satisfies no comparison"@)
    } else {
        match (p.value, bounds) {
            (Some(x), Some((min, max))) => {
                let c = p.comparator;
                match (value_order(c, x@, min), value_order(c, x@, max)) {
                    (Some(vs_min), Some(vs_max)) => {
                        let ruled_out = match p.op {
                            Op::Eq => vs_min == Ordering::Less || vs_max == Ordering::Greater,
                            Op::NotEq => vs_min == Ordering::Equal && vs_max == Ordering::Equal,
                            Op::Lt => vs_min != Ordering::Greater,
                            Op::LtEq => vs_min == Ordering::Less,
                            Op::Gt => vs_max != Ordering::Less,
                            _ => vs_max == Ordering::Greater,
                        };
                        if ruled_out {
                            (
                                true,
                                match p.op {
                                    Op::Eq => if vs_min == Ordering::Less {
                                        "the value is below the minimum"@
                                    } else {
                                        "the value is above the maximum"@
                                    },
                                    Op::NotEq => "every value equals it"@,
                                    Op::Lt | Op::LtEq => "the minimum is too large"@,
                                    _ => "the maximum is too small"@,
                                },
                            )
                        } else {
                            (false, "the range may hold a match"@)
                        }
                    },
                    _ => (false, "the value cannot be placed in the column's order"@),
                }
            },
            _ => (false, "no usable minimum and maximum"@),
        }
    }
}

/// Skipping for `=` is exact: when the value can be placed against both the minimum and the
/// maximum and not every value is null, the decision is to skip exactly when the value is below
/// the minimum or above the maximum, and the reason names the side.
pub proof fn lemma_eq_skip_exact(
    p: Predicate,
    min: Seq<u8>,
    max: Seq<u8>,
    null_count: Option<i64>,
    num_values: i64,
)
    requires
        p.op == Op::Eq,
        p.value is Some,
        !(null_count == Some(num_values) && num_values > 0),
        value_order(p.comparator, p.value.unwrap()@, min) is Some,
        value_order(p.comparator, p.value.unwrap()@, max) is Some,
    ensures
        bounds_decision(p, Some((min, max)), null_count, num_values).0 <==> (value_order(
            p.comparator,
            p.value.unwrap()@,
            min,
        ) == Some(Ordering::Less) || value_order(p.comparator, p.value.unwrap()@, max) == Some(
            Ordering::Greater,
        )),
        value_order(p.comparator, p.value.unwrap()@, min) == Some(Ordering::Less) ==> bounds_decision(
            p,
            Some((min, max)),
            null_count,
            num_values,
        ) == (true, "the value is below the minimum"@),
        value_order(p.comparator, p.value.unwrap()@, min) != Some(Ordering::Less) && value_order(
            p.comparator,
            p.value.unwrap()@,
            max,
        ) == Some(Ordering::Greater) ==> bounds_decision(p, Some((min, max)), null_count, num_values)
            == (true, "the value is above the maximum"@),
{
}

pub open spec fn opt_pair_view(b: Option<(&[u8], &[u8])>) -> Option<(Seq<u8>, Seq<u8>)> {
    match b {
        Some((lo, hi)) => Some((lo@, hi@)),
        None => None,
    }
}

/// Decide from a minimum and maximum (when usable), a null count, and a value count.
pub fn against_bounds(
    p: &Predicate,
    bounds: Option<(&[u8], &[u8])>,
    null_count: Option<i64>,
    num_values: i64,
) -> (d: Decision)
    ensures
        decided(
            d,
            bounds_decision(*p, opt_pair_view(bounds), null_count, num_values).0,
            bounds_decision(*p, opt_pair_view(bounds), null_count, num_values).1,
        ),
{
    let all_null = match null_count {
        Some(n) => n == num_values && num_values > 0,
        None => false,
    };
    match p.op {
        Op::IsNull => {
            return match null_count {
                Some(0) => skip("the null count is zero"),
                _ => read("the null count is not zero, or not recorded"),
            };
        },
        Op::IsNotNull => {
            return if all_null {
                skip("every value is null")
            } else {
                read("some values are not null")
            };
        },
        _ => {
            if all_null {
                return skip("every value is null, and null satisfies no comparison");
            }
        },
    }
    let (x, min, max) = match (&p.value, bounds) {
        (Some(x), Some((min, max))) => (x, min, max),
        _ => {
            return read("no usable minimum and maximum");
        },
    };
    let c = p.comparator;
    let (vs_min, vs_max) = match (c.compare(x.as_slice(), min), c.compare(x.as_slice(), max)) {
        (Some(a), Some(b)) => (a, b),
        _ => {
            return read("the value cannot be placed in the column's order");
        },
    };
    let below_min = match vs_min {
        Ordering::Less => true,
        _ => false,
    };
    let min_equal = match vs_min {
        Ordering::Equal => true,
        _ => false,
    };
    let above_min = match vs_min {
        Ordering::Greater => true,
        _ => false,
    };
    let above_max = match vs_max {
        Ordering::Greater => true,
        _ => false,
    };
    let max_equal = match vs_max {
        Ordering::Equal => true,
        _ => false,
    };
    let below_max = match vs_max {
        Ordering::Less => true,
        _ => false,
    };
    let ruled_out = match p.op {
        Op::Eq => below_min || above_max,
        Op::NotEq => min_equal && max_equal,
        Op::Lt => !above_min,
        Op::LtEq => below_min,
        Op::Gt => !below_max,
        _ => above_max,
    };
    if ruled_out {
        match p.op {
            Op::Eq => if below_min {
                skip("the value is below the minimum")
            } else {
                skip("the value is above the maximum")
            },
            Op::NotEq => skip("every value equals it"),
            Op::Lt | Op::LtEq => skip("the minimum is too large"),
            _ => skip("the maximum is too small"),
        }
    } else {
        read("the range may hold a match")
    }
}

/// Which mechanisms a plan may use.
#[derive(Clone, Copy, Debug, PartialEq, Eq, Structural)]
pub struct Mechanisms {
    pub statistics: bool,
    pub bloom: bool,
    pub page_index: bool,
}

/// One page of the condition's column, and whether its rows are kept.
#[derive(Debug, PartialEq)]
pub struct PagePlan {
    pub span: Span,
    pub rows: (i64, i64),
    pub decision: Decision,
}

impl Clone for PagePlan {
    fn clone(&self) -> (p: PagePlan)
        ensures
            p.span == self.span && p.rows == self.rows && p.decision.skip == self.decision.skip
                && p.decision.why@ == self.decision.why@,
    {
        PagePlan {
            span: self.span,
            rows: (self.rows.0, self.rows.1),
            decision: Decision { skip: self.decision.skip, why: self.decision.why.clone() },
        }
    }
}

/// The bytes of one projected column a plan reads in one row group.
#[derive(Clone, Debug, PartialEq)]
pub struct ColumnRead {
    pub column: usize,
    pub spans: Vec<Span>,
    /// How many of the chunk's data pages those spans include, and how many it has.
    pub pages_read: usize,
    pub pages_total: usize,
}

#[derive(Clone, Debug, PartialEq)]
pub struct RowGroupPlan {
    pub index: usize,
    pub num_rows: i64,
    /// Each mechanism consulted, in order, and what it decided.
    pub steps: Vec<(&'static str, Decision)>,
    pub skipped: bool,
    pub pages: Vec<PagePlan>,
    /// The rows still to read, as `[start, end)` ranges within the row group.
    pub rows: Vec<(i64, i64)>,
    pub reads: Vec<ColumnRead>,
    /// Bytes of Bloom filters and page indexes fetched to decide.
    pub index_bytes: u64,
}

#[derive(Clone, Debug, PartialEq)]
pub struct Plan {
    pub row_groups: Vec<RowGroupPlan>,
}

/// The bytes of some spans, together.
pub open spec fn spans_bytes(spans: Seq<Span>) -> int
    decreases spans.len(),
{
    if spans.len() == 0 {
        0
    } else {
        spans_bytes(spans.drop_last()) + (spans.last().end - spans.last().start)
    }
}

/// The bytes of a row group's column reads.
pub open spec fn reads_bytes(reads: Seq<ColumnRead>) -> int
    decreases reads.len(),
{
    if reads.len() == 0 {
        0
    } else {
        reads_bytes(reads.drop_last()) + spans_bytes(reads.last().spans@)
    }
}

/// The bytes a plan reads.
pub open spec fn plan_bytes(groups: Seq<RowGroupPlan>) -> int
    decreases groups.len(),
{
    if groups.len() == 0 {
        0
    } else {
        plan_bytes(groups.drop_last()) + reads_bytes(groups.last().reads@)
    }
}

pub open spec fn plan_index_bytes(groups: Seq<RowGroupPlan>) -> int
    decreases groups.len(),
{
    if groups.len() == 0 {
        0
    } else {
        plan_index_bytes(groups.drop_last()) + groups.last().index_bytes
    }
}

pub open spec fn ranges_rows(rows: Seq<(i64, i64)>) -> int
    decreases rows.len(),
{
    if rows.len() == 0 {
        0
    } else {
        ranges_rows(rows.drop_last()) + (rows.last().1 - rows.last().0)
    }
}

pub open spec fn plan_rows(groups: Seq<RowGroupPlan>) -> int
    decreases groups.len(),
{
    if groups.len() == 0 {
        0
    } else {
        plan_rows(groups.drop_last()) + ranges_rows(groups.last().rows@)
    }
}

proof fn lemma_spans_bytes_grow(spans: Seq<Span>, k: int)
    requires
        0 <= k <= spans.len(),
        forall|t: int| 0 <= t < spans.len() ==> #[trigger] spans[t].start <= spans[t].end,
    ensures
        0 <= spans_bytes(spans.take(k)) <= spans_bytes(spans),
    decreases spans.len() - k,
{
    if k < spans.len() {
        lemma_spans_bytes_grow(spans, k + 1);
        assert(spans.take(k + 1).drop_last() =~= spans.take(k));
    } else {
        assert(spans.take(k) =~= spans);
    }
    if k > 0 {
        lemma_spans_nonneg(spans.take(k));
    }
}

proof fn lemma_spans_nonneg(spans: Seq<Span>)
    requires
        forall|t: int| 0 <= t < spans.len() ==> #[trigger] spans[t].start <= spans[t].end,
    ensures
        spans_bytes(spans) >= 0,
    decreases spans.len(),
{
    if spans.len() > 0 {
        lemma_spans_nonneg(spans.drop_last());
    }
}

/// The spans of every read are well formed.
pub open spec fn reads_wf(reads: Seq<ColumnRead>) -> bool {
    forall|r: int, t: int|
        0 <= r < reads.len() && 0 <= t < reads[r].spans@.len() ==> #[trigger] reads[r].spans@[t].start
            <= reads[r].spans@[t].end
}

proof fn lemma_reads_nonneg(reads: Seq<ColumnRead>)
    requires
        reads_wf(reads),
    ensures
        reads_bytes(reads) >= 0,
    decreases reads.len(),
{
    if reads.len() > 0 {
        lemma_reads_nonneg(reads.drop_last());
        let last = reads.last();
        assert forall|t: int| 0 <= t < last.spans@.len() implies #[trigger] last.spans@[t].start
            <= last.spans@[t].end by {
            assert(reads[reads.len() - 1].spans@[t].start <= reads[reads.len() - 1].spans@[t].end);
        }
        lemma_spans_nonneg(last.spans@);
    }
}

proof fn lemma_plan_grow(groups: Seq<RowGroupPlan>, k: int)
    requires
        0 <= k <= groups.len(),
        forall|g: int| 0 <= g < groups.len() ==> reads_wf(#[trigger] groups[g].reads@),
    ensures
        0 <= plan_bytes(groups.take(k)) <= plan_bytes(groups),
    decreases groups.len() - k,
{
    lemma_plan_nonneg(groups.take(k));
    if k < groups.len() {
        lemma_plan_grow(groups, k + 1);
        assert(groups.take(k + 1).drop_last() =~= groups.take(k));
        assert(reads_wf(groups[k].reads@));
        lemma_reads_nonneg(groups[k].reads@);
    } else {
        assert(groups.take(k) =~= groups);
    }
}

proof fn lemma_plan_nonneg(groups: Seq<RowGroupPlan>)
    requires
        forall|g: int| 0 <= g < groups.len() ==> reads_wf(#[trigger] groups[g].reads@),
    ensures
        plan_bytes(groups) >= 0,
    decreases groups.len(),
{
    if groups.len() > 0 {
        lemma_plan_nonneg(groups.drop_last());
        assert(reads_wf(groups[groups.len() - 1].reads@));
        lemma_reads_nonneg(groups.last().reads@);
    }
}

proof fn lemma_reads_grow(reads: Seq<ColumnRead>, k: int)
    requires
        0 <= k <= reads.len(),
        reads_wf(reads),
    ensures
        0 <= reads_bytes(reads.take(k)) <= reads_bytes(reads),
    decreases reads.len() - k,
{
    assert(reads_wf(reads.take(k)));
    lemma_reads_nonneg(reads.take(k));
    if k < reads.len() {
        lemma_reads_grow(reads, k + 1);
        assert(reads.take(k + 1).drop_last() =~= reads.take(k));
        let last = reads[k];
        assert forall|t: int| 0 <= t < last.spans@.len() implies #[trigger] last.spans@[t].start
            <= last.spans@[t].end by {
            assert(reads[k].spans@[t].start <= reads[k].spans@[t].end);
        }
        lemma_spans_nonneg(last.spans@);
    } else {
        assert(reads.take(k) =~= reads);
    }
}

fn spans_total(spans: &Vec<Span>) -> (n: u64)
    requires
        forall|t: int| 0 <= t < spans@.len() ==> #[trigger] spans@[t].start <= spans@[t].end,
        spans_bytes(spans@) <= u64::MAX,
    ensures
        n == spans_bytes(spans@),
{
    let mut total: u64 = 0;
    let mut k: usize = 0;
    while k < spans.len()
        invariant
            k <= spans@.len(),
            forall|t: int| 0 <= t < spans@.len() ==> #[trigger] spans@[t].start <= spans@[t].end,
            spans_bytes(spans@) <= u64::MAX,
            total == spans_bytes(spans@.take(k as int)),
        decreases spans@.len() - k,
    {
        proof {
            assert(spans@.take(k + 1).drop_last() =~= spans@.take(k as int));
            lemma_spans_bytes_grow(spans@, k + 1);
        }
        total = total + spans[k].len();
        k = k + 1;
    }
    assert(spans@.take(spans@.len() as int) =~= spans@);
    total
}

fn reads_total(reads: &Vec<ColumnRead>) -> (n: u64)
    requires
        reads_wf(reads@),
        reads_bytes(reads@) <= u64::MAX,
    ensures
        n == reads_bytes(reads@),
{
    let mut total: u64 = 0;
    let mut r: usize = 0;
    while r < reads.len()
        invariant
            r <= reads@.len(),
            reads_wf(reads@),
            reads_bytes(reads@) <= u64::MAX,
            total == reads_bytes(reads@.take(r as int)),
        decreases reads@.len() - r,
    {
        proof {
            assert(reads@.take(r + 1).drop_last() =~= reads@.take(r as int));
            lemma_reads_grow(reads@, r + 1);
            let last = reads@[r as int];
            assert forall|t: int| 0 <= t < last.spans@.len() implies #[trigger] last.spans@[t].start
                <= last.spans@[t].end by {
                assert(reads@[r as int].spans@[t].start <= reads@[r as int].spans@[t].end);
            }
            lemma_spans_nonneg(last.spans@);
        }
        total = total + spans_total(&reads[r].spans);
        r = r + 1;
    }
    assert(reads@.take(reads@.len() as int) =~= reads@);
    total
}

proof fn lemma_index_grow(groups: Seq<RowGroupPlan>, k: int)
    requires
        0 <= k <= groups.len(),
    ensures
        0 <= plan_index_bytes(groups.take(k)) <= plan_index_bytes(groups),
    decreases groups.len() - k,
{
    if k < groups.len() {
        lemma_index_grow(groups, k + 1);
        assert(groups.take(k + 1).drop_last() =~= groups.take(k));
    } else {
        assert(groups.take(k) =~= groups);
    }
    lemma_index_nonneg(groups.take(k));
}

proof fn lemma_index_nonneg(groups: Seq<RowGroupPlan>)
    ensures
        plan_index_bytes(groups) >= 0,
    decreases groups.len(),
{
    if groups.len() > 0 {
        lemma_index_nonneg(groups.drop_last());
    }
}

/// Every row range of a group holds no fewer rows than none, and no more than 64 bits count.
pub open spec fn ranges_fit(rows: Seq<(i64, i64)>) -> bool {
    forall|r: int| 0 <= r < rows.len() ==> 0 <= #[trigger] rows[r].1 - rows[r].0 <= i64::MAX
}

proof fn lemma_rows_grow(rows: Seq<(i64, i64)>, k: int)
    requires
        0 <= k <= rows.len(),
        ranges_fit(rows),
    ensures
        0 <= ranges_rows(rows.take(k)) <= ranges_rows(rows),
    decreases rows.len() - k,
{
    if k < rows.len() {
        lemma_rows_grow(rows, k + 1);
        assert(rows.take(k + 1).drop_last() =~= rows.take(k));
        assert(0 <= rows[k].1 - rows[k].0);
    } else {
        assert(rows.take(k) =~= rows);
    }
    assert(ranges_fit(rows.take(k)));
    lemma_rows_nonneg(rows.take(k));
}

proof fn lemma_rows_nonneg(rows: Seq<(i64, i64)>)
    requires
        ranges_fit(rows),
    ensures
        ranges_rows(rows) >= 0,
    decreases rows.len(),
{
    if rows.len() > 0 {
        assert(ranges_fit(rows.drop_last()));
        lemma_rows_nonneg(rows.drop_last());
        assert(0 <= rows[rows.len() - 1].1 - rows[rows.len() - 1].0);
    }
}

proof fn lemma_plan_rows_grow(groups: Seq<RowGroupPlan>, k: int)
    requires
        0 <= k <= groups.len(),
        forall|g: int| 0 <= g < groups.len() ==> ranges_fit(#[trigger] groups[g].rows@),
    ensures
        0 <= plan_rows(groups.take(k)) <= plan_rows(groups),
    decreases groups.len() - k,
{
    if k < groups.len() {
        lemma_plan_rows_grow(groups, k + 1);
        assert(groups.take(k + 1).drop_last() =~= groups.take(k));
        assert(ranges_fit(groups[k].rows@));
        lemma_rows_grow(groups[k].rows@, 0);
        assert(groups[k].rows@.take(0) =~= Seq::<(i64, i64)>::empty());
    } else {
        assert(groups.take(k) =~= groups);
    }
    lemma_plan_rows_nonneg(groups.take(k));
}

proof fn lemma_plan_rows_nonneg(groups: Seq<RowGroupPlan>)
    requires
        forall|g: int| 0 <= g < groups.len() ==> ranges_fit(#[trigger] groups[g].rows@),
    ensures
        plan_rows(groups) >= 0,
    decreases groups.len(),
{
    if groups.len() > 0 {
        lemma_plan_rows_nonneg(groups.drop_last());
        assert(ranges_fit(groups[groups.len() - 1].rows@));
        lemma_rows_nonneg(groups.last().rows@);
    }
}

fn rows_total(rows: &Vec<(i64, i64)>) -> (n: i64)
    requires
        ranges_fit(rows@),
        ranges_rows(rows@) <= i64::MAX,
    ensures
        n == ranges_rows(rows@),
{
    let mut total: i64 = 0;
    let mut r: usize = 0;
    while r < rows.len()
        invariant
            r <= rows@.len(),
            ranges_fit(rows@),
            ranges_rows(rows@) <= i64::MAX,
            total == ranges_rows(rows@.take(r as int)),
        decreases rows@.len() - r,
    {
        proof {
            assert(rows@.take(r + 1).drop_last() =~= rows@.take(r as int));
            lemma_rows_grow(rows@, r + 1);
            lemma_rows_grow(rows@, r as int);
        }
        let (a, b) = rows[r];
        total = total + (b - a);
        r = r + 1;
    }
    assert(rows@.take(rows@.len() as int) =~= rows@);
    total
}

impl Plan {
    /// The bytes the plan reads, in all its row groups.
    pub fn bytes_read(&self) -> (n: u64)
        requires
            forall|g: int|
                0 <= g < self.row_groups@.len() ==> reads_wf(#[trigger] self.row_groups@[g].reads@),
            plan_bytes(self.row_groups@) <= u64::MAX,
        ensures
            n == plan_bytes(self.row_groups@),
    {
        let ghost gs = self.row_groups@;
        let mut total: u64 = 0;
        let mut g: usize = 0;
        while g < self.row_groups.len()
            invariant
                gs == self.row_groups@,
                g <= gs.len(),
                forall|t: int| 0 <= t < gs.len() ==> reads_wf(#[trigger] gs[t].reads@),
                plan_bytes(gs) <= u64::MAX,
                total == plan_bytes(gs.take(g as int)),
            decreases gs.len() - g,
        {
            proof {
                assert(gs.take(g + 1).drop_last() =~= gs.take(g as int));
                lemma_plan_grow(gs, g + 1);
                lemma_plan_nonneg(gs.take(g as int));
                assert(reads_wf(gs[g as int].reads@));
                lemma_reads_nonneg(gs[g as int].reads@);
            }
            total = total + reads_total(&self.row_groups[g].reads);
            g = g + 1;
        }
        assert(gs.take(gs.len() as int) =~= gs);
        total
    }

    /// The bytes of Bloom filters and page indexes the plan fetched to decide.
    pub fn index_bytes(&self) -> (n: u64)
        requires
            plan_index_bytes(self.row_groups@) <= u64::MAX,
        ensures
            n == plan_index_bytes(self.row_groups@),
    {
        let ghost gs = self.row_groups@;
        let mut total: u64 = 0;
        let mut g: usize = 0;
        while g < self.row_groups.len()
            invariant
                gs == self.row_groups@,
                g <= gs.len(),
                plan_index_bytes(gs) <= u64::MAX,
                total == plan_index_bytes(gs.take(g as int)),
            decreases gs.len() - g,
        {
            proof {
                assert(gs.take(g + 1).drop_last() =~= gs.take(g as int));
                lemma_index_grow(gs, g + 1);
            }
            total = total + self.row_groups[g].index_bytes;
            g = g + 1;
        }
        assert(gs.take(gs.len() as int) =~= gs);
        total
    }

    /// The rows the plan still reads, in all its row groups.
    pub fn rows_read(&self) -> (n: i64)
        requires
            forall|g: int|
                0 <= g < self.row_groups@.len() ==> ranges_fit(#[trigger] self.row_groups@[g].rows@),
            plan_rows(self.row_groups@) <= i64::MAX,
        ensures
            n == plan_rows(self.row_groups@),
    {
        let ghost gs = self.row_groups@;
        let mut total: i64 = 0;
        let mut g: usize = 0;
        while g < self.row_groups.len()
            invariant
                gs == self.row_groups@,
                g <= gs.len(),
                forall|t: int| 0 <= t < gs.len() ==> ranges_fit(#[trigger] gs[t].rows@),
                plan_rows(gs) <= i64::MAX,
                total == plan_rows(gs.take(g as int)),
            decreases gs.len() - g,
        {
            proof {
                assert(gs.take(g + 1).drop_last() =~= gs.take(g as int));
                lemma_plan_rows_grow(gs, g + 1);
                lemma_plan_rows_grow(gs, g as int);
                assert(ranges_fit(gs[g as int].rows@));
                lemma_rows_grow(gs[g as int].rows@, 0);
                assert(gs[g as int].rows@.take(0) =~= Seq::<(i64, i64)>::empty());
            }
            total = total + rows_total(&self.row_groups[g].rows);
            g = g + 1;
        }
        assert(gs.take(gs.len() as int) =~= gs);
        total
    }
}

/// Whether two row ranges share a row.
pub open spec fn ranges_overlap(a: (i64, i64), b: (i64, i64)) -> bool {
    a.0 < b.1 && b.0 < a.1
}

pub fn overlaps(a: (i64, i64), b: (i64, i64)) -> (r: bool)
    ensures
        r == ranges_overlap(a, b),
{
    a.0 < b.1 && b.0 < a.1
}

/// Ranges in order: by start, then by end.
pub open spec fn pair_le(a: (i64, i64), b: (i64, i64)) -> bool {
    a.0 < b.0 || (a.0 == b.0 && a.1 <= b.1)
}

pub open spec fn pair_order() -> spec_fn((i64, i64), (i64, i64)) -> bool {
    |a: (i64, i64), b: (i64, i64)| pair_le(a, b)
}

proof fn lemma_pair_order_total()
    ensures
        total_ordering(pair_order()),
{
    let r = pair_order();
    assert forall|a: (i64, i64), b: (i64, i64)| #[trigger] r(a, b) && r(b, a) implies a == b by {}
}

/// Sorted ranges, each merged into the one before when it starts no later than that one ends.
pub open spec fn merged(s: Seq<(i64, i64)>) -> Seq<(i64, i64)>
    decreases s.len(),
{
    if s.len() == 0 {
        Seq::empty()
    } else {
        let out = merged(s.drop_last());
        let r = s.last();
        if out.len() > 0 && r.0 <= out.last().1 {
            out.update(
                out.len() - 1,
                (
                    out.last().0,
                    if out.last().1 < r.1 {
                        r.1
                    } else {
                        out.last().1
                    },
                ),
            )
        } else {
            out.push(r)
        }
    }
}

/// Merge touching or overlapping ranges: sort them, then join each to the one before when they
/// touch.
pub fn merge(ranges: Vec<(i64, i64)>) -> (out: Vec<(i64, i64)>)
    ensures
        out@ == merged(ranges@.sort_by(pair_order())),
{
    let mut sorted: Vec<(i64, i64)> = Vec::new();
    let mut i: usize = 0;
    proof {
        lemma_pair_order_total();
        assert(ranges@.subrange(0, 0) =~= sorted@);
    }
    while i < ranges.len()
        invariant
            i <= ranges@.len(),
            sorted_by(sorted@, pair_order()),
            sorted@.to_multiset() == ranges@.subrange(0, i as int).to_multiset(),
            total_ordering(pair_order()),
        decreases ranges@.len() - i,
    {
        let x = ranges[i];
        let mut p: usize = 0;
        while p < sorted.len() && (sorted[p].0 < x.0 || (sorted[p].0 == x.0 && sorted[p].1 <= x.1))
            invariant
                p <= sorted@.len(),
                forall|k: int| 0 <= k < p ==> pair_le(#[trigger] sorted@[k], x),
            decreases sorted@.len() - p,
        {
            p = p + 1;
        }
        let ghost before = sorted@;
        sorted.insert(p, x);
        proof {
            to_multiset_insert(before, p as int, x);
            assert(ranges@.subrange(0, i + 1) =~= ranges@.subrange(0, i as int).push(x));
            vstd::seq_lib::to_multiset_build(ranges@.subrange(0, i as int), x);
            assert forall|a: int, b: int| 0 <= a < b < sorted@.len() implies #[trigger] pair_order()(
                sorted@[a],
                sorted@[b],
            ) by {
                if b < p {
                    assert(sorted@[a] == before[a] && sorted@[b] == before[b]);
                } else if b == p {
                    assert(sorted@[a] == before[a]);
                } else if a == p {
                    assert(sorted@[b] == before[b - 1]);
                    assert(pair_le(x, before[p as int]) || p == before.len());
                    if (b - 1) > p {
                        assert(pair_order()(before[p as int], before[b - 1]));
                    }
                } else if a < p {
                    assert(sorted@[a] == before[a] && sorted@[b] == before[b - 1]);
                    assert(pair_le(before[a], x));
                    assert(pair_le(x, before[p as int]));
                    assert(pair_order()(before[p as int], before[b - 1]) || b - 1 == p);
                } else {
                    assert(sorted@[a] == before[a - 1] && sorted@[b] == before[b - 1]);
                }
            }
        }
        i = i + 1;
    }
    proof {
        assert(ranges@.subrange(0, ranges@.len() as int) =~= ranges@);
        ranges@.lemma_sort_by_ensures(pair_order());
        lemma_sorted_unique(sorted@, ranges@.sort_by(pair_order()), pair_order());
    }
    let mut out: Vec<(i64, i64)> = Vec::new();
    let mut k: usize = 0;
    while k < sorted.len()
        invariant
            k <= sorted@.len(),
            out@ == merged(sorted@.take(k as int)),
        decreases sorted@.len() - k,
    {
        proof {
            assert(sorted@.take(k + 1).drop_last() =~= sorted@.take(k as int));
        }
        let r = sorted[k];
        let n = out.len();
        if n > 0 && r.0 <= out[n - 1].1 {
            let last = out[n - 1];
            let end = if last.1 < r.1 {
                r.1
            } else {
                last.1
            };
            out.set(n - 1, (last.0, end));
        } else {
            out.push(r);
        }
        k = k + 1;
    }
    assert(sorted@.take(sorted@.len() as int) =~= sorted@);
    out
}

/// A white-space character, in Unicode's sense, as `str::trim` strips it.
pub open spec fn is_white(c: char) -> bool {
    ('\u{9}' <= c && c <= '\u{d}') || c == ' ' || c == '\u{85}' || c == '\u{a0}' || c == '\u{1680}'
        || ('\u{2000}' <= c && c <= '\u{200a}') || c == '\u{2028}' || c == '\u{2029}' || c
        == '\u{202f}' || c == '\u{205f}' || c == '\u{3000}'
}

/// Where the text starts once the characters `strip` picks are taken off its front.
pub open spec fn strip_start(s: Seq<char>, strip: spec_fn(char) -> bool, i: int) -> int
    decreases s.len() - i,
{
    if 0 <= i < s.len() && strip(s[i]) {
        strip_start(s, strip, i + 1)
    } else {
        i
    }
}

/// Where the text ends once the characters `strip` picks are taken off its back, not before `lo`.
pub open spec fn strip_end(s: Seq<char>, strip: spec_fn(char) -> bool, lo: int, j: int) -> int
    decreases j - lo,
{
    if lo < j <= s.len() && strip(s[j - 1]) {
        strip_end(s, strip, lo, j - 1)
    } else {
        j
    }
}

/// The text with the characters `strip` picks taken off both ends.
pub open spec fn stripped(s: Seq<char>, strip: spec_fn(char) -> bool) -> Seq<char> {
    let lo = strip_start(s, strip, 0);
    s.subrange(lo, strip_end(s, strip, lo, s.len() as int))
}

pub open spec fn white() -> spec_fn(char) -> bool {
    |c: char| is_white(c)
}

pub open spec fn quote() -> spec_fn(char) -> bool {
    |c: char| c == '"'
}

proof fn lemma_strip_bounds(s: Seq<char>, strip: spec_fn(char) -> bool, i: int, lo: int, j: int)
    requires
        0 <= i <= s.len(),
        0 <= lo <= j <= s.len(),
    ensures
        i <= strip_start(s, strip, i) <= s.len(),
        lo <= strip_end(s, strip, lo, j) <= j,
    decreases s.len() - i + j - lo,
{
    if i < s.len() && strip(s[i]) {
        lemma_strip_bounds(s, strip, i + 1, lo, j);
    }
    if lo < j && strip(s[j - 1]) {
        lemma_strip_bounds(s, strip, i, lo, j - 1);
    }
}

fn strips(c: char, quotes: bool) -> (b: bool)
    ensures
        b == (if quotes {
            quote()
        } else {
            white()
        })(c),
{
    if quotes {
        c == '"'
    } else {
        ('\u{9}' <= c && c <= '\u{d}') || c == ' ' || c == '\u{85}' || c == '\u{a0}' || c
            == '\u{1680}' || ('\u{2000}' <= c && c <= '\u{200a}') || c == '\u{2028}' || c
            == '\u{2029}' || c == '\u{202f}' || c == '\u{205f}' || c == '\u{3000}'
    }
}

/// Take the characters `white` or `quote` picks off both ends of a string.
fn strip_text(text: &str, quotes: bool) -> (r: &str)
    ensures
        r@ == stripped(
            text@,
            if quotes {
                quote()
            } else {
                white()
            },
        ),
{
    let ghost strip = if quotes {
        quote()
    } else {
        white()
    };
    let n = text.unicode_len();
    let mut lo: usize = 0;
    while lo < n && strips(text.get_char(lo), quotes)
        invariant
            n == text@.len(),
            lo <= n,
            strip == (if quotes {
                quote()
            } else {
                white()
            }),
            strip_start(text@, strip, 0) == strip_start(text@, strip, lo as int),
        decreases n - lo,
    {
        lo = lo + 1;
    }
    let mut hi: usize = n;
    while hi > lo && strips(text.get_char(hi - 1), quotes)
        invariant
            n == text@.len(),
            lo <= hi <= n,
            lo == strip_start(text@, strip, 0),
            strip == (if quotes {
                quote()
            } else {
                white()
            }),
            strip_end(text@, strip, lo as int, n as int) == strip_end(
                text@,
                strip,
                lo as int,
                hi as int,
            ),
        decreases hi - lo,
    {
        hi = hi - 1;
    }
    text.substring_char(lo, hi)
}

pub open spec fn digit_char(c: char) -> bool {
    '0' <= c && c <= '9'
}

/// The number decimal digits write.
pub open spec fn digits_value(d: Seq<char>) -> int
    decreases d.len(),
{
    if d.len() == 0 {
        0
    } else {
        digits_value(d.drop_last()) * 10 + (d.last() as int - 48)
    }
}

/// How many characters of a sign an integer starts with: a `+`, or a `-` where negative
/// numbers are allowed.
pub open spec fn sign_len(s: Seq<char>, signed: bool) -> int {
    if (signed && s.len() > 0 && s[0] == '-') || (s.len() > 0 && s[0] == '+') {
        1
    } else {
        0
    }
}

/// The characters after the sign.
pub open spec fn digits_of(s: Seq<char>, signed: bool) -> Seq<char> {
    s.subrange(sign_len(s, signed), s.len() as int)
}

pub open spec fn all_digits(d: Seq<char>) -> bool {
    forall|i: int| 0 <= i < d.len() ==> digit_char(#[trigger] d[i])
}

/// The integer a string writes, as Rust reads one: an optional sign (`-` only where `signed`),
/// then at least one decimal digit and nothing else; `None` when it is not one, or lies
/// outside `min..=max`.
pub open spec fn parsed_integer(s: Seq<char>, signed: bool, min: int, max: int) -> Option<int> {
    let neg = signed && s.len() > 0 && s[0] == '-';
    let d = digits_of(s, signed);
    if d.len() == 0 || !all_digits(d) {
        None
    } else {
        let v = if neg {
            -digits_value(d)
        } else {
            digits_value(d)
        };
        if min <= v <= max {
            Some(v)
        } else {
            None
        }
    }
}

proof fn lemma_digits_grow(d: Seq<char>)
    requires
        forall|i: int| 0 <= i < d.len() ==> digit_char(#[trigger] d[i]),
    ensures
        digits_value(d) >= 0,
        d.len() > 0 ==> digits_value(d) >= digits_value(d.drop_last()),
    decreases d.len(),
{
    if d.len() > 0 {
        lemma_digits_grow(d.drop_last());
        assert(digit_char(d[d.len() - 1]));
    }
}

/// Parse an integer within `min..=max`.
pub(crate) fn parse_integer(s: &str, signed: bool, min: i128, max: i128) -> (r: Option<i128>)
    requires
        -0x1_0000_0000_0000_0000 <= min <= max <= 0x1_0000_0000_0000_0000,
    ensures
        match parsed_integer(s@, signed, min as int, max as int) {
            Some(v) => r == Some(v as i128),
            None => r is None,
        },
{
    let n = s.unicode_len();
    let mut start: usize = 0;
    let mut neg = false;
    if n > 0 {
        let c0 = s.get_char(0);
        if signed && c0 == '-' {
            neg = true;
            start = 1;
        } else if c0 == '+' {
            start = 1;
        }
    }
    let ghost d = s@.subrange(start as int, n as int);
    assert(d == digits_of(s@, signed));
    if start == n {
        return None;
    }
    let mut acc: u128 = 0;
    let mut big = false;
    let mut i: usize = start;
    while i < n
        invariant
            n == s@.len(),
            start <= i <= n,
            d == s@.subrange(start as int, n as int),
            d == digits_of(s@, signed),
            neg == (signed && s@.len() > 0 && s@[0] == '-'),
            min <= max,
            -0x1_0000_0000_0000_0000 <= min <= max <= 0x1_0000_0000_0000_0000,
            forall|k: int| 0 <= k < i - start ==> digit_char(#[trigger] d[k]),
            !big ==> acc == digits_value(d.take(i - start)),
            big ==> digits_value(d.take(i - start)) > 0x1_0000_0000_0000_0000,
            acc <= 0x1_0000_0000_0000_0000,
        decreases n - i,
    {
        let c = s.get_char(i);
        if !('0' <= c && c <= '9') {
            proof {
                assert(d[i - start] == c);
                assert(!digit_char(d[i - start]));
                assert(!all_digits(d));
            }
            return None;
        }
        proof {
            assert(d.take(i - start + 1).drop_last() =~= d.take(i - start));
            assert(d[i - start] == c);
            lemma_digits_grow(d.take(i - start + 1));
        }
        if !big {
            let next = acc * 10 + (c as u128 - 48);
            if next > 0x1_0000_0000_0000_0000 {
                big = true;
            } else {
                acc = next;
            }
        }
        i = i + 1;
    }
    proof {
        assert(d.take(n - start) =~= d);
    }
    if big {
        return None;
    }
    let v: i128 = if neg {
        -(acc as i128)
    } else {
        acc as i128
    };
    if min <= v && v <= max {
        Some(v)
    } else {
        None
    }
}

/// A value's PLAIN bytes: its low `n` bytes, least significant first, with a negative value
/// taken modulo two to the bits of its width.
pub open spec fn plain_int_bytes(v: int, n: nat) -> Seq<u8> {
    let m = if n == 4 {
        0x1_0000_0000int
    } else {
        0x1_0000_0000_0000_0000int
    };
    crate::layout::le_bytes(
        (if v < 0 {
            v + m
        } else {
            v
        }) as nat,
        n,
    )
}

/// What a condition's literal is for a column compared with `c`: its PLAIN bytes, or why it is
/// not a value of the column.
pub open spec fn literal_of(c: Comparator, text: Seq<char>) -> Result<Seq<u8>, Seq<char>> {
    let bad = crate::text::debug_text(text) + " is not a value of this column"@;
    match c {
        Comparator::I32 => match parsed_integer(text, true, -0x8000_0000, 0x7fff_ffff) {
            Some(v) => Ok(plain_int_bytes(v, 4)),
            None => Err(bad),
        },
        Comparator::U32 => match parsed_integer(text, false, 0, 0xffff_ffff) {
            Some(v) => Ok(plain_int_bytes(v, 4)),
            None => Err(bad),
        },
        Comparator::I64 => match parsed_integer(
            text,
            true,
            -0x8000_0000_0000_0000,
            0x7fff_ffff_ffff_ffff,
        ) {
            Some(v) => Ok(plain_int_bytes(v, 8)),
            None => Err(bad),
        },
        Comparator::U64 => match parsed_integer(text, false, 0, 0xffff_ffff_ffff_ffff) {
            Some(v) => Ok(plain_int_bytes(v, 8)),
            None => Err(bad),
        },
        Comparator::Bytes => Ok(vstd::utf8::encode_utf8(stripped(text, quote()))),
        _ => Err("this reader parses values only for integer, float and string columns"@),
    }
}

/// Whether a comparator reads floating-point values, which this library leaves to its caller.
pub open spec fn is_float(c: Comparator) -> bool {
    c == Comparator::F32 || c == Comparator::F64
}

fn int_literal(text: &str, signed: bool, min: i128, max: i128, width: usize) -> (r: Option<Vec<u8>>)
    requires
        -0x1_0000_0000_0000_0000 <= min <= max <= 0x1_0000_0000_0000_0000,
        width == 4 || width == 8,
        width == 4 ==> -0x8000_0000 <= min && max <= 0xffff_ffff,
        width == 8 ==> -0x8000_0000_0000_0000 <= min && max <= 0xffff_ffff_ffff_ffff,
    ensures
        match parsed_integer(text@, signed, min as int, max as int) {
            Some(v) => r matches Some(b) && b@ == plain_int_bytes(v, width as nat),
            None => r is None,
        },
{
    match parse_integer(text, signed, min, max) {
        Some(v) => {
            let m: i128 = if width == 4 {
                0x1_0000_0000
            } else {
                0x1_0000_0000_0000_0000
            };
            let u: u64 = if v < 0 {
                (v + m) as u64
            } else {
                v as u64
            };
            let mut out: Vec<u8> = Vec::new();
            crate::layout::push_le(&mut out, u, width);
            assert(out@ =~= plain_int_bytes(v as int, width as nat));
            Some(out)
        },
        None => None,
    }
}

/// A literal as PLAIN bytes for a column compared with `c`.
fn literal(c: Comparator, text: &str) -> (r: Result<Vec<u8>, String>)
    requires
        !is_float(c),
    ensures
        match literal_of(c, text@) {
            Ok(b) => r matches Ok(v) && v@ == b,
            Err(m) => r matches Err(e) && e@ == m,
        },
{
    let parsed = match c {
        Comparator::I32 => int_literal(text, true, -0x8000_0000, 0x7fff_ffff, 4),
        Comparator::U32 => int_literal(text, false, 0, 0xffff_ffff, 4),
        Comparator::I64 => int_literal(text, true, -0x8000_0000_0000_0000, 0x7fff_ffff_ffff_ffff, 8),
        Comparator::U64 => int_literal(text, false, 0, 0xffff_ffff_ffff_ffff, 8),
        Comparator::Bytes => {
            let inner = strip_text(text, true);
            return Ok(vstd::slice::slice_to_vec(inner.as_bytes()));
        },
        _ => {
            return Err("this reader parses values only for integer, float and string columns".to_owned());
        },
    };
    match parsed {
        Some(b) => Ok(b),
        None => {
            let mut m = crate::text::debug_quoted(text);
            m.append(" is not a value of this column");
            Err(m)
        },
    }
}

/// What a condition on a leaf is: its column, operator, comparator, and the value's PLAIN bytes
/// (none for the null tests), or why the value is not one of the column's.
pub open spec fn predicate_of(
    leaf: Leaf,
    converted: Option<Seq<char>>,
    op: Op,
    text: Seq<char>,
) -> Result<(usize, Op, Option<Seq<u8>>, Comparator), Seq<char>> {
    let c = comparator_for(leaf.physical_type.0, leaf.logical_type, converted);
    if op == Op::IsNull || op == Op::IsNotNull {
        Ok((leaf.column, op, None, c))
    } else {
        match literal_of(c, stripped(text, white())) {
            Ok(b) => Ok((leaf.column, op, Some(b), c)),
            Err(m) => Err(m),
        }
    }
}

pub open spec fn opt_vec_view(o: Option<Vec<u8>>) -> Option<Seq<u8>> {
    match o {
        Some(v) => Some(v@),
        None => None,
    }
}

impl Predicate {
    /// Parse a condition's value for `leaf`: integers and strings. Floating-point columns are
    /// left to the caller, which can parse a float.
    pub fn new(leaf: &Leaf, converted: Option<&str>, op: Op, text: &str) -> (r: Result<
        Predicate,
        String,
    >)
        requires
            !is_float(comparator_for(leaf.physical_type.0, leaf.logical_type, opt_str_view(converted))),
        ensures
            match predicate_of(*leaf, opt_str_view(converted), op, text@) {
                Ok((column, o, value, c)) => r matches Ok(p) && p.column == column && p.op == o
                    && opt_vec_view(p.value) == value && p.comparator == c,
                Err(m) => r matches Err(e) && e@ == m,
            },
    {
        let comparator = Comparator::for_leaf(leaf, converted);
        let value = match op {
            Op::IsNull | Op::IsNotNull => None,
            _ => match literal(comparator, strip_text(text, false)) {
                Ok(v) => Some(v),
                Err(e) => {
                    return Err(e);
                },
            },
        };
        Ok(Predicate { column: leaf.column, op, value, comparator })
    }
}


/// How many of a column's values are null.
pub open spec fn nulls_in(rows: Seq<Option<Seq<u8>>>) -> int
    decreases rows.len(),
{
    if rows.len() == 0 {
        0
    } else {
        nulls_in(rows.drop_last()) + if rows.last() is None {
            1int
        } else {
            0int
        }
    }
}

/// Whether a minimum and maximum, a null count and a value count are true of a column's values:
/// every value that is not null lies between the bounds in the column's order, and each count,
/// where it is given, is right.
pub open spec fn describes(
    c: Comparator,
    rows: Seq<Option<Seq<u8>>>,
    bounds: Option<(Seq<u8>, Seq<u8>)>,
    null_count: Option<i64>,
    num_values: i64,
) -> bool {
    &&& num_values == rows.len()
    &&& null_count matches Some(n) ==> n == nulls_in(rows)
    &&& bounds matches Some((lo, hi)) ==> forall|i: int|
        0 <= i < rows.len() && #[trigger] rows[i] is Some ==> at_most(c, lo, rows[i]->0) && at_most(
            c,
            rows[i]->0,
            hi,
        )
}

proof fn lemma_nulls_in(rows: Seq<Option<Seq<u8>>>)
    ensures
        0 <= nulls_in(rows) <= rows.len(),
        nulls_in(rows) == 0 ==> forall|i: int| 0 <= i < rows.len() ==> #[trigger] rows[i] is Some,
        nulls_in(rows) == rows.len() ==> forall|i: int|
            0 <= i < rows.len() ==> #[trigger] rows[i] is None,
    decreases rows.len(),
{
    if rows.len() > 0 {
        let rest = rows.drop_last();
        lemma_nulls_in(rest);
        if nulls_in(rows) == 0 {
            assert forall|i: int| 0 <= i < rows.len() implies #[trigger] rows[i] is Some by {
                if i < rows.len() - 1 {
                    assert(rows[i] == rest[i]);
                }
            }
        }
        if nulls_in(rows) == rows.len() {
            assert forall|i: int| 0 <= i < rows.len() implies #[trigger] rows[i] is None by {
                if i < rows.len() - 1 {
                    assert(rows[i] == rest[i]);
                }
            }
        }
    }
}

/// A value between the bounds satisfies no comparison that the bounds rule out.
proof fn lemma_ruled_out(p: Predicate, lo: Seq<u8>, hi: Seq<u8>, v: Seq<u8>)
    requires
        column_comparator(p.comparator),
        p.op != Op::IsNull,
        p.op != Op::IsNotNull,
        p.value is Some,
        at_most(p.comparator, lo, v),
        at_most(p.comparator, v, hi),
        bounds_decision(p, Some((lo, hi)), None, 0).0,
    ensures
        !row_holds(p, Some(v)),
{
    let c = p.comparator;
    let x = p.value->0@;
    lemma_value_order(c, x, lo, v);
    lemma_value_order(c, x, hi, v);
    lemma_value_order(c, v, hi, x);
    lemma_value_order(c, lo, v, x);
    lemma_value_order(c, v, x, lo);
    lemma_value_order(c, x, v, hi);
    lemma_value_order(c, hi, x, v);
    lemma_value_order(c, lo, x, v);
}

/// Skipping is safe: when the statistics are true of a column's values, and the decision from
/// them is to skip, no value of the column satisfies the condition.
pub proof fn lemma_skip_is_sound(
    p: Predicate,
    rows: Seq<Option<Seq<u8>>>,
    bounds: Option<(Seq<u8>, Seq<u8>)>,
    null_count: Option<i64>,
    num_values: i64,
)
    requires
        column_comparator(p.comparator),
        describes(p.comparator, rows, bounds, null_count, num_values),
        bounds_decision(p, bounds, null_count, num_values).0,
    ensures
        forall|i: int| 0 <= i < rows.len() ==> !row_holds(p, #[trigger] rows[i]),
{
    lemma_nulls_in(rows);
    assert forall|i: int| 0 <= i < rows.len() implies !row_holds(p, #[trigger] rows[i]) by {
        let all_null = null_count == Some(num_values) && num_values > 0;
        if p.op != Op::IsNull && p.op != Op::IsNotNull && !all_null && rows[i] is Some {
            let (lo, hi) = bounds->0;
            lemma_ruled_out(p, lo, hi, rows[i]->0);
        }
    }
}

/// A column of `len` rows whose first `nulls` are null and whose others all hold `v`.
pub open spec fn padded(nulls: int, len: nat, v: Seq<u8>) -> Seq<Option<Seq<u8>>> {
    Seq::new(len, |j: int| if j < nulls { None } else { Some(v) })
}

proof fn lemma_padded_nulls(nulls: int, len: nat, v: Seq<u8>)
    requires
        0 <= nulls,
    ensures
        nulls_in(padded(nulls, len, v)) == if len <= nulls { len as int } else { nulls },
    decreases len,
{
    if len > 0 {
        assert(padded(nulls, len, v).drop_last() =~= padded(nulls, (len - 1) as nat, v));
        lemma_padded_nulls(nulls, (len - 1) as nat, v);
    }
}

/// A column that statistics with these counts could describe: as many leading nulls as the null
/// count says (none where it is not given), then `v` in every other row.
pub open spec fn column_with(null_count: Option<i64>, num_values: i64, v: Seq<u8>) -> Seq<
    Option<Seq<u8>>,
> {
    let nulls: int = match null_count {
        Some(n) => n as int,
        None => 0,
    };
    padded(nulls, num_values as nat, v)
}

proof fn lemma_column_with(null_count: Option<i64>, num_values: i64, v: Seq<u8>)
    requires
        num_values > 0,
        null_count matches Some(n) ==> 0 <= n < num_values,
    ensures
        column_with(null_count, num_values, v).len() == num_values,
        null_count matches Some(n) ==> n == nulls_in(column_with(null_count, num_values, v)),
        column_with(null_count, num_values, v)[num_values - 1] == Some(v),
        forall|i: int|
            0 <= i < num_values && #[trigger] column_with(null_count, num_values, v)[i] is Some
                ==> column_with(null_count, num_values, v)[i] == Some(v),
{
    let nulls: int = match null_count {
        Some(n) => n as int,
        None => 0,
    };
    lemma_padded_nulls(nulls, num_values as nat, v);
}

/// A comparable value equals itself in its column's order.
proof fn lemma_order_reflexive(c: Comparator, a: Seq<u8>, b: Seq<u8>)
    requires
        column_comparator(c),
        value_order(c, a, b) is Some,
    ensures
        value_order(c, a, a) == Some(Ordering::Equal),
        value_order(c, b, b) == Some(Ordering::Equal),
{
    lemma_value_order(c, a, b, a);
    lemma_value_order(c, b, a, b);
    lemma_value_order(c, a, a, a);
    lemma_value_order(c, b, b, b);
}

/// Skipping by bounds is complete: when a comparison is not ruled out, though its value can be
/// placed against both bounds, some column that the statistics describe (the minimum no greater
/// than the maximum, the counts possible with a value that is not null) has a row that satisfies
/// it. So a read is only ever decided where a match cannot be excluded.
pub proof fn lemma_read_is_needed(
    p: Predicate,
    min: Seq<u8>,
    max: Seq<u8>,
    null_count: Option<i64>,
    num_values: i64,
)
    requires
        column_comparator(p.comparator),
        p.op != Op::IsNull,
        p.op != Op::IsNotNull,
        p.value is Some,
        value_order(p.comparator, p.value.unwrap()@, min) is Some,
        value_order(p.comparator, p.value.unwrap()@, max) is Some,
        at_most(p.comparator, min, max),
        num_values > 0,
        null_count matches Some(n) ==> 0 <= n < num_values,
        !bounds_decision(p, Some((min, max)), null_count, num_values).0,
    ensures
        exists|rows: Seq<Option<Seq<u8>>>|
            describes(p.comparator, rows, Some((min, max)), null_count, num_values) && exists|i: int|
                0 <= i < rows.len() && row_holds(p, #[trigger] rows[i]),
{
    let c = p.comparator;
    let x = p.value.unwrap()@;
    let vs_min = value_order(c, x, min)->0;
    let vs_max = value_order(c, x, max)->0;
    lemma_value_order(c, x, min, max);
    lemma_value_order(c, x, max, min);
    lemma_value_order(c, min, max, x);
    lemma_order_reflexive(c, x, min);
    lemma_order_reflexive(c, x, max);
    let w = if p.op == Op::Eq {
        x
    } else if p.op == Op::NotEq {
        if vs_min != Ordering::Equal {
            min
        } else {
            max
        }
    } else if p.op == Op::Lt || p.op == Op::LtEq {
        min
    } else {
        max
    };
    assert(at_most(c, min, w) && at_most(c, w, max));
    assert(op_holds(p.op, value_order(c, w, x)));
    let rows = column_with(null_count, num_values, w);
    lemma_column_with(null_count, num_values, w);
    assert forall|i: int| 0 <= i < rows.len() && #[trigger] rows[i] is Some implies at_most(
        c,
        min,
        rows[i]->0,
    ) && at_most(c, rows[i]->0, max) by {}
    assert(describes(c, rows, Some((min, max)), null_count, num_values));
    let last = num_values - 1;
    assert(rows[last] == Some(w));
    assert(row_holds(p, rows[last]));
}

} // verus!
