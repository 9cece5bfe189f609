//! A changing table: snapshots of data files and delete files, lookups that open only the
//! files that could hold a key, and compaction that rewrites deleted and small files.

use vstd::prelude::*;

use crate::json::{
    as_i64_of, int_of, json_of, json_view, jsons_view, lemma_items_view, list_of, parse_json,
    text_of, Json, JsonV,
};
use crate::object_store::{request_cost, NetworkModel};
use vstd::utf8::{encode_utf8, encode_utf8_decode_utf8};
use crate::metadata::strings_view;
use crate::text::{
    push_i64, signed_dec, sort_texts, str_eq, text_order, texts_view,
};

verus! {

/// A data file of a snapshot, with the range of keys it holds.
#[derive(Clone, Debug, PartialEq)]
pub struct DataFile {
    pub path: String,
    pub record_count: i64,
    pub file_size: u64,
    pub min_key: i64,
    pub max_key: i64,
}

/// A file of position deletes, and the data file whose rows it deletes.
#[derive(Clone, Debug, PartialEq)]
pub struct DeleteFile {
    pub path: String,
    pub record_count: i64,
    pub file_size: u64,
    pub data_file: String,
}

/// The table as one commit left it.
#[derive(Clone, Debug, PartialEq)]
pub struct Snapshot {
    pub id: String,
    pub summary: String,
    pub data_files: Vec<DataFile>,
    pub delete_files: Vec<DeleteFile>,
}

/// One rewrite of a compaction: the files it reads and the rows it keeps.
#[derive(Clone, Debug, PartialEq)]
pub struct Group {
    pub data_files: Vec<String>,
    pub delete_files: Vec<String>,
    pub rows_in: i64,
    pub rows_out: i64,
    pub bytes_in: u64,
}

/// What a compaction cost: the files it wrote, and the bytes moved.
#[derive(Clone, Debug, PartialEq)]
pub struct CompactionCost {
    pub outputs: Vec<(String, u64)>,
    pub bytes_read: u64,
    pub bytes_written: u64,
    pub elapsed_us: u64,
}

/// The delete files, in order, that name `data_file`.
pub open spec fn deletes_of(ds: Seq<DeleteFile>, data_file: Seq<char>) -> Seq<DeleteFile>
    decreases ds.len(),
{
    if ds.len() == 0 {
        Seq::empty()
    } else if ds.last().data_file@ == data_file {
        deletes_of(ds.drop_last(), data_file).push(ds.last())
    } else {
        deletes_of(ds.drop_last(), data_file)
    }
}

/// The total of the record counts of some delete files.
pub open spec fn deleted_rows(ds: Seq<DeleteFile>) -> int
    decreases ds.len(),
{
    if ds.len() == 0 {
        0
    } else {
        deleted_rows(ds.drop_last()) + ds.last().record_count
    }
}

/// The rows of a data file that no delete file of the snapshot deletes.
pub open spec fn live_rows_of(s: Snapshot, f: DataFile) -> int {
    f.record_count - deleted_rows(deletes_of(s.delete_files@, f.path@))
}

/// A data file that no delete file names has all its rows live.
pub proof fn lemma_live_rows_undeleted(s: Snapshot, f: DataFile)
    requires
        forall|i: int|
            0 <= i < s.delete_files@.len() ==> #[trigger] s.delete_files@[i].data_file@ != f.path@,
    ensures
        live_rows_of(s, f) == f.record_count,
{
    lemma_deletes_of_none(s.delete_files@, f.path@);
}

proof fn lemma_deletes_of_none(ds: Seq<DeleteFile>, p: Seq<char>)
    requires
        forall|i: int| 0 <= i < ds.len() ==> #[trigger] ds[i].data_file@ != p,
    ensures
        deletes_of(ds, p) == Seq::<DeleteFile>::empty(),
    decreases ds.len(),
{
    if ds.len() > 0 {
        assert(ds.last() == ds[ds.len() - 1]);
        lemma_deletes_of_none(ds.drop_last(), p);
    }
}

/// A new delete file lowers the live rows of the data file it names by its record count, and
/// leaves every other data file's live rows as they were.
pub proof fn lemma_delete_lowers_live_rows(s: Snapshot, t: Snapshot, d: DeleteFile, f: DataFile)
    requires
        t.delete_files@ == s.delete_files@.push(d),
    ensures
        d.data_file@ == f.path@ ==> live_rows_of(t, f) == live_rows_of(s, f) - d.record_count,
        d.data_file@ != f.path@ ==> live_rows_of(t, f) == live_rows_of(s, f),
{
    let ds = s.delete_files@;
    assert(ds.push(d).drop_last() =~= ds);
    assert(ds.push(d).last() == d);
    if d.data_file@ == f.path@ {
        let kept = deletes_of(ds, f.path@);
        assert(deletes_of(ds.push(d), f.path@) == kept.push(d));
        assert(kept.push(d).drop_last() =~= kept);
    }
}

/// The data files, in order, whose key range holds `key`.
pub open spec fn data_for_key(fs: Seq<DataFile>, key: i64) -> Seq<DataFile>
    decreases fs.len(),
{
    if fs.len() == 0 {
        Seq::empty()
    } else if fs.last().min_key <= key <= fs.last().max_key {
        data_for_key(fs.drop_last(), key).push(fs.last())
    } else {
        data_for_key(fs.drop_last(), key)
    }
}

/// The delete files, in order, that name one of `data`.
pub open spec fn deletes_naming(ds: Seq<DeleteFile>, data: Seq<DataFile>) -> Seq<DeleteFile>
    decreases ds.len(),
{
    if ds.len() == 0 {
        Seq::empty()
    } else if exists|i: int| 0 <= i < data.len() && #[trigger] data[i].path@ == ds.last().data_file@ {
        deletes_naming(ds.drop_last(), data).push(ds.last())
    } else {
        deletes_naming(ds.drop_last(), data)
    }
}

/// The values behind a list of references.
pub open spec fn derefs<T>(s: Seq<&T>) -> Seq<T> {
    s.map_values(|x: &T| *x)
}

impl Snapshot {
    /// The delete files that name `data_file`.
    pub fn deletes_for(&self, data_file: &str) -> (r: Vec<&DeleteFile>)
        ensures
            derefs(r@) == deletes_of(self.delete_files@, data_file@),
    {
        let mut out: Vec<&DeleteFile> = Vec::new();
        let mut i: usize = 0;
        while i < self.delete_files.len()
            invariant
                i <= self.delete_files@.len(),
                derefs(out@) == deletes_of(self.delete_files@.take(i as int), data_file@),
            decreases self.delete_files@.len() - i,
        {
            let d = &self.delete_files[i];
            proof {
                assert(self.delete_files@.take(i + 1).drop_last() =~= self.delete_files@.take(
                    i as int,
                ));
            }
            if str_eq(d.data_file.as_str(), data_file) {
                out.push(d);
                assert(derefs(out@) =~= deletes_of(self.delete_files@.take(i + 1), data_file@));
            }
            i = i + 1;
        }
        assert(self.delete_files@.take(self.delete_files@.len() as int) =~= self.delete_files@);
        out
    }

    /// The rows of `f` that no delete file removes.
    pub fn live_rows(&self, f: &DataFile) -> (n: i64)
        requires
            i64::MIN <= live_rows_of(*self, *f) <= i64::MAX,
        ensures
            n == live_rows_of(*self, *f),
    {
        let ds = self.deletes_for(f.path.as_str());
        let n = ds.len();
        let mut total: i128 = 0;
        let mut i: usize = 0;
        while i < n
            invariant
                n == ds@.len(),
                i <= ds@.len() <= u64::MAX,
                total == deleted_rows(derefs(ds@).take(i as int)),
                -(i * 0x8000_0000_0000_0000) <= total <= i * 0x8000_0000_0000_0000,
            decreases ds@.len() - i,
        {
            proof {
                assert(derefs(ds@).take(i + 1).drop_last() =~= derefs(ds@).take(i as int));
                assert((i + 1) * 0x8000_0000_0000_0000 <= 0x1_0000_0000_0000_0000 * 0x8000_0000_0000_0000)
                    by (nonlinear_arith)
                    requires
                        i < 0x1_0000_0000_0000_0000,
                ;
                assert((i + 1) * 0x8000_0000_0000_0000 == i * 0x8000_0000_0000_0000 + 0x8000_0000_0000_0000)
                    by (nonlinear_arith);
            }
            total = total + ds[i].record_count as i128;
            i = i + 1;
        }
        assert(derefs(ds@).take(ds@.len() as int) =~= derefs(ds@));
        (f.record_count as i128 - total) as i64
    }
}

/// There are no more delete files for a data file than delete files.
proof fn lemma_deletes_of_len(ds: Seq<DeleteFile>, p: Seq<char>)
    ensures
        deletes_of(ds, p).len() <= ds.len(),
    decreases ds.len(),
{
    if ds.len() > 0 {
        lemma_deletes_of_len(ds.drop_last(), p);
    }
}

/// The files a lookup of `key` must open: the data files whose key range holds it, and the
/// delete files that name one of those.
pub fn files_to_open(snapshot: &Snapshot, key: i64) -> (r: (Vec<&DataFile>, Vec<&DeleteFile>))
    ensures
        derefs(r.0@) == data_for_key(snapshot.data_files@, key),
        derefs(r.1@) == deletes_naming(snapshot.delete_files@, derefs(r.0@)),
{
    let mut data: Vec<&DataFile> = Vec::new();
    let mut i: usize = 0;
    while i < snapshot.data_files.len()
        invariant
            i <= snapshot.data_files@.len(),
            derefs(data@) == data_for_key(snapshot.data_files@.take(i as int), key),
        decreases snapshot.data_files@.len() - i,
    {
        let f = &snapshot.data_files[i];
        proof {
            assert(snapshot.data_files@.take(i + 1).drop_last() =~= snapshot.data_files@.take(
                i as int,
            ));
        }
        if f.min_key <= key && key <= f.max_key {
            data.push(f);
            assert(derefs(data@) =~= data_for_key(snapshot.data_files@.take(i + 1), key));
        }
        i = i + 1;
    }
    assert(snapshot.data_files@.take(snapshot.data_files@.len() as int) =~= snapshot.data_files@);
    let mut deletes: Vec<&DeleteFile> = Vec::new();
    let mut j: usize = 0;
    while j < snapshot.delete_files.len()
        invariant
            j <= snapshot.delete_files@.len(),
            derefs(deletes@) == deletes_naming(
                snapshot.delete_files@.take(j as int),
                derefs(data@),
            ),
        decreases snapshot.delete_files@.len() - j,
    {
        let d = &snapshot.delete_files[j];
        proof {
            assert(snapshot.delete_files@.take(j + 1).drop_last() =~= snapshot.delete_files@.take(
                j as int,
            ));
        }
        let mut found = false;
        let mut k: usize = 0;
        while k < data.len()
            invariant
                k <= data@.len(),
                found == exists|t: int| 0 <= t < k && #[trigger] derefs(data@)[t].path@
                    == d.data_file@,
            decreases data@.len() - k,
        {
            let ghost before = found;
            if str_eq(data[k].path.as_str(), d.data_file.as_str()) {
                found = true;
                assert(derefs(data@)[k as int].path@ == d.data_file@);
            }
            proof {
                assert forall|t: int| 0 <= t < k + 1 && #[trigger] derefs(data@)[t].path@ == d.data_file@ implies found by {
                    if t < k {
                        assert(before);
                    }
                }
            }
            k = k + 1;
        }
        if found {
            deletes.push(d);
            assert(derefs(deletes@) =~= deletes_naming(
                snapshot.delete_files@.take(j + 1),
                derefs(data@),
            ));
        } else {
            assert(derefs(deletes@) =~= deletes_naming(
                snapshot.delete_files@.take(j + 1),
                derefs(data@),
            ));
        }
        j = j + 1;
    }
    assert(snapshot.delete_files@.take(snapshot.delete_files@.len() as int)
        =~= snapshot.delete_files@);
    (data, deletes)
}

// Compaction.

/// A data file is rewritten if delete files name it, or if it holds fewer than `small` live rows.
pub open spec fn is_candidate(s: Snapshot, f: DataFile, small: i64) -> bool {
    deletes_of(s.delete_files@, f.path@).len() > 0 || live_rows_of(s, f) < small
}

/// The data files to rewrite, in the snapshot's order.
pub open spec fn candidates(s: Snapshot, fs: Seq<DataFile>, small: i64) -> Seq<DataFile>
    decreases fs.len(),
{
    if fs.len() == 0 {
        Seq::empty()
    } else if is_candidate(s, fs.last(), small) {
        candidates(s, fs.drop_last(), small).push(fs.last())
    } else {
        candidates(s, fs.drop_last(), small)
    }
}

/// `x` placed into `fs` after every file whose smallest key is not above its own.
pub open spec fn insert_by_key(fs: Seq<DataFile>, x: DataFile) -> Seq<DataFile>
    decreases fs.len(),
{
    if fs.len() == 0 || fs.last().min_key <= x.min_key {
        fs.push(x)
    } else {
        insert_by_key(fs.drop_last(), x).push(fs.last())
    }
}

/// The files in order of their smallest key; files with equal keys keep their order (a stable
/// sort, as insertion gives it).
pub open spec fn by_min_key(fs: Seq<DataFile>) -> Seq<DataFile>
    decreases fs.len(),
{
    if fs.len() == 0 {
        Seq::empty()
    } else {
        insert_by_key(by_min_key(fs.drop_last()), fs.last())
    }
}

/// Files packed into groups in order: a file joins the current group while the group's live
/// rows stay within `target`, and starts a new group otherwise. Also the live rows of the last
/// group.
pub open spec fn packed(s: Snapshot, fs: Seq<DataFile>, target: i64) -> (Seq<Seq<DataFile>>, int)
    decreases fs.len(),
{
    if fs.len() == 0 {
        (Seq::empty(), 0)
    } else {
        let (gs, rows) = packed(s, fs.drop_last(), target);
        let f = fs.last();
        let live = live_rows_of(s, f);
        if gs.len() > 0 && rows + live <= target {
            (gs.update(gs.len() - 1, gs.last().push(f)), rows + live)
        } else {
            (gs.push(seq![f]), live)
        }
    }
}

/// A group is worth rewriting unless it is one file with no deletes, which would come out
/// unchanged.
pub open spec fn worth_rewriting(s: Snapshot, g: Seq<DataFile>) -> bool {
    g.len() > 1 || (g.len() == 1 && deletes_of(s.delete_files@, g[0].path@).len() > 0)
}

pub open spec fn kept_groups(s: Snapshot, gs: Seq<Seq<DataFile>>) -> Seq<Seq<DataFile>>
    decreases gs.len(),
{
    if gs.len() == 0 {
        Seq::empty()
    } else if worth_rewriting(s, gs.last()) {
        kept_groups(s, gs.drop_last()).push(gs.last())
    } else {
        kept_groups(s, gs.drop_last())
    }
}

/// The groups a compaction rewrites.
pub open spec fn compaction_plan(s: Snapshot, target: i64, small: i64) -> Seq<Seq<DataFile>> {
    kept_groups(s, packed(s, by_min_key(candidates(s, s.data_files@, small)), target).0)
}

/// The delete files of a group's data files, file by file.
pub open spec fn group_deletes(s: Snapshot, g: Seq<DataFile>) -> Seq<DeleteFile>
    decreases g.len(),
{
    if g.len() == 0 {
        Seq::empty()
    } else {
        group_deletes(s, g.drop_last()) + deletes_of(s.delete_files@, g.last().path@)
    }
}

pub open spec fn data_paths(g: Seq<DataFile>) -> Seq<Seq<char>> {
    Seq::new(g.len(), |i: int| g[i].path@)
}

pub open spec fn delete_paths(ds: Seq<DeleteFile>) -> Seq<Seq<char>> {
    Seq::new(ds.len(), |i: int| ds[i].path@)
}

pub open spec fn records_in(g: Seq<DataFile>) -> int
    decreases g.len(),
{
    if g.len() == 0 {
        0
    } else {
        records_in(g.drop_last()) + g.last().record_count
    }
}

pub open spec fn live_in(s: Snapshot, g: Seq<DataFile>) -> int
    decreases g.len(),
{
    if g.len() == 0 {
        0
    } else {
        live_in(s, g.drop_last()) + live_rows_of(s, g.last())
    }
}

pub open spec fn data_bytes(g: Seq<DataFile>) -> int
    decreases g.len(),
{
    if g.len() == 0 {
        0
    } else {
        data_bytes(g.drop_last()) + g.last().file_size
    }
}

pub open spec fn delete_bytes(ds: Seq<DeleteFile>) -> int
    decreases ds.len(),
{
    if ds.len() == 0 {
        0
    } else {
        delete_bytes(ds.drop_last()) + ds.last().file_size
    }
}

/// `group` describes the rewrite of the data files `g`.
pub open spec fn group_is(group: Group, s: Snapshot, g: Seq<DataFile>) -> bool {
    &&& strings_view(group.data_files@) == data_paths(g)
    &&& strings_view(group.delete_files@) == delete_paths(group_deletes(s, g))
    &&& group.rows_in == records_in(g)
    &&& group.rows_out == live_in(s, g)
    &&& group.bytes_in == data_bytes(g) + delete_bytes(group_deletes(s, g))
}

/// Whether some data file has path `p`.
pub open spec fn has_path(fs: Seq<DataFile>, p: Seq<char>) -> bool {
    exists|i: int| 0 <= i < fs.len() && #[trigger] fs[i].path@ == p
}

/// The paths, in order, of the files of `before` that `after` no longer has.
pub open spec fn dropped_paths(before: Seq<DataFile>, after: Seq<DataFile>) -> Seq<Seq<char>>
    decreases before.len(),
{
    if before.len() == 0 {
        Seq::empty()
    } else if has_path(after, before.last().path@) {
        dropped_paths(before.drop_last(), after)
    } else {
        dropped_paths(before.drop_last(), after).push(before.last().path@)
    }
}

/// The data files a plan rewrites, group after group.
pub open spec fn planned_paths(plan: Seq<Group>) -> Seq<Seq<char>>
    decreases plan.len(),
{
    if plan.len() == 0 {
        Seq::empty()
    } else {
        planned_paths(plan.drop_last()) + texts_view(plan.last().data_files@)
    }
}

/// The files of `after`, in order, whose path `before` does not have: what a commit wrote.
pub open spec fn new_files(before: Seq<DataFile>, after: Seq<DataFile>) -> Seq<DataFile>
    decreases after.len(),
{
    if after.len() == 0 {
        Seq::empty()
    } else if has_path(before, after.last().path@) {
        new_files(before, after.drop_last())
    } else {
        new_files(before, after.drop_last()).push(after.last())
    }
}

/// Texts separated by ", ".
pub open spec fn joined(xs: Seq<Seq<char>>) -> Seq<char>
    decreases xs.len(),
{
    if xs.len() == 0 {
        Seq::empty()
    } else if xs.len() == 1 {
        xs[0]
    } else {
        joined(xs.drop_last()) + ", "@ + xs.last()
    }
}

/// The size of the first data file with path `p`, or nothing where there is none.
pub open spec fn data_size(fs: Seq<DataFile>, p: Seq<char>) -> u64
    decreases fs.len(),
{
    if fs.len() == 0 {
        0
    } else if fs[0].path@ == p {
        fs[0].file_size
    } else {
        data_size(fs.drop_first(), p)
    }
}

/// The size of the first delete file with path `p`, or nothing where there is none.
pub open spec fn delete_size(ds: Seq<DeleteFile>, p: Seq<char>) -> u64
    decreases ds.len(),
{
    if ds.len() == 0 {
        0
    } else if ds[0].path@ == p {
        ds[0].file_size
    } else {
        delete_size(ds.drop_first(), p)
    }
}

/// The sizes of a group's data files, as `before` records them.
pub open spec fn data_reads(before: Snapshot, g: Group) -> Seq<u64> {
    texts_view(g.data_files@).map_values(|p: Seq<char>| data_size(before.data_files@, p))
}

/// The sizes of a group's delete files, as `before` records them.
pub open spec fn delete_reads(before: Snapshot, g: Group) -> Seq<u64> {
    texts_view(g.delete_files@).map_values(|p: Seq<char>| delete_size(before.delete_files@, p))
}

/// The bytes a plan reads, one read per file: each group's data files, then its delete files.
pub open spec fn plan_reads(before: Snapshot, plan: Seq<Group>) -> Seq<u64>
    decreases plan.len(),
{
    if plan.len() == 0 {
        Seq::empty()
    } else {
        plan_reads(before, plan.drop_last()) + data_reads(before, plan.last()) + delete_reads(
            before,
            plan.last(),
        )
    }
}

/// The total of some integers.
pub open spec fn total(xs: Seq<int>) -> int
    decreases xs.len(),
{
    if xs.len() == 0 {
        0
    } else {
        total(xs.drop_last()) + xs.last()
    }
}

/// Whether every running total of some integers, from the first on, fits in an `i64`.
pub open spec fn running_totals_fit(xs: Seq<int>) -> bool {
    forall|k: int| 0 <= k <= xs.len() ==> i64::MIN <= #[trigger] total(xs.take(k)) <= i64::MAX
}

pub open spec fn sizes(xs: Seq<u64>) -> Seq<int> {
    xs.map_values(|x: u64| x as int)
}

pub open spec fn costs(m: NetworkModel, xs: Seq<u64>) -> Seq<int> {
    xs.map_values(|x: u64| request_cost(m, x as nat) as int)
}

pub open spec fn counts(fs: Seq<DataFile>) -> Seq<int> {
    fs.map_values(|f: DataFile| f.record_count as int)
}

pub open spec fn plan_rows_out(plan: Seq<Group>) -> Seq<int> {
    plan.map_values(|g: Group| g.rows_out as int)
}

/// Whether the totals a compaction's cost adds up fit the integers that hold them, as far as
/// the check of the commit against the plan gets.
pub open spec fn cost_fits(before: Snapshot, after: Snapshot, plan: Seq<Group>, m: NetworkModel) -> bool {
    let d = dropped_paths(before.data_files@, after.data_files@).sort_by(text_order());
    let p = planned_paths(plan).sort_by(text_order());
    let news = new_files(before.data_files@, after.data_files@);
    let reads = plan_reads(before, plan);
    let written = news.map_values(|f: DataFile| f.file_size);
    d == p ==> {
        &&& running_totals_fit(counts(news))
        &&& running_totals_fit(plan_rows_out(plan))
        &&& total(counts(news)) == total(plan_rows_out(plan)) ==> {
            &&& total(sizes(reads)) <= u64::MAX
            &&& total(sizes(written)) <= u64::MAX
            &&& total(costs(m, reads)) + total(costs(m, written)) <= u64::MAX
        }
    }
}

/// What a compaction cost, or why the commit does not carry out the plan: the files a commit
/// dropped must be the ones the plan rewrites, and the rows it wrote the rows the plan keeps.
pub open spec fn compaction_outcome(before: Snapshot, after: Snapshot, plan: Seq<Group>, m: NetworkModel) -> Result<
    (Seq<(Seq<char>, u64)>, int, int, int),
    Seq<char>,
> {
    let d = dropped_paths(before.data_files@, after.data_files@).sort_by(text_order());
    let p = planned_paths(plan).sort_by(text_order());
    let news = new_files(before.data_files@, after.data_files@);
    let reads = plan_reads(before, plan);
    let written = news.map_values(|f: DataFile| f.file_size);
    if d != p {
        Err(
            "snapshot "@ + after.id@ + " replaced "@ + joined(d) + ", but the plan rewrites "@
                + joined(p),
        )
    } else if total(counts(news)) != total(plan_rows_out(plan)) {
        Err(
            "the plan keeps "@ + signed_dec(total(plan_rows_out(plan))) + " rows, but snapshot "@
                + after.id@ + " wrote "@ + signed_dec(total(counts(news))),
        )
    } else {
        Ok(
            (
                news.map_values(|f: DataFile| (f.path@, f.file_size)),
                total(sizes(reads)),
                total(sizes(written)),
                total(costs(m, reads)) + total(costs(m, written)),
            ),
        )
    }
}

/// Whether a group's totals fit the integers that hold them.
pub open spec fn group_fits(s: Snapshot, g: Seq<DataFile>) -> bool {
    &&& i64::MIN <= records_in(g) <= i64::MAX
    &&& i64::MIN <= live_in(s, g) <= i64::MAX
    &&& data_bytes(g) + delete_bytes(group_deletes(s, g)) <= u64::MAX
}

/// Every data file's live rows fit in 64 bits.
pub open spec fn live_rows_fit(s: Snapshot) -> bool {
    forall|i: int|
        0 <= i < s.data_files@.len() ==> i64::MIN <= #[trigger] live_rows_of(s, s.data_files@[i])
            <= i64::MAX
}

pub open spec fn fits_live(s: Snapshot, f: DataFile) -> bool {
    i64::MIN <= live_rows_of(s, f) <= i64::MAX
}

proof fn lemma_data_bytes_add(a: Seq<DataFile>, b: Seq<DataFile>)
    ensures
        data_bytes(a + b) == data_bytes(a) + data_bytes(b),
        data_bytes(b) >= 0,
    decreases b.len(),
{
    if b.len() > 0 {
        lemma_data_bytes_add(a, b.drop_last());
        assert((a + b).drop_last() =~= a + b.drop_last());
    } else {
        assert(a + b =~= a);
    }
}

proof fn lemma_delete_bytes_add(a: Seq<DeleteFile>, b: Seq<DeleteFile>)
    ensures
        delete_bytes(a + b) == delete_bytes(a) + delete_bytes(b),
        delete_bytes(b) >= 0,
    decreases b.len(),
{
    if b.len() > 0 {
        lemma_delete_bytes_add(a, b.drop_last());
        assert((a + b).drop_last() =~= a + b.drop_last());
    } else {
        assert(a + b =~= a);
    }
}

proof fn lemma_group_deletes_add(s: Snapshot, a: Seq<DataFile>, b: Seq<DataFile>)
    ensures
        group_deletes(s, a + b) == group_deletes(s, a) + group_deletes(s, b),
    decreases b.len(),
{
    if b.len() > 0 {
        lemma_group_deletes_add(s, a, b.drop_last());
        assert((a + b).drop_last() =~= a + b.drop_last());
        assert(group_deletes(s, a + b) =~= group_deletes(s, a) + group_deletes(s, b));
    } else {
        assert(a + b =~= a);
        assert(group_deletes(s, a) + group_deletes(s, b) =~= group_deletes(s, a));
    }
}

/// What a group's first `k` files contribute to the bytes it reads, at most what they all do.
proof fn lemma_bytes_prefix(s: Snapshot, g: Seq<DataFile>, k: int)
    requires
        0 <= k <= g.len(),
    ensures
        data_bytes(g.take(k)) + delete_bytes(group_deletes(s, g.take(k))) <= data_bytes(g)
            + delete_bytes(group_deletes(s, g)),
{
    assert(g =~= g.take(k) + g.skip(k));
    lemma_data_bytes_add(g.take(k), g.skip(k));
    lemma_group_deletes_add(s, g.take(k), g.skip(k));
    lemma_delete_bytes_add(group_deletes(s, g.take(k)), group_deletes(s, g.skip(k)));
}

/// The description of a group's rewrite.
fn describe(snapshot: &Snapshot, g: &Vec<&DataFile>) -> (r: Group)
    requires
        group_fits(*snapshot, derefs(g@)),
        forall|k: int| 0 <= k < g@.len() ==> fits_live(*snapshot, *#[trigger] g@[k]),
    ensures
        group_is(r, *snapshot, derefs(g@)),
{
    let ghost gv = derefs(g@);
    let ghost total = data_bytes(gv) + delete_bytes(group_deletes(*snapshot, gv));
    let mut data_files: Vec<String> = Vec::new();
    let mut delete_files: Vec<String> = Vec::new();
    let mut rows_in: i128 = 0;
    let mut rows_out: i128 = 0;
    let mut bytes: u128 = 0;
    let mut k: usize = 0;
    while k < g.len()
        invariant
            gv == derefs(g@),
            group_fits(*snapshot, gv),
            total == data_bytes(gv) + delete_bytes(group_deletes(*snapshot, gv)),
            forall|t: int| 0 <= t < g@.len() ==> fits_live(*snapshot, *#[trigger] g@[t]),
            k <= g@.len(),
            strings_view(data_files@) == data_paths(gv.take(k as int)),
            strings_view(delete_files@) == delete_paths(group_deletes(*snapshot, gv.take(k as int))),
            rows_in == records_in(gv.take(k as int)),
            rows_out == live_in(*snapshot, gv.take(k as int)),
            bytes == data_bytes(gv.take(k as int)) + delete_bytes(
                group_deletes(*snapshot, gv.take(k as int)),
            ),
            -(k * 0x8000_0000_0000_0000) <= rows_in <= k * 0x8000_0000_0000_0000,
            -(k * 0x8000_0000_0000_0000) <= rows_out <= k * 0x8000_0000_0000_0000,
        decreases g@.len() - k,
    {
        let f = g[k];
        proof {
            assert(gv.take(k + 1).drop_last() =~= gv.take(k as int));
            assert(gv.take(k + 1).last() == *f);
            lemma_bytes_prefix(*snapshot, gv, k + 1);
            lemma_delete_bytes_add(
                group_deletes(*snapshot, gv.take(k as int)),
                deletes_of(snapshot.delete_files@, f.path@),
            );
            assert(group_deletes(*snapshot, gv.take(k + 1)) == group_deletes(
                *snapshot,
                gv.take(k as int),
            ) + deletes_of(snapshot.delete_files@, f.path@));
            assert((k + 1) * 0x8000_0000_0000_0000 == k * 0x8000_0000_0000_0000
                + 0x8000_0000_0000_0000) by (nonlinear_arith);
            assert(k * 0x8000_0000_0000_0000 <= 0x1_0000_0000_0000_0000 * 0x8000_0000_0000_0000)
                by (nonlinear_arith)
                requires
                    k <= 0x1_0000_0000_0000_0000,
            ;
        }
        let ghost names0 = data_files@;
        data_files.push(f.path.clone());
        assert(strings_view(data_files@) =~= strings_view(names0).push(f.path@));
        assert(data_paths(gv.take(k + 1)) =~= data_paths(gv.take(k as int)).push(f.path@));
        rows_in = rows_in + f.record_count as i128;
        rows_out = rows_out + snapshot.live_rows(f) as i128;
        bytes = bytes + f.file_size as u128;
        let ds = snapshot.deletes_for(f.path.as_str());
        let ghost base = bytes;
        let ghost names_before = strings_view(delete_files@);
        let mut j: usize = 0;
        while j < ds.len()
            invariant
                j <= ds@.len(),
                derefs(ds@) == deletes_of(snapshot.delete_files@, f.path@),
                bytes == base + delete_bytes(derefs(ds@).take(j as int)),
                base + delete_bytes(derefs(ds@)) <= total,
                total <= u64::MAX,
                strings_view(delete_files@) == names_before + delete_paths(derefs(ds@).take(j as int)),
            decreases ds@.len() - j,
        {
            proof {
                assert(derefs(ds@).take(j + 1).drop_last() =~= derefs(ds@).take(j as int));
                lemma_delete_bytes_add(derefs(ds@).take(j + 1), derefs(ds@).skip(j + 1));
                assert(derefs(ds@) =~= derefs(ds@).take(j + 1) + derefs(ds@).skip(j + 1));
            }
            let ghost names1 = delete_files@;
            let d = ds[j];
            delete_files.push(d.path.clone());
            bytes = bytes + d.file_size as u128;
            proof {
                assert(strings_view(delete_files@) =~= strings_view(names1).push(d.path@));
                assert(derefs(ds@).take(j + 1).last() == *d);
                assert(delete_paths(derefs(ds@).take(j + 1)) =~= delete_paths(
                    derefs(ds@).take(j as int),
                ).push(d.path@));
            }
            j = j + 1;
            assert(strings_view(delete_files@) =~= names_before + delete_paths(derefs(ds@).take(j as int)));
        }
        proof {
            assert(derefs(ds@).take(ds@.len() as int) =~= derefs(ds@));
            assert(delete_paths(group_deletes(*snapshot, gv.take(k + 1))) =~= delete_paths(
                group_deletes(*snapshot, gv.take(k as int)),
            ) + delete_paths(derefs(ds@)));
            lemma_delete_bytes_add(group_deletes(*snapshot, gv.take(k as int)), derefs(ds@));
        }
        k = k + 1;
    }
    proof {
        assert(gv.take(g@.len() as int) =~= gv);
    }
    Group {
        data_files,
        delete_files,
        rows_in: rows_in as i64,
        rows_out: rows_out as i64,
        bytes_in: bytes as u64,
    }
}

/// The files of each group.
pub open spec fn group_views(gs: Seq<Vec<&DataFile>>) -> Seq<Seq<DataFile>> {
    Seq::new(gs.len(), |k: int| derefs(gs[k]@))
}

/// The groups kept from a prefix of the groups are a prefix of those kept from all of them.
proof fn lemma_kept_prefix(s: Snapshot, gs: Seq<Seq<DataFile>>, k: int)
    requires
        0 <= k <= gs.len(),
    ensures
        kept_groups(s, gs.take(k)).len() <= kept_groups(s, gs).len(),
        forall|t: int|
            0 <= t < kept_groups(s, gs.take(k)).len() ==> kept_groups(s, gs.take(k))[t]
                == kept_groups(s, gs)[t],
    decreases gs.len() - k,
{
    if k < gs.len() {
        lemma_kept_prefix(s, gs, k + 1);
        assert(gs.take(k + 1).drop_last() =~= gs.take(k));
    } else {
        assert(gs.take(k) =~= gs);
    }
}

/// Plan a compaction of `snapshot`. A data file is rewritten if it has deletes, or if it holds
/// fewer than `small_rows` live rows. In order of their smallest key, those files are packed
/// into groups: a file joins the current group if the group's live rows stay within
/// `target_rows`, and starts a new group otherwise. A group of one file with no deletes would
/// be rewritten unchanged, so it is dropped. Files that are neither small nor deleted from are
/// left as they are.
pub fn plan_compaction(snapshot: &Snapshot, target_rows: i64, small_rows: i64) -> (r: Vec<Group>)
    requires
        live_rows_fit(*snapshot),
        forall|k: int|
            0 <= k < compaction_plan(*snapshot, target_rows, small_rows).len() ==> group_fits(
                *snapshot,
                #[trigger] compaction_plan(*snapshot, target_rows, small_rows)[k],
            ),
    ensures
        r@.len() == compaction_plan(*snapshot, target_rows, small_rows).len(),
        forall|k: int|
            0 <= k < r@.len() ==> group_is(
                #[trigger] r@[k],
                *snapshot,
                compaction_plan(*snapshot, target_rows, small_rows)[k],
            ),
{
    let ghost s = *snapshot;
    // The files to rewrite.
    let mut cands: Vec<&DataFile> = Vec::new();
    let mut i: usize = 0;
    while i < snapshot.data_files.len()
        invariant
            s == *snapshot,
            live_rows_fit(s),
            i <= s.data_files@.len(),
            derefs(cands@) == candidates(s, s.data_files@.take(i as int), small_rows),
            forall|t: int| 0 <= t < cands@.len() ==> fits_live(s, *#[trigger] cands@[t]),
        decreases s.data_files@.len() - i,
    {
        let f = &snapshot.data_files[i];
        proof {
            assert(s.data_files@.take(i + 1).drop_last() =~= s.data_files@.take(i as int));
            assert(fits_live(s, s.data_files@[i as int]));
        }
        let has_deletes = snapshot.deletes_for(f.path.as_str()).len() > 0;
        if has_deletes || snapshot.live_rows(f) < small_rows {
            cands.push(f);
            assert(derefs(cands@) =~= candidates(s, s.data_files@.take(i + 1), small_rows));
        }
        i = i + 1;
    }
    assert(s.data_files@.take(s.data_files@.len() as int) =~= s.data_files@);
    // In order of their smallest key, keeping the order of equal keys.
    let mut sorted: Vec<&DataFile> = Vec::new();
    let mut i: usize = 0;
    proof {
        assert(derefs(cands@).take(0) =~= Seq::<DataFile>::empty());
        assert(derefs(sorted@) =~= Seq::<DataFile>::empty());
    }
    while i < cands.len()
        invariant
            s == *snapshot,
            i <= cands@.len(),
            derefs(sorted@) == by_min_key(derefs(cands@).take(i as int)),
            forall|t: int| 0 <= t < cands@.len() ==> fits_live(s, *#[trigger] cands@[t]),
            forall|t: int| 0 <= t < sorted@.len() ==> fits_live(s, *#[trigger] sorted@[t]),
        decreases cands@.len() - i,
    {
        let x = cands[i];
        let mut p: usize = sorted.len();
        proof {
            assert(derefs(sorted@).take(p as int) =~= derefs(sorted@));
            assert(derefs(sorted@).skip(p as int) =~= Seq::<DataFile>::empty());
            assert(insert_by_key(derefs(sorted@), *x) =~= insert_by_key(
                derefs(sorted@).take(p as int),
                *x,
            ) + derefs(sorted@).skip(p as int));
        }
        while p > 0 && sorted[p - 1].min_key > x.min_key
            invariant
                p <= sorted@.len(),
                insert_by_key(derefs(sorted@), *x) == insert_by_key(
                    derefs(sorted@).take(p as int),
                    *x,
                ) + derefs(sorted@).skip(p as int),
            decreases p,
        {
            proof {
                let v = derefs(sorted@);
                assert(v.take(p as int).drop_last() =~= v.take(p - 1));
                assert(v.take(p as int).last() == v[p - 1]);
                assert(insert_by_key(v.take(p as int), *x) == insert_by_key(v.take(p - 1), *x).push(
                    v[p - 1],
                ));
                assert(insert_by_key(v.take(p - 1), *x).push(v[p - 1]) + v.skip(p as int)
                    =~= insert_by_key(v.take(p - 1), *x) + v.skip(p - 1));
            }
            p = p - 1;
        }
        let ghost before = derefs(sorted@);
        sorted.insert(p, x);
        proof {
            assert(insert_by_key(before.take(p as int), *x) == before.take(p as int).push(*x));
            assert(derefs(sorted@) =~= before.take(p as int).push(*x) + before.skip(p as int));
            assert(derefs(cands@).take(i + 1).drop_last() =~= derefs(cands@).take(i as int));
            assert(derefs(cands@).take(i + 1).last() == *x);
            assert forall|t: int| 0 <= t < sorted@.len() implies fits_live(s, *#[trigger] sorted@[t]) by {
                if t < p {
                    assert(*sorted@[t] == before[t]);
                } else if t > p {
                    assert(*sorted@[t] == before[t - 1]);
                }
            }
        }
        i = i + 1;
    }
    assert(derefs(cands@).take(cands@.len() as int) =~= derefs(cands@));
    // Packed into groups.
    let mut groups: Vec<Vec<&DataFile>> = Vec::new();
    let mut rows: i128 = 0;
    let mut i: usize = 0;
    proof {
        assert(derefs(sorted@).take(0) =~= Seq::<DataFile>::empty());
        assert(group_views(groups@) =~= Seq::<Seq<DataFile>>::empty());
    }
    while i < sorted.len()
        invariant
            s == *snapshot,
            live_rows_fit(s),
            i <= sorted@.len(),
            (group_views(groups@), rows as int) == packed(s, derefs(sorted@).take(i as int), target_rows),
            -(i * 0x8000_0000_0000_0000) <= rows <= i * 0x8000_0000_0000_0000,
            forall|t: int| 0 <= t < sorted@.len() ==> fits_live(s, *#[trigger] sorted@[t]),
            forall|g: int, t: int|
                0 <= g < groups@.len() && 0 <= t < groups@[g]@.len() ==> fits_live(
                    s,
                    *#[trigger] groups@[g]@[t],
                ),
        decreases sorted@.len() - i,
    {
        let f = sorted[i];
        proof {
            assert(derefs(sorted@).take(i + 1).drop_last() =~= derefs(sorted@).take(i as int));
            assert(derefs(sorted@).take(i + 1).last() == *f);
            assert(fits_live(s, *sorted@[i as int]));
            assert((i + 1) * 0x8000_0000_0000_0000 == i * 0x8000_0000_0000_0000
                + 0x8000_0000_0000_0000) by (nonlinear_arith);
            assert(i * 0x8000_0000_0000_0000 <= 0x1_0000_0000_0000_0000 * 0x8000_0000_0000_0000)
                by (nonlinear_arith)
                requires
                    i <= 0x1_0000_0000_0000_0000,
            ;
        }
        let live = snapshot.live_rows(f) as i128;
        let ghost gv = group_views(groups@);
        if groups.len() > 0 && rows + live <= target_rows as i128 {
            let ghost old_groups = groups@;
            let mut last = groups.pop().unwrap();
            let ghost last0 = last@;
            last.push(f);
            proof {
                assert(derefs(last@) =~= derefs(last0).push(*f));
                assert(last0 == old_groups.last()@);
            }
            groups.push(last);
            rows = rows + live;
            proof {
                assert(group_views(groups@) =~= gv.update(gv.len() - 1, gv.last().push(*f)));
                assert forall|g: int, t: int|
                    0 <= g < groups@.len() && 0 <= t < groups@[g]@.len() implies fits_live(
                        s,
                        *#[trigger] groups@[g]@[t],
                    ) by {
                    if g < groups@.len() - 1 {
                        assert(groups@[g] == old_groups[g]);
                    } else if t < groups@[g]@.len() - 1 {
                        assert(groups@[g]@[t] == old_groups[g]@[t]);
                    }
                }
            }
        } else {
            let mut g: Vec<&DataFile> = Vec::new();
            g.push(f);
            let ghost old_groups = groups@;
            groups.push(g);
            rows = live;
            proof {
                assert(derefs(g@) =~= seq![*f]);
                assert(group_views(groups@) =~= gv.push(seq![*f]));
                assert forall|gi: int, t: int|
                    0 <= gi < groups@.len() && 0 <= t < groups@[gi]@.len() implies fits_live(
                        s,
                        *#[trigger] groups@[gi]@[t],
                    ) by {
                    if gi < groups@.len() - 1 {
                        assert(groups@[gi] == old_groups[gi]);
                    }
                }
            }
        }
        i = i + 1;
    }
    assert(derefs(sorted@).take(sorted@.len() as int) =~= derefs(sorted@));
    let ghost all = group_views(groups@);
    assert(kept_groups(s, all) == compaction_plan(s, target_rows, small_rows));
    // The groups worth rewriting, described.
    let mut out: Vec<Group> = Vec::new();
    let mut k: usize = 0;
    proof {
        assert(all.take(0) =~= Seq::<Seq<DataFile>>::empty());
    }
    while k < groups.len()
        invariant
            s == *snapshot,
            k <= groups@.len(),
            all == group_views(groups@),
            kept_groups(s, all) == compaction_plan(s, target_rows, small_rows),
            forall|t: int|
                0 <= t < kept_groups(s, all).len() ==> group_fits(s, #[trigger] kept_groups(s, all)[t]),
            forall|g: int, t: int|
                0 <= g < groups@.len() && 0 <= t < groups@[g]@.len() ==> fits_live(
                    s,
                    *#[trigger] groups@[g]@[t],
                ),
            out@.len() == kept_groups(s, all.take(k as int)).len(),
            forall|t: int|
                0 <= t < out@.len() ==> group_is(
                    #[trigger] out@[t],
                    s,
                    kept_groups(s, all.take(k as int))[t],
                ),
        decreases groups@.len() - k,
    {
        let g = &groups[k];
        proof {
            assert(all.take(k + 1).drop_last() =~= all.take(k as int));
            assert(all.take(k + 1).last() == derefs(g@));
            lemma_kept_prefix(s, all, k + 1);
        }
        let keep = g.len() > 1 || (g.len() == 1 && snapshot.deletes_for(g[0].path.as_str()).len()
            > 0);
        proof {
            if g@.len() == 1 {
                assert(derefs(g@)[0] == *g@[0]);
            }
            assert(keep == worth_rewriting(s, derefs(g@)));
        }
        if keep {
            proof {
                let n = kept_groups(s, all.take(k as int)).len();
                assert(kept_groups(s, all.take(k + 1))[n as int] == derefs(g@));
                assert(kept_groups(s, all)[n as int] == derefs(g@));
                assert forall|t: int| 0 <= t < g@.len() implies fits_live(s, *#[trigger] g@[t]) by {
                    assert(groups@[k as int]@[t] == g@[t]);
                }
            }
            let group = describe(snapshot, g);
            out.push(group);
        }
        k = k + 1;
    }
    assert(all.take(groups@.len() as int) =~= all);
    out
}


/// A compaction's cost as plain values: the files written with their sizes, the bytes read,
/// the bytes written and the time taken.
pub open spec fn cost_view(c: CompactionCost) -> (Seq<(Seq<char>, u64)>, int, int, int) {
    (
        c.outputs@.map_values(|o: (String, u64)| (o.0@, o.1)),
        c.bytes_read as int,
        c.bytes_written as int,
        c.elapsed_us as int,
    )
}

/// What `compaction_cost` returns, as plain values.
pub open spec fn outcome_view(r: Result<CompactionCost, String>) -> Result<
    (Seq<(Seq<char>, u64)>, int, int, int),
    Seq<char>,
> {
    match r {
        Ok(c) => Ok(cost_view(c)),
        Err(e) => Err(e@),
    }
}

proof fn lemma_total_step(xs: Seq<int>, k: int)
    requires
        0 <= k < xs.len(),
    ensures
        total(xs.take(k + 1)) == total(xs.take(k)) + xs[k],
{
    assert(xs.take(k + 1).drop_last() =~= xs.take(k));
}

proof fn lemma_total_nonneg(xs: Seq<int>)
    requires
        forall|i: int| 0 <= i < xs.len() ==> xs[i] >= 0,
    ensures
        total(xs) >= 0,
    decreases xs.len(),
{
    if xs.len() > 0 {
        lemma_total_nonneg(xs.drop_last());
    }
}

/// A running total of numbers that are not negative stays within the whole total.
proof fn lemma_total_prefix(xs: Seq<int>, k: int)
    requires
        0 <= k <= xs.len(),
        forall|i: int| 0 <= i < xs.len() ==> xs[i] >= 0,
    ensures
        0 <= total(xs.take(k)) <= total(xs),
        k < xs.len() ==> xs[k] <= total(xs),
    decreases xs.len() - k,
{
    lemma_total_nonneg(xs.take(k));
    if k < xs.len() {
        lemma_total_prefix(xs, k + 1);
        lemma_total_step(xs, k);
    } else {
        assert(xs.take(k) =~= xs);
    }
}

/// Whether some data file has path `p`.
fn has_path_in(fs: &Vec<DataFile>, p: &str) -> (r: bool)
    ensures
        r == has_path(fs@, p@),
{
    let mut i: usize = 0;
    while i < fs.len()
        invariant
            i <= fs@.len(),
            forall|t: int| 0 <= t < i ==> fs@[t].path@ != p@,
        decreases fs@.len() - i,
    {
        if str_eq(fs[i].path.as_str(), p) {
            assert(fs@[i as int].path@ == p@);
            return true;
        }
        i = i + 1;
    }
    false
}

/// The paths, in order, of the files of `before` that `after` no longer has.
fn dropped_list(before: &Vec<DataFile>, after: &Vec<DataFile>) -> (r: Vec<String>)
    ensures
        texts_view(r@) == dropped_paths(before@, after@),
{
    let mut r: Vec<String> = Vec::new();
    let mut i: usize = 0;
    assert(texts_view(r@) =~= dropped_paths(before@.take(0), after@));
    while i < before.len()
        invariant
            i <= before@.len(),
            texts_view(r@) == dropped_paths(before@.take(i as int), after@),
        decreases before@.len() - i,
    {
        proof {
            assert(before@.take(i + 1).drop_last() =~= before@.take(i as int));
            assert(before@.take(i + 1).last() == before@[i as int]);
        }
        if !has_path_in(after, before[i].path.as_str()) {
            let ghost r0 = r@;
            r.push(before[i].path.clone());
            assert(texts_view(r@) =~= texts_view(r0).push(before@[i as int].path@));
        }
        i = i + 1;
    }
    assert(before@.take(before@.len() as int) =~= before@);
    r
}

/// The data files a plan rewrites, group after group.
fn planned_list(plan: &[Group]) -> (r: Vec<String>)
    ensures
        texts_view(r@) == planned_paths(plan@),
{
    let mut r: Vec<String> = Vec::new();
    let mut k: usize = 0;
    assert(texts_view(r@) =~= planned_paths(plan@.take(0)));
    while k < plan.len()
        invariant
            k <= plan@.len(),
            texts_view(r@) == planned_paths(plan@.take(k as int)),
        decreases plan@.len() - k,
    {
        let g = &plan[k];
        let ghost base = texts_view(r@);
        let mut j: usize = 0;
        assert(texts_view(r@) =~= base + texts_view(g.data_files@.take(0)));
        while j < g.data_files.len()
            invariant
                j <= g.data_files@.len(),
                texts_view(r@) == base + texts_view(g.data_files@.take(j as int)),
            decreases g.data_files@.len() - j,
        {
            let name = g.data_files[j].clone();
            assert(name@ == g.data_files@[j as int]@);
            let ghost r0 = r@;
            r.push(name);
            assert(texts_view(g.data_files@.take(j + 1)) =~= texts_view(g.data_files@.take(j as int)).push(name@));
            assert(texts_view(r@) =~= texts_view(r0).push(name@));
            assert(texts_view(r@) =~= base + texts_view(g.data_files@.take(j + 1)));
            j = j + 1;
        }
        proof {
            assert(plan@.take(k + 1).drop_last() =~= plan@.take(k as int));
            assert(plan@.take(k + 1).last() == *g);
            assert(g.data_files@.take(j as int) =~= g.data_files@);
        }
        k = k + 1;
    }
    assert(plan@.take(plan@.len() as int) =~= plan@);
    r
}

/// Whether two lists of strings hold the same texts in the same order.
fn texts_equal(a: &Vec<String>, b: &Vec<String>) -> (r: bool)
    ensures
        r == (texts_view(a@) == texts_view(b@)),
{
    if a.len() != b.len() {
        assert(texts_view(a@).len() != texts_view(b@).len());
        return false;
    }
    let mut i: usize = 0;
    while i < a.len()
        invariant
            i <= a@.len() == b@.len(),
            forall|t: int| 0 <= t < i ==> a@[t]@ == b@[t]@,
        decreases a@.len() - i,
    {
        if !str_eq(a[i].as_str(), b[i].as_str()) {
            assert(texts_view(a@)[i as int] != texts_view(b@)[i as int]);
            return false;
        }
        i = i + 1;
    }
    assert(texts_view(a@) =~= texts_view(b@));
    true
}

/// Append texts separated by ", ".
fn push_joined(s: &mut String, xs: &Vec<String>)
    ensures
        final(s)@ == old(s)@ + joined(texts_view(xs@)),
{
    let ghost v = texts_view(xs@);
    let mut k: usize = 0;
    assert(s@ =~= old(s)@ + joined(v.take(0)));
    while k < xs.len()
        invariant
            k <= xs@.len(),
            v == texts_view(xs@),
            s@ == old(s)@ + joined(v.take(k as int)),
        decreases xs@.len() - k,
    {
        let ghost s0 = s@;
        if k > 0 {
            s.append(", ");
        }
        s.append(xs[k].as_str());
        proof {
            assert(v.take(k + 1).drop_last() =~= v.take(k as int));
            assert(v.take(k + 1).last() == xs@[k as int]@);
            if k == 0 {
                assert(s@ =~= old(s)@ + joined(v.take(k + 1)));
            } else {
                assert(s@ =~= old(s)@ + joined(v.take(k + 1)));
            }
        }
        k = k + 1;
    }
    assert(v.take(k as int) =~= v);
}

/// The size of the first data file with path `p`, or 0 where there is none.
fn data_size_of(fs: &Vec<DataFile>, p: &str) -> (r: u64)
    ensures
        r == data_size(fs@, p@),
{
    let mut i: usize = 0;
    assert(fs@.skip(0) =~= fs@);
    while i < fs.len()
        invariant
            i <= fs@.len(),
            data_size(fs@, p@) == data_size(fs@.skip(i as int), p@),
        decreases fs@.len() - i,
    {
        proof {
            assert(fs@.skip(i as int).drop_first() =~= fs@.skip(i + 1));
            assert(fs@.skip(i as int)[0] == fs@[i as int]);
        }
        if str_eq(fs[i].path.as_str(), p) {
            return fs[i].file_size;
        }
        i = i + 1;
    }
    0
}

/// The size of the first delete file with path `p`, or 0 where there is none.
fn delete_size_of(ds: &Vec<DeleteFile>, p: &str) -> (r: u64)
    ensures
        r == delete_size(ds@, p@),
{
    let mut i: usize = 0;
    assert(ds@.skip(0) =~= ds@);
    while i < ds.len()
        invariant
            i <= ds@.len(),
            delete_size(ds@, p@) == delete_size(ds@.skip(i as int), p@),
        decreases ds@.len() - i,
    {
        proof {
            assert(ds@.skip(i as int).drop_first() =~= ds@.skip(i + 1));
            assert(ds@.skip(i as int)[0] == ds@[i as int]);
        }
        if str_eq(ds[i].path.as_str(), p) {
            return ds[i].file_size;
        }
        i = i + 1;
    }
    0
}

/// The bytes a plan reads, one read per file.
fn plan_read_list(before: &Snapshot, plan: &[Group]) -> (r: Vec<u64>)
    ensures
        r@ == plan_reads(*before, plan@),
{
    let mut r: Vec<u64> = Vec::new();
    let mut k: usize = 0;
    assert(r@ =~= plan_reads(*before, plan@.take(0)));
    while k < plan.len()
        invariant
            k <= plan@.len(),
            r@ == plan_reads(*before, plan@.take(k as int)),
        decreases plan@.len() - k,
    {
        let g = &plan[k];
        let ghost base = r@;
        let mut j: usize = 0;
        assert(r@ =~= base + data_reads(*before, *g).take(0));
        while j < g.data_files.len()
            invariant
                j <= g.data_files@.len(),
                r@ == base + data_reads(*before, *g).take(j as int),
            decreases g.data_files@.len() - j,
        {
            let n = data_size_of(&before.data_files, g.data_files[j].as_str());
            r.push(n);
            assert(r@ =~= base + data_reads(*before, *g).take(j + 1));
            j = j + 1;
        }
        assert(data_reads(*before, *g).take(j as int) =~= data_reads(*before, *g));
        let ghost mid = r@;
        let mut j: usize = 0;
        assert(r@ =~= mid + delete_reads(*before, *g).take(0));
        while j < g.delete_files.len()
            invariant
                j <= g.delete_files@.len(),
                r@ == mid + delete_reads(*before, *g).take(j as int),
            decreases g.delete_files@.len() - j,
        {
            let n = delete_size_of(&before.delete_files, g.delete_files[j].as_str());
            r.push(n);
            assert(r@ =~= mid + delete_reads(*before, *g).take(j + 1));
            j = j + 1;
        }
        proof {
            assert(delete_reads(*before, *g).take(j as int) =~= delete_reads(*before, *g));
            assert(plan@.take(k + 1).drop_last() =~= plan@.take(k as int));
            assert(plan@.take(k + 1).last() == *g);
            assert(r@ =~= plan_reads(*before, plan@.take(k + 1)));
        }
        k = k + 1;
    }
    assert(plan@.take(plan@.len() as int) =~= plan@);
    r
}

/// The files of `after`, in order, whose path `before` does not have.
fn new_in<'a>(before: &Vec<DataFile>, after: &'a Vec<DataFile>) -> (r: Vec<&'a DataFile>)
    ensures
        derefs(r@) == new_files(before@, after@),
{
    let mut r: Vec<&DataFile> = Vec::new();
    let mut i: usize = 0;
    assert(derefs(r@) =~= new_files(before@, after@.take(0)));
    while i < after.len()
        invariant
            i <= after@.len(),
            derefs(r@) == new_files(before@, after@.take(i as int)),
        decreases after@.len() - i,
    {
        proof {
            assert(after@.take(i + 1).drop_last() =~= after@.take(i as int));
            assert(after@.take(i + 1).last() == after@[i as int]);
        }
        if !has_path_in(before, after[i].path.as_str()) {
            let ghost r0 = r@;
            r.push(&after[i]);
            assert(derefs(r@) =~= derefs(r0).push(after@[i as int]));
        }
        i = i + 1;
    }
    assert(after@.take(after@.len() as int) =~= after@);
    r
}

/// The cost of carrying out `plan`, which turned `before` into `after`: every input read, then
/// every output written, one request each, a write priced as a read of the same size. Fails if
/// the files `after` dropped are not the ones the plan rewrites, or if the rows do not add up.
pub fn compaction_cost(
    before: &Snapshot,
    after: &Snapshot,
    plan: &[Group],
    model: NetworkModel,
) -> (r: Result<CompactionCost, String>)
    requires
        cost_fits(*before, *after, plan@, model),
    ensures
        outcome_view(r) == compaction_outcome(*before, *after, plan@, model),
{
    let dropped = sort_texts(dropped_list(&before.data_files, &after.data_files));
    let planned = sort_texts(planned_list(plan));
    if !texts_equal(&dropped, &planned) {
        let mut msg = String::new();
        msg.append("snapshot ");
        msg.append(after.id.as_str());
        msg.append(" replaced ");
        push_joined(&mut msg, &dropped);
        msg.append(", but the plan rewrites ");
        push_joined(&mut msg, &planned);
        assert(msg@ =~= "snapshot "@ + after.id@ + " replaced "@ + joined(texts_view(dropped@))
            + ", but the plan rewrites "@ + joined(texts_view(planned@)));
        return Err(msg);
    }
    let news = new_in(&before.data_files, &after.data_files);
    let ghost nv = derefs(news@);
    // The rows the commit wrote, and the rows the plan keeps.
    let mut wrote: i64 = 0;
    let mut k: usize = 0;
    assert(counts(nv).take(0) =~= Seq::<int>::empty());
    while k < news.len()
        invariant
            k <= news@.len(),
            nv == derefs(news@),
            running_totals_fit(counts(nv)),
            wrote == total(counts(nv).take(k as int)),
        decreases news@.len() - k,
    {
        proof {
            lemma_total_step(counts(nv), k as int);
            assert(i64::MIN <= total(counts(nv).take(k + 1)) <= i64::MAX);
        }
        wrote = wrote + news[k].record_count;
        k = k + 1;
    }
    assert(counts(nv).take(k as int) =~= counts(nv));
    let mut kept: i64 = 0;
    let mut k: usize = 0;
    assert(plan_rows_out(plan@).take(0) =~= Seq::<int>::empty());
    while k < plan.len()
        invariant
            k <= plan@.len(),
            running_totals_fit(plan_rows_out(plan@)),
            kept == total(plan_rows_out(plan@).take(k as int)),
        decreases plan@.len() - k,
    {
        proof {
            lemma_total_step(plan_rows_out(plan@), k as int);
            assert(i64::MIN <= total(plan_rows_out(plan@).take(k + 1)) <= i64::MAX);
        }
        kept = kept + plan[k].rows_out;
        k = k + 1;
    }
    assert(plan_rows_out(plan@).take(k as int) =~= plan_rows_out(plan@));
    if wrote != kept {
        let mut msg = String::new();
        msg.append("the plan keeps ");
        push_i64(&mut msg, kept);
        msg.append(" rows, but snapshot ");
        msg.append(after.id.as_str());
        msg.append(" wrote ");
        push_i64(&mut msg, wrote);
        assert(msg@ =~= "the plan keeps "@ + signed_dec(kept as int) + " rows, but snapshot "@
            + after.id@ + " wrote "@ + signed_dec(wrote as int));
        return Err(msg);
    }
    // What the rewrite reads.
    let reads = plan_read_list(before, plan);
    let ghost written = nv.map_values(|f: DataFile| f.file_size);
    proof {
        lemma_total_nonneg(costs(model, written));
        lemma_total_nonneg(costs(model, reads@));
    }
    let mut bytes_read: u64 = 0;
    let mut read_us: u64 = 0;
    let mut k: usize = 0;
    assert(sizes(reads@).take(0) =~= Seq::<int>::empty());
    assert(costs(model, reads@).take(0) =~= Seq::<int>::empty());
    while k < reads.len()
        invariant
            k <= reads@.len(),
            total(sizes(reads@)) <= u64::MAX,
            total(costs(model, reads@)) <= u64::MAX,
            bytes_read == total(sizes(reads@).take(k as int)),
            read_us == total(costs(model, reads@).take(k as int)),
        decreases reads@.len() - k,
    {
        proof {
            lemma_total_step(sizes(reads@), k as int);
            lemma_total_step(costs(model, reads@), k as int);
            lemma_total_prefix(sizes(reads@), k + 1);
            lemma_total_prefix(costs(model, reads@), k + 1);
            lemma_total_prefix(costs(model, reads@), k as int);
        }
        bytes_read = bytes_read + reads[k];
        let c = model.cost_us(reads[k]);
        read_us = read_us + c;
        k = k + 1;
    }
    assert(sizes(reads@).take(k as int) =~= sizes(reads@));
    assert(costs(model, reads@).take(k as int) =~= costs(model, reads@));
    // What the rewrite writes.
    let mut outputs: Vec<(String, u64)> = Vec::new();
    let mut bytes_written: u64 = 0;
    let mut write_us: u64 = 0;
    let mut k: usize = 0;
    assert(sizes(written).take(0) =~= Seq::<int>::empty());
    assert(costs(model, written).take(0) =~= Seq::<int>::empty());
    while k < news.len()
        invariant
            k <= news@.len(),
            nv == derefs(news@),
            written == nv.map_values(|f: DataFile| f.file_size),
            total(sizes(written)) <= u64::MAX,
            read_us + total(costs(model, written)) <= u64::MAX,
            outputs@.len() == k,
            forall|t: int|
                0 <= t < k ==> (#[trigger] outputs@[t]).0@ == nv[t].path@ && outputs@[t].1
                    == nv[t].file_size,
            bytes_written == total(sizes(written).take(k as int)),
            write_us == total(costs(model, written).take(k as int)),
        decreases news@.len() - k,
    {
        proof {
            lemma_total_step(sizes(written), k as int);
            lemma_total_step(costs(model, written), k as int);
            lemma_total_prefix(sizes(written), k + 1);
            lemma_total_prefix(costs(model, written), k + 1);
            lemma_total_prefix(costs(model, written), k as int);
        }
        let f = news[k];
        bytes_written = bytes_written + f.file_size;
        let c = model.cost_us(f.file_size);
        write_us = write_us + c;
        outputs.push((f.path.clone(), f.file_size));
        k = k + 1;
    }
    assert(sizes(written).take(k as int) =~= sizes(written));
    assert(costs(model, written).take(k as int) =~= costs(model, written));
    let cost = CompactionCost {
        outputs,
        bytes_read,
        bytes_written,
        elapsed_us: read_us + write_us,
    };
    assert(cost_view(cost).0 =~= nv.map_values(|f: DataFile| (f.path@, f.file_size)));
    Ok(cost)
}


// ---- Reading the snapshots file --------------------------------------------------------------

/// A data file as values.
pub struct DataFileV {
    pub path: Seq<char>,
    pub record_count: i64,
    pub file_size: u64,
    pub min_key: i64,
    pub max_key: i64,
}

/// A delete file as values.
pub struct DeleteFileV {
    pub path: Seq<char>,
    pub record_count: i64,
    pub file_size: u64,
    pub data_file: Seq<char>,
}

/// A snapshot as values.
pub struct SnapshotV {
    pub id: Seq<char>,
    pub summary: Seq<char>,
    pub data_files: Seq<DataFileV>,
    pub delete_files: Seq<DeleteFileV>,
}

pub open spec fn data_file_view(d: DataFile) -> DataFileV {
    DataFileV {
        path: d.path@,
        record_count: d.record_count,
        file_size: d.file_size,
        min_key: d.min_key,
        max_key: d.max_key,
    }
}

pub open spec fn delete_file_view(d: DeleteFile) -> DeleteFileV {
    DeleteFileV {
        path: d.path@,
        record_count: d.record_count,
        file_size: d.file_size,
        data_file: d.data_file@,
    }
}

pub open spec fn snapshot_view(s: Snapshot) -> SnapshotV {
    SnapshotV {
        id: s.id@,
        summary: s.summary@,
        data_files: s.data_files@.map_values(|d: DataFile| data_file_view(d)),
        delete_files: s.delete_files@.map_values(|d: DeleteFile| delete_file_view(d)),
    }
}

/// The items read so far, in front of the rest; an error stays the error.
pub open spec fn prepend<T>(done: Seq<T>, r: Result<Seq<T>, Seq<char>>) -> Result<Seq<T>, Seq<char>> {
    match r {
        Ok(rest) => Ok(done + rest),
        Err(m) => Err(m),
    }
}

/// The message for a snapshots file that lacks something.
pub open spec fn snapshots_error(what: Seq<char>) -> Seq<char> {
    "_snapshots.json: "@ + what
}

/// A member of `v` as text, or the message that it is missing.
pub open spec fn text_field(v: JsonV, key: Seq<char>) -> Result<Seq<char>, Seq<char>> {
    match text_of(v, key) {
        Some(t) => Ok(t),
        None => Err(snapshots_error("no "@ + key)),
    }
}

/// A member of `v` as an `i64`, or the message that it is missing.
pub open spec fn int_field(v: JsonV, key: Seq<char>) -> Result<i64, Seq<char>> {
    match int_of(v, key) {
        Some(x) => Ok(x),
        None => Err(snapshots_error("no "@ + key)),
    }
}

/// Bound `i` of a data file's key range.
pub open spec fn key_bound(range: Seq<JsonV>, i: int) -> Result<i64, Seq<char>> {
    if 0 <= i < range.len() && as_i64_of(range[i]) is Some {
        Ok(as_i64_of(range[i])->Some_0)
    } else {
        Err(snapshots_error("a data file with no order_id range"@))
    }
}

/// A list member of `v`, or no items where it is missing.
pub open spec fn list_or_empty(v: JsonV, key: Seq<char>) -> Seq<JsonV> {
    match list_of(v, key) {
        Some(items) => items,
        None => Seq::empty(),
    }
}

/// One data file of a snapshot: its path, counts and key range, read in that order.
pub open spec fn data_file_of(f: JsonV) -> Result<DataFileV, Seq<char>> {
    let range = list_or_empty(f, "order_id"@);
    match (text_field(f, "path"@), int_field(f, "record_count"@), int_field(f, "file_size"@)) {
        (Err(m), _, _) => Err(m),
        (Ok(_), Err(m), _) => Err(m),
        (Ok(_), Ok(_), Err(m)) => Err(m),
        (Ok(path), Ok(rc), Ok(size)) => match (key_bound(range, 0), key_bound(range, 1)) {
            (Err(m), _) => Err(m),
            (Ok(_), Err(m)) => Err(m),
            (Ok(lo), Ok(hi)) => Ok(
                DataFileV {
                    path,
                    record_count: rc,
                    file_size: size as u64,
                    min_key: lo,
                    max_key: hi,
                },
            ),
        },
    }
}

/// One delete file of a snapshot: its path, counts and the data file it names.
pub open spec fn delete_file_of(f: JsonV) -> Result<DeleteFileV, Seq<char>> {
    match (
        text_field(f, "path"@),
        int_field(f, "record_count"@),
        int_field(f, "file_size"@),
        text_field(f, "data_file"@),
    ) {
        (Err(m), _, _, _) => Err(m),
        (Ok(_), Err(m), _, _) => Err(m),
        (Ok(_), Ok(_), Err(m), _) => Err(m),
        (Ok(_), Ok(_), Ok(_), Err(m)) => Err(m),
        (Ok(path), Ok(rc), Ok(size), Ok(data)) => Ok(
            DeleteFileV { path, record_count: rc, file_size: size as u64, data_file: data },
        ),
    }
}

/// The data files from item `k` on, or the first one's message.
pub open spec fn data_files_from(items: Seq<JsonV>, k: int) -> Result<Seq<DataFileV>, Seq<char>>
    decreases items.len() - k,
{
    if k < 0 || k >= items.len() {
        Ok(Seq::empty())
    } else {
        match data_file_of(items[k]) {
            Err(m) => Err(m),
            Ok(d) => prepend(seq![d], data_files_from(items, k + 1)),
        }
    }
}

/// The delete files from item `k` on, or the first one's message.
pub open spec fn delete_files_from(items: Seq<JsonV>, k: int) -> Result<Seq<DeleteFileV>, Seq<char>>
    decreases items.len() - k,
{
    if k < 0 || k >= items.len() {
        Ok(Seq::empty())
    } else {
        match delete_file_of(items[k]) {
            Err(m) => Err(m),
            Ok(d) => prepend(seq![d], delete_files_from(items, k + 1)),
        }
    }
}

/// One snapshot: its data files, its delete files, then its id and summary.
pub open spec fn snapshot_of(s: JsonV) -> Result<SnapshotV, Seq<char>> {
    match data_files_from(list_or_empty(s, "data_files"@), 0) {
        Err(m) => Err(m),
        Ok(data) => match delete_files_from(list_or_empty(s, "delete_files"@), 0) {
            Err(m) => Err(m),
            Ok(deletes) => match text_field(s, "id"@) {
                Err(m) => Err(m),
                Ok(id) => match text_field(s, "summary"@) {
                    Err(m) => Err(m),
                    Ok(summary) => Ok(
                        SnapshotV { id, summary, data_files: data, delete_files: deletes },
                    ),
                },
            },
        },
    }
}

/// The snapshots from item `k` on, or the first one's message.
pub open spec fn snapshots_from(items: Seq<JsonV>, k: int) -> Result<Seq<SnapshotV>, Seq<char>>
    decreases items.len() - k,
{
    if k < 0 || k >= items.len() {
        Ok(Seq::empty())
    } else {
        match snapshot_of(items[k]) {
            Err(m) => Err(m),
            Ok(s) => prepend(seq![s], snapshots_from(items, k + 1)),
        }
    }
}

/// Every snapshot a `_snapshots.json` holds, oldest first, or what is wrong with it.
pub open spec fn snapshots_of(text: Seq<u8>) -> Result<Seq<SnapshotV>, Seq<char>> {
    match json_of(text) {
        Err(m) => Err(snapshots_error(m)),
        Ok(j) => match list_of(j, "snapshots"@) {
            None => Err(snapshots_error("no "@ + "snapshots"@)),
            Some(items) => snapshots_from(items, 0),
        },
    }
}

proof fn lemma_prepend_push<T>(done: Seq<T>, x: T, r: Result<Seq<T>, Seq<char>>)
    ensures
        prepend(done, prepend(seq![x], r)) == prepend(done.push(x), r),
{
    if let Ok(rest) = r {
        assert(done + (seq![x] + rest) =~= done.push(x) + rest);
    }
}

fn missing_error(key: &str) -> (e: String)
    ensures
        e@ == snapshots_error("no "@ + key@),
{
    let mut e = "_snapshots.json: ".to_owned();
    let mut w = "no ".to_owned();
    w.append(key);
    e.append(w.as_str());
    e
}

/// A member of `v` as text, or the message that it is missing.
fn text_member(v: &Json, key: &str) -> (r: Result<String, String>)
    ensures
        match text_field(json_view(*v), key@) {
            Ok(t) => r matches Ok(x) && x@ == t,
            Err(m) => r matches Err(x) && x@ == m,
        },
{
    match v.get(key) {
        Some(j) => match j.as_str() {
            Some(t) => Ok(t.to_owned()),
            None => Err(missing_error(key)),
        },
        None => Err(missing_error(key)),
    }
}

/// A member of `v` as an `i64`, or the message that it is missing.
fn int_member(v: &Json, key: &str) -> (r: Result<i64, String>)
    ensures
        match int_field(json_view(*v), key@) {
            Ok(x) => r == Ok::<i64, String>(x),
            Err(m) => r matches Err(x) && x@ == m,
        },
{
    match v.get(key) {
        Some(j) => match j.as_i64() {
            Some(x) => Ok(x),
            None => Err(missing_error(key)),
        },
        None => Err(missing_error(key)),
    }
}

/// A list member of `v`, or no items where it is missing.
fn list_member<'a>(v: &'a Json, key: &str, empty: &'a Vec<Json>) -> (r: &'a Vec<Json>)
    requires
        empty@.len() == 0,
    ensures
        jsons_view(r@) == list_or_empty(json_view(*v), key@),
{
    match v.get(key) {
        Some(j) => match j.as_array() {
            Some(items) => items,
            None => {
                assert(jsons_view(empty@) =~= Seq::<JsonV>::empty());
                empty
            },
        },
        None => {
            assert(jsons_view(empty@) =~= Seq::<JsonV>::empty());
            empty
        },
    }
}

fn no_range_error() -> (e: String)
    ensures
        e@ == snapshots_error("a data file with no order_id range"@),
{
    let mut e = "_snapshots.json: ".to_owned();
    e.append("a data file with no order_id range");
    e
}

/// Bound `i` of a data file's key range.
fn bound(range: &Vec<Json>, i: usize) -> (r: Result<i64, String>)
    ensures
        match key_bound(jsons_view(range@), i as int) {
            Ok(x) => r == Ok::<i64, String>(x),
            Err(m) => r matches Err(x) && x@ == m,
        },
{
    proof {
        lemma_items_view(range@);
    }
    if i < range.len() {
        match range[i].as_i64() {
            Some(x) => Ok(x),
            None => Err(no_range_error()),
        }
    } else {
        Err(no_range_error())
    }
}

fn data_file(f: &Json) -> (r: Result<DataFile, String>)
    ensures
        match data_file_of(json_view(*f)) {
            Ok(d) => r matches Ok(x) && data_file_view(x) == d,
            Err(m) => r matches Err(x) && x@ == m,
        },
{
    let empty: Vec<Json> = Vec::new();
    let range = list_member(f, "order_id", &empty);
    let path = text_member(f, "path")?;
    let record_count = int_member(f, "record_count")?;
    let file_size = int_member(f, "file_size")? as u64;
    let min_key = bound(range, 0)?;
    let max_key = bound(range, 1)?;
    Ok(DataFile { path, record_count, file_size, min_key, max_key })
}

fn delete_file(f: &Json) -> (r: Result<DeleteFile, String>)
    ensures
        match delete_file_of(json_view(*f)) {
            Ok(d) => r matches Ok(x) && delete_file_view(x) == d,
            Err(m) => r matches Err(x) && x@ == m,
        },
{
    let path = text_member(f, "path")?;
    let record_count = int_member(f, "record_count")?;
    let file_size = int_member(f, "file_size")? as u64;
    let data_file = text_member(f, "data_file")?;
    Ok(DeleteFile { path, record_count, file_size, data_file })
}

fn data_files(items: &Vec<Json>) -> (r: Result<Vec<DataFile>, String>)
    ensures
        match data_files_from(jsons_view(items@), 0) {
            Ok(ds) => r matches Ok(x) && x@.map_values(|d: DataFile| data_file_view(d)) == ds,
            Err(m) => r matches Err(x) && x@ == m,
        },
{
    proof {
        lemma_items_view(items@);
    }
    let ghost vs = jsons_view(items@);
    let mut out: Vec<DataFile> = Vec::new();
    let mut k: usize = 0;
    assert(prepend(Seq::<DataFileV>::empty(), data_files_from(vs, 0)) == data_files_from(vs, 0)) by {
        if let Ok(rest) = data_files_from(vs, 0) {
            assert(Seq::<DataFileV>::empty() + rest =~= rest);
        }
    }
    while k < items.len()
        invariant
            k <= items@.len(),
            vs == jsons_view(items@),
            vs.len() == items@.len(),
            forall|m: int| 0 <= m < items@.len() ==> #[trigger] vs[m] == json_view(items@[m]),
            data_files_from(vs, 0) == prepend(
                out@.map_values(|d: DataFile| data_file_view(d)),
                data_files_from(vs, k as int),
            ),
        decreases items@.len() - k,
    {
        let d = match data_file(&items[k]) {
            Ok(d) => d,
            Err(m) => {
                assert(data_files_from(vs, k as int) == Err::<Seq<DataFileV>, Seq<char>>(m@));
                return Err(m);
            },
        };
        proof {
            let done = out@.map_values(|d: DataFile| data_file_view(d));
            lemma_prepend_push(done, data_file_view(d), data_files_from(vs, k + 1));
            assert(out@.push(d).map_values(|d: DataFile| data_file_view(d)) =~= done.push(
                data_file_view(d),
            ));
        }
        out.push(d);
        k = k + 1;
    }
    proof {
        let done = out@.map_values(|d: DataFile| data_file_view(d));
        assert(done + Seq::<DataFileV>::empty() =~= done);
    }
    Ok(out)
}

fn delete_files(items: &Vec<Json>) -> (r: Result<Vec<DeleteFile>, String>)
    ensures
        match delete_files_from(jsons_view(items@), 0) {
            Ok(ds) => r matches Ok(x) && x@.map_values(|d: DeleteFile| delete_file_view(d)) == ds,
            Err(m) => r matches Err(x) && x@ == m,
        },
{
    proof {
        lemma_items_view(items@);
    }
    let ghost vs = jsons_view(items@);
    let mut out: Vec<DeleteFile> = Vec::new();
    let mut k: usize = 0;
    assert(prepend(Seq::<DeleteFileV>::empty(), delete_files_from(vs, 0)) == delete_files_from(vs, 0)) by {
        if let Ok(rest) = delete_files_from(vs, 0) {
            assert(Seq::<DeleteFileV>::empty() + rest =~= rest);
        }
    }
    while k < items.len()
        invariant
            k <= items@.len(),
            vs == jsons_view(items@),
            vs.len() == items@.len(),
            forall|m: int| 0 <= m < items@.len() ==> #[trigger] vs[m] == json_view(items@[m]),
            delete_files_from(vs, 0) == prepend(
                out@.map_values(|d: DeleteFile| delete_file_view(d)),
                delete_files_from(vs, k as int),
            ),
        decreases items@.len() - k,
    {
        let d = match delete_file(&items[k]) {
            Ok(d) => d,
            Err(m) => {
                assert(delete_files_from(vs, k as int) == Err::<Seq<DeleteFileV>, Seq<char>>(m@));
                return Err(m);
            },
        };
        proof {
            let done = out@.map_values(|d: DeleteFile| delete_file_view(d));
            lemma_prepend_push(done, delete_file_view(d), delete_files_from(vs, k + 1));
            assert(out@.push(d).map_values(|d: DeleteFile| delete_file_view(d)) =~= done.push(
                delete_file_view(d),
            ));
        }
        out.push(d);
        k = k + 1;
    }
    proof {
        let done = out@.map_values(|d: DeleteFile| delete_file_view(d));
        assert(done + Seq::<DeleteFileV>::empty() =~= done);
    }
    Ok(out)
}

fn snapshot(s: &Json) -> (r: Result<Snapshot, String>)
    ensures
        match snapshot_of(json_view(*s)) {
            Ok(v) => r matches Ok(x) && snapshot_view(x) == v,
            Err(m) => r matches Err(x) && x@ == m,
        },
{
    let empty: Vec<Json> = Vec::new();
    let data_files = data_files(list_member(s, "data_files", &empty))?;
    let delete_files = delete_files(list_member(s, "delete_files", &empty))?;
    let id = text_member(s, "id")?;
    let summary = text_member(s, "summary")?;
    Ok(Snapshot { id, summary, data_files, delete_files })
}

/// Every snapshot in a `_snapshots.json`, oldest first.
pub fn read_snapshots(text: &str) -> (r: Result<Vec<Snapshot>, String>)
    ensures
        match snapshots_of(encode_utf8(text@)) {
            Ok(ss) => r matches Ok(x) && x@.map_values(|s: Snapshot| snapshot_view(s)) == ss,
            Err(m) => r matches Err(x) && x@ == m,
        },
{
    let bytes = text.as_bytes();
    proof {
        encode_utf8_decode_utf8(text@);
        assert(bytes@ == encode_utf8(text@));
    }
    let j = match parse_json(bytes) {
        Ok(j) => j,
        Err(e) => {
            let mut m = "_snapshots.json: ".to_owned();
            m.append(e.as_str());
            return Err(m);
        },
    };
    let items = match j.get("snapshots") {
        Some(v) => match v.as_array() {
            Some(items) => items,
            None => return Err(missing_error("snapshots")),
        },
        None => return Err(missing_error("snapshots")),
    };
    proof {
        lemma_items_view(items@);
    }
    let ghost vs = jsons_view(items@);
    let mut out: Vec<Snapshot> = Vec::new();
    let mut k: usize = 0;
    assert(prepend(Seq::<SnapshotV>::empty(), snapshots_from(vs, 0)) == snapshots_from(vs, 0)) by {
        if let Ok(rest) = snapshots_from(vs, 0) {
            assert(Seq::<SnapshotV>::empty() + rest =~= rest);
        }
    }
    while k < items.len()
        invariant
            k <= items@.len(),
            vs == jsons_view(items@),
            vs.len() == items@.len(),
            forall|m: int| 0 <= m < items@.len() ==> #[trigger] vs[m] == json_view(items@[m]),
            snapshots_from(vs, 0) == prepend(
                out@.map_values(|s: Snapshot| snapshot_view(s)),
                snapshots_from(vs, k as int),
            ),
            snapshots_of(encode_utf8(text@)) == snapshots_from(vs, 0),
        decreases items@.len() - k,
    {
        let s = match snapshot(&items[k]) {
            Ok(s) => s,
            Err(m) => {
                assert(snapshots_from(vs, k as int) == Err::<Seq<SnapshotV>, Seq<char>>(m@));
                return Err(m);
            },
        };
        proof {
            let done = out@.map_values(|s: Snapshot| snapshot_view(s));
            lemma_prepend_push(done, snapshot_view(s), snapshots_from(vs, k + 1));
            assert(out@.push(s).map_values(|s: Snapshot| snapshot_view(s)) =~= done.push(
                snapshot_view(s),
            ));
        }
        out.push(s);
        k = k + 1;
    }
    proof {
        let done = out@.map_values(|s: Snapshot| snapshot_view(s));
        assert(done + Seq::<SnapshotV>::empty() =~= done);
    }
    Ok(out)
}

} // verus!
