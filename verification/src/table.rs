//! Tables: many Parquet files, and the directory names that say what is in them.
//!
//! A Hive-style table puts each partition in a directory named `column=value`, so a file's path
//! carries values of the partition columns that no file stores.

use vstd::prelude::*;
use vstd::utf8::{encode_utf8, encode_utf8_decode_utf8};

use crate::json::{
    as_i64_of, as_str_of, as_u64_of, copy_json, get_of, int_of, json_of, json_view, jsons_view,
    lemma_items_view, lemma_members_view, list_of, pairs_view, parse_json, text_of, Json, JsonV,
};
use crate::metadata::strings_view;
use crate::text::{dec, lossy_text, push_char, push_u64, str_eq, utf8_lossy};

verus! {

/// How a reader finds a table's files.
#[derive(Clone, Copy, Debug, PartialEq, Eq, Structural)]
pub enum Discovery {
    /// `LIST`, and read every file.
    List,
    /// `LIST`, and rule out files by the partition values in their paths.
    ListAndPrune,
    /// Read the log, and rule out files by partition values and by the statistics it records.
    Log,
}

/// The pieces of `b` between the separators, empty ones included: as many as the separators,
/// plus one.
pub open spec fn pieces(b: Seq<u8>, sep: u8) -> Seq<Seq<u8>>
    decreases b.len(),
{
    if b.len() == 0 {
        seq![Seq::empty()]
    } else {
        let s = pieces(b.drop_last(), sep);
        if b.last() == sep {
            s.push(Seq::empty())
        } else {
            s.update(s.len() - 1, s.last().push(b.last()))
        }
    }
}

proof fn lemma_pieces_nonempty(b: Seq<u8>, sep: u8)
    ensures
        pieces(b, sep).len() >= 1,
    decreases b.len(),
{
    if b.len() > 0 {
        lemma_pieces_nonempty(b.drop_last(), sep);
    }
}

/// The position of the first `c` in `b`.
pub open spec fn first_at(b: Seq<u8>, c: u8) -> Option<int>
    decreases b.len(),
{
    if b.len() == 0 {
        None
    } else if b[0] == c {
        Some(0)
    } else {
        match first_at(b.drop_first(), c) {
            Some(i) => Some(i + 1),
            None => None,
        }
    }
}

pub open spec fn is_hex_digit(b: u8) -> bool {
    (48 <= b <= 57) || (97 <= b <= 102) || (65 <= b <= 70)
}

pub open spec fn hex_value(b: u8) -> int {
    if 48 <= b <= 57 {
        b - 48
    } else if 97 <= b <= 102 {
        b - 87
    } else {
        b - 55
    }
}

/// `b` from position `i` with each `%` and two hexadecimal digits replaced by the byte they
/// name.
pub open spec fn unescaped(b: Seq<u8>, i: int) -> Seq<u8>
    decreases b.len() - i,
{
    if i < 0 || i >= b.len() {
        Seq::empty()
    } else if b[i] == 37 && i + 3 <= b.len() && is_hex_digit(b[i + 1]) && is_hex_digit(b[i + 2]) {
        seq![(hex_value(b[i + 1]) * 16 + hex_value(b[i + 2])) as u8] + unescaped(b, i + 3)
    } else {
        seq![b[i]] + unescaped(b, i + 1)
    }
}

/// A percent-encoded name or value, decoded.
pub open spec fn unescape_text(b: Seq<u8>) -> Seq<char> {
    lossy_text(unescaped(b, 0))
}

fn hex_of(b: u8) -> (v: u8)
    requires
        is_hex_digit(b),
    ensures
        v == hex_value(b),
{
    if 48 <= b && b <= 57 {
        b - 48
    } else if 97 <= b && b <= 102 {
        b - 87
    } else {
        b - 55
    }
}

fn unescape(b: &[u8]) -> (s: String)
    ensures
        s@ == unescape_text(b@),
{
    let mut out: Vec<u8> = Vec::new();
    let mut i: usize = 0;
    let n = b.len();
    while i < n
        invariant
            n == b@.len(),
            i <= n,
            unescaped(b@, 0) == out@ + unescaped(b@, i as int),
        decreases n - i,
    {
        let c = b[i];
        if c == 37 && n - i >= 3 && (48 <= b[i + 1] && b[i + 1] <= 57 || 97 <= b[i + 1] && b[i + 1]
            <= 102 || 65 <= b[i + 1] && b[i + 1] <= 70) && (48 <= b[i + 2] && b[i + 2] <= 57 || 97
            <= b[i + 2] && b[i + 2] <= 102 || 65 <= b[i + 2] && b[i + 2] <= 70) {
            let v = hex_of(b[i + 1]) * 16 + hex_of(b[i + 2]);
            let ghost before = out@;
            out.push(v);
            assert(out@ + unescaped(b@, i + 3) =~= before + unescaped(b@, i as int));
            i = i + 3;
        } else {
            let ghost before = out@;
            out.push(c);
            assert(out@ + unescaped(b@, i + 1) =~= before + unescaped(b@, i as int));
            i = i + 1;
        }
    }
    assert(out@ =~= out@ + unescaped(b@, i as int));
    utf8_lossy(out.as_slice())
}

/// A directory's partition name and value: what comes before and after its first `=`.
pub open spec fn partition_of(dir: Seq<u8>) -> Option<(Seq<char>, Seq<char>)> {
    match first_at(dir, 61) {
        Some(i) => Some((unescape_text(dir.take(i)), unescape_text(dir.skip(i + 1)))),
        None => None,
    }
}

/// The partitions named by the directories of a path, in order.
pub open spec fn partitions_in(dirs: Seq<Seq<u8>>) -> Seq<(Seq<char>, Seq<char>)>
    decreases dirs.len(),
{
    if dirs.len() == 0 {
        Seq::empty()
    } else {
        match partition_of(dirs.last()) {
            Some(p) => partitions_in(dirs.drop_last()).push(p),
            None => partitions_in(dirs.drop_last()),
        }
    }
}

/// The partition values of a path: every `name=value` directory, that is every piece before the
/// last `/`.
pub open spec fn partition_values_of(path: Seq<char>) -> Seq<(Seq<char>, Seq<char>)> {
    let dirs = pieces(encode_utf8(path), 47);
    partitions_in(dirs.drop_last())
}

proof fn lemma_first_at(b: Seq<u8>, c: u8, k: int)
    requires
        0 <= k <= b.len(),
        forall|t: int| 0 <= t < k ==> b[t] != c,
        k < b.len() ==> b[k] == c,
    ensures
        first_at(b, c) == if k < b.len() {
            Some(k)
        } else {
            None::<int>
        },
    decreases b.len(),
{
    if b.len() > 0 && k > 0 {
        lemma_first_at(b.drop_first(), c, k - 1);
    }
}

fn partition_dir(b: &[u8], start: usize, end: usize) -> (r: Option<(String, String)>)
    requires
        start <= end <= b@.len(),
    ensures
        match partition_of(b@.subrange(start as int, end as int)) {
            Some((k, v)) => r matches Some(p) && p.0@ == k && p.1@ == v,
            None => r is None,
        },
{
    let ghost dir = b@.subrange(start as int, end as int);
    let mut j: usize = start;
    while j < end && b[j] != 61
        invariant
            start <= j <= end <= b@.len(),
            dir == b@.subrange(start as int, end as int),
            forall|t: int| 0 <= t < j - start ==> dir[t] != 61,
        decreases end - j,
    {
        j = j + 1;
    }
    proof {
        lemma_first_at(dir, 61, j - start);
    }
    if j == end {
        return None;
    }
    let key = unescape(vstd::slice::slice_subrange(b, start, j));
    let value = unescape(vstd::slice::slice_subrange(b, j + 1, end));
    proof {
        assert(b@.subrange(start as int, j as int) =~= dir.take(j - start));
        assert(b@.subrange(j + 1, end as int) =~= dir.skip(j - start + 1));
    }
    Some((key, value))
}

/// The partition values in a Hive-style path: every `name=value` directory, in order. Values
/// are percent-encoded when they hold characters a path cannot, such as `/` or `=`.
pub fn partition_values(path: &str) -> (r: Vec<(String, String)>)
    ensures
        r@.len() == partition_values_of(path@).len(),
        forall|i: int|
            0 <= i < r@.len() ==> (#[trigger] r@[i]).0@ == partition_values_of(path@)[i].0
                && r@[i].1@ == partition_values_of(path@)[i].1,
{
    let b = path.as_bytes();
    let ghost bs = b@;
    let mut out: Vec<(String, String)> = Vec::new();
    let ghost mut done: Seq<Seq<u8>> = Seq::empty();
    let mut start: usize = 0;
    let mut i: usize = 0;
    let n = b.len();
    proof {
        assert(bs.take(0) =~= Seq::<u8>::empty());
        assert(bs.subrange(0, 0) =~= Seq::<u8>::empty());
        assert(pieces(bs.take(0), 47) =~= done + seq![bs.subrange(0, 0)]);
    }
    while i < n
        invariant
            bs == b@,
            n == bs.len(),
            start <= i <= n,
            pieces(bs.take(i as int), 47) == done + seq![bs.subrange(start as int, i as int)],
            out@.len() == partitions_in(done).len(),
            forall|t: int|
                0 <= t < out@.len() ==> (#[trigger] out@[t]).0@ == partitions_in(done)[t].0
                    && out@[t].1@ == partitions_in(done)[t].1,
        decreases n - i,
    {
        proof {
            assert(bs.take(i + 1).drop_last() =~= bs.take(i as int));
            assert(bs.take(i + 1).last() == bs[i as int]);
        }
        if b[i] == 47 {
            let ghost cur = bs.subrange(start as int, i as int);
            match partition_dir(b, start, i) {
                Some(p) => {
                    out.push(p);
                },
                None => {},
            }
            proof {
                assert((done + seq![cur]).drop_last() =~= done);
                assert((done + seq![cur]).last() == cur);
                done = done + seq![cur];
                assert(bs.subrange(i + 1, i + 1) =~= Seq::<u8>::empty());
                assert(pieces(bs.take(i + 1), 47) =~= done + seq![bs.subrange(i + 1, i + 1)]);
            }
            start = i + 1;
        } else {
            proof {
                let s0 = pieces(bs.take(i as int), 47);
                assert(s0.last() == bs.subrange(start as int, i as int));
                assert(bs.subrange(start as int, i as int).push(bs[i as int]) =~= bs.subrange(
                    start as int,
                    i + 1,
                ));
                assert(s0.update(s0.len() - 1, s0.last().push(bs[i as int])) =~= done + seq![
                    bs.subrange(start as int, i + 1),
                ]);
            }
        }
        i = i + 1;
    }
    proof {
        assert(bs.take(n as int) =~= bs);
        assert((done + seq![bs.subrange(start as int, n as int)]).drop_last() =~= done);
    }
    out
}


// ---- Reading the table's log -----------------------------------------------------------------

/// A file's statistics as a log records them: values as JSON, by column.
#[derive(Debug, PartialEq)]
pub struct FileStats {
    pub num_records: i64,
    pub min: Vec<(String, Json)>,
    pub max: Vec<(String, Json)>,
    pub null_count: Vec<(String, i64)>,
}

/// One file of the table, and what a plan decided about it.
#[derive(Debug, PartialEq)]
pub struct TableFile {
    pub key: String,
    pub partition: Vec<(String, String)>,
    pub size: u64,
    pub stats: Option<FileStats>,
    pub read: bool,
    pub why: String,
}

/// Statistics as values.
pub struct FileStatsV {
    pub num_records: i64,
    pub min: Seq<(Seq<char>, JsonV)>,
    pub max: Seq<(Seq<char>, JsonV)>,
    pub null_count: Seq<(Seq<char>, i64)>,
}

/// A table file as values.
pub struct TableFileV {
    pub key: Seq<char>,
    pub partition: Seq<(Seq<char>, Seq<char>)>,
    pub size: u64,
    pub stats: Option<FileStatsV>,
    pub read: bool,
    pub why: Seq<char>,
}

pub open spec fn stats_view(s: FileStats) -> FileStatsV {
    FileStatsV {
        num_records: s.num_records,
        min: pairs_view(s.min@),
        max: pairs_view(s.max@),
        null_count: s.null_count@.map_values(|p: (String, i64)| (p.0@, p.1)),
    }
}

pub open spec fn table_file_view(f: TableFile) -> TableFileV {
    TableFileV {
        key: f.key@,
        partition: f.partition@.map_values(|p: (String, String)| (p.0@, p.1@)),
        size: f.size,
        stats: match f.stats {
            Some(s) => Some(stats_view(s)),
            None => None,
        },
        read: f.read,
        why: f.why@,
    }
}

pub open spec fn table_files_view(fs: Seq<TableFile>) -> Seq<TableFileV> {
    fs.map_values(|f: TableFile| table_file_view(f))
}

/// Whether `c` is white space as Unicode's `White_Space` property has it, the whitespace
/// `str::trim` removes.
pub open spec fn is_white_space(c: char) -> bool {
    ('\t' <= c <= '\r') || c == ' ' || c == '\u{85}' || c == '\u{A0}' || c == '\u{1680}' || (
    '\u{2000}' <= c <= '\u{200A}') || c == '\u{2028}' || c == '\u{2029}' || c == '\u{202F}' || c
        == '\u{205F}' || c == '\u{3000}'
}

/// A line that holds nothing but white space.
pub open spec fn blank(line: Seq<char>) -> bool {
    forall|k: int| 0 <= k < line.len() ==> is_white_space(#[trigger] line[k])
}

/// Where the line that starts at `i` ends: at the next line feed, or at the end.
pub open spec fn line_end(t: Seq<char>, i: int) -> int
    decreases t.len() - i,
{
    if i < 0 || i >= t.len() {
        t.len() as int
    } else if t[i] == '\n' {
        i
    } else {
        line_end(t, i + 1)
    }
}

/// A line ends at or after where it starts, at a line feed or at the end.
pub proof fn lemma_line_end(t: Seq<char>, i: int)
    requires
        0 <= i <= t.len(),
    ensures
        i <= line_end(t, i) <= t.len(),
        line_end(t, i) < t.len() ==> t[line_end(t, i)] == '\n',
    decreases t.len() - i,
{
    if i < t.len() && t[i] != '\n' {
        lemma_line_end(t, i + 1);
    }
}

/// The lines of `t` from position `i`, as `str::lines` gives them: split at each line feed,
/// without it, and without a carriage return just before it; a final line feed starts no line.
pub open spec fn lines_from(t: Seq<char>, i: int) -> Seq<Seq<char>>
    decreases t.len() - i,
{
    if i < 0 || i >= t.len() {
        Seq::empty()
    } else {
        let e = line_end(t, i);
        proof {
            lemma_line_end(t, i);
        }
        let raw = t.subrange(i, e);
        let line = if e < t.len() && raw.len() > 0 && raw.last() == '\r' {
            raw.drop_last()
        } else {
            raw
        };
        if e >= t.len() {
            seq![line]
        } else {
            seq![line] + lines_from(t, e + 1)
        }
    }
}

/// The name of each field of a schema that has one.
pub open spec fn field_names(fields: Seq<JsonV>) -> Seq<Seq<char>>
    decreases fields.len(),
{
    if fields.len() == 0 {
        Seq::empty()
    } else {
        let rest = field_names(fields.drop_last());
        match text_of(fields.last(), "name"@) {
            Some(n) => rest.push(n),
            None => rest,
        }
    }
}

/// The columns a schema names.
pub open spec fn schema_columns(schema: JsonV) -> Seq<Seq<char>> {
    match list_of(schema, "fields"@) {
        Some(fields) => field_names(fields),
        None => Seq::empty(),
    }
}

/// The files but those whose key is `key`.
pub open spec fn without_key(files: Seq<TableFileV>, key: Seq<char>) -> Seq<TableFileV>
    decreases files.len(),
{
    if files.len() == 0 {
        Seq::empty()
    } else {
        let rest = without_key(files.drop_last(), key);
        if files.last().key == key {
            rest
        } else {
            rest.push(files.last())
        }
    }
}

/// The members of an object member of `v`, or none where it is not an object.
pub open spec fn members_of(v: JsonV, key: Seq<char>) -> Seq<(Seq<char>, JsonV)> {
    match get_of(v, key) {
        Some(JsonV::Obj(kv)) => kv,
        _ => Seq::empty(),
    }
}

/// A file's statistics, from the JSON a log stores them as.
pub open spec fn stats_of(s: JsonV) -> FileStatsV {
    FileStatsV {
        num_records: match int_of(s, "numRecords"@) {
            Some(n) => n,
            None => 0,
        },
        min: members_of(s, "minValues"@),
        max: members_of(s, "maxValues"@),
        null_count: members_of(s, "nullCount"@).map_values(
            |p: (Seq<char>, JsonV)|
                (
                    p.0,
                    match as_i64_of(p.1) {
                        Some(n) => n,
                        None => 0,
                    },
                ),
        ),
    }
}

/// The file an `add` action adds, where it names a path.
pub open spec fn added_file(add: JsonV) -> Option<TableFileV> {
    match text_of(add, "path"@) {
        None => None,
        Some(key) => Some(
            TableFileV {
                key,
                partition: members_of(add, "partitionValues"@).map_values(
                    |p: (Seq<char>, JsonV)|
                        (
                            p.0,
                            match as_str_of(p.1) {
                                Some(t) => t,
                                None => Seq::empty(),
                            },
                        ),
                ),
                size: match get_of(add, "size"@) {
                    Some(v) => match as_u64_of(v) {
                        Some(n) => n,
                        None => 0,
                    },
                    None => 0,
                },
                stats: match text_of(add, "stats"@) {
                    Some(t) => match json_of(encode_utf8(t)) {
                        Ok(s) => Some(stats_of(s)),
                        Err(_) => None,
                    },
                    None => None,
                },
                read: true,
                why: Seq::empty(),
            },
        ),
    }
}

/// The message for line `n` (counted from 0) of the log.
pub open spec fn log_line_error(n: nat, what: Seq<char>) -> Seq<char> {
    "log line "@ + dec(n + 1) + ": "@ + what
}

/// What one action, line `n` of the log, makes of the files and columns read so far.
pub open spec fn log_step(files: Seq<TableFileV>, columns: Seq<Seq<char>>, line: Seq<char>, n: nat) -> Result<
    (Seq<TableFileV>, Seq<Seq<char>>),
    Seq<char>,
> {
    match json_of(encode_utf8(line)) {
        Err(e) => Err(log_line_error(n, e)),
        Ok(action) => {
            let columns1 = match get_of(action, "metaData"@) {
                Some(meta) => {
                    let text = match text_of(meta, "schemaString"@) {
                        Some(t) => t,
                        None => "{}"@,
                    };
                    match json_of(encode_utf8(text)) {
                        Err(e) => Err("the log's schema: "@ + e),
                        Ok(schema) => Ok(schema_columns(schema)),
                    }
                },
                None => Ok(columns),
            };
            match columns1 {
                Err(m) => Err(m),
                Ok(cols) => {
                    let files1 = match get_of(action, "remove"@) {
                        Some(remove) => without_key(
                            files,
                            match text_of(remove, "path"@) {
                                Some(p) => p,
                                None => Seq::empty(),
                            },
                        ),
                        None => files,
                    };
                    match get_of(action, "add"@) {
                        None => Ok((files1, cols)),
                        Some(add) => match added_file(add) {
                            None => Err(log_line_error(n, "an add with no path"@)),
                            Some(f) => Ok((files1.push(f), cols)),
                        },
                    }
                },
            }
        },
    }
}

/// The log's lines from `k` on, read after the files and columns read so far.
pub open spec fn log_from(
    lines: Seq<Seq<char>>,
    k: int,
    files: Seq<TableFileV>,
    columns: Seq<Seq<char>>,
) -> Result<(Seq<TableFileV>, Seq<Seq<char>>), Seq<char>>
    decreases lines.len() - k,
{
    if k < 0 || k >= lines.len() {
        Ok((files, columns))
    } else if blank(lines[k]) {
        log_from(lines, k + 1, files, columns)
    } else {
        match log_step(files, columns, lines[k], k as nat) {
            Err(m) => Err(m),
            Ok((f2, c2)) => log_from(lines, k + 1, f2, c2),
        }
    }
}

/// The files a log says the table holds, and the table's columns from its schema.
pub open spec fn log_of(text: Seq<char>) -> Result<(Seq<TableFileV>, Seq<Seq<char>>), Seq<char>> {
    log_from(lines_from(text, 0), 0, Seq::empty(), Seq::empty())
}

/// A `remove` undoes an `add`: after removing `key`, no file has it, the other files stay in
/// their order, and a file added and then removed leaves the files as they were.
pub proof fn lemma_remove_undoes_add(files: Seq<TableFileV>, key: Seq<char>, f: TableFileV)
    ensures
        forall|i: int|
            0 <= i < without_key(files, key).len() ==> (#[trigger] without_key(files, key)[i]).key
                != key,
        (forall|i: int| 0 <= i < files.len() ==> (#[trigger] files[i]).key != key) ==> without_key(
            files,
            key,
        ) == files,
        without_key(files.push(f), f.key) == without_key(files, f.key),
    decreases files.len(),
{
    assert(files.push(f).drop_last() =~= files);
    if files.len() > 0 {
        lemma_remove_undoes_add(files.drop_last(), key, f);
        let rest = without_key(files.drop_last(), key);
        assert forall|i: int| 0 <= i < without_key(files, key).len() implies (
        #[trigger] without_key(files, key)[i]).key != key by {
            if files.last().key != key && i == rest.len() {
                assert(without_key(files, key)[i] == files.last());
            } else {
                assert(without_key(files, key)[i] == rest[i]);
            }
        }
        if forall|i: int| 0 <= i < files.len() ==> (#[trigger] files[i]).key != key {
            assert forall|i: int| 0 <= i < files.drop_last().len() implies (
            #[trigger] files.drop_last()[i]).key != key by {
                assert(files.drop_last()[i] == files[i]);
            }
            assert(files.last() == files[files.len() - 1]);
            assert(files.drop_last().push(files.last()) =~= files);
        }
    } else {
        assert(without_key(files, key) =~= files);
    }
}


/// The characters of `text` from position `a` to `b`, as a string.
fn chars_between(text: &str, a: usize, b: usize) -> (s: String)
    requires
        a <= b <= text@.len(),
    ensures
        s@ == text@.subrange(a as int, b as int),
{
    let mut s = String::new();
    let mut k = a;
    while k < b
        invariant
            a <= k <= b <= text@.len(),
            s@ == text@.subrange(a as int, k as int),
        decreases b - k,
    {
        let c = text.get_char(k);
        push_char(&mut s, c);
        k = k + 1;
        assert(s@ =~= text@.subrange(a as int, k as int));
    }
    s
}

/// The lines of `text`, as `str::lines` gives them.
fn split_lines(text: &str) -> (lines: Vec<String>)
    ensures
        strings_view(lines@) == lines_from(text@, 0),
{
    let ghost t = text@;
    let n = text.unicode_len();
    let mut lines: Vec<String> = Vec::new();
    let mut start: usize = 0;
    let mut i: usize = 0;
    assert(strings_view(lines@) + lines_from(t, 0) =~= lines_from(t, 0));
    while i < n
        invariant
            t == text@,
            n == t.len(),
            start <= i <= n,
            line_end(t, start as int) == line_end(t, i as int),
            lines_from(t, 0) == strings_view(lines@) + lines_from(t, start as int),
        decreases n - i,
    {
        let c = text.get_char(i);
        if c == '\n' {
            proof {
                lemma_line_end(t, start as int);
            }
            let end = if i > start && text.get_char(i - 1) == '\r' {
                i - 1
            } else {
                i
            };
            let line = chars_between(text, start, end);
            proof {
                let raw = t.subrange(start as int, i as int);
                assert(line_end(t, start as int) == i);
                if i > start && t[i - 1] == '\r' {
                    assert(raw.drop_last() =~= t.subrange(start as int, i - 1));
                }
                assert(strings_view(lines@.push(line)) =~= strings_view(lines@).push(line@));
                assert(strings_view(lines@) + lines_from(t, start as int) =~= strings_view(
                    lines@.push(line),
                ) + lines_from(t, i + 1));
            }
            lines.push(line);
            start = i + 1;
        }
        i = i + 1;
    }
    if start < n {
        let line = chars_between(text, start, n);
        proof {
            lemma_line_end(t, start as int);
            assert(strings_view(lines@.push(line)) =~= strings_view(lines@).push(line@));
            assert(strings_view(lines@) + lines_from(t, start as int) =~= strings_view(
                lines@.push(line),
            ));
        }
        lines.push(line);
    } else {
        assert(strings_view(lines@) + lines_from(t, start as int) =~= strings_view(lines@));
    }
    lines
}

/// Whether a line holds nothing but white space.
fn is_blank(line: &str) -> (b: bool)
    ensures
        b == blank(line@),
{
    let n = line.unicode_len();
    let mut k: usize = 0;
    while k < n
        invariant
            n == line@.len(),
            k <= n,
            forall|m: int| 0 <= m < k ==> is_white_space(#[trigger] line@[m]),
        decreases n - k,
    {
        let c = line.get_char(k);
        let ws = ('\t' <= c && c <= '\r') || c == ' ' || c == '\u{85}' || c == '\u{A0}' || c
            == '\u{1680}' || ('\u{2000}' <= c && c <= '\u{200A}') || c == '\u{2028}' || c
            == '\u{2029}' || c == '\u{202F}' || c == '\u{205F}' || c == '\u{3000}';
        if !ws {
            return false;
        }
        k = k + 1;
    }
    true
}

/// The members of an object member of `v`, copied.
fn copy_members(v: &Json, key: &str) -> (r: Vec<(String, Json)>)
    ensures
        pairs_view(r@) == members_of(json_view(*v), key@),
{
    let mut out: Vec<(String, Json)> = Vec::new();
    match v.get(key) {
        Some(Json::Obj(kv)) => {
            proof {
                lemma_members_view(kv@);
            }
            let mut k: usize = 0;
            while k < kv.len()
                invariant
                    k <= kv@.len(),
                    pairs_view(out@) =~= pairs_view(kv@).take(k as int),
                    pairs_view(kv@).len() == kv@.len(),
                    forall|m: int|
                        0 <= m < kv@.len() ==> #[trigger] pairs_view(kv@)[m] == (
                            kv@[m].0@,
                            json_view(kv@[m].1),
                        ),
                decreases kv@.len() - k,
            {
                let name = kv[k].0.clone();
                let value = copy_json(&kv[k].1);
                proof {
                    lemma_members_view(out@.push((name, value)));
                    lemma_members_view(out@);
                    assert(pairs_view(out@.push((name, value))) =~= pairs_view(kv@).take(k + 1));
                }
                out.push((name, value));
                k = k + 1;
            }
            assert(pairs_view(kv@).take(kv@.len() as int) =~= pairs_view(kv@));
        },
        _ => {
            assert(pairs_view(out@) =~= Seq::<(Seq<char>, JsonV)>::empty());
        },
    }
    out
}

/// Each member of an object member of `v`, with its value as an `i64`, 0 where it is not one.
fn counts_of(v: &Json, key: &str) -> (r: Vec<(String, i64)>)
    ensures
        r@.map_values(|p: (String, i64)| (p.0@, p.1)) == members_of(json_view(*v), key@).map_values(
            |p: (Seq<char>, JsonV)|
                (
                    p.0,
                    match as_i64_of(p.1) {
                        Some(n) => n,
                        None => 0,
                    },
                ),
        ),
{
    let mut out: Vec<(String, i64)> = Vec::new();
    let ghost want = members_of(json_view(*v), key@).map_values(
        |p: (Seq<char>, JsonV)|
            (
                p.0,
                match as_i64_of(p.1) {
                    Some(n) => n,
                    None => 0,
                },
            ),
    );
    match v.get(key) {
        Some(Json::Obj(kv)) => {
            proof {
                lemma_members_view(kv@);
            }
            let mut k: usize = 0;
            while k < kv.len()
                invariant
                    k <= kv@.len(),
                    want.len() == kv@.len(),
                    forall|m: int|
                        0 <= m < kv@.len() ==> #[trigger] want[m] == (
                            kv@[m].0@,
                            match as_i64_of(json_view(kv@[m].1)) {
                                Some(n) => n,
                                None => 0,
                            },
                        ),
                    out@.map_values(|p: (String, i64)| (p.0@, p.1)) =~= want.take(k as int),
                decreases kv@.len() - k,
            {
                let name = kv[k].0.clone();
                let n: i64 = match kv[k].1.as_i64() {
                    Some(n) => n,
                    None => 0,
                };
                proof {
                    assert(want[k as int] == (name@, n));
                    assert(out@.push((name, n)).map_values(|p: (String, i64)| (p.0@, p.1))
                        =~= out@.map_values(|p: (String, i64)| (p.0@, p.1)).push((name@, n)));
                    assert(want.take(k + 1) =~= want.take(k as int).push(want[k as int]));
                }
                out.push((name, n));
                k = k + 1;
            }
            assert(want.take(kv@.len() as int) =~= want);
        },
        _ => {
            assert(out@.map_values(|p: (String, i64)| (p.0@, p.1)) =~= want);
        },
    }
    out
}

/// Each member of an object member of `v`, with its value as text, empty where it is not.
fn texts_of(v: &Json, key: &str) -> (r: Vec<(String, String)>)
    ensures
        r@.map_values(|p: (String, String)| (p.0@, p.1@)) == members_of(json_view(*v), key@).map_values(
            |p: (Seq<char>, JsonV)|
                (
                    p.0,
                    match as_str_of(p.1) {
                        Some(t) => t,
                        None => Seq::empty(),
                    },
                ),
        ),
{
    let mut out: Vec<(String, String)> = Vec::new();
    let ghost want = members_of(json_view(*v), key@).map_values(
        |p: (Seq<char>, JsonV)|
            (
                p.0,
                match as_str_of(p.1) {
                    Some(t) => t,
                    None => Seq::empty(),
                },
            ),
    );
    match v.get(key) {
        Some(Json::Obj(kv)) => {
            proof {
                lemma_members_view(kv@);
            }
            let mut k: usize = 0;
            while k < kv.len()
                invariant
                    k <= kv@.len(),
                    want.len() == kv@.len(),
                    forall|m: int|
                        0 <= m < kv@.len() ==> #[trigger] want[m] == (
                            kv@[m].0@,
                            match as_str_of(json_view(kv@[m].1)) {
                                Some(t) => t,
                                None => Seq::empty(),
                            },
                        ),
                    out@.map_values(|p: (String, String)| (p.0@, p.1@)) =~= want.take(k as int),
                decreases kv@.len() - k,
            {
                let name = kv[k].0.clone();
                let text: String = match kv[k].1.as_str() {
                    Some(t) => t.to_owned(),
                    None => String::new(),
                };
                proof {
                    assert(want[k as int] == (name@, text@));
                    assert(out@.push((name, text)).map_values(|p: (String, String)| (p.0@, p.1@))
                        =~= out@.map_values(|p: (String, String)| (p.0@, p.1@)).push(
                        (name@, text@),
                    ));
                    assert(want.take(k + 1) =~= want.take(k as int).push(want[k as int]));
                }
                out.push((name, text));
                k = k + 1;
            }
            assert(want.take(kv@.len() as int) =~= want);
        },
        _ => {
            assert(out@.map_values(|p: (String, String)| (p.0@, p.1@)) =~= want);
        },
    }
    out
}

/// A file's statistics, from the JSON a log stores them as.
fn stats_from(s: &Json) -> (r: FileStats)
    ensures
        stats_view(r) == stats_of(json_view(*s)),
{
    let num_records: i64 = match s.get("numRecords") {
        Some(v) => match v.as_i64() {
            Some(n) => n,
            None => 0,
        },
        None => 0,
    };
    FileStats {
        num_records,
        min: copy_members(s, "minValues"),
        max: copy_members(s, "maxValues"),
        null_count: counts_of(s, "nullCount"),
    }
}

/// The file an `add` action adds, where it names a path.
fn added(add: &Json) -> (r: Option<TableFile>)
    ensures
        match added_file(json_view(*add)) {
            Some(f) => r matches Some(x) && table_file_view(x) == f,
            None => r is None,
        },
{
    let key = match add.get("path") {
        Some(v) => match v.as_str() {
            Some(t) => t.to_owned(),
            None => return None,
        },
        None => return None,
    };
    let partition = texts_of(add, "partitionValues");
    let size: u64 = match add.get("size") {
        Some(v) => match v.as_u64() {
            Some(n) => n,
            None => 0,
        },
        None => 0,
    };
    let stats = match add.get("stats") {
        Some(v) => match v.as_str() {
            Some(t) => {
                let bytes = t.as_bytes();
                proof {
                    encode_utf8_decode_utf8(t@);
                    assert(bytes@ == encode_utf8(t@));
                }
                match parse_json(bytes) {
                    Ok(j) => Some(stats_from(&j)),
                    Err(_) => None,
                }
            },
            None => None,
        },
        None => None,
    };
    Some(TableFile { key, partition, size, stats, read: true, why: String::new() })
}

/// The names of the fields a schema lists.
fn column_names(schema: &Json) -> (r: Vec<String>)
    ensures
        strings_view(r@) == schema_columns(json_view(*schema)),
{
    let mut out: Vec<String> = Vec::new();
    match schema.get("fields") {
        Some(v) => match v.as_array() {
            Some(fields) => {
                proof {
                    lemma_items_view(fields@);
                }
                let ghost fv = jsons_view(fields@);
                let mut k: usize = 0;
                assert(strings_view(out@) =~= field_names(fv.take(0)));
                while k < fields.len()
                    invariant
                        k <= fields@.len(),
                        fv == jsons_view(fields@),
                        fv.len() == fields@.len(),
                        forall|m: int| 0 <= m < fields@.len() ==> #[trigger] fv[m] == json_view(fields@[m]),
                        strings_view(out@) == field_names(fv.take(k as int)),
                    decreases fields@.len() - k,
                {
                    assert(fv.take(k + 1).drop_last() =~= fv.take(k as int));
                    assert(fv.take(k + 1).last() == fv[k as int]);
                    match fields[k].get("name") {
                        Some(n) => match n.as_str() {
                            Some(t) => {
                                let name = t.to_owned();
                                assert(strings_view(out@.push(name)) =~= strings_view(out@).push(
                                    name@,
                                ));
                                out.push(name);
                            },
                            None => {},
                        },
                        None => {},
                    }
                    k = k + 1;
                }
                assert(fv.take(fields@.len() as int) =~= fv);
            },
            None => {
                assert(strings_view(out@) =~= Seq::<Seq<char>>::empty());
            },
        },
        None => {
            assert(strings_view(out@) =~= Seq::<Seq<char>>::empty());
        },
    }
    out
}

/// The files but those whose key is `key`.
fn remove_key(files: &mut Vec<TableFile>, key: &str)
    ensures
        table_files_view(final(files)@) == without_key(table_files_view(old(files)@), key@),
{
    let ghost orig = table_files_view(files@);
    let mut k: usize = 0;
    let ghost mut j: int = 0;
    assert(orig.take(0) =~= Seq::<TableFileV>::empty());
    assert(table_files_view(files@).take(0) =~= without_key(orig.take(0), key@));
    assert(table_files_view(files@).skip(0) =~= orig.skip(0));
    while k < files.len()
        invariant
            0 <= j <= orig.len(),
            k <= files@.len(),
            table_files_view(files@).take(k as int) == without_key(orig.take(j), key@),
            table_files_view(files@).skip(k as int) == orig.skip(j),
            files@.len() - k == orig.len() - j,
        decreases files@.len() - k,
    {
        let ghost before = files@;
        proof {
            assert(table_files_view(before)[k as int] == orig[j]) by {
                assert(table_files_view(before).skip(k as int)[0] == orig.skip(j)[0]);
            }
            assert(orig.take(j + 1).drop_last() =~= orig.take(j));
            assert(orig.take(j + 1).last() == orig[j]);
        }
        if str_eq(files[k].key.as_str(), key) {
            files.remove(k);
            proof {
                assert(files@ == before.remove(k as int));
                assert(table_files_view(files@).take(k as int) =~= table_files_view(before).take(
                    k as int,
                ));
                assert(table_files_view(files@).skip(k as int) =~= table_files_view(before).skip(
                    k + 1,
                ));
                assert(table_files_view(before).skip(k + 1) =~= table_files_view(before).skip(
                    k as int,
                ).skip(1));
                assert(orig.skip(j).skip(1) =~= orig.skip(j + 1));
                j = j + 1;
            }
        } else {
            proof {
                assert(table_files_view(files@).take(k + 1) =~= table_files_view(before).take(
                    k as int,
                ).push(orig[j]));
                assert(table_files_view(files@).skip(k + 1) =~= table_files_view(files@).skip(
                    k as int,
                ).skip(1));
                assert(orig.skip(j).skip(1) =~= orig.skip(j + 1));
                j = j + 1;
            }
            k = k + 1;
        }
    }
    proof {
        assert(orig.take(j) =~= orig);
        assert(table_files_view(files@).take(k as int) =~= table_files_view(files@));
    }
}

/// Apply line `n` of the log, one action, to the files and columns read so far.
fn apply_action(files: &mut Vec<TableFile>, columns: &mut Vec<String>, line: &str, n: usize) -> (r:
    Result<(), String>)
    requires
        n < usize::MAX,
    ensures
        match log_step(table_files_view(old(files)@), strings_view(old(columns)@), line@, n as nat) {
            Ok((f, c)) => r is Ok && table_files_view(final(files)@) == f && strings_view(
                final(columns)@,
            ) == c,
            Err(m) => r matches Err(e) && e@ == m,
        },
{
    let bytes = line.as_bytes();
    proof {
        encode_utf8_decode_utf8(line@);
        assert(bytes@ == encode_utf8(line@));
    }
    let action = match parse_json(bytes) {
        Ok(a) => a,
        Err(e) => return Err(line_error(n, e.as_str())),
    };
    match action.get("metaData") {
        Some(meta) => {
            let text: &str = match meta.get("schemaString") {
                Some(v) => match v.as_str() {
                    Some(t) => t,
                    None => "{}",
                },
                None => "{}",
            };
            let sb = text.as_bytes();
            proof {
                encode_utf8_decode_utf8(text@);
                assert(sb@ == encode_utf8(text@));
            }
            let schema = match parse_json(sb) {
                Ok(s) => s,
                Err(e) => {
                    let mut m = "the log's schema: ".to_owned();
                    m.append(e.as_str());
                    return Err(m);
                },
            };
            *columns = column_names(&schema);
        },
        None => {},
    }
    match action.get("remove") {
        Some(remove) => {
            let path: &str = match remove.get("path") {
                Some(v) => match v.as_str() {
                    Some(t) => t,
                    None => "",
                },
                None => "",
            };
            proof {
                reveal_strlit("");
                assert(""@ =~= Seq::<char>::empty());
            }
            remove_key(files, path);
        },
        None => {},
    }
    match action.get("add") {
        None => Ok(()),
        Some(add) => match added(add) {
            None => Err(line_error(n, "an add with no path")),
            Some(f) => {
                proof {
                    assert(table_files_view(files@.push(f)) =~= table_files_view(files@).push(
                        table_file_view(f),
                    ));
                }
                files.push(f);
                Ok(())
            },
        },
    }
}

fn line_error(n: usize, what: &str) -> (m: String)
    requires
        n < usize::MAX,
    ensures
        m@ == log_line_error(n as nat, what@),
{
    let mut m = "log line ".to_owned();
    push_u64(&mut m, (n + 1) as u64);
    m.append(": ");
    m.append(what);
    m
}

/// The files a log says the table holds, with their partition values, sizes and statistics,
/// and the table's columns from its schema. Each line is one action; `remove` undoes an `add`.
pub fn read_log(text: &str) -> (r: Result<(Vec<TableFile>, Vec<String>), String>)
    ensures
        match log_of(text@) {
            Ok((files, columns)) => r matches Ok((f, c)) && table_files_view(f@) == files
                && strings_view(c@) == columns,
            Err(m) => r matches Err(e) && e@ == m,
        },
{
    let lines = split_lines(text);
    let ghost lv = strings_view(lines@);
    let mut files: Vec<TableFile> = Vec::new();
    let mut columns: Vec<String> = Vec::new();
    let mut k: usize = 0;
    assert(table_files_view(files@) =~= Seq::<TableFileV>::empty());
    assert(strings_view(columns@) =~= Seq::<Seq<char>>::empty());
    while k < lines.len()
        invariant
            k <= lines@.len(),
            lv == strings_view(lines@),
            lv == lines_from(text@, 0),
            log_of(text@) == log_from(lv, k as int, table_files_view(files@), strings_view(columns@)),
        decreases lines@.len() - k,
    {
        assert(lv[k as int] == lines@[k as int]@);
        if !is_blank(lines[k].as_str()) {
            match apply_action(&mut files, &mut columns, lines[k].as_str(), k) {
                Ok(()) => {},
                Err(e) => return Err(e),
            }
        }
        k = k + 1;
    }
    Ok((files, columns))
}

} // verus!
