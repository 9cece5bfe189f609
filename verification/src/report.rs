//! Opening a whole file held in memory, as the command line and the tests do.

use vstd::prelude::*;
use vstd::slice::slice_to_vec;

use crate::format::format_error_text;
use crate::metadata::{footer_decoded, metadata_error_text, FileMetaData, MetadataError};
use crate::object_store::{MemoryStore, ObjectStore};
use crate::schema::{
    build, leaf_is, leaves, leaves_below, lemma_tree_size, rep_level, schema_error_text,
    schema_view, tree_of, LeafV,
};
use crate::reader::{
    lemma_reads_the_files_footer, lemma_learned_size, locate_outcome, read_footer, FooterOptions,
    ReadError,
};

verus! {

/// The last eight bytes of a file, or all of it where it is shorter.
pub open spec fn file_tail(file: Seq<u8>) -> Seq<u8> {
    file.subrange(if file.len() < 8 { 0 } else { file.len() - 8 }, file.len() as int)
}

/// What opening a whole file gives: the metadata its footer decodes to, or what stopped it,
/// as a sentence.
pub open spec fn opened(file: Seq<u8>, r: Result<FileMetaData, String>) -> bool {
    match locate_outcome(file_tail(file), file.len() as u64) {
        Err(e) => r matches Err(s) && s@ == format_error_text(e),
        Ok((_, f)) => {
            let footer = file.subrange(f.start as int, f.end as int);
            match r {
                Ok(m) => footer_decoded(footer, f.start, Ok(m)),
                Err(s) => exists|e: MetadataError|
                    footer_decoded(footer, f.start, Err(e)) && s@ == metadata_error_text(e),
            }
        },
    }
}

/// Parse `file` fully and return its metadata, or why not.
pub fn open_bytes(file: &[u8]) -> (r: Result<FileMetaData, String>)
    requires
        1 <= file@.len(),
    ensures
        opened(file@, r),
{
    // The file's length, which a slice keeps within `usize`.
    let len = file.len();
    let mut store = MemoryStore::new();
    store.put("file", slice_to_vec(file));
    let ghost objects = store.objects();
    let options = FooterOptions::default();
    proof {
        assert(objects.contains_key("file"@));
        assert(objects["file"@] == file@);
        assert(file@.len() == len);
        lemma_learned_size(objects, "file"@, options);
    }
    let read = read_footer(&mut store, "file", options);
    proof {
        lemma_reads_the_files_footer(objects, "file"@, options, read);
    }
    match read {
        Ok(fr) => Ok(fr.metadata),
        Err(e) => {
            let s = e.message();
            proof {
                if let ReadError::Metadata(me) = e {
                    assert(s@ == metadata_error_text(me));
                }
            }
            Err(s)
        },
    }
}


/// The positions, among some leaves, of those whose path repeats nowhere.
pub open spec fn unrepeated(vs: Seq<LeafV>) -> Seq<int>
    decreases vs.len(),
{
    if vs.len() == 0 {
        Seq::empty()
    } else if rep_level(vs.last().repetitions) == 0 {
        unrepeated(vs.drop_last()).push(vs.len() - 1)
    } else {
        unrepeated(vs.drop_last())
    }
}

/// What `flat_columns` gives for a file: the leaf columns of its schema that do not repeat, or
/// why the file does not open, or why its schema does not make a tree.
pub open spec fn flat_columns_of(file: Seq<u8>, r: Result<Vec<usize>, String>) -> bool {
    match r {
        Ok(cols) => exists|m: FileMetaData|
            #![trigger opened(file, Ok(m))]
            opened(file, Ok(m)) && (tree_of(m.schema@) matches Ok(t) && cols@.map_values(
                |c: usize| c as int,
            ) == unrepeated(leaves_below(t, Seq::empty(), Seq::empty()))),
        Err(s) => opened(file, Err(s)) || exists|m: FileMetaData|
            #![trigger opened(file, Ok(m))]
            opened(file, Ok(m)) && (tree_of(m.schema@) matches Err(ev) && s@ == schema_error_text(ev)),
    }
}

/// The leaf columns that do not repeat: the ones a scan can return.
pub fn flat_columns(file: &[u8]) -> (r: Result<Vec<usize>, String>)
    requires
        1 <= file@.len(),
        forall|m: FileMetaData| #[trigger] opened(file@, Ok(m)) ==> m.schema@.len() <= u32::MAX,
    ensures
        flat_columns_of(file@, r),
{
    let md = match open_bytes(file) {
        Ok(m) => m,
        Err(e) => {
            return Err(e);
        },
    };
    let count = md.schema.len();
    let root = match build(md.schema.as_slice()) {
        Ok(t) => t,
        Err(e) => {
            let s = e.message();
            assert(opened(file@, Ok(md)));
            return Err(s);
        },
    };
    proof {
        lemma_tree_size(md.schema@);
        assert(opened(file@, Ok(md)));
    }
    let all = leaves(&root);
    let ghost vs = leaves_below(schema_view(root), Seq::empty(), Seq::empty());
    let mut cols: Vec<usize> = Vec::new();
    let mut j: usize = 0;
    assert(cols@.map_values(|c: usize| c as int) =~= unrepeated(vs.take(0)));
    while j < all.len()
        invariant
            j <= all@.len() == vs.len(),
            forall|t: int| 0 <= t < all@.len() ==> leaf_is(#[trigger] all@[t], t, vs[t]),
            cols@.map_values(|c: usize| c as int) == unrepeated(vs.take(j as int)),
        decreases all@.len() - j,
    {
        assert(leaf_is(all@[j as int], j as int, vs[j as int]));
        proof {
            assert(vs.take(j + 1).drop_last() =~= vs.take(j as int));
            assert(vs.take(j + 1).last() == vs[j as int]);
        }
        if all[j].max_repetition_level == 0 {
            let ghost c0 = cols@;
            cols.push(all[j].column);
            assert(cols@.map_values(|c: usize| c as int) =~= c0.map_values(|c: usize| c as int).push(
                j as int,
            ));
        }
        j = j + 1;
    }
    assert(vs.take(j as int) =~= vs);
    Ok(cols)
}

} // verus!
