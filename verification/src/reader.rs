//! Opening a file: how a reader learns the size, which bytes it fetches first, and what can go
//! wrong before the metadata is decoded.

use vstd::prelude::*;
use vstd::slice::{slice_subrange, slice_to_vec};

use crate::bytes::Span;
use crate::format::{
    footer_span, footer_span_outcome, format_error_text, parse_trailer, trailer_outcome,
    FormatError, Trailer, TRAILER_LEN,
};
use crate::metadata::{
    decode_file_metadata, footer_decoded, metadata_error_text, FileMetaData, MetadataError,
};
use crate::object_store::{
    get_outcome, range_ok, range_text, store_error_text, GetRange, GetResult, ObjectStore,
    StoreError,
};

verus! {

/// Where a reader learns the size of the file.
#[derive(Clone, Copy, Debug, PartialEq, Eq, Structural)]
pub enum SizeSource {
    /// Ask the store with a `HEAD` request.
    Head,
    /// Already known, from a directory listing or a table format's manifest.
    Known(u64),
    /// Do not ask: read the tail with a suffix range, and take the size from the response.
    SuffixRange,
}

#[derive(Clone, Copy, Debug, PartialEq, Eq, Structural)]
pub struct FooterOptions {
    pub size: SizeSource,
    /// How many bytes to read from the end of the file in the first `GET`. Never less than the
    /// eight-byte trailer, whatever is asked for.
    pub prefetch: u64,
}

impl Default for FooterOptions {
    /// The literal procedure: `HEAD`, then exactly the trailer, then exactly the footer.
    fn default() -> (o: FooterOptions)
        ensures
            o.size == SizeSource::Head,
            o.prefetch == TRAILER_LEN,
    {
        FooterOptions { size: SizeSource::Head, prefetch: TRAILER_LEN }
    }
}

/// Why a footer could not be read: the store failed, the file is not Parquet, or its metadata
/// does not decode.
#[derive(Clone, Debug, PartialEq, Eq)]
pub enum ReadError {
    Store(StoreError),
    Format(FormatError),
    Metadata(MetadataError),
}

/// What a read error says: what the error inside it says.
pub open spec fn read_error_text(e: ReadError) -> Seq<char> {
    match e {
        ReadError::Store(s) => store_error_text(s),
        ReadError::Format(f) => format_error_text(f),
        ReadError::Metadata(m) => metadata_error_text(m),
    }
}

impl ReadError {
    /// The error as a sentence.
    pub fn message(&self) -> (s: String)
        requires
            self matches ReadError::Metadata(MetadataError::TrailingBytes { span }) ==> span.start
                <= span.end,
        ensures
            s@ == read_error_text(*self),
    {
        match self {
            ReadError::Store(e) => e.message(),
            ReadError::Format(e) => e.message(),
            ReadError::Metadata(e) => e.message(),
        }
    }
}

impl From<StoreError> for ReadError {
    fn from(e: StoreError) -> (r: ReadError) {
        ReadError::Store(e)
    }
}

impl vstd::std_specs::convert::FromSpecImpl<StoreError> for ReadError {
    open spec fn obeys_from_spec() -> bool {
        true
    }

    open spec fn from_spec(e: StoreError) -> ReadError {
        ReadError::Store(e)
    }
}

impl From<FormatError> for ReadError {
    fn from(e: FormatError) -> (r: ReadError) {
        ReadError::Format(e)
    }
}

impl vstd::std_specs::convert::FromSpecImpl<FormatError> for ReadError {
    open spec fn obeys_from_spec() -> bool {
        true
    }

    open spec fn from_spec(e: FormatError) -> ReadError {
        ReadError::Format(e)
    }
}

impl From<MetadataError> for ReadError {
    fn from(e: MetadataError) -> (r: ReadError) {
        ReadError::Metadata(e)
    }
}

impl vstd::std_specs::convert::FromSpecImpl<MetadataError> for ReadError {
    open spec fn obeys_from_spec() -> bool {
        true
    }

    open spec fn from_spec(e: MetadataError) -> ReadError {
        ReadError::Metadata(e)
    }
}


/// The last eight of some bytes.
pub open spec fn last8(b: Seq<u8>) -> [u8; 8] {
    let n = b.len() as int;
    [b[n - 8], b[n - 7], b[n - 6], b[n - 5], b[n - 4], b[n - 3], b[n - 2], b[n - 1]]
}

/// What the tail of a file of `file_size` bytes says: its trailer, and where the footer is.
pub open spec fn locate_outcome(tail: Seq<u8>, file_size: u64) -> Result<(Trailer, Span), FormatError> {
    if tail.len() < 8 {
        Err(FormatError::TooShort { file_size })
    } else {
        match trailer_outcome(last8(tail), file_size) {
            Err(e) => Err(e),
            Ok(t) => match footer_span_outcome(file_size, t.footer_length) {
                Err(e) => Err(e),
                Ok(f) => Ok((t, f)),
            },
        }
    }
}

/// Read the trailer from the last eight bytes of a tail the store returned, and find the
/// footer from it.
pub fn locate_footer(tail: &GetResult) -> (r: Result<(Trailer, Span), FormatError>)
    ensures
        r == locate_outcome(tail.bytes@, tail.object_size),
        r matches Ok((t, f)) ==> 4 <= f.start <= f.end && f.end + 8 == tail.object_size,
{
    let file_size = tail.object_size;
    let n = tail.bytes.len();
    if n < 8 {
        return Err(FormatError::TooShort { file_size });
    }
    let b = &tail.bytes;
    let last = [b[n - 8], b[n - 7], b[n - 6], b[n - 5], b[n - 4], b[n - 3], b[n - 2], b[n - 1]];
    assert(last == last8(tail.bytes@));
    let trailer = parse_trailer(last, file_size)?;
    let footer = footer_span(file_size, trailer.footer_length)?;
    Ok((trailer, footer))
}

/// Everything learned while opening the file, in the order it was learned.
#[derive(Debug, PartialEq)]
pub struct FooterRead {
    pub file_size: u64,
    /// The bytes the first `GET` returned: the trailer and whatever was prefetched before it.
    pub tail: Span,
    pub trailer: Trailer,
    pub footer: Span,
    /// True when the footer was already inside the prefetched tail, so no second `GET` was made.
    pub footer_was_prefetched: bool,
    pub footer_bytes: Vec<u8>,
    pub metadata: FileMetaData,
}

/// How many bytes the first `GET` asks for: what the options say, and never less than the
/// trailer.
pub open spec fn tail_want(o: FooterOptions) -> u64 {
    if o.prefetch < 8 {
        8
    } else {
        o.prefetch
    }
}

/// The last `want` bytes of a file of `size` bytes, as a bounded range.
pub open spec fn last_bytes(size: u64, want: u64) -> GetRange {
    GetRange::Bounded(
        Span {
            start: if want < size {
                (size - want) as u64
            } else {
                0
            },
            end: size,
        },
    )
}

/// The range of the first `GET`, given the objects a store holds.
pub open spec fn tail_request(objects: Map<Seq<char>, Seq<u8>>, key: Seq<char>, o: FooterOptions) -> GetRange {
    match o.size {
        SizeSource::Head => last_bytes(objects[key].len() as u64, tail_want(o)),
        SizeSource::Known(n) => last_bytes(n, tail_want(o)),
        SizeSource::SuffixRange => GetRange::Suffix(tail_want(o)),
    }
}

/// The part of the footer before the tail: what a second `GET` asks for.
pub open spec fn footer_gap(tail: Span, footer: Span) -> GetRange {
    GetRange::Bounded(Span { start: footer.start, end: tail.start })
}

/// The footer's bytes: cut from the tail where it holds them all, or else the gap before the
/// tail followed by the part of the tail up to the trailer.
pub open spec fn footer_bytes_of(
    objects: Map<Seq<char>, Seq<u8>>,
    key: Seq<char>,
    tail_bytes: Seq<u8>,
    tail: Span,
    footer: Span,
) -> Seq<u8> {
    if tail.start <= footer.start {
        tail_bytes.subrange(footer.start - tail.start, footer.end - tail.start)
    } else {
        match get_outcome(objects, key, footer_gap(tail, footer)) {
            Some((gap, _, _)) => gap + tail_bytes.take(footer.end - tail.start),
            None => tail_bytes.take(footer.end - tail.start),
        }
    }
}

/// Whether a read of `key` can be carried out: the ranges it asks for are ones a request can
/// name, and the tail it gets reaches the end of the footer.
pub open spec fn footer_read_defined(
    objects: Map<Seq<char>, Seq<u8>>,
    key: Seq<char>,
    o: FooterOptions,
) -> bool {
    &&& (o.size matches SizeSource::Known(n) ==> n >= 1)
    &&& objects.contains_key(key) ==> {
        let range = tail_request(objects, key, o);
        &&& objects[key].len() <= u64::MAX
        &&& range_ok(range)
        &&& match get_outcome(objects, key, range) {
            Some((bytes, tail, size)) => match locate_outcome(bytes, size) {
                Ok((_, f)) => tail.start <= f.end && f.end - tail.start <= bytes.len(),
                Err(_) => true,
            },
            None => true,
        }
    }
}

/// The store refused `range` of `key`.
pub open spec fn refused(
    objects: Map<Seq<char>, Seq<u8>>,
    key: Seq<char>,
    range: GetRange,
    r: Result<FooterRead, ReadError>,
) -> bool {
    r matches Err(ReadError::Store(StoreError::RangeNotSatisfiable { key: k, range: h, size }))
        && k@ == key && h@ == range_text(range) && size == objects[key].len()
}

/// What opening `key` gives, for a store that holds `objects`.
pub open spec fn footer_read(
    objects: Map<Seq<char>, Seq<u8>>,
    key: Seq<char>,
    o: FooterOptions,
    r: Result<FooterRead, ReadError>,
) -> bool {
    if !objects.contains_key(key) {
        r matches Err(ReadError::Store(StoreError::NotFound { key: k })) && k@ == key
    } else {
        let range = tail_request(objects, key, o);
        match get_outcome(objects, key, range) {
            None => refused(objects, key, range, r),
            Some((bytes, tail, size)) => match locate_outcome(bytes, size) {
                Err(e) => r == Err::<FooterRead, ReadError>(ReadError::Format(e)),
                Ok((trailer, footer)) => {
                    let gap = footer_gap(tail, footer);
                    if footer.start < tail.start && get_outcome(objects, key, gap) is None {
                        refused(objects, key, gap, r)
                    } else {
                        let fb = footer_bytes_of(objects, key, bytes, tail, footer);
                        match r {
                            Ok(fr) => {
                                &&& fr.file_size == size
                                &&& fr.tail == tail
                                &&& fr.trailer == trailer
                                &&& fr.footer == footer
                                &&& fr.footer_was_prefetched == (tail.start <= footer.start)
                                &&& fr.footer_bytes@ == fb
                                &&& footer_decoded(fb, footer.start, Ok(fr.metadata))
                            },
                            Err(ReadError::Metadata(e)) => footer_decoded(fb, footer.start, Err(e)),
                            Err(_) => false,
                        }
                    }
                },
            },
        }
    }
}

/// The last `want` bytes of a file of `size` bytes, as a bounded range.
fn tail_range(size: u64, want: u64) -> (r: GetRange)
    ensures
        r == last_bytes(size, want),
{
    GetRange::Bounded(Span::new(if want < size { size - want } else { 0 }, size))
}

/// Open `key` in `store`: find the footer, fetch it, and decode it.
#[verifier::rlimit(60)]
pub fn read_footer<S: ObjectStore>(store: &mut S, key: &str, options: FooterOptions) -> (r: Result<
    FooterRead,
    ReadError,
>)
    requires
        footer_read_defined(old(store).objects(), key@, options),
    ensures
        final(store).objects() == old(store).objects(),
        footer_read(old(store).objects(), key@, options, r),
        r matches Err(ReadError::Metadata(MetadataError::TrailingBytes { span })) ==> span.start
            <= span.end,
{
    let ghost objects = store.objects();
    let want = if options.prefetch < TRAILER_LEN {
        TRAILER_LEN
    } else {
        options.prefetch
    };
    // The size, and the tail.
    let got = match options.size {
        SizeSource::Head => {
            let size = match store.head(key, "learn the file size, to know where the end is") {
                Ok(n) => n,
                Err(e) => {
                    return Err(ReadError::Store(e));
                },
            };
            let range = tail_range(size, want);
            proof {
                store.lemma_range_ok_allowed(key@, range);
            }
            store.get(key, range, "read the trailer")
        },
        SizeSource::Known(size) => {
            let range = tail_range(size, want);
            proof {
                store.lemma_range_ok_allowed(key@, range);
            }
            store.get(key, range, "read the trailer")
        },
        SizeSource::SuffixRange => {
            proof {
                store.lemma_range_ok_allowed(key@, GetRange::Suffix(want));
            }
            store.get(key, GetRange::Suffix(want), "read the trailer; the response carries the file size")
        },
    };
    let tail = match got {
        Ok(t) => t,
        Err(e) => {
            return Err(ReadError::Store(e));
        },
    };
    let file_size = tail.object_size;
    // Where the footer is.
    let (trailer, footer) = match locate_footer(&tail) {
        Ok(x) => x,
        Err(e) => {
            return Err(ReadError::Format(e));
        },
    };
    // Whatever part of the footer the tail did not already hold.
    let footer_was_prefetched = tail.span.start <= footer.start;
    let footer_bytes = if footer_was_prefetched {
        let from = (footer.start - tail.span.start) as usize;
        let to = (footer.end - tail.span.start) as usize;
        slice_to_vec(slice_subrange(tail.bytes.as_slice(), from, to))
    } else {
        let missing = Span::new(footer.start, tail.span.start);
        proof {
            store.lemma_range_ok_allowed(key@, GetRange::Bounded(missing));
        }
        let head = match store.get(
            key,
            GetRange::Bounded(missing),
            "read the footer: the trailer says where it starts",
        ) {
            Ok(h) => h,
            Err(e) => {
                return Err(ReadError::Store(e));
            },
        };
        let mut bytes = head.bytes;
        let overlap = (footer.end - tail.span.start) as usize;
        let ghost gap = bytes@;
        bytes.extend_from_slice(slice_subrange(tail.bytes.as_slice(), 0, overlap));
        assert(bytes@ =~= gap + tail.bytes@.take(overlap as int));
        bytes
    };
    let metadata = match decode_file_metadata(footer_bytes.as_slice(), footer.start) {
        Ok(m) => m,
        Err(e) => {
            return Err(ReadError::Metadata(e));
        },
    };
    Ok(
        FooterRead {
            file_size,
            tail: tail.span,
            trailer,
            footer,
            footer_was_prefetched,
            footer_bytes,
            metadata,
        },
    )
}

/// A reader that learns the size of a file from the store, by `HEAD` or from a suffix range,
/// always gets a tail that ends where the object ends; so every read it makes can be carried
/// out, the store serves each range it asks for, and the footer bytes it assembles are the
/// object's own bytes between the footer's start and the trailer.
pub proof fn lemma_learned_size(objects: Map<Seq<char>, Seq<u8>>, key: Seq<char>, o: FooterOptions)
    requires
        !(o.size is Known),
        objects.contains_key(key),
        1 <= objects[key].len() <= u64::MAX,
    ensures
        footer_read_defined(objects, key, o),
        get_outcome(objects, key, tail_request(objects, key, o)) matches Some((bytes, tail, size))
            && size == objects[key].len() && tail.end == size && (locate_outcome(bytes, size) matches Ok(
            (t, f),
        ) ==> (f.start < tail.start ==> get_outcome(objects, key, footer_gap(tail, f)) is Some)
            && f.end + 8 == size && footer_bytes_of(objects, key, bytes, tail, f)
            == objects[key].subrange(f.start as int, f.end as int)),
{
    let data = objects[key];
    let size = data.len() as u64;
    let range = tail_request(objects, key, o);
    assert(range_ok(range));
    let (bytes, tail, sz) = get_outcome(objects, key, range)->Some_0;
    assert(tail.end == size);
    assert(bytes =~= data.subrange(tail.start as int, size as int));
    match locate_outcome(bytes, sz) {
        Ok((t, f)) => {
            assert(bytes.len() >= 8);
            let fb = footer_bytes_of(objects, key, bytes, tail, f);
            if tail.start <= f.start {
                assert(fb =~= data.subrange(f.start as int, f.end as int));
            } else {
                let gap = get_outcome(objects, key, footer_gap(tail, f))->Some_0.0;
                assert(gap =~= data.subrange(f.start as int, tail.start as int));
                assert(fb =~= data.subrange(f.start as int, f.end as int));
            }
        },
        Err(_) => {},
    }
}

/// A reader that learns the size of a file from the store reads the file's own footer: on
/// success the footer ends where the trailer begins, its bytes are the file's bytes there,
/// however many bytes were prefetched, and the metadata is those bytes decoded; and no request
/// it makes is refused.
pub proof fn lemma_reads_the_files_footer(
    objects: Map<Seq<char>, Seq<u8>>,
    key: Seq<char>,
    o: FooterOptions,
    r: Result<FooterRead, ReadError>,
)
    requires
        !(o.size is Known),
        objects.contains_key(key),
        1 <= objects[key].len() <= u64::MAX,
        footer_read(objects, key, o, r),
    ensures
        r matches Ok(fr) ==> {
            &&& fr.file_size == objects[key].len()
            &&& fr.footer.end + 8 == fr.file_size
            &&& fr.footer_bytes@ == objects[key].subrange(fr.footer.start as int, fr.footer.end as int)
            &&& footer_decoded(fr.footer_bytes@, fr.footer.start, Ok(fr.metadata))
        },
        r matches Err(e) ==> !(e is Store),
{
    lemma_learned_size(objects, key, o);
    let (bytes, tail, size) = get_outcome(objects, key, tail_request(objects, key, o))->Some_0;
    match locate_outcome(bytes, size) {
        Ok((t, f)) => {
            let fb = footer_bytes_of(objects, key, bytes, tail, f);
            assert(fb.len() == f.end - f.start);
        },
        Err(_) => {},
    }
}

} // verus!
