//! A simulated object store: the subset of S3's semantics a Parquet reader depends on.
//!
//! - `HEAD` returns an object's size.
//! - `GET` with `Range: bytes=a-b` returns bytes `a` to `b` inclusive.
//! - `GET` with `Range: bytes=-n` returns the last `n` bytes, and the response says how large
//!   the whole object is.
//!
//! [`MemoryStore`] holds the objects. [`TracingStore`] wraps any store, logs every request,
//! and charges each one a simulated cost from a [`NetworkModel`]: a fixed latency plus bytes
//! over bandwidth.

use vstd::prelude::*;
use vstd::slice::{slice_subrange, slice_to_vec};

use crate::bytes::{http_range_text, Span};
use crate::text::{dec, push_char, push_u64};

verus! {

/// Which bytes a `GET` asks for.
#[derive(Clone, Copy, Debug, PartialEq, Eq, Structural)]
pub enum GetRange {
    /// `bytes=start-(end-1)`: a span of absolute offsets.
    Bounded(Span),
    /// `bytes=-n`: the last `n` bytes, whatever the object's size.
    Suffix(u64),
}

/// Whether a range can be asked for at all: a bounded one must cover a well-formed,
/// non-negative stretch whose last byte is `end - 1`.
pub open spec fn range_ok(range: GetRange) -> bool {
    range matches GetRange::Bounded(s) ==> 1 <= s.end && s.start <= s.end
}

/// The text of the `Range` header for a request.
pub open spec fn range_text(range: GetRange) -> Seq<char> {
    match range {
        GetRange::Bounded(s) => http_range_text(s.start as nat, (s.end - 1) as nat),
        GetRange::Suffix(n) => seq!['b', 'y', 't', 'e', 's', '=', '-'] + dec(n as nat),
    }
}

impl GetRange {
    /// The value of the HTTP `Range` header for this request.
    pub fn header(&self) -> (h: String)
        requires
            range_ok(*self),
        ensures
            h@ == range_text(*self),
    {
        match self {
            GetRange::Bounded(span) => span.http_range(),
            GetRange::Suffix(n) => {
                let mut s = String::new();
                push_char(&mut s, 'b');
                push_char(&mut s, 'y');
                push_char(&mut s, 't');
                push_char(&mut s, 'e');
                push_char(&mut s, 's');
                push_char(&mut s, '=');
                push_char(&mut s, '-');
                push_u64(&mut s, *n);
                assert(s@ =~= range_text(*self));
                s
            },
        }
    }
}

#[derive(Clone, Debug, PartialEq, Eq)]
pub enum StoreError {
    NotFound { key: String },
    /// HTTP 416: the range starts at or after the end of the object.
    RangeNotSatisfiable { key: String, range: String, size: u64 },
}

/// What a store error says.
pub open spec fn store_error_text(e: StoreError) -> Seq<char> {
    match e {
        StoreError::NotFound { key } => "404: no object named "@ + key@,
        StoreError::RangeNotSatisfiable { key, range, size } => "416: "@ + range@ + " is outside "@
            + key@ + ", which is "@ + dec(size as nat) + " bytes"@,
    }
}

impl StoreError {
    /// The error as a sentence.
    pub fn message(&self) -> (s: String)
        ensures
            s@ == store_error_text(*self),
    {
        match self {
            StoreError::NotFound { key } => {
                let mut s = "404: no object named ".to_owned();
                s.append(key.as_str());
                s
            },
            StoreError::RangeNotSatisfiable { key, range, size } => {
                let mut s = "416: ".to_owned();
                s.append(range.as_str());
                s.append(" is outside ");
                s.append(key.as_str());
                s.append(", which is ");
                push_u64(&mut s, *size);
                s.append(" bytes");
                s
            },
        }
    }
}

/// The body of a successful `GET`.
#[derive(Clone, Debug, PartialEq, Eq)]
pub struct GetResult {
    pub bytes: Vec<u8>,
    /// Which bytes of the object these are: the response's `Content-Range`.
    pub span: Span,
    /// The object's total size, which `Content-Range` also carries.
    pub object_size: u64,
}

/// What a Parquet reader needs from storage.
///
/// `why` is instrumentation: the reader says what it wants the bytes for, and a trace records
/// it.
pub trait ObjectStore {
    /// The objects the store holds, by key.
    spec fn objects(&self) -> Map<Seq<char>, Seq<u8>>;

    /// Whether the store can answer a `GET` of `key` and `range` at all. A range whose header
    /// is well-formed always can.
    spec fn get_allowed(&self, key: Seq<char>, range: GetRange) -> bool;

    proof fn lemma_range_ok_allowed(&self, key: Seq<char>, range: GetRange)
        requires
            range_ok(range),
        ensures
            self.get_allowed(key, range),
    ;

    fn head(&mut self, key: &str, why: &str) -> (r: Result<u64, StoreError>)
        ensures
            final(self).objects() == old(self).objects(),
            head_answer(old(self).objects(), key@, r),
    ;

    fn get(&mut self, key: &str, range: GetRange, why: &str) -> (r: Result<GetResult, StoreError>)
        requires
            old(self).get_allowed(key@, range),
        ensures
            final(self).objects() == old(self).objects(),
            get_answer(old(self).objects(), key@, range, r),
    ;
}

/// What a `HEAD` of `key` answers: the size of the object, or that there is none.
pub open spec fn head_answer(
    objects: Map<Seq<char>, Seq<u8>>,
    key: Seq<char>,
    r: Result<u64, StoreError>,
) -> bool {
    if objects.contains_key(key) {
        r == Ok::<u64, StoreError>(objects[key].len() as u64)
    } else {
        r matches Err(StoreError::NotFound { key: k }) && k@ == key
    }
}

/// What a `GET` of `key` and `range` answers: the bytes of the span served, or that the range
/// cannot be served, or that there is no such object.
pub open spec fn get_answer(
    objects: Map<Seq<char>, Seq<u8>>,
    key: Seq<char>,
    range: GetRange,
    r: Result<GetResult, StoreError>,
) -> bool {
    if objects.contains_key(key) {
        match get_outcome(objects, key, range) {
            Some((bytes, span, size)) => r matches Ok(g) && g.bytes@ == bytes && g.span == span
                && g.object_size == size,
            None => r matches Err(StoreError::RangeNotSatisfiable { key: k, range: h, size })
                && k@ == key && h@ == range_text(range) && size == objects[key].len(),
        }
    } else {
        r matches Err(StoreError::NotFound { key: k }) && k@ == key
    }
}

/// The objects of a list of entries, where a later entry for a key wins over an earlier one.
pub open spec fn objects_map(entries: Seq<(String, Vec<u8>)>) -> Map<Seq<char>, Seq<u8>>
    decreases entries.len(),
{
    if entries.len() == 0 {
        Map::empty()
    } else {
        objects_map(entries.drop_last()).insert(entries.last().0@, entries.last().1@)
    }
}

/// Objects held in memory.
///
/// The objects are a list of entries, the last entry for a key being the one that counts; the
/// view is the map they make. A `BTreeMap` keyed by `String` would hold them too, but vstd
/// states what its operations do only for key types whose ordering it models, and `String`'s
/// ordering is not among them, so nothing could be proved of a `put` followed by a `get`.
#[derive(Clone, Debug)]
pub struct MemoryStore {
    objects: Vec<(String, Vec<u8>)>,
}

/// Whether a `GET` of `key` and `range` can be answered: a bounded range must not end before
/// it starts, and one that is refused must have a last byte, `end - 1`, for the error to name.
/// An empty range that starts inside the object is served empty.
pub open spec fn range_servable(objects: Map<Seq<char>, Seq<u8>>, key: Seq<char>, range: GetRange) -> bool {
    range matches GetRange::Bounded(s) ==> {
        &&& s.start <= s.end
        &&& objects.contains_key(key) && s.start >= objects[key].len() ==> 1 <= s.end
    }
}

/// The span a `GET` of `range` returns from an object of `size` bytes, if it is satisfiable:
/// a range past the end is cut short, a suffix longer than the object is the whole object,
/// an empty range inside the object is served empty, and only a range that starts at or
/// beyond the end is refused.
pub open spec fn served_span(range: GetRange, size: u64) -> Option<Span> {
    match range {
        GetRange::Bounded(s) => if s.start >= size {
            None
        } else {
            Some(Span { start: s.start, end: if s.end < size { s.end } else { size } })
        },
        GetRange::Suffix(n) => Some(
            Span { start: if n < size { (size - n) as u64 } else { 0 }, end: size },
        ),
    }
}

/// What a `GET` of `key` and `range` answers, given the store's objects.
pub open spec fn get_outcome(objects: Map<Seq<char>, Seq<u8>>, key: Seq<char>, range: GetRange) -> Option<(Seq<u8>, Span, u64)> {
    let data = objects[key];
    let size = data.len() as u64;
    match served_span(range, size) {
        Some(span) => Some((data.subrange(span.start as int, span.end as int), span, size)),
        None => None,
    }
}

impl View for MemoryStore {
    type V = Map<Seq<char>, Seq<u8>>;

    closed spec fn view(&self) -> Map<Seq<char>, Seq<u8>> {
        objects_map(self.objects@)
    }
}

/// Replacing the last entry for a key changes that key's object and no other.
proof fn lemma_replace_last(entries: Seq<(String, Vec<u8>)>, j: int, e: (String, Vec<u8>))
    requires
        0 <= j < entries.len(),
        entries[j].0@ == e.0@,
        forall|t: int| j < t < entries.len() ==> entries[t].0@ != e.0@,
    ensures
        objects_map(entries.update(j, e)) == objects_map(entries).insert(e.0@, e.1@),
    decreases entries.len(),
{
    let u = entries.update(j, e);
    if j == entries.len() - 1 {
        assert(u.drop_last() =~= entries.drop_last());
        assert(objects_map(entries).insert(e.0@, e.1@) =~= objects_map(entries.drop_last()).insert(
            e.0@,
            e.1@,
        ));
    } else {
        lemma_replace_last(entries.drop_last(), j, e);
        assert(u.drop_last() =~= entries.drop_last().update(j, e));
        assert(u.last() == entries.last());
        assert(objects_map(u) =~= objects_map(entries).insert(e.0@, e.1@));
    }
}

/// No entry after index `i` names `k`, so the map's object for `k` comes from before it.
proof fn lemma_absent(entries: Seq<(String, Vec<u8>)>, k: Seq<char>)
    requires
        forall|t: int| 0 <= t < entries.len() ==> entries[t].0@ != k,
    ensures
        !objects_map(entries).contains_key(k),
    decreases entries.len(),
{
    if entries.len() > 0 {
        lemma_absent(entries.drop_last(), k);
    }
}

/// The last entry naming `k` holds the map's object for `k`.
proof fn lemma_last_wins(entries: Seq<(String, Vec<u8>)>, j: int, k: Seq<char>)
    requires
        0 <= j < entries.len(),
        entries[j].0@ == k,
        forall|t: int| j < t < entries.len() ==> entries[t].0@ != k,
    ensures
        objects_map(entries).contains_key(k),
        objects_map(entries)[k] == entries[j].1@,
    decreases entries.len(),
{
    if j < entries.len() - 1 {
        lemma_last_wins(entries.drop_last(), j, k);
    }
}

/// A read gives back what a write wrote: once `bytes` are stored under `key`, a `GET` of a
/// range that starts inside them returns those bytes, cut short at the end; a suffix range
/// returns the last bytes; and other keys keep their objects.
pub proof fn lemma_get_after_put(
    objects: Map<Seq<char>, Seq<u8>>,
    key: Seq<char>,
    bytes: Seq<u8>,
    s: Span,
    n: u64,
    other: Seq<char>,
)
    requires
        bytes.len() <= u64::MAX,
    ensures
        s.start <= s.end && s.start < bytes.len() ==> get_outcome(
            objects.insert(key, bytes),
            key,
            GetRange::Bounded(s),
        ) == Some(
            (
                bytes.subrange(
                    s.start as int,
                    if s.end < bytes.len() {
                        s.end as int
                    } else {
                        bytes.len() as int
                    },
                ),
                Span {
                    start: s.start,
                    end: if s.end < bytes.len() {
                        s.end
                    } else {
                        bytes.len() as u64
                    },
                },
                bytes.len() as u64,
            ),
        ),
        get_outcome(objects.insert(key, bytes), key, GetRange::Suffix(n)) matches Some((b, sp, size))
            && b == bytes.subrange(
            if n < bytes.len() {
                bytes.len() - n
            } else {
                0
            },
            bytes.len() as int,
        ) && size == bytes.len(),
        other != key ==> get_outcome(objects.insert(key, bytes), other, GetRange::Bounded(s))
            == get_outcome(objects, other, GetRange::Bounded(s)),
{
    assert(objects.insert(key, bytes)[key] == bytes);
    if other != key {
        assert(objects.insert(key, bytes)[other] == objects[other]);
    }
}

impl MemoryStore {
    pub fn new() -> (s: MemoryStore)
        ensures
            s@ == Map::<Seq<char>, Seq<u8>>::empty(),
    {
        MemoryStore { objects: Vec::new() }
    }

    /// The index of the last entry named `key`, if any.
    fn find(&self, key: &String) -> (r: Option<usize>)
        ensures
            r matches Some(j) ==> j < self.objects@.len() && self.objects@[j as int].0@ == key@
                && forall|t: int| j < t < self.objects@.len() ==> self.objects@[t].0@ != key@,
            r is None ==> forall|t: int| 0 <= t < self.objects@.len() ==> self.objects@[t].0@ != key@,
    {
        let mut i = self.objects.len();
        while i > 0
            invariant
                i <= self.objects@.len(),
                forall|t: int| i <= t < self.objects@.len() ==> self.objects@[t].0@ != key@,
            decreases i,
        {
            if self.objects[i - 1].0 == *key {
                return Some(i - 1);
            }
            i = i - 1;
        }
        None
    }

    /// Store `bytes` under `key`, replacing any object already there.
    pub fn put(&mut self, key: &str, bytes: Vec<u8>)
        ensures
            final(self)@ == old(self)@.insert(key@, bytes@),
    {
        let k = String::from_str(key);
        match self.find(&k) {
            Some(j) => {
                proof {
                    lemma_replace_last(self.objects@, j as int, (k, bytes));
                }
                self.objects.set(j, (k, bytes));
            },
            None => {
                self.objects.push((k, bytes));
                proof {
                    assert(self.objects@.drop_last() =~= old(self).objects@);
                }
            },
        }
    }

    /// The object named `key`.
    fn object(&self, key: &str) -> (r: Result<&Vec<u8>, StoreError>)
        ensures
            self@.contains_key(key@) ==> (r matches Ok(v) && v@ == self@[key@]),
            !self@.contains_key(key@) ==> (r matches Err(StoreError::NotFound { key: k }) && k@
                == key@),
    {
        let k = String::from_str(key);
        match self.find(&k) {
            Some(j) => {
                proof {
                    lemma_last_wins(self.objects@, j as int, key@);
                }
                Ok(&self.objects[j].1)
            },
            None => {
                proof {
                    lemma_absent(self.objects@, key@);
                }
                Err(StoreError::NotFound { key: k })
            },
        }
    }
}

impl ObjectStore for MemoryStore {
    open spec fn objects(&self) -> Map<Seq<char>, Seq<u8>> {
        self@
    }

    open spec fn get_allowed(&self, key: Seq<char>, range: GetRange) -> bool {
        range_servable(self@, key, range)
    }

    proof fn lemma_range_ok_allowed(&self, key: Seq<char>, range: GetRange) {
    }

    fn head(&mut self, key: &str, _why: &str) -> (r: Result<u64, StoreError>)
        ensures
            *final(self) == *old(self),
            old(self)@.contains_key(key@) ==> r == Ok::<u64, StoreError>(
                old(self)@[key@].len() as u64,
            ),
            !old(self)@.contains_key(key@) ==> (r matches Err(StoreError::NotFound { key: k }) && k@
                == key@),
    {
        let data = self.object(key)?;
        Ok(data.len() as u64)
    }

    /// Serve a range the way S3 does: a range that runs past the end is cut short rather than
    /// refused, a suffix longer than the object returns the whole object, and only a range
    /// that starts at or beyond the end is an error.
    fn get(&mut self, key: &str, range: GetRange, _why: &str) -> (r: Result<GetResult, StoreError>)
        ensures
            *final(self) == *old(self),
            !old(self)@.contains_key(key@) ==> (r matches Err(StoreError::NotFound { key: k }) && k@
                == key@),
            old(self)@.contains_key(key@) ==> match get_outcome(old(self)@, key@, range) {
                Some((bytes, span, size)) => r matches Ok(g) && g.bytes@ == bytes && g.span == span
                    && g.object_size == size,
                None => r matches Err(StoreError::RangeNotSatisfiable { key: k, range: h, size })
                    && k@ == key@ && h@ == range_text(range) && size == old(self)@[key@].len(),
            },
    {
        let data = self.object(key)?;
        let size = data.len() as u64;
        let span = match range {
            GetRange::Bounded(s) => {
                if s.start >= size {
                    return Err(
                        StoreError::RangeNotSatisfiable {
                            key: String::from_str(key),
                            range: range.header(),
                            size,
                        },
                    );
                }
                Span::new(s.start, if s.end < size { s.end } else { size })
            },
            GetRange::Suffix(n) => Span::new(if n < size { size - n } else { 0 }, size),
        };
        let part = slice_subrange(data.as_slice(), span.start as usize, span.end as usize);
        Ok(GetResult { bytes: slice_to_vec(part), span, object_size: size })
    }
}

/// What a request costs: a fixed latency, and the time to move its bytes.
#[derive(Clone, Copy, Debug, PartialEq, Eq, Structural)]
pub struct NetworkModel {
    /// Time from sending a request to the first byte of the response, in microseconds.
    pub latency_us: u64,
    /// Bytes per second once the response is flowing. Zero means unlimited.
    pub bandwidth_bytes_per_sec: u64,
}

/// Microseconds to move `bytes` bytes at `bw` bytes per second, rounded up; nothing when the
/// bandwidth is unlimited.
pub open spec fn transfer_us(bytes: nat, bw: nat) -> nat {
    if bw == 0 {
        0
    } else {
        ((bytes * 1_000_000 + bw - 1) / (bw as int)) as nat
    }
}

/// Microseconds for one request that returns `bytes` bytes.
pub open spec fn request_cost(m: NetworkModel, bytes: nat) -> nat {
    m.latency_us as nat + transfer_us(bytes, m.bandwidth_bytes_per_sec as nat)
}

impl NetworkModel {
    /// Microseconds to complete one request that returns `bytes` bytes.
    pub fn cost_us(&self, bytes: u64) -> (c: u64)
        requires
            request_cost(*self, bytes as nat) <= u64::MAX,
        ensures
            c == request_cost(*self, bytes as nat),
    {
        let c = self.cost_u128(bytes);
        c as u64
    }

    /// The cost without any limit on its size.
    fn cost_u128(&self, bytes: u64) -> (c: u128)
        ensures
            c == request_cost(*self, bytes as nat),
    {
        let bw = self.bandwidth_bytes_per_sec;
        let transfer: u128 = if bw == 0 {
            0
        } else {
            let num: u128 = bytes as u128 * 1_000_000;
            (num + bw as u128 - 1) / bw as u128
        };
        assert(transfer <= bytes * 1_000_000) by (nonlinear_arith)
            requires
                bw == 0 ==> transfer == 0,
                bw > 0 ==> transfer == (bytes * 1_000_000 + bw - 1) / (bw as int),
        ;
        self.latency_us as u128 + transfer
    }

    /// The cost of a request, or `u64::MAX` for one too slow to count in microseconds.
    fn cost_saturating(&self, bytes: u64) -> (c: u64)
        ensures
            c == (if request_cost(*self, bytes as nat) <= u64::MAX {
                request_cost(*self, bytes as nat)
            } else {
                u64::MAX as nat
            }),
    {
        let c = self.cost_u128(bytes);
        if c <= u64::MAX as u128 {
            c as u64
        } else {
            u64::MAX
        }
    }

}

/// A request costs at least its latency, more bytes never cost less, and with unlimited
/// bandwidth every request costs exactly the latency.
pub proof fn lemma_cost_grows_with_bytes(m: NetworkModel, a: nat, b: nat)
    requires
        a <= b,
    ensures
        request_cost(m, a) >= m.latency_us,
        request_cost(m, a) <= request_cost(m, b),
        m.bandwidth_bytes_per_sec == 0 ==> request_cost(m, a) == m.latency_us,
{
    let bw = m.bandwidth_bytes_per_sec as int;
    if bw > 0 {
        assert((a * 1_000_000 + bw - 1) / bw <= (b * 1_000_000 + bw - 1) / bw) by (nonlinear_arith)
            requires
                a <= b,
                bw > 0,
        {
            vstd::arithmetic::div_mod::lemma_div_is_ordered(
                a * 1_000_000 + bw - 1,
                b * 1_000_000 + bw - 1,
                bw,
            );
        }
        assert((a * 1_000_000 + bw - 1) / bw >= 0) by (nonlinear_arith)
            requires
                bw > 0,
                a >= 0,
        ;
    }
}

impl Default for NetworkModel {
    /// A request that takes a while to start and then moves bytes quickly: 20 ms of latency
    /// and 100 MB/s.
    fn default() -> (m: NetworkModel)
        ensures
            m.latency_us == 20_000,
            m.bandwidth_bytes_per_sec == 100_000_000,
    {
        NetworkModel { latency_us: 20_000, bandwidth_bytes_per_sec: 100_000_000 }
    }
}

#[derive(Clone, Copy, Debug, PartialEq, Eq, Structural)]
pub enum Method {
    Head,
    Get,
}

impl Method {
    pub fn name(&self) -> (s: &'static str)
        ensures
            *self == Method::Head ==> s@ == "HEAD"@,
            *self == Method::Get ==> s@ == "GET"@,
    {
        match self {
            Method::Head => "HEAD",
            Method::Get => "GET",
        }
    }
}

/// One entry in the trace: a request, what came back, and what it cost.
#[derive(Clone, Debug, PartialEq, Eq)]
pub struct Request {
    pub seq: usize,
    pub method: Method,
    pub key: String,
    /// The `Range` header, if the request had one.
    pub range: Option<String>,
    pub why: String,
    /// 200 for a `HEAD`, 206 for a satisfied range, or the error status.
    pub status: u16,
    /// The bytes that came back, as offsets into the object.
    pub returned: Option<Span>,
    pub bytes_returned: u64,
    pub start_us: u64,
    pub end_us: u64,
}

/// Wraps a store, and records and prices every request that passes through it.
///
/// Requests are issued one after another, so each starts when the previous one ended. A clock
/// that would pass `u64::MAX` microseconds stays there.
#[derive(Debug)]
pub struct TracingStore<S> {
    inner: S,
    pub model: NetworkModel,
    pub requests: Vec<Request>,
    clock_us: u64,
}

/// The HTTP status of a failed request.
pub open spec fn error_status(e: StoreError) -> u16 {
    match e {
        StoreError::NotFound { .. } => 404,
        StoreError::RangeNotSatisfiable { .. } => 416,
    }
}

/// `a + b`, or `u64::MAX` when that does not fit.
pub open spec fn add_saturating(a: nat, b: nat) -> nat {
    if a + b <= u64::MAX {
        a + b
    } else {
        u64::MAX as nat
    }
}

/// The number of the next request: one more than the requests so far, stopping at
/// `usize::MAX`.
pub open spec fn next_seq(n: nat) -> nat {
    if n + 1 <= usize::MAX {
        n + 1
    } else {
        usize::MAX as nat
    }
}

/// The total of every request's returned bytes.
pub open spec fn total_returned(requests: Seq<Request>) -> nat
    decreases requests.len(),
{
    if requests.len() == 0 {
        0
    } else {
        total_returned(requests.drop_last()) + requests.last().bytes_returned as nat
    }
}

/// What a trace entry records: the request, its status and returned span, and a cost that
/// starts where the clock stood.
pub open spec fn recorded(
    r: Request,
    seq: nat,
    method: Method,
    key: Seq<char>,
    range: Option<Seq<char>>,
    why: Seq<char>,
    status: u16,
    returned: Option<Span>,
    model: NetworkModel,
    clock: u64,
) -> bool {
    let bytes: nat = match returned {
        Some(s) => if s.start <= s.end {
            (s.end - s.start) as nat
        } else {
            0
        },
        None => 0,
    };
    &&& r.seq == seq
    &&& r.method == method
    &&& r.key@ == key
    &&& match range {
        Some(t) => r.range matches Some(h) && h@ == t,
        None => r.range is None,
    }
    &&& r.why@ == why
    &&& r.status == status
    &&& r.returned == returned
    &&& r.bytes_returned == bytes
    &&& r.start_us == clock
    &&& r.end_us == add_saturating(
        clock as nat,
        (if request_cost(model, bytes) <= u64::MAX {
            request_cost(model, bytes)
        } else {
            u64::MAX as nat
        }),
    )
}

impl<S: ObjectStore> TracingStore<S> {
    /// Every request so far, oldest first.
    pub closed spec fn trace(&self) -> Seq<Request> {
        self.requests@
    }

    /// The model that prices the requests.
    pub closed spec fn net(&self) -> NetworkModel {
        self.model
    }

    /// The simulated clock, in microseconds.
    pub closed spec fn clock(&self) -> u64 {
        self.clock_us
    }

    /// The store being traced.
    pub closed spec fn inner(&self) -> S {
        self.inner
    }

    pub fn new(inner: S, model: NetworkModel) -> (t: TracingStore<S>)
        ensures
            t.inner() == inner,
            t.objects() == inner.objects(),
            t.net() == model,
            t.trace().len() == 0,
            t.clock() == 0,
    {
        TracingStore { inner, model, requests: Vec::new(), clock_us: 0 }
    }

    /// Total simulated time for every request so far.
    pub fn elapsed_us(&self) -> (t: u64)
        ensures
            t == self.clock(),
    {
        self.clock_us
    }

    pub fn bytes_returned(&self) -> (n: u64)
        requires
            total_returned(self.trace()) <= u64::MAX,
        ensures
            n == total_returned(self.trace()),
    {
        let mut total: u64 = 0;
        let mut i: usize = 0;
        while i < self.requests.len()
            invariant
                i <= self.requests@.len(),
                total == total_returned(self.requests@.subrange(0, i as int)),
                total_returned(self.requests@) <= u64::MAX,
            decreases self.requests@.len() - i,
        {
            proof {
                assert(self.requests@.subrange(0, i + 1).drop_last() =~= self.requests@.subrange(
                    0,
                    i as int,
                ));
                lemma_total_prefix(self.requests@, i as int + 1);
            }
            total = total + self.requests[i].bytes_returned;
            i = i + 1;
        }
        assert(self.requests@.subrange(0, self.requests@.len() as int) =~= self.requests@);
        total
    }

    fn record(
        &mut self,
        method: Method,
        key: &str,
        range: Option<String>,
        why: &str,
        status: u16,
        returned: Option<Span>,
    )
        ensures
            final(self).inner() == old(self).inner(),
            final(self).net() == old(self).net(),
            final(self).trace().len() == old(self).trace().len() + 1,
            final(self).trace().drop_last() == old(self).trace(),
            recorded(
                final(self).trace().last(),
                next_seq(old(self).trace().len()),
                method,
                key@,
                match range {
                    Some(h) => Some(h@),
                    None => None,
                },
                why@,
                status,
                returned,
                old(self).net(),
                old(self).clock(),
            ),
            final(self).clock() == final(self).trace().last().end_us,
    {
        let bytes = match returned {
            Some(s) => if s.start <= s.end {
                s.end - s.start
            } else {
                0
            },
            None => 0,
        };
        let start_us = self.clock_us;
        let cost = self.model.cost_saturating(bytes);
        self.clock_us = self.clock_us.saturating_add(cost);
        let seq = self.requests.len().saturating_add(1);
        let request = Request {
            seq,
            method,
            key: String::from_str(key),
            range,
            why: String::from_str(why),
            status,
            returned,
            bytes_returned: bytes,
            start_us,
            end_us: self.clock_us,
        };
        self.requests.push(request);
        proof {
            assert(self.requests@.drop_last() =~= old(self).trace());
        }
    }
}

proof fn lemma_total_prefix(requests: Seq<Request>, n: int)
    requires
        0 <= n <= requests.len(),
    ensures
        total_returned(requests.subrange(0, n)) <= total_returned(requests),
    decreases requests.len(),
{
    if n < requests.len() {
        lemma_total_prefix(requests.drop_last(), n);
        assert(requests.drop_last().subrange(0, n) =~= requests.subrange(0, n));
    } else {
        assert(requests.subrange(0, n) =~= requests);
    }
}

/// The HTTP status of a failed request.
fn status_of(e: &StoreError) -> (s: u16)
    ensures
        s == error_status(*e),
{
    match e {
        StoreError::NotFound { .. } => 404,
        StoreError::RangeNotSatisfiable { .. } => 416,
    }
}

impl<S: ObjectStore> ObjectStore for TracingStore<S> {
    closed spec fn objects(&self) -> Map<Seq<char>, Seq<u8>> {
        self.inner.objects()
    }

    /// The trace records every request's `Range` header, so the range must have one.
    closed spec fn get_allowed(&self, key: Seq<char>, range: GetRange) -> bool {
        range_ok(range) && self.inner.get_allowed(key, range)
    }

    proof fn lemma_range_ok_allowed(&self, key: Seq<char>, range: GetRange) {
        self.inner.lemma_range_ok_allowed(key, range);
    }

    /// Ask the inner store, and record the request: status 200, or the error's status.
    fn head(&mut self, key: &str, why: &str) -> (r: Result<u64, StoreError>)
        ensures
            final(self).net() == old(self).net(),
            final(self).trace().drop_last() == old(self).trace(),
            final(self).trace().len() == old(self).trace().len() + 1,
            recorded(
                final(self).trace().last(),
                next_seq(old(self).trace().len()),
                Method::Head,
                key@,
                None,
                why@,
                match r {
                    Ok(_) => 200u16,
                    Err(e) => error_status(e),
                },
                None,
                old(self).net(),
                old(self).clock(),
            ),
            final(self).clock() == final(self).trace().last().end_us,
    {
        let result = self.inner.head(key, why);
        let status: u16 = match &result {
            Ok(_) => 200,
            Err(e) => status_of(e),
        };
        self.record(Method::Head, key, None, why, status, None);
        result
    }

    /// Ask the inner store, and record the request with its range header: status 206 and the
    /// span returned, or the error's status and nothing returned.
    fn get(&mut self, key: &str, range: GetRange, why: &str) -> (r: Result<GetResult, StoreError>)
        ensures
            final(self).net() == old(self).net(),
            final(self).trace().drop_last() == old(self).trace(),
            final(self).trace().len() == old(self).trace().len() + 1,
            recorded(
                final(self).trace().last(),
                next_seq(old(self).trace().len()),
                Method::Get,
                key@,
                Some(range_text(range)),
                why@,
                match r {
                    Ok(_) => 206u16,
                    Err(e) => error_status(e),
                },
                match r {
                    Ok(g) => Some(g.span),
                    Err(_) => None,
                },
                old(self).net(),
                old(self).clock(),
            ),
            final(self).clock() == final(self).trace().last().end_us,
    {
        let result = self.inner.get(key, range, why);
        let (status, returned): (u16, Option<Span>) = match &result {
            Ok(g) => (206, Some(g.span)),
            Err(e) => (status_of(e), None),
        };
        let header = range.header();
        self.record(Method::Get, key, Some(header), why, status, returned);
        result
    }
}

} // verus!
