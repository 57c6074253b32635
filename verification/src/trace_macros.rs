//! Trace / instrumentation support for verification.
//!
//! Trace lines are rendered into a fixed byte buffer with an [`ArrayWriter`]
//! (no allocation; longer messages are truncated), and a [`RingTrace`]
//! collector keeps the most recent records for tests and tooling.
use vstd::prelude::*;
use vstd::string::StringSliceAdditionalSpecFns;
use vstd::utf8::valid_utf8;

verus! {

/// Default capacity of the per-event format buffer.
pub const TRACE_BUF_LEN: usize = 256;

/// `core::fmt::Error`, the error of `fmt::Write`, declared so that the
/// writer's `write_str` can name its result type; nothing is claimed of it
/// (the writer never returns it).
#[verifier::external_type_specification]
#[verifier::external_body]
pub struct ExFmtError(core::fmt::Error);

/// `core::str::from_utf8`, with `""` in place of an error: valid UTF-8
/// gives the string of exactly those bytes; anything else gives `""`.
#[verifier::external_body]
fn utf8_or_empty(bytes: &[u8]) -> (r: &str)
    ensures
        valid_utf8(bytes@) ==> r.spec_bytes() == bytes@,
        !valid_utf8(bytes@) ==> r@ == Seq::<char>::empty(),
{
    core::str::from_utf8(bytes).unwrap_or("")
}

/// A `fmt::Write` sink backed by a fixed byte buffer (no allocation).
pub struct ArrayWriter<'a> {
    buf: &'a mut [u8],
    len: usize,
}

impl<'a> ArrayWriter<'a> {
    #[verifier::type_invariant]
    closed spec fn len_in_buf(&self) -> bool {
        self.len <= self.buf@.len()
    }

    /// The capacity of the buffer.
    pub closed spec fn capacity(&self) -> nat {
        self.buf@.len()
    }

    /// The bytes written so far.
    pub closed spec fn written(&self) -> Seq<u8> {
        self.buf@.subrange(0, self.len as int)
    }

    /// Wrap `buf` for formatted writing.
    pub fn new(buf: &'a mut [u8]) -> (r: Self)
        ensures
            r.capacity() == old(buf)@.len(),
            r.written() == Seq::<u8>::empty(),
    {
        let r = ArrayWriter { buf, len: 0 };
        proof {
            assert(r.written() =~= Seq::<u8>::empty());
        }
        r
    }

    /// Number of bytes written so far.
    pub fn len(&self) -> (r: usize)
        ensures
            r == self.written().len(),
    {
        proof {
            use_type_invariant(self);
        }
        self.len
    }

    /// Whether nothing has been written yet.
    pub fn is_empty(&self) -> (r: bool)
        ensures
            r == (self.written().len() == 0),
    {
        proof {
            use_type_invariant(self);
        }
        self.len == 0
    }

    /// View the written bytes as a string slice (`""` if they are not
    /// valid UTF-8, as after a cut inside a multi-byte character).
    pub fn as_str(&self) -> (r: &str)
        ensures
            valid_utf8(self.written()) ==> r.spec_bytes() == self.written(),
            !valid_utf8(self.written()) ==> r@ == Seq::<char>::empty(),
    {
        proof {
            use_type_invariant(self);
        }
        let all: &[u8] = &*self.buf;
        let prefix = vstd::slice::slice_subrange(all, 0, self.len);
        utf8_or_empty(prefix)
    }

    /// Append the bytes of `s`, as many as fit: the written bytes become
    /// the old ones followed by those of `s`, cut at the capacity.
    pub fn write_bytes_of(&mut self, s: &str)
        ensures
            final(self).capacity() == old(self).capacity(),
            final(self).written() == (old(self).written() + s.spec_bytes()).subrange(
                0,
                if old(self).written().len() + s.spec_bytes().len() <= old(self).capacity() {
                    (old(self).written().len() + s.spec_bytes().len()) as int
                } else {
                    old(self).capacity() as int
                },
            ),
    {
        proof {
            use_type_invariant(&*self);
        }
        let bytes = s.as_bytes();
        let space = self.buf.len() - self.len;
        let take = if space <= bytes.len() {
            space
        } else {
            bytes.len()
        };
        let start = self.len;
        let cap = self.buf.len();
        let ghost b0 = self.buf@;
        let mut k: usize = 0;
        while k < take
            invariant
                0 <= k <= take,
                take <= bytes@.len(),
                start + take <= cap,
                cap == self.buf@.len(),
                self.len == start,
                self.buf@.len() == b0.len(),
                forall|j: int| 0 <= j < start ==> self.buf@[j] == b0[j],
                forall|j: int| 0 <= j < k ==> self.buf@[start + j] == bytes@[j],
            decreases take - k,
        {
            self.buf[start + k] = bytes[k];
            k += 1;
        }
        self.len = start + take;
        proof {
            let target = (b0.subrange(0, start as int) + bytes@).subrange(0, (start + take) as int);
            assert(self.written() =~= target);
        }
    }
}

impl<'a> core::fmt::Write for ArrayWriter<'a> {
    fn write_str(&mut self, s: &str) -> (r: core::fmt::Result)
        ensures
            r is Ok,
            final(self).capacity() == old(self).capacity(),
            final(self).written() == (old(self).written() + s.spec_bytes()).subrange(
                0,
                if old(self).written().len() + s.spec_bytes().len() <= old(self).capacity() {
                    (old(self).written().len() + s.spec_bytes().len()) as int
                } else {
                    old(self).capacity() as int
                },
            ),
    {
        self.write_bytes_of(s);
        Ok(())
    }
}

/// A captured trace record.
#[derive(Debug, Clone, PartialEq, Eq)]
pub struct Record {
    /// Monotonic sequence number.
    pub seq: u64,
    /// Target label.
    pub target: String,
    /// Formatted message.
    pub msg: String,
}

/// `recs` holds the last of the `events` emitted so far (as many as
/// `cap` allows), oldest first, each numbered by its place among all the
/// events.
pub open spec fn ring_window(events: Seq<(Seq<char>, Seq<char>)>, cap: nat, recs: Seq<Record>) -> bool {
    let k = events.len();
    let len = if k < cap { k } else { cap };
    &&& recs.len() == len
    &&& forall|j: int| 0 <= j < len ==> {
        &&& (#[trigger] recs[j]).seq == k - len + j
        &&& recs[j].target@ == events[k - len + j].0
        &&& recs[j].msg@ == events[k - len + j].1
    }
}

/// A fixed-capacity ring buffer of trace records.
pub struct RingTrace {
    records: Vec<Record>,
    capacity: usize,
    seq: u64,
}

impl RingTrace {
    #[verifier::type_invariant]
    closed spec fn within_capacity(&self) -> bool {
        &&& 1 <= self.capacity
        &&& self.records@.len() <= self.capacity
    }

    /// The records kept, oldest first.
    pub closed spec fn spec_records(&self) -> Seq<Record> {
        self.records@
    }

    /// The number of records kept at most.
    pub closed spec fn spec_capacity(&self) -> nat {
        self.capacity as nat
    }

    /// The sequence number of the next record.
    pub closed spec fn spec_seq(&self) -> nat {
        self.seq as nat
    }

    /// Create a ring buffer retaining up to `capacity` records (at least one).
    pub fn new(capacity: usize) -> (r: Self)
        ensures
            r.spec_records() == Seq::<Record>::empty(),
            r.spec_capacity() == if capacity >= 1 {
                capacity as nat
            } else {
                1
            },
            r.spec_seq() == 0,
            1 <= r.spec_capacity(),
    {
        RingTrace {
            records: Vec::new(),
            capacity: if capacity >= 1 {
                capacity
            } else {
                1
            },
            seq: 0,
        }
    }

    /// Capture one trace line: it gets the next sequence number, and the
    /// oldest record is dropped when the capacity would be exceeded.
    pub fn record(&mut self, target: &str, msg: &str)
        requires
            old(self).spec_seq() < u64::MAX,
        ensures
            final(self).spec_capacity() == old(self).spec_capacity(),
            1 <= final(self).spec_capacity(),
            final(self).spec_records().len() <= final(self).spec_capacity(),
            final(self).spec_seq() == old(self).spec_seq() + 1,
            final(self).spec_records().len() == if old(self).spec_records().len() < old(
                self,
            ).spec_capacity() {
                old(self).spec_records().len() + 1
            } else {
                old(self).spec_records().len() + 0
            },
            final(self).spec_records().last().seq == old(self).spec_seq(),
            final(self).spec_records().last().target@ == target@,
            final(self).spec_records().last().msg@ == msg@,
            final(self).spec_records().drop_last() == if old(self).spec_records().len() < old(
                self,
            ).spec_capacity() {
                old(self).spec_records()
            } else {
                old(self).spec_records().drop_first()
            },
            RingTrace::recorded(*old(self), *final(self), target@, msg@),
    {
        proof {
            use_type_invariant(&*self);
        }
        let rec = Record { seq: self.seq, target: target.to_owned(), msg: msg.to_owned() };
        let ghost r0 = self.records@;
        let mut records: Vec<Record> = Vec::new();
        std::mem::swap(&mut records, &mut self.records);
        records.push(rec);
        if records.len() > self.capacity {
            records.remove(0);
        }
        proof {
            assert(records@.drop_last() =~= if r0.len() < self.capacity {
                r0
            } else {
                r0.drop_first()
            });
        }
        self.records = records;
        self.seq = self.seq + 1;
    }

    /// `b` is `a` after recording one line with `target` and `msg`.
    pub open spec fn recorded(a: RingTrace, b: RingTrace, target: Seq<char>, msg: Seq<char>) -> bool {
        &&& b.spec_capacity() == a.spec_capacity()
        &&& b.spec_seq() == a.spec_seq() + 1
        &&& b.spec_records().len() == if a.spec_records().len() < a.spec_capacity() {
            a.spec_records().len() + 1
        } else {
            a.spec_records().len() + 0
        }
        &&& b.spec_records().last().seq == a.spec_seq()
        &&& b.spec_records().last().target@ == target
        &&& b.spec_records().last().msg@ == msg
        &&& b.spec_records().drop_last() == if a.spec_records().len() < a.spec_capacity() {
            a.spec_records()
        } else {
            a.spec_records().drop_first()
        }
    }

    /// Recording a line keeps the records the window of the last events:
    /// starting from an empty buffer, after `k` lines the buffer holds the
    /// last `min(k, capacity)` of them in order, numbered `k - len ..`.
    pub proof fn lemma_ring_window(
        a: RingTrace,
        b: RingTrace,
        events: Seq<(Seq<char>, Seq<char>)>,
        target: Seq<char>,
        msg: Seq<char>,
    )
        requires
            1 <= a.spec_capacity(),
            a.spec_seq() == events.len(),
            ring_window(events, a.spec_capacity(), a.spec_records()),
            RingTrace::recorded(a, b, target, msg),
        ensures
            b.spec_seq() == events.len() + 1,
            ring_window(events.push((target, msg)), b.spec_capacity(), b.spec_records()),
    {
        let e2 = events.push((target, msg));
        let cap = a.spec_capacity();
        let k = events.len();
        let r = a.spec_records();
        let r2 = b.spec_records();
        let len2: int = if k + 1 < cap { (k + 1) as int } else { cap as int };
        assert forall|j: int| 0 <= j < len2 implies {
            &&& (#[trigger] r2[j]).seq == (k + 1) - len2 + j
            &&& r2[j].target@ == e2[(k + 1) - len2 + j].0
            &&& r2[j].msg@ == e2[(k + 1) - len2 + j].1
        } by {
            if j == len2 - 1 {
                assert(r2[j] == r2.last());
            } else {
                assert(r2[j] == r2.drop_last()[j]);
                if r.len() < cap {
                    assert(r2.drop_last()[j] == r[j]);
                } else {
                    assert(r2.drop_last()[j] == r[j + 1]);
                }
            }
        }
    }

    /// Snapshot of captured records.
    pub fn records(&self) -> (r: &[Record])
        ensures
            r@ == self.spec_records(),
    {
        self.records.as_slice()
    }

    /// Number of captured records.
    pub fn len(&self) -> (r: usize)
        ensures
            r == self.spec_records().len(),
    {
        self.records.len()
    }

    /// Whether no records have been captured.
    pub fn is_empty(&self) -> (r: bool)
        ensures
            r == (self.spec_records().len() == 0),
    {
        self.records.len() == 0
    }

    /// Remove all captured records.
    pub fn clear(&mut self)
        ensures
            final(self).spec_records() == Seq::<Record>::empty(),
            final(self).spec_seq() == 0,
            final(self).spec_capacity() == old(self).spec_capacity(),
    {
        proof {
            use_type_invariant(&*self);
        }
        let mut records: Vec<Record> = Vec::new();
        std::mem::swap(&mut records, &mut self.records);
        self.seq = 0;
    }
}

} // verus!
