//! Buffer descriptors and the fixed-capacity inventory that issues them,
//! together with the wire form of a host range for handoff between sides.
//!
//! A buffer carries a *head* range, registered with a memory map, and a
//! mutable *active* sub-range within it that marks the payload of a job.  The
//! active sub-range must lie within the head range.

use vstd::prelude::*;

use crate::error::DOCAError;
use crate::error::DOCAResult;
use crate::codec::push_dec_u64;
use crate::codec::spec_dec_u64;
use crate::codec::spec_digits_val;
use crate::codec::spec_is_digit;
use crate::codec::lemma_dec_all_digits;
use crate::codec::lemma_dec_val;
use crate::memory::DOCAMmap;
use crate::memory::RawPointer;

verus! {

/// A fixed-capacity pool of buffer descriptors.  The capacity is set at
/// construction and immutable; the pool counts the descriptors drawn from it
/// and not yet freed, and refuses further allocation when full.
pub struct BufferInventory {
    capacity: usize,
    allocated: usize,
}

impl BufferInventory {
    /// The fixed number of descriptors the pool can have outstanding.
    pub closed spec fn spec_capacity(self) -> usize {
        self.capacity
    }

    /// The number of descriptors drawn and not yet freed.
    pub closed spec fn spec_allocated(self) -> usize {
        self.allocated
    }

    /// A pool of `num` descriptors, started and ready for allocation.
    pub fn new(num: usize) -> (r: DOCAResult<BufferInventory>)
        ensures
            r is Ok,
            r matches Ok(inv) ==> inv.spec_capacity() == num && inv.spec_allocated() == 0,
    {
        Ok(BufferInventory { capacity: num, allocated: 0 })
    }

    /// The fixed capacity.
    pub fn capacity(&self) -> (r: usize)
        ensures
            r == self.spec_capacity(),
    {
        self.capacity
    }

    /// The number of descriptors drawn and not yet freed.
    pub fn allocated(&self) -> (r: usize)
        ensures
            r == self.spec_allocated(),
    {
        self.allocated
    }

    /// Draws one descriptor from the pool.
    pub(crate) fn note_alloc(&mut self) -> (r: DOCAResult<()>)
        ensures
            final(self).spec_capacity() == old(self).spec_capacity(),
            r is Ok <==> old(self).spec_allocated() < old(self).spec_capacity(),
            r is Ok ==> final(self).spec_allocated() == old(self).spec_allocated() + 1,
            r is Err ==> *final(self) == *old(self) && r == Err::<(), DOCAError>(
                DOCAError::NoMemory,
            ),
    {
        if self.allocated >= self.capacity {
            return Err(DOCAError::NoMemory);
        }
        self.allocated = self.allocated + 1;
        Ok(())
    }

    /// Returns one descriptor to the pool.
    pub(crate) fn note_free(&mut self) -> (r: DOCAResult<()>)
        ensures
            final(self).spec_capacity() == old(self).spec_capacity(),
            r is Ok <==> old(self).spec_allocated() >= 1,
            r is Ok ==> final(self).spec_allocated() == old(self).spec_allocated() - 1,
            r is Err ==> *final(self) == *old(self) && r == Err::<(), DOCAError>(
                DOCAError::InvalidValue,
            ),
    {
        if self.allocated == 0 {
            return Err(DOCAError::InvalidValue);
        }
        self.allocated = self.allocated - 1;
        Ok(())
    }
}

/// A buffer descriptor: a head range registered with a memory map, and the
/// active payload sub-range within it.  The descriptor is plain data and may
/// be copied; the inventory and map counters track how many live descriptors
/// were drawn, and [`DOCABuffer::free`] returns one.
#[derive(Clone, Copy)]
pub struct DOCABuffer {
    head: RawPointer,
    data_off: usize,
    data_len: usize,
}

impl DOCABuffer {
    /// The head range.
    pub closed spec fn spec_head(self) -> RawPointer {
        self.head
    }

    /// The offset of the active sub-range within the head range.
    pub closed spec fn spec_data_off(self) -> usize {
        self.data_off
    }

    /// The byte length of the active sub-range.
    pub closed spec fn spec_data_len(self) -> usize {
        self.data_len
    }

    /// Well-formedness: the active sub-range lies within the head range, and
    /// the head range ends within the address space.
    pub open spec fn wf(self) -> bool {
        &&& self.spec_data_off() + self.spec_data_len() <= self.spec_head().payload
        &&& self.spec_head().inner + self.spec_head().payload <= u64::MAX
    }

    /// Internal constructor used by the registered-memory path: the active
    /// sub-range starts empty.
    pub(crate) fn from_head(head: RawPointer) -> (r: DOCABuffer)
        requires
            head.inner + head.payload <= u64::MAX,
        ensures
            r.wf(),
            r.spec_head() == head,
            r.spec_data_off() == 0,
            r.spec_data_len() == 0,
    {
        DOCABuffer { head, data_off: 0, data_len: 0 }
    }

    /// The head range.
    pub fn head(&self) -> (r: RawPointer)
        ensures
            r == self.spec_head(),
    {
        self.head
    }

    /// The offset of the active sub-range within the head range.
    pub fn data_off(&self) -> (r: usize)
        ensures
            r == self.spec_data_off(),
    {
        self.data_off
    }

    /// The byte length of the active sub-range.
    pub fn data_len(&self) -> (r: usize)
        ensures
            r == self.spec_data_len(),
    {
        self.data_len
    }

    /// `true` when the descriptor is well formed: the active sub-range lies
    /// within the head range, which ends within the address space.
    pub fn is_wf(&self) -> (r: bool)
        ensures
            r == self.wf(),
    {
        self.data_off <= self.head.payload && self.data_len <= self.head.payload - self.data_off
            && self.head.payload as u64 <= u64::MAX - self.head.inner
    }

    /// The address of the active sub-range: the head address plus the active
    /// offset.
    pub fn get_data(&self) -> (r: DOCAResult<u64>)
        requires
            self.wf(),
        ensures
            r == Ok::<u64, DOCAError>((self.spec_head().inner + self.spec_data_off()) as u64),
    {
        Ok(self.head.inner + (self.data_off as u64))
    }

    /// Sets the active sub-range.  Rejected exactly when `off + sz` exceeds
    /// the head length.
    pub fn set_data(&mut self, off: usize, sz: usize) -> (r: DOCAResult<()>)
        requires
            old(self).wf(),
        ensures
            final(self).wf(),
            final(self).spec_head() == old(self).spec_head(),
            r is Ok <==> off + sz <= old(self).spec_head().payload,
            r is Ok ==> final(self).spec_data_off() == off && final(self).spec_data_len() == sz,
            r is Err ==> *final(self) == *old(self) && r == Err::<(), DOCAError>(
                DOCAError::InvalidValue,
            ),
    {
        if off > self.head.payload || sz > self.head.payload - off {
            return Err(DOCAError::InvalidValue);
        }
        self.data_off = off;
        self.data_len = sz;
        Ok(())
    }

    /// Releases the descriptor, returning it to its inventory and releasing
    /// its hold on its memory map.
    pub fn free(self, inv: &mut BufferInventory, mmap: &mut DOCAMmap) -> (r: DOCAResult<()>)
        ensures
            r is Ok <==> old(inv).spec_allocated() >= 1 && old(mmap).spec_outstanding() >= 1,
            r is Ok ==> final(inv).spec_allocated() == old(inv).spec_allocated() - 1,
            r is Ok ==> final(mmap).spec_outstanding() == old(mmap).spec_outstanding() - 1,
            final(inv).spec_capacity() == old(inv).spec_capacity(),
            final(mmap).devices_view() == old(mmap).devices_view(),
            final(mmap).chunks_view() == old(mmap).chunks_view(),
            final(mmap).spec_removal_forbidden() == old(mmap).spec_removal_forbidden(),
            final(mmap).spec_is_remote() == old(mmap).spec_is_remote(),
            old(mmap).wf() ==> final(mmap).wf(),
            r matches Err(e) ==> e == DOCAError::InvalidValue || e == DOCAError::NotPermitted,
    {
        if inv.allocated() == 0 {
            return Err(DOCAError::InvalidValue);
        }
        match mmap.note_buffer_free() {
            Ok(()) => inv.note_free(),
            Err(e) => Err(e),
        }
    }
}

/// The opening bytes of the wire form: `{"inner":`.
pub open spec fn spec_msg_prefix() -> Seq<u8> {
    seq![123u8, 34u8, 105u8, 110u8, 110u8, 101u8, 114u8, 34u8, 58u8]
}

/// The separating bytes of the wire form: `,"payload":`.
pub open spec fn spec_msg_sep() -> Seq<u8> {
    seq![44u8, 34u8, 112u8, 97u8, 121u8, 108u8, 111u8, 97u8, 100u8, 34u8, 58u8]
}

/// A host range in wire form: the address and length of a remote buffer, for
/// sending between the two cooperating sides.
#[derive(Clone, Copy, Debug, PartialEq, Eq, Structural)]
pub struct RawPointerMsg {
    /// The start address carried by the message.
    pub inner: u64,
    /// The byte length carried by the message.
    pub payload: usize,
}

impl RawPointerMsg {
    /// The start address carried by the message.
    pub open spec fn spec_inner(self) -> u64 {
        self.inner
    }

    /// The byte length carried by the message.
    pub open spec fn spec_payload(self) -> usize {
        self.payload
    }
}

/// The rendered wire bytes of a message:
/// `{"inner":<address>,"payload":<length>}` with both numbers in decimal.
pub open spec fn spec_msg_render(m: RawPointerMsg) -> Seq<u8> {
    spec_msg_prefix() + spec_dec_u64(m.spec_inner()) + spec_msg_sep() + spec_dec_u64(
        m.spec_payload() as u64,
    ) + seq![125u8]
}

/// The end of the run of decimal digits starting at `i`.
pub open spec fn spec_digit_run_end(s: Seq<u8>, i: int) -> int
    decreases s.len() - i,
{
    if 0 <= i < s.len() && spec_is_digit(s[i]) {
        spec_digit_run_end(s, i + 1)
    } else {
        i
    }
}

/// The message the wire bytes denote, or `None` when they are not of the
/// rendered shape.
pub open spec fn spec_msg_parse(s: Seq<u8>) -> Option<RawPointerMsg> {
    let p = spec_msg_prefix().len() as int;
    let e1 = spec_digit_run_end(s, p);
    let d1 = s.subrange(p, e1);
    let sep_end = e1 + spec_msg_sep().len();
    let e2 = spec_digit_run_end(s, sep_end);
    let d2 = s.subrange(sep_end, e2);
    if s.len() >= p && s.subrange(0, p) == spec_msg_prefix() && e1 > p && spec_digits_val(d1)
        <= u64::MAX && sep_end <= s.len() && s.subrange(e1, sep_end) == spec_msg_sep() && e2
        > sep_end && spec_digits_val(d2) <= usize::MAX && e2 + 1 == s.len() && s[e2] == 125 {
        Some(
            RawPointerMsg {
                inner: spec_digits_val(d1) as u64,
                payload: spec_digits_val(d2) as usize,
            },
        )
    } else {
        None
    }
}

/// A digit run bounded by a non-digit ends exactly at the non-digit.
proof fn lemma_digit_run_end_of(s: Seq<u8>, i: int, j: int)
    requires
        0 <= i <= j < s.len(),
        forall|k: int| i <= k < j ==> spec_is_digit(#[trigger] s[k]),
        !spec_is_digit(s[j]),
    ensures
        spec_digit_run_end(s, i) == j,
    decreases j - i,
{
    if i < j {
        lemma_digit_run_end_of(s, i + 1, j);
    }
}

impl RawPointerMsg {
    /// Renders the message to its wire bytes.
    pub fn serialize(src: RawPointerMsg) -> (r: Vec<u8>)
        ensures
            r@ == spec_msg_render(src),
    {
        let mut out: Vec<u8> = Vec::new();
        out.push(123);
        out.push(34);
        out.push(105);
        out.push(110);
        out.push(110);
        out.push(101);
        out.push(114);
        out.push(34);
        out.push(58);
        proof {
            assert(out@ =~= spec_msg_prefix());
        }
        push_dec_u64(&mut out, src.inner);
        out.push(44);
        out.push(34);
        out.push(112);
        out.push(97);
        out.push(121);
        out.push(108);
        out.push(111);
        out.push(97);
        out.push(100);
        out.push(34);
        out.push(58);
        proof {
            assert(out@ =~= spec_msg_prefix() + spec_dec_u64(src.spec_inner()) + spec_msg_sep());
        }
        push_dec_u64(&mut out, src.payload as u64);
        out.push(125);
        proof {
            assert(out@ =~= spec_msg_render(src));
        }
        out
    }

    /// Reads a message from wire bytes.  Rejects every byte string that
    /// [`RawPointerMsg::serialize`] cannot have produced.
    pub fn try_deserialize(src: &Vec<u8>) -> (r: Option<RawPointerMsg>)
        ensures
            r == spec_msg_parse(src@),
    {
        let p: usize = 9;
        if src.len() < p || !(src[0] == 123 && src[1] == 34 && src[2] == 105 && src[3] == 110
            && src[4] == 110 && src[5] == 101 && src[6] == 114 && src[7] == 34 && src[8] == 58) {
            proof {
                if src@.len() >= p && src@.subrange(0, p as int) == spec_msg_prefix() {
                    assert(src@[0] == 123 && src@[1] == 34 && src@[2] == 105 && src@[3] == 110
                        && src@[4] == 110 && src@[5] == 101 && src@[6] == 114 && src@[7] == 34
                        && src@[8] == 58) by {
                        assert(src@.subrange(0, 9)[0] == src@[0]);
                        assert(src@.subrange(0, 9)[1] == src@[1]);
                        assert(src@.subrange(0, 9)[2] == src@[2]);
                        assert(src@.subrange(0, 9)[3] == src@[3]);
                        assert(src@.subrange(0, 9)[4] == src@[4]);
                        assert(src@.subrange(0, 9)[5] == src@[5]);
                        assert(src@.subrange(0, 9)[6] == src@[6]);
                        assert(src@.subrange(0, 9)[7] == src@[7]);
                        assert(src@.subrange(0, 9)[8] == src@[8]);
                    }
                }
            }
            return None;
        }
        proof {
            assert(src@.subrange(0, p as int) =~= spec_msg_prefix());
        }
        let (v1, e1) = match scan_number(src, p) {
            None => {
                return None;
            },
            Some(x) => x,
        };
        let sp: usize = 11;
        if src.len() - e1 < sp || !(src[e1] == 44 && src[e1 + 1] == 34 && src[e1 + 2] == 112
            && src[e1 + 3] == 97 && src[e1 + 4] == 121 && src[e1 + 5] == 108 && src[e1 + 6] == 111
            && src[e1 + 7] == 97 && src[e1 + 8] == 100 && src[e1 + 9] == 34 && src[e1 + 10]
            == 58) {
            proof {
                let e = e1 as int;
                if e + sp <= src@.len() && src@.subrange(e, e + sp) == spec_msg_sep() {
                    assert forall|k: int| 0 <= k < sp implies src@[e + k] == spec_msg_sep()[k] by {
                        assert(src@.subrange(e, e + sp)[k] == src@[e + k]);
                    }
                    assert(src@[e + 0] == 44 && src@[e + 1] == 34 && src@[e + 2] == 112 && src@[e
                        + 3] == 97 && src@[e + 4] == 121 && src@[e + 5] == 108 && src@[e + 6]
                        == 111 && src@[e + 7] == 97 && src@[e + 8] == 100 && src@[e + 9] == 34
                        && src@[e + 10] == 58);
                }
            }
            return None;
        }
        proof {
            assert(src@.subrange(e1 as int, e1 + sp) =~= spec_msg_sep());
        }
        let sep_end = e1 + sp;
        let (v2, e2) = match scan_number(src, sep_end) {
            None => {
                return None;
            },
            Some(x) => x,
        };
        if v2 > usize::MAX as u64 {
            return None;
        }
        if !(e2 < src.len() && src.len() - e2 == 1 && src[e2] == 125) {
            return None;
        }
        Some(RawPointerMsg { inner: v1, payload: v2 as usize })
    }

    /// Reads a message from wire bytes of the rendered shape.
    pub fn deserialize(src: &Vec<u8>) -> (r: RawPointerMsg)
        requires
            spec_msg_parse(src@) is Some,
        ensures
            Some(r) == spec_msg_parse(src@),
    {
        match Self::try_deserialize(src) {
            Some(m) => m,
            None => {
                proof {
                    assert(false);
                }
                RawPointerMsg { inner: 0, payload: 0 }
            },
        }
    }
}

/// Reads the run of decimal digits starting at `start`: its value and its
/// end.  `None` when the run is empty or its value exceeds 64 bits.
fn scan_number(s: &Vec<u8>, start: usize) -> (r: Option<(u64, usize)>)
    requires
        start <= s@.len(),
    ensures
        r matches Some(v) ==> {
            &&& v.1 == spec_digit_run_end(s@, start as int)
            &&& start < v.1 <= s@.len()
            &&& v.0 == spec_digits_val(s@.subrange(start as int, v.1 as int))
            &&& spec_digits_val(s@.subrange(start as int, v.1 as int)) <= u64::MAX
        },
        r is None ==> spec_digit_run_end(s@, start as int) == start || spec_digits_val(
            s@.subrange(start as int, spec_digit_run_end(s@, start as int)),
        ) > u64::MAX,
{
    let n = s.len();
    let ghost run_end = spec_digit_run_end(s@, start as int);
    proof {
        lemma_digit_run_end_bounds(s@, start as int);
    }
    let mut i: usize = start;
    let mut acc: u64 = 0;
    while i < n
        invariant
            start <= i <= n,
            n == s@.len(),
            run_end == spec_digit_run_end(s@, start as int),
            start <= run_end <= n,
            forall|k: int| start <= k < i ==> spec_is_digit(#[trigger] s@[k]),
            i <= run_end,
            acc == spec_digits_val(s@.subrange(start as int, i as int)),
        decreases n - i,
    {
        let b = s[i];
        if b < 48 || b > 57 {
            proof {
                lemma_digit_run_end_of(s@, start as int, i as int);
            }
            if i == start {
                return None;
            }
            return Some((acc, i));
        }
        let d: u64 = (b - 48) as u64;
        if acc > (u64::MAX - d) / 10 {
            proof {
                lemma_run_val_overflow(s@, start as int, i as int, acc, d);
            }
            return None;
        }
        proof {
            assert(acc * 10 + d <= u64::MAX) by (nonlinear_arith)
                requires
                    acc <= (u64::MAX - d) / 10 && d <= 9,
            ;
            assert(s@.subrange(start as int, i + 1).drop_last() =~= s@.subrange(
                start as int,
                i as int,
            ));
            lemma_digit_run_extends(s@, start as int, i as int);
        }
        acc = acc * 10 + d;
        i = i + 1;
    }
    proof {
        if i == n {
            lemma_digit_run_end_all(s@, start as int, n as int);
        }
    }
    if i == start {
        return None;
    }
    Some((acc, i))
}

/// The end of a digit run lies between its start and the string's end.
proof fn lemma_digit_run_end_bounds(s: Seq<u8>, i: int)
    requires
        0 <= i <= s.len(),
    ensures
        i <= spec_digit_run_end(s, i) <= s.len(),
        forall|k: int| i <= k < spec_digit_run_end(s, i) ==> spec_is_digit(#[trigger] s[k]),
    decreases s.len() - i,
{
    if i < s.len() && spec_is_digit(s[i]) {
        lemma_digit_run_end_bounds(s, i + 1);
    }
}

/// A position before a digit in a run stays inside the run.
proof fn lemma_digit_run_extends(s: Seq<u8>, start: int, i: int)
    requires
        0 <= start <= i < s.len(),
        forall|k: int| start <= k <= i ==> spec_is_digit(#[trigger] s[k]),
    ensures
        spec_digit_run_end(s, start) >= i + 1,
    decreases i - start,
{
    if start < i {
        lemma_digit_run_extends(s, start + 1, i);
    } else {
        lemma_digit_run_end_bounds(s, i + 1);
    }
}

/// A run of digits reaching the string's end ends at the string's end.
proof fn lemma_digit_run_end_all(s: Seq<u8>, i: int, n: int)
    requires
        0 <= i <= n,
        n == s.len(),
        forall|k: int| i <= k < n ==> spec_is_digit(#[trigger] s[k]),
    ensures
        spec_digit_run_end(s, i) == n,
    decreases n - i,
{
    if i < n {
        lemma_digit_run_end_all(s, i + 1, n);
    }
}

/// When a prefix of the digit run already denotes too large a value, the run
/// denotes a value above `u64::MAX`.
proof fn lemma_run_val_overflow(s: Seq<u8>, start: int, i: int, acc: u64, d: u64)
    requires
        0 <= start <= i < s.len(),
        forall|k: int| start <= k < i ==> spec_is_digit(#[trigger] s[k]),
        spec_is_digit(s[i]),
        acc == spec_digits_val(s.subrange(start, i)),
        d == s[i] - 48,
        acc > (u64::MAX - d) / 10,
    ensures
        spec_digits_val(s.subrange(start, spec_digit_run_end(s, start))) > u64::MAX,
        spec_digit_run_end(s, start) > start,
{
    let e = spec_digit_run_end(s, start);
    lemma_digit_run_end_bounds(s, start);
    lemma_digit_run_extends(s, start, i);
    assert(e >= i + 1);
    assert(acc * 10 + d > u64::MAX) by (nonlinear_arith)
        requires
            d <= 9 && acc > (u64::MAX - d) / 10,
    ;
    assert(s.subrange(start, i + 1).drop_last() =~= s.subrange(start, i));
    assert(spec_digits_val(s.subrange(start, i + 1)) == acc * 10 + d);
    lemma_run_val_monotone(s, start, i + 1, e);
}

/// Within a digit run, the value of a longer prefix is no smaller.
proof fn lemma_run_val_monotone(s: Seq<u8>, start: int, k: int, e: int)
    requires
        0 <= start <= k <= e <= s.len(),
        forall|j: int| start <= j < e ==> spec_is_digit(#[trigger] s[j]),
        spec_digits_val(s.subrange(start, k)) >= 0,
    ensures
        spec_digits_val(s.subrange(start, e)) >= spec_digits_val(s.subrange(start, k)),
    decreases e - k,
{
    if k < e {
        assert(s.subrange(start, k + 1).drop_last() =~= s.subrange(start, k));
        assert(spec_digits_val(s.subrange(start, k + 1)) == spec_digits_val(s.subrange(start, k))
            * 10 + (s[k] - 48));
        assert(spec_digits_val(s.subrange(start, k)) * 10 + (s[k] - 48) >= spec_digits_val(
            s.subrange(start, k),
        )) by (nonlinear_arith)
            requires
                spec_digits_val(s.subrange(start, k)) >= 0 && s[k] >= 48,
        ;
        lemma_run_val_monotone(s, start, k + 1, e);
    } else {
        assert(s.subrange(start, e) =~= s.subrange(start, k));
    }
}

/// Rendering a message and reading the bytes back yields the message: no
/// information is lost on the wire.
pub proof fn lemma_msg_roundtrip(m: RawPointerMsg)
    ensures
        spec_msg_parse(spec_msg_render(m)) == Some(m),
{
    let s = spec_msg_render(m);
    let p = spec_msg_prefix().len() as int;
    let d1 = spec_dec_u64(m.spec_inner());
    let d2 = spec_dec_u64(m.spec_payload() as u64);
    let e1 = p + d1.len() as int;
    let sep_end = e1 + spec_msg_sep().len() as int;
    let e2 = sep_end + d2.len() as int;
    lemma_dec_all_digits(m.spec_inner());
    lemma_dec_all_digits(m.spec_payload() as u64);
    lemma_dec_val(m.spec_inner());
    lemma_dec_val(m.spec_payload() as u64);
    assert(s.subrange(0, p) =~= spec_msg_prefix());
    assert(s.subrange(p, e1) =~= d1);
    assert(s.subrange(e1, sep_end) =~= spec_msg_sep());
    assert(s.subrange(sep_end, e2) =~= d2);
    assert(s[e1] == 44 && !spec_is_digit(s[e1]));
    assert(s[e2] == 125 && !spec_is_digit(s[e2]));
    assert forall|k: int| p <= k < e1 implies spec_is_digit(#[trigger] s[k]) by {
        assert(s[k] == d1[k - p]);
    }
    assert forall|k: int| sep_end <= k < e2 implies spec_is_digit(#[trigger] s[k]) by {
        assert(s[k] == d2[k - sep_end]);
    }
    lemma_digit_run_end_of(s, p, e1);
    lemma_digit_run_end_of(s, sep_end, e2);
    assert((m.spec_payload() as u64) as usize == m.spec_payload());
    assert(spec_msg_parse(s) == Some(m));
}

impl From<RawPointerMsg> for RawPointer {
    /// The host range a message denotes.
    fn from(msg: RawPointerMsg) -> (r: RawPointer) {
        RawPointer { inner: msg.inner, payload: msg.payload }
    }
}

impl vstd::std_specs::convert::FromSpecImpl<RawPointerMsg> for RawPointer {
    open spec fn obeys_from_spec() -> bool {
        true
    }

    open spec fn from_spec(msg: RawPointerMsg) -> RawPointer {
        RawPointer { inner: msg.spec_inner(), payload: msg.spec_payload() }
    }
}

impl From<RawPointer> for RawPointerMsg {
    /// The wire message for a host range.
    fn from(ptr: RawPointer) -> (r: RawPointerMsg) {
        RawPointerMsg { inner: ptr.inner, payload: ptr.payload }
    }
}

impl vstd::std_specs::convert::FromSpecImpl<RawPointer> for RawPointerMsg {
    open spec fn obeys_from_spec() -> bool {
        true
    }

    open spec fn from_spec(ptr: RawPointer) -> RawPointerMsg {
        RawPointerMsg { inner: ptr.inner, payload: ptr.payload }
    }
}

} // verus!
