//! The handoff between two cooperating sides: an exported descriptor plus a
//! two-line text record of the remote buffer's address and byte length, both
//! in decimal.
//!
//! Reading and writing the two files is the caller's job; this module
//! renders and reads the bytes and is the load/save contract's compute side.

use vstd::prelude::*;

use crate::codec::lemma_dec_u64_roundtrip;
use crate::codec::parse_dec_u64;
use crate::codec::push_dec_u64;
use crate::codec::spec_dec_u64;
use crate::codec::spec_parse_u64;
use crate::error::DOCAError;
use crate::error::DOCAResult;
use crate::memory::DOCA_MAX_EXPORT_LENGTH;
use crate::memory::RawPointer;

verus! {

/// The configuration loaded from a handoff: the exported descriptor and the
/// remote buffer's range.
pub struct LoadedInfo {
    /// The metadata for the remote memory map, as exported by the other
    /// side.
    pub export_desc: Vec<u8>,
    /// The remote buffer's range.
    pub remote_addr: RawPointer,
}

/// The position of the first line-feed byte at or after `i`, or the string's
/// end.
pub open spec fn spec_find_nl(s: Seq<u8>, i: int) -> int
    decreases s.len() - i,
{
    if 0 <= i < s.len() && s[i] != 10 {
        spec_find_nl(s, i + 1)
    } else {
        i
    }
}

/// The line without one trailing carriage return, if it carries one.
pub open spec fn spec_strip_cr(s: Seq<u8>) -> Seq<u8> {
    if s.len() > 0 && s.last() == 13 {
        s.drop_last()
    } else {
        s
    }
}

/// The two-line record of a buffer range: its address and its byte length,
/// each as a decimal line.
pub open spec fn spec_render_buffer_info(addr: u64, len: u64) -> Seq<u8> {
    spec_dec_u64(addr) + seq![10u8] + spec_dec_u64(len) + seq![10u8]
}

/// The address and length a two-line record denotes, or `None` when either
/// line is not a decimal number.
pub open spec fn spec_parse_buffer_info(s: Seq<u8>) -> Option<(u64, u64)> {
    let e1 = spec_find_nl(s, 0);
    let line2_start = e1 + 1;
    let e2 = spec_find_nl(s, line2_start);
    if e1 < s.len() && line2_start <= e2 <= s.len() {
        match (
            spec_parse_u64(spec_strip_cr(s.subrange(0, e1))),
            spec_parse_u64(spec_strip_cr(s.subrange(line2_start, e2))),
        ) {
            (Some(a), Some(l)) => Some((a, l)),
            _ => None,
        }
    } else {
        None
    }
}

/// The first line-feed at or after `i` lies between `i` and the string's
/// end, after no other line-feed.
proof fn lemma_find_nl_bounds(s: Seq<u8>, i: int)
    requires
        0 <= i <= s.len(),
    ensures
        i <= spec_find_nl(s, i) <= s.len(),
        forall|k: int| i <= k < spec_find_nl(s, i) ==> s[k] != 10,
        spec_find_nl(s, i) < s.len() ==> s[spec_find_nl(s, i)] == 10,
    decreases s.len() - i,
{
    if i < s.len() && s[i] != 10 {
        lemma_find_nl_bounds(s, i + 1);
    }
}

/// A line-feed bounding a feed-free range is the first one.
proof fn lemma_find_nl_of(s: Seq<u8>, i: int, j: int)
    requires
        0 <= i <= j < s.len(),
        forall|k: int| i <= k < j ==> s[k] != 10,
        s[j] == 10,
    ensures
        spec_find_nl(s, i) == j,
    decreases j - i,
{
    if i < j {
        lemma_find_nl_of(s, i + 1, j);
    }
}

/// Renders the two-line record of a buffer range.
pub fn render_buffer_info(addr: u64, len: u64) -> (r: Vec<u8>)
    ensures
        r@ == spec_render_buffer_info(addr, len),
{
    let mut out: Vec<u8> = Vec::new();
    push_dec_u64(&mut out, addr);
    out.push(10);
    push_dec_u64(&mut out, len);
    out.push(10);
    proof {
        assert(out@ =~= spec_render_buffer_info(addr, len));
    }
    out
}

/// Reads a two-line record.  Rejected with `InvalidValue` exactly when a
/// line is not a decimal number.
pub fn parse_buffer_info(bytes: &Vec<u8>) -> (r: DOCAResult<(u64, u64)>)
    ensures
        r is Ok <==> spec_parse_buffer_info(bytes@) is Some,
        r matches Ok(v) ==> Some(v) == spec_parse_buffer_info(bytes@),
        r matches Err(e) ==> e == DOCAError::InvalidValue,
{
    let n = bytes.len();
    let ghost e1g = spec_find_nl(bytes@, 0);
    proof {
        lemma_find_nl_bounds(bytes@, 0);
    }
    let mut e1: usize = 0;
    while e1 < n && bytes[e1] != 10
        invariant
            n == bytes@.len(),
            e1 <= n,
            e1g == spec_find_nl(bytes@, 0),
            forall|k: int| 0 <= k < e1 ==> bytes@[k] != 10,
            e1 <= e1g,
        decreases n - e1,
    {
        proof {
            lemma_find_nl_bounds(bytes@, 0);
            if e1 + 1 > e1g {
                assert(bytes@[e1g] != 10 || e1g >= bytes@.len());
            }
        }
        e1 = e1 + 1;
    }
    proof {
        if e1 < n {
            lemma_find_nl_of(bytes@, 0, e1 as int);
        } else {
            lemma_find_nl_bounds(bytes@, 0);
            assert(e1g == n);
        }
    }
    if e1 == n {
        return Err(DOCAError::InvalidValue);
    }
    let line2_start = e1 + 1;
    let ghost e2g = spec_find_nl(bytes@, line2_start as int);
    let mut e2: usize = line2_start;
    while e2 < n && bytes[e2] != 10
        invariant
            n == bytes@.len(),
            line2_start <= e2 <= n,
            e2g == spec_find_nl(bytes@, line2_start as int),
            forall|k: int| line2_start <= k < e2 ==> bytes@[k] != 10,
        decreases n - e2,
    {
        e2 = e2 + 1;
    }
    proof {
        if e2 < n {
            lemma_find_nl_of(bytes@, line2_start as int, e2 as int);
        } else {
            lemma_find_nl_bounds(bytes@, line2_start as int);
            assert(e2g == n);
        }
    }
    let line1 = copy_stripped_line(bytes, 0, e1);
    let line2 = copy_stripped_line(bytes, line2_start, e2);
    let v1 = match parse_dec_u64(&line1) {
        Some(v) => v,
        None => {
            return Err(DOCAError::InvalidValue);
        },
    };
    let v2 = match parse_dec_u64(&line2) {
        Some(v) => v,
        None => {
            return Err(DOCAError::InvalidValue);
        },
    };
    Ok((v1, v2))
}

/// Copies `bytes[from..to)` without one trailing carriage return.
fn copy_stripped_line(bytes: &Vec<u8>, from: usize, to: usize) -> (r: Vec<u8>)
    requires
        from <= to <= bytes@.len(),
    ensures
        r@ == spec_strip_cr(bytes@.subrange(from as int, to as int)),
{
    let mut stop = to;
    if to > from && bytes[to - 1] == 13 {
        stop = to - 1;
    }
    let mut out: Vec<u8> = Vec::new();
    let mut k: usize = from;
    while k < stop
        invariant
            from <= k <= stop <= bytes@.len(),
            out@ =~= bytes@.subrange(from as int, k as int),
        decreases stop - k,
    {
        let b = bytes[k];
        out.push(b);
        proof {
            assert(out@ =~= bytes@.subrange(from as int, k + 1));
        }
        k = k + 1;
    }
    proof {
        let full = bytes@.subrange(from as int, to as int);
        if to > from && bytes@[to - 1] == 13 {
            assert(full.last() == 13);
            assert(out@ =~= full.drop_last());
        } else {
            assert(out@ =~= full);
            if full.len() > 0 {
                assert(full.last() != 13);
            }
        }
    }
    out
}

/// Rendering a buffer range and reading the record back yields the range.
pub proof fn lemma_buffer_info_roundtrip(addr: u64, len: u64)
    ensures
        spec_parse_buffer_info(spec_render_buffer_info(addr, len)) == Some((addr, len)),
{
    let s = spec_render_buffer_info(addr, len);
    let d1 = spec_dec_u64(addr);
    let d2 = spec_dec_u64(len);
    let e1 = d1.len() as int;
    let l2 = e1 + 1;
    let e2 = l2 + d2.len() as int;
    crate::codec::lemma_dec_all_digits(addr);
    crate::codec::lemma_dec_all_digits(len);
    assert forall|k: int| 0 <= k < e1 implies s[k] != 10 by {
        assert(s[k] == d1[k]);
        assert(crate::codec::spec_is_digit(d1[k]));
    }
    assert(s[e1] == 10);
    lemma_find_nl_of(s, 0, e1);
    assert forall|k: int| l2 <= k < e2 implies s[k] != 10 by {
        assert(s[k] == d2[k - l2]);
        assert(crate::codec::spec_is_digit(d2[k - l2]));
    }
    assert(s[e2] == 10);
    lemma_find_nl_of(s, l2, e2);
    assert(s.subrange(0, e1) =~= d1);
    assert(s.subrange(l2, e2) =~= d2);
    assert(d1.last() != 13 && d2.last() != 13);
    assert(spec_strip_cr(d1) == d1 && spec_strip_cr(d2) == d2);
    lemma_dec_u64_roundtrip(addr);
    lemma_dec_u64_roundtrip(len);
}

/// Builds the loaded configuration from the two handoff payloads: the raw
/// descriptor bytes and the two-line record of the remote buffer.  Rejected
/// when the descriptor exceeds the export length bound, when the record is
/// malformed, or when the recorded length does not fit an in-memory range.
pub fn load_config_bytes(export_desc: Vec<u8>, buffer_info: &Vec<u8>) -> (r: DOCAResult<
    LoadedInfo,
>)
    ensures
        r is Ok <==> {
            &&& export_desc@.len() <= DOCA_MAX_EXPORT_LENGTH
            &&& spec_parse_buffer_info(buffer_info@) matches Some(v) && v.1 <= usize::MAX
        },
        r matches Ok(li) ==> {
            &&& li.export_desc@ == export_desc@
            &&& spec_parse_buffer_info(buffer_info@) matches Some(v) && li.remote_addr == (
            RawPointer { inner: v.0, payload: v.1 as usize })
        },
        r matches Err(e) ==> e == DOCAError::InvalidValue,
{
    if export_desc.len() > DOCA_MAX_EXPORT_LENGTH {
        return Err(DOCAError::InvalidValue);
    }
    let (addr, len) = match parse_buffer_info(buffer_info) {
        Ok(v) => v,
        Err(e) => {
            return Err(e);
        },
    };
    if len > usize::MAX as u64 {
        return Err(DOCAError::InvalidValue);
    }
    Ok(
        LoadedInfo {
            export_desc,
            remote_addr: RawPointer { inner: addr, payload: len as usize },
        },
    )
}

} // verus!
