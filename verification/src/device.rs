//! The device registry: enumeration of offload-capable devices, formatted
//! `bus:device.function` addresses, and open device handles.
//!
//! Enumeration is a pure snapshot of the backend's device table.  Opening a
//! device acquires one handle, counted by the backend; each successful open
//! must be paired with exactly one [`DevContext::close`], and a handle cannot
//! be closed while a memory map or an execution context still has the device
//! registered.

use vstd::prelude::*;

use crate::backend::Backend;
use crate::backend::DeviceSlotView;
use crate::error::DOCAError;
use crate::error::DOCAResult;
use vstd::string::StrSliceExecFns;
use vstd::string::StringExecFns;

verus! {

/// A PCI bus:device.function address.  Well-formed when the function number
/// fits one hex digit, as the formatted `HH:HH.H` syntax requires.
#[derive(Clone, Copy, Debug, PartialEq, Eq, Structural)]
pub struct PciAddress {
    /// Bus number, printed as two hex digits.
    pub bus: u8,
    /// Device number, printed as two hex digits.
    pub device: u8,
    /// Function number, printed as one hex digit.
    pub function: u8,
}

/// Well-formedness of a [`PciAddress`]: the function number fits one hex
/// digit.
pub open spec fn pci_wf(a: PciAddress) -> bool {
    a.function < 16
}

/// The lower-case hex digit for a value below sixteen.
pub open spec fn spec_hex_digit(n: u8) -> char {
    if n == 0 {
        '0'
    } else if n == 1 {
        '1'
    } else if n == 2 {
        '2'
    } else if n == 3 {
        '3'
    } else if n == 4 {
        '4'
    } else if n == 5 {
        '5'
    } else if n == 6 {
        '6'
    } else if n == 7 {
        '7'
    } else if n == 8 {
        '8'
    } else if n == 9 {
        '9'
    } else if n == 10 {
        'a'
    } else if n == 11 {
        'b'
    } else if n == 12 {
        'c'
    } else if n == 13 {
        'd'
    } else if n == 14 {
        'e'
    } else {
        'f'
    }
}

/// The value of a hex digit, upper or lower case.
pub open spec fn spec_hex_val(c: char) -> Option<u8> {
    if c == '0' {
        Some(0u8)
    } else if c == '1' {
        Some(1u8)
    } else if c == '2' {
        Some(2u8)
    } else if c == '3' {
        Some(3u8)
    } else if c == '4' {
        Some(4u8)
    } else if c == '5' {
        Some(5u8)
    } else if c == '6' {
        Some(6u8)
    } else if c == '7' {
        Some(7u8)
    } else if c == '8' {
        Some(8u8)
    } else if c == '9' {
        Some(9u8)
    } else if c == 'a' || c == 'A' {
        Some(10u8)
    } else if c == 'b' || c == 'B' {
        Some(11u8)
    } else if c == 'c' || c == 'C' {
        Some(12u8)
    } else if c == 'd' || c == 'D' {
        Some(13u8)
    } else if c == 'e' || c == 'E' {
        Some(14u8)
    } else if c == 'f' || c == 'F' {
        Some(15u8)
    } else {
        None
    }
}

/// The hex letters `A` to `F` folded to lower case; every other character
/// kept.
pub open spec fn spec_lower_hex(c: char) -> char {
    if c == 'A' {
        'a'
    } else if c == 'B' {
        'b'
    } else if c == 'C' {
        'c'
    } else if c == 'D' {
        'd'
    } else if c == 'E' {
        'e'
    } else if c == 'F' {
        'f'
    } else {
        c
    }
}

/// The formatted `bus:device.function` address: two hex digits, a colon, two
/// hex digits, a dot, one hex digit.
pub open spec fn spec_format_pci(a: PciAddress) -> Seq<char> {
    seq![
        spec_hex_digit(a.bus / 16),
        spec_hex_digit(a.bus % 16),
        ':',
        spec_hex_digit(a.device / 16),
        spec_hex_digit(a.device % 16),
        '.',
        spec_hex_digit(a.function),
    ]
}

/// The address a string of the `HH:HH.H` syntax denotes, or `None` when the
/// string does not fit the syntax.
pub open spec fn spec_parse_pci(s: Seq<char>) -> Option<PciAddress> {
    if s.len() == 7 && s[2] == ':' && s[5] == '.' && spec_hex_val(s[0]) is Some && spec_hex_val(
        s[1],
    ) is Some && spec_hex_val(s[3]) is Some && spec_hex_val(s[4]) is Some && spec_hex_val(
        s[6],
    ) is Some {
        Some(
            PciAddress {
                bus: (spec_hex_val(s[0])->0 * 16 + spec_hex_val(s[1])->0) as u8,
                device: (spec_hex_val(s[3])->0 * 16 + spec_hex_val(s[4])->0) as u8,
                function: spec_hex_val(s[6])->0,
            },
        )
    } else {
        None
    }
}

/// Character-wise equality up to hex letter case.
pub open spec fn spec_ci_eq(s: Seq<char>, t: Seq<char>) -> bool {
    s.len() == t.len() && forall|i: int|
        0 <= i < s.len() ==> spec_lower_hex(#[trigger] s[i]) == spec_lower_hex(t[i])
}

/// A hex digit is already lower case and reads back as its value.
proof fn lemma_digit_lower(n: u8)
    requires
        n < 16,
    ensures
        spec_lower_hex(spec_hex_digit(n)) == spec_hex_digit(n),
        spec_hex_val(spec_hex_digit(n)) == Some(n),
{
}

/// The value of a hex digit character is below sixteen.
proof fn lemma_hex_val_bound(c: char)
    ensures
        spec_hex_val(c) matches Some(n) ==> n < 16,
{
}

/// A hex digit character folds to the digit of its value.
proof fn lemma_hex_val_lower(c: char, n: u8)
    requires
        spec_hex_val(c) == Some(n),
    ensures
        n < 16,
        spec_lower_hex(c) == spec_hex_digit(n),
{
}

/// A character that folds to the digit of `n` has the value `n`.
proof fn lemma_lower_hex_val(c: char, n: u8)
    requires
        n < 16,
        spec_lower_hex(c) == spec_hex_digit(n),
    ensures
        spec_hex_val(c) == Some(n),
{
}

/// A string of the `HH:HH.H` syntax denotes an address exactly when it equals
/// that address's formatted name up to hex letter case.  This is the meaning
/// of "matches, case-insensitively" throughout the crate.
pub proof fn lemma_pci_match_iff_ci(a: PciAddress, s: Seq<char>)
    requires
        pci_wf(a),
    ensures
        spec_parse_pci(s) == Some(a) <==> spec_ci_eq(s, spec_format_pci(a)),
{
    let f = spec_format_pci(a);
    assert(a.bus / 16 < 16 && a.bus % 16 < 16) by (nonlinear_arith);
    assert(a.device / 16 < 16 && a.device % 16 < 16) by (nonlinear_arith);
    if spec_parse_pci(s) == Some(a) {
        let b_hi = spec_hex_val(s[0])->0;
        let b_lo = spec_hex_val(s[1])->0;
        let d_hi = spec_hex_val(s[3])->0;
        let d_lo = spec_hex_val(s[4])->0;
        lemma_hex_val_lower(s[0], b_hi);
        lemma_hex_val_lower(s[1], b_lo);
        lemma_hex_val_lower(s[3], d_hi);
        lemma_hex_val_lower(s[4], d_lo);
        lemma_hex_val_lower(s[6], spec_hex_val(s[6])->0);
        assert(a.bus == b_hi * 16 + b_lo && b_hi < 16 && b_lo < 16);
        assert(b_hi == a.bus / 16 && b_lo == a.bus % 16) by (nonlinear_arith)
            requires
                a.bus == b_hi * 16 + b_lo && b_hi < 16 && b_lo < 16,
        ;
        assert(d_hi == a.device / 16 && d_lo == a.device % 16) by (nonlinear_arith)
            requires
                a.device == d_hi * 16 + d_lo && d_hi < 16 && d_lo < 16,
        ;
        lemma_digit_lower(a.bus / 16);
        lemma_digit_lower(a.bus % 16);
        lemma_digit_lower(a.device / 16);
        lemma_digit_lower(a.device % 16);
        lemma_digit_lower(a.function);
        assert(spec_lower_hex(s[0]) == spec_lower_hex(f[0]));
        assert(spec_lower_hex(s[1]) == spec_lower_hex(f[1]));
        assert(spec_lower_hex(s[2]) == spec_lower_hex(f[2]));
        assert(spec_lower_hex(s[3]) == spec_lower_hex(f[3]));
        assert(spec_lower_hex(s[4]) == spec_lower_hex(f[4]));
        assert(spec_lower_hex(s[5]) == spec_lower_hex(f[5]));
        assert(spec_lower_hex(s[6]) == spec_lower_hex(f[6]));
        assert forall|i: int| 0 <= i < s.len() implies spec_lower_hex(#[trigger] s[i])
            == spec_lower_hex(f[i]) by {}
    }
    if spec_ci_eq(s, spec_format_pci(a)) {
        lemma_digit_lower(a.bus / 16);
        lemma_digit_lower(a.bus % 16);
        lemma_digit_lower(a.device / 16);
        lemma_digit_lower(a.device % 16);
        lemma_digit_lower(a.function);
        assert(spec_lower_hex(s[2]) == spec_lower_hex(':'));
        assert(s[2] == ':');
        assert(spec_lower_hex(s[5]) == spec_lower_hex('.'));
        assert(s[5] == '.');
        lemma_lower_hex_val(s[0], a.bus / 16);
        lemma_lower_hex_val(s[1], a.bus % 16);
        lemma_lower_hex_val(s[3], a.device / 16);
        lemma_lower_hex_val(s[4], a.device % 16);
        lemma_lower_hex_val(s[6], a.function);
        assert((a.bus / 16) * 16 + a.bus % 16 == a.bus) by (nonlinear_arith);
        assert((a.device / 16) * 16 + a.device % 16 == a.device) by (nonlinear_arith);
        assert(spec_parse_pci(s) == Some(a));
    }
}

/// Formatting an address and reading it back yields the same address.
pub proof fn lemma_pci_format_parse_roundtrip(a: PciAddress)
    requires
        pci_wf(a),
    ensures
        spec_parse_pci(spec_format_pci(a)) == Some(a),
{
    lemma_pci_match_iff_ci(a, spec_format_pci(a));
    assert(spec_ci_eq(spec_format_pci(a), spec_format_pci(a)));
}

/// The one-character string for a hex digit.
fn hex_digit_str(n: u8) -> (r: &'static str)
    requires
        n < 16,
    ensures
        r@ == seq![spec_hex_digit(n)],
{
    proof {
        reveal_strlit("0");
        reveal_strlit("1");
        reveal_strlit("2");
        reveal_strlit("3");
        reveal_strlit("4");
        reveal_strlit("5");
        reveal_strlit("6");
        reveal_strlit("7");
        reveal_strlit("8");
        reveal_strlit("9");
        reveal_strlit("a");
        reveal_strlit("b");
        reveal_strlit("c");
        reveal_strlit("d");
        reveal_strlit("e");
        reveal_strlit("f");
    }
    match n {
        0 => "0",
        1 => "1",
        2 => "2",
        3 => "3",
        4 => "4",
        5 => "5",
        6 => "6",
        7 => "7",
        8 => "8",
        9 => "9",
        10 => "a",
        11 => "b",
        12 => "c",
        13 => "d",
        14 => "e",
        _ => "f",
    }
}

/// Formats an address as `bus:device.function`.
pub fn format_pci_addr(a: &PciAddress) -> (r: String)
    requires
        pci_wf(*a),
    ensures
        r@ == spec_format_pci(*a),
{
    let mut out = String::new();
    out.append(hex_digit_str(a.bus / 16));
    out.append(hex_digit_str(a.bus % 16));
    out.append(":");
    out.append(hex_digit_str(a.device / 16));
    out.append(hex_digit_str(a.device % 16));
    out.append(".");
    out.append(hex_digit_str(a.function));
    proof {
        reveal_strlit(":");
        reveal_strlit(".");
        assert(out@ =~= spec_format_pci(*a));
    }
    out
}

/// The value of a hex digit character, upper or lower case.
fn hex_val_char(c: char) -> (r: Option<u8>)
    ensures
        r == spec_hex_val(c),
{
    match c {
        '0' => Some(0),
        '1' => Some(1),
        '2' => Some(2),
        '3' => Some(3),
        '4' => Some(4),
        '5' => Some(5),
        '6' => Some(6),
        '7' => Some(7),
        '8' => Some(8),
        '9' => Some(9),
        'a' | 'A' => Some(10),
        'b' | 'B' => Some(11),
        'c' | 'C' => Some(12),
        'd' | 'D' => Some(13),
        'e' | 'E' => Some(14),
        'f' | 'F' => Some(15),
        _ => None,
    }
}

/// Reads a `HH:HH.H` address string; `None` when the string does not fit the
/// syntax.
pub fn parse_pci_addr(s: &str) -> (r: Option<PciAddress>)
    ensures
        r == spec_parse_pci(s@),
        r matches Some(a) ==> pci_wf(a),
{
    if s.unicode_len() != 7 {
        return None;
    }
    if s.get_char(2) != ':' || s.get_char(5) != '.' {
        return None;
    }
    let b_hi = hex_val_char(s.get_char(0));
    let b_lo = hex_val_char(s.get_char(1));
    let d_hi = hex_val_char(s.get_char(3));
    let d_lo = hex_val_char(s.get_char(4));
    let f = hex_val_char(s.get_char(6));
    match (b_hi, b_lo, d_hi, d_lo, f) {
        (Some(bh), Some(bl), Some(dh), Some(dl), Some(fv)) => {
            proof {
                lemma_hex_val_bound(s@[0]);
                lemma_hex_val_bound(s@[1]);
                lemma_hex_val_bound(s@[3]);
                lemma_hex_val_bound(s@[4]);
                lemma_hex_val_bound(s@[6]);
            }
            Some(PciAddress { bus: bh * 16 + bl, device: dh * 16 + dl, function: fv })
        },
        _ => None,
    }
}

/// One enumerated device: its position in the snapshot and its address.
#[derive(Clone, Copy)]
pub struct Device {
    index: usize,
    addr: PciAddress,
}

/// A snapshot of the available offload-capable devices.
pub struct DeviceList {
    devs: Vec<Device>,
}

impl Device {
    /// The device's position in the backend's device table.
    pub closed spec fn spec_index(self) -> int {
        self.index as int
    }

    /// The device's address.
    pub closed spec fn spec_addr(self) -> PciAddress {
        self.addr
    }

    /// The formatted `bus:device.function` address of the device.
    pub fn name(&self) -> (r: String)
        requires
            pci_wf(self.spec_addr()),
        ensures
            r@ == spec_format_pci(self.spec_addr()),
    {
        format_pci_addr(&self.addr)
    }

    /// The device's address as a value.
    pub fn address(&self) -> (r: PciAddress)
        ensures
            r == self.spec_addr(),
    {
        self.addr
    }

    /// Opens a handle to the device.  The backend counts the open handle; it
    /// must be released with exactly one [`DevContext::close`].
    pub fn open(&self, backend: &mut Backend) -> (r: DOCAResult<DevContext>)
        requires
            old(backend).wf(),
        ensures
            final(backend).wf(),
            final(backend).mem() == old(backend).mem(),
            r is Ok <==> self.spec_index() < old(backend).devs().len() && old(backend).devs()[
                self.spec_index()
            ].open < u64::MAX,
            r matches Ok(d) ==> d.spec_index() == self.spec_index() && final(backend).devs()
                == old(backend).devs().update(
                self.spec_index(),
                DeviceSlotView {
                    open: (old(backend).devs()[self.spec_index()].open + 1) as u64,
                    ..old(backend).devs()[self.spec_index()]
                },
            ),
            r is Err ==> final(backend).devs() == old(backend).devs(),
            r matches Err(e) ==> e == DOCAError::InvalidValue || e == DOCAError::NoMemory,
            r is Err && self.spec_index() < old(backend).devs().len() ==> r == Err::<
                DevContext,
                DOCAError,
            >(DOCAError::NoMemory),
    {
        match backend.open_slot(self.index) {
            Ok(()) => Ok(DevContext { device_index: self.index }),
            Err(e) => Err(e),
        }
    }

    /// The largest buffer one copy job may use on this device.
    pub fn get_max_buf_size(&self, backend: &Backend) -> (r: DOCAResult<u64>)
        ensures
            r is Ok <==> self.spec_index() < backend.devs().len(),
            r matches Ok(v) ==> v == backend.devs()[self.spec_index()].max_buf_size,
            r matches Err(e) ==> e == DOCAError::InvalidValue,
    {
        if self.index < backend.device_count() {
            Ok(backend.device_max_buf(self.index))
        } else {
            Err(DOCAError::InvalidValue)
        }
    }
}

impl DeviceList {
    /// The snapshot as a sequence of addresses.
    pub closed spec fn view(self) -> Seq<PciAddress> {
        Seq::new(self.devs@.len(), |i: int| self.devs@[i].addr)
    }

    /// The snapshot lists the backend's device table, in order.
    pub open spec fn matches(self, b: Backend) -> bool {
        self.view().len() == b.devs().len() && forall|i: int|
            0 <= i < self.view().len() ==> #[trigger] self.view()[i] == b.devs()[i].addr
    }

    /// Internal: each entry carries its own index, well formed.
    pub closed spec fn wf(self) -> bool {
        forall|i: int|
            0 <= i < self.devs@.len() ==> (#[trigger] self.devs@[i]).index == i && pci_wf(
                self.devs@[i].addr,
            )
    }

    /// The number of devices.
    pub fn len(&self) -> (r: usize)
        ensures
            r == self.view().len(),
    {
        self.devs.len()
    }

    /// `true` when the snapshot holds no device.
    pub fn is_empty(&self) -> (r: bool)
        ensures
            r == (self.view().len() == 0),
    {
        self.devs.is_empty()
    }

    /// The number of devices.
    pub fn num_devices(&self) -> (r: usize)
        ensures
            r == self.view().len(),
    {
        self.len()
    }

    /// The device at `index`: `Some` exactly for positions below the length.
    pub fn get(&self, index: usize) -> (r: Option<Device>)
        requires
            self.wf(),
        ensures
            r is Some <==> index < self.view().len(),
            r matches Some(d) ==> d.spec_index() == index && d.spec_addr() == self.view()[
                index as int
            ] && pci_wf(d.spec_addr()),
    {
        if index < self.devs.len() {
            Some(self.devs[index])
        } else {
            None
        }
    }
}

/// Enumerates the available devices: a pure snapshot of the backend's device
/// table.  Fails with `NotFound` exactly when no device is present.
pub fn devices(backend: &Backend) -> (r: DOCAResult<DeviceList>)
    requires
        backend.wf(),
    ensures
        r is Ok <==> backend.devs().len() > 0,
        r matches Ok(l) ==> l.wf() && l.matches(*backend),
        r matches Err(e) ==> e == DOCAError::NotFound,
{
    let n = backend.device_count();
    if n == 0 {
        return Err(DOCAError::NotFound);
    }
    let mut devs: Vec<Device> = Vec::new();
    let mut i: usize = 0;
    while i < n
        invariant
            backend.wf(),
            n == backend.devs().len(),
            i <= n,
            devs@.len() == i,
            forall|j: int|
                0 <= j < i ==> (#[trigger] devs@[j]).index == j && devs@[j].addr == backend.devs()[
                    j
                ].addr,
        decreases n - i,
    {
        let addr = backend.device_addr(i);
        devs.push(Device { index: i, addr });
        i = i + 1;
    }
    let list = DeviceList { devs };
    proof {
        assert forall|j: int| 0 <= j < list.view().len() implies #[trigger] list.view()[j]
            == backend.devs()[j].addr by {}
    }
    Ok(list)
}

/// An open device handle.  A copy denotes the same open handle; the handle
/// is released by [`DevContext::close`], once, after every map and context
/// that registered the device has removed it.
#[derive(Clone, Copy)]
pub struct DevContext {
    device_index: usize,
}

impl DevContext {
    /// The device's position in the backend's device table.
    pub closed spec fn spec_index(self) -> int {
        self.device_index as int
    }

    /// The device table index, for registration bookkeeping.
    pub(crate) fn index(&self) -> (r: usize)
        ensures
            r as int == self.spec_index(),
    {
        self.device_index
    }

    /// Opens a handle to the given device: the handle-producing constructor
    /// behind [`Device::open`].
    pub fn with_device(dev: &Device, backend: &mut Backend) -> (r: DOCAResult<DevContext>)
        requires
            old(backend).wf(),
        ensures
            final(backend).wf(),
            final(backend).mem() == old(backend).mem(),
            r is Ok <==> dev.spec_index() < old(backend).devs().len() && old(backend).devs()[
                dev.spec_index()
            ].open < u64::MAX,
            r matches Ok(d) ==> d.spec_index() == dev.spec_index() && final(backend).devs()
                == old(backend).devs().update(
                dev.spec_index(),
                DeviceSlotView {
                    open: (old(backend).devs()[dev.spec_index()].open + 1) as u64,
                    ..old(backend).devs()[dev.spec_index()]
                },
            ),
            r is Err ==> final(backend).devs() == old(backend).devs(),
    {
        dev.open(backend)
    }

    /// Closes the handle.  Rejected while any memory map or execution context
    /// still has the device registered: teardown must remove the device from
    /// every map and context first.
    pub fn close(self, backend: &mut Backend) -> (r: DOCAResult<()>)
        requires
            old(backend).wf(),
        ensures
            final(backend).wf(),
            final(backend).mem() == old(backend).mem(),
            r is Ok <==> self.spec_index() < old(backend).devs().len() && old(backend).devs()[
                self.spec_index()
            ].open >= 1 && old(backend).devs()[self.spec_index()].bound == 0,
            r is Ok ==> final(backend).devs() == old(backend).devs().update(
                self.spec_index(),
                DeviceSlotView {
                    open: (old(backend).devs()[self.spec_index()].open - 1) as u64,
                    ..old(backend).devs()[self.spec_index()]
                },
            ),
            r is Err ==> final(backend).devs() == old(backend).devs(),
            r matches Err(e) ==> e == DOCAError::InvalidValue || e == DOCAError::NotPermitted,
    {
        backend.close_slot(self.device_index)
    }
}

/// The position of the first device with address `p` at or after `k`, or
/// the table's length when none follows.
pub open spec fn spec_first_match(ds: Seq<DeviceSlotView>, p: PciAddress, k: int) -> int
    decreases ds.len() - k,
{
    if k < 0 || k >= ds.len() {
        ds.len() as int
    } else if ds[k].addr == p {
        k
    } else {
        spec_first_match(ds, p, k + 1)
    }
}

/// With no match before `k`, the first match from the start is the first
/// match from `k`.
proof fn lemma_first_match_prefix(ds: Seq<DeviceSlotView>, p: PciAddress, j: int, k: int)
    requires
        0 <= j <= k <= ds.len(),
        forall|m: int| j <= m < k ==> (#[trigger] ds[m]).addr != p,
    ensures
        spec_first_match(ds, p, j) == spec_first_match(ds, p, k),
    decreases k - j,
{
    if j < k {
        lemma_first_match_prefix(ds, p, j + 1, k);
    }
}

/// Opens the first enumerated device whose formatted address matches the
/// given `HH:HH.H` string, case-insensitively.  Succeeds exactly when such a
/// device exists and its open-handle count is not saturated; fails with
/// `NotFound` exactly when no device matches.
pub fn open_device_with_pci(backend: &mut Backend, pci: &str) -> (r: DOCAResult<DevContext>)
    requires
        old(backend).wf(),
    ensures
        final(backend).wf(),
        final(backend).mem() == old(backend).mem(),
        r == Err::<DevContext, DOCAError>(DOCAError::NotFound) <==> !(exists|i: int|
            0 <= i < old(backend).devs().len() && spec_parse_pci(pci@) == Some(
                (#[trigger] old(backend).devs()[i]).addr,
            )),
        r is Ok <==> (spec_parse_pci(pci@) matches Some(p) && spec_first_match(
            old(backend).devs(),
            p,
            0,
        ) < old(backend).devs().len() && old(backend).devs()[spec_first_match(
            old(backend).devs(),
            p,
            0,
        )].open < u64::MAX),
        r matches Ok(d) ==> {
            &&& 0 <= d.spec_index() < old(backend).devs().len()
            &&& spec_parse_pci(pci@) == Some(old(backend).devs()[d.spec_index()].addr)
            &&& d.spec_index() == spec_first_match(
                old(backend).devs(),
                spec_parse_pci(pci@)->0,
                0,
            )
            &&& final(backend).devs() == old(backend).devs().update(
                d.spec_index(),
                DeviceSlotView {
                    open: (old(backend).devs()[d.spec_index()].open + 1) as u64,
                    ..old(backend).devs()[d.spec_index()]
                },
            )
        },
        r is Err ==> final(backend).devs() == old(backend).devs(),
        r matches Err(e) ==> e == DOCAError::NotFound || e == DOCAError::NoMemory,
{
    let parsed = parse_pci_addr(pci);
    match parsed {
        None => Err(DOCAError::NotFound),
        Some(want) => {
            let n = backend.device_count();
            let mut i: usize = 0;
            while i < n
                invariant
                    backend.wf(),
                    backend == old(backend),
                    n == backend.devs().len(),
                    i <= n,
                    Some(want) == spec_parse_pci(pci@),
                    forall|j: int| 0 <= j < i ==> (#[trigger] backend.devs()[j]).addr != want,
                decreases n - i,
            {
                let addr = backend.device_addr(i);
                if addr.bus == want.bus && addr.device == want.device && addr.function
                    == want.function {
                    proof {
                        lemma_first_match_prefix(backend.devs(), want, 0, i as int);
                        assert(spec_first_match(backend.devs(), want, 0) == i);
                    }
                    let dev = Device { index: i, addr };
                    return dev.open(backend);
                }
                i = i + 1;
            }
            proof {
                lemma_first_match_prefix(backend.devs(), want, 0, n as int);
            }
            Err(DOCAError::NotFound)
        },
    }
}

} // verus!
