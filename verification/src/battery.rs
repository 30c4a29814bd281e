//! Battery levels of Bluetooth devices.
//!
//! Windows keeps the charge of a Bluetooth device in the PnP property
//! `DEVPKEY_Device_BatteryLevel` of one or more device nodes that belong to it.
//! The caller walks the device nodes and reads their raw properties; this module
//! decides which nodes count, to which device (Bluetooth address) they belong,
//! decodes the properties and merges the nodes of a device into one entry.
use vstd::prelude::*;

use crate::text;
use vstd::string::StringExecFns;

verus! {

/// Battery level of one connected Bluetooth device.
#[derive(Debug, Clone)]
pub struct DeviceBattery {
    /// 12 hexadecimal digits, upper case, no separators.
    pub address: String,
    pub name: String,
    /// 0..=100
    pub level: u8,
}

/// What a device is seen as in contracts.
pub struct DeviceView {
    pub address: Seq<char>,
    pub name: Seq<char>,
    pub level: u8,
}

impl View for DeviceBattery {
    type V = DeviceView;

    open spec fn view(&self) -> DeviceView {
        DeviceView { address: self.address@, name: self.name@, level: self.level }
    }
}

// ---------- device address ----------

/// True when `c` separates the fields of a device instance identifier.
pub open spec fn spec_is_boundary(c: char) -> bool {
    c == '\\' || c == '&' || c == '_'
}

pub fn is_boundary(c: char) -> (r: bool)
    ensures
        r == spec_is_boundary(c),
{
    c == '\\' || c == '&' || c == '_'
}

/// Twelve hexadecimal digits start at `i`, each end touching the start or end
/// of `s` or a boundary character.
pub open spec fn address_at(s: Seq<char>, i: int) -> bool {
    &&& 0 <= i
    &&& i + 12 <= s.len()
    &&& (i == 0 || spec_is_boundary(s[i - 1]))
    &&& forall|k: int| i <= k < i + 12 ==> text::is_hex_digit(#[trigger] s[k])
    &&& (i + 12 == s.len() || spec_is_boundary(s[i + 12]))
}

/// The first position, at `i` or later, where an address starts.
pub open spec fn first_address_from(s: Seq<char>, i: int) -> Option<int>
    decreases s.len() - i,
{
    if i < 0 || i + 12 > s.len() {
        None
    } else if address_at(s, i) {
        Some(i)
    } else {
        first_address_from(s, i + 1)
    }
}

/// The Bluetooth address in an instance identifier: the first twelve
/// hexadecimal digits that stand between boundaries, in upper case.
pub open spec fn spec_extract_address(s: Seq<char>) -> Option<Seq<char>> {
    match first_address_from(s, 0) {
        Some(i) => Some(text::upper_seq(s.subrange(i, i + 12))),
        None => None,
    }
}

proof fn lemma_first_address_found(s: Seq<char>, i: int, j: int)
    requires
        0 <= i <= j,
        forall|k: int| i <= k < j ==> !address_at(s, k),
        address_at(s, j),
    ensures
        first_address_from(s, i) == Some(j),
    decreases j - i,
{
    if i < j {
        lemma_first_address_found(s, i + 1, j);
    }
}

proof fn lemma_first_address_none(s: Seq<char>, i: int)
    requires
        0 <= i,
        forall|k: int| i <= k && k + 12 <= s.len() ==> !address_at(s, k),
    ensures
        first_address_from(s, i) is None,
    decreases s.len() - i,
{
    if i + 12 <= s.len() {
        lemma_first_address_none(s, i + 1);
    }
}

/// All of `s[lo..hi]` are hexadecimal digits.
fn all_hex(s: &Vec<char>, lo: usize, hi: usize) -> (r: bool)
    requires
        lo <= hi <= s.len(),
    ensures
        r == forall|k: int| lo <= k < hi ==> text::is_hex_digit(#[trigger] s@[k]),
{
    let mut k = lo;
    while k < hi
        invariant
            lo <= k <= hi <= s.len(),
            forall|m: int| lo <= m < k ==> text::is_hex_digit(#[trigger] s@[m]),
        decreases hi - k,
    {
        if !text::hex_digit(s[k]) {
            return false;
        }
        k = k + 1;
    }
    true
}

/// The substring `s[lo..hi]` as a vector.
fn slice_chars(s: &Vec<char>, lo: usize, hi: usize) -> (r: Vec<char>)
    requires
        lo <= hi <= s.len(),
    ensures
        r@ == s@.subrange(lo as int, hi as int),
{
    let mut out: Vec<char> = Vec::new();
    let mut k = lo;
    while k < hi
        invariant
            lo <= k <= hi <= s.len(),
            out@ == s@.subrange(lo as int, k as int),
        decreases hi - k,
    {
        out.push(s[k]);
        proof {
            assert(s@.subrange(lo as int, k + 1) == s@.subrange(lo as int, k as int).push(s@[k as int]));
        }
        k = k + 1;
    }
    out
}

/// The Bluetooth address of a device node: twelve hexadecimal digits that
/// stand between `\`, `&`, `_` or the ends of the identifier; the first such
/// run wins and is returned in upper case.
pub fn extract_address(instance_id: &str) -> (r: Option<String>)
    ensures
        r matches Some(a) ==> spec_extract_address(instance_id@) == Some(a@),
        r is None <==> spec_extract_address(instance_id@) is None,
{
    let chars = text::chars_of(instance_id);
    let n = chars.len();
    let mut i: usize = 0;
    while i < n && n - i >= 12
        invariant
            chars@ == instance_id@,
            n == chars@.len(),
            i <= n,
            forall|k: int| 0 <= k < i ==> !address_at(chars@, k),
        decreases n - i,
    {
        let start_ok = i == 0 || is_boundary(chars[i - 1]);
        if start_ok && all_hex(&chars, i, i + 12) {
            let end_ok = i + 12 == n || is_boundary(chars[i + 12]);
            if end_ok {
                let digits = slice_chars(&chars, i, i + 12);
                let up = text::upper_chars(&digits);
                proof {
                    assert(address_at(chars@, i as int));
                    lemma_first_address_found(chars@, 0, i as int);
                }
                return Some(text::string_from_chars(&up));
            }
        }
        proof {
            assert(!address_at(chars@, i as int));
        }
        i = i + 1;
    }
    proof {
        lemma_first_address_none(chars@, 0);
    }
    None
}

// ---------- base node ----------

/// `"\\dev_"` occurs at `p` in the (lowered) identifier.
pub open spec fn marker_at(l: Seq<char>, p: int) -> bool {
    &&& 0 <= p
    &&& p + 5 <= l.len()
    &&& l[p] == '\\'
    &&& l[p + 1] == 'd'
    &&& l[p + 2] == 'e'
    &&& l[p + 3] == 'v'
    &&& l[p + 4] == '_'
}

/// The first occurrence of the marker at `p` or later.
pub open spec fn first_marker_from(l: Seq<char>, p: int) -> Option<int>
    decreases l.len() - p,
{
    if p < 0 || p + 5 > l.len() {
        None
    } else if marker_at(l, p) {
        Some(p)
    } else {
        first_marker_from(l, p + 1)
    }
}

/// The address of the base node of a device: in the ASCII-lowered identifier,
/// the first `"\\dev_"` is followed by twelve hexadecimal digits and then by
/// the end of the identifier or by `\`. Returned in upper case.
pub open spec fn spec_extract_base_address(s: Seq<char>) -> Option<Seq<char>> {
    let l = text::lower_seq(s);
    match first_marker_from(l, 0) {
        Some(p) => {
            let start = p + 5;
            if start + 12 <= l.len() && (forall|k: int| start <= k < start + 12 ==> text::is_hex_digit(#[trigger] l[k]))
                && (start + 12 == l.len() || l[start + 12] == '\\') {
                Some(text::upper_seq(l.subrange(start, start + 12)))
            } else {
                None
            }
        },
        None => None,
    }
}

proof fn lemma_first_marker_found(l: Seq<char>, i: int, j: int)
    requires
        0 <= i <= j,
        forall|k: int| i <= k < j ==> !marker_at(l, k),
        marker_at(l, j),
    ensures
        first_marker_from(l, i) == Some(j),
    decreases j - i,
{
    if i < j {
        lemma_first_marker_found(l, i + 1, j);
    }
}

proof fn lemma_first_marker_none(l: Seq<char>, i: int)
    requires
        0 <= i,
        forall|k: int| i <= k && k + 5 <= l.len() ==> !marker_at(l, k),
    ensures
        first_marker_from(l, i) is None,
    decreases l.len() - i,
{
    if i + 5 <= l.len() {
        lemma_first_marker_none(l, i + 1);
    }
}

/// Address of the base device node: after the first `\dev_` (ASCII case
/// ignored) come twelve hexadecimal digits and then the end of the identifier
/// or `\`. `None` for service nodes such as `BTHENUM\{...}_LOCALMFG`.
///
/// The identifier is compared character by character; this agrees with the
/// byte positions used by `str::find` and `str::get` because every character
/// that can match (`\`, `d`, `e`, `v`, `_`, hexadecimal digits) is ASCII.
pub fn extract_base_address(instance_id: &str) -> (r: Option<String>)
    ensures
        r matches Some(a) ==> spec_extract_base_address(instance_id@) == Some(a@),
        r is None <==> spec_extract_base_address(instance_id@) is None,
{
    let chars = text::chars_of(instance_id);
    let lower = text::lower_chars(&chars);
    let n = lower.len();
    let mut p: usize = 0;
    while p < n && n - p >= 5
        invariant
            lower@ == text::lower_seq(instance_id@),
            n == lower@.len(),
            p <= n,
            forall|k: int| 0 <= k < p ==> !marker_at(lower@, k),
        decreases n - p,
    {
        if lower[p] == '\\' && lower[p + 1] == 'd' && lower[p + 2] == 'e' && lower[p + 3] == 'v' && lower[p + 4] == '_' {
            proof {
                lemma_first_marker_found(lower@, 0, p as int);
            }
            let start = p + 5;
            if n - start >= 12 && all_hex(&lower, start, start + 12) && (start + 12 == n || lower[start + 12] == '\\') {
                let seg = slice_chars(&lower, start, start + 12);
                let up = text::upper_chars(&seg);
                return Some(text::string_from_chars(&up));
            }
            return None;
        }
        p = p + 1;
    }
    proof {
        lemma_first_marker_none(lower@, 0);
    }
    None
}

} // verus!

verus! {

// ---------- device properties ----------

/// Battery level from the raw `DEVPKEY_Device_BatteryLevel` property: its
/// first byte (the property is a BYTE or a little-endian UINT32), at most 100.
pub open spec fn spec_battery_level(property: Seq<u8>) -> Option<u8> {
    if property.len() == 0 {
        None
    } else if property[0] > 100 {
        Some(100u8)
    } else {
        Some(property[0])
    }
}

/// Battery level of a device node from its raw battery property.
pub fn read_battery_level(property: &[u8]) -> (r: Option<u8>)
    ensures
        r == spec_battery_level(property@),
{
    if property.len() == 0 {
        None
    } else if property[0] > 100 {
        Some(100)
    } else {
        Some(property[0])
    }
}

/// The little-endian UTF-16 code units of a raw property (a trailing odd
/// byte is ignored).
pub open spec fn utf16_units(property: Seq<u8>) -> Seq<u16> {
    Seq::new(property.len() / 2, |k: int| (property[2 * k] + 256 * property[2 * k + 1]) as u16)
}

/// Position of the first zero unit at `i` or later, or the length.
pub open spec fn nul_index(units: Seq<u16>, i: int) -> int
    decreases units.len() - i,
{
    if i < 0 || i >= units.len() {
        units.len() as int
    } else if units[i] == 0 {
        i
    } else {
        nul_index(units, i + 1)
    }
}

/// Friendly name from the raw `DEVPKEY_Device_FriendlyName` property (a
/// NUL-terminated UTF-16 string): decoded up to the first NUL, trimmed;
/// nothing when that leaves it empty.
pub open spec fn spec_friendly_name(property: Seq<u8>) -> Option<Seq<char>> {
    let units = utf16_units(property);
    let name = text::trim_seq(text::decode_utf16_lossy(units.take(nul_index(units, 0))));
    if name.len() == 0 {
        None
    } else {
        Some(name)
    }
}

proof fn lemma_nul_index_range(units: Seq<u16>, i: int)
    requires
        0 <= i <= units.len(),
    ensures
        i <= nul_index(units, i) <= units.len(),
    decreases units.len() - i,
{
    if i < units.len() && units[i] != 0 {
        lemma_nul_index_range(units, i + 1);
    }
}

/// The `k`-th little-endian UTF-16 unit of a raw property.
fn unit_at(property: &[u8], k: usize) -> (u: u16)
    requires
        k < property@.len() / 2,
    ensures
        u == utf16_units(property@)[k as int],
{
    let len = property.len();
    assert(k < len / 2);
    let i = k + k;
    assert(i + 1 < len);
    (property[i] as u16) + 256 * (property[i + 1] as u16)
}

/// Index of the first NUL unit of a raw property, or its unit count.
fn first_nul(property: &[u8]) -> (end: usize)
    ensures
        end == nul_index(utf16_units(property@), 0),
        end <= property@.len() / 2,
{
    let ghost all = utf16_units(property@);
    let half = property.len() / 2;
    let mut k: usize = 0;
    while k < half
        invariant
            half == property@.len() / 2,
            all == utf16_units(property@),
            k <= half,
            forall|m: int| 0 <= m < k ==> all[m] != 0,
        decreases half - k,
    {
        if unit_at(property, k) == 0 {
            proof {
                lemma_found_nul(all, k as int);
            }
            return k;
        }
        k = k + 1;
    }
    proof {
        lemma_no_nul(all, 0);
    }
    half
}

/// Friendly name of a device node from its raw name property.
pub fn read_friendly_name(property: &[u8]) -> (r: Option<String>)
    ensures
        r matches Some(n) ==> spec_friendly_name(property@) == Some(n@),
        r is None <==> spec_friendly_name(property@) is None,
{
    let ghost all = utf16_units(property@);
    let end = first_nul(property);
    let mut units: Vec<u16> = Vec::new();
    let mut k: usize = 0;
    while k < end
        invariant
            all == utf16_units(property@),
            end <= property@.len() / 2,
            k <= end,
            units@ == all.take(k as int),
        decreases end - k,
    {
        units.push(unit_at(property, k));
        proof {
            assert(all.take(k + 1) == all.take(k as int).push(all[k as int]));
        }
        k = k + 1;
    }
    let decoded = text::decode_utf16_units(&units);
    let trimmed = text::trim_chars(&decoded);
    if trimmed.len() == 0 {
        None
    } else {
        Some(text::string_from_chars(&trimmed))
    }
}

proof fn lemma_found_nul(units: Seq<u16>, k: int)
    requires
        0 <= k < units.len(),
        units[k] == 0,
        forall|m: int| 0 <= m < k ==> units[m] != 0,
    ensures
        nul_index(units, 0) == k,
{
    lemma_found_nul_from(units, 0, k);
}

proof fn lemma_found_nul_from(units: Seq<u16>, i: int, k: int)
    requires
        0 <= i <= k < units.len(),
        units[k] == 0,
        forall|m: int| i <= m < k ==> units[m] != 0,
    ensures
        nul_index(units, i) == k,
    decreases k - i,
{
    if i < k {
        lemma_found_nul_from(units, i + 1, k);
    }
}

proof fn lemma_no_nul(units: Seq<u16>, i: int)
    requires
        0 <= i <= units.len(),
        forall|m: int| i <= m < units.len() ==> units[m] != 0,
    ensures
        nul_index(units, i) == units.len(),
    decreases units.len() - i,
{
    if i < units.len() {
        lemma_no_nul(units, i + 1);
    }
}

} // verus!

verus! {

// ---------- ordering of device lists ----------

/// Lists of devices as sequences of views.
pub open spec fn views(v: Seq<DeviceBattery>) -> Seq<DeviceView> {
    v.map_values(|d: DeviceBattery| d@)
}

/// Sort rank of a device: with a target, the target (its address equal to the
/// target ignoring ASCII case) comes first; without one all ranks are equal.
pub open spec fn device_rank(d: DeviceView, target: Option<Seq<char>>) -> int {
    match target {
        Some(t) => if text::eq_ignore_case(d.address, t) {
            0
        } else {
            1
        },
        None => 0,
    }
}

/// Strict order on (rank, lower-cased name, position): by rank, then by the
/// lower-cased name, and between equal keys by position in the input.
pub open spec fn key_before(ra: int, na: Seq<char>, ia: int, rb: int, nb: Seq<char>, ib: int) -> bool {
    ra < rb || (ra == rb && (text::seq_lt(na, nb) || (na == nb && ia < ib)))
}

/// Device `i` of `input` comes before device `j` in the sorted list.
pub open spec fn sorts_before(input: Seq<DeviceView>, target: Option<Seq<char>>, i: int, j: int) -> bool {
    key_before(
        device_rank(input[i], target),
        text::unicode_lowercase(input[i].name),
        i,
        device_rank(input[j], target),
        text::unicode_lowercase(input[j].name),
        j,
    )
}

/// `perm` lists every position of `input` once, in sorted order.
pub open spec fn stable_order(input: Seq<DeviceView>, target: Option<Seq<char>>, perm: Seq<int>) -> bool {
    &&& perm.len() == input.len()
    &&& forall|k: int| 0 <= k < perm.len() ==> 0 <= #[trigger] perm[k] < input.len()
    &&& forall|k: int, m: int| 0 <= k < m < perm.len() ==> #[trigger] perm[k] != #[trigger] perm[m]
    &&& forall|k: int, m: int|
        0 <= k < m < perm.len() ==> sorts_before(input, target, #[trigger] perm[k], #[trigger] perm[m])
}

/// `out` is `input` stably sorted by (rank, lower-cased name): `sort_by` with
/// that key, which keeps devices with equal keys in their input order.
pub open spec fn is_stable_sort(out: Seq<DeviceView>, input: Seq<DeviceView>, target: Option<Seq<char>>) -> bool {
    exists|perm: Seq<int>|
        stable_order(input, target, perm) && out == perm.map_values(|j: int| input[j])
}

proof fn lemma_key_before_total(ra: int, na: Seq<char>, ia: int, rb: int, nb: Seq<char>, ib: int)
    requires
        ia != ib,
    ensures
        key_before(ra, na, ia, rb, nb, ib) || key_before(rb, nb, ib, ra, na, ia),
        !(key_before(ra, na, ia, rb, nb, ib) && key_before(rb, nb, ib, ra, na, ia)),
{
    text::lemma_seq_lt_total(na, nb);
    text::lemma_seq_lt_irreflexive(na);
}

proof fn lemma_key_before_transitive(
    ra: int,
    na: Seq<char>,
    ia: int,
    rb: int,
    nb: Seq<char>,
    ib: int,
    rc: int,
    nc: Seq<char>,
    ic: int,
)
    requires
        key_before(ra, na, ia, rb, nb, ib),
        key_before(rb, nb, ib, rc, nc, ic),
    ensures
        key_before(ra, na, ia, rc, nc, ic),
{
    if ra == rb && rb == rc {
        if text::seq_lt(na, nb) && text::seq_lt(nb, nc) {
            text::lemma_seq_lt_transitive(na, nb, nc);
        }
    }
}

/// Copy of a device list entry.
pub fn copy_device(d: &DeviceBattery) -> (r: DeviceBattery)
    ensures
        r@ == d@,
{
    DeviceBattery { address: d.address.clone(), name: d.name.clone(), level: d.level }
}

/// Entry `i` sorts before entry `j` by (rank, name key, position).
pub open spec fn keyed_before(ranks: Seq<u8>, keys: Seq<Seq<char>>, i: int, j: int) -> bool {
    key_before(ranks[i] as int, keys[i], i, ranks[j] as int, keys[j], j)
}

/// `perm` lists every position of the keys once, in sorted order.
pub open spec fn keyed_order(ranks: Seq<u8>, keys: Seq<Seq<char>>, perm: Seq<int>) -> bool {
    &&& perm.len() == ranks.len()
    &&& forall|k: int| 0 <= k < perm.len() ==> 0 <= #[trigger] perm[k] < ranks.len()
    &&& forall|k: int, m: int| 0 <= k < m < perm.len() ==> #[trigger] perm[k] != #[trigger] perm[m]
    &&& forall|k: int, m: int|
        0 <= k < m < perm.len() ==> keyed_before(ranks, keys, #[trigger] perm[k], #[trigger] perm[m])
}

/// `out` is `input` stably sorted by the given (rank, name key) of each entry.
pub open spec fn is_keyed_sort(
    out: Seq<DeviceView>,
    input: Seq<DeviceView>,
    ranks: Seq<u8>,
    keys: Seq<Seq<char>>,
) -> bool {
    exists|perm: Seq<int>| keyed_order(ranks, keys, perm) && out == perm.map_values(|j: int| input[j])
}

pub open spec fn key_views(keys: Seq<Vec<char>>) -> Seq<Seq<char>> {
    keys.map_values(|k: Vec<char>| k@)
}

/// Stable sort of `devs` by the keys given for each entry: `ranks[i]`, then
/// `keys[i]` in string order; entries with equal keys keep their order.
pub fn sort_by_keys(devs: &Vec<DeviceBattery>, ranks: &Vec<u8>, keys: &Vec<Vec<char>>) -> (r: Vec<DeviceBattery>)
    requires
        ranks.len() == devs.len(),
        keys.len() == devs.len(),
    ensures
        is_keyed_sort(views(r@), views(devs@), ranks@, key_views(keys@)),
{
    let ghost input = views(devs@);
    let ghost kv = key_views(keys@);
    let n = devs.len();
    let mut perm: Vec<usize> = Vec::new();
    let mut i: usize = 0;
    while i < n
        invariant
            n == devs.len(),
            input == views(devs@),
            kv == key_views(keys@),
            input.len() == n,
            i <= n,
            ranks.len() == n,
            keys.len() == n,
            perm.len() == i,
            forall|k: int| 0 <= k < perm.len() ==> (#[trigger] perm@[k]) < i,
            forall|k: int, m: int| 0 <= k < m < perm.len() ==> #[trigger] perm@[k] != #[trigger] perm@[m],
            forall|k: int, m: int|
                0 <= k < m < perm.len() ==> keyed_before(ranks@, kv, #[trigger] perm@[k] as int, #[trigger] perm@[m] as int),
        decreases n - i,
    {
        // first position whose entry sorts after entry i
        let mut p: usize = 0;
        while p < perm.len()
            invariant
                i < n,
                ranks.len() == n,
                keys.len() == n,
                kv == key_views(keys@),
                forall|k: int| 0 <= k < perm.len() ==> (#[trigger] perm@[k]) < i,
                p <= perm.len(),
                forall|k: int| 0 <= k < p ==> !keyed_before(ranks@, kv, i as int, #[trigger] perm@[k] as int),
            ensures
                p <= perm.len(),
                forall|k: int| 0 <= k < p ==> !keyed_before(ranks@, kv, i as int, #[trigger] perm@[k] as int),
                p < perm.len() ==> keyed_before(ranks@, kv, i as int, perm@[p as int] as int),
            decreases perm.len() - p,
        {
            let j = perm[p];
            let after = ranks[i] < ranks[j] || (ranks[i] == ranks[j] && text::chars_less(&keys[i], &keys[j]));
            proof {
                assert(perm@[p as int] < i);
                assert(kv[i as int] == keys@[i as int]@ && kv[j as int] == keys@[j as int]@);
                assert(after == keyed_before(ranks@, kv, i as int, j as int));
            }
            if after {
                break;
            }
            p = p + 1;
        }
        proof {
            // positions before p sort before i, positions from p on sort after i
            let old_perm = perm@;
            assert forall|k: int| 0 <= k < p implies keyed_before(ranks@, kv, #[trigger] old_perm[k] as int, i as int) by {
                let a = old_perm[k] as int;
                lemma_key_before_total(ranks@[i as int] as int, kv[i as int], i as int, ranks@[a] as int, kv[a], a);
            }
            assert forall|k: int| p <= k < old_perm.len() implies keyed_before(ranks@, kv, i as int, #[trigger] old_perm[k] as int) by {
                let a = old_perm[p as int] as int;
                let b = old_perm[k] as int;
                if k > p {
                    assert(keyed_before(ranks@, kv, old_perm[p as int] as int, old_perm[k] as int));
                    lemma_key_before_transitive(
                        ranks@[i as int] as int,
                        kv[i as int],
                        i as int,
                        ranks@[a] as int,
                        kv[a],
                        a,
                        ranks@[b] as int,
                        kv[b],
                        b,
                    );
                }
            }
        }
        let ghost before = perm@;
        perm.insert(p, i);
        proof {
            let np = perm@;
            assert(np.len() == before.len() + 1);
            assert forall|k: int| 0 <= k < np.len() implies (#[trigger] np[k]) < i + 1 by {
                if k < p {
                    assert(np[k] == before[k]);
                } else if k > p {
                    assert(np[k] == before[k - 1]);
                }
            }
            assert forall|k: int, m: int| 0 <= k < m < np.len() implies #[trigger] np[k] != #[trigger] np[m] by {
                if k < p {
                    assert(np[k] == before[k]);
                } else if k > p {
                    assert(np[k] == before[k - 1]);
                }
                if m < p {
                    assert(np[m] == before[m]);
                } else if m > p {
                    assert(np[m] == before[m - 1]);
                }
            }
            assert forall|k: int, m: int| 0 <= k < m < np.len() implies keyed_before(
                ranks@,
                kv,
                #[trigger] np[k] as int,
                #[trigger] np[m] as int,
            ) by {
                if k < p {
                    assert(np[k] == before[k]);
                } else if k > p {
                    assert(np[k] == before[k - 1]);
                }
                if m < p {
                    assert(np[m] == before[m]);
                } else if m > p {
                    assert(np[m] == before[m - 1]);
                }
            }
        }
        i = i + 1;
    }
    let mut out: Vec<DeviceBattery> = Vec::new();
    let mut k: usize = 0;
    while k < n
        invariant
            n == devs.len(),
            perm.len() == n,
            forall|m: int| 0 <= m < perm.len() ==> (#[trigger] perm@[m]) < n,
            k <= n,
            out.len() == k,
            forall|m: int| 0 <= m < k ==> (#[trigger] out@[m])@ == devs@[perm@[m] as int]@,
        decreases n - k,
    {
        out.push(copy_device(&devs[perm[k]]));
        k = k + 1;
    }
    proof {
        let ip = perm@.map_values(|x: usize| x as int);
        assert(keyed_order(ranks@, kv, ip));
        assert(views(out@) =~= ip.map_values(|j: int| input[j]));
    }
    out
}

/// Stable sort of `devs` by (rank, `str::to_lowercase` of the name); with
/// `target` the device whose address equals it (ASCII case ignored) ranks first.
pub fn stable_sort_devices(devs: &Vec<DeviceBattery>, target: Option<&str>) -> (r: Vec<DeviceBattery>)
    ensures
        is_stable_sort(
            views(r@),
            views(devs@),
            match target {
                Some(t) => Some(t@),
                None => None,
            },
        ),
{
    let ghost tv: Option<Seq<char>> = match target {
        Some(t) => Some(t@),
        None => None,
    };
    let ghost input = views(devs@);
    let n = devs.len();
    let mut ranks: Vec<u8> = Vec::new();
    let mut names: Vec<Vec<char>> = Vec::new();
    let mut i: usize = 0;
    while i < n
        invariant
            n == devs.len(),
            tv == match target {
                Some(t) => Some(t@),
                None => None::<Seq<char>>,
            },
            input == views(devs@),
            i <= n,
            ranks.len() == i,
            names.len() == i,
            forall|k: int| 0 <= k < i ==> ranks@[k] as int == device_rank(#[trigger] input[k], tv),
            forall|k: int| 0 <= k < i ==> (#[trigger] names@[k])@ == text::unicode_lowercase(input[k].name),
        decreases n - i,
    {
        let d = &devs[i];
        let rank: u8 = match target {
            Some(t) => if text::str_eq_ignore_case(d.address.as_str(), t) {
                0
            } else {
                1
            },
            None => 0,
        };
        let lowered = text::to_lowercase(d.name.as_str());
        proof {
            assert(input[i as int] == devs@[i as int]@);
            assert(rank as int == device_rank(input[i as int], tv));
        }
        ranks.push(rank);
        names.push(text::chars_of(lowered.as_str()));
        i = i + 1;
    }
    let r = sort_by_keys(devs, &ranks, &names);
    proof {
        let kv = key_views(names@);
        let perm = choose|perm: Seq<int>|
            keyed_order(ranks@, kv, perm) && views(r@) == perm.map_values(|j: int| input[j]);
        assert forall|k: int, m: int| 0 <= k < m < perm.len() implies sorts_before(
            input,
            tv,
            #[trigger] perm[k],
            #[trigger] perm[m],
        ) by {
            let a = perm[k];
            let b = perm[m];
            assert(keyed_before(ranks@, kv, a, b));
            assert(ranks@[a] as int == device_rank(input[a], tv));
            assert(ranks@[b] as int == device_rank(input[b], tv));
            assert(kv[a] == names@[a]@ && kv[b] == names@[b]@);
        }
        assert(stable_order(input, tv, perm));
    }
    r
}

} // verus!

verus! {

// ---------- merging device nodes into devices ----------

/// What the caller read from one device node.
pub struct DeviceNode {
    /// Instance identifier, e.g. `BTHENUM\{...}_VID&...\7&...&0&AABBCCDDEEFF_C00000000`.
    pub instance_id: String,
    /// The node was located and its driver is started (device connected).
    pub started: bool,
    /// Raw `DEVPKEY_Device_BatteryLevel`, when the node has it.
    pub battery: Option<Vec<u8>>,
    /// Raw `DEVPKEY_Device_FriendlyName`, when the node has it.
    pub friendly_name: Option<Vec<u8>>,
}

/// One node that counts, as the merge sees it.
pub struct Reading {
    pub address: Seq<char>,
    pub level: Option<u8>,
    pub name: Option<Seq<char>>,
    pub is_base: bool,
}

/// Some entry of `set` is `a`.
pub open spec fn in_set(set: Seq<String>, a: Seq<char>) -> bool {
    exists|i: int| 0 <= i < set.len() && (#[trigger] set[i])@ == a
}

/// The connected-address filter: without a set every address passes; with
/// one, the address or its ASCII-lowered form must be in it.
pub open spec fn passes_filter(connected: Option<Seq<String>>, a: Seq<char>) -> bool {
    match connected {
        None => true,
        Some(set) => in_set(set, a) || in_set(set, text::lower_seq(a)),
    }
}

pub open spec fn node_level(n: DeviceNode) -> Option<u8> {
    match n.battery {
        Some(b) => spec_battery_level(b@),
        None => None,
    }
}

pub open spec fn node_name(n: DeviceNode) -> Option<Seq<char>> {
    match n.friendly_name {
        Some(b) => spec_friendly_name(b@),
        None => None,
    }
}

/// A node counts when it has an address that passes the filter and is started.
pub open spec fn node_reading(n: DeviceNode, connected: Option<Seq<String>>) -> Option<Reading> {
    match spec_extract_address(n.instance_id@) {
        None => None,
        Some(a) => if passes_filter(connected, a) && n.started {
            Some(
                Reading {
                    address: a,
                    level: node_level(n),
                    name: node_name(n),
                    is_base: spec_extract_base_address(n.instance_id@) == Some(a),
                },
            )
        } else {
            None
        },
    }
}

/// The nodes that count, in order.
pub open spec fn readings(nodes: Seq<DeviceNode>, connected: Option<Seq<String>>) -> Seq<Reading>
    decreases nodes.len(),
{
    if nodes.len() == 0 {
        seq![]
    } else {
        let prev = readings(nodes.drop_last(), connected);
        match node_reading(nodes.last(), connected) {
            Some(r) => prev.push(r),
            None => prev,
        }
    }
}

/// The distinct addresses of `rs`, in order of first appearance.
pub open spec fn group_keys(rs: Seq<Reading>) -> Seq<Seq<char>>
    decreases rs.len(),
{
    if rs.len() == 0 {
        seq![]
    } else {
        let prev = group_keys(rs.drop_last());
        if prev.contains(rs.last().address) {
            prev
        } else {
            prev.push(rs.last().address)
        }
    }
}

/// Highest level among the readings of address `a` that have one.
pub open spec fn group_level(rs: Seq<Reading>, a: Seq<char>) -> Option<u8>
    decreases rs.len(),
{
    if rs.len() == 0 {
        None
    } else {
        let prev = group_level(rs.drop_last(), a);
        let r = rs.last();
        if r.address == a && r.level is Some {
            let l = r.level->0;
            Some(
                match prev {
                    Some(p) => if p > l {
                        p
                    } else {
                        l
                    },
                    None => l,
                },
            )
        } else {
            prev
        }
    }
}

/// Name of the first reading of `a` that has a level (once set, kept).
pub open spec fn charge_name(rs: Seq<Reading>, a: Seq<char>) -> Option<Seq<char>>
    decreases rs.len(),
{
    if rs.len() == 0 {
        None
    } else {
        let prev = charge_name(rs.drop_last(), a);
        let r = rs.last();
        if r.address == a && r.level is Some && prev is None {
            r.name
        } else {
            prev
        }
    }
}

/// Name of the first base-node reading of `a` (once set, kept).
pub open spec fn base_name(rs: Seq<Reading>, a: Seq<char>) -> Option<Seq<char>>
    decreases rs.len(),
{
    if rs.len() == 0 {
        None
    } else {
        let prev = base_name(rs.drop_last(), a);
        let r = rs.last();
        if r.address == a && r.is_base && prev is None {
            r.name
        } else {
            prev
        }
    }
}

/// Name of a device of which no node reports a name.
pub open spec fn unnamed_device() -> Seq<char> {
    "Bluetooth-устройство"@
}

/// The device entry for address `a`: only when some node reports a level;
/// named after its base node, else after the node that reported a level.
pub open spec fn group_device(rs: Seq<Reading>, a: Seq<char>) -> Option<DeviceView> {
    match group_level(rs, a) {
        None => None,
        Some(l) => Some(
            DeviceView {
                address: a,
                name: match base_name(rs, a) {
                    Some(n) => n,
                    None => match charge_name(rs, a) {
                        Some(n) => n,
                        None => unnamed_device(),
                    },
                },
                level: l,
            },
        ),
    }
}

pub open spec fn devices_of(keys: Seq<Seq<char>>, rs: Seq<Reading>) -> Seq<DeviceView>
    decreases keys.len(),
{
    if keys.len() == 0 {
        seq![]
    } else {
        let prev = devices_of(keys.drop_last(), rs);
        match group_device(rs, keys.last()) {
            Some(d) => prev.push(d),
            None => prev,
        }
    }
}

/// One entry per address that counts and has a level, in order of first
/// appearance.
pub open spec fn spec_devices(nodes: Seq<DeviceNode>, connected: Option<Seq<String>>) -> Seq<DeviceView> {
    let rs = readings(nodes, connected);
    devices_of(group_keys(rs), rs)
}

pub open spec fn opt_view(o: Option<String>) -> Option<Seq<char>> {
    match o {
        Some(s) => Some(s@),
        None => None,
    }
}

pub open spec fn set_view(connected: Option<&Vec<String>>) -> Option<Seq<String>> {
    match connected {
        Some(v) => Some(v@),
        None => None,
    }
}

proof fn lemma_keys_distinct(rs: Seq<Reading>)
    ensures
        group_keys(rs).no_duplicates(),
    decreases rs.len(),
{
    if rs.len() > 0 {
        lemma_keys_distinct(rs.drop_last());
    }
}

proof fn lemma_unknown_address(rs: Seq<Reading>, a: Seq<char>)
    requires
        !group_keys(rs).contains(a),
    ensures
        group_level(rs, a) is None,
        charge_name(rs, a) is None,
        base_name(rs, a) is None,
    decreases rs.len(),
{
    if rs.len() > 0 {
        let prev = group_keys(rs.drop_last());
        if prev.contains(a) {
            assert(group_keys(rs).contains(a)) by {
                if !prev.contains(rs.last().address) {
                    let j = choose|j: int| 0 <= j < prev.len() && prev[j] == a;
                    assert(prev.push(rs.last().address)[j] == a);
                }
            }
        }
        if rs.last().address == a {
            assert(group_keys(rs).contains(a)) by {
                if !prev.contains(a) {
                    assert(prev.push(a)[prev.len() as int] == a);
                }
            }
        }
        lemma_unknown_address(rs.drop_last(), a);
    }
}

/// The merge state of one address.
struct GroupAcc {
    address: Vec<char>,
    level: Option<u8>,
    base_name: Option<String>,
    charge_name: Option<String>,
}

spec fn acc_matches(g: GroupAcc, rs: Seq<Reading>, a: Seq<char>) -> bool {
    &&& g.address@ == a
    &&& g.level == group_level(rs, a)
    &&& opt_view(g.base_name) == base_name(rs, a)
    &&& opt_view(g.charge_name) == charge_name(rs, a)
}

spec fn accs_match(groups: Seq<GroupAcc>, rs: Seq<Reading>) -> bool {
    &&& groups.len() == group_keys(rs).len()
    &&& forall|j: int| 0 <= j < groups.len() ==> acc_matches(#[trigger] groups[j], rs, group_keys(rs)[j])
}

fn clone_opt(o: &Option<String>) -> (r: Option<String>)
    ensures
        opt_view(r) == opt_view(*o),
{
    match o {
        Some(s) => Some(s.clone()),
        None => None,
    }
}

/// `set` holds a string equal to `a`.
fn set_contains(set: &Vec<String>, a: &Vec<char>) -> (r: bool)
    ensures
        r == in_set(set@, a@),
{
    let mut i: usize = 0;
    while i < set.len()
        invariant
            i <= set.len(),
            forall|k: int| 0 <= k < i ==> (#[trigger] set@[k])@ != a@,
        decreases set.len() - i,
    {
        let c = text::chars_of(set[i].as_str());
        if text::chars_equal(&c, a) {
            return true;
        }
        i = i + 1;
    }
    false
}

/// Folds one reading into the merge state.
fn add_reading(
    groups: &mut Vec<GroupAcc>,
    address: Vec<char>,
    level: Option<u8>,
    name: Option<String>,
    is_base: bool,
    Ghost(rs): Ghost<Seq<Reading>>,
)
    requires
        accs_match(old(groups)@, rs),
    ensures
        accs_match(
            final(groups)@,
            rs.push(Reading { address: address@, level: level, name: opt_view(name), is_base: is_base }),
        ),
{
    let ghost r = Reading { address: address@, level: level, name: opt_view(name), is_base: is_base };
    let ghost rs2 = rs.push(r);
    let ghost keys = group_keys(rs);
    proof {
        assert(rs2.drop_last() == rs);
        lemma_keys_distinct(rs);
    }
    let mut j: usize = 0;
    while j < groups.len()
        invariant
            accs_match(groups@, rs),
            keys == group_keys(rs),
            j <= groups.len(),
            forall|k: int| 0 <= k < j ==> keys[k] != address@,
        ensures
            accs_match(groups@, rs),
            j <= groups.len(),
            forall|k: int| 0 <= k < j ==> keys[k] != address@,
            j < groups.len() ==> groups@[j as int].address@ == address@,
        decreases groups.len() - j,
    {
        if text::chars_equal(&groups[j].address, &address) {
            break;
        }
        j = j + 1;
    }
    if j == groups.len() {
        proof {
            assert(!keys.contains(address@));
            lemma_unknown_address(rs, address@);
        }
        let g = GroupAcc {
            address: text::clone_chars(&address),
            level: level,
            base_name: if is_base {
                clone_opt(&name)
            } else {
                None
            },
            charge_name: if level.is_some() {
                clone_opt(&name)
            } else {
                None
            },
        };
        let ghost before = groups@;
        groups.push(g);
        proof {
            assert(group_keys(rs2) == keys.push(address@));
            assert forall|k: int| 0 <= k < groups@.len() implies acc_matches(#[trigger] groups@[k], rs2, group_keys(rs2)[k]) by {
                if k < before.len() {
                    assert(acc_matches(before[k], rs, keys[k]));
                    assert(keys[k] != address@);
                }
            }
        }
    } else {
        proof {
            assert(acc_matches(groups@[j as int], rs, keys[j as int]));
            assert(keys[j as int] == address@);
            assert(keys.contains(address@));
            assert(group_keys(rs2) == keys);
        }
        let old_level = groups[j].level;
        let new_level = match level {
            Some(l) => Some(
                match old_level {
                    Some(p) => if p > l {
                        p
                    } else {
                        l
                    },
                    None => l,
                },
            ),
            None => old_level,
        };
        let new_base = if is_base && groups[j].base_name.is_none() {
            clone_opt(&name)
        } else {
            clone_opt(&groups[j].base_name)
        };
        let new_charge = if level.is_some() && groups[j].charge_name.is_none() {
            clone_opt(&name)
        } else {
            clone_opt(&groups[j].charge_name)
        };
        let g = GroupAcc { address: text::clone_chars(&address), level: new_level, base_name: new_base, charge_name: new_charge };
        let ghost before = groups@;
        groups.set(j, g);
        proof {
            assert forall|k: int| 0 <= k < groups@.len() implies acc_matches(#[trigger] groups@[k], rs2, group_keys(rs2)[k]) by {
                assert(acc_matches(before[k], rs, keys[k]));
                if k != j {
                    assert(keys[k] != keys[j as int]);
                }
            }
        }
    }
}

/// Battery levels of the connected Bluetooth devices, from the device nodes
/// the caller read.
///
/// A node counts when its instance identifier holds an address
/// (`extract_address`), the address passes `connected_only` (when given) and
/// the node is started. The nodes of one address make one device: its level is
/// the highest level of its nodes, its name the name of its base node
/// (`extract_base_address` gives the same address), else the name of the
/// first node with a level, else `"Bluetooth-устройство"`. Devices without a
/// level are left out. The list is sorted by the lower-cased name.
///
/// `connected_only == None` shows every device with a level (used when the
/// connection state cannot be read).
pub fn get_devices_with_battery(nodes: &Vec<DeviceNode>, connected_only: Option<&Vec<String>>) -> (r: Vec<DeviceBattery>)
    ensures
        is_stable_sort(views(r@), spec_devices(nodes@, set_view(connected_only)), None),
{
    let ghost conn = set_view(connected_only);
    let mut groups: Vec<GroupAcc> = Vec::new();
    let mut i: usize = 0;
    while i < nodes.len()
        invariant
            conn == set_view(connected_only),
            i <= nodes.len(),
            accs_match(groups@, readings(nodes@.take(i as int), conn)),
        decreases nodes.len() - i,
    {
        let node = &nodes[i];
        let ghost prefix = nodes@.take(i as int);
        proof {
            assert(nodes@.take(i + 1).drop_last() == prefix);
            assert(nodes@.take(i + 1).last() == nodes@[i as int]);
        }
        match extract_address(node.instance_id.as_str()) {
            None => {},
            Some(addr) => {
                let chars = text::chars_of(addr.as_str());
                let passes = match connected_only {
                    None => true,
                    Some(set) => set_contains(set, &chars) || set_contains(set, &text::lower_chars(&chars)),
                };
                if passes && node.started {
                    let level = match &node.battery {
                        Some(b) => read_battery_level(b.as_slice()),
                        None => None,
                    };
                    let name = match &node.friendly_name {
                        Some(b) => read_friendly_name(b.as_slice()),
                        None => None,
                    };
                    let is_base = match extract_base_address(node.instance_id.as_str()) {
                        Some(b) => text::str_equal(b.as_str(), addr.as_str()),
                        None => false,
                    };
                    add_reading(&mut groups, chars, level, name, is_base, Ghost(readings(prefix, conn)));
                }
            },
        }
        i = i + 1;
    }
    proof {
        assert(nodes@.take(nodes@.len() as int) == nodes@);
    }
    let ghost rs = readings(nodes@, conn);
    let ghost keys = group_keys(rs);
    let mut unsorted: Vec<DeviceBattery> = Vec::new();
    let mut j: usize = 0;
    while j < groups.len()
        invariant
            accs_match(groups@, rs),
            keys == group_keys(rs),
            j <= groups.len(),
            views(unsorted@) == devices_of(keys.take(j as int), rs),
        decreases groups.len() - j,
    {
        let g = &groups[j];
        proof {
            assert(keys.take(j + 1).drop_last() == keys.take(j as int));
            assert(acc_matches(groups@[j as int], rs, keys[j as int]));
        }
        match g.level {
            Some(l) => {
                let name = match &g.base_name {
                    Some(n) => n.clone(),
                    None => match &g.charge_name {
                        Some(n) => n.clone(),
                        None => String::from_str("Bluetooth-устройство"),
                    },
                };
                let ghost before = unsorted@;
                unsorted.push(DeviceBattery { address: text::string_from_chars(&g.address), name: name, level: l });
                proof {
                    assert(views(unsorted@) == views(before).push(unsorted@.last()@));
                }
            },
            None => {},
        }
        j = j + 1;
    }
    proof {
        assert(keys.take(keys.len() as int) == keys);
    }
    stable_sort_devices(&unsorted, None)
}

} // verus!

verus! {

// ---------- reading device nodes ----------

/// `CR_SUCCESS` of the configuration manager.
pub const CR_SUCCESS: u32 = 0;

/// `CR_BUFFER_SMALL`: the property did not fit; the needed size is reported.
pub const CR_BUFFER_SMALL: u32 = 0x1A;

/// Size of the buffer for the first property read.
pub const INITIAL_PROPERTY_SIZE: u32 = 4096;

/// Largest property size that is read again after `CR_BUFFER_SMALL`.
pub const MAX_PROPERTY_SIZE: u32 = 65536;

/// `DN_STARTED` in the node status: the driver is running, the device connected.
pub const DN_STARTED: u32 = 0x8;

/// A node counts as connected when its status was read and has `DN_STARTED`.
pub fn devnode_started(rc: u32, status: u32) -> (r: bool)
    ensures
        r == (rc == CR_SUCCESS && status & DN_STARTED != 0),
{
    rc == CR_SUCCESS && status & DN_STARTED != 0
}

/// What to do after reading a property into a buffer.
#[derive(Debug, Clone, Copy, PartialEq, Eq)]
pub enum PropertyStep {
    /// The property is the first `len` bytes of the buffer.
    Complete(usize),
    /// Read again with a buffer of this size.
    Retry(u32),
    /// The node has no such property.
    Missing,
}

/// The decision after the first read (buffer of `buffer_len` bytes): on
/// success the reported size must fit the buffer; on `CR_BUFFER_SMALL` a size
/// in `1..=MAX_PROPERTY_SIZE` is read again; anything else means no property.
pub fn first_property_step(rc: u32, size: u32, buffer_len: usize) -> (r: PropertyStep)
    ensures
        rc == CR_SUCCESS && size as int <= buffer_len as int ==> r == PropertyStep::Complete(size as usize),
        rc == CR_SUCCESS && size as int > buffer_len as int ==> r == PropertyStep::Missing,
        rc == CR_BUFFER_SMALL && 0 < size <= MAX_PROPERTY_SIZE ==> r == PropertyStep::Retry(size),
        rc == CR_BUFFER_SMALL && !(0 < size <= MAX_PROPERTY_SIZE) ==> r == PropertyStep::Missing,
        rc != CR_SUCCESS && rc != CR_BUFFER_SMALL ==> r == PropertyStep::Missing,
{
    if rc == CR_SUCCESS {
        if (size as u64) <= (buffer_len as u64) {
            return PropertyStep::Complete(size as usize);
        }
        return PropertyStep::Missing;
    }
    if rc == CR_BUFFER_SMALL && size > 0 && size <= MAX_PROPERTY_SIZE {
        return PropertyStep::Retry(size);
    }
    PropertyStep::Missing
}

/// The decision after the second read: the property is the first `size`
/// bytes when the read succeeded and the size fits the buffer.
pub fn retry_property_step(rc: u32, size: u32, buffer_len: usize) -> (r: Option<usize>)
    ensures
        r == (if rc == CR_SUCCESS && size as int <= buffer_len as int {
            Some(size as usize)
        } else {
            None
        }),
{
    if rc == CR_SUCCESS && (size as u64) <= (buffer_len as u64) {
        Some(size as usize)
    } else {
        None
    }
}

/// `"{branch}\\{device}"`.
pub open spec fn device_id(branch: Seq<char>, device: Seq<char>) -> Seq<char> {
    branch + seq!['\\'] + device
}

/// Instance identifiers below one device key of the enumeration tree
/// (`SYSTEM\CurrentControlSet\Enum\{branch}\{device}`): one per instance
/// subkey, `"{branch}\\{device}\\{instance}"`, or `"{branch}\\{device}"` when
/// the device key has no subkeys.
pub fn instance_ids(branch: &str, device: &str, instances: &Vec<String>) -> (r: Vec<String>)
    ensures
        instances.len() == 0 ==> r@.len() == 1 && r@[0]@ == device_id(branch@, device@),
        instances.len() > 0 ==> r@.len() == instances.len() && forall|k: int|
            0 <= k < instances.len() ==> (#[trigger] r@[k])@ == device_id(branch@, device@) + seq!['\\']
                + instances@[k]@,
{
    let mut base: Vec<char> = text::chars_of(branch);
    base.push('\\');
    text::push_str(&mut base, device);
    proof {
        assert(base@ == device_id(branch@, device@));
    }
    let mut out: Vec<String> = Vec::new();
    if instances.len() == 0 {
        out.push(text::string_from_chars(&base));
        return out;
    }
    let mut k: usize = 0;
    while k < instances.len()
        invariant
            base@ == device_id(branch@, device@),
            k <= instances.len(),
            out@.len() == k,
            forall|m: int| 0 <= m < k ==> (#[trigger] out@[m])@ == device_id(branch@, device@) + seq!['\\']
                + instances@[m]@,
        decreases instances.len() - k,
    {
        let mut id = text::clone_chars(&base);
        id.push('\\');
        text::push_str(&mut id, instances[k].as_str());
        out.push(text::string_from_chars(&id));
        k = k + 1;
    }
    out
}

// ---------- Bluetooth address from the connection API ----------

proof fn lemma_hex_upper_len(n: nat, w: nat)
    requires
        n < vstd::arithmetic::power::pow(16, w),
    ensures
        text::hex_upper(n, w).len() == w,
    decreases n + w,
{
    reveal(vstd::arithmetic::power::pow);
    if n == 0 && w == 0 {
    } else {
        if w == 0 {
            assert(vstd::arithmetic::power::pow(16, 0) == 1);
        } else {
            assert(vstd::arithmetic::power::pow(16, w) == 16 * vstd::arithmetic::power::pow(16, (w - 1) as nat));
            assert(n / 16 < vstd::arithmetic::power::pow(16, (w - 1) as nat));
            lemma_hex_upper_len(n / 16, (w - 1) as nat);
        }
    }
}

proof fn lemma_hex_upper_digits(n: nat, w: nat)
    ensures
        forall|k: int| 0 <= k < text::hex_upper(n, w).len() ==> {
            let c = #[trigger] text::hex_upper(n, w)[k];
            &&& text::is_hex_digit(c)
            &&& text::ascii_upper(c) == c
        },
    decreases n + w,
{
    if n == 0 && w == 0 {
    } else {
        let w2: nat = if w > 0 {
            (w - 1) as nat
        } else {
            0
        };
        lemma_hex_upper_digits(n / 16, w2);
        let prev = text::hex_upper(n / 16, w2);
        let d = (n % 16) as int;
        assert(text::hex_upper(n, w) == prev + seq![text::hex_char(d)]);
    }
}

fn hex_digit_char(d: u64) -> (c: char)
    requires
        d < 16,
    ensures
        c == text::hex_char(d as int),
{
    if d < 10 {
        ((d as u8) + 48) as char
    } else {
        ((d as u8) + 55) as char
    }
}

/// `format!("{:012X}", addr)`: the Bluetooth address reported by the
/// connection API as upper-case hexadecimal, zero-padded to twelve digits.
pub fn format_bluetooth_address(addr: u64) -> (r: String)
    ensures
        r@ == text::hex_upper(addr as nat, 12),
{
    let mut digits: Vec<char> = Vec::new();
    let mut v: u64 = addr;
    let mut w: u64 = 12;
    while v > 0 || w > 0
        invariant
            text::hex_upper(addr as nat, 12) == text::hex_upper(v as nat, w as nat) + digits@,
            w <= 12,
        decreases v + w,
    {
        let c = hex_digit_char(v % 16);
        let ghost before = digits@;
        digits.insert(0, c);
        proof {
            assert(digits@ == seq![c] + before);
            let w2: nat = if w > 0 {
                (w - 1) as nat
            } else {
                0
            };
            assert(text::hex_upper(v as nat, w as nat) == text::hex_upper((v / 16) as nat, w2) + seq![c]);
            assert(text::hex_upper(v as nat, w as nat) + before == text::hex_upper((v / 16) as nat, w2) + digits@);
        }
        v = v / 16;
        if w > 0 {
            w = w - 1;
        }
    }
    proof {
        assert(text::hex_upper(0, 0) == Seq::<char>::empty());
        assert(digits@ == text::hex_upper(addr as nat, 12));
    }
    text::string_from_chars(&digits)
}

} // verus!

verus! {

// ---------- laws ----------

/// An address formatted from the connection API is recognised in an instance
/// identifier that consists of it alone: the connected-address filter and the
/// device-node addresses speak the same language.
pub proof fn lemma_formatted_address_is_extracted(addr: u64)
    requires
        addr < 0x1000000000000u64,
    ensures
        text::hex_upper(addr as nat, 12).len() == 12,
        spec_extract_address(text::hex_upper(addr as nat, 12)) == Some(text::hex_upper(addr as nat, 12)),
{
    let s = text::hex_upper(addr as nat, 12);
    assert(vstd::arithmetic::power::pow(16, 12) == 0x1000000000000) by {
        vstd::arithmetic::power::lemma_pow_positive(16, 12);
        reveal_with_fuel(vstd::arithmetic::power::pow, 13);
    }
    lemma_hex_upper_len(addr as nat, 12);
    lemma_hex_upper_digits(addr as nat, 12);
    assert(address_at(s, 0));
    assert(first_address_from(s, 0) == Some(0int));
    assert(text::upper_seq(s.subrange(0, 12)) =~= s);
}

/// `0`-`9` or `A`-`F`.
pub open spec fn is_upper_hex_digit(c: char) -> bool {
    ('0' <= c && c <= '9') || ('A' <= c && c <= 'F')
}

/// Twelve upper-case hexadecimal digits.
pub open spec fn upper_hex_address(a: Seq<char>) -> bool {
    a.len() == 12 && forall|k: int| 0 <= k < 12 ==> is_upper_hex_digit(#[trigger] a[k])
}

proof fn lemma_extracted_upper_hex(s: Seq<char>)
    ensures
        spec_extract_address(s) matches Some(a) ==> upper_hex_address(a),
{
    lemma_first_address_at(s, 0);
    if let Some(i) = first_address_from(s, 0) {
        let a = spec_extract_address(s)->0;
        assert forall|k: int| 0 <= k < 12 implies is_upper_hex_digit(#[trigger] a[k]) by {
            assert(text::is_hex_digit(s[i + k]));
            assert(a[k] == text::ascii_upper(s[i + k]));
        }
    }
}

proof fn lemma_readings_facts(nodes: Seq<DeviceNode>, conn: Option<Seq<String>>)
    ensures
        forall|i: int| 0 <= i < readings(nodes, conn).len() ==> {
            let r = #[trigger] readings(nodes, conn)[i];
            &&& passes_filter(conn, r.address)
            &&& upper_hex_address(r.address)
            &&& (r.level matches Some(l) ==> l <= 100)
        },
    decreases nodes.len(),
{
    if nodes.len() > 0 {
        lemma_readings_facts(nodes.drop_last(), conn);
        let n = nodes.last();
        match spec_extract_address(n.instance_id@) {
            Some(a) => {
                let i = first_address_from(n.instance_id@, 0)->0;
                lemma_first_address_at(n.instance_id@, 0);
                lemma_extracted_upper_hex(n.instance_id@);
            },
            None => {},
        }
    }
}

proof fn lemma_first_address_at(s: Seq<char>, i: int)
    ensures
        first_address_from(s, i) matches Some(j) ==> address_at(s, j),
    decreases s.len() - i,
{
    if !(i < 0 || i + 12 > s.len()) && !address_at(s, i) {
        lemma_first_address_at(s, i + 1);
    }
}

proof fn lemma_keys_from_readings(rs: Seq<Reading>)
    ensures
        forall|j: int| 0 <= j < group_keys(rs).len() ==> exists|i: int|
            0 <= i < rs.len() && (#[trigger] rs[i]).address == #[trigger] group_keys(rs)[j],
    decreases rs.len(),
{
    if rs.len() > 0 {
        let prev = rs.drop_last();
        lemma_keys_from_readings(prev);
        assert forall|j: int| 0 <= j < group_keys(rs).len() implies exists|i: int|
            0 <= i < rs.len() && (#[trigger] rs[i]).address == #[trigger] group_keys(rs)[j] by {
            if j < group_keys(prev).len() {
                let i = choose|i: int| 0 <= i < prev.len() && (#[trigger] prev[i]).address == group_keys(prev)[j];
                assert(rs[i] == prev[i]);
            } else {
                assert(rs[rs.len() - 1].address == group_keys(rs)[j]);
            }
        }
    }
}

proof fn lemma_group_level_bound(rs: Seq<Reading>, a: Seq<char>)
    requires
        forall|i: int| 0 <= i < rs.len() ==> ((#[trigger] rs[i]).level matches Some(l) ==> l <= 100),
    ensures
        group_level(rs, a) matches Some(l) ==> l <= 100,
    decreases rs.len(),
{
    if rs.len() > 0 {
        let prev = rs.drop_last();
        assert forall|i: int| 0 <= i < prev.len() implies ((#[trigger] prev[i]).level matches Some(l) ==> l
            <= 100) by {
            assert(prev[i] == rs[i]);
        }
        lemma_group_level_bound(prev, a);
        assert(rs.last() == rs[rs.len() - 1]);
    }
}

proof fn lemma_devices_of(keys: Seq<Seq<char>>, rs: Seq<Reading>)
    ensures
        forall|k: int| 0 <= k < devices_of(keys, rs).len() ==> exists|j: int|
            0 <= j < keys.len() && keys[j] == (#[trigger] devices_of(keys, rs)[k]).address && group_device(
                rs,
                keys[j],
            ) == Some(devices_of(keys, rs)[k]),
        keys.no_duplicates() ==> forall|k: int, m: int|
            0 <= k < m < devices_of(keys, rs).len() ==> (#[trigger] devices_of(keys, rs)[k]).address
                != (#[trigger] devices_of(keys, rs)[m]).address,
    decreases keys.len(),
{
    if keys.len() > 0 {
        let pk = keys.drop_last();
        lemma_devices_of(pk, rs);
        let prev = devices_of(pk, rs);
        let out = devices_of(keys, rs);
        assert forall|k: int| 0 <= k < out.len() implies exists|j: int|
            0 <= j < keys.len() && keys[j] == (#[trigger] out[k]).address && group_device(rs, keys[j]) == Some(
                out[k],
            ) by {
            if k < prev.len() {
                let j = choose|j: int|
                    0 <= j < pk.len() && pk[j] == (#[trigger] prev[k]).address && group_device(rs, pk[j]) == Some(
                        prev[k],
                    );
                assert(keys[j] == pk[j]);
            } else {
                assert(keys[keys.len() - 1] == out[k].address);
            }
        }
        if keys.no_duplicates() {
            assert(pk.no_duplicates()) by {
                assert forall|x: int, y: int| 0 <= x < pk.len() && 0 <= y < pk.len() && x != y implies pk[x]
                    != pk[y] by {
                    assert(pk[x] == keys[x] && pk[y] == keys[y]);
                }
            }
            assert forall|k: int, m: int| 0 <= k < m < out.len() implies (#[trigger] out[k]).address
                != (#[trigger] out[m]).address by {
                if m >= prev.len() {
                    let j = choose|j: int|
                        0 <= j < pk.len() && pk[j] == (#[trigger] prev[k]).address && group_device(rs, pk[j])
                            == Some(prev[k]);
                    assert(keys[j] == pk[j]);
                    assert(out[m].address == keys[keys.len() - 1]);
                } else {
                    assert(out[k] == prev[k] && out[m] == prev[m]);
                }
            }
        }
    }
}

/// What the device list promises: every level is at most 100, every address
/// is twelve upper-case hexadecimal digits and passes the connected-address filter, no address
/// appears twice, and the list is ordered by lower-cased name.
pub proof fn lemma_device_list(nodes: Seq<DeviceNode>, connected: Option<Seq<String>>, out: Seq<DeviceView>)
    requires
        is_stable_sort(out, spec_devices(nodes, connected), None),
    ensures
        forall|k: int| 0 <= k < out.len() ==> (#[trigger] out[k]).level <= 100,
        forall|k: int| 0 <= k < out.len() ==> upper_hex_address((#[trigger] out[k]).address),
        forall|k: int| 0 <= k < out.len() ==> passes_filter(connected, (#[trigger] out[k]).address),
        forall|k: int, m: int| 0 <= k < m < out.len() ==> (#[trigger] out[k]).address != (#[trigger] out[m]).address,
        forall|k: int, m: int|
            0 <= k < m < out.len() ==> !text::seq_lt(
                text::unicode_lowercase((#[trigger] out[m]).name),
                text::unicode_lowercase((#[trigger] out[k]).name),
            ),
{
    let rs = readings(nodes, connected);
    let keys = group_keys(rs);
    let input = spec_devices(nodes, connected);
    lemma_readings_facts(nodes, connected);
    lemma_keys_from_readings(rs);
    lemma_keys_distinct(rs);
    lemma_devices_of(keys, rs);
    let perm = choose|perm: Seq<int>|
        stable_order(input, None, perm) && out == perm.map_values(|j: int| input[j]);
    assert forall|x: int| 0 <= x < input.len() implies {
        &&& (#[trigger] input[x]).level <= 100
        &&& upper_hex_address(input[x].address)
        &&& passes_filter(connected, input[x].address)
    } by {
        let j = choose|j: int|
            0 <= j < keys.len() && keys[j] == (#[trigger] input[x]).address && group_device(rs, keys[j]) == Some(
                input[x],
            );
        let i = choose|i: int| 0 <= i < rs.len() && (#[trigger] rs[i]).address == keys[j];
        assert(rs[i].address == keys[j]);
        lemma_group_level_bound(rs, keys[j]);
    }
    assert forall|k: int| 0 <= k < out.len() implies (#[trigger] out[k]).level <= 100 && upper_hex_address(
        out[k].address,
    ) && passes_filter(connected, out[k].address) by {
        assert(out[k] == input[perm[k]]);
    }
    assert forall|k: int, m: int| 0 <= k < m < out.len() implies (#[trigger] out[k]).address
        != (#[trigger] out[m]).address by {
        assert(out[k] == input[perm[k]] && out[m] == input[perm[m]]);
        assert(perm[k] != perm[m]);
        if perm[k] < perm[m] {
        } else {
        }
    }
    assert forall|k: int, m: int| 0 <= k < m < out.len() implies !text::seq_lt(
        text::unicode_lowercase((#[trigger] out[m]).name),
        text::unicode_lowercase((#[trigger] out[k]).name),
    ) by {
        assert(out[k] == input[perm[k]] && out[m] == input[perm[m]]);
        assert(sorts_before(input, None, perm[k], perm[m]));
        text::lemma_seq_lt_total(
            text::unicode_lowercase(out[k].name),
            text::unicode_lowercase(out[m].name),
        );
        text::lemma_seq_lt_irreflexive(text::unicode_lowercase(out[k].name));
    }
}


/// A sorted list holds every entry of its input.
proof fn lemma_sorted_contains(out: Seq<DeviceView>, input: Seq<DeviceView>, target: Option<Seq<char>>, x: int)
    requires
        is_stable_sort(out, input, target),
        0 <= x < input.len(),
    ensures
        exists|m: int| 0 <= m < out.len() && out[m] == input[x],
{
    let perm = choose|perm: Seq<int>|
        stable_order(input, target, perm) && out == perm.map_values(|j: int| input[j]);
    let n = input.len() as int;
    assert(perm.no_duplicates()) by {
        assert forall|i: int, j: int| 0 <= i < perm.len() && 0 <= j < perm.len() && i != j implies perm[i]
            != perm[j] by {
            if i < j {
                assert(perm[i] != perm[j]);
            } else {
                assert(perm[j] != perm[i]);
            }
        }
    }
    perm.unique_seq_to_set();
    vstd::seq_lib::seq_to_set_is_finite(perm);
    vstd::set_lib::lemma_int_range(0, n);
    let range = vstd::set_lib::set_int_range(0, n);
    assert(perm.to_set().subset_of(range)) by {
        assert forall|v: int| perm.to_set().contains(v) implies range.contains(v) by {
            let k = choose|k: int| 0 <= k < perm.len() && perm[k] == v;
            assert(0 <= perm[k] < n);
        }
    }
    vstd::set_lib::lemma_subset_equality(perm.to_set(), range);
    assert(range.contains(x));
    assert(perm.to_set().contains(x));
    let k = choose|k: int| 0 <= k < perm.len() && perm[k] == x;
    assert(out[k] == input[x]);
}

/// A node that counts yields one of the readings.
proof fn lemma_reading_listed(nodes: Seq<DeviceNode>, connected: Option<Seq<String>>, k: int)
    requires
        0 <= k < nodes.len(),
        node_reading(nodes[k], connected) is Some,
    ensures
        exists|j: int|
            0 <= j < readings(nodes, connected).len() && readings(nodes, connected)[j] == node_reading(
                nodes[k],
                connected,
            )->0,
    decreases nodes.len(),
{
    let prev = readings(nodes.drop_last(), connected);
    if k == nodes.len() - 1 {
        assert(readings(nodes, connected)[prev.len() as int] == node_reading(nodes[k], connected)->0);
    } else {
        assert(nodes.drop_last()[k] == nodes[k]);
        lemma_reading_listed(nodes.drop_last(), connected, k);
        let j = choose|j: int| 0 <= j < prev.len() && prev[j] == node_reading(nodes[k], connected)->0;
        assert(readings(nodes, connected)[j] == prev[j]);
    }
}

/// The address of every reading is one of the group keys.
proof fn lemma_reading_keyed(rs: Seq<Reading>, j: int)
    requires
        0 <= j < rs.len(),
    ensures
        group_keys(rs).contains(rs[j].address),
    decreases rs.len(),
{
    let prev = group_keys(rs.drop_last());
    if j < rs.len() - 1 {
        assert(rs.drop_last()[j] == rs[j]);
        lemma_reading_keyed(rs.drop_last(), j);
        let i = choose|i: int| 0 <= i < prev.len() && prev[i] == rs[j].address;
        assert(group_keys(rs)[i] == prev[i]);
    } else if !prev.contains(rs.last().address) {
        assert(group_keys(rs)[prev.len() as int] == rs.last().address);
    }
}

/// A reading with a level bounds the group's level from below.
proof fn lemma_group_level_at_least(rs: Seq<Reading>, a: Seq<char>, j: int)
    requires
        0 <= j < rs.len(),
        rs[j].address == a,
        rs[j].level is Some,
    ensures
        group_level(rs, a) is Some,
        group_level(rs, a)->0 >= rs[j].level->0,
    decreases rs.len(),
{
    if j < rs.len() - 1 {
        assert(rs.drop_last()[j] == rs[j]);
        lemma_group_level_at_least(rs.drop_last(), a, j);
    }
}

/// Every key with a device entry has it in the device list.
proof fn lemma_device_of_key(keys: Seq<Seq<char>>, rs: Seq<Reading>, i: int)
    requires
        0 <= i < keys.len(),
        group_device(rs, keys[i]) is Some,
    ensures
        exists|m: int|
            0 <= m < devices_of(keys, rs).len() && devices_of(keys, rs)[m] == group_device(rs, keys[i])->0,
    decreases keys.len(),
{
    let prev = devices_of(keys.drop_last(), rs);
    if i == keys.len() - 1 {
        assert(devices_of(keys, rs)[prev.len() as int] == group_device(rs, keys[i])->0);
    } else {
        assert(keys.drop_last()[i] == keys[i]);
        lemma_device_of_key(keys.drop_last(), rs, i);
        let m = choose|m: int| 0 <= m < prev.len() && prev[m] == group_device(rs, keys[i])->0;
        assert(devices_of(keys, rs)[m] == prev[m]);
    }
}

/// Every node that counts and reports a level is listed: the sorted device
/// list has an entry for its address whose level is at least the node's.
/// Without a connected set (when the connection state is unknown) every
/// started node with an address and a level counts.
pub proof fn lemma_every_device_listed(
    nodes: Seq<DeviceNode>,
    connected: Option<Seq<String>>,
    out: Seq<DeviceView>,
    k: int,
)
    requires
        is_stable_sort(out, spec_devices(nodes, connected), None),
        0 <= k < nodes.len(),
        node_reading(nodes[k], connected) matches Some(r) && r.level is Some,
    ensures
        exists|m: int|
            0 <= m < out.len() && out[m].address == node_reading(nodes[k], connected)->0.address
                && out[m].level >= node_reading(nodes[k], connected)->0.level->0,
{
    let r = node_reading(nodes[k], connected)->0;
    let rs = readings(nodes, connected);
    let keys = group_keys(rs);
    let input = spec_devices(nodes, connected);
    lemma_reading_listed(nodes, connected, k);
    let j = choose|j: int| 0 <= j < rs.len() && rs[j] == r;
    lemma_reading_keyed(rs, j);
    let i = choose|i: int| 0 <= i < keys.len() && keys[i] == r.address;
    lemma_group_level_at_least(rs, r.address, j);
    lemma_device_of_key(keys, rs, i);
    let x = choose|x: int| 0 <= x < input.len() && input[x] == group_device(rs, keys[i])->0;
    lemma_sorted_contains(out, input, None, x);
    let m = choose|m: int| 0 <= m < out.len() && out[m] == input[x];
    assert(out[m].address == r.address && out[m].level >= r.level->0);
}


/// The entries of `ds` whose address passes the connected-address filter, in order.
pub open spec fn filter_devices(ds: Seq<DeviceView>, connected: Option<Seq<String>>) -> Seq<DeviceView>
    decreases ds.len(),
{
    if ds.len() == 0 {
        seq![]
    } else {
        let prev = filter_devices(ds.drop_last(), connected);
        if passes_filter(connected, ds.last().address) {
            prev.push(ds.last())
        } else {
            prev
        }
    }
}

spec fn filter_readings(rs: Seq<Reading>, connected: Option<Seq<String>>) -> Seq<Reading>
    decreases rs.len(),
{
    if rs.len() == 0 {
        seq![]
    } else {
        let prev = filter_readings(rs.drop_last(), connected);
        if passes_filter(connected, rs.last().address) {
            prev.push(rs.last())
        } else {
            prev
        }
    }
}

spec fn filter_keys(keys: Seq<Seq<char>>, connected: Option<Seq<String>>) -> Seq<Seq<char>>
    decreases keys.len(),
{
    if keys.len() == 0 {
        seq![]
    } else {
        let prev = filter_keys(keys.drop_last(), connected);
        if passes_filter(connected, keys.last()) {
            prev.push(keys.last())
        } else {
            prev
        }
    }
}

proof fn lemma_readings_filtered(nodes: Seq<DeviceNode>, connected: Option<Seq<String>>)
    ensures
        readings(nodes, connected) == filter_readings(readings(nodes, None), connected),
    decreases nodes.len(),
{
    if nodes.len() > 0 {
        lemma_readings_filtered(nodes.drop_last(), connected);
        let all_prev = readings(nodes.drop_last(), None);
        let n = nodes.last();
        match node_reading(n, None) {
            Some(r) => {
                let all = all_prev.push(r);
                assert(readings(nodes, None) == all);
                assert(all.drop_last() == all_prev);
                assert(all.last() == r);
                if passes_filter(connected, r.address) {
                    assert(node_reading(n, connected) == Some(r));
                } else {
                    assert(node_reading(n, connected) is None);
                }
            },
            None => {
                assert(node_reading(n, connected) is None);
            },
        }
    }
}

proof fn lemma_group_filtered(rs: Seq<Reading>, connected: Option<Seq<String>>, a: Seq<char>)
    requires
        passes_filter(connected, a),
    ensures
        group_level(filter_readings(rs, connected), a) == group_level(rs, a),
        base_name(filter_readings(rs, connected), a) == base_name(rs, a),
        charge_name(filter_readings(rs, connected), a) == charge_name(rs, a),
        group_device(filter_readings(rs, connected), a) == group_device(rs, a),
    decreases rs.len(),
{
    if rs.len() > 0 {
        lemma_group_filtered(rs.drop_last(), connected, a);
        let f = filter_readings(rs, connected);
        if passes_filter(connected, rs.last().address) {
            assert(f.drop_last() == filter_readings(rs.drop_last(), connected));
            assert(f.last() == rs.last());
        } else {
            assert(rs.last().address != a);
        }
    }
}

proof fn lemma_filter_keys_contains(keys: Seq<Seq<char>>, connected: Option<Seq<String>>, x: Seq<char>)
    ensures
        filter_keys(keys, connected).contains(x) <==> keys.contains(x) && passes_filter(connected, x),
    decreases keys.len(),
{
    if keys.len() > 0 {
        let prev = keys.drop_last();
        lemma_filter_keys_contains(prev, connected, x);
        let fp = filter_keys(prev, connected);
        let f = filter_keys(keys, connected);
        if keys.contains(x) && passes_filter(connected, x) {
            let i = choose|i: int| 0 <= i < keys.len() && keys[i] == x;
            if i < keys.len() - 1 {
                assert(prev[i] == x);
                let j = choose|j: int| 0 <= j < fp.len() && fp[j] == x;
                assert(f[j] == x);
            } else {
                assert(f[f.len() - 1] == x);
            }
        }
        if f.contains(x) {
            let j = choose|j: int| 0 <= j < f.len() && f[j] == x;
            if j < fp.len() {
                assert(f[j] == fp[j]);
                assert(fp.contains(x));
                let i = choose|i: int| 0 <= i < prev.len() && prev[i] == x;
                assert(keys[i] == x);
            } else {
                assert(keys[keys.len() - 1] == x);
            }
        }
    }
}

proof fn lemma_keys_filtered(rs: Seq<Reading>, connected: Option<Seq<String>>)
    ensures
        group_keys(filter_readings(rs, connected)) == filter_keys(group_keys(rs), connected),
    decreases rs.len(),
{
    if rs.len() > 0 {
        let prev = rs.drop_last();
        lemma_keys_filtered(prev, connected);
        let r = rs.last();
        let k = group_keys(prev);
        lemma_filter_keys_contains(k, connected, r.address);
        let f = filter_readings(rs, connected);
        if passes_filter(connected, r.address) {
            assert(f.drop_last() == filter_readings(prev, connected));
            assert(f.last() == r);
            if !k.contains(r.address) {
                assert(k.push(r.address).drop_last() == k);
            }
        } else {
            if !k.contains(r.address) {
                assert(k.push(r.address).drop_last() == k);
            }
        }
    }
}

proof fn lemma_devices_filtered(keys: Seq<Seq<char>>, rs: Seq<Reading>, connected: Option<Seq<String>>)
    ensures
        devices_of(filter_keys(keys, connected), filter_readings(rs, connected)) == filter_devices(
            devices_of(keys, rs),
            connected,
        ),
    decreases keys.len(),
{
    if keys.len() > 0 {
        let pk = keys.drop_last();
        let k = keys.last();
        lemma_devices_filtered(pk, rs, connected);
        let fr = filter_readings(rs, connected);
        let prev = devices_of(pk, rs);
        if passes_filter(connected, k) {
            lemma_group_filtered(rs, connected, k);
            let fk = filter_keys(keys, connected);
            assert(fk.drop_last() == filter_keys(pk, connected));
            assert(fk.last() == k);
            if let Some(d) = group_device(rs, k) {
                assert(d.address == k);
                assert(prev.push(d).drop_last() == prev);
            }
        } else {
            if let Some(d) = group_device(rs, k) {
                assert(d.address == k);
                assert(prev.push(d).drop_last() == prev);
            }
        }
    }
}

proof fn lemma_filter_devices_contains(ds: Seq<DeviceView>, connected: Option<Seq<String>>, x: DeviceView)
    ensures
        filter_devices(ds, connected).contains(x) <==> ds.contains(x) && passes_filter(connected, x.address),
    decreases ds.len(),
{
    if ds.len() > 0 {
        let prev = ds.drop_last();
        lemma_filter_devices_contains(prev, connected, x);
        let fp = filter_devices(prev, connected);
        let f = filter_devices(ds, connected);
        if ds.contains(x) && passes_filter(connected, x.address) {
            let i = choose|i: int| 0 <= i < ds.len() && ds[i] == x;
            if i < ds.len() - 1 {
                assert(prev[i] == x);
                let j = choose|j: int| 0 <= j < fp.len() && fp[j] == x;
                assert(f[j] == x);
            } else {
                assert(f[f.len() - 1] == x);
            }
        }
        if f.contains(x) {
            let j = choose|j: int| 0 <= j < f.len() && f[j] == x;
            if j < fp.len() {
                assert(f[j] == fp[j]);
                assert(fp.contains(x));
                let i = choose|i: int| 0 <= i < prev.len() && prev[i] == x;
                assert(ds[i] == x);
            } else {
                assert(ds[ds.len() - 1] == x);
            }
        }
    }
}

/// Filtering by the connected set only drops entries: the device list for a
/// connected set is the unfiltered list (as the nodes report it, before
/// sorting) without the entries whose address the set does not hold.
pub proof fn lemma_filter_restricts(nodes: Seq<DeviceNode>, connected: Option<Seq<String>>)
    ensures
        spec_devices(nodes, connected) == filter_devices(spec_devices(nodes, None), connected),
{
    let all = readings(nodes, None);
    lemma_readings_filtered(nodes, connected);
    lemma_keys_filtered(all, connected);
    lemma_devices_filtered(group_keys(all), all, connected);
}

/// A sorted list holds exactly the entries of its input.
proof fn lemma_sorted_same_entries(out: Seq<DeviceView>, input: Seq<DeviceView>, x: DeviceView)
    requires
        is_stable_sort(out, input, None),
    ensures
        out.contains(x) <==> input.contains(x),
{
    if input.contains(x) {
        let i = choose|i: int| 0 <= i < input.len() && input[i] == x;
        lemma_sorted_contains(out, input, None, i);
    }
    if out.contains(x) {
        let perm = choose|perm: Seq<int>|
            stable_order(input, None, perm) && out == perm.map_values(|j: int| input[j]);
        let m = choose|m: int| 0 <= m < out.len() && out[m] == x;
        assert(input[perm[m]] == x);
    }
}

/// The sorted device lists with and without a connected set hold the same
/// entries (address, name, level) for the addresses the set holds: the
/// filtered list is the unfiltered one restricted to the set.
pub proof fn lemma_filtered_list(
    nodes: Seq<DeviceNode>,
    connected: Option<Seq<String>>,
    all: Seq<DeviceView>,
    filtered: Seq<DeviceView>,
)
    requires
        is_stable_sort(all, spec_devices(nodes, None), None),
        is_stable_sort(filtered, spec_devices(nodes, connected), None),
    ensures
        forall|d: DeviceView| filtered.contains(d) <==> all.contains(d) && passes_filter(connected, d.address),
{
    lemma_filter_restricts(nodes, connected);
    assert forall|d: DeviceView| filtered.contains(d) <==> all.contains(d) && passes_filter(connected, d.address) by {
        lemma_sorted_same_entries(filtered, spec_devices(nodes, connected), d);
        lemma_sorted_same_entries(all, spec_devices(nodes, None), d);
        lemma_filter_devices_contains(spec_devices(nodes, None), connected, d);
    }
}

} // verus!
