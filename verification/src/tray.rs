//! Decisions of the tray application: the level the icon shows, the tooltip,
//! what a refresh remembers and whether it warns about a low battery, the
//! fixed-size UTF-16 buffers of the shell, and the command-line modes.
use vstd::prelude::*;
use vstd::string::StringExecFns;

use crate::battery;
use crate::battery::DeviceBattery;
use crate::battery::DeviceView;
use crate::menu;
use crate::menu::Language;
use crate::text;

verus! {

/// Levels below this warn.
pub const LOW_BATTERY: u8 = 20;

/// Longest tooltip in UTF-16 units before it is cut.
pub const TOOLTIP_UNITS: usize = 127;

// ---------- shell buffers ----------

/// A fixed-size UTF-16 buffer of `n` units: the text's units, cut after `n`
/// units, the rest zero.
pub open spec fn spec_wide(s: Seq<char>, n: int) -> Seq<u16> {
    Seq::new(
        n as nat,
        |i: int|
            if i < text::utf16_of(s).len() {
                text::utf16_of(s)[i]
            } else {
                0u16
            },
    )
}

/// `s` as a zero-filled UTF-16 buffer of `n` units (for `szTip`, `szInfo`, ...).
pub fn to_wide(s: &str, n: usize) -> (r: Vec<u16>)
    ensures
        r@ == spec_wide(s@, n as int),
{
    let units = menu::to_utf16(s);
    let mut buf: Vec<u16> = Vec::new();
    let mut i: usize = 0;
    while i < n
        invariant
            units@ == text::utf16_of(s@),
            i <= n,
            buf@.len() == i,
            forall|k: int| 0 <= k < i ==> #[trigger] buf@[k] == spec_wide(s@, n as int)[k],
        decreases n - i,
    {
        if i < units.len() {
            buf.push(units[i]);
        } else {
            buf.push(0);
        }
        i = i + 1;
    }
    proof {
        assert(buf@ =~= spec_wide(s@, n as int));
    }
    buf
}

// ---------- icon level ----------

/// Lowest level of a list.
pub open spec fn min_level(ds: Seq<DeviceView>) -> Option<u8>
    decreases ds.len(),
{
    if ds.len() == 0 {
        None
    } else {
        match min_level(ds.drop_last()) {
            None => Some(ds.last().level),
            Some(m) => Some(
                if ds.last().level < m {
                    ds.last().level
                } else {
                    m
                },
            ),
        }
    }
}

/// `min_level` is the lowest level of a non-empty list.
pub proof fn lemma_min_level_is_lowest(ds: Seq<DeviceView>)
    ensures
        ds.len() == 0 <==> min_level(ds) is None,
        min_level(ds) matches Some(m) ==> (forall|k: int| 0 <= k < ds.len() ==> m <= (#[trigger] ds[k]).level)
            && exists|k: int| 0 <= k < ds.len() && (#[trigger] ds[k]).level == m,
    decreases ds.len(),
{
    if ds.len() > 0 {
        let prev = ds.drop_last();
        lemma_min_level_is_lowest(prev);
        let m = min_level(ds)->0;
        assert forall|k: int| 0 <= k < ds.len() implies m <= (#[trigger] ds[k]).level by {
            if k < ds.len() - 1 {
                assert(prev[k] == ds[k]);
            }
        }
        if m == ds.last().level {
            assert(ds[ds.len() - 1].level == m);
        } else {
            let k = choose|k: int| 0 <= k < prev.len() && (#[trigger] prev[k]).level == m;
            assert(ds[k] == prev[k]);
        }
    }
}

/// The level the icon shows: that of the target when it is connected,
/// otherwise the lowest level; none without devices.
pub open spec fn spec_shown(ds: Seq<DeviceView>, target: Seq<char>) -> Option<u8> {
    if target.len() > 0 && menu::first_target_match(ds, target, 0) is Some {
        Some(ds[menu::first_target_match(ds, target, 0)->0].level)
    } else {
        min_level(ds)
    }
}

proof fn lemma_first_target_match_found(ds: Seq<DeviceView>, target: Seq<char>, i: int)
    requires
        0 <= i,
    ensures
        match menu::first_target_match(ds, target, i) {
            Some(j) => i <= j < ds.len() && text::eq_ignore_case(ds[j].address, target) && forall|k: int|
                i <= k < j ==> !text::eq_ignore_case(#[trigger] ds[k].address, target),
            None => forall|k: int| i <= k < ds.len() ==> !text::eq_ignore_case(#[trigger] ds[k].address, target),
        },
    decreases ds.len() - i,
{
    if i < ds.len() {
        lemma_first_target_match_found(ds, target, i + 1);
    }
}

/// The level the icon shows: with no target, or a target that is not
/// connected, the lowest level of the list (a level some device has, and no
/// device has less), nothing only for an empty list; with a connected target,
/// the level of the first device whose address is the target (ASCII case
/// ignored).
pub proof fn lemma_shown_level(ds: Seq<DeviceView>, target: Seq<char>)
    ensures
        ds.len() == 0 ==> spec_shown(ds, target) is None,
        !(target.len() > 0 && exists|k: int| 0 <= k < ds.len() && text::eq_ignore_case((#[trigger] ds[k]).address, target))
            && ds.len() > 0 ==> (spec_shown(ds, target) matches Some(m) && (exists|k: int|
            0 <= k < ds.len() && (#[trigger] ds[k]).level == m) && forall|k: int|
            0 <= k < ds.len() ==> m <= (#[trigger] ds[k]).level),
        target.len() > 0 && (exists|k: int| 0 <= k < ds.len() && text::eq_ignore_case((#[trigger] ds[k]).address, target))
            ==> exists|j: int|
            0 <= j < ds.len() && text::eq_ignore_case((#[trigger] ds[j]).address, target) && spec_shown(ds, target)
                == Some(ds[j].level) && forall|k: int| 0 <= k < j ==> !text::eq_ignore_case(#[trigger] ds[k].address, target),
{
    lemma_min_level_is_lowest(ds);
    lemma_first_target_match_found(ds, target, 0);
    if let Some(j) = menu::first_target_match(ds, target, 0) {
        assert(text::eq_ignore_case(ds[j].address, target));
    }
}

/// The level the tray icon shows (`None`: grey icon).
pub fn compute_shown(devices: &Vec<DeviceBattery>, target: &str) -> (r: Option<u8>)
    ensures
        r == spec_shown(battery::views(devices@), target@),
        devices@.len() == 0 ==> r is None,
        !(target@.len() > 0 && exists|k: int|
            0 <= k < devices@.len() && text::eq_ignore_case((#[trigger] devices@[k]).address@, target@))
            && devices@.len() > 0 ==> (r matches Some(m) && (exists|k: int|
            0 <= k < devices@.len() && (#[trigger] devices@[k]).level == m) && forall|k: int|
            0 <= k < devices@.len() ==> m <= (#[trigger] devices@[k]).level),
        target@.len() > 0 && (exists|k: int|
            0 <= k < devices@.len() && text::eq_ignore_case((#[trigger] devices@[k]).address@, target@)) ==> exists|
            j: int,
        |
            0 <= j < devices@.len() && text::eq_ignore_case((#[trigger] devices@[j]).address@, target@) && r == Some(
                devices@[j].level,
            ) && forall|k: int| 0 <= k < j ==> !text::eq_ignore_case(#[trigger] devices@[k].address@, target@),
{
    let r = shown_level(devices, target);
    proof {
        let dv = battery::views(devices@);
        lemma_shown_level(dv, target@);
        assert forall|k: int| 0 <= k < devices@.len() implies #[trigger] devices@[k]@ == dv[k] by {}
        if target@.len() > 0 && exists|k: int|
            0 <= k < devices@.len() && text::eq_ignore_case((#[trigger] devices@[k]).address@, target@) {
            let k = choose|k: int|
                0 <= k < devices@.len() && text::eq_ignore_case((#[trigger] devices@[k]).address@, target@);
            assert(dv[k] == devices@[k]@);
            let j = choose|j: int|
                0 <= j < dv.len() && text::eq_ignore_case((#[trigger] dv[j]).address, target@) && spec_shown(dv, target@)
                    == Some(dv[j].level) && forall|k: int| 0 <= k < j ==> !text::eq_ignore_case(#[trigger] dv[k].address, target@);
            assert(dv[j] == devices@[j]@);
            assert forall|k: int| 0 <= k < j implies !text::eq_ignore_case(#[trigger] devices@[k].address@, target@) by {
                assert(dv[k] == devices@[k]@);
                assert(!text::eq_ignore_case(dv[k].address, target@));
            }
        } else if devices@.len() > 0 {
            assert forall|k: int| 0 <= k < dv.len() implies !text::eq_ignore_case((#[trigger] dv[k]).address, target@)
                || target@.len() == 0 by {
                assert(dv[k] == devices@[k]@);
            }
            let m = r->0;
            let k = choose|k: int| 0 <= k < dv.len() && (#[trigger] dv[k]).level == m;
            assert(dv[k] == devices@[k]@);
            assert forall|k: int| 0 <= k < devices@.len() implies m <= (#[trigger] devices@[k]).level by {
                assert(dv[k] == devices@[k]@);
            }
        }
    }
    r
}

fn shown_level(devices: &Vec<DeviceBattery>, target: &str) -> (r: Option<u8>)
    ensures
        r == spec_shown(battery::views(devices@), target@),
{
    let ghost dv = battery::views(devices@);
    if !target.is_empty() {
        if let Some(i) = menu::find_target(devices, target) {
            proof {
                assert(dv[i as int] == devices@[i as int]@);
            }
            return Some(devices[i].level);
        }
    }
    let mut best: Option<u8> = None;
    let mut i: usize = 0;
    while i < devices.len()
        invariant
            dv == battery::views(devices@),
            i <= devices.len(),
            best == min_level(dv.take(i as int)),
        decreases devices.len() - i,
    {
        proof {
            assert(dv.take(i + 1).drop_last() == dv.take(i as int));
            assert(dv.take(i + 1).last() == devices@[i as int]@);
        }
        let l = devices[i].level;
        best = match best {
            None => Some(l),
            Some(m) => Some(
                if l < m {
                    l
                } else {
                    m
                },
            ),
        };
        i = i + 1;
    }
    proof {
        assert(dv.take(dv.len() as int) == dv);
    }
    best
}

// ---------- tooltip ----------

/// `"{name}: {level}%"` with the name as shown in `language`.
pub open spec fn tooltip_line(d: DeviceView, language: Language) -> Seq<char> {
    menu::spec_device_name(language, d.name) + ": "@ + text::decimal(d.level as nat) + "%"@
}

/// The lines of `ds` joined by `'\n'`.
pub open spec fn tooltip_lines(ds: Seq<DeviceView>, language: Language) -> Seq<char>
    decreases ds.len(),
{
    if ds.len() == 0 {
        Seq::empty()
    } else if ds.len() == 1 {
        tooltip_line(ds[0], language)
    } else {
        tooltip_lines(ds.drop_last(), language) + seq!['\n'] + tooltip_line(ds.last(), language)
    }
}

/// UTF-16 length of a text.
pub open spec fn units(s: Seq<char>) -> int {
    text::utf16_of(s).len() as int
}

/// End of the longest prefix of `t`, found from `j` on, that fits in `limit` units.
pub open spec fn fit_end(t: Seq<char>, limit: int, j: int) -> int
    decreases t.len() - j,
{
    if j < 0 || j >= t.len() {
        t.len() as int
    } else if units(t.take(j + 1)) > limit {
        j
    } else {
        fit_end(t, limit, j + 1)
    }
}

/// A text for the 128-unit `szTip` (127 units and the terminator): unchanged
/// up to 127 units, else its longest prefix of at most 126 units followed by `'…'`.
pub open spec fn fit_tooltip(t: Seq<char>) -> Seq<char> {
    if units(t) > 127 {
        t.take(fit_end(t, 126, 0)) + seq!['…']
    } else {
        t
    }
}

proof fn lemma_units_push(s: Seq<char>, c: char)
    ensures
        units(s.push(c)) == units(s) + text::utf16_width(c),
{
    text::lemma_utf16_push(s, c);
}

proof fn lemma_fit_end_found(t: Seq<char>, limit: int, i: int, j: int)
    requires
        0 <= i <= j < t.len(),
        forall|k: int| i <= k < j ==> units(#[trigger] t.take(k + 1)) <= limit,
        units(t.take(j + 1)) > limit,
    ensures
        fit_end(t, limit, i) == j,
    decreases j - i,
{
    if i < j {
        lemma_fit_end_found(t, limit, i + 1, j);
    }
}

proof fn lemma_fit_end_none(t: Seq<char>, limit: int, i: int)
    requires
        0 <= i <= t.len(),
        forall|k: int| i <= k < t.len() ==> units(#[trigger] t.take(k + 1)) <= limit,
    ensures
        fit_end(t, limit, i) == t.len(),
    decreases t.len() - i,
{
    if i < t.len() {
        lemma_fit_end_none(t, limit, i + 1);
    }
}

proof fn lemma_units_take_monotone(t: Seq<char>, i: int, j: int)
    requires
        0 <= i <= j <= t.len(),
    ensures
        units(t.take(i)) <= units(t.take(j)),
    decreases j - i,
{
    if i < j {
        lemma_units_take_monotone(t, i, j - 1);
        assert(t.take(j) == t.take(j - 1).push(t[j - 1]));
        lemma_units_push(t.take(j - 1), t[j - 1]);
    }
}

/// Whether a text has more than 127 UTF-16 units.
fn too_long(t: &Vec<char>) -> (r: bool)
    ensures
        r == (units(t@) > 127),
{
    let mut total: usize = 0;
    let mut i: usize = 0;
    while i < t.len()
        invariant
            i <= t.len(),
            total as int == units(t@.take(i as int)),
            total <= 127,
        decreases t.len() - i,
    {
        proof {
            assert(t@.take(i + 1) == t@.take(i as int).push(t@[i as int]));
            lemma_units_push(t@.take(i as int), t@[i as int]);
        }
        total = total + text::char_utf16_width(t[i]);
        if total > 127 {
            proof {
                lemma_units_take_monotone(t@, i + 1, t@.len() as int);
                assert(t@.take(t@.len() as int) == t@);
            }
            return true;
        }
        i = i + 1;
    }
    proof {
        assert(t@.take(t@.len() as int) == t@);
    }
    false
}

/// Cuts a tooltip text to 127 UTF-16 units (see `fit_tooltip`).
fn fit_text(t: &Vec<char>) -> (r: Vec<char>)
    ensures
        r@ == fit_tooltip(t@),
{
    if !too_long(t) {
        return text::clone_chars(t);
    }
    let mut acc: Vec<char> = Vec::new();
    let mut used: usize = 0;
    let mut j: usize = 0;
    while j < t.len()
        invariant
            units(t@) > 127,
            j <= t.len(),
            acc@ == t@.take(j as int),
            used as int == units(acc@),
            used <= 126,
            forall|k: int| 0 <= k < j ==> units(#[trigger] t@.take(k + 1)) <= 126,
        decreases t.len() - j,
    {
        let c = t[j];
        proof {
            assert(t@.take(j + 1) == t@.take(j as int).push(c));
            lemma_units_push(t@.take(j as int), c);
        }
        let w = text::char_utf16_width(c);
        if used + w > 126 {
            proof {
                lemma_fit_end_found(t@, 126, 0, j as int);
            }
            acc.push('…');
            proof {
                assert(acc@ =~= t@.take(j as int) + seq!['…']);
            }
            return acc;
        }
        acc.push(c);
        used = used + w;
        j = j + 1;
    }
    proof {
        lemma_fit_end_none(t@, 126, 0);
    }
    acc.push('…');
    proof {
        assert(acc@ =~= t@.take(t@.len() as int) + seq!['…']);
    }
    acc
}

/// The tooltip text of a (sorted) list of devices.
pub open spec fn tooltip_text(sorted: Seq<DeviceView>, language: Language) -> Seq<char> {
    if sorted.len() == 0 {
        menu::spec_tooltip_empty(language)
    } else {
        fit_tooltip(tooltip_lines(sorted, language))
    }
}

fn tooltip_line_chars(d: &DeviceBattery, language: Language) -> (r: Vec<char>)
    ensures
        r@ == tooltip_line(d@, language),
{
    let mut out = text::chars_of(menu::localized_device_name(language, d.name.as_str()));
    text::push_str(&mut out, ": ");
    text::push_chars(&mut out, &text::decimal_u8(d.level));
    text::push_str(&mut out, "%");
    out
}

/// The tray tooltip: without devices the "no devices" text of `language`;
/// otherwise a line `"{name}: {level}%"` per device, the target first and the
/// rest by lower-cased name (a stable sort), joined by `'\n'`; only a text
/// longer than 127 UTF-16 units is cut, on a character boundary, with `'…'`.
pub fn build_tooltip(devices: &Vec<DeviceBattery>, target: &str, language: Language) -> (r: String)
    ensures
        exists|sorted: Seq<DeviceView>|
            battery::is_stable_sort(sorted, battery::views(devices@), Some(target@)) && r@ == tooltip_text(
                sorted,
                language,
            ),
{
    let ordered = battery::stable_sort_devices(devices, Some(target));
    let ghost sorted = battery::views(ordered@);
    if devices.len() == 0 {
        proof {
            let perm = choose|perm: Seq<int>|
                battery::stable_order(battery::views(devices@), Some(target@), perm) && sorted == perm.map_values(
                    |j: int| battery::views(devices@)[j],
                );
            assert(sorted.len() == 0);
            assert(battery::is_stable_sort(sorted, battery::views(devices@), Some(target@)));
        }
        let r = String::from_str(menu::tooltip_empty(language));
        proof {
            assert(r@ == tooltip_text(sorted, language));
        }
        return r;
    }
    let mut lines: Vec<char> = Vec::new();
    let mut i: usize = 0;
    while i < ordered.len()
        invariant
            sorted == battery::views(ordered@),
            i <= ordered.len(),
            lines@ == tooltip_lines(sorted.take(i as int), language),
        decreases ordered.len() - i,
    {
        let line = tooltip_line_chars(&ordered[i], language);
        proof {
            assert(sorted[i as int] == ordered@[i as int]@);
            assert(sorted.take(i + 1).drop_last() == sorted.take(i as int));
            assert(sorted.take(i + 1).last() == sorted[i as int]);
        }
        if i > 0 {
            lines.push('\n');
        } else {
            proof {
                assert(sorted.take(1) == seq![sorted[0]]);
            }
        }
        text::push_chars(&mut lines, &line);
        i = i + 1;
    }
    proof {
        assert(sorted.take(sorted.len() as int) == sorted);
        let perm = choose|perm: Seq<int>|
            battery::stable_order(battery::views(devices@), Some(target@), perm) && sorted == perm.map_values(
                |j: int| battery::views(devices@)[j],
            );
        assert(sorted.len() == devices@.len());
    }
    let fitted = fit_text(&lines);
    let r = text::string_from_chars(&fitted);
    proof {
        assert(battery::is_stable_sort(sorted, battery::views(devices@), Some(target@)));
        assert(r@ == tooltip_text(sorted, language));
    }
    r
}

/// The tooltip always fits the shell's 128-unit buffer with its terminator:
/// at most 127 UTF-16 units.
pub proof fn lemma_tooltip_fits(t: Seq<char>)
    ensures
        units(fit_tooltip(t)) <= 127,
{
    if units(t) > 127 {
        let e = fit_end(t, 126, 0);
        assert(t.take(0) =~= Seq::<char>::empty());
        lemma_fit_end_bound(t, 126, 0);
        lemma_units_push(t.take(e), '…');
        assert(t.take(e).push('…') =~= t.take(e) + seq!['…']);
    }
}

proof fn lemma_fit_end_bound(t: Seq<char>, limit: int, j: int)
    requires
        0 <= j <= t.len(),
        units(t.take(j)) <= limit,
    ensures
        j <= fit_end(t, limit, j) <= t.len(),
        units(t.take(fit_end(t, limit, j))) <= limit,
    decreases t.len() - j,
{
    if j < t.len() && units(t.take(j + 1)) <= limit {
        lemma_fit_end_bound(t, limit, j + 1);
    }
}

} // verus!

verus! {

// ---------- refresh ----------

/// Level remembered for an address: the last entry for it.
pub open spec fn remembered(levels: Seq<(String, u8)>, address: Seq<char>) -> Option<u8>
    decreases levels.len(),
{
    if levels.len() == 0 {
        None
    } else if levels.last().0@ == address {
        Some(levels.last().1)
    } else {
        remembered(levels.drop_last(), address)
    }
}

/// A device warrants a warning: its level is below 20, it is the target (or
/// there is no target), and its level was not already below 20 last time.
pub open spec fn warns(d: DeviceView, target: Seq<char>, levels: Seq<(String, u8)>) -> bool {
    &&& d.level < LOW_BATTERY
    &&& (target.len() == 0 || text::eq_ignore_case(d.address, target))
    &&& !(remembered(levels, d.address) matches Some(p) && p < LOW_BATTERY)
}

/// The warning of a refresh: the last device of the list that warrants one.
pub open spec fn spec_alert(ds: Seq<DeviceView>, target: Seq<char>, levels: Seq<(String, u8)>) -> Option<(Seq<char>, u8)>
    decreases ds.len(),
{
    if ds.len() == 0 {
        None
    } else if warns(ds.last(), target, levels) {
        Some((ds.last().name, ds.last().level))
    } else {
        spec_alert(ds.drop_last(), target, levels)
    }
}

/// A warning names a device of the list whose level is below 20, that is
/// the target (any device when there is no target), and whose level was not
/// already below 20 at the previous refresh (the warning fires when the level
/// crosses below 20, once); and when some device warrants a warning, there is
/// one.
pub proof fn lemma_alert_is_low(ds: Seq<DeviceView>, target: Seq<char>, levels: Seq<(String, u8)>)
    ensures
        spec_alert(ds, target, levels) matches Some((n, l)) ==> l < LOW_BATTERY && exists|k: int|
            0 <= k < ds.len() && (#[trigger] ds[k]).name == n && ds[k].level == l && (target.len() == 0
                || text::eq_ignore_case(ds[k].address, target)) && !(remembered(levels, ds[k].address) matches Some(
                p,
            ) && p < LOW_BATTERY),
        (exists|k: int| 0 <= k < ds.len() && warns(#[trigger] ds[k], target, levels)) ==> spec_alert(
            ds,
            target,
            levels,
        ) is Some,
    decreases ds.len(),
{
    if ds.len() > 0 {
        let prev = ds.drop_last();
        lemma_alert_is_low(prev, target, levels);
        if !warns(ds.last(), target, levels) {
            if let Some((n, l)) = spec_alert(prev, target, levels) {
                let k = choose|k: int|
                    0 <= k < prev.len() && (#[trigger] prev[k]).name == n && prev[k].level == l && (target.len() == 0
                        || text::eq_ignore_case(prev[k].address, target)) && !(remembered(
                        levels,
                        prev[k].address,
                    ) matches Some(p) && p < LOW_BATTERY);
                assert(ds[k] == prev[k]);
            }
            if exists|k: int| 0 <= k < ds.len() && warns(#[trigger] ds[k], target, levels) {
                let k = choose|k: int| 0 <= k < ds.len() && warns(#[trigger] ds[k], target, levels);
                assert(k < ds.len() - 1);
                assert(prev[k] == ds[k]);
            }
        } else {
            assert(ds[ds.len() - 1] == ds.last());
        }
    }
}

/// The levels a refresh remembers: every device's address and level.
pub open spec fn levels_of(ds: Seq<DeviceView>) -> Seq<(Seq<char>, u8)> {
    ds.map_values(|d: DeviceView| (d.address, d.level))
}

pub open spec fn levels_view(levels: Seq<(String, u8)>) -> Seq<(Seq<char>, u8)> {
    levels.map_values(|e: (String, u8)| (e.0@, e.1))
}

/// What one refresh of the tray decides.
pub struct RefreshPlan {
    /// The level the icon shows.
    pub shown: Option<u8>,
    pub tooltip: String,
    /// Name to remember for the connected target.
    pub target_name: Option<String>,
    /// Name and level for the low-battery notification.
    pub alert: Option<(String, u8)>,
    /// Levels to remember for the next refresh.
    pub levels: Vec<(String, u8)>,
}

fn remembered_level(levels: &Vec<(String, u8)>, address: &str) -> (r: Option<u8>)
    ensures
        r == remembered(levels@, address@),
{
    let mut i = levels.len();
    proof {
        assert(levels@.take(levels@.len() as int) == levels@);
    }
    while i > 0
        invariant
            i <= levels.len(),
            remembered(levels@, address@) == remembered(levels@.take(i as int), address@),
        decreases i,
    {
        proof {
            assert(levels@.take(i as int).drop_last() == levels@.take(i - 1));
            assert(levels@.take(i as int).last() == levels@[i - 1]);
        }
        if text::str_equal(levels[i - 1].0.as_str(), address) {
            return Some(levels[i - 1].1);
        }
        i = i - 1;
    }
    proof {
        assert(levels@.take(levels@.len() as int) == levels@);
    }
    None
}

/// Decides a refresh: the icon level, the tooltip, the target name to
/// remember, the low-battery warning (edge-triggered: only when a level falls
/// below 20, for the target if there is one) and the levels to remember.
pub fn plan_refresh(
    devices: &Vec<DeviceBattery>,
    target: &str,
    last_levels: &Vec<(String, u8)>,
    language: Language,
) -> (plan: RefreshPlan)
    ensures
        plan.shown == spec_shown(battery::views(devices@), target@),
        exists|sorted: Seq<DeviceView>|
            battery::is_stable_sort(sorted, battery::views(devices@), Some(target@)) && plan.tooltip@
                == tooltip_text(sorted, language),
        ({
            let dv = battery::views(devices@);
            let m = menu::first_target_match(dv, target@, 0);
            if target@.len() > 0 && m is Some {
                plan.target_name matches Some(n) && n@ == dv[m->0].name
            } else {
                plan.target_name is None
            }
        }),
        match spec_alert(battery::views(devices@), target@, last_levels@) {
            Some((n, l)) => plan.alert matches Some(a) && a.0@ == n && a.1 == l,
            None => plan.alert is None,
        },
        levels_view(plan.levels@) == levels_of(battery::views(devices@)),
        plan.alert matches Some(a) ==> a.1 < LOW_BATTERY && exists|k: int|
            0 <= k < devices@.len() && (#[trigger] devices@[k]).name@ == a.0@ && devices@[k].level == a.1 && (
            target@.len() == 0 || text::eq_ignore_case(devices@[k].address@, target@)) && !(remembered(
                last_levels@,
                devices@[k].address@,
            ) matches Some(p) && p < LOW_BATTERY),
        (exists|k: int|
            0 <= k < devices@.len() && (#[trigger] devices@[k]).level < LOW_BATTERY && (target@.len() == 0
                || text::eq_ignore_case(devices@[k].address@, target@)) && !(remembered(
                last_levels@,
                devices@[k].address@,
            ) matches Some(p) && p < LOW_BATTERY)) ==> plan.alert is Some,
{
    let ghost dv = battery::views(devices@);
    let shown = compute_shown(devices, target);
    let tooltip = build_tooltip(devices, target, language);
    let target_name = if !target.is_empty() {
        match menu::find_target(devices, target) {
            Some(i) => {
                proof {
                    assert(dv[i as int] == devices@[i as int]@);
                }
                Some(devices[i].name.clone())
            },
            None => None,
        }
    } else {
        None
    };
    let mut alert: Option<(String, u8)> = None;
    let mut i: usize = 0;
    while i < devices.len()
        invariant
            dv == battery::views(devices@),
            i <= devices.len(),
            match spec_alert(dv.take(i as int), target@, last_levels@) {
                Some((n, l)) => alert matches Some(a) && a.0@ == n && a.1 == l,
                None => alert is None,
            },
        decreases devices.len() - i,
    {
        let d = &devices[i];
        proof {
            assert(dv[i as int] == devices@[i as int]@);
            assert(dv.take(i + 1).drop_last() == dv.take(i as int));
            assert(dv.take(i + 1).last() == dv[i as int]);
        }
        let is_target = target.is_empty() || text::str_eq_ignore_case(d.address.as_str(), target);
        let prev = remembered_level(last_levels, d.address.as_str());
        let was_low = match prev {
            Some(p) => p < LOW_BATTERY,
            None => false,
        };
        if d.level < LOW_BATTERY && is_target && !was_low {
            alert = Some((d.name.clone(), d.level));
        }
        i = i + 1;
    }
    proof {
        assert(dv.take(dv.len() as int) == dv);
    }
    let mut levels: Vec<(String, u8)> = Vec::new();
    let mut k: usize = 0;
    while k < devices.len()
        invariant
            dv == battery::views(devices@),
            k <= devices.len(),
            levels_view(levels@) == levels_of(dv.take(k as int)),
        decreases devices.len() - k,
    {
        proof {
            assert(dv[k as int] == devices@[k as int]@);
        }
        let ghost before = levels@;
        levels.push((devices[k].address.clone(), devices[k].level));
        proof {
            assert(levels_view(levels@) =~= levels_view(before).push((devices@[k as int].address@, devices@[k as int].level)));
            assert(dv.take(k + 1) == dv.take(k as int).push(dv[k as int]));
            assert(levels_of(dv.take(k + 1)) =~= levels_of(dv.take(k as int)).push((dv[k as int].address, dv[k as int].level)));
        }
        k = k + 1;
    }
    proof {
        assert(dv.take(dv.len() as int) == dv);
        lemma_alert_is_low(dv, target@, last_levels@);
        if let Some((n, l)) = spec_alert(dv, target@, last_levels@) {
            let k = choose|k: int|
                0 <= k < dv.len() && (#[trigger] dv[k]).name == n && dv[k].level == l && (target@.len() == 0
                    || text::eq_ignore_case(dv[k].address, target@)) && !(remembered(last_levels@, dv[k].address)
                    matches Some(p) && p < LOW_BATTERY);
            assert(dv[k] == devices@[k]@);
        }
        if exists|k: int|
            0 <= k < devices@.len() && (#[trigger] devices@[k]).level < LOW_BATTERY && (target@.len() == 0
                || text::eq_ignore_case(devices@[k].address@, target@)) && !(remembered(
                last_levels@,
                devices@[k].address@,
            ) matches Some(p) && p < LOW_BATTERY) {
            let k = choose|k: int|
                0 <= k < devices@.len() && (#[trigger] devices@[k]).level < LOW_BATTERY && (target@.len() == 0
                    || text::eq_ignore_case(devices@[k].address@, target@)) && !(remembered(
                    last_levels@,
                    devices@[k].address@,
                ) matches Some(p) && p < LOW_BATTERY);
            assert(dv[k] == devices@[k]@);
            assert(warns(dv[k], target@, last_levels@));
        }
    }
    RefreshPlan { shown, tooltip, target_name, alert, levels }
}

/// Level of the last entry for `address` in a list of remembered levels.
pub open spec fn remembered_view(levels: Seq<(Seq<char>, u8)>, address: Seq<char>) -> Option<u8>
    decreases levels.len(),
{
    if levels.len() == 0 {
        None
    } else if levels.last().0 == address {
        Some(levels.last().1)
    } else {
        remembered_view(levels.drop_last(), address)
    }
}

proof fn lemma_remembered_view(levels: Seq<(String, u8)>, address: Seq<char>)
    ensures
        remembered(levels, address) == remembered_view(levels_view(levels), address),
    decreases levels.len(),
{
    if levels.len() > 0 {
        assert(levels_view(levels).drop_last() == levels_view(levels.drop_last()));
        lemma_remembered_view(levels.drop_last(), address);
    }
}

proof fn lemma_remembered_own_level(ds: Seq<DeviceView>, k: int)
    requires
        0 <= k < ds.len(),
        forall|a: int, b: int| 0 <= a < b < ds.len() ==> (#[trigger] ds[a]).address != (#[trigger] ds[b]).address,
    ensures
        remembered_view(levels_of(ds), ds[k].address) == Some(ds[k].level),
    decreases ds.len(),
{
    let lv = levels_of(ds);
    if k == ds.len() - 1 {
    } else {
        let prefix = ds.drop_last();
        assert(lv.drop_last() =~= levels_of(prefix));
        assert(ds.last().address != ds[k].address);
        lemma_remembered_own_level(prefix, k);
    }
}

proof fn lemma_no_alert(ds: Seq<DeviceView>, all: Seq<DeviceView>, target: Seq<char>, levels: Seq<(String, u8)>)
    requires
        forall|k: int| 0 <= k < ds.len() ==> remembered(levels, (#[trigger] ds[k]).address) == Some(ds[k].level),
    ensures
        spec_alert(ds, target, levels) is None,
    decreases ds.len(),
{
    if ds.len() > 0 {
        assert(remembered(levels, ds[ds.len() - 1].address) == Some(ds[ds.len() - 1].level));
        assert forall|k: int| 0 <= k < ds.drop_last().len() implies remembered(levels, (
        #[trigger] ds.drop_last()[k]).address) == Some(ds.drop_last()[k].level) by {
            assert(ds.drop_last()[k] == ds[k]);
        }
        lemma_no_alert(ds.drop_last(), all, target, levels);
    }
}

/// The warning is edge-triggered: refreshing again with the same devices
/// (distinct addresses, as the device list has) and the levels the previous
/// refresh remembered raises no second warning.
pub proof fn lemma_no_repeated_warning(ds: Seq<DeviceView>, target: Seq<char>, remembered_levels: Seq<(String, u8)>)
    requires
        forall|a: int, b: int| 0 <= a < b < ds.len() ==> (#[trigger] ds[a]).address != (#[trigger] ds[b]).address,
        levels_view(remembered_levels) == levels_of(ds),
    ensures
        spec_alert(ds, target, remembered_levels) is None,
{
    assert forall|k: int| 0 <= k < ds.len() implies remembered(remembered_levels, (#[trigger] ds[k]).address) == Some(
        ds[k].level,
    ) by {
        lemma_remembered_view(remembered_levels, ds[k].address);
        lemma_remembered_own_level(ds, k);
    }
    lemma_no_alert(ds, ds, target, remembered_levels);
}

} // verus!

verus! {

// ---------- command line ----------

/// What the executable was asked to do.
#[derive(Debug, Clone, Copy, PartialEq, Eq, Structural)]
pub enum LaunchMode {
    /// `--rendertest`: draw the menu into a BMP file and exit.
    RenderTest,
    /// `--conntest`: print what the system reports as connected and exit.
    ConnTest,
    /// The tray application; with `--balloontest[=N]` it shows the low-battery
    /// notification for level N (default 15) and exits.
    Run(Option<u8>),
}

pub open spec fn is_digit(c: char) -> bool {
    '0' <= c && c <= '9'
}

/// Value of a string of decimal digits.
pub open spec fn digits_value(s: Seq<char>) -> int
    decreases s.len(),
{
    if s.len() == 0 {
        0
    } else {
        digits_value(s.drop_last()) * 10 + (s.last() as int - 48)
    }
}

/// `str::parse::<u8>`: an optional `'+'`, then one or more decimal digits
/// whose value is at most 255.
pub open spec fn spec_parse_u8(s: Seq<char>) -> Option<u8> {
    let d = unsigned_part(s);
    if d.len() > 0 && all_digits(d) && digits_value(d) <= 255 {
        Some(digits_value(d) as u8)
    } else {
        None
    }
}

/// `s` without one leading `'+'`.
pub open spec fn unsigned_part(s: Seq<char>) -> Seq<char> {
    if s.len() > 0 && s[0] == '+' {
        s.drop_first()
    } else {
        s
    }
}

pub open spec fn all_digits(d: Seq<char>) -> bool {
    forall|k: int| 0 <= k < d.len() ==> is_digit(#[trigger] d[k])
}

/// Parses a byte as `str::parse::<u8>` does.
pub fn parse_u8(s: &Vec<char>) -> (r: Option<u8>)
    ensures
        r == spec_parse_u8(s@),
{
    let start: usize = if s.len() > 0 && s[0] == '+' {
        1
    } else {
        0
    };
    let ghost d = unsigned_part(s@);
    proof {
        assert(d == s@.skip(start as int));
    }
    if start >= s.len() {
        return None;
    }
    let mut value: u32 = 0;
    let mut i = start;
    while i < s.len()
        invariant
            start <= i <= s.len(),
            d == s@.skip(start as int),
            d == unsigned_part(s@),
            forall|k: int| start <= k < i ==> is_digit(#[trigger] s@[k]),
            value as int == digits_value(s@.subrange(start as int, i as int)),
            value <= 255,
        decreases s.len() - i,
    {
        let c = s[i];
        if !('0' <= c && c <= '9') {
            proof {
                assert(d[i - start] == c);
                assert(!is_digit(d[(i - start) as int]));
                assert(!all_digits(d));
            }
            return None;
        }
        proof {
            assert(s@.subrange(start as int, i + 1).drop_last() == s@.subrange(start as int, i as int));
            assert(s@.subrange(start as int, i + 1).last() == c);
        }
        let next = value * 10 + ((c as u32) - 48);
        if next > 255 {
            proof {
                lemma_digits_prefix_bound(d, (i + 1 - start) as int);
                assert(d.take((i + 1 - start) as int) =~= s@.subrange(start as int, i + 1));
                assert(digits_value(s@.subrange(start as int, i + 1)) == next);
            }
            return None;
        }
        value = next;
        i = i + 1;
    }
    proof {
        assert(s@.subrange(start as int, s@.len() as int) == d);
    }
    Some(value as u8)
}

/// A digit string is worth at least any of its prefixes.
proof fn lemma_digits_prefix_bound(d: Seq<char>, n: int)
    requires
        0 <= n <= d.len(),
    ensures
        all_digits(d) ==> digits_value(d.take(n)) <= digits_value(d),
    decreases d.len() - n,
{
    if n < d.len() && all_digits(d) {
        lemma_digits_prefix_bound(d, n + 1);
        assert(d.take(n + 1).drop_last() == d.take(n));
        assert(d.take(n + 1).last() == d[n]);
        assert(is_digit(d[n]));
        lemma_digits_nonneg(d.take(n));
    }
    if n == d.len() {
        assert(d.take(n) == d);
    }
}

proof fn lemma_digits_nonneg(d: Seq<char>)
    requires
        forall|k: int| 0 <= k < d.len() ==> is_digit(#[trigger] d[k]),
    ensures
        digits_value(d) >= 0,
    decreases d.len(),
{
    if d.len() > 0 {
        assert forall|k: int| 0 <= k < d.drop_last().len() implies is_digit(#[trigger] d.drop_last()[k]) by {
            assert(d.drop_last()[k] == d[k]);
        }
        lemma_digits_nonneg(d.drop_last());
        assert(is_digit(d[d.len() - 1]));
    }
}

/// Level of `--balloontest` from what follows the flag: `=N` with N a byte,
/// else 15.
pub open spec fn balloon_level(rest: Seq<char>) -> u8 {
    if rest.len() > 0 && rest[0] == '=' && spec_parse_u8(rest.drop_first()) is Some {
        spec_parse_u8(rest.drop_first())->0
    } else {
        15u8
    }
}

pub open spec fn has_prefix(s: Seq<char>, p: Seq<char>) -> bool {
    p.len() <= s.len() && s.take(p.len() as int) == p
}

/// The first argument starting with `--balloontest`, from `i` on.
pub open spec fn balloon_from(args: Seq<String>, i: int) -> Option<u8>
    decreases args.len() - i,
{
    if i < 0 || i >= args.len() {
        None
    } else if has_prefix(args[i]@, "--balloontest"@) {
        Some(balloon_level(args[i]@.skip(13)))
    } else {
        balloon_from(args, i + 1)
    }
}

pub open spec fn any_arg(args: Seq<String>, flag: Seq<char>) -> bool {
    exists|i: int| 0 <= i < args.len() && (#[trigger] args[i])@ == flag
}

/// The mode of the command line `args`: any `--rendertest`, else any
/// `--conntest`, else the tray with the level of the first argument starting
/// with `--balloontest`.
pub open spec fn spec_launch_mode(args: Seq<String>) -> LaunchMode {
    if any_arg(args, "--rendertest"@) {
        LaunchMode::RenderTest
    } else if any_arg(args, "--conntest"@) {
        LaunchMode::ConnTest
    } else {
        LaunchMode::Run(balloon_from(args, 0))
    }
}

fn arg_present(args: &Vec<String>, flag: &str) -> (r: bool)
    ensures
        r == any_arg(args@, flag@),
{
    let mut i: usize = 0;
    while i < args.len()
        invariant
            i <= args.len(),
            forall|k: int| 0 <= k < i ==> (#[trigger] args@[k])@ != flag@,
        decreases args.len() - i,
    {
        if text::str_equal(args[i].as_str(), flag) {
            return true;
        }
        i = i + 1;
    }
    false
}

fn starts_with(s: &Vec<char>, p: &Vec<char>) -> (r: bool)
    ensures
        r == has_prefix(s@, p@),
{
    if p.len() > s.len() {
        return false;
    }
    let mut i: usize = 0;
    while i < p.len()
        invariant
            p.len() <= s.len(),
            i <= p.len(),
            forall|k: int| 0 <= k < i ==> #[trigger] s@[k] == p@[k],
        decreases p.len() - i,
    {
        if s[i] != p[i] {
            proof {
                assert(s@.take(p@.len() as int)[i as int] != p@[i as int]);
            }
            return false;
        }
        i = i + 1;
    }
    proof {
        assert(s@.take(p@.len() as int) =~= p@);
    }
    true
}

proof fn lemma_balloon_found(args: Seq<String>, i: int, j: int)
    requires
        0 <= i <= j < args.len(),
        forall|k: int| i <= k < j ==> !has_prefix((#[trigger] args[k])@, "--balloontest"@),
        has_prefix(args[j]@, "--balloontest"@),
    ensures
        balloon_from(args, i) == Some(balloon_level(args[j]@.skip(13))),
    decreases j - i,
{
    if i < j {
        lemma_balloon_found(args, i + 1, j);
    }
}

proof fn lemma_balloon_none(args: Seq<String>, i: int)
    requires
        0 <= i <= args.len(),
        forall|k: int| i <= k < args.len() ==> !has_prefix((#[trigger] args[k])@, "--balloontest"@),
    ensures
        balloon_from(args, i) is None,
    decreases args.len() - i,
{
    if i < args.len() {
        lemma_balloon_none(args, i + 1);
    }
}

/// `s[n..]`.
fn tail_from(s: &Vec<char>, n: usize) -> (r: Vec<char>)
    requires
        n <= s.len(),
    ensures
        r@ == s@.skip(n as int),
{
    let mut out: Vec<char> = Vec::new();
    let mut k = n;
    while k < s.len()
        invariant
            n <= k <= s.len(),
            out@ == s@.subrange(n as int, k as int),
        decreases s.len() - k,
    {
        out.push(s[k]);
        proof {
            assert(s@.subrange(n as int, k + 1) == s@.subrange(n as int, k as int).push(s@[k as int]));
        }
        k = k + 1;
    }
    out
}

/// The mode of a command line.
pub fn launch_mode(args: &Vec<String>) -> (r: LaunchMode)
    ensures
        r == spec_launch_mode(args@),
{
    if arg_present(args, "--rendertest") {
        return LaunchMode::RenderTest;
    }
    if arg_present(args, "--conntest") {
        return LaunchMode::ConnTest;
    }
    let flag = text::chars_of("--balloontest");
    proof {
        reveal_strlit("--balloontest");
        assert(flag@.len() == 13);
    }
    let mut i: usize = 0;
    while i < args.len()
        invariant
            flag@ == "--balloontest"@,
            flag@.len() == 13,
            !any_arg(args@, "--rendertest"@),
            !any_arg(args@, "--conntest"@),
            i <= args.len(),
            forall|k: int| 0 <= k < i ==> !has_prefix((#[trigger] args@[k])@, "--balloontest"@),
        decreases args.len() - i,
    {
        let a = text::chars_of(args[i].as_str());
        if starts_with(&a, &flag) {
            proof {
                lemma_balloon_found(args@, 0, i as int);
            }
            let rest = tail_from(&a, 13);
            let level = if rest.len() > 0 && rest[0] == '=' {
                let digits = tail_from(&rest, 1);
                proof {
                    assert(digits@ == rest@.drop_first());
                }
                match parse_u8(&digits) {
                    Some(v) => v,
                    None => 15,
                }
            } else {
                15
            };
            return LaunchMode::Run(Some(level));
        }
        i = i + 1;
    }
    proof {
        lemma_balloon_none(args@, 0);
    }
    LaunchMode::Run(None)
}

} // verus!

verus! {

// ---------- the application loop ----------

/// Milliseconds between two automatic refreshes.
pub const POLL_PERIOD_MS: u64 = 60000;

/// The worker polls when a refresh was requested or a full period has passed
/// since the last poll.
pub fn poll_due(refresh_requested: bool, elapsed_ms: u64) -> (r: bool)
    ensures
        r == (refresh_requested || elapsed_ms >= POLL_PERIOD_MS),
{
    refresh_requested || elapsed_ms >= POLL_PERIOD_MS
}

/// Size in bytes past which the log file is emptied before a line is added.
pub const LOG_LIMIT_BYTES: u64 = 200000;

/// The log is emptied once it has grown past about 200 KB.
pub fn log_needs_reset(size: u64) -> (r: bool)
    ensures
        r == (size > LOG_LIMIT_BYTES),
{
    size > LOG_LIMIT_BYTES
}

/// `WM_LBUTTONUP`, `WM_RBUTTONUP` and `WM_CONTEXTMENU`.
pub open spec fn menu_opening_code(code: int) -> bool {
    code == 0x0202 || code == 0x0205 || code == 0x007B
}

/// The tray icon's callback opens the menu for a left or right button
/// release or a context-menu request (the low word of `lParam`).
pub fn tray_callback_opens_menu(lparam: isize) -> (r: bool)
    ensures
        r == menu_opening_code((lparam as u32) as int % 65536),
{
    let code = (lparam as u32) % 65536;
    code == 0x0202 || code == 0x0205 || code == 0x007B
}

/// What the application does after the menu closed with an action.
pub struct ActionEffects {
    /// Leave the message loop.
    pub quit: bool,
    /// Ask the worker for an immediate refresh.
    pub refresh: bool,
    /// Store this target address (`""`: remove the stored target).
    pub target: Option<String>,
    /// Add or remove the autostart entry.
    pub toggle_autostart: bool,
    /// Store this interface language.
    pub language: Option<Language>,
    /// Store this menu theme.
    pub theme: Option<menu::Theme>,
}

/// The effects of a menu action: exit quits; refresh refreshes; a new target
/// is stored and refreshes the icon; the autostart entry toggles; a language
/// or theme is stored; no action does nothing.
pub fn action_effects(action: &menu::MenuAction) -> (r: ActionEffects)
    ensures
        r.quit == (action@ is Exit),
        r.refresh == (action@ is Refresh || action@ is SetTarget),
        match action@ {
            menu::ActionView::SetTarget(a) => r.target matches Some(t) && t@ == a,
            _ => r.target is None,
        },
        r.toggle_autostart == (action@ is ToggleAutostart),
        r.language == match action@ {
            menu::ActionView::SetLanguage(l) => Some(l),
            _ => None,
        },
        r.theme == match action@ {
            menu::ActionView::SetTheme(t) => Some(t),
            _ => None,
        },
{
    let none = ActionEffects {
        quit: false,
        refresh: false,
        target: None,
        toggle_autostart: false,
        language: None,
        theme: None,
    };
    match action {
        menu::MenuAction::NoAction => none,
        menu::MenuAction::Exit => ActionEffects { quit: true, ..none },
        menu::MenuAction::Refresh => ActionEffects { refresh: true, ..none },
        menu::MenuAction::SetTarget(a) => ActionEffects { refresh: true, target: Some(a.clone()), ..none },
        menu::MenuAction::ToggleAutostart => ActionEffects { toggle_autostart: true, ..none },
        menu::MenuAction::SetLanguage(l) => ActionEffects { language: Some(*l), ..none },
        menu::MenuAction::SetTheme(t) => ActionEffects { theme: Some(*t), ..none },
    }
}

/// The autostart command line: the executable's path in double quotes.
pub fn autostart_command(exe: &str) -> (r: String)
    ensures
        r@ == seq!['"'] + exe@ + seq!['"'],
{
    let mut out: Vec<char> = Vec::new();
    out.push('"');
    text::push_str(&mut out, exe);
    out.push('"');
    proof {
        assert(out@ =~= seq!['"'] + exe@ + seq!['"']);
    }
    text::string_from_chars(&out)
}

} // verus!
