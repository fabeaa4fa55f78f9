//! Text shown to the user: sizes, ages, statuses, fixed-width bars and percentages.
use vstd::prelude::*;
use vstd::string::*;

use crate::text;
use crate::text::{decimal_u128, decimal_u64, extend_chars, string_of};
use crate::age::AgeThreshold;
use crate::scanner;
use crate::fuzzy::{folder_text_fits, is_match_order, matching_indices};
use crate::scanner::{
    arranged, distinct_positions, selected, size_sum, threshold_usable, DependencyFolder, DependencyKind, ScanSummary,
};
use crate::time::{TimeSpan, Timestamp};

verus! {

/// The text `humansize::format_size` gives for a byte count with the `BINARY` options.
pub uninterp spec fn binary_size_text(value: u64) -> Seq<char>;

/// All characters are ASCII.
pub open spec fn is_ascii_text(s: Seq<char>) -> bool {
    forall|k: int| 0 <= k < s.len() ==> (#[trigger] s[k] as u32) < 0x80
}

/// A byte count in binary units (`humansize::format_size` with `BINARY`), such as
/// `512 B` or `1.50 KiB`. Claims, from the crate's source: the text depends on the
/// value alone; below 1024 it is the number and ` B`; it is ASCII and at most 11
/// characters (a number below 1024 with at most two decimals, a space and a unit of
/// at most three letters).
#[verifier::external_body]
pub fn bytes(value: u64) -> (r: String)
    ensures
        r@ == binary_size_text(value),
        value < 1024 ==> r@ == text::decimal(value as nat) + " B"@,
        r@.len() <= 11,
        is_ascii_text(r@),
{
    humansize::format_size(value, humansize::BINARY)
}

/// The age label of a span: whole years (`2y`) from 365 days on, otherwise whole days (`12d`).
pub open spec fn age_text(secs: nat) -> Seq<char> {
    let days = secs / 86_400;
    if days >= 365 {
        text::decimal(days / 365) + "y"@
    } else {
        text::decimal(days) + "d"@
    }
}

pub fn age_label(age: TimeSpan) -> (r: String)
    ensures
        r@ == age_text(age.secs as nat),
{
    let days = age.as_secs() / 86_400;
    if days >= 365 {
        let mut v = decimal_u64(days / 365);
        extend_chars(&mut v, "y");
        string_of(v.as_slice())
    } else {
        let mut v = decimal_u64(days);
        extend_chars(&mut v, "d");
        string_of(v.as_slice())
    }
}

/// How long ago `time` was, as seen at `now`: an age label and ` ago`, or
/// `in future` when `time` is later than `now`.
pub open spec fn modified_text(now: Timestamp, time: Timestamp) -> Seq<char> {
    if now.total() >= time.total() {
        age_text(((now.total() - time.total()) / crate::time::nanos_per_sec()) as nat) + " ago"@
    } else {
        "in future"@
    }
}

/// How long ago `time` was, as seen at `now`.
pub fn modified_label_at(now: Timestamp, time: Timestamp) -> (r: String)
    requires
        now.wf(),
        time.wf(),
    ensures
        r@ == modified_text(now, time),
{
    match now.duration_since(&time) {
        Some(age) => {
            proof {
                assert(age.secs == (now.total() - time.total()) / crate::time::nanos_per_sec()) by (nonlinear_arith)
                    requires
                        age.total() == now.total() - time.total(),
                        age.total() == age.secs * 1_000_000_000 + age.nanos,
                        age.nanos < 1_000_000_000,
                        crate::time::nanos_per_sec() == 1_000_000_000,
                ;
            }
            let label = age_label(age);
            label.concat(" ago")
        },
        None => String::from_str("in future"),
    }
}

/// How long ago `time` was, as seen now.
pub fn modified_label(time: Timestamp) -> (r: String)
    requires
        time.wf(),
    ensures
        exists|now: Timestamp| now.wf() && r@ == modified_text(now, time),
{
    let now = crate::time::now();
    modified_label_at(now, time)
}

pub open spec fn status_text(is_eligible: bool) -> Seq<char> {
    if is_eligible {
        "ready"@
    } else {
        "newer"@
    }
}

pub fn status_label(is_eligible: bool) -> (r: &'static str)
    ensures
        r@ == status_text(is_eligible),
{
    if is_eligible {
        "ready"
    } else {
        "newer"
    }
}

/// `n` copies of `c`.
pub open spec fn repeat(c: char, n: nat) -> Seq<char> {
    Seq::new(n, |i: int| c)
}

/// A bar `width` characters wide: blank when there is nothing to chart,
/// otherwise `filled` full cells `:` (at most `width`) and empty cells `.` after them.
pub open spec fn bar_text(max: u64, width: nat, filled: nat) -> Seq<char> {
    if width == 0 {
        Seq::empty()
    } else if max == 0 {
        repeat(' ', width)
    } else {
        let full = if filled < width { filled } else { width };
        repeat(':', full) + repeat('.', (width - full) as nat)
    }
}

fn push_repeat(out: &mut Vec<char>, c: char, n: usize)
    ensures
        final(out)@ == old(out)@ + repeat(c, n as nat),
{
    let ghost start = out@;
    let mut i: usize = 0;
    while i < n
        invariant
            0 <= i <= n,
            out@ == start + repeat(c, i as nat),
        decreases n - i,
    {
        out.push(c);
        i = i + 1;
        assert(out@ =~= start + repeat(c, i as nat));
    }
}

/// A bar of `width` cells for a value out of `max`, with `filled` the number of
/// full cells the value rounds to.
pub fn bar(max: u64, width: usize, filled: usize) -> (r: String)
    ensures
        r@ == bar_text(max, width as nat, filled as nat),
{
    let mut v: Vec<char> = Vec::new();
    if width == 0 {
        return string_of(v.as_slice());
    }
    if max == 0 {
        push_repeat(&mut v, ' ', width);
        assert(v@ =~= repeat(' ', width as nat));
        return string_of(v.as_slice());
    }
    let full = if filled < width { filled } else { width };
    push_repeat(&mut v, ':', full);
    push_repeat(&mut v, '.', width - full);
    assert(v@ =~= repeat(':', full as nat) + repeat('.', (width - full) as nat));
    string_of(v.as_slice())
}

/// A bar is always exactly as wide as asked.
pub proof fn lemma_bar_width(max: u64, width: nat, filled: nat)
    ensures
        bar_text(max, width, filled).len() == width,
{
}

/// A percentage: `0%` when there is nothing to compare with, otherwise the
/// rounded value and `%`.
pub open spec fn percent_text(max: u64, rounded: nat) -> Seq<char> {
    if max == 0 {
        "0%"@
    } else {
        text::decimal(rounded) + "%"@
    }
}

/// The percentage of a value out of `max`, with `rounded` the whole percent the
/// value rounds to.
pub fn percent(max: u64, rounded: u128) -> (r: String)
    ensures
        r@ == percent_text(max, rounded as nat),
{
    if max == 0 {
        return String::from_str("0%");
    }
    let mut v = decimal_u128(rounded);
    extend_chars(&mut v, "%");
    string_of(v.as_slice())
}

/// The query a report filters by: the filter, or nothing.
pub open spec fn query_of(filter: Option<&str>) -> Seq<char> {
    match filter {
        Some(f) => f@,
        None => ""@,
    }
}

/// The filter a report shows: the filter when it holds more than whitespace.
pub open spec fn shown_filter(filter: Option<&str>) -> Option<Seq<char>> {
    match filter {
        Some(f) => if text::trim(f@).len() > 0 {
            Some(f@)
        } else {
            None
        },
        None => None,
    }
}

/// The total size of the folders at `indices`.
pub fn total_size_for_indices(scan: &ScanSummary, indices: &[usize]) -> (r: u64)
    requires
        distinct_positions(indices@, scan.folders@.len() as int),
        size_sum(scan.folders@) <= u64::MAX,
    ensures
        r == size_sum(arranged(scan.folders@, indices@)),
{
    let ghost m = arranged(scan.folders@, indices@);
    proof {
        scanner::lemma_arranged_sum(scan.folders@, indices@);
    }
    let mut acc: u64 = 0;
    let mut i: usize = 0;
    while i < indices.len()
        invariant
            0 <= i <= indices.len(),
            m == arranged(scan.folders@, indices@),
            distinct_positions(indices@, scan.folders@.len() as int),
            size_sum(m) <= u64::MAX,
            acc == size_sum(m.take(i as int)),
        decreases indices.len() - i,
    {
        proof {
            assert(m.take(i + 1).drop_last() =~= m.take(i as int));
            scanner::lemma_size_sum_prefix(m, i + 1);
        }
        let k = indices[i];
        assert(k < scan.folders@.len());
        acc = acc + scan.folders[k].size_bytes;
        i = i + 1;
    }
    assert(m.take(indices.len() as int) =~= m);
    acc
}

/// The number and total size of the folders at `indices` whose projects are
/// older than `threshold`.
fn eligible_for_indices(scan: &ScanSummary, indices: &[usize], threshold: AgeThreshold) -> (r: (usize, u64))
    requires
        distinct_positions(indices@, scan.folders@.len() as int),
        size_sum(scan.folders@) <= u64::MAX,
        threshold_usable(scan.folders@, threshold),
    ensures
        r.0 == selected(arranged(scan.folders@, indices@), threshold).len(),
        r.1 == size_sum(selected(arranged(scan.folders@, indices@), threshold)),
{
    let ghost m = arranged(scan.folders@, indices@);
    proof {
        scanner::lemma_arranged_sum(scan.folders@, indices@);
    }
    let mut count: usize = 0;
    let mut acc: u64 = 0;
    let mut i: usize = 0;
    while i < indices.len()
        invariant
            0 <= i <= indices.len(),
            m == arranged(scan.folders@, indices@),
            distinct_positions(indices@, scan.folders@.len() as int),
            threshold_usable(scan.folders@, threshold),
            size_sum(m) <= u64::MAX,
            count == selected(m.take(i as int), threshold).len(),
            acc == size_sum(selected(m.take(i as int), threshold)),
        decreases indices.len() - i,
    {
        let ghost next = m.take(i + 1);
        proof {
            assert(next.drop_last() =~= m.take(i as int));
            scanner::lemma_selected_step(next, threshold);
            scanner::lemma_selected_sum(next, threshold);
            scanner::lemma_size_sum_prefix(m, i + 1);
        }
        let k = indices[i];
        assert(k < scan.folders@.len());
        let f = &scan.folders[k];
        assert(next.last() == *f);
        if f.is_older_than(threshold) {
            acc = acc + f.size_bytes;
            count = count + 1;
        }
        i = i + 1;
    }
    assert(m.take(indices.len() as int) =~= m);
    (count, acc)
}

/// The total size of the folders at `indices` whose projects are older than `threshold`.
pub fn total_for_indices(scan: &ScanSummary, indices: &[usize], threshold: AgeThreshold) -> (r: u64)
    requires
        distinct_positions(indices@, scan.folders@.len() as int),
        size_sum(scan.folders@) <= u64::MAX,
        threshold_usable(scan.folders@, threshold),
    ensures
        r == size_sum(selected(arranged(scan.folders@, indices@), threshold)),
{
    eligible_for_indices(scan, indices, threshold).1
}

/// The number of folders at `indices` whose projects are older than `threshold`.
pub fn eligible_count_for_indices(scan: &ScanSummary, indices: &[usize], threshold: AgeThreshold) -> (r: usize)
    requires
        distinct_positions(indices@, scan.folders@.len() as int),
        size_sum(scan.folders@) <= u64::MAX,
        threshold_usable(scan.folders@, threshold),
    ensures
        r == selected(arranged(scan.folders@, indices@), threshold).len(),
{
    eligible_for_indices(scan, indices, threshold).0
}

/// The filter a report shows, if any.
pub fn visible_filter(filter: Option<&str>) -> (r: Option<String>)
    ensures
        match shown_filter(filter) {
            Some(f) => r matches Some(s) && s@ == f,
            None => r is None,
        },
{
    match filter {
        Some(f) => {
            let t = text::trimmed(&text::chars_of(f));
            if t.len() > 0 {
                Some(String::from_str(f))
            } else {
                None
            }
        },
        None => None,
    }
}

/// The total size of the folders of `kind` that are listed: all of them, or
/// when `filtered`, those at the positions `idx`.
pub open spec fn kind_sum(folders: Seq<DependencyFolder>, kind: DependencyKind, filtered: bool, idx: Seq<usize>) -> nat
    decreases folders.len(),
{
    if folders.len() == 0 {
        0
    } else {
        let listed = !filtered || idx.contains((folders.len() - 1) as usize);
        kind_sum(folders.drop_last(), kind, filtered, idx) + if listed && folders.last().kind == kind {
            folders.last().size_bytes as nat
        } else {
            0
        }
    }
}

proof fn lemma_kind_sum(folders: Seq<DependencyFolder>, kind: DependencyKind, filtered: bool, idx: Seq<usize>)
    ensures
        kind_sum(folders, kind, filtered, idx) <= size_sum(folders),
    decreases folders.len(),
{
    if folders.len() > 0 {
        lemma_kind_sum(folders.drop_last(), kind, filtered, idx);
    }
}

/// The line of the age-preset table for one preset.
#[derive(Debug, Clone, Copy)]
pub struct PresetRow {
    pub threshold: AgeThreshold,
    pub total: u64,
}

/// The line of the ecosystem table for one kind.
#[derive(Debug, Clone, Copy)]
pub struct EcosystemRow {
    pub kind: DependencyKind,
    pub total: u64,
}

/// What the dry-run report of a scan shows.
#[derive(Debug)]
pub struct ScanReport {
    /// Number of roots scanned.
    pub roots: usize,
    /// Number of folders found.
    pub detected: usize,
    /// The filter, when one holds more than whitespace.
    pub filter: Option<String>,
    /// Number of folders that match the filter.
    pub matching: usize,
    /// Total size of the folders that match the filter.
    pub matching_size: u64,
    /// Number of matching folders older than the threshold.
    pub eligible_count: usize,
    /// Total size of all folders.
    pub total_size: u64,
    /// Total size of the matching folders older than the threshold.
    pub eligible_size: u64,
    /// The total the preset bars and percentages are measured against.
    pub chart_max: u64,
    /// The reclaimable total at each age preset.
    pub presets: Vec<PresetRow>,
    /// The size of the listed folders of each project ecosystem.
    pub ecosystems: Vec<EcosystemRow>,
    /// The positions of the folders to list, best matches first.
    pub rows: Vec<usize>,
}

fn indices_contain(indices: &[usize], i: usize) -> (r: bool)
    ensures
        r == indices@.contains(i),
{
    let mut k: usize = 0;
    while k < indices.len()
        invariant
            0 <= k <= indices.len(),
            forall|j: int| 0 <= j < k ==> indices@[j] != i,
        decreases indices.len() - k,
    {
        if indices[k] == i {
            assert(indices@[k as int] == i);
            return true;
        }
        k = k + 1;
    }
    false
}

fn kind_total(scan: &ScanSummary, kind: DependencyKind, filtered: bool, indices: &[usize]) -> (r: u64)
    requires
        size_sum(scan.folders@) <= u64::MAX,
    ensures
        r == kind_sum(scan.folders@, kind, filtered, indices@),
{
    let mut acc: u64 = 0;
    let mut i: usize = 0;
    while i < scan.folders.len()
        invariant
            0 <= i <= scan.folders.len(),
            size_sum(scan.folders@) <= u64::MAX,
            acc == kind_sum(scan.folders@.take(i as int), kind, filtered, indices@),
        decreases scan.folders.len() - i,
    {
        let ghost next = scan.folders@.take(i + 1);
        proof {
            assert(next.drop_last() =~= scan.folders@.take(i as int));
            lemma_kind_sum(next, kind, filtered, indices@);
            scanner::lemma_size_sum_prefix(scan.folders@, i + 1);
        }
        let listed = !filtered || indices_contain(indices, i);
        if listed && scan.folders[i].kind == kind {
            acc = acc + scan.folders[i].size_bytes;
        }
        i = i + 1;
    }
    assert(scan.folders@.take(scan.folders.len() as int) =~= scan.folders@);
    acc
}

/// The figures of the dry-run report of `scan` at `threshold`, restricted to the
/// folders that match `filter` where the report says so.
pub fn scan_report(scan: &ScanSummary, threshold: AgeThreshold, filter: Option<&str>) -> (r: ScanReport)
    requires
        100 * query_of(filter).len() <= i64::MAX,
        forall|k: int| 0 <= k < scan.folders@.len() ==> folder_text_fits(#[trigger] scan.folders@[k]),
        size_sum(scan.folders@) <= u64::MAX,
        threshold_usable(scan.folders@, threshold),
    ensures
        r.roots == scan.roots@.len(),
        r.detected == scan.folders@.len(),
        match shown_filter(filter) {
            Some(f) => r.filter matches Some(s) && s@ == f,
            None => r.filter is None,
        },
        r.total_size == size_sum(scan.folders@),
        is_match_order(scan.folders@, query_of(filter), r.rows@),
        r.matching == r.rows@.len(),
        r.matching_size == size_sum(arranged(scan.folders@, r.rows@)),
        r.eligible_count == selected(arranged(scan.folders@, r.rows@), threshold).len(),
        r.eligible_size == size_sum(selected(arranged(scan.folders@, r.rows@), threshold)),
        r.eligible_count <= r.matching,
        r.eligible_size <= r.matching_size,
        r.matching_size <= r.total_size,
        r.chart_max == if shown_filter(filter) is Some {
            r.matching_size
        } else {
            r.total_size
        },
        r.presets@.len() == 4,
        r.presets@[0].threshold.day_count() == 7,
        r.presets@[1].threshold.day_count() == 30,
        r.presets@[2].threshold.day_count() == 90,
        r.presets@[3].threshold.day_count() == 365,
        forall|k: int|
            0 <= k < 4 ==> (#[trigger] r.presets@[k]).total == if shown_filter(filter) is Some {
                size_sum(selected(arranged(scan.folders@, r.rows@), r.presets@[k].threshold))
            } else {
                size_sum(selected(scan.folders@, r.presets@[k].threshold))
            },
        r.ecosystems@.len() == 2,
        r.ecosystems@[0].kind == DependencyKind::Node,
        r.ecosystems@[1].kind == DependencyKind::Python,
        forall|k: int|
            0 <= k < 2 ==> (#[trigger] r.ecosystems@[k]).total == kind_sum(
                scan.folders@,
                r.ecosystems@[k].kind,
                shown_filter(filter) is Some,
                r.rows@,
            ),
{
    let query: &str = match filter {
        Some(f) => f,
        None => "",
    };
    let rows = matching_indices(scan.folders.as_slice(), query);
    let shown = visible_filter(filter);
    let filtered = shown.is_some();
    let matching_size = total_size_for_indices(scan, rows.as_slice());
    let total_size = scan.total_size();
    let eligible_count = eligible_count_for_indices(scan, rows.as_slice(), threshold);
    let eligible_size = total_for_indices(scan, rows.as_slice(), threshold);
    proof {
        scanner::lemma_selected_sum(arranged(scan.folders@, rows@), threshold);
        scanner::lemma_arranged_sum(scan.folders@, rows@);
    }
    let chart_max = if filtered {
        matching_size
    } else {
        total_size
    };
    let all = AgeThreshold::presets();
    let mut presets: Vec<PresetRow> = Vec::new();
    let mut p: usize = 0;
    while p < 4
        invariant
            0 <= p <= 4,
            all@.len() == 4,
            all@[0].day_count() == 7,
            all@[1].day_count() == 30,
            all@[2].day_count() == 90,
            all@[3].day_count() == 365,
            filtered == (shown_filter(filter) is Some),
            distinct_positions(rows@, scan.folders@.len() as int),
            size_sum(scan.folders@) <= u64::MAX,
            presets@.len() == p,
            forall|k: int| 0 <= k < p ==> (#[trigger] presets@[k]).threshold == all@[k],
            forall|k: int|
                0 <= k < p ==> (#[trigger] presets@[k]).total == if filtered {
                    size_sum(selected(arranged(scan.folders@, rows@), presets@[k].threshold))
                } else {
                    size_sum(selected(scan.folders@, presets@[k].threshold))
                },
        decreases 4 - p,
    {
        let preset = all[p];
        assert(preset.wf());
        let total = if filtered {
            total_for_indices(scan, rows.as_slice(), preset)
        } else {
            scan.total_for(preset)
        };
        presets.push(PresetRow { threshold: preset, total });
        p = p + 1;
    }
    let node = kind_total(scan, DependencyKind::Node, filtered, rows.as_slice());
    let python = kind_total(scan, DependencyKind::Python, filtered, rows.as_slice());
    let mut ecosystems: Vec<EcosystemRow> = Vec::new();
    ecosystems.push(EcosystemRow { kind: DependencyKind::Node, total: node });
    ecosystems.push(EcosystemRow { kind: DependencyKind::Python, total: python });
    ScanReport {
        roots: scan.roots.len(),
        detected: scan.folders.len(),
        filter: shown,
        matching: rows.len(),
        matching_size,
        eligible_count,
        total_size,
        eligible_size,
        chart_max,
        presets,
        ecosystems,
        rows,
    }
}

} // verus!
