//! Machine-readable reports of a scan and of the package-manager caches.
use vstd::prelude::*;
use vstd::string::*;

use crate::age::{age_threshold_label, AgeThreshold};
use crate::cache::{cache_age_secs, cache_folder, cache_kind, cache_modified, cache_size_sum, CacheCandidate, CacheSummary};
use crate::display::{query_of, shown_filter, visible_filter, eligible_count_for_indices, status_label, status_text, total_for_indices, total_size_for_indices};
use crate::fuzzy::{folder_text_fits, is_match_order, matching_indices};
use crate::scanner::{
    arranged, kind_label, older_than, selected, size_sum, threshold_usable, DependencyFolder, ScanSummary,
};
use crate::time::Timestamp;

verus! {

/// Counts and sizes of a report.
#[derive(Debug)]
pub struct ReportTotals {
    pub detected_count: usize,
    pub total_size_bytes: u64,
    pub eligible_count: usize,
    pub eligible_size_bytes: u64,
}

/// One dependency folder in a report.
#[derive(Debug)]
pub struct FolderReport {
    pub ecosystem: String,
    pub path: String,
    pub project_path: String,
    pub size_bytes: u64,
    pub age_seconds: u64,
    pub status: String,
}

/// The report of a scan of project roots.
#[derive(Debug)]
pub struct ProjectReport {
    pub mode: &'static str,
    pub roots: Vec<String>,
    pub filter: Option<String>,
    pub threshold: String,
    pub totals: ReportTotals,
    pub folders: Vec<FolderReport>,
}

/// The report of the package-manager caches.
#[derive(Debug)]
pub struct CacheReport {
    pub mode: &'static str,
    pub totals: ReportTotals,
    pub candidates: Vec<FolderReport>,
}

/// `r` reports the folder `f`, with `eligible` telling whether it is old enough.
pub open spec fn is_folder_report(r: FolderReport, f: DependencyFolder, eligible: bool) -> bool {
    &&& r.ecosystem@ == kind_label(f.kind)
    &&& r.path@ == f.path@
    &&& r.project_path@ == f.project_path@
    &&& r.size_bytes == f.size_bytes
    &&& r.age_seconds == f.age.secs
    &&& r.status@ == status_text(eligible)
}

/// `r` reports the cache `c`: listed under its manager's cache kind, a year
/// old, and ready to be reclaimed.
pub open spec fn is_cache_report(r: FolderReport, c: CacheCandidate) -> bool {
    &&& r.ecosystem@ == kind_label(cache_kind(c.manager))
    &&& r.path@ == c.path@
    &&& r.project_path@ == c.path@
    &&& r.size_bytes == c.size_bytes
    &&& r.age_seconds == cache_age_secs()
    &&& r.status@ == status_text(true)
}

/// The report of one folder.
fn folder_report(folder: &DependencyFolder, threshold: AgeThreshold) -> (r: FolderReport)
    requires
        threshold.wf(),
    ensures
        is_folder_report(r, *folder, older_than(*folder, threshold)),
{
    FolderReport {
        ecosystem: String::from_str(folder.kind.label()),
        path: folder.path.clone(),
        project_path: folder.project_path.clone(),
        size_bytes: folder.size_bytes,
        age_seconds: folder.age.as_secs(),
        status: String::from_str(status_label(folder.is_older_than(threshold))),
    }
}

/// The report of a scan: the folders that match `filter` (all of them without
/// one), best matches first, with their totals and those of the folders older
/// than `threshold`.
pub fn project_report(scan: &ScanSummary, threshold: AgeThreshold, filter: Option<&str>) -> (r: ProjectReport)
    requires
        100 * query_of(filter).len() <= i64::MAX,
        forall|k: int| 0 <= k < scan.folders@.len() ==> folder_text_fits(#[trigger] scan.folders@[k]),
        size_sum(scan.folders@) <= u64::MAX,
        threshold_usable(scan.folders@, threshold),
    ensures
        r.mode@ == "project"@,
        r.roots@.len() == scan.roots@.len(),
        forall|k: int| 0 <= k < r.roots@.len() ==> #[trigger] r.roots@[k]@ == scan.roots@[k]@,
        match shown_filter(filter) {
            Some(f) => r.filter matches Some(s) && s@ == f,
            None => r.filter is None,
        },
        r.threshold@ == age_threshold_label(threshold.day_count()),
        r.totals.eligible_count <= r.totals.detected_count,
        r.totals.eligible_size_bytes <= r.totals.total_size_bytes,
        exists|idx: Seq<usize>|
            {
                &&& is_match_order(scan.folders@, query_of(filter), idx)
                &&& r.totals.detected_count == idx.len()
                &&& r.totals.total_size_bytes == size_sum(arranged(scan.folders@, idx))
                &&& r.totals.eligible_count == selected(arranged(scan.folders@, idx), threshold).len()
                &&& r.totals.eligible_size_bytes == size_sum(selected(arranged(scan.folders@, idx), threshold))
                &&& r.folders@.len() == idx.len()
                &&& forall|k: int|
                    0 <= k < idx.len() ==> is_folder_report(
                        #[trigger] r.folders@[k],
                        scan.folders@[idx[k] as int],
                        older_than(scan.folders@[idx[k] as int], threshold),
                    )
            },
{
    let query: &str = match filter {
        Some(f) => f,
        None => "",
    };
    let indices = matching_indices(scan.folders.as_slice(), query);
    let detected_count = indices.len();
    let total_size_bytes = total_size_for_indices(scan, indices.as_slice());
    let eligible_count = eligible_count_for_indices(scan, indices.as_slice(), threshold);
    let eligible_size_bytes = total_for_indices(scan, indices.as_slice(), threshold);
    proof {
        crate::scanner::lemma_selected_sum(arranged(scan.folders@, indices@), threshold);
    }
    let mut folders: Vec<FolderReport> = Vec::new();
    let mut i: usize = 0;
    while i < indices.len()
        invariant
            0 <= i <= indices.len(),
            crate::scanner::distinct_positions(indices@, scan.folders@.len() as int),
            threshold_usable(scan.folders@, threshold),
            folders@.len() == i,
            forall|k: int|
                0 <= k < i ==> is_folder_report(
                    #[trigger] folders@[k],
                    scan.folders@[indices@[k] as int],
                    older_than(scan.folders@[indices@[k] as int], threshold),
                ),
        decreases indices.len() - i,
    {
        let k = indices[i];
        assert(k < scan.folders@.len());
        let fr = folder_report(&scan.folders[k], threshold);
        folders.push(fr);
        i = i + 1;
    }
    let mut roots: Vec<String> = Vec::new();
    let mut j: usize = 0;
    while j < scan.roots.len()
        invariant
            0 <= j <= scan.roots.len(),
            roots@.len() == j,
            forall|k: int| 0 <= k < j ==> #[trigger] roots@[k]@ == scan.roots@[k]@,
        decreases scan.roots.len() - j,
    {
        roots.push(scan.roots[j].clone());
        j = j + 1;
    }
    let shown = visible_filter(filter);
    ProjectReport {
        mode: "project",
        roots,
        filter: shown,
        threshold: threshold.label(),
        totals: ReportTotals { detected_count, total_size_bytes, eligible_count, eligible_size_bytes },
        folders,
    }
}

/// The report of the caches: every cache is listed, and every cache counts as
/// reclaimable.
pub fn cache_report(summary: &CacheSummary) -> (r: CacheReport)
    requires
        cache_size_sum(summary.candidates@) <= u64::MAX,
    ensures
        r.mode@ == "cache"@,
        r.totals.detected_count == summary.candidates@.len(),
        r.totals.total_size_bytes == cache_size_sum(summary.candidates@),
        r.totals.eligible_count == summary.candidates@.len(),
        r.totals.eligible_size_bytes == cache_size_sum(summary.candidates@),
        r.candidates@.len() == summary.candidates@.len(),
        forall|k: int| 0 <= k < r.candidates@.len() ==> is_cache_report(#[trigger] r.candidates@[k], summary.candidates@[k]),
{
    let scan = summary.to_scan_summary();
    let day = AgeThreshold::days(1);
    let mut candidates: Vec<FolderReport> = Vec::new();
    let mut i: usize = 0;
    let ghost (now, modified) = choose|now: Timestamp, modified: Timestamp|
        now.wf() && cache_modified(now, modified) && forall|k: int|
            0 <= k < scan.folders@.len() ==> #[trigger] scan.folders@[k] == cache_folder(
                summary.candidates@[k],
                modified,
            );
    while i < scan.folders.len()
        invariant
            0 <= i <= scan.folders.len(),
            scan.folders@.len() == summary.candidates@.len(),
            day.day_count() == 1,
            forall|k: int|
                0 <= k < scan.folders@.len() ==> #[trigger] scan.folders@[k] == cache_folder(
                    summary.candidates@[k],
                    modified,
                ),
            candidates@.len() == i,
            forall|k: int| 0 <= k < i ==> is_cache_report(#[trigger] candidates@[k], summary.candidates@[k]),
        decreases scan.folders.len() - i,
    {
        assert(scan.folders@[i as int] == cache_folder(summary.candidates@[i as int], modified));
        let fr = folder_report(&scan.folders[i], day);
        candidates.push(fr);
        i = i + 1;
    }
    let total = summary.total_size();
    CacheReport {
        mode: "cache",
        totals: ReportTotals {
            detected_count: summary.candidates.len(),
            total_size_bytes: total,
            eligible_count: summary.candidates.len(),
            eligible_size_bytes: total,
        },
        candidates,
    }
}

} // verus!
