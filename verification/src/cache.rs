//! Package-manager caches: where npm and pip keep them, and how a set of found
//! caches is presented as a scan.
use vstd::prelude::*;
use vstd::string::*;

use crate::path;
use crate::path::{join_path, path_compare, paths_equal};
use crate::scanner::{arranged, DependencyFolder, DependencyKind, ScanSummary};
use crate::sort::{is_stable_order, stable_order, SortKey};
use crate::time::{TimeSpan, Timestamp};

verus! {

/// The package manager a cache belongs to (npm sorts before pip).
#[derive(Debug, Clone, Copy, PartialEq, Eq, Structural, PartialOrd, Ord)]
pub enum CacheManager {
    Npm,
    Pip,
}

/// The dependency kind under which a manager's cache is listed.
pub open spec fn cache_kind(m: CacheManager) -> DependencyKind {
    match m {
        CacheManager::Npm => DependencyKind::NpmCache,
        CacheManager::Pip => DependencyKind::PipCache,
    }
}

/// The rank of a manager in the order of managers.
pub open spec fn manager_rank(m: CacheManager) -> int {
    match m {
        CacheManager::Npm => 0,
        CacheManager::Pip => 1,
    }
}

impl CacheManager {
    pub fn dependency_kind(self) -> (r: DependencyKind)
        ensures
            r == cache_kind(self),
    {
        match self {
            CacheManager::Npm => DependencyKind::NpmCache,
            CacheManager::Pip => DependencyKind::PipCache,
        }
    }
}

/// A cache directory that was found, with its size.
#[derive(Debug)]
pub struct CacheCandidate {
    pub path: String,
    pub manager: CacheManager,
    pub size_bytes: u64,
}

impl CacheCandidate {
    /// A copy of the candidate.
    pub fn duplicate(&self) -> (r: CacheCandidate)
        ensures
            r == *self,
    {
        CacheCandidate { path: self.path.clone(), manager: self.manager, size_bytes: self.size_bytes }
    }
}

/// Caches are ordered largest first, then by path.
impl SortKey for CacheCandidate {
    open spec fn key_lt(self, other: Self) -> bool {
        self.size_bytes > other.size_bytes || (self.size_bytes == other.size_bytes && path::path_lt(
            self.path@,
            other.path@,
        ))
    }

    proof fn lemma_irreflexive(a: Self) {
        path::lemma_lex2_irreflexive(path::path_key(a.path@));
    }

    proof fn lemma_transitive(a: Self, b: Self, c: Self) {
        if a.size_bytes == b.size_bytes && b.size_bytes == c.size_bytes {
            path::lemma_lex2_transitive(path::path_key(a.path@), path::path_key(b.path@), path::path_key(c.path@));
        }
    }

    proof fn lemma_tie_transitive(a: Self, b: Self, c: Self) {
        path::lemma_lex2_total(path::path_key(a.path@), path::path_key(b.path@));
        path::lemma_lex2_total(path::path_key(b.path@), path::path_key(c.path@));
        path::lemma_lex2_irreflexive(path::path_key(a.path@));
    }

    fn sorts_before(&self, other: &Self) -> (r: bool) {
        if self.size_bytes != other.size_bytes {
            self.size_bytes > other.size_bytes
        } else {
            path_compare(self.path.as_str(), other.path.as_str()) == Some(true)
        }
    }
}

/// The caches that were found.
#[derive(Debug)]
pub struct CacheSummary {
    pub candidates: Vec<CacheCandidate>,
}

/// The total size of the caches.
pub open spec fn cache_size_sum(cs: Seq<CacheCandidate>) -> nat
    decreases cs.len(),
{
    if cs.len() == 0 {
        0
    } else {
        cache_size_sum(cs.drop_last()) + cs.last().size_bytes as nat
    }
}

proof fn lemma_cache_size_sum_prefix(cs: Seq<CacheCandidate>, i: int)
    requires
        0 <= i <= cs.len(),
    ensures
        cache_size_sum(cs.take(i)) <= cache_size_sum(cs),
    decreases cs.len() - i,
{
    if i < cs.len() {
        lemma_cache_size_sum_prefix(cs, i + 1);
        assert(cs.take(i + 1).drop_last() =~= cs.take(i));
    } else {
        assert(cs.take(i) =~= cs);
    }
}

/// Caches are listed as a year old, so that any age preset counts them.
pub open spec fn cache_age_secs() -> nat {
    365 * 86_400
}

/// The time caches are said to have been last used, as seen at `now`: a year
/// before `now`, or the Unix epoch when that cannot be represented.
pub open spec fn cache_modified(now: Timestamp, t: Timestamp) -> bool {
    let year = cache_age_secs() * crate::time::nanos_per_sec();
    t.wf() && if now.total() - year >= (i64::MIN as int) * crate::time::nanos_per_sec() {
        t.total() == now.total() - year
    } else {
        t.total() == 0
    }
}

/// The dependency folder a cache is listed as, with `modified` as the time it
/// was last used.
pub open spec fn cache_folder(c: CacheCandidate, modified: Timestamp) -> DependencyFolder {
    DependencyFolder {
        path: c.path,
        project_path: c.path,
        kind: cache_kind(c.manager),
        size_bytes: c.size_bytes,
        project_modified: modified,
        age: TimeSpan { secs: cache_age_secs() as u64, nanos: 0 },
    }
}

impl CacheSummary {
    /// The total size of all caches.
    pub fn total_size(&self) -> (r: u64)
        requires
            cache_size_sum(self.candidates@) <= u64::MAX,
        ensures
            r == cache_size_sum(self.candidates@),
    {
        let mut acc: u64 = 0;
        let mut i: usize = 0;
        while i < self.candidates.len()
            invariant
                0 <= i <= self.candidates.len(),
                cache_size_sum(self.candidates@) <= u64::MAX,
                acc == cache_size_sum(self.candidates@.take(i as int)),
            decreases self.candidates.len() - i,
        {
            proof {
                assert(self.candidates@.take(i + 1).drop_last() =~= self.candidates@.take(i as int));
                lemma_cache_size_sum_prefix(self.candidates@, i + 1);
            }
            acc = acc + self.candidates[i].size_bytes;
            i = i + 1;
        }
        assert(self.candidates@.take(self.candidates.len() as int) =~= self.candidates@);
        acc
    }

    /// The caches as a scan seen at `now`: each cache is its own root, and a
    /// dependency folder of its manager's cache kind, a year old.
    pub fn to_scan_summary_at(&self, now: Timestamp) -> (r: ScanSummary)
        requires
            now.wf(),
        ensures
            r.roots@.len() == self.candidates@.len(),
            r.folders@.len() == self.candidates@.len(),
            forall|k: int| 0 <= k < r.roots@.len() ==> #[trigger] r.roots@[k]@ == self.candidates@[k].path@,
            exists|modified: Timestamp|
                cache_modified(now, modified) && forall|k: int|
                    0 <= k < r.folders@.len() ==> #[trigger] r.folders@[k] == cache_folder(
                        self.candidates@[k],
                        modified,
                    ),
    {
        let age = TimeSpan::from_secs(365 * 86_400);
        let modified = match now.checked_sub(&age) {
            Some(t) => t,
            None => Timestamp::epoch(),
        };
        assert(age.total() == cache_age_secs() * crate::time::nanos_per_sec());
        assert(cache_modified(now, modified));
        let mut roots: Vec<String> = Vec::new();
        let mut folders: Vec<DependencyFolder> = Vec::new();
        let mut i: usize = 0;
        while i < self.candidates.len()
            invariant
                0 <= i <= self.candidates.len(),
                roots@.len() == i,
                folders@.len() == i,
                age == (TimeSpan { secs: cache_age_secs() as u64, nanos: 0 }),
                forall|k: int| 0 <= k < i ==> #[trigger] roots@[k]@ == self.candidates@[k].path@,
                forall|k: int| 0 <= k < i ==> #[trigger] folders@[k] == cache_folder(self.candidates@[k], modified),
            decreases self.candidates.len() - i,
        {
            let c = &self.candidates[i];
            roots.push(c.path.clone());
            folders.push(
                DependencyFolder {
                    path: c.path.clone(),
                    project_path: c.path.clone(),
                    kind: c.manager.dependency_kind(),
                    size_bytes: c.size_bytes,
                    project_modified: modified,
                    age,
                },
            );
            i = i + 1;
        }
        assert(forall|k: int| 0 <= k < folders@.len() ==> #[trigger] folders@[k] == cache_folder(self.candidates@[k], modified));
        ScanSummary { roots, folders }
    }

    /// The caches as a scan seen now.
    pub fn to_scan_summary(&self) -> (r: ScanSummary)
        ensures
            r.roots@.len() == self.candidates@.len(),
            r.folders@.len() == self.candidates@.len(),
            forall|k: int| 0 <= k < r.roots@.len() ==> #[trigger] r.roots@[k]@ == self.candidates@[k].path@,
            exists|now: Timestamp, modified: Timestamp|
                now.wf() && cache_modified(now, modified) && forall|k: int|
                    0 <= k < r.folders@.len() ==> #[trigger] r.folders@[k] == cache_folder(
                        self.candidates@[k],
                        modified,
                    ),
    {
        let now = crate::time::now();
        self.to_scan_summary_at(now)
    }
}

/// Gathers the caches that were found into a summary: largest first, equal
/// sizes by path, and otherwise in the order found.
pub fn summarize_caches(found: Vec<CacheCandidate>) -> (r: CacheSummary)
    ensures
        exists|order: Seq<usize>| is_stable_order(found@, order) && r.candidates@ == arranged(found@, order),
{
    let order = stable_order(&found);
    let mut sorted: Vec<CacheCandidate> = Vec::new();
    let mut i: usize = 0;
    while i < order.len()
        invariant
            0 <= i <= order.len(),
            is_stable_order(found@, order@),
            sorted@ == arranged(found@, order@.take(i as int)),
        decreases order.len() - i,
    {
        let c = found[order[i]].duplicate();
        sorted.push(c);
        i = i + 1;
        assert(sorted@ =~= arranged(found@, order@.take(i as int)));
    }
    assert(order@.take(order.len() as int) =~= order@);
    CacheSummary { candidates: sorted }
}

/// A place where a cache may be: its manager and its path.
#[derive(Debug)]
pub struct CacheLocation {
    pub manager: CacheManager,
    pub path: String,
}

/// Locations are ordered by manager, then by path.
impl SortKey for CacheLocation {
    open spec fn key_lt(self, other: Self) -> bool {
        manager_rank(self.manager) < manager_rank(other.manager) || (self.manager == other.manager
            && path::path_lt(self.path@, other.path@))
    }

    proof fn lemma_irreflexive(a: Self) {
        path::lemma_lex2_irreflexive(path::path_key(a.path@));
    }

    proof fn lemma_transitive(a: Self, b: Self, c: Self) {
        if a.manager == b.manager && b.manager == c.manager {
            path::lemma_lex2_transitive(path::path_key(a.path@), path::path_key(b.path@), path::path_key(c.path@));
        }
    }

    proof fn lemma_tie_transitive(a: Self, b: Self, c: Self) {
        path::lemma_lex2_total(path::path_key(a.path@), path::path_key(b.path@));
        path::lemma_lex2_total(path::path_key(b.path@), path::path_key(c.path@));
        path::lemma_lex2_irreflexive(path::path_key(a.path@));
    }

    fn sorts_before(&self, other: &Self) -> (r: bool) {
        if self.manager != other.manager {
            self.manager == CacheManager::Npm
        } else {
            path_compare(self.path.as_str(), other.path.as_str()) == Some(true)
        }
    }
}

/// Two locations name the same manager and the same path.
pub open spec fn same_location(a: CacheLocation, b: CacheLocation) -> bool {
    a.manager == b.manager && path::path_eq(a.path@, b.path@)
}

/// The locations with each run of equal neighbours reduced to its first.
pub open spec fn dedup_locations(s: Seq<CacheLocation>) -> Seq<CacheLocation>
    decreases s.len(),
{
    if s.len() == 0 {
        Seq::empty()
    } else {
        let prev = dedup_locations(s.drop_last());
        if prev.len() > 0 && same_location(prev.last(), s.last()) {
            prev
        } else {
            prev.push(s.last())
        }
    }
}

/// The (manager, path) pairs of a list of locations.
pub open spec fn location_pairs(s: Seq<CacheLocation>) -> Seq<(CacheManager, Seq<char>)> {
    s.map_values(|l: CacheLocation| (l.manager, l.path@))
}

/// Where caches are looked for: npm's configured cache when one is set, then,
/// under the home directory when it is known, `.npm`, `.cache/pip` and
/// `Library/Caches/pip`.
pub open spec fn cache_locations(npm_config_cache: Option<Seq<char>>, home: Option<Seq<char>>) -> Seq<
    (CacheManager, Seq<char>),
> {
    let configured: Seq<(CacheManager, Seq<char>)> = match npm_config_cache {
        Some(c) => seq![(CacheManager::Npm, c)],
        None => Seq::empty(),
    };
    let under_home: Seq<(CacheManager, Seq<char>)> = match home {
        Some(h) => seq![
            (CacheManager::Npm, path::join(h, ".npm"@)),
            (CacheManager::Pip, path::join(h, ".cache/pip"@)),
            (CacheManager::Pip, path::join(h, "Library/Caches/pip"@)),
        ],
        None => Seq::empty(),
    };
    configured + under_home
}

/// The text of an optional setting.
pub open spec fn opt_text(o: Option<String>) -> Option<Seq<char>> {
    match o {
        Some(s) => Some(s@),
        None => None,
    }
}

fn push_location(out: &mut Vec<CacheLocation>, manager: CacheManager, path: String)
    ensures
        final(out)@ == old(out)@.push(CacheLocation { manager, path }),
{
    out.push(CacheLocation { manager, path });
}

/// The places to look for caches, given the `npm_config_cache` and `HOME`
/// settings: sorted by manager and path, with repeated places dropped.
pub fn candidate_paths(npm_config_cache: Option<String>, home: Option<String>) -> (r: Vec<CacheLocation>)
    ensures
        exists|raw: Seq<CacheLocation>, order: Seq<usize>|
            location_pairs(raw) == cache_locations(opt_text(npm_config_cache), opt_text(home))
                && is_stable_order(raw, order) && r@ == dedup_locations(arranged(raw, order)),
{
    let mut raw: Vec<CacheLocation> = Vec::new();
    let ghost npm_view = opt_text(npm_config_cache);
    let ghost home_view = opt_text(home);
    match npm_config_cache {
        Some(c) => push_location(&mut raw, CacheManager::Npm, c),
        None => {},
    }
    let ghost after_npm = raw@;
    match home {
        Some(h) => {
            let npm = join_path(h.as_str(), ".npm");
            let pip = join_path(h.as_str(), ".cache/pip");
            let mac_pip = join_path(h.as_str(), "Library/Caches/pip");
            push_location(&mut raw, CacheManager::Npm, npm);
            push_location(&mut raw, CacheManager::Pip, pip);
            push_location(&mut raw, CacheManager::Pip, mac_pip);
        },
        None => {},
    }
    assert(location_pairs(raw@) =~= cache_locations(npm_view, home_view));
    let order = stable_order(&raw);
    let mut out: Vec<CacheLocation> = Vec::new();
    let mut i: usize = 0;
    while i < order.len()
        invariant
            0 <= i <= order.len(),
            is_stable_order(raw@, order@),
            out@ == dedup_locations(arranged(raw@, order@.take(i as int))),
        decreases order.len() - i,
    {
        let next = &raw[order[i]];
        let ghost prefix = arranged(raw@, order@.take(i as int));
        proof {
            assert(arranged(raw@, order@.take(i + 1)).drop_last() =~= prefix);
            assert(arranged(raw@, order@.take(i + 1)).last() == *next);
        }
        let repeated = out.len() > 0 && out[out.len() - 1].manager == next.manager && paths_equal(
            out[out.len() - 1].path.as_str(),
            next.path.as_str(),
        );
        if !repeated {
            out.push(CacheLocation { manager: next.manager, path: next.path.clone() });
        }
        i = i + 1;
    }
    assert(order@.take(order.len() as int) =~= order@);
    out
}

} // verus!
