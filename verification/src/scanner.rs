//! Dependency folders: what counts as one, which project owns it, how a scan
//! walks a root, and the totals a scan yields.
use vstd::prelude::*;
use vstd::string::*;

use crate::age::AgeThreshold;
use crate::ignore::IgnoreRules;
use crate::path;
use crate::path::{file_name_of, path_compare, paths_equal};
use crate::sort::{is_stable_order, stable_order, SortKey};
use crate::text;
use crate::text::{chars_of, contains_str, has_char, lines_of, slice_chars, starts_with_str, trimmed};
use crate::time::{TimeSpan, Timestamp};

verus! {

/// The ecosystem a dependency folder belongs to.
#[derive(Debug, Clone, Copy, PartialEq, Eq, Structural)]
pub enum DependencyKind {
    Node,
    Python,
    NpmCache,
    PipCache,
}

pub open spec fn kind_label(kind: DependencyKind) -> Seq<char> {
    match kind {
        DependencyKind::Node => "node"@,
        DependencyKind::Python => "python"@,
        DependencyKind::NpmCache => "npm-cache"@,
        DependencyKind::PipCache => "pip-cache"@,
    }
}

impl DependencyKind {
    pub fn label(self) -> (r: &'static str)
        ensures
            r@ == kind_label(self),
    {
        match self {
            DependencyKind::Node => "node",
            DependencyKind::Python => "python",
            DependencyKind::NpmCache => "npm-cache",
            DependencyKind::PipCache => "pip-cache",
        }
    }
}

/// A dependency folder found in a project.
#[derive(Debug)]
pub struct DependencyFolder {
    pub path: String,
    pub project_path: String,
    pub kind: DependencyKind,
    pub size_bytes: u64,
    pub project_modified: Timestamp,
    pub age: TimeSpan,
}

/// The project has gone untouched for at least the threshold.
pub open spec fn older_than(f: DependencyFolder, t: AgeThreshold) -> bool {
    f.age.secs >= t.day_count() * crate::age::seconds_per_day()
}

/// A threshold can be compared with the ages of these folders (it is only turned
/// into seconds when there is a folder to compare).
pub open spec fn threshold_usable(folders: Seq<DependencyFolder>, t: AgeThreshold) -> bool {
    folders.len() == 0 || t.wf()
}

/// The folders, in order, whose projects are older than the threshold.
pub open spec fn selected(folders: Seq<DependencyFolder>, t: AgeThreshold) -> Seq<DependencyFolder>
    decreases folders.len(),
{
    if folders.len() == 0 {
        Seq::empty()
    } else {
        let prev = selected(folders.drop_last(), t);
        if older_than(folders.last(), t) {
            prev.push(folders.last())
        } else {
            prev
        }
    }
}

/// The total size of the folders.
pub open spec fn size_sum(folders: Seq<DependencyFolder>) -> nat
    decreases folders.len(),
{
    if folders.len() == 0 {
        0
    } else {
        size_sum(folders.drop_last()) + folders.last().size_bytes as nat
    }
}

pub proof fn lemma_size_sum_prefix(folders: Seq<DependencyFolder>, i: int)
    requires
        0 <= i <= folders.len(),
    ensures
        size_sum(folders.take(i)) <= size_sum(folders),
    decreases folders.len() - i,
{
    if i < folders.len() {
        lemma_size_sum_prefix(folders, i + 1);
        assert(folders.take(i + 1).drop_last() =~= folders.take(i));
    } else {
        assert(folders.take(i) =~= folders);
    }
}

/// The selected folders never weigh more than all of them.
pub proof fn lemma_selected_sum(folders: Seq<DependencyFolder>, t: AgeThreshold)
    ensures
        size_sum(selected(folders, t)) <= size_sum(folders),
        selected(folders, t).len() <= folders.len(),
    decreases folders.len(),
{
    if folders.len() > 0 {
        lemma_selected_sum(folders.drop_last(), t);
        lemma_selected_step(folders, t);
    }
}

pub proof fn lemma_selected_step(folders: Seq<DependencyFolder>, t: AgeThreshold)
    requires
        folders.len() > 0,
    ensures
        older_than(folders.last(), t) ==> size_sum(selected(folders, t)) == size_sum(selected(folders.drop_last(), t))
            + folders.last().size_bytes,
        !older_than(folders.last(), t) ==> size_sum(selected(folders, t)) == size_sum(selected(folders.drop_last(), t)),
        size_sum(folders) == size_sum(folders.drop_last()) + folders.last().size_bytes,
{
    let prev = selected(folders.drop_last(), t);
    if older_than(folders.last(), t) {
        assert(prev.push(folders.last()).drop_last() =~= prev);
    }
}

/// Every folder of the selection is older than the threshold, and only those are left out.
pub proof fn lemma_selected_members(folders: Seq<DependencyFolder>, t: AgeThreshold)
    ensures
        forall|k: int| 0 <= k < selected(folders, t).len() ==> older_than(#[trigger] selected(folders, t)[k], t),
        forall|k: int| 0 <= k < folders.len() && older_than(#[trigger] folders[k], t)
            ==> selected(folders, t).contains(folders[k]),
    decreases folders.len(),
{
    if folders.len() > 0 {
        let d = folders.drop_last();
        lemma_selected_members(d, t);
        let s = selected(folders, t);
        let ps = selected(d, t);
        assert forall|k: int| 0 <= k < s.len() implies older_than(#[trigger] s[k], t) by {
            if k < ps.len() {
                assert(s[k] == ps[k]);
            }
        }
        assert forall|k: int| 0 <= k < folders.len() && older_than(#[trigger] folders[k], t) implies s.contains(folders[k]) by {
            if k < d.len() {
                assert(folders[k] == d[k]);
                let j = choose|j: int| 0 <= j < ps.len() && ps[j] == d[k];
                assert(s[j] == ps[j]);
            } else {
                assert(s[s.len() - 1] == folders[k]);
            }
        }
    }
}

/// Raising the threshold never grows the reclaimable total.
pub proof fn lemma_selected_sum_monotone(folders: Seq<DependencyFolder>, t1: AgeThreshold, t2: AgeThreshold)
    requires
        t1.day_count() <= t2.day_count(),
    ensures
        size_sum(selected(folders, t2)) <= size_sum(selected(folders, t1)),
        selected(folders, t2).len() <= selected(folders, t1).len(),
    decreases folders.len(),
{
    if folders.len() > 0 {
        lemma_selected_sum_monotone(folders.drop_last(), t1, t2);
        lemma_selected_step(folders, t1);
        lemma_selected_step(folders, t2);
        let f = folders.last();
        assert(t1.day_count() * crate::age::seconds_per_day() <= t2.day_count() * crate::age::seconds_per_day())
            by (nonlinear_arith)
            requires
                t1.day_count() <= t2.day_count(),
        ;
    }
}

impl DependencyFolder {
    /// A copy of the folder.
    pub fn duplicate(&self) -> (r: DependencyFolder)
        ensures
            r == *self,
    {
        DependencyFolder {
            path: self.path.clone(),
            project_path: self.project_path.clone(),
            kind: self.kind,
            size_bytes: self.size_bytes,
            project_modified: self.project_modified,
            age: self.age,
        }
    }

    /// Whether the project has gone untouched for at least `threshold`.
    pub fn is_older_than(&self, threshold: AgeThreshold) -> (r: bool)
        requires
            threshold.wf(),
        ensures
            r == older_than(*self, threshold),
    {
        let limit = threshold.as_duration();
        self.age.at_least(&limit)
    }
}

/// Dependency folders are ordered largest first, then by path.
impl SortKey for DependencyFolder {
    open spec fn key_lt(self, other: Self) -> bool {
        self.size_bytes > other.size_bytes || (self.size_bytes == other.size_bytes && path::path_lt(
            self.path@,
            other.path@,
        ))
    }

    proof fn lemma_irreflexive(a: Self) {
        path::lemma_lex2_irreflexive(path::path_key(a.path@));
    }

    proof fn lemma_transitive(a: Self, b: Self, c: Self) {
        if a.size_bytes == b.size_bytes && b.size_bytes == c.size_bytes {
            path::lemma_lex2_transitive(path::path_key(a.path@), path::path_key(b.path@), path::path_key(c.path@));
        }
    }

    proof fn lemma_tie_transitive(a: Self, b: Self, c: Self) {
        path::lemma_lex2_total(path::path_key(a.path@), path::path_key(b.path@));
        path::lemma_lex2_total(path::path_key(b.path@), path::path_key(c.path@));
        path::lemma_lex2_irreflexive(path::path_key(a.path@));
    }

    fn sorts_before(&self, other: &Self) -> (r: bool) {
        if self.size_bytes != other.size_bytes {
            self.size_bytes > other.size_bytes
        } else {
            path_compare(self.path.as_str(), other.path.as_str()) == Some(true)
        }
    }
}

/// The result of scanning roots for dependency folders.
#[derive(Debug)]
pub struct ScanSummary {
    pub roots: Vec<String>,
    pub folders: Vec<DependencyFolder>,
}

impl ScanSummary {
    /// The folders whose projects are older than `threshold`, in scan order.
    pub fn selected_for(&self, threshold: AgeThreshold) -> (r: Vec<&DependencyFolder>)
        requires
            threshold_usable(self.folders@, threshold),
        ensures
            r@.map_values(|f: &DependencyFolder| *f) == selected(self.folders@, threshold),
    {
        let mut r: Vec<&DependencyFolder> = Vec::new();
        let mut i: usize = 0;
        while i < self.folders.len()
            invariant
                0 <= i <= self.folders.len(),
                threshold_usable(self.folders@, threshold),
                r@.map_values(|f: &DependencyFolder| *f) == selected(self.folders@.take(i as int), threshold),
            decreases self.folders.len() - i,
        {
            let f = &self.folders[i];
            proof {
                assert(self.folders@.take(i + 1).drop_last() =~= self.folders@.take(i as int));
            }
            if f.is_older_than(threshold) {
                let ghost before = r@;
                r.push(f);
                proof {
                    assert(r@.map_values(|f: &DependencyFolder| *f) =~= before.map_values(
                        |f: &DependencyFolder| *f,
                    ).push(*f));
                }
            }
            i = i + 1;
        }
        assert(self.folders@.take(self.folders.len() as int) =~= self.folders@);
        r
    }

    /// The total size of all folders.
    pub fn total_size(&self) -> (r: u64)
        requires
            size_sum(self.folders@) <= u64::MAX,
        ensures
            r == size_sum(self.folders@),
    {
        total_of(&self.folders)
    }

    /// The total size of the folders whose projects are older than `threshold`.
    pub fn total_for(&self, threshold: AgeThreshold) -> (r: u64)
        requires
            size_sum(self.folders@) <= u64::MAX,
            threshold_usable(self.folders@, threshold),
        ensures
            r == size_sum(selected(self.folders@, threshold)),
    {
        proof {
            lemma_selected_sum(self.folders@, threshold);
        }
        let mut acc: u64 = 0;
        let mut i: usize = 0;
        while i < self.folders.len()
            invariant
                0 <= i <= self.folders.len(),
                threshold_usable(self.folders@, threshold),
                size_sum(self.folders@) <= u64::MAX,
                acc == size_sum(selected(self.folders@.take(i as int), threshold)),
            decreases self.folders.len() - i,
        {
            let f = &self.folders[i];
            proof {
                assert(self.folders@.take(i + 1).drop_last() =~= self.folders@.take(i as int));
                lemma_selected_sum(self.folders@.take(i + 1), threshold);
                lemma_selected_step(self.folders@.take(i + 1), threshold);
                lemma_size_sum_prefix(self.folders@, i + 1);
            }
            if f.is_older_than(threshold) {
                acc = acc + f.size_bytes;
            }
            i = i + 1;
        }
        assert(self.folders@.take(self.folders.len() as int) =~= self.folders@);
        acc
    }
}

/// The total size of `folders`.
pub fn total_of(folders: &Vec<DependencyFolder>) -> (r: u64)
    requires
        size_sum(folders@) <= u64::MAX,
    ensures
        r == size_sum(folders@),
{
    let mut acc: u64 = 0;
    let mut i: usize = 0;
    while i < folders.len()
        invariant
            0 <= i <= folders.len(),
            size_sum(folders@) <= u64::MAX,
            acc == size_sum(folders@.take(i as int)),
        decreases folders.len() - i,
    {
        proof {
            assert(folders@.take(i + 1).drop_last() =~= folders@.take(i as int));
            lemma_size_sum_prefix(folders@, i + 1);
        }
        acc = acc + folders[i].size_bytes;
        i = i + 1;
    }
    assert(folders@.take(folders.len() as int) =~= folders@);
    acc
}

/// Settings of a scan.
#[derive(Debug, Clone, Copy)]
pub struct ScanOptions {
    pub now: Timestamp,
    pub use_nukedignore: bool,
}

impl Default for ScanOptions {
    fn default() -> (r: Self)
        ensures
            r.use_nukedignore,
            r.now.wf(),
    {
        ScanOptions { now: crate::time::now(), use_nukedignore: true }
    }
}

// ---------------------------------------------------------------------------
// What is a dependency folder, and whose.
// ---------------------------------------------------------------------------

/// Folder names that hold Python environments.
pub open spec fn is_env_name(name: Seq<char>) -> bool {
    name == ".venv"@ || name == "venv"@ || name == ".env"@ || name == "env"@ || name == "virtualenv"@
        || name == ".virtualenv"@
}

/// The kind of dependency folder a folder name marks.
pub open spec fn kind_of_name(name: Seq<char>) -> Option<DependencyKind> {
    if name == "node_modules"@ {
        Some(DependencyKind::Node)
    } else if is_env_name(name) {
        Some(DependencyKind::Python)
    } else {
        None
    }
}

/// The kind of dependency folder at `path`, judged by its final name.
pub open spec fn dependency_kind_of(p: Seq<char>) -> Option<DependencyKind> {
    match path::file_name(p) {
        Some(name) => kind_of_name(name),
        None => None,
    }
}

/// Which folder names mark a dependency folder: `node_modules` is a Node folder;
/// `.venv`, `venv`, `.env`, `env`, `virtualenv` and `.virtualenv` are Python
/// environments; a folder of any other final name is neither.
pub proof fn lemma_dependency_names(p: Seq<char>, name: Seq<char>)
    requires
        path::file_name(p) == Some(name),
    ensures
        name == "node_modules"@ ==> dependency_kind_of(p) == Some(DependencyKind::Node),
        name == ".venv"@ || name == "venv"@ || name == ".env"@ || name == "env"@ || name == "virtualenv"@
            || name == ".virtualenv"@ ==> dependency_kind_of(p) == Some(DependencyKind::Python),
        !(name == "node_modules"@ || name == ".venv"@ || name == "venv"@ || name == ".env"@ || name == "env"@
            || name == "virtualenv"@ || name == ".virtualenv"@) ==> dependency_kind_of(p) is None,
{
    reveal_strlit("node_modules");
    reveal_strlit(".venv");
    reveal_strlit("venv");
    reveal_strlit(".env");
    reveal_strlit("env");
    reveal_strlit("virtualenv");
    reveal_strlit(".virtualenv");
    assert("node_modules"@.len() == 12);
    assert(".venv"@.len() == 5 && "venv"@.len() == 4 && ".env"@.len() == 4 && "env"@.len() == 3);
    assert("virtualenv"@.len() == 10 && ".virtualenv"@.len() == 11);
}

/// A folder called `venv` (or any other environment name) in any directory is a
/// Python environment, and one called `node_modules` is a Node folder.
pub proof fn lemma_dependency_folder_in_any_directory(base: Seq<char>)
    ensures
        dependency_kind_of(path::join(base, "node_modules"@)) == Some(DependencyKind::Node),
        dependency_kind_of(path::join(base, ".venv"@)) == Some(DependencyKind::Python),
        dependency_kind_of(path::join(base, "venv"@)) == Some(DependencyKind::Python),
        dependency_kind_of(path::join(base, ".env"@)) == Some(DependencyKind::Python),
        dependency_kind_of(path::join(base, "env"@)) == Some(DependencyKind::Python),
        dependency_kind_of(path::join(base, "virtualenv"@)) == Some(DependencyKind::Python),
        dependency_kind_of(path::join(base, ".virtualenv"@)) == Some(DependencyKind::Python),
{
    reveal_strlit("node_modules");
    reveal_strlit(".venv");
    reveal_strlit("venv");
    reveal_strlit(".env");
    reveal_strlit("env");
    reveal_strlit("virtualenv");
    reveal_strlit(".virtualenv");
    let names = seq!["node_modules"@, ".venv"@, "venv"@, ".env"@, "env"@, "virtualenv"@, ".virtualenv"@];
    assert forall|i: int| 0 <= i < names.len() implies path::file_name(path::join(base, #[trigger] names[i])) == Some(
        names[i],
    ) by {
        let w = names[i];
        assert(!w.contains('/')) by {
            if w.contains('/') {
                let k = choose|k: int| 0 <= k < w.len() && w[k] == '/';
                assert(w[k] != '/');
            }
        }
        path::lemma_join_file_name(base, w);
    }
    assert(names[0] == "node_modules"@);
    assert(names[1] == ".venv"@);
    assert(names[2] == "venv"@);
    assert(names[3] == ".env"@);
    assert(names[4] == "env"@);
    assert(names[5] == "virtualenv"@);
    assert(names[6] == ".virtualenv"@);
}

fn is_env_name_exec(name: &Vec<char>) -> (r: bool)
    ensures
        r == is_env_name(name@),
{
    text::chars_equal(name, ".venv") || text::chars_equal(name, "venv") || text::chars_equal(name, ".env")
        || text::chars_equal(name, "env") || text::chars_equal(name, "virtualenv")
        || text::chars_equal(name, ".virtualenv")
}

/// The kind of dependency folder at `path`, if its name marks one.
pub fn dependency_kind(p: &str) -> (r: Option<DependencyKind>)
    ensures
        r == dependency_kind_of(p@),
{
    match file_name_of(p) {
        None => None,
        Some(name) => {
            if text::chars_equal(&name, "node_modules") {
                Some(DependencyKind::Node)
            } else if is_env_name_exec(&name) {
                Some(DependencyKind::Python)
            } else {
                None
            }
        },
    }
}

/// Files whose presence marks a Node project.
pub open spec fn node_markers() -> Seq<Seq<char>> {
    seq!["package.json"@, "package-lock.json"@, "pnpm-lock.yaml"@, "yarn.lock"@]
}

/// Files whose presence marks a Python project.
pub open spec fn python_markers() -> Seq<Seq<char>> {
    seq!["pyproject.toml"@, "setup.py"@, "setup.cfg"@, "Pipfile"@, "poetry.lock"@]
}

/// Files that may list Python requirements.
pub open spec fn requirement_file_names() -> Seq<Seq<char>> {
    seq![
        "requirements.txt"@,
        "requirements-dev.txt"@,
        "requirements-test.txt"@,
        "req.txt"@,
        "reqs.txt"@,
        "r.txt"@,
        "deps.txt"@,
        "dependencies.txt"@,
    ]
}

/// Names of project files whose presence the scan checks.
pub fn probe_files() -> (r: Vec<String>)
    ensures
        r@.map_values(|s: String| s@) == node_markers() + python_markers(),
{
    let names = [
        "package.json",
        "package-lock.json",
        "pnpm-lock.yaml",
        "yarn.lock",
        "pyproject.toml",
        "setup.py",
        "setup.cfg",
        "Pipfile",
        "poetry.lock",
    ];
    let mut r: Vec<String> = Vec::new();
    let mut i: usize = 0;
    while i < 9
        invariant
            0 <= i <= 9,
            names@ == seq![
                "package.json",
                "package-lock.json",
                "pnpm-lock.yaml",
                "yarn.lock",
                "pyproject.toml",
                "setup.py",
                "setup.cfg",
                "Pipfile",
                "poetry.lock",
            ],
            r@.len() == i,
            forall|k: int| 0 <= k < i ==> (#[trigger] r@[k])@ == names@[k]@,
        decreases 9 - i,
    {
        r.push(String::from_str(names[i]));
        i = i + 1;
    }
    assert(r@.map_values(|s: String| s@) =~= node_markers() + python_markers());
    r
}

/// Names of the files that may list Python requirements, in the order they are consulted.
pub fn requirement_files() -> (r: Vec<String>)
    ensures
        r@.map_values(|s: String| s@) == requirement_file_names(),
{
    let names = [
        "requirements.txt",
        "requirements-dev.txt",
        "requirements-test.txt",
        "req.txt",
        "reqs.txt",
        "r.txt",
        "deps.txt",
        "dependencies.txt",
    ];
    let mut r: Vec<String> = Vec::new();
    let mut i: usize = 0;
    while i < 8
        invariant
            0 <= i <= 8,
            names@ == seq![
                "requirements.txt",
                "requirements-dev.txt",
                "requirements-test.txt",
                "req.txt",
                "reqs.txt",
                "r.txt",
                "deps.txt",
                "dependencies.txt",
            ],
            r@.len() == i,
            forall|k: int| 0 <= k < i ==> (#[trigger] r@[k])@ == names@[k]@,
        decreases 8 - i,
    {
        r.push(String::from_str(names[i]));
        i = i + 1;
    }
    assert(r@.map_values(|s: String| s@) =~= requirement_file_names());
    r
}

/// Some name of `names` is one of `files`.
pub open spec fn has_any(files: Seq<String>, names: Seq<Seq<char>>) -> bool {
    exists|i: int, j: int| 0 <= i < files.len() && 0 <= j < names.len() && (#[trigger] files[i])@ == #[trigger] names[j]
}

/// The project at a path is a project of the kind, given which of the probed
/// files exist there (`present`) and the texts of its readable requirement files.
pub open spec fn is_project(kind: DependencyKind, present: Seq<String>, requirement_texts: Seq<String>) -> bool {
    match kind {
        DependencyKind::Node => has_any(present, node_markers()),
        DependencyKind::Python => has_any(present, python_markers()) || has_requirement_signal_spec(
            requirement_texts,
        ),
        DependencyKind::NpmCache | DependencyKind::PipCache => true,
    }
}

/// Some requirements text looks like a requirements list.
pub open spec fn has_requirement_signal_spec(texts: Seq<String>) -> bool {
    exists|i: int| 0 <= i < texts.len() && looks_like_requirements(#[trigger] texts[i]@)
}

fn has_any_exec(files: &Vec<String>, names: &[&str]) -> (r: bool)
    ensures
        r == exists|i: int, j: int|
            0 <= i < files@.len() && 0 <= j < names@.len() && (#[trigger] files@[i])@ == (#[trigger] names@[j])@,
{
    let mut i: usize = 0;
    while i < files.len()
        invariant
            0 <= i <= files.len(),
            forall|a: int, b: int| 0 <= a < i && 0 <= b < names@.len() ==> (#[trigger] files@[a])@ != (#[trigger] names@[b])@,
        decreases files.len() - i,
    {
        let mut j: usize = 0;
        while j < names.len()
            invariant
                0 <= i < files.len(),
                0 <= j <= names@.len(),
                forall|a: int, b: int| 0 <= a < i && 0 <= b < names@.len() ==> (#[trigger] files@[a])@ != (#[trigger] names@[b])@,
                forall|b: int| 0 <= b < j ==> files@[i as int]@ != (#[trigger] names@[b])@,
            decreases names@.len() - j,
        {
            let f = chars_of(files[i].as_str());
            if text::chars_equal(&f, names[j]) {
                return true;
            }
            j = j + 1;
        }
        i = i + 1;
    }
    false
}

/// Whether the folder at `project` is a project of `kind`, given which of the
/// probed files exist there and the texts of its readable requirement files.
pub fn is_project_for_kind(kind: DependencyKind, present: &Vec<String>, requirement_texts: &Vec<String>) -> (r: bool)
    ensures
        r == is_project(kind, present@, requirement_texts@),
{
    match kind {
        DependencyKind::Node => {
            let names = ["package.json", "package-lock.json", "pnpm-lock.yaml", "yarn.lock"];
            let r = has_any_exec(present, &names);
            proof {
                assert(names@.map_values(|s: &str| s@) =~= node_markers());
                lemma_has_any(present@, names@, node_markers());
            }
            r
        },
        DependencyKind::Python => {
            let names = ["pyproject.toml", "setup.py", "setup.cfg", "Pipfile", "poetry.lock"];
            let marked = has_any_exec(present, &names);
            proof {
                assert(names@.map_values(|s: &str| s@) =~= python_markers());
                lemma_has_any(present@, names@, python_markers());
            }
            if marked {
                return true;
            }
            has_requirement_signal(requirement_texts)
        },
        DependencyKind::NpmCache | DependencyKind::PipCache => true,
    }
}

proof fn lemma_has_any(files: Seq<String>, lits: Seq<&str>, names: Seq<Seq<char>>)
    requires
        lits.map_values(|s: &str| s@) == names,
    ensures
        (exists|i: int, j: int|
            0 <= i < files.len() && 0 <= j < lits.len() && (#[trigger] files[i])@ == (#[trigger] lits[j])@) == has_any(
            files,
            names,
        ),
{
    if has_any(files, names) {
        let (i, j) = choose|i: int, j: int| 0 <= i < files.len() && 0 <= j < names.len() && (#[trigger] files[i])@ == #[trigger] names[j];
        assert(names[j] == lits[j]@);
        assert(0 <= i < files.len() && 0 <= j < lits.len() && files[i]@ == lits[j]@);
    }
    if exists|i: int, j: int| 0 <= i < files.len() && 0 <= j < lits.len() && (#[trigger] files[i])@ == (#[trigger] lits[j])@ {
        let (i, j) = choose|i: int, j: int| 0 <= i < files.len() && 0 <= j < lits.len() && (#[trigger] files[i])@ == (#[trigger] lits[j])@;
        assert(names[j] == lits[j]@);
    }
}

/// Whether any of the texts looks like a list of Python requirements.
pub fn has_requirement_signal(texts: &Vec<String>) -> (r: bool)
    ensures
        r == has_requirement_signal_spec(texts@),
{
    let mut i: usize = 0;
    while i < texts.len()
        invariant
            0 <= i <= texts.len(),
            forall|k: int| 0 <= k < i ==> !looks_like_requirements(#[trigger] texts@[k]@),
        decreases texts.len() - i,
    {
        if looks_like_requirements_file(texts[i].as_str()) {
            return true;
        }
        i = i + 1;
    }
    false
}

/// One of the first sixty lines of the text, trimmed, looks like a requirement.
pub open spec fn looks_like_requirements(content: Seq<char>) -> bool {
    let ls = text::lines(content);
    exists|i: int| 0 <= i < ls.len() && i < 60 && looks_like_requirement(text::trim(#[trigger] ls[i]))
}

/// The part of a requirement line read as a package name: the text before the
/// first `;`, cut again before its first `[`; when that second cut finds no `[`,
/// the whole line is used instead.
pub open spec fn requirement_package(line: Seq<char>) -> Seq<char> {
    let first = match text::first_index_of(line, ';') {
        Some(i) => line.take(i),
        None => line,
    };
    match text::first_index_of(first, '[') {
        Some(i) => first.take(i),
        None => line,
    }
}

/// A character allowed in a package name.
pub open spec fn package_char(c: char) -> bool {
    text::is_ascii_alnum(c) || c == '_' || c == '-' || c == '.'
}

/// A trimmed line looks like a Python requirement: not blank and not a comment,
/// and either it has a version operator or a pip option or a `git+` URL, or its
/// package name is a plain name of at most 80 bytes with a letter and no `..`.
pub open spec fn looks_like_requirement(line: Seq<char>) -> bool {
    if line.len() == 0 || line[0] == '#' {
        false
    } else if text::contains(line, "=="@) || text::contains(line, ">="@) || text::contains(line, "<="@)
        || text::contains(line, "~="@) || text::contains(line, "!="@) || text::starts_with(line, "-r "@)
        || text::starts_with(line, "--index-url"@) || text::starts_with(line, "--extra-index-url"@)
        || text::starts_with(line, "git+"@) {
        true
    } else {
        let p = text::trim(requirement_package(line));
        &&& p.len() > 0
        &&& text::utf8_len(p) <= 80
        &&& forall|k: int| 0 <= k < p.len() ==> package_char(#[trigger] p[k])
        &&& exists|k: int| 0 <= k < p.len() && text::is_ascii_alpha(#[trigger] p[k])
        &&& !text::contains(p, ".."@)
    }
}

proof fn lemma_ascii_utf8_len(s: Seq<char>)
    requires
        forall|k: int| 0 <= k < s.len() ==> package_char(#[trigger] s[k]),
    ensures
        text::utf8_len(s) == s.len(),
    decreases s.len(),
{
    if s.len() > 0 {
        assert forall|k: int| 0 <= k < s.drop_last().len() implies package_char(#[trigger] s.drop_last()[k]) by {
            assert(s.drop_last()[k] == s[k]);
        }
        lemma_ascii_utf8_len(s.drop_last());
        assert(package_char(s[s.len() - 1]));
    }
}

/// Whether a trimmed line looks like a Python requirement.
pub fn looks_like_requirement_line(line: &Vec<char>) -> (r: bool)
    ensures
        r == looks_like_requirement(line@),
{
    if line.len() == 0 || line[0] == '#' {
        return false;
    }
    if contains_str(line, "==") || contains_str(line, ">=") || contains_str(line, "<=") || contains_str(line, "~=")
        || contains_str(line, "!=") || starts_with_str(line, "-r ") || starts_with_str(line, "--index-url")
        || starts_with_str(line, "--extra-index-url") || starts_with_str(line, "git+") {
        return true;
    }
    let first = match text::find_char(line, ';') {
        Some(i) => slice_chars(line, 0, i),
        None => slice_chars(line, 0, line.len()),
    };
    proof {
        assert(line@.subrange(0, line@.len() as int) =~= line@);
    }
    let package = match text::find_char(&first, '[') {
        Some(i) => slice_chars(&first, 0, i),
        None => slice_chars(line, 0, line.len()),
    };
    assert(package@ == requirement_package(line@));
    let p = trimmed(&package);
    if p.len() == 0 {
        return false;
    }
    assert(p@ == text::trim(requirement_package(line@)));
    let mut k: usize = 0;
    while k < p.len()
        invariant
            p@ == text::trim(requirement_package(line@)),
            line@.len() > 0 && line@[0] != '#',
            !(text::contains(line@, "=="@) || text::contains(line@, ">="@) || text::contains(line@, "<="@)
                || text::contains(line@, "~="@) || text::contains(line@, "!="@) || text::starts_with(line@, "-r "@)
                || text::starts_with(line@, "--index-url"@) || text::starts_with(line@, "--extra-index-url"@)
                || text::starts_with(line@, "git+"@)),
            0 <= k <= p.len(),
            forall|j: int| 0 <= j < k ==> package_char(#[trigger] p@[j]),
        decreases p.len() - k,
    {
        let c = p[k];
        let ok = ('0' <= c && c <= '9') || ('a' <= c && c <= 'z') || ('A' <= c && c <= 'Z') || c == '_' || c == '-'
            || c == '.';
        if !ok {
            assert(!package_char(p@[k as int]));
            return false;
        }
        k = k + 1;
    }
    proof {
        lemma_ascii_utf8_len(p@);
    }
    if p.len() > 80 {
        return false;
    }
    let mut alpha = false;
    let mut j: usize = 0;
    while j < p.len()
        invariant
            0 <= j <= p.len(),
            alpha == exists|m: int| 0 <= m < j && text::is_ascii_alpha(#[trigger] p@[m]),
        decreases p.len() - j,
    {
        let c = p[j];
        if ('a' <= c && c <= 'z') || ('A' <= c && c <= 'Z') {
            alpha = true;
        }
        j = j + 1;
    }
    alpha && !contains_str(&p, "..")
}

/// Whether the text looks like a list of Python requirements: one of its first
/// sixty lines, trimmed, looks like a requirement.
pub fn looks_like_requirements_file(content: &str) -> (r: bool)
    ensures
        r == looks_like_requirements(content@),
{
    let chars = chars_of(content);
    let ls = lines_of(&chars);
    let ghost lsv = text::views(ls@);
    let mut i: usize = 0;
    while i < ls.len() && i < 60
        invariant
            0 <= i <= ls.len(),
            lsv == text::views(ls@),
            lsv == text::lines(content@),
            forall|k: int| 0 <= k < i ==> !looks_like_requirement(text::trim(#[trigger] lsv[k])),
        decreases ls.len() - i,
    {
        let t = trimmed(&ls[i]);
        assert(lsv[i as int] == ls@[i as int]@);
        if looks_like_requirement_line(&t) {
            return true;
        }
        i = i + 1;
    }
    false
}

// ---------------------------------------------------------------------------
// Walking a root.
// ---------------------------------------------------------------------------

/// Directory names a scan never descends into.
pub open spec fn is_hidden_noise_name(name: Seq<char>) -> bool {
    name == ".git"@ || name == ".hg"@ || name == ".svn"@ || name == "target"@ || name == ".cache"@
}

/// The name a walk reports for an entry: its final name, or the whole path when it has none.
pub open spec fn entry_name(p: Seq<char>) -> Seq<char> {
    match path::file_name(p) {
        Some(n) => n,
        None => p,
    }
}

/// What a walk does with a directory entry.
#[derive(Debug, Clone, Copy, PartialEq, Eq, Structural)]
pub enum WalkStep {
    /// Look at the entry's children, if any.
    Continue,
    /// Do not descend into the entry.
    SkipDir,
    /// The entry is a dependency folder of this kind; do not descend into it.
    Dependency(DependencyKind),
}

/// What a scan of `root` does with the entry at `p`.
pub open spec fn walk_step(rules: IgnoreRules, root: Seq<char>, p: Seq<char>, is_dir: bool) -> WalkStep {
    if !is_dir {
        WalkStep::Continue
    } else if !path::path_eq(p, root) && (match path::strip_prefix_text(p, root) {
        Some(rel) => crate::ignore::any_glob_matches(rules.patterns(), rel),
        None => false,
    }) {
        WalkStep::SkipDir
    } else if is_hidden_noise_name(entry_name(p)) && !path::path_eq(p, root) {
        WalkStep::SkipDir
    } else {
        match dependency_kind_of(p) {
            Some(kind) => WalkStep::Dependency(kind),
            None => WalkStep::Continue,
        }
    }
}

fn is_hidden_noise(p: &str) -> (r: bool)
    ensures
        r == is_hidden_noise_name(entry_name(p@)),
{
    let name = match file_name_of(p) {
        Some(n) => n,
        None => chars_of(p),
    };
    text::chars_equal(&name, ".git") || text::chars_equal(&name, ".hg") || text::chars_equal(&name, ".svn")
        || text::chars_equal(&name, "target") || text::chars_equal(&name, ".cache")
}

/// Decides what a scan of `root` does with the directory entry at `p`.
pub fn classify_entry(rules: &IgnoreRules, root: &str, p: &str, is_dir: bool) -> (r: WalkStep)
    ensures
        r == walk_step(*rules, root@, p@, is_dir),
{
    if !is_dir {
        return WalkStep::Continue;
    }
    let at_root = paths_equal(p, root);
    if !at_root && rules.is_ignored(root, p) {
        return WalkStep::SkipDir;
    }
    if is_hidden_noise(p) && !at_root {
        return WalkStep::SkipDir;
    }
    match dependency_kind(p) {
        Some(kind) => WalkStep::Dependency(kind),
        None => WalkStep::Continue,
    }
}

/// Records a dependency folder as seen; `false` when it was seen before.
pub fn remember_folder(seen: &mut Vec<String>, canonical: String) -> (r: bool)
    ensures
        r == !(exists|k: int| 0 <= k < old(seen)@.len() && (#[trigger] old(seen)@[k])@ == canonical@),
        r ==> final(seen)@ == old(seen)@.push(canonical),
        !r ==> final(seen)@ == old(seen)@,
{
    let mut i: usize = 0;
    while i < seen.len()
        invariant
            0 <= i <= seen.len(),
            forall|k: int| 0 <= k < i ==> (#[trigger] seen@[k])@ != canonical@,
        decreases seen.len() - i,
    {
        if text::vec_equal(&chars_of(seen[i].as_str()), &chars_of(canonical.as_str())) {
            assert(seen@[i as int]@ == canonical@);
            return false;
        }
        i = i + 1;
    }
    seen.push(canonical);
    true
}

/// Directory names whose contents say nothing about recent work on a project.
pub open spec fn is_noise_dir_name(name: Seq<char>) -> bool {
    name == ".git"@ || name == ".hg"@ || name == ".svn"@ || name == "target"@ || name == "dist"@
        || name == "build"@ || name == ".cache"@ || name == ".next"@ || name == ".nuxt"@ || name == ".vite"@
        || name == ".turbo"@ || name == ".parcel-cache"@ || name == ".pytest_cache"@ || name == "__pycache__"@
        || name == ".mypy_cache"@ || name == ".ruff_cache"@ || name == ".tox"@
}

/// File names whose changes say nothing about recent work on a project.
pub open spec fn is_noise_file_name(name: Seq<char>) -> bool {
    name == ".DS_Store"@ || name == "Thumbs.db"@ || name == ".eslintcache"@
}

/// A directory whose contents do not count as project activity: a dependency
/// folder or a version-control, build or cache directory.
pub open spec fn is_activity_noise_dir(p: Seq<char>) -> bool {
    dependency_kind_of(p) is Some || match path::file_name(p) {
        Some(name) => is_noise_dir_name(name),
        None => false,
    }
}

/// A file whose changes do not count as project activity.
pub open spec fn is_activity_noise_file(p: Seq<char>) -> bool {
    match path::file_name(p) {
        Some(name) => is_noise_file_name(name),
        None => false,
    }
}

/// Whether the directory at `p` does not count as project activity.
pub fn is_project_activity_noise_dir(p: &str) -> (r: bool)
    ensures
        r == is_activity_noise_dir(p@),
{
    if dependency_kind(p).is_some() {
        return true;
    }
    match file_name_of(p) {
        None => false,
        Some(n) => {
            text::chars_equal(&n, ".git") || text::chars_equal(&n, ".hg") || text::chars_equal(&n, ".svn")
                || text::chars_equal(&n, "target") || text::chars_equal(&n, "dist") || text::chars_equal(&n, "build")
                || text::chars_equal(&n, ".cache") || text::chars_equal(&n, ".next") || text::chars_equal(&n, ".nuxt")
                || text::chars_equal(&n, ".vite") || text::chars_equal(&n, ".turbo") || text::chars_equal(
                &n,
                ".parcel-cache",
            ) || text::chars_equal(&n, ".pytest_cache") || text::chars_equal(&n, "__pycache__")
                || text::chars_equal(&n, ".mypy_cache") || text::chars_equal(&n, ".ruff_cache")
                || text::chars_equal(&n, ".tox")
        },
    }
}

/// Whether the file at `p` does not count as project activity.
pub fn is_project_activity_noise_file(p: &str) -> (r: bool)
    ensures
        r == is_activity_noise_file(p@),
{
    match file_name_of(p) {
        None => false,
        Some(n) => text::chars_equal(&n, ".DS_Store") || text::chars_equal(&n, "Thumbs.db") || text::chars_equal(
            &n,
            ".eslintcache",
        ),
    }
}

/// What a walk for recent project activity does with an entry.
#[derive(Debug, Clone, Copy, PartialEq, Eq, Structural)]
pub enum ActivityStep {
    /// Do not descend into the entry and do not count it.
    SkipDir,
    /// Do not count the entry.
    Ignore,
    /// Count the entry's modification time.
    Count,
}

/// What a walk of `project` for recent activity does with the entry at `p`,
/// where `dependency` is the project's dependency folder.
pub open spec fn activity_step(project: Seq<char>, dependency: Seq<char>, p: Seq<char>, is_dir: bool) -> ActivityStep {
    if path::path_eq(p, dependency) {
        ActivityStep::SkipDir
    } else if !path::path_eq(p, project) && is_dir && is_activity_noise_dir(p) {
        ActivityStep::SkipDir
    } else if !path::path_eq(p, project) && is_activity_noise_file(p) {
        ActivityStep::Ignore
    } else if is_dir {
        ActivityStep::Ignore
    } else {
        ActivityStep::Count
    }
}

/// What a walk for a project's recent activity does inside the project (at any
/// entry but the project itself): it never descends into a directory called
/// `.git`, `.hg`, `.svn`, `target`, `dist`, `build`, `.cache`, `.next`, `.nuxt`,
/// `.vite`, `.turbo`, `.parcel-cache`, `.pytest_cache`, `__pycache__`,
/// `.mypy_cache`, `.ruff_cache` or `.tox`, nor into a dependency folder or the
/// project's own dependency folder; it does not count a file called `.DS_Store`,
/// `Thumbs.db` or `.eslintcache`; and it counts every other file.
pub proof fn lemma_activity_noise(project: Seq<char>, dependency: Seq<char>, p: Seq<char>, name: Seq<char>)
    requires
        path::file_name(p) == Some(name),
        !path::path_eq(p, project),
    ensures
        name == ".git"@ || name == ".hg"@ || name == ".svn"@ || name == "target"@ || name == "dist"@
            || name == "build"@ || name == ".cache"@ || name == ".next"@ || name == ".nuxt"@ || name == ".vite"@
            || name == ".turbo"@ || name == ".parcel-cache"@ || name == ".pytest_cache"@ || name == "__pycache__"@
            || name == ".mypy_cache"@ || name == ".ruff_cache"@ || name == ".tox"@ ==> activity_step(
            project,
            dependency,
            p,
            true,
        ) == ActivityStep::SkipDir,
        dependency_kind_of(p) is Some || path::path_eq(p, dependency) ==> activity_step(project, dependency, p, true)
            == ActivityStep::SkipDir,
        !path::path_eq(p, dependency) && (name == ".DS_Store"@ || name == "Thumbs.db"@ || name == ".eslintcache"@)
            ==> activity_step(project, dependency, p, false) == ActivityStep::Ignore,
        !path::path_eq(p, dependency) && !(name == ".DS_Store"@ || name == "Thumbs.db"@ || name == ".eslintcache"@)
            ==> activity_step(project, dependency, p, false) == ActivityStep::Count,
{
}

/// Inside any project, the walk for recent activity never descends into its
/// version-control, build or cache directories, such as `project/.git`.
pub proof fn lemma_activity_skips_project_noise(project: Seq<char>, dependency: Seq<char>)
    ensures
        activity_step(project, dependency, path::join(project, ".git"@), true) == ActivityStep::SkipDir,
        activity_step(project, dependency, path::join(project, ".hg"@), true) == ActivityStep::SkipDir,
        activity_step(project, dependency, path::join(project, ".svn"@), true) == ActivityStep::SkipDir,
        activity_step(project, dependency, path::join(project, "target"@), true) == ActivityStep::SkipDir,
        activity_step(project, dependency, path::join(project, "dist"@), true) == ActivityStep::SkipDir,
        activity_step(project, dependency, path::join(project, "build"@), true) == ActivityStep::SkipDir,
        activity_step(project, dependency, path::join(project, ".cache"@), true) == ActivityStep::SkipDir,
        activity_step(project, dependency, path::join(project, ".next"@), true) == ActivityStep::SkipDir,
        activity_step(project, dependency, path::join(project, ".nuxt"@), true) == ActivityStep::SkipDir,
        activity_step(project, dependency, path::join(project, ".vite"@), true) == ActivityStep::SkipDir,
        activity_step(project, dependency, path::join(project, ".turbo"@), true) == ActivityStep::SkipDir,
        activity_step(project, dependency, path::join(project, ".parcel-cache"@), true) == ActivityStep::SkipDir,
        activity_step(project, dependency, path::join(project, ".pytest_cache"@), true) == ActivityStep::SkipDir,
        activity_step(project, dependency, path::join(project, "__pycache__"@), true) == ActivityStep::SkipDir,
        activity_step(project, dependency, path::join(project, ".mypy_cache"@), true) == ActivityStep::SkipDir,
        activity_step(project, dependency, path::join(project, ".ruff_cache"@), true) == ActivityStep::SkipDir,
        activity_step(project, dependency, path::join(project, ".tox"@), true) == ActivityStep::SkipDir,
{
    reveal_strlit(".git");
    reveal_strlit(".hg");
    reveal_strlit(".svn");
    reveal_strlit("target");
    reveal_strlit("dist");
    reveal_strlit("build");
    reveal_strlit(".cache");
    reveal_strlit(".next");
    reveal_strlit(".nuxt");
    reveal_strlit(".vite");
    reveal_strlit(".turbo");
    reveal_strlit(".parcel-cache");
    reveal_strlit(".pytest_cache");
    reveal_strlit("__pycache__");
    reveal_strlit(".mypy_cache");
    reveal_strlit(".ruff_cache");
    reveal_strlit(".tox");
    let names = seq![".git"@, ".hg"@, ".svn"@, "target"@, "dist"@, "build"@, ".cache"@, ".next"@, ".nuxt"@, ".vite"@, ".turbo"@, ".parcel-cache"@, ".pytest_cache"@, "__pycache__"@, ".mypy_cache"@, ".ruff_cache"@, ".tox"@];
    assert forall|i: int| 0 <= i < names.len() implies activity_step(
        project,
        dependency,
        path::join(project, #[trigger] names[i]),
        true,
    ) == ActivityStep::SkipDir by {
        let w = names[i];
        assert(!w.contains('/')) by {
            if w.contains('/') {
                let k = choose|k: int| 0 <= k < w.len() && w[k] == '/';
                assert(w[k] != '/');
            }
        }
        path::lemma_join_names(project, w);
        path::lemma_join_file_name(project, w);
        lemma_activity_noise(project, dependency, path::join(project, w), w);
    }
    assert(names[0] == ".git"@);
    assert(names[1] == ".hg"@);
    assert(names[2] == ".svn"@);
    assert(names[3] == "target"@);
    assert(names[4] == "dist"@);
    assert(names[5] == "build"@);
    assert(names[6] == ".cache"@);
    assert(names[7] == ".next"@);
    assert(names[8] == ".nuxt"@);
    assert(names[9] == ".vite"@);
    assert(names[10] == ".turbo"@);
    assert(names[11] == ".parcel-cache"@);
    assert(names[12] == ".pytest_cache"@);
    assert(names[13] == "__pycache__"@);
    assert(names[14] == ".mypy_cache"@);
    assert(names[15] == ".ruff_cache"@);
    assert(names[16] == ".tox"@);
}

/// Decides what a walk of `project` for recent activity does with the entry at `p`.
pub fn classify_activity(project: &str, dependency: &str, p: &str, is_dir: bool) -> (r: ActivityStep)
    ensures
        r == activity_step(project@, dependency@, p@, is_dir),
{
    if paths_equal(p, dependency) {
        return ActivityStep::SkipDir;
    }
    if !paths_equal(p, project) {
        if is_dir && is_project_activity_noise_dir(p) {
            return ActivityStep::SkipDir;
        }
        if is_project_activity_noise_file(p) {
            return ActivityStep::Ignore;
        }
    }
    if is_dir {
        ActivityStep::Ignore
    } else {
        ActivityStep::Count
    }
}

/// The latest activity seen so far, after seeing an entry modified at `mtime`.
pub fn latest_activity(latest: Option<Timestamp>, mtime: Timestamp) -> (r: Timestamp)
    ensures
        match latest {
            None => r == mtime,
            Some(t) => (r == t || r == mtime) && (t.wf() && mtime.wf() ==> r.total() >= t.total() && r.total()
                >= mtime.total()),
        },
{
    match latest {
        None => mtime,
        Some(t) => t.later(&mtime),
    }
}

/// How long ago a project was last modified, as seen at `now`; zero when the
/// modification lies in the future.
pub fn folder_age(now: Timestamp, modified: Timestamp) -> (r: TimeSpan)
    requires
        now.wf(),
        modified.wf(),
    ensures
        r.wf(),
        now.total() >= modified.total() ==> r.total() == now.total() - modified.total(),
        now.total() < modified.total() ==> r.total() == 0,
{
    match now.duration_since(&modified) {
        Some(d) => d,
        None => TimeSpan::from_secs(0),
    }
}

/// The folders of `folders` at the positions `order` gives.
pub open spec fn arranged<T>(items: Seq<T>, order: Seq<usize>) -> Seq<T> {
    order.map_values(|i: usize| items[i as int])
}

/// `idx` names positions below `n`, none twice.
pub open spec fn distinct_positions(idx: Seq<usize>, n: int) -> bool {
    &&& forall|k: int| 0 <= k < idx.len() ==> (#[trigger] idx[k]) < n
    &&& forall|a: int, b: int| 0 <= a < b < idx.len() ==> #[trigger] idx[a] != #[trigger] idx[b]
}

pub proof fn lemma_size_sum_concat(a: Seq<DependencyFolder>, b: Seq<DependencyFolder>)
    ensures
        size_sum(a + b) == size_sum(a) + size_sum(b),
    decreases b.len(),
{
    if b.len() == 0 {
        assert(a + b =~= a);
    } else {
        lemma_size_sum_concat(a, b.drop_last());
        assert((a + b).drop_last() =~= a + b.drop_last());
    }
}

/// Folders picked at distinct positions never weigh more than all of them.
pub proof fn lemma_arranged_sum(folders: Seq<DependencyFolder>, idx: Seq<usize>)
    requires
        distinct_positions(idx, folders.len() as int),
    ensures
        size_sum(arranged(folders, idx)) <= size_sum(folders),
    decreases folders.len(),
{
    let n = folders.len() as int;
    if n == 0 {
        if idx.len() > 0 {
            assert(idx[0] < n);
        }
        assert(arranged(folders, idx) =~= Seq::<DependencyFolder>::empty());
    } else {
        let init = folders.drop_last();
        if exists|j: int| 0 <= j < idx.len() && idx[j] == n - 1 {
            let j = choose|j: int| 0 <= j < idx.len() && idx[j] == n - 1;
            let a = idx.take(j);
            let b = idx.skip(j + 1);
            let rest = a + b;
            assert forall|k: int| 0 <= k < rest.len() implies (#[trigger] rest[k]) < n - 1 by {
                if k < a.len() {
                    assert(rest[k] == idx[k]);
                    assert(idx[k] != idx[j]);
                } else {
                    assert(rest[k] == idx[k + 1]);
                    assert(idx[j] != idx[k + 1]);
                }
            }
            assert forall|p: int, q: int| 0 <= p < q < rest.len() implies #[trigger] rest[p] != #[trigger] rest[q] by {
                let pp = if p < a.len() { p } else { p + 1 };
                let qq = if q < a.len() { q } else { q + 1 };
                assert(rest[p] == idx[pp]);
                assert(rest[q] == idx[qq]);
            }
            lemma_arranged_sum(init, rest);
            assert(arranged(init, rest) =~= arranged(folders, a) + arranged(folders, b));
            assert(idx =~= a + seq![idx[j]] + b);
            assert(arranged(folders, idx) =~= arranged(folders, a) + seq![folders.last()] + arranged(folders, b));
            lemma_size_sum_concat(arranged(folders, a), arranged(folders, b));
            lemma_size_sum_concat(arranged(folders, a), seq![folders.last()]);
            lemma_size_sum_concat(arranged(folders, a) + seq![folders.last()], arranged(folders, b));
            assert(seq![folders.last()].drop_last() =~= Seq::<DependencyFolder>::empty());
            assert(size_sum(seq![folders.last()]) == folders.last().size_bytes) by {
                let one = seq![folders.last()];
                assert(one.len() == 1);
                assert(one.last() == folders.last());
                assert(size_sum(one.drop_last()) == 0);
            }
            assert(size_sum(arranged(init, rest)) <= size_sum(init));
            assert(size_sum(folders) == size_sum(init) + folders.last().size_bytes);
            assert(size_sum(arranged(folders, idx)) == size_sum(arranged(folders, a)) + folders.last().size_bytes
                + size_sum(arranged(folders, b)));
        } else {
            assert forall|k: int| 0 <= k < idx.len() implies (#[trigger] idx[k]) < n - 1 by {
                assert(idx[k] < n);
            }
            lemma_arranged_sum(init, idx);
            assert(arranged(init, idx) =~= arranged(folders, idx));
        }
    }
}

/// Gathers the dependency folders found under `roots` into a scan summary:
/// largest folders first, equal sizes by path, and otherwise in the order found.
pub fn summarize_scan(roots: Vec<String>, folders: Vec<DependencyFolder>) -> (r: ScanSummary)
    ensures
        r.roots@ == roots@,
        exists|order: Seq<usize>| is_stable_order(folders@, order) && r.folders@ == arranged(folders@, order),
{
    let order = stable_order(&folders);
    let mut sorted: Vec<DependencyFolder> = Vec::new();
    let mut i: usize = 0;
    while i < order.len()
        invariant
            0 <= i <= order.len(),
            is_stable_order(folders@, order@),
            sorted@ == arranged(folders@, order@.take(i as int)),
        decreases order.len() - i,
    {
        let f = folders[order[i]].duplicate();
        sorted.push(f);
        i = i + 1;
        assert(sorted@ =~= arranged(folders@, order@.take(i as int)));
    }
    assert(order@.take(order.len() as int) =~= order@);
    ScanSummary { roots, folders: sorted }
}

} // verus!
