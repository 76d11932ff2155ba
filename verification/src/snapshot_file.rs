//! Version 1 snapshot files: byte sizes and full store paths of a runtime
//! closure, independent of any Nix store. Reading and comparing these never
//! accesses Nix.
use vstd::prelude::*;
use crate::export::{as_entries, has_path, lemma_reordered_closure, paths_distinct, paths_sorted, sort_by_path};
use crate::store_path::{is_store_path, path_check, validate_path, PathError, StorePath};

verus! {

/// One unique member of a runtime closure.
#[derive(Debug, Clone)]
pub struct SnapshotPath {
    pub path: String,
    pub nar_size: i64,
}

impl View for SnapshotPath {
    type V = (Seq<char>, i64);

    open spec fn view(&self) -> (Seq<char>, i64) {
        (self.path@, self.nar_size)
    }
}

/// Version 1 stores byte sizes and full store paths, independent of dix
/// releases.
#[derive(Debug, Clone)]
pub struct SnapshotFile {
    pub schema_version: u32,
    pub root: String,
    pub closure: Vec<SnapshotPath>,
    pub selected: Vec<String>,
}

/// The mathematical content of a snapshot file.
pub struct SnapshotModel {
    pub schema_version: u32,
    pub root: Seq<char>,
    pub closure: Seq<(Seq<char>, i64)>,
    pub selected: Seq<Seq<char>>,
}

/// The entries of a closure, each as its path and size.
pub open spec fn entries_view(c: Seq<SnapshotPath>) -> Seq<(Seq<char>, i64)> {
    c.map_values(|e: SnapshotPath| e@)
}

/// A list of strings as character sequences.
pub open spec fn texts_view(s: Seq<String>) -> Seq<Seq<char>> {
    s.map_values(|x: String| x@)
}

impl View for SnapshotFile {
    type V = SnapshotModel;

    open spec fn view(&self) -> SnapshotModel {
        SnapshotModel {
            schema_version: self.schema_version,
            root: self.root@,
            closure: entries_view(self.closure@),
            selected: texts_view(self.selected@),
        }
    }
}

/// A validated closure member: a store path and its NAR size in bytes.
#[derive(Debug, Clone)]
pub struct StorePathInfo {
    path: StorePath,
    nar_size: i64,
}

impl View for StorePathInfo {
    type V = (Seq<char>, i64);

    closed spec fn view(&self) -> (Seq<char>, i64) {
        (self.path@, self.nar_size)
    }
}

impl StorePathInfo {
    /// A member's path is a store path and its size is not negative.
    pub open spec fn wf(&self) -> bool {
        is_store_path(self@.0) && self@.1 >= 0
    }

    /// The member's store path.
    pub fn path(&self) -> (r: &StorePath)
        ensures
            r@ == self@.0,
    {
        &self.path
    }

    /// The member's NAR size in bytes.
    pub fn nar_size(&self) -> (r: i64)
        ensures
            r == self@.1,
    {
        self.nar_size
    }
}

/// The validated content of a snapshot, as used for comparisons.
#[derive(Debug, Clone)]
pub struct StoreSnapshot {
    pub closure: Vec<StorePathInfo>,
    pub selected: Vec<StorePath>,
}

/// The members of a validated closure, each as its path and size.
pub open spec fn infos_view(c: Seq<StorePathInfo>) -> Seq<(Seq<char>, i64)> {
    c.map_values(|e: StorePathInfo| e@)
}

/// A list of store paths as character sequences.
pub open spec fn store_paths_view(s: Seq<StorePath>) -> Seq<Seq<char>> {
    s.map_values(|x: StorePath| x@)
}

impl StoreSnapshot {
    /// Every member and every selected path is well formed.
    pub open spec fn wf(&self) -> bool {
        &&& forall|i: int| 0 <= i < self.closure@.len() ==> (#[trigger] self.closure@[i]).wf()
        &&& forall|i: int| 0 <= i < self.selected@.len() ==> (#[trigger] self.selected@[i]).wf()
    }
}

/// Why a snapshot file is rejected. Positions index the file's `closure`
/// or `selected` list.
#[derive(Debug, Clone, Copy, PartialEq, Eq, Structural)]
pub enum SnapshotError {
    /// The schema version is not 1.
    UnsupportedSchemaVersion { version: u32 },
    /// The root is not a store path.
    InvalidRoot { kind: PathError },
    /// A closure member's path is not a store path.
    InvalidClosurePath { index: usize, kind: PathError },
    /// A closure member repeats the path of an earlier member.
    DuplicateClosurePath { index: usize },
    /// A closure member has a negative NAR size.
    NegativeNarSize { index: usize },
    /// The sizes up to this member add up to more than `i64::MAX`.
    ClosureSizeOverflow { index: usize },
    /// The root is not a member of the closure.
    RootMissing,
    /// A selected path is not a member of the closure.
    SelectedMissing { index: usize },
    /// A selected path repeats an earlier selected path.
    DuplicateSelected { index: usize },
}

/// The paths of the closure members, in order.
pub open spec fn closure_paths(c: Seq<(Seq<char>, i64)>) -> Seq<Seq<char>> {
    c.map_values(|e: (Seq<char>, i64)| e.0)
}

/// The sum of the members' sizes.
pub open spec fn total_size(c: Seq<(Seq<char>, i64)>) -> int
    decreases c.len(),
{
    if c.len() == 0 {
        0
    } else {
        total_size(c.drop_last()) + c.last().1
    }
}

/// What is wrong with closure member `i`, given the members before it.
pub open spec fn entry_failure(c: Seq<(Seq<char>, i64)>, i: int) -> Option<SnapshotError> {
    match path_check(c[i].0) {
        Err(kind) => Some(SnapshotError::InvalidClosurePath { index: i as usize, kind }),
        Ok(_) => if exists|j: int| 0 <= j < i && c[j].0 == c[i].0 {
            Some(SnapshotError::DuplicateClosurePath { index: i as usize })
        } else if c[i].1 < 0 {
            Some(SnapshotError::NegativeNarSize { index: i as usize })
        } else if total_size(c.take(i + 1)) > i64::MAX {
            Some(SnapshotError::ClosureSizeOverflow { index: i as usize })
        } else {
            None
        },
    }
}

/// The failure of the first failing member among the first `n`.
pub open spec fn first_closure_failure(c: Seq<(Seq<char>, i64)>, n: nat) -> Option<SnapshotError>
    decreases n,
{
    if n == 0 {
        None
    } else {
        match first_closure_failure(c, (n - 1) as nat) {
            Some(e) => Some(e),
            None => entry_failure(c, n - 1),
        }
    }
}

/// What is wrong with selected path `i`, given the paths before it.
pub open spec fn selected_failure(paths: Seq<Seq<char>>, s: Seq<Seq<char>>, i: int) -> Option<
    SnapshotError,
> {
    if !paths.contains(s[i]) {
        Some(SnapshotError::SelectedMissing { index: i as usize })
    } else if exists|j: int| 0 <= j < i && s[j] == s[i] {
        Some(SnapshotError::DuplicateSelected { index: i as usize })
    } else {
        None
    }
}

/// The failure of the first failing selected path among the first `n`.
pub open spec fn first_selected_failure(paths: Seq<Seq<char>>, s: Seq<Seq<char>>, n: nat) -> Option<
    SnapshotError,
>
    decreases n,
{
    if n == 0 {
        None
    } else {
        match first_selected_failure(paths, s, (n - 1) as nat) {
            Some(e) => Some(e),
            None => selected_failure(paths, s, n - 1),
        }
    }
}

/// The verdict on a snapshot file: checks run in order (schema version,
/// root, closure members in order, root membership, selected paths in
/// order) and the first failing one is reported.
pub open spec fn snapshot_check(f: SnapshotModel) -> Result<(), SnapshotError> {
    if f.schema_version != 1 {
        Err(SnapshotError::UnsupportedSchemaVersion { version: f.schema_version })
    } else {
        match path_check(f.root) {
            Err(kind) => Err(SnapshotError::InvalidRoot { kind }),
            Ok(_) => match first_closure_failure(f.closure, f.closure.len()) {
                Some(e) => Err(e),
                None => if !closure_paths(f.closure).contains(f.root) {
                    Err(SnapshotError::RootMissing)
                } else {
                    match first_selected_failure(
                        closure_paths(f.closure),
                        f.selected,
                        f.selected.len(),
                    ) {
                        Some(e) => Err(e),
                        None => Ok(()),
                    }
                },
            },
        }
    }
}

/// A consistent snapshot: version 1; the root, every member and every
/// selected path are store paths; member paths are distinct; sizes are not
/// negative and their sum fits in `i64`; the root and every selected path
/// are members; selected paths are distinct.
pub open spec fn is_consistent(f: SnapshotModel) -> bool {
    &&& f.schema_version == 1
    &&& is_store_path(f.root)
    &&& forall|i: int| 0 <= i < f.closure.len() ==> is_store_path(#[trigger] f.closure[i].0)
    &&& forall|i: int| 0 <= i < f.closure.len() ==> (#[trigger] f.closure[i]).1 >= 0
    &&& forall|i: int, j: int|
        0 <= i < j < f.closure.len() ==> (#[trigger] f.closure[i]).0 != (#[trigger] f.closure[j]).0
    &&& total_size(f.closure) <= i64::MAX
    &&& closure_paths(f.closure).contains(f.root)
    &&& forall|i: int|
        0 <= i < f.selected.len() ==> closure_paths(f.closure).contains(#[trigger] f.selected[i])
    &&& forall|i: int, j: int|
        0 <= i < j < f.selected.len() ==> #[trigger] f.selected[i] != #[trigger] f.selected[j]
}

/// Adding one more member adds its size.
pub proof fn lemma_total_size_take(c: Seq<(Seq<char>, i64)>, n: int)
    requires
        0 <= n < c.len(),
    ensures
        total_size(c.take(n + 1)) == total_size(c.take(n)) + c[n].1,
{
    assert(c.take(n + 1).drop_last() =~= c.take(n));
}

/// The closure checks pass on the first `n` members exactly when those
/// members are store paths with distinct paths, non-negative sizes and a sum
/// that fits in `i64`.
proof fn lemma_closure_prefix(c: Seq<(Seq<char>, i64)>, n: nat)
    requires
        n <= c.len(),
    ensures
        first_closure_failure(c, n) is None <==> {
            &&& forall|i: int| 0 <= i < n ==> is_store_path(#[trigger] c[i].0)
            &&& forall|i: int| 0 <= i < n ==> (#[trigger] c[i]).1 >= 0
            &&& forall|i: int, j: int|
                0 <= i < j < n ==> (#[trigger] c[i]).0 != (#[trigger] c[j]).0
            &&& total_size(c.take(n as int)) <= i64::MAX
        },
    decreases n,
{
    if n == 0 {
        assert(c.take(0) =~= Seq::<(Seq<char>, i64)>::empty());
    } else {
        let m = (n - 1) as nat;
        lemma_closure_prefix(c, m);
        lemma_total_size_take(c, m as int);
        if first_closure_failure(c, n) is None {
            assert forall|i: int, j: int| 0 <= i < j < n implies (#[trigger] c[i]).0 != (
            #[trigger] c[j]).0 by {
                if j == m {
                    if c[i].0 == c[j].0 {
                        assert(exists|k: int| 0 <= k < m && c[k].0 == c[m as int].0);
                    }
                }
            }
        }
    }
}

/// The selected checks pass on the first `n` selected paths exactly when
/// those are members and distinct.
proof fn lemma_selected_prefix(paths: Seq<Seq<char>>, s: Seq<Seq<char>>, n: nat)
    requires
        n <= s.len(),
    ensures
        first_selected_failure(paths, s, n) is None <==> {
            &&& forall|i: int| 0 <= i < n ==> paths.contains(#[trigger] s[i])
            &&& forall|i: int, j: int| 0 <= i < j < n ==> #[trigger] s[i] != #[trigger] s[j]
        },
    decreases n,
{
    if n > 0 {
        let m = (n - 1) as nat;
        lemma_selected_prefix(paths, s, m);
        if first_selected_failure(paths, s, n) is None {
            assert forall|i: int, j: int| 0 <= i < j < n implies #[trigger] s[i] != #[trigger] s[j] by {
                if j == m && s[i] == s[j] {
                    assert(exists|k: int| 0 <= k < m && s[k] == s[m as int]);
                }
            }
        }
    }
}

/// Once a member has failed, later members do not change the reported failure.
proof fn lemma_closure_failure_stays(c: Seq<(Seq<char>, i64)>, n: nat, m: nat)
    requires
        n <= m,
        first_closure_failure(c, n) is Some,
    ensures
        first_closure_failure(c, m) == first_closure_failure(c, n),
    decreases m - n,
{
    if n < m {
        lemma_closure_failure_stays(c, n, (m - 1) as nat);
    }
}

/// Once a selected path has failed, later ones do not change the reported failure.
proof fn lemma_selected_failure_stays(paths: Seq<Seq<char>>, s: Seq<Seq<char>>, n: nat, m: nat)
    requires
        n <= m,
        first_selected_failure(paths, s, n) is Some,
    ensures
        first_selected_failure(paths, s, m) == first_selected_failure(paths, s, n),
    decreases m - n,
{
    if n < m {
        lemma_selected_failure_stays(paths, s, n, (m - 1) as nat);
    }
}

/// A snapshot file passes every check exactly when it is consistent.
pub proof fn lemma_check_is_consistency(f: SnapshotModel)
    ensures
        snapshot_check(f) is Ok <==> is_consistent(f),
{
    lemma_closure_prefix(f.closure, f.closure.len());
    lemma_selected_prefix(closure_paths(f.closure), f.selected, f.selected.len());
    assert(f.closure.take(f.closure.len() as int) =~= f.closure);
}

/// What an accepted snapshot file satisfies, stated on its fields: version
/// 1; member paths pairwise different; sizes not negative; the root among
/// the member paths; every selected path among the member paths; selected
/// paths pairwise different.
pub proof fn lemma_accepted_file(f: SnapshotModel)
    requires
        snapshot_check(f) is Ok,
    ensures
        f.schema_version == 1,
        forall|i: int, j: int|
            0 <= i < j < f.closure.len() ==> (#[trigger] f.closure[i]).0 != (#[trigger] f.closure[j]).0,
        forall|i: int| 0 <= i < f.closure.len() ==> (#[trigger] f.closure[i]).1 >= 0,
        exists|j: int| 0 <= j < f.closure.len() && (#[trigger] f.closure[j]).0 == f.root,
        forall|i: int|
            0 <= i < f.selected.len() ==> exists|j: int|
                0 <= j < f.closure.len() && (#[trigger] f.closure[j]).0 == #[trigger] f.selected[i],
        forall|i: int, j: int|
            0 <= i < j < f.selected.len() ==> #[trigger] f.selected[i] != #[trigger] f.selected[j],
{
    lemma_check_is_consistency(f);
    let ps = closure_paths(f.closure);
    let k = choose|k: int| 0 <= k < ps.len() && ps[k] == f.root;
    assert(f.closure[k].0 == f.root);
    assert forall|i: int| 0 <= i < f.selected.len() implies exists|j: int|
        0 <= j < f.closure.len() && (#[trigger] f.closure[j]).0 == #[trigger] f.selected[i] by {
        assert(ps.contains(f.selected[i]));
        let k = choose|k: int| 0 <= k < ps.len() && ps[k] == f.selected[i];
        assert(f.closure[k].0 == f.selected[i]);
    }
}

/// The position of the member whose failure `first_closure_failure` reports.
proof fn lemma_closure_failure_at(c: Seq<(Seq<char>, i64)>, n: nat) -> (i: int)
    requires
        first_closure_failure(c, n) is Some,
    ensures
        0 <= i < n,
        first_closure_failure(c, i as nat) is None,
        entry_failure(c, i) == first_closure_failure(c, n),
    decreases n,
{
    let m = (n - 1) as nat;
    if first_closure_failure(c, m) is Some {
        lemma_closure_failure_at(c, m)
    } else {
        m as int
    }
}

/// The position of the selected path whose failure `first_selected_failure`
/// reports.
proof fn lemma_selected_failure_at(paths: Seq<Seq<char>>, s: Seq<Seq<char>>, n: nat) -> (i: int)
    requires
        first_selected_failure(paths, s, n) is Some,
    ensures
        0 <= i < n,
        first_selected_failure(paths, s, i as nat) is None,
        selected_failure(paths, s, i) == first_selected_failure(paths, s, n),
    decreases n,
{
    let m = (n - 1) as nat;
    if first_selected_failure(paths, s, m) is Some {
        lemma_selected_failure_at(paths, s, m)
    } else {
        m as int
    }
}

/// Every rejection names a real defect at the position it reports: a
/// version other than 1 is rejected as unsupported; a malformed root or
/// member path gets the path's own error; a repeated member path repeats an
/// earlier one; a negative size is negative; an overflow means the sizes up
/// to that member add up to more than `i64::MAX`; a missing root or
/// selected path is no member's path; a repeated selected path repeats an
/// earlier one. Selected paths before the reported one are members and
/// pairwise different, so the first faulty selected path is the one
/// reported.
pub proof fn lemma_rejection_reasons(f: SnapshotModel)
    requires
        f.closure.len() <= usize::MAX,
        f.selected.len() <= usize::MAX,
    ensures
        f.schema_version != 1 ==> snapshot_check(f) == Err::<(), SnapshotError>(
            SnapshotError::UnsupportedSchemaVersion { version: f.schema_version },
        ),
        snapshot_check(f) matches Err(SnapshotError::InvalidRoot { kind }) ==> f.schema_version == 1
            && path_check(f.root) == Err::<(), PathError>(kind),
        snapshot_check(f) matches Err(SnapshotError::InvalidClosurePath { index, kind }) ==> index
            < f.closure.len() && path_check(f.closure[index as int].0) == Err::<(), PathError>(kind),
        snapshot_check(f) matches Err(SnapshotError::DuplicateClosurePath { index }) ==> index
            < f.closure.len() && exists|j: int|
            0 <= j < index && (#[trigger] f.closure[j]).0 == f.closure[index as int].0,
        snapshot_check(f) matches Err(SnapshotError::NegativeNarSize { index }) ==> index
            < f.closure.len() && f.closure[index as int].1 < 0,
        snapshot_check(f) matches Err(SnapshotError::ClosureSizeOverflow { index }) ==> index
            < f.closure.len() && total_size(f.closure.take(index + 1)) > i64::MAX,
        snapshot_check(f) == Err::<(), SnapshotError>(SnapshotError::RootMissing) ==> forall|j: int|
            0 <= j < f.closure.len() ==> (#[trigger] f.closure[j]).0 != f.root,
        snapshot_check(f) matches Err(SnapshotError::SelectedMissing { index }) ==> {
            &&& index < f.selected.len()
            &&& forall|j: int| 0 <= j < f.closure.len() ==> (#[trigger] f.closure[j]).0 != f.selected[index as int]
            &&& forall|q: int| 0 <= q < index ==> closure_paths(f.closure).contains(#[trigger] f.selected[q])
            &&& forall|a: int, b: int| 0 <= a < b < index ==> #[trigger] f.selected[a] != #[trigger] f.selected[b]
        },
        snapshot_check(f) matches Err(SnapshotError::DuplicateSelected { index }) ==> {
            &&& index < f.selected.len()
            &&& exists|j: int| 0 <= j < index && #[trigger] f.selected[j] == f.selected[index as int]
            &&& closure_paths(f.closure).contains(f.selected[index as int])
            &&& forall|q: int| 0 <= q < index ==> closure_paths(f.closure).contains(#[trigger] f.selected[q])
            &&& forall|a: int, b: int| 0 <= a < b < index ==> #[trigger] f.selected[a] != #[trigger] f.selected[b]
        },
{
    let c = f.closure;
    let ps = closure_paths(c);
    if f.schema_version == 1 && path_check(f.root) is Ok {
        if first_closure_failure(c, c.len()) is Some {
            let i = lemma_closure_failure_at(c, c.len());
            assert((i as usize) as int == i);
        } else if !ps.contains(f.root) {
            assert forall|j: int| 0 <= j < c.len() implies (#[trigger] c[j]).0 != f.root by {
                if c[j].0 == f.root {
                    assert(ps[j] == c[j].0);
                }
            }
        } else if first_selected_failure(ps, f.selected, f.selected.len()) is Some {
            let i = lemma_selected_failure_at(ps, f.selected, f.selected.len());
            assert((i as usize) as int == i);
            lemma_selected_prefix(ps, f.selected, i as nat);
            if !ps.contains(f.selected[i]) {
                assert forall|j: int| 0 <= j < c.len() implies (#[trigger] c[j]).0 != f.selected[i] by {
                    if c[j].0 == f.selected[i] {
                        assert(ps[j] == c[j].0);
                    }
                }
            }
        }
    }
}

/// Whether some member before position `upto` has path `p`.
fn closure_has(c: &Vec<SnapshotPath>, upto: usize, p: &String) -> (r: bool)
    requires
        upto <= c@.len(),
    ensures
        r == exists|j: int| 0 <= j < upto && (#[trigger] c@[j]).path@ == p@,
{
    let mut j: usize = 0;
    while j < upto
        invariant
            upto <= c@.len(),
            j <= upto,
            forall|k: int| 0 <= k < j ==> (#[trigger] c@[k]).path@ != p@,
        decreases upto - j,
    {
        if c[j].path == *p {
            return true;
        }
        j += 1;
    }
    false
}

/// Whether some string before position `upto` equals `p`.
fn texts_have(s: &Vec<String>, upto: usize, p: &String) -> (r: bool)
    requires
        upto <= s@.len(),
    ensures
        r == exists|j: int| 0 <= j < upto && (#[trigger] s@[j])@ == p@,
{
    let mut j: usize = 0;
    while j < upto
        invariant
            upto <= s@.len(),
            j <= upto,
            forall|k: int| 0 <= k < j ==> (#[trigger] s@[k])@ != p@,
        decreases upto - j,
    {
        if s[j] == *p {
            return true;
        }
        j += 1;
    }
    false
}

impl SnapshotFile {
    /// Converts to the validated comparison form.
    ///
    /// Rejects unsupported versions, malformed paths, duplicate entries,
    /// negative sizes, sizes whose sum exceeds `i64::MAX`, and roots or
    /// selected paths missing from the closure; the error is that of the
    /// first failing check (see `snapshot_check`).
    pub fn to_snapshot(&self) -> (r: Result<StoreSnapshot, SnapshotError>)
        ensures
            r is Ok <==> is_consistent(self@),
            r is Ok ==> {
                &&& self@.schema_version == 1
                &&& forall|i: int, j: int|
                    0 <= i < j < self@.closure.len() ==> (#[trigger] self@.closure[i]).0 != (
                    #[trigger] self@.closure[j]).0
                &&& forall|i: int| 0 <= i < self@.closure.len() ==> (#[trigger] self@.closure[i]).1 >= 0
                &&& exists|j: int| 0 <= j < self@.closure.len() && (#[trigger] self@.closure[j]).0 == self@.root
                &&& forall|i: int|
                    0 <= i < self@.selected.len() ==> exists|j: int|
                        0 <= j < self@.closure.len() && (#[trigger] self@.closure[j]).0
                            == #[trigger] self@.selected[i]
                &&& forall|i: int, j: int|
                    0 <= i < j < self@.selected.len() ==> #[trigger] self@.selected[i]
                        != #[trigger] self@.selected[j]
            },
            match r {
                Ok(s) => {
                    &&& snapshot_check(self@) == Ok::<(), SnapshotError>(())
                    &&& s.wf()
                    &&& infos_view(s.closure@) == self@.closure
                    &&& store_paths_view(s.selected@) == self@.selected
                },
                Err(e) => snapshot_check(self@) == Err::<(), SnapshotError>(e),
            },
    {
        proof {
            lemma_check_is_consistency(self@);
            if snapshot_check(self@) is Ok {
                lemma_accepted_file(self@);
            }
        }
        let ghost f = self@;
        if self.schema_version != 1 {
            return Err(SnapshotError::UnsupportedSchemaVersion { version: self.schema_version });
        }
        match validate_path(self.root.as_str()) {
            Err(kind) => {
                return Err(SnapshotError::InvalidRoot { kind });
            },
            Ok(_) => {},
        }
        // Sorted copies find repeated paths and members in O(n log n).
        let sorted = sort_by_path(&self.closure);
        let distinct = paths_distinct(&sorted);
        proof {
            lemma_reordered_closure(entries_view(sorted@), f.closure);
        }
        let n = self.closure.len();
        let mut total: i64 = 0;
        let mut closure: Vec<StorePathInfo> = Vec::new();
        let mut i: usize = 0;
        assert(f.closure.take(0) =~= Seq::<(Seq<char>, i64)>::empty());
        while i < n
            invariant
                f == self@,
                n == self.closure@.len(),
                n == f.closure.len(),
                i <= n,
                f.schema_version == 1,
                path_check(f.root) == Ok::<(), PathError>(()),
                snapshot_check(f) is Ok <==> is_consistent(f),
                distinct == (forall|a: int, b: int| 0 <= a < b < n ==> (#[trigger] f.closure[a]).0 != (#[trigger] f.closure[b]).0),
                first_closure_failure(f.closure, i as nat) is None,
                total == total_size(f.closure.take(i as int)),
                infos_view(closure@) == f.closure.take(i as int),
                forall|k: int| 0 <= k < closure@.len() ==> (#[trigger] closure@[k]).wf(),
            decreases n - i,
        {
            let entry = &self.closure[i];
            assert(f.closure[i as int] == entry@);
            proof {
                if entry_failure(f.closure, i as int) is Some {
                    lemma_closure_failure_stays(f.closure, (i + 1) as nat, n as nat);
                }
            }
            let path = match validate_path(entry.path.as_str()) {
                Ok(p) => p,
                Err(kind) => {
                    return Err(SnapshotError::InvalidClosurePath { index: i, kind });
                },
            };
            let dup = if distinct {
                false
            } else {
                closure_has(&self.closure, i, &entry.path)
            };
            proof {
                if distinct {
                    if exists|j: int| 0 <= j < i && f.closure[j].0 == f.closure[i as int].0 {
                        let j = choose|j: int| 0 <= j < i && f.closure[j].0 == f.closure[i as int].0;
                        assert(f.closure[j].0 != f.closure[i as int].0);
                    }
                } else if dup {
                    let j = choose|j: int| 0 <= j < i && (#[trigger] self.closure@[j]).path@ == entry.path@;
                    assert(f.closure[j].0 == f.closure[i as int].0);
                }
                if !distinct && exists|j: int| 0 <= j < i && f.closure[j].0 == f.closure[i as int].0 {
                    let j = choose|j: int| 0 <= j < i && f.closure[j].0 == f.closure[i as int].0;
                    assert(self.closure@[j].path@ == entry.path@);
                }
            }
            if dup {
                return Err(SnapshotError::DuplicateClosurePath { index: i });
            }
            if entry.nar_size < 0 {
                return Err(SnapshotError::NegativeNarSize { index: i });
            }
            proof {
                lemma_total_size_take(f.closure, i as int);
            }
            total = match total.checked_add(entry.nar_size) {
                Some(t) => t,
                None => {
                    return Err(SnapshotError::ClosureSizeOverflow { index: i });
                },
            };
            let info = StorePathInfo { path, nar_size: entry.nar_size };
            let ghost before = closure@;
            closure.push(info);
            proof {
                assert(f.closure.take(i + 1) =~= f.closure.take(i as int).push(f.closure[i as int]));
                assert(infos_view(closure@) =~= infos_view(before).push(info@));
            }
            i += 1;
        }
        assert(f.closure.take(n as int) =~= f.closure);
        let found = has_path(&sorted, &self.root);
        if !found {
            return Err(SnapshotError::RootMissing);
        }
        let wrapped = as_entries(&self.selected);
        let selected_sorted = sort_by_path(&wrapped);
        let selected_distinct = paths_distinct(&selected_sorted);
        proof {
            lemma_reordered_closure(entries_view(selected_sorted@), entries_view(wrapped@));
            let w = entries_view(wrapped@);
            assert forall|a: int, b: int| 0 <= a < b < w.len() implies (#[trigger] w[a]).0 == f.selected[a] && (#[trigger] w[b]).0 == f.selected[b] by {
                assert(closure_paths(w)[a] == w[a].0);
                assert(closure_paths(w)[b] == w[b].0);
            }
        }
        let m = self.selected.len();
        let mut selected: Vec<StorePath> = Vec::new();
        let mut i: usize = 0;
        while i < m
            invariant
                f == self@,
                n == f.closure.len(),
                m == self.selected@.len(),
                m == f.selected.len(),
                i <= m,
                snapshot_check(f) is Ok <==> is_consistent(f),
                f.schema_version == 1,
                path_check(f.root) == Ok::<(), PathError>(()),
                first_closure_failure(f.closure, n as nat) is None,
                closure_paths(f.closure).contains(f.root),
                paths_sorted(entries_view(sorted@)),
                forall|t: Seq<char>| closure_paths(entries_view(sorted@)).contains(t) <==> closure_paths(f.closure).contains(t),
                selected_distinct == (forall|a: int, b: int| 0 <= a < b < m ==> #[trigger] f.selected[a] != #[trigger] f.selected[b]),
                first_selected_failure(closure_paths(f.closure), f.selected, i as nat) is None,
                forall|q: int| 0 <= q < n ==> is_store_path(#[trigger] f.closure[q].0),
                store_paths_view(selected@) == f.selected.take(i as int),
                forall|q: int| 0 <= q < selected@.len() ==> (#[trigger] selected@[q]).wf(),
            decreases m - i,
        {
            let p = &self.selected[i];
            assert(f.selected[i as int] == p@);
            proof {
                if selected_failure(closure_paths(f.closure), f.selected, i as int) is Some {
                    lemma_selected_failure_stays(closure_paths(f.closure), f.selected, (i + 1) as nat, m as nat);
                }
            }
            let member = has_path(&sorted, p);
            if !member {
                return Err(SnapshotError::SelectedMissing { index: i });
            }
            let dup = if selected_distinct {
                false
            } else {
                texts_have(&self.selected, i, p)
            };
            proof {
                if selected_distinct {
                    if exists|j: int| 0 <= j < i && f.selected[j] == f.selected[i as int] {
                        let j = choose|j: int| 0 <= j < i && f.selected[j] == f.selected[i as int];
                        assert(f.selected[j] != f.selected[i as int]);
                    }
                } else if dup {
                    let j = choose|j: int| 0 <= j < i && (#[trigger] self.selected@[j])@ == p@;
                    assert(f.selected[j] == f.selected[i as int]);
                }
                if !selected_distinct && exists|j: int| 0 <= j < i && f.selected[j] == f.selected[i as int] {
                    let j = choose|j: int| 0 <= j < i && f.selected[j] == f.selected[i as int];
                    assert(self.selected@[j]@ == p@);
                }
            }
            if dup {
                return Err(SnapshotError::DuplicateSelected { index: i });
            }
            proof {
                let j = choose|j: int| 0 <= j < n && closure_paths(f.closure)[j] == p@;
                assert(is_store_path(f.closure[j].0));
            }
            let sp = StorePath::from_valid(p.clone());
            let ghost before = selected@;
            selected.push(sp);
            proof {
                assert(f.selected.take(i + 1) =~= f.selected.take(i as int).push(f.selected[i as int]));
                assert(store_paths_view(selected@) =~= store_paths_view(before).push(sp@));
            }
            i += 1;
        }
        assert(f.selected.take(m as int) =~= f.selected);
        Ok(StoreSnapshot { closure, selected })
    }
}

} // verus!
