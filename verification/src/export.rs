//! Deterministic export of a captured closure into a snapshot file.
use vstd::prelude::*;
use vstd::seq_lib::{to_multiset_build, to_multiset_contains, to_multiset_insert, to_multiset_len, to_multiset_remove};
use crate::order::{
    lemma_text_le_transitive, lemma_text_lt_irreflexive, lemma_text_lt_transitive,
    lemma_text_lt_trichotomy, text_le, text_less, text_lt,
};
use crate::snapshot_file::{
    closure_paths, entries_view, is_consistent, lemma_check_is_consistency, snapshot_check,
    texts_view, total_size, SnapshotError, SnapshotFile, SnapshotModel, SnapshotPath,
};
use crate::store_path::is_store_path;

verus! {

/// Members appear in path order (ties kept together).
pub open spec fn paths_sorted(c: Seq<(Seq<char>, i64)>) -> bool {
    forall|i: int, j: int| 0 <= i < j < c.len() ==> text_le((#[trigger] c[i]).0, (#[trigger] c[j]).0)
}

/// The members with path `k`, in their order.
pub open spec fn with_path(c: Seq<(Seq<char>, i64)>, k: Seq<char>) -> Seq<(Seq<char>, i64)>
    decreases c.len(),
{
    if c.len() == 0 {
        c
    } else if c.last().0 == k {
        with_path(c.drop_last(), k).push(c.last())
    } else {
        with_path(c.drop_last(), k)
    }
}

/// `g` keeps the members of `c` that share a path in the order they had in `c`.
pub open spec fn stable_groups(g: Seq<(Seq<char>, i64)>, c: Seq<(Seq<char>, i64)>) -> bool {
    forall|k: Seq<char>| #[trigger] with_path(g, k) == with_path(c, k)
}

/// Texts appear in strictly increasing order, hence without repetition.
pub open spec fn strictly_sorted(s: Seq<Seq<char>>) -> bool {
    forall|i: int, j: int| 0 <= i < j < s.len() ==> text_lt(#[trigger] s[i], #[trigger] s[j])
}

/// `a` and `b` hold the same texts, ignoring order and repetition.
pub open spec fn same_texts(a: Seq<Seq<char>>, b: Seq<Seq<char>>) -> bool {
    forall|t: Seq<char>| a.contains(t) <==> b.contains(t)
}

/// `g` is the export of a closure `c`, selected paths `s` and root `root`:
/// version 1, the same root, the members of `c` ordered by path (members
/// with equal paths in their input order), and the selected paths
/// sorted with repetitions removed.
pub open spec fn exported_from(
    g: SnapshotModel,
    root: Seq<char>,
    c: Seq<(Seq<char>, i64)>,
    s: Seq<Seq<char>>,
) -> bool {
    &&& g.schema_version == 1
    &&& g.root == root
    &&& paths_sorted(g.closure)
    &&& g.closure.to_multiset() == c.to_multiset()
    &&& stable_groups(g.closure, c)
    &&& strictly_sorted(g.selected)
    &&& same_texts(g.selected, s)
}

/// `e` is the error that `to_snapshot` reports for the export of the
/// capture: an export exists, and every export is rejected with `e`.
pub open spec fn export_rejected_with(
    e: SnapshotError,
    root: Seq<char>,
    c: Seq<(Seq<char>, i64)>,
    s: Seq<Seq<char>>,
) -> bool {
    &&& exists|g: SnapshotModel|
        #![trigger snapshot_check(g)]
        exported_from(g, root, c, s) && snapshot_check(g) == Err::<(), SnapshotError>(e)
    &&& forall|g: SnapshotModel|
        #[trigger] exported_from(g, root, c, s) ==> snapshot_check(g) == Err::<(), SnapshotError>(e)
}

/// When a capture can be exported: the root and every member are store
/// paths, member paths are distinct, sizes are not negative and add up to
/// at most `i64::MAX`, and the root and every selected path are members.
pub open spec fn capture_ok(root: Seq<char>, c: Seq<(Seq<char>, i64)>, s: Seq<Seq<char>>) -> bool {
    &&& is_store_path(root)
    &&& forall|i: int| 0 <= i < c.len() ==> is_store_path(#[trigger] c[i].0)
    &&& forall|i: int| 0 <= i < c.len() ==> (#[trigger] c[i]).1 >= 0
    &&& forall|i: int, j: int| 0 <= i < j < c.len() ==> (#[trigger] c[i]).0 != (#[trigger] c[j]).0
    &&& total_size(c) <= i64::MAX
    &&& closure_paths(c).contains(root)
    &&& forall|i: int| 0 <= i < s.len() ==> closure_paths(c).contains(#[trigger] s[i])
}

/// Appending a member appends it to its path's group only.
proof fn lemma_with_path_push(c: Seq<(Seq<char>, i64)>, x: (Seq<char>, i64), k: Seq<char>)
    ensures
        with_path(c.push(x), k) == (if x.0 == k {
            with_path(c, k).push(x)
        } else {
            with_path(c, k)
        }),
{
    assert(c.push(x).drop_last() =~= c);
}

/// Groups of a concatenation are the concatenated groups.
proof fn lemma_with_path_add(a: Seq<(Seq<char>, i64)>, b: Seq<(Seq<char>, i64)>, k: Seq<char>)
    ensures
        with_path(a + b, k) == with_path(a, k) + with_path(b, k),
    decreases b.len(),
{
    if b.len() == 0 {
        assert(a + b =~= a);
        assert(with_path(a, k) + with_path(b, k) =~= with_path(a, k));
    } else {
        lemma_with_path_add(a, b.drop_last(), k);
        assert((a + b).drop_last() =~= a + b.drop_last());
        assert((a + b).last() == b.last());
        if b.last().0 == k {
            assert(with_path(a, k) + with_path(b.drop_last(), k).push(b.last()) =~= (with_path(a, k)
                + with_path(b.drop_last(), k)).push(b.last()));
        }
    }
}

/// A list without path `k` has an empty group for `k`.
proof fn lemma_with_path_absent(c: Seq<(Seq<char>, i64)>, k: Seq<char>)
    requires
        forall|i: int| 0 <= i < c.len() ==> (#[trigger] c[i]).0 != k,
    ensures
        with_path(c, k) == Seq::<(Seq<char>, i64)>::empty(),
    decreases c.len(),
{
    if c.len() > 0 {
        lemma_with_path_absent(c.drop_last(), k);
        assert(c.last() == c[c.len() - 1]);
    }
}

/// The group of `k` holds exactly the members with path `k`.
proof fn lemma_with_path_contains(c: Seq<(Seq<char>, i64)>, k: Seq<char>, x: (Seq<char>, i64))
    ensures
        with_path(c, k).contains(x) <==> c.contains(x) && x.0 == k,
    decreases c.len(),
{
    if c.len() > 0 {
        let c1 = c.drop_last();
        lemma_with_path_contains(c1, k, x);
        assert(c =~= c1.push(c.last()));
        if with_path(c, k).contains(x) {
            let w = with_path(c, k);
            let i = choose|i: int| 0 <= i < w.len() && w[i] == x;
            if c.last().0 == k && i == w.len() - 1 {
                assert(c[c.len() - 1] == x);
            } else {
                assert(with_path(c1, k)[i] == x);
                let j = choose|j: int| 0 <= j < c1.len() && c1[j] == x;
                assert(c[j] == x);
            }
        }
        if c.contains(x) && x.0 == k {
            let j = choose|j: int| 0 <= j < c.len() && c[j] == x;
            if j == c.len() - 1 {
                let w = with_path(c, k);
                assert(w[w.len() - 1] == x);
            } else {
                assert(c1[j] == x);
                let w1 = with_path(c1, k);
                let i = choose|i: int| 0 <= i < w1.len() && w1[i] == x;
                assert(with_path(c, k)[i] == x);
            }
        }
    }
}

/// The group of the first member's path starts with that member.
proof fn lemma_with_path_first(c: Seq<(Seq<char>, i64)>, k: Seq<char>)
    requires
        c.len() > 0,
    ensures
        with_path(c, k) == (if c[0].0 == k {
            seq![c[0]] + with_path(c.drop_first(), k)
        } else {
            with_path(c.drop_first(), k)
        }),
{
    assert(c =~= seq![c[0]] + c.drop_first());
    lemma_with_path_add(seq![c[0]], c.drop_first(), k);
    let one = seq![c[0]];
    assert(one.drop_last() =~= Seq::<(Seq<char>, i64)>::empty());
    assert(with_path(one.drop_last(), k) =~= Seq::<(Seq<char>, i64)>::empty());
    if c[0].0 == k {
        assert(with_path(one, k) =~= seq![c[0]]);
    } else {
        assert(with_path(one, k) =~= Seq::<(Seq<char>, i64)>::empty());
        assert(Seq::<(Seq<char>, i64)>::empty() + with_path(c.drop_first(), k) =~= with_path(
            c.drop_first(),
            k,
        ));
    }
}

/// Two path-sorted lists with the same groups are equal.
proof fn lemma_sorted_groups_unique(a: Seq<(Seq<char>, i64)>, b: Seq<(Seq<char>, i64)>)
    requires
        paths_sorted(a),
        paths_sorted(b),
        forall|k: Seq<char>| #[trigger] with_path(a, k) == with_path(b, k),
    ensures
        a == b,
    decreases a.len() + b.len(),
{
    if a.len() == 0 || b.len() == 0 {
        if a.len() > 0 {
            lemma_with_path_contains(a, a[0].0, a[0]);
            lemma_with_path_contains(b, a[0].0, a[0]);
            assert(a.contains(a[0]));
            assert(with_path(a, a[0].0) == with_path(b, a[0].0));
        }
        if b.len() > 0 {
            lemma_with_path_contains(b, b[0].0, b[0]);
            lemma_with_path_contains(a, b[0].0, b[0]);
            assert(b.contains(b[0]));
            assert(with_path(a, b[0].0) == with_path(b, b[0].0));
        }
        assert(a =~= b);
    } else {
        let ka = a[0].0;
        let kb = b[0].0;
        // Each first path occurs in the other list, so neither comes after the other.
        assert(b.contains(b[0]));
        lemma_with_path_contains(b, kb, b[0]);
        assert(with_path(a, kb) == with_path(b, kb));
        lemma_with_path_contains(a, kb, b[0]);
        let i = choose|i: int| 0 <= i < a.len() && a[i] == b[0];
        if i > 0 {
            assert(text_le(a[0].0, a[i].0));
        }
        assert(a.contains(a[0]));
        lemma_with_path_contains(a, ka, a[0]);
        assert(with_path(a, ka) == with_path(b, ka));
        lemma_with_path_contains(b, ka, a[0]);
        let j = choose|j: int| 0 <= j < b.len() && b[j] == a[0];
        if j > 0 {
            assert(text_le(b[0].0, b[j].0));
        }
        lemma_text_lt_trichotomy(ka, kb);
        assert(ka == kb);
        lemma_with_path_first(a, ka);
        lemma_with_path_first(b, ka);
        assert(with_path(a, ka) == with_path(b, ka));
        assert((seq![a[0]] + with_path(a.drop_first(), ka))[0] == a[0]);
        assert((seq![b[0]] + with_path(b.drop_first(), ka))[0] == b[0]);
        assert(a[0] == b[0]);
        let a1 = a.drop_first();
        let b1 = b.drop_first();
        assert forall|k: Seq<char>| #[trigger] with_path(a1, k) == with_path(b1, k) by {
            lemma_with_path_first(a, k);
            lemma_with_path_first(b, k);
            assert(with_path(a, k) == with_path(b, k));
            if k == ka {
                assert(with_path(a1, k) =~= (seq![a[0]] + with_path(a1, k)).drop_first());
                assert(with_path(b1, k) =~= (seq![b[0]] + with_path(b1, k)).drop_first());
            }
        }
        assert forall|x: int, y: int| 0 <= x < y < a1.len() implies text_le(
            (#[trigger] a1[x]).0,
            (#[trigger] a1[y]).0,
        ) by {
            assert(a1[x] == a[x + 1] && a1[y] == a[y + 1]);
        }
        assert forall|x: int, y: int| 0 <= x < y < b1.len() implies text_le(
            (#[trigger] b1[x]).0,
            (#[trigger] b1[y]).0,
        ) by {
            assert(b1[x] == b[x + 1] && b1[y] == b[y + 1]);
        }
        lemma_sorted_groups_unique(a1, b1);
        assert(a.len() == b.len());
        assert forall|x: int| 0 <= x < a.len() implies a[x] == b[x] by {
            if x > 0 {
                assert(a[x] == a1[x - 1] && b[x] == b1[x - 1]);
            }
        }
        assert(a =~= b);
    }
}

/// Export is a function of its input: two exports of the same capture are
/// the same file.
pub proof fn lemma_export_unique(
    g1: SnapshotModel,
    g2: SnapshotModel,
    root: Seq<char>,
    c: Seq<(Seq<char>, i64)>,
    s: Seq<Seq<char>>,
)
    requires
        exported_from(g1, root, c, s),
        exported_from(g2, root, c, s),
    ensures
        g1 == g2,
{
    assert forall|k: Seq<char>| #[trigger] with_path(g1.closure, k) == with_path(g2.closure, k) by {
        assert(with_path(g1.closure, k) == with_path(c, k));
        assert(with_path(g2.closure, k) == with_path(c, k));
    }
    lemma_sorted_groups_unique(g1.closure, g2.closure);
    let id = |t: Seq<char>| t;
    assert forall|x: Seq<char>| g1.selected.contains(x) <==> g2.selected.contains(x) by {
        assert(g1.selected.contains(x) <==> s.contains(x));
        assert(g2.selected.contains(x) <==> s.contains(x));
    }
    assert forall|i: int, j: int| 0 <= i < j < g1.selected.len() implies text_lt(id(#[trigger] g1.selected[i]), id(#[trigger] g1.selected[j])) by {}
    assert forall|i: int, j: int| 0 <= i < j < g2.selected.len() implies text_lt(id(#[trigger] g2.selected[i]), id(#[trigger] g2.selected[j])) by {}
    lemma_strictly_sorted_unique(g1.selected, g2.selected, id);
}

/// Inserting a member adds its size to the total.
proof fn lemma_total_size_insert(c: Seq<(Seq<char>, i64)>, p: int, x: (Seq<char>, i64))
    requires
        0 <= p <= c.len(),
    ensures
        total_size(c.insert(p, x)) == total_size(c) + x.1,
    decreases c.len(),
{
    if p == c.len() {
        assert(c.insert(p, x).drop_last() =~= c);
    } else {
        lemma_total_size_insert(c.drop_last(), p, x);
        assert(c.insert(p, x).drop_last() =~= c.drop_last().insert(p, x));
    }
}

/// Reordering the members keeps the multiset of their paths and their total size.
proof fn lemma_permutation_keeps_paths_and_total(a: Seq<(Seq<char>, i64)>, b: Seq<(Seq<char>, i64)>)
    requires
        a.to_multiset() == b.to_multiset(),
    ensures
        closure_paths(a).to_multiset() == closure_paths(b).to_multiset(),
        total_size(a) == total_size(b),
        a.len() == b.len(),
    decreases a.len(),
{
    broadcast use vstd::multiset::group_multiset_axioms;
    to_multiset_len(a);
    to_multiset_len(b);
    if a.len() == 0 {
        assert(b.len() == 0);
        assert(closure_paths(a) =~= closure_paths(b));
    } else {
        let x = a.last();
        let a1 = a.drop_last();
        assert(a =~= a1.push(x));
        to_multiset_build(a1, x);
        to_multiset_contains(a, x);
        to_multiset_contains(b, x);
        let q = choose|q: int| 0 <= q < b.len() && b[q] == x;
        let b1 = b.remove(q);
        to_multiset_remove(b, q);
        assert(a1.to_multiset() =~= b1.to_multiset());
        lemma_permutation_keeps_paths_and_total(a1, b1);
        assert(b =~= b1.insert(q, x));
        lemma_total_size_insert(b1, q, x);
        assert(closure_paths(b) =~= closure_paths(b1).insert(q, x.0));
        to_multiset_insert(closure_paths(b1), q, x.0);
        assert(closure_paths(a) =~= closure_paths(a1).push(x.0));
        to_multiset_build(closure_paths(a1), x.0);
    }
}

/// A sequence's multiset of texts has counts of at most one exactly when the
/// sequence has no repetition.
proof fn lemma_no_duplicates_by_count(a: Seq<Seq<char>>, b: Seq<Seq<char>>)
    requires
        a.to_multiset() == b.to_multiset(),
        a.no_duplicates(),
    ensures
        b.no_duplicates(),
{
    a.lemma_multiset_has_no_duplicates();
    b.lemma_multiset_has_no_duplicates_conv();
}

/// Membership agrees between sequences with equal multisets.
proof fn lemma_multiset_contains<A>(a: Seq<A>, b: Seq<A>, x: A)
    requires
        a.to_multiset() == b.to_multiset(),
    ensures
        a.contains(x) <==> b.contains(x),
{
    to_multiset_contains(a, x);
    to_multiset_contains(b, x);
}

/// Distinct member paths, stated on the list of paths.
proof fn lemma_distinct_paths(c: Seq<(Seq<char>, i64)>)
    ensures
        (forall|i: int, j: int| 0 <= i < j < c.len() ==> (#[trigger] c[i]).0 != (#[trigger] c[j]).0)
            <==> closure_paths(c).no_duplicates(),
{
    let p = closure_paths(c);
    if forall|i: int, j: int| 0 <= i < j < c.len() ==> (#[trigger] c[i]).0 != (#[trigger] c[j]).0 {
        assert forall|i: int, j: int| 0 <= i < p.len() && 0 <= j < p.len() && i != j implies p[i]
            != p[j] by {
            if i < j {
                assert(c[i].0 != c[j].0);
            } else {
                assert(c[j].0 != c[i].0);
            }
        }
    }
    if p.no_duplicates() {
        assert forall|i: int, j: int| 0 <= i < j < c.len() implies (#[trigger] c[i]).0 != (
        #[trigger] c[j]).0 by {
            assert(p[i] != p[j]);
        }
    }
}

/// The conditions `capture_ok` puts on the members hold of a closure
/// exactly when they hold of any reordering of it.
pub(crate) proof fn lemma_reordered_closure(a: Seq<(Seq<char>, i64)>, b: Seq<(Seq<char>, i64)>)
    requires
        a.to_multiset() == b.to_multiset(),
    ensures
        (forall|i: int| 0 <= i < a.len() ==> is_store_path(#[trigger] a[i].0)) <==> (forall|i: int|
            0 <= i < b.len() ==> is_store_path(#[trigger] b[i].0)),
        (forall|i: int| 0 <= i < a.len() ==> (#[trigger] a[i]).1 >= 0) <==> (forall|i: int|
            0 <= i < b.len() ==> (#[trigger] b[i]).1 >= 0),
        (forall|i: int, j: int| 0 <= i < j < a.len() ==> (#[trigger] a[i]).0 != (#[trigger] a[j]).0)
            <==> (forall|i: int, j: int|
            0 <= i < j < b.len() ==> (#[trigger] b[i]).0 != (#[trigger] b[j]).0),
        total_size(a) == total_size(b),
        forall|t: Seq<char>| closure_paths(a).contains(t) <==> closure_paths(b).contains(t),
{
    lemma_reordered_closure_one_way(a, b);
    lemma_reordered_closure_one_way(b, a);
    lemma_permutation_keeps_paths_and_total(a, b);
    let pa = closure_paths(a);
    let pb = closure_paths(b);
    assert forall|t: Seq<char>| pa.contains(t) <==> pb.contains(t) by {
        lemma_multiset_contains(pa, pb, t);
    }
    lemma_distinct_paths(a);
    lemma_distinct_paths(b);
    if pa.no_duplicates() {
        lemma_no_duplicates_by_count(pa, pb);
    }
    if pb.no_duplicates() {
        lemma_no_duplicates_by_count(pb, pa);
    }
}

proof fn lemma_reordered_closure_one_way(a: Seq<(Seq<char>, i64)>, b: Seq<(Seq<char>, i64)>)
    requires
        a.to_multiset() == b.to_multiset(),
    ensures
        (forall|i: int| 0 <= i < a.len() ==> is_store_path(#[trigger] a[i].0)) ==> (forall|i: int|
            0 <= i < b.len() ==> is_store_path(#[trigger] b[i].0)),
        (forall|i: int| 0 <= i < a.len() ==> (#[trigger] a[i]).1 >= 0) ==> (forall|i: int|
            0 <= i < b.len() ==> (#[trigger] b[i]).1 >= 0),
{
    assert forall|i: int| 0 <= i < b.len() implies a.contains(#[trigger] b[i]) by {
        assert(b.contains(b[i]));
        lemma_multiset_contains(a, b, b[i]);
    }
    if forall|i: int| 0 <= i < a.len() ==> is_store_path(#[trigger] a[i].0) {
        assert forall|i: int| 0 <= i < b.len() implies is_store_path(#[trigger] b[i].0) by {
            assert(a.contains(b[i]));
            let k = choose|k: int| 0 <= k < a.len() && a[k] == b[i];
            assert(is_store_path(a[k].0));
        }
    }
    if forall|i: int| 0 <= i < a.len() ==> (#[trigger] a[i]).1 >= 0 {
        assert forall|i: int| 0 <= i < b.len() implies (#[trigger] b[i]).1 >= 0 by {
            assert(a.contains(b[i]));
            let k = choose|k: int| 0 <= k < a.len() && a[k] == b[i];
            assert(a[k].1 >= 0);
        }
    }
}

/// For an export, the consistency of the exported file is exactly the
/// exportability of the capture.
pub proof fn lemma_export_consistency(
    g: SnapshotModel,
    root: Seq<char>,
    c: Seq<(Seq<char>, i64)>,
    s: Seq<Seq<char>>,
)
    requires
        exported_from(g, root, c, s),
    ensures
        is_consistent(g) <==> capture_ok(root, c, s),
{
    lemma_reordered_closure(g.closure, c);
    assert forall|i: int| 0 <= i < g.selected.len() implies s.contains(#[trigger] g.selected[i]) by {
        assert(g.selected.contains(g.selected[i]));
    }
    assert forall|i: int| 0 <= i < s.len() implies g.selected.contains(#[trigger] s[i]) by {
        assert(s.contains(s[i]));
    }
    assert forall|i: int, j: int| 0 <= i < j < g.selected.len() implies #[trigger] g.selected[i]
        != #[trigger] g.selected[j] by {
        lemma_text_lt_trichotomy(g.selected[i], g.selected[j]);
    }
}

/// Whether a capture can be exported does not depend on the order in which
/// its members and selected paths arrive, nor on repeated selected paths.
pub proof fn lemma_capture_ok_ignores_order(
    root: Seq<char>,
    c1: Seq<(Seq<char>, i64)>,
    c2: Seq<(Seq<char>, i64)>,
    s1: Seq<Seq<char>>,
    s2: Seq<Seq<char>>,
)
    requires
        c1.to_multiset() == c2.to_multiset(),
        same_texts(s1, s2),
    ensures
        capture_ok(root, c1, s1) <==> capture_ok(root, c2, s2),
{
    lemma_reordered_closure(c1, c2);
    assert forall|i: int| 0 <= i < s1.len() implies s2.contains(#[trigger] s1[i]) by {
        assert(s1.contains(s1[i]));
    }
    assert forall|i: int| 0 <= i < s2.len() implies s1.contains(#[trigger] s2[i]) by {
        assert(s2.contains(s2[i]));
    }
}

/// Export is deterministic: two captures of the same root whose closures
/// hold the same members and whose selected lists hold the same paths, in
/// whatever order, export to the same file.
pub proof fn lemma_export_deterministic(
    g1: SnapshotModel,
    g2: SnapshotModel,
    root: Seq<char>,
    c1: Seq<(Seq<char>, i64)>,
    c2: Seq<(Seq<char>, i64)>,
    s1: Seq<Seq<char>>,
    s2: Seq<Seq<char>>,
)
    requires
        exported_from(g1, root, c1, s1),
        exported_from(g2, root, c2, s2),
        c1.to_multiset() == c2.to_multiset(),
        same_texts(s1, s2),
        is_consistent(g1),
    ensures
        is_consistent(g2),
        g1 == g2,
{
    lemma_export_consistency(g1, root, c1, s1);
    lemma_export_consistency(g2, root, c2, s2);
    lemma_capture_ok_ignores_order(root, c1, c2, s1, s2);
    let a = g1.closure;
    let b = g2.closure;
    assert(a.to_multiset() == b.to_multiset());
    assert forall|x: (Seq<char>, i64)| a.contains(x) <==> b.contains(x) by {
        lemma_multiset_contains(a, b, x);
    }
    let key = |e: (Seq<char>, i64)| e.0;
    assert forall|i: int, j: int| 0 <= i < j < a.len() implies text_lt(key(#[trigger] a[i]), key(#[trigger] a[j])) by {
        assert(text_le(a[i].0, a[j].0));
    }
    assert forall|i: int, j: int| 0 <= i < j < b.len() implies text_lt(key(#[trigger] b[i]), key(#[trigger] b[j])) by {
        assert(text_le(b[i].0, b[j].0));
    }
    lemma_strictly_sorted_unique(a, b, key);
    let id = |t: Seq<char>| t;
    assert forall|x: Seq<char>| g1.selected.contains(x) <==> g2.selected.contains(x) by {
        assert(g1.selected.contains(x) <==> s1.contains(x));
        assert(g2.selected.contains(x) <==> s2.contains(x));
    }
    assert forall|i: int, j: int| 0 <= i < j < g1.selected.len() implies text_lt(id(#[trigger] g1.selected[i]), id(#[trigger] g1.selected[j])) by {}
    assert forall|i: int, j: int| 0 <= i < j < g2.selected.len() implies text_lt(id(#[trigger] g2.selected[i]), id(#[trigger] g2.selected[j])) by {}
    lemma_strictly_sorted_unique(g1.selected, g2.selected, id);
}

/// A copy of a member.
fn copy_entry(e: &SnapshotPath) -> (r: SnapshotPath)
    ensures
        r@ == e@,
{
    SnapshotPath { path: e.path.clone(), nar_size: e.nar_size }
}

/// Merges two path-sorted lists, taking from `a` on equal paths.
fn merge(a: &Vec<SnapshotPath>, b: &Vec<SnapshotPath>) -> (r: Vec<SnapshotPath>)
    requires
        paths_sorted(entries_view(a@)),
        paths_sorted(entries_view(b@)),
    ensures
        paths_sorted(entries_view(r@)),
        entries_view(r@).to_multiset() == entries_view(a@).to_multiset().add(
            entries_view(b@).to_multiset(),
        ),
        forall|k: Seq<char>|
            #[trigger] with_path(entries_view(r@), k) == with_path(entries_view(a@), k) + with_path(
                entries_view(b@),
                k,
            ),
{
    broadcast use vstd::multiset::group_multiset_axioms;
    let ghost av = entries_view(a@);
    let ghost bv = entries_view(b@);
    let na = a.len();
    let nb = b.len();
    let mut out: Vec<SnapshotPath> = Vec::new();
    let mut i: usize = 0;
    let mut j: usize = 0;
    proof {
        assert(av.take(0) =~= Seq::<(Seq<char>, i64)>::empty());
        assert(bv.take(0) =~= Seq::<(Seq<char>, i64)>::empty());
        assert(entries_view(out@) =~= Seq::<(Seq<char>, i64)>::empty());
        let e = Seq::<(Seq<char>, i64)>::empty();
        to_multiset_len(e);
        vstd::multiset::lemma_multiset_empty_len(e.to_multiset());
        assert(e.to_multiset().add(e.to_multiset()) =~= e.to_multiset());
        assert forall|k: Seq<char>| #[trigger] with_path(entries_view(out@), k) == with_path(av.take(0), k)
            + with_path(bv.take(0), k) by {
            assert(Seq::<(Seq<char>, i64)>::empty() + Seq::<(Seq<char>, i64)>::empty() =~= Seq::<
                (Seq<char>, i64),
            >::empty());
        }
    }
    while i < na || j < nb
        invariant
            av == entries_view(a@),
            bv == entries_view(b@),
            na == av.len(),
            nb == bv.len(),
            i <= na,
            j <= nb,
            paths_sorted(av),
            paths_sorted(bv),
            paths_sorted(entries_view(out@)),
            out@.len() == i + j,
            entries_view(out@).to_multiset() == av.take(i as int).to_multiset().add(
                bv.take(j as int).to_multiset(),
            ),
            forall|k: Seq<char>|
                #[trigger] with_path(entries_view(out@), k) == with_path(av.take(i as int), k)
                    + with_path(bv.take(j as int), k),
            i < na ==> forall|q: int| 0 <= q < j ==> text_lt((#[trigger] bv[q]).0, av[i as int].0),
            out@.len() > 0 && i < na ==> text_le(entries_view(out@).last().0, av[i as int].0),
            out@.len() > 0 && j < nb ==> text_le(entries_view(out@).last().0, bv[j as int].0),
        decreases na + nb - i - j,
    {
        let ghost ov = entries_view(out@);
        let take_a = if i < na && j < nb {
            !text_less(b[j].path.as_str(), a[i].path.as_str())
        } else {
            i < na
        };
        let x = if take_a {
            copy_entry(&a[i])
        } else {
            copy_entry(&b[j])
        };
        let ghost xv = x@;
        proof {
            if take_a {
                assert(xv == av[i as int]);
                if j < nb {
                    lemma_text_lt_trichotomy(bv[j as int].0, av[i as int].0);
                }
            } else {
                assert(xv == bv[j as int]);
            }
            // Everything placed so far comes before `x`.
            if ov.len() > 0 {
                assert(text_le(ov.last().0, xv.0));
            }
        }
        out.push(x);
        proof {
            let nv = entries_view(out@);
            assert(nv =~= ov.push(xv));
            assert forall|p: int, q: int| 0 <= p < q < nv.len() implies text_le(
                (#[trigger] nv[p]).0,
                (#[trigger] nv[q]).0,
            ) by {
                if q == ov.len() {
                    assert(nv[p] == ov[p]);
                    if p < ov.len() - 1 {
                        assert(text_le(ov[p].0, ov[ov.len() - 1].0));
                        lemma_text_le_transitive(ov[p].0, ov.last().0, xv.0);
                    }
                } else {
                    assert(nv[p] == ov[p] && nv[q] == ov[q]);
                }
            }
            to_multiset_build(ov, xv);
            if take_a {
                assert(av.take(i + 1) =~= av.take(i as int).push(xv));
                to_multiset_build(av.take(i as int), xv);
                assert forall|q: int| 0 <= q < bv.take(j as int).len() implies (#[trigger] bv.take(
                    j as int,
                )[q]).0 != xv.0 by {
                    assert(bv.take(j as int)[q] == bv[q]);
                    lemma_text_lt_trichotomy(bv[q].0, xv.0);
                }
                lemma_with_path_absent(bv.take(j as int), xv.0);
                assert forall|k: Seq<char>| #[trigger] with_path(nv, k) == with_path(av.take(i + 1), k)
                    + with_path(bv.take(j as int), k) by {
                    lemma_with_path_push(ov, xv, k);
                    lemma_with_path_push(av.take(i as int), xv, k);
                    if k == xv.0 {
                        assert(with_path(av.take(i as int), k) + Seq::<(Seq<char>, i64)>::empty()
                            =~= with_path(av.take(i as int), k));
                        assert(with_path(av.take(i as int), k).push(xv) + Seq::<(Seq<char>, i64)>::empty()
                            =~= with_path(av.take(i as int), k).push(xv));
                    }
                }
                if i + 1 < na {
                    assert(text_le(av[i as int].0, av[i + 1].0));
                    assert forall|q: int| 0 <= q < j implies text_lt((#[trigger] bv[q]).0, av[i + 1].0) by {
                        lemma_text_le_transitive(bv[q].0, av[i as int].0, av[i + 1].0);
                    }
                }
            } else {
                assert(bv.take(j + 1) =~= bv.take(j as int).push(xv));
                to_multiset_build(bv.take(j as int), xv);
                assert forall|k: Seq<char>| #[trigger] with_path(nv, k) == with_path(av.take(i as int), k)
                    + with_path(bv.take(j + 1), k) by {
                    lemma_with_path_push(ov, xv, k);
                    lemma_with_path_push(bv.take(j as int), xv, k);
                    if k == xv.0 {
                        assert((with_path(av.take(i as int), k) + with_path(bv.take(j as int), k)).push(
                            xv,
                        ) =~= with_path(av.take(i as int), k) + with_path(bv.take(j as int), k).push(
                            xv,
                        ));
                    }
                }
                if i < na {
                    assert(text_lt(xv.0, av[i as int].0));
                    assert forall|q: int| 0 <= q < j + 1 implies text_lt((#[trigger] bv[q]).0, av[i as int].0) by {
                        if q < j {
                        } else {
                            assert(bv[q] == xv);
                        }
                    }
                }
                if j + 1 < nb {
                    assert(text_le(bv[j as int].0, bv[j + 1].0));
                }
            }
        }
        if take_a {
            i += 1;
        } else {
            j += 1;
        }
    }
    proof {
        assert(av.take(na as int) =~= av);
        assert(bv.take(nb as int) =~= bv);
    }
    out
}

/// The members at positions `lo..hi` ordered by path; members with equal
/// paths keep their order (merge sort).
fn sort_range(c: &Vec<SnapshotPath>, lo: usize, hi: usize) -> (r: Vec<SnapshotPath>)
    requires
        lo <= hi <= c@.len(),
    ensures
        paths_sorted(entries_view(r@)),
        entries_view(r@).to_multiset() == entries_view(c@).subrange(lo as int, hi as int).to_multiset(),
        stable_groups(entries_view(r@), entries_view(c@).subrange(lo as int, hi as int)),
    decreases hi - lo,
{
    let ghost sv = entries_view(c@).subrange(lo as int, hi as int);
    if hi - lo <= 1 {
        let mut out: Vec<SnapshotPath> = Vec::new();
        if hi - lo == 1 {
            out.push(copy_entry(&c[lo]));
        }
        proof {
            assert(entries_view(out@) =~= sv);
        }
        return out;
    }
    let mid = lo + (hi - lo) / 2;
    let left = sort_range(c, lo, mid);
    let right = sort_range(c, mid, hi);
    let out = merge(&left, &right);
    proof {
        let s1 = entries_view(c@).subrange(lo as int, mid as int);
        let s2 = entries_view(c@).subrange(mid as int, hi as int);
        assert(sv =~= s1 + s2);
        vstd::seq_lib::lemma_multiset_commutative(s1, s2);
        assert forall|k: Seq<char>| #[trigger] with_path(entries_view(out@), k) == with_path(sv, k) by {
            lemma_with_path_add(s1, s2, k);
        }
    }
    out
}

/// The members ordered by path; members with equal paths keep their order.
pub(crate) fn sort_by_path(c: &Vec<SnapshotPath>) -> (r: Vec<SnapshotPath>)
    ensures
        paths_sorted(entries_view(r@)),
        entries_view(r@).to_multiset() == entries_view(c@).to_multiset(),
        stable_groups(entries_view(r@), entries_view(c@)),
{
    let r = sort_range(c, 0, c.len());
    assert(entries_view(c@).subrange(0, c@.len() as int) =~= entries_view(c@));
    r
}

/// The texts as members of size 0, in order.
pub(crate) fn as_entries(s: &Vec<String>) -> (r: Vec<SnapshotPath>)
    ensures
        closure_paths(entries_view(r@)) == texts_view(s@),
{
    let n = s.len();
    let mut out: Vec<SnapshotPath> = Vec::new();
    for q in 0..n
        invariant
            n == s@.len(),
            closure_paths(entries_view(out@)) == texts_view(s@).take(q as int),
    {
        let ghost before = out@;
        out.push(SnapshotPath { path: s[q].clone(), nar_size: 0 });
        proof {
            assert(closure_paths(entries_view(out@)) =~= closure_paths(entries_view(before)).push(
                s@[q as int]@,
            ));
            assert(texts_view(s@).take(q + 1) =~= texts_view(s@).take(q as int).push(s@[q as int]@));
        }
    }
    assert(texts_view(s@).take(n as int) =~= texts_view(s@));
    out
}

/// For a path-sorted list: whether all paths differ, decided by comparing
/// neighbours.
pub(crate) fn paths_distinct(c: &Vec<SnapshotPath>) -> (r: bool)
    requires
        paths_sorted(entries_view(c@)),
    ensures
        r == (forall|i: int, j: int|
            0 <= i < j < c@.len() ==> (#[trigger] entries_view(c@)[i]).0 != (
            #[trigger] entries_view(c@)[j]).0),
{
    let ghost cv = entries_view(c@);
    let n = c.len();
    if n == 0 {
        return true;
    }
    for q in 1..n
        invariant
            cv == entries_view(c@),
            n == cv.len(),
            paths_sorted(cv),
            forall|i: int, j: int| 0 <= i < j < q ==> (#[trigger] cv[i]).0 != (#[trigger] cv[j]).0,
    {
        if c[q - 1].path == c[q].path {
            assert(cv[q - 1].0 == cv[q as int].0);
            return false;
        }
        proof {
            assert(text_le(cv[q - 1].0, cv[q as int].0));
            lemma_text_lt_trichotomy(cv[q - 1].0, cv[q as int].0);
            assert forall|i: int, j: int| 0 <= i < j < q + 1 implies (#[trigger] cv[i]).0 != (
            #[trigger] cv[j]).0 by {
                if j == q {
                    if i < q - 1 {
                        assert(text_le(cv[i].0, cv[q - 1].0));
                    }
                    lemma_text_le_transitive(cv[i].0, cv[q - 1].0, cv[q as int].0);
                    lemma_text_lt_irreflexive(cv[q as int].0);
                }
            }
        }
    }
    true
}

/// For a path-sorted list: whether some member has path `p` (binary search).
pub(crate) fn has_path(c: &Vec<SnapshotPath>, p: &String) -> (r: bool)
    requires
        paths_sorted(entries_view(c@)),
    ensures
        r == closure_paths(entries_view(c@)).contains(p@),
{
    let ghost cv = entries_view(c@);
    let n = c.len();
    let mut lo: usize = 0;
    let mut hi: usize = n;
    while lo < hi
        invariant
            cv == entries_view(c@),
            n == cv.len(),
            paths_sorted(cv),
            lo <= hi <= n,
            forall|q: int| 0 <= q < lo ==> text_lt((#[trigger] cv[q]).0, p@),
            forall|q: int| hi <= q < n ==> text_lt(p@, (#[trigger] cv[q]).0),
        decreases hi - lo,
    {
        let mid = lo + (hi - lo) / 2;
        if c[mid].path == *p {
            assert(closure_paths(cv)[mid as int] == p@);
            return true;
        }
        let before = text_less(p.as_str(), c[mid].path.as_str());
        proof {
            lemma_text_lt_trichotomy(p@, cv[mid as int].0);
        }
        if before {
            proof {
                assert forall|q: int| mid <= q < n implies text_lt(p@, (#[trigger] cv[q]).0) by {
                    if q > mid {
                        assert(text_le(cv[mid as int].0, cv[q].0));
                        lemma_text_le_transitive(p@, cv[mid as int].0, cv[q].0);
                    }
                }
            }
            hi = mid;
        } else {
            proof {
                assert forall|q: int| 0 <= q < mid + 1 implies text_lt((#[trigger] cv[q]).0, p@) by {
                    if q < mid {
                        assert(text_le(cv[q].0, cv[mid as int].0));
                        lemma_text_le_transitive(cv[q].0, cv[mid as int].0, p@);
                    }
                }
            }
            lo = mid + 1;
        }
    }
    proof {
        if closure_paths(cv).contains(p@) {
            let q = choose|q: int| 0 <= q < n && closure_paths(cv)[q] == p@;
            assert(cv[q].0 == p@);
            lemma_text_lt_irreflexive(p@);
        }
    }
    false
}

/// The texts sorted, each kept once.
fn sort_unique(s: &Vec<String>) -> (r: Vec<String>)
    ensures
        strictly_sorted(texts_view(r@)),
        same_texts(texts_view(r@), texts_view(s@)),
{
    let wrapped = as_entries(s);
    let sorted = sort_by_path(&wrapped);
    let ghost sv = entries_view(sorted@);
    proof {
        lemma_reordered_closure(sv, entries_view(wrapped@));
    }
    let n = sorted.len();
    let mut out: Vec<String> = Vec::new();
    proof {
        assert(texts_view(out@) =~= Seq::<Seq<char>>::empty());
        assert(closure_paths(sv.take(0)) =~= Seq::<Seq<char>>::empty());
    }
    for q in 0..n
        invariant
            n == sv.len(),
            sv == entries_view(sorted@),
            paths_sorted(sv),
            strictly_sorted(texts_view(out@)),
            same_texts(texts_view(out@), closure_paths(sv.take(q as int))),
            q == 0 ==> out@.len() == 0,
            q > 0 ==> out@.len() > 0 && texts_view(out@).last() == sv[q - 1].0,
    {
        let ghost ov = texts_view(out@);
        let ghost x = sv[q as int].0;
        proof {
            assert(closure_paths(sv.take(q + 1)) =~= closure_paths(sv.take(q as int)).push(x));
        }
        let fresh = q == 0 || out[out.len() - 1] != sorted[q].path;
        if fresh {
            out.push(sorted[q].path.clone());
            proof {
                let nv = texts_view(out@);
                assert(nv =~= ov.push(x));
                if q > 0 {
                    assert(text_le(sv[q - 1].0, x));
                    lemma_text_lt_trichotomy(ov.last(), x);
                    assert(text_lt(ov.last(), x));
                }
                assert forall|i: int, j: int| 0 <= i < j < nv.len() implies text_lt(
                    #[trigger] nv[i],
                    #[trigger] nv[j],
                ) by {
                    if j == ov.len() {
                        assert(nv[i] == ov[i]);
                        if i < ov.len() - 1 {
                            assert(text_lt(ov[i], ov[ov.len() - 1]));
                            lemma_text_lt_transitive(ov[i], ov.last(), x);
                        }
                    } else {
                        assert(nv[i] == ov[i] && nv[j] == ov[j]);
                    }
                }
                assert forall|t: Seq<char>| nv.contains(t) <==> closure_paths(sv.take(q + 1)).contains(t) by {
                    let pq = closure_paths(sv.take(q as int));
                    if nv.contains(t) && t != x {
                        let i = choose|i: int| 0 <= i < nv.len() && nv[i] == t;
                        assert(ov[i] == t);
                        assert(ov.contains(t));
                        assert(pq.contains(t));
                        let k = choose|k: int| 0 <= k < pq.len() && pq[k] == t;
                        assert(pq.push(x)[k] == t);
                    }
                    if closure_paths(sv.take(q + 1)).contains(t) && t != x {
                        let k = choose|k: int| 0 <= k < pq.len() + 1 && pq.push(x)[k] == t;
                        assert(pq[k] == t);
                        assert(pq.contains(t));
                        assert(ov.contains(t));
                        let i = choose|i: int| 0 <= i < ov.len() && ov[i] == t;
                        assert(nv[i] == t);
                    }
                    if t == x {
                        assert(nv[ov.len() as int] == t);
                        assert(pq.push(x)[pq.len() as int] == t);
                    }
                }
            }
        } else {
            proof {
                assert(ov.last() == x);
                assert forall|t: Seq<char>| ov.contains(t) <==> closure_paths(sv.take(q + 1)).contains(t) by {
                    let pq = closure_paths(sv.take(q as int));
                    if t == x {
                        assert(ov[ov.len() - 1] == t);
                        assert(pq.push(x)[pq.len() as int] == t);
                    } else {
                        if ov.contains(t) {
                            let k = choose|k: int| 0 <= k < pq.len() && pq[k] == t;
                            assert(pq.push(x)[k] == t);
                        }
                        if closure_paths(sv.take(q + 1)).contains(t) {
                            let k = choose|k: int| 0 <= k < pq.len() + 1 && pq.push(x)[k] == t;
                            assert(pq[k] == t);
                        }
                    }
                }
            }
        }
    }
    proof {
        assert(sv.take(n as int) =~= sv);
    }
    out
}

impl SnapshotFile {
    /// The export of a capture, not yet checked: version 1, the given
    /// root, the members ordered by path (equal paths in their input
    /// order) and the selected paths sorted with repetitions removed.
    pub fn export(root: String, closure: Vec<SnapshotPath>, selected: Vec<String>) -> (f: SnapshotFile)
        ensures
            exported_from(f@, root@, entries_view(closure@), texts_view(selected@)),
    {
        let sorted = sort_by_path(&closure);
        let unique = sort_unique(&selected);
        SnapshotFile { schema_version: 1, root, closure: sorted, selected: unique }
    }

    /// Builds the snapshot file of a captured closure (see `export`); the
    /// file must then pass `to_snapshot`.
    ///
    /// Succeeds exactly when `capture_ok` holds of the inputs; otherwise the
    /// error is the one `to_snapshot` reports for the export (which is
    /// unique, see `lemma_export_unique`).
    pub fn capture(root: String, closure: Vec<SnapshotPath>, selected: Vec<String>) -> (r: Result<
        SnapshotFile,
        SnapshotError,
    >)
        ensures
            r is Ok <==> capture_ok(root@, entries_view(closure@), texts_view(selected@)),
            match r {
                Ok(f) => {
                    &&& exported_from(f@, root@, entries_view(closure@), texts_view(selected@))
                    &&& is_consistent(f@)
                },
                Err(e) => export_rejected_with(e, root@, entries_view(closure@), texts_view(selected@)),
            },
    {
        let ghost (root_v, closure_v, selected_v) = (root@, entries_view(closure@), texts_view(selected@));
        let file = Self::export(root, closure, selected);
        proof {
            lemma_export_consistency(file@, root_v, closure_v, selected_v);
            lemma_check_is_consistency(file@);
        }
        match file.to_snapshot() {
            Ok(_) => Ok(file),
            Err(e) => {
                proof {
                    assert forall|g: SnapshotModel|
                        #[trigger] exported_from(g, root_v, closure_v, selected_v) implies snapshot_check(g)
                            == Err::<(), SnapshotError>(e) by {
                        lemma_export_unique(g, file@, root_v, closure_v, selected_v);
                    }
                }
                Err(e)
            },
        }
    }
}

/// Two lists that are strictly increasing under `key` and hold the same
/// elements are equal.
proof fn lemma_strictly_sorted_unique<A>(a: Seq<A>, b: Seq<A>, key: spec_fn(A) -> Seq<char>)
    requires
        forall|i: int, j: int| 0 <= i < j < a.len() ==> text_lt(key(#[trigger] a[i]), key(#[trigger] a[j])),
        forall|i: int, j: int| 0 <= i < j < b.len() ==> text_lt(key(#[trigger] b[i]), key(#[trigger] b[j])),
        forall|x: A| a.contains(x) <==> b.contains(x),
    ensures
        a == b,
    decreases a.len() + b.len(),
{
    if a.len() == 0 {
        if b.len() > 0 {
            assert(b.contains(b[0]));
        }
        assert(a =~= b);
    } else if b.len() == 0 {
        assert(a.contains(a[0]));
    } else {
        assert(a.contains(a[0]));
        assert(b.contains(b[0]));
        let q = choose|q: int| 0 <= q < b.len() && b[q] == a[0];
        let p = choose|p: int| 0 <= p < a.len() && a[p] == b[0];
        if q > 0 {
            if p == 0 {
                lemma_text_lt_irreflexive(key(b[0]));
            } else {
                lemma_text_lt_transitive(key(a[0]), key(a[p]), key(b[q]));
                lemma_text_lt_irreflexive(key(a[0]));
            }
        }
        assert(a[0] == b[0]);
        let a1 = a.drop_first();
        let b1 = b.drop_first();
        assert forall|x: A| a1.contains(x) <==> b1.contains(x) by {
            if a1.contains(x) {
                let i = choose|i: int| 0 <= i < a1.len() && a1[i] == x;
                assert(a[i + 1] == x);
                assert(a.contains(x));
                let j = choose|j: int| 0 <= j < b.len() && b[j] == x;
                if j == 0 {
                    lemma_text_lt_irreflexive(key(a[0]));
                }
                assert(b1[j - 1] == x);
            }
            if b1.contains(x) {
                let i = choose|i: int| 0 <= i < b1.len() && b1[i] == x;
                assert(b[i + 1] == x);
                assert(b.contains(x));
                let j = choose|j: int| 0 <= j < a.len() && a[j] == x;
                if j == 0 {
                    lemma_text_lt_irreflexive(key(b[0]));
                }
                assert(a1[j - 1] == x);
            }
        }
        assert forall|i: int, j: int| 0 <= i < j < a1.len() implies text_lt(key(#[trigger] a1[i]), key(#[trigger] a1[j])) by {
            assert(a1[i] == a[i + 1] && a1[j] == a[j + 1]);
        }
        assert forall|i: int, j: int| 0 <= i < j < b1.len() implies text_lt(key(#[trigger] b1[i]), key(#[trigger] b1[j])) by {
            assert(b1[i] == b[i + 1] && b1[j] == b[j + 1]);
        }
        lemma_strictly_sorted_unique(a1, b1, key);
        assert(a.len() == b.len());
        assert forall|i: int| 0 <= i < a.len() implies a[i] == b[i] by {
            if i > 0 {
                assert(a[i] == a1[i - 1] && b[i] == b1[i - 1]);
            }
        }
        assert(a =~= b);
    }
}

/// A file exported from a capture that can be exported passes every check
/// on reading.
pub proof fn lemma_exported_file_is_accepted(
    g: SnapshotModel,
    root: Seq<char>,
    c: Seq<(Seq<char>, i64)>,
    s: Seq<Seq<char>>,
)
    requires
        exported_from(g, root, c, s),
        capture_ok(root, c, s),
    ensures
        snapshot_check(g) == Ok::<(), SnapshotError>(()),
{
    lemma_export_consistency(g, root, c, s);
    lemma_check_is_consistency(g);
}

/// Export is idempotent: exporting the content of an exported, consistent
/// file again gives the same file.
pub proof fn lemma_export_idempotent(
    g: SnapshotModel,
    h: SnapshotModel,
    root: Seq<char>,
    c: Seq<(Seq<char>, i64)>,
    s: Seq<Seq<char>>,
)
    requires
        exported_from(g, root, c, s),
        is_consistent(g),
        exported_from(h, g.root, g.closure, g.selected),
    ensures
        h == g,
{
    lemma_export_deterministic(g, h, root, c, g.closure, s, g.selected);
}

} // verus!
