//! The cache cleaner's plan: which removals empty the cache root, and in
//! what order.
//!
//! The glue code reads the directory tree under the cache root (filesystem
//! I/O), hands it in as an [`FsTree`] forest, and executes the returned
//! actions one by one: a depth-first traversal that removes every child of a
//! directory before the directory itself, and leaves the root in place,
//! empty. A root that does not exist, or is not a directory, never reaches
//! this module: that case is a no-op, reported informationally.

use vstd::prelude::*;

use crate::path_map::joined;
use crate::path_map::join_path;
use crate::path_map::slash;

verus! {

/// Model of one node under the cache root.
pub enum FsTreeSpec {
    File(Seq<u8>),
    Dir(Seq<u8>, Seq<FsTreeSpec>),
}

/// One node under the cache root, as the glue code read it: a file, or a
/// directory with the nodes under it, each carrying its own name.
pub enum FsTree {
    File(Vec<u8>),
    Dir(Vec<u8>, Vec<FsTree>),
}

/// The model of one node.
pub open spec fn view_node(t: FsTree) -> FsTreeSpec
    decreases t,
{
    match t {
        FsTree::File(n) => FsTreeSpec::File(n@),
        FsTree::Dir(n, cs) => FsTreeSpec::Dir(n@, view_forest(cs@)),
    }
}

/// The model of a forest of nodes, elementwise.
pub open spec fn view_forest(cs: Seq<FsTree>) -> Seq<FsTreeSpec>
    decreases cs,
{
    if cs.len() == 0 {
        Seq::empty()
    } else {
        view_forest(cs.drop_last()).push(view_node(cs.last()))
    }
}

impl DeepView for FsTree {
    type V = FsTreeSpec;

    open spec fn deep_view(&self) -> FsTreeSpec {
        view_node(*self)
    }
}

/// The elementwise model of a forest agrees with the elementwise view of the
/// vector holding it.
pub proof fn lemma_view_forest_elementwise(cs: Seq<FsTree>)
    ensures
        view_forest(cs).len() == cs.len(),
        forall|i: int| 0 <= i < cs.len() ==> view_forest(cs)[i] == view_node(cs[i]),
    decreases cs,
{
    if cs.len() > 0 {
        lemma_view_forest_elementwise(cs.drop_last());
    }
}

/// Model of one removal the cleaner asks the filesystem for.
pub enum CleanActionSpec {
    RemoveFile(Seq<u8>),
    RemoveDir(Seq<u8>),
}

/// One removal the cleaner asks the filesystem for, by full path. A
/// directory is only ever removed after everything under it.
#[derive(Debug, PartialEq, Eq)]
pub enum CleanAction {
    RemoveFile(Vec<u8>),
    RemoveDir(Vec<u8>),
}

impl DeepView for CleanAction {
    type V = CleanActionSpec;

    open spec fn deep_view(&self) -> CleanActionSpec {
        match self {
            CleanAction::RemoveFile(p) => CleanActionSpec::RemoveFile(p@),
            CleanAction::RemoveDir(p) => CleanActionSpec::RemoveDir(p@),
        }
    }
}

/// The path an action removes.
pub open spec fn action_path(a: CleanActionSpec) -> Seq<u8> {
    match a {
        CleanActionSpec::RemoveFile(p) => p,
        CleanActionSpec::RemoveDir(p) => p,
    }
}

/// The removals that empty one node: a file is removed outright; a
/// directory's children are removed first, depth-first, then the directory
/// itself.
pub open spec fn plan_node(prefix: Seq<u8>, t: FsTreeSpec) -> Seq<CleanActionSpec>
    decreases t,
{
    match t {
        FsTreeSpec::File(n) => seq![CleanActionSpec::RemoveFile(joined(prefix, n))],
        FsTreeSpec::Dir(n, cs) => plan_children(joined(prefix, n), cs).push(
            CleanActionSpec::RemoveDir(joined(prefix, n)),
        ),
    }
}

/// The removals that empty a forest of nodes, in listing order.
pub open spec fn plan_children(prefix: Seq<u8>, cs: Seq<FsTreeSpec>) -> Seq<CleanActionSpec>
    decreases cs,
{
    if cs.len() == 0 {
        Seq::empty()
    } else {
        plan_children(prefix, cs.drop_last()) + plan_node(prefix, cs.last())
    }
}

/// How many nodes a tree holds.
pub open spec fn node_count(t: FsTreeSpec) -> nat
    decreases t,
{
    match t {
        FsTreeSpec::File(_) => 1,
        FsTreeSpec::Dir(_, cs) => 1 + forest_count(cs),
    }
}

/// How many nodes a forest holds.
pub open spec fn forest_count(cs: Seq<FsTreeSpec>) -> nat
    decreases cs,
{
    if cs.len() == 0 {
        0
    } else {
        forest_count(cs.drop_last()) + node_count(cs.last())
    }
}

/// Law: the plan removes every node exactly once — one action per node.
pub proof fn lemma_plan_node_complete(prefix: Seq<u8>, t: FsTreeSpec)
    ensures
        plan_node(prefix, t).len() == node_count(t),
    decreases t,
{
    match t {
        FsTreeSpec::File(_) => {},
        FsTreeSpec::Dir(n, cs) => {
            lemma_plan_children_complete(joined(prefix, n), cs);
        },
    }
}

/// Law: the plan for a forest removes every node of every tree exactly once.
pub proof fn lemma_plan_children_complete(prefix: Seq<u8>, cs: Seq<FsTreeSpec>)
    ensures
        plan_children(prefix, cs).len() == forest_count(cs),
    decreases cs,
{
    if cs.len() > 0 {
        lemma_plan_children_complete(prefix, cs.drop_last());
        lemma_plan_node_complete(prefix, cs.last());
    }
}

/// One sequence starts with another.
pub open spec fn starts_with(s: Seq<u8>, p: Seq<u8>) -> bool {
    s.len() >= p.len() && s.take(p.len() as int) == p
}

proof fn lemma_starts_with_trans(s: Seq<u8>, q: Seq<u8>, p: Seq<u8>)
    requires
        starts_with(s, q),
        starts_with(q, p),
    ensures
        starts_with(s, p),
{
    assert(s.take(p.len() as int) =~= q.take(p.len() as int));
}

proof fn lemma_joined_starts_with(prefix: Seq<u8>, n: Seq<u8>)
    ensures
        starts_with(joined(prefix, n), prefix + seq![slash()]),
        starts_with(joined(prefix, n) + seq![slash()], prefix + seq![slash()]),
{
    let p = prefix + seq![slash()];
    assert(joined(prefix, n).take(p.len() as int) =~= p);
    assert((joined(prefix, n) + seq![slash()]).take(p.len() as int) =~= p);
}

/// Law: the cleaner stays inside the root — every path the plan for a node
/// removes lies strictly under the given prefix.
pub proof fn lemma_plan_node_under_prefix(prefix: Seq<u8>, t: FsTreeSpec, k: int)
    requires
        0 <= k < plan_node(prefix, t).len(),
    ensures
        starts_with(action_path(plan_node(prefix, t)[k]), prefix + seq![slash()]),
    decreases t,
{
    match t {
        FsTreeSpec::File(n) => {
            lemma_joined_starts_with(prefix, n);
        },
        FsTreeSpec::Dir(n, cs) => {
            lemma_joined_starts_with(prefix, n);
            let inner = plan_children(joined(prefix, n), cs);
            if k < inner.len() {
                lemma_plan_children_under_prefix(joined(prefix, n), cs, k);
                lemma_starts_with_trans(
                    action_path(inner[k]),
                    joined(prefix, n) + seq![slash()],
                    prefix + seq![slash()],
                );
            }
        },
    }
}

/// Law: the cleaner stays inside the root — every path the plan for a forest
/// removes lies strictly under the given prefix.
pub proof fn lemma_plan_children_under_prefix(prefix: Seq<u8>, cs: Seq<FsTreeSpec>, k: int)
    requires
        0 <= k < plan_children(prefix, cs).len(),
    ensures
        starts_with(action_path(plan_children(prefix, cs)[k]), prefix + seq![slash()]),
    decreases cs,
{
    let front = plan_children(prefix, cs.drop_last());
    if k < front.len() {
        lemma_plan_children_under_prefix(prefix, cs.drop_last(), k);
    } else {
        lemma_plan_node_under_prefix(prefix, cs.last(), k - front.len());
    }
}

/// Law: children go before their parent. The plan for a directory ends with
/// the removal of the directory itself, and everything planned before that
/// removes a path strictly under it — the directory is empty by the time its
/// own removal runs.
pub proof fn lemma_children_before_parent(prefix: Seq<u8>, n: Seq<u8>, cs: Seq<FsTreeSpec>)
    ensures
        ({
            let plan = plan_node(prefix, FsTreeSpec::Dir(n, cs));
            &&& plan.len() > 0
            &&& plan.last() == CleanActionSpec::RemoveDir(joined(prefix, n))
            &&& forall|k: int|
                0 <= k < plan.len() - 1 ==> starts_with(
                    action_path(plan[k]),
                    joined(prefix, n) + seq![slash()],
                )
        }),
{
    let inner = plan_children(joined(prefix, n), cs);
    let plan = plan_node(prefix, FsTreeSpec::Dir(n, cs));
    assert forall|k: int| 0 <= k < plan.len() - 1 implies starts_with(
        action_path(plan[k]),
        joined(prefix, n) + seq![slash()],
    ) by {
        assert(plan[k] == inner[k]);
        lemma_plan_children_under_prefix(joined(prefix, n), cs, k);
    }
}

/// Law: the cleaner is idempotent. One clean removes every node under the
/// root (each exactly once, directories after their contents) and leaves the
/// root itself in place, empty; a clean of the now-empty root plans no
/// removals at all, so the filesystem state after the second run is the
/// state after the first.
pub proof fn lemma_clean_idempotent(root: Seq<u8>)
    ensures
        plan_children(root, Seq::<FsTreeSpec>::empty()) == Seq::<CleanActionSpec>::empty(),
{
}

/// The name a node carries.
pub open spec fn node_name(t: FsTreeSpec) -> Seq<u8> {
    match t {
        FsTreeSpec::File(n) => n,
        FsTreeSpec::Dir(n, _) => n,
    }
}

/// A directory-entry name as the filesystem hands them out: non-empty and
/// free of the path delimiter.
pub open spec fn good_name(n: Seq<u8>) -> bool {
    n.len() > 0 && forall|i: int| 0 <= i < n.len() ==> n[i] != slash()
}

/// A tree as read from a filesystem: every name is a directory-entry name.
pub open spec fn wf_node(t: FsTreeSpec) -> bool
    decreases t,
{
    match t {
        FsTreeSpec::File(n) => good_name(n),
        FsTreeSpec::Dir(n, cs) => good_name(n) && wf_forest(cs),
    }
}

/// A forest as read from one directory: well-formed trees whose names are
/// pairwise distinct, as siblings on a filesystem are.
pub open spec fn wf_forest(cs: Seq<FsTreeSpec>) -> bool
    decreases cs,
{
    if cs.len() == 0 {
        true
    } else {
        &&& wf_forest(cs.drop_last())
        &&& wf_node(cs.last())
        &&& forall|i: int| 0 <= i < cs.len() - 1 ==> node_name(cs[i]) != node_name(cs.last())
    }
}

/// `path` lies at or under `base`: it starts with `base` and continues, if at
/// all, into a sub-path.
pub open spec fn rooted_at(path: Seq<u8>, base: Seq<u8>) -> bool {
    starts_with(path, base) && (path.len() == base.len() || path[base.len() as int] == slash())
}

proof fn lemma_rooted_at_joined(x: Seq<u8>, b: Seq<u8>, m: Seq<u8>)
    requires
        rooted_at(x, joined(b, m)),
    ensures
        starts_with(x, b + seq![slash()]),
        rooted_at(x, b),
{
    let j = joined(b, m);
    assert(x.take(j.len() as int) == j);
    assert(forall|i: int| 0 <= i < j.len() ==> x[i] == j[i]);
    assert(j[b.len() as int] == slash());
    assert(x.take(b.len() as int) =~= b);
    assert(x.take((b.len() + 1) as int) =~= b + seq![slash()]);
}

/// Every action of a node's plan removes a path at or under the node's own
/// path.
proof fn lemma_plan_node_rooted(prefix: Seq<u8>, t: FsTreeSpec, k: int)
    requires
        0 <= k < plan_node(prefix, t).len(),
    ensures
        rooted_at(action_path(plan_node(prefix, t)[k]), joined(prefix, node_name(t))),
    decreases t,
{
    match t {
        FsTreeSpec::File(n) => {
            let j = joined(prefix, n);
            assert(j.take(j.len() as int) =~= j);
        },
        FsTreeSpec::Dir(n, cs) => {
            let j = joined(prefix, n);
            let inner = plan_children(j, cs);
            if k < inner.len() {
                let i = lemma_plan_children_rooted(j, cs, k);
                lemma_rooted_at_joined(action_path(inner[k]), j, node_name(cs[i]));
            } else {
                assert(j.take(j.len() as int) =~= j);
            }
        },
    }
}

/// Every action of a forest's plan belongs to one of the forest's trees: it
/// removes a path at or under that tree's path. Returns which tree.
proof fn lemma_plan_children_rooted(prefix: Seq<u8>, cs: Seq<FsTreeSpec>, k: int) -> (i: int)
    requires
        0 <= k < plan_children(prefix, cs).len(),
    ensures
        0 <= i < cs.len(),
        rooted_at(action_path(plan_children(prefix, cs)[k]), joined(prefix, node_name(cs[i]))),
    decreases cs,
{
    let front = plan_children(prefix, cs.drop_last());
    if k < front.len() {
        let i = lemma_plan_children_rooted(prefix, cs.drop_last(), k);
        assert(cs.drop_last()[i] == cs[i]);
        i
    } else {
        lemma_plan_node_rooted(prefix, cs.last(), k - front.len());
        cs.len() - 1
    }
}

/// Paths under two differently-named siblings are separate: a path at or
/// under one sibling never lies strictly under the other.
proof fn lemma_sibling_separation(prefix: Seq<u8>, n1: Seq<u8>, n2: Seq<u8>, x: Seq<u8>)
    requires
        good_name(n1),
        good_name(n2),
        n1 != n2,
        rooted_at(x, joined(prefix, n2)),
    ensures
        !starts_with(x, joined(prefix, n1) + seq![slash()]),
{
    let j1 = joined(prefix, n1);
    let j2 = joined(prefix, n2);
    let base: int = prefix.len() as int + 1;
    if starts_with(x, j1 + seq![slash()]) {
        // x agrees with n1 on [base, base + n1.len()) and carries a slash
        // right after; it also agrees with n2 on [base, base + n2.len()) and
        // carries a slash or its end right after.
        assert(forall|i: int| 0 <= i < j1.len() + 1 ==> x[i] == (j1 + seq![slash()])[i]) by {
            assert(x.take((j1.len() + 1) as int) == j1 + seq![slash()]);
        }
        assert(forall|i: int| 0 <= i < j2.len() ==> x[i] == j2[i]) by {
            assert(x.take(j2.len() as int) == j2);
        }
        assert(forall|i: int| 0 <= i < n1.len() ==> x[base + i] == n1[i]);
        assert(x[base + n1.len() as int] == slash());
        assert(forall|i: int| 0 <= i < n2.len() ==> x[base + i] == n2[i]);
        if n1.len() == n2.len() {
            assert(n1 =~= n2);
        } else if n1.len() < n2.len() {
            assert(n2[n1.len() as int] == x[base + n1.len() as int]);
            assert(n2[n1.len() as int] == slash());
        } else {
            assert(x.len() == j2.len() || x[j2.len() as int] == slash());
            assert(x.len() >= j1.len() + 1 > j2.len());
            assert(n1[n2.len() as int] == x[base + n2.len() as int]);
            assert(n1[n2.len() as int] == slash());
        }
    }
}

/// Law: once the plan removes a directory, no later action reaches into it.
/// Together with the children-before-parent order this makes the plan
/// executable as given: every removal's target still exists, and a directory
/// is empty when its own removal runs.
pub proof fn lemma_removed_dir_not_revisited(prefix: Seq<u8>, t: FsTreeSpec, k1: int, k2: int)
    requires
        wf_node(t),
        0 <= k1 < k2 < plan_node(prefix, t).len(),
        plan_node(prefix, t)[k1] is RemoveDir,
    ensures
        !starts_with(
            action_path(plan_node(prefix, t)[k2]),
            action_path(plan_node(prefix, t)[k1]) + seq![slash()],
        ),
    decreases t,
{
    match t {
        FsTreeSpec::File(_) => {},
        FsTreeSpec::Dir(n, cs) => {
            let j = joined(prefix, n);
            let inner = plan_children(j, cs);
            if k2 < inner.len() {
                lemma_forest_removed_dir_not_revisited(j, cs, k1, k2);
            } else {
                // The final action removes the directory itself; anything
                // planned earlier lies strictly under it, so its path is
                // longer than the directory's own.
                lemma_plan_children_under_prefix(j, cs, k1);
                assert(action_path(plan_node(prefix, t)[k1]).len() > j.len());
            }
        },
    }
}

/// Law: once the plan for a forest removes a directory, no later action
/// reaches into it.
pub proof fn lemma_forest_removed_dir_not_revisited(
    prefix: Seq<u8>,
    cs: Seq<FsTreeSpec>,
    k1: int,
    k2: int,
)
    requires
        wf_forest(cs),
        0 <= k1 < k2 < plan_children(prefix, cs).len(),
        plan_children(prefix, cs)[k1] is RemoveDir,
    ensures
        !starts_with(
            action_path(plan_children(prefix, cs)[k2]),
            action_path(plan_children(prefix, cs)[k1]) + seq![slash()],
        ),
    decreases cs,
{
    let front = plan_children(prefix, cs.drop_last());
    let q = action_path(plan_children(prefix, cs)[k1]);
    let x = action_path(plan_children(prefix, cs)[k2]);
    if k2 < front.len() {
        lemma_forest_removed_dir_not_revisited(prefix, cs.drop_last(), k1, k2);
    } else if k1 >= front.len() {
        lemma_removed_dir_not_revisited(prefix, cs.last(), k1 - front.len(), k2 - front.len());
    } else {
        // The removal belongs to an earlier sibling, the later action to the
        // last tree; their names differ, so their paths are separate.
        let i = lemma_plan_children_rooted(prefix, cs.drop_last(), k1);
        assert(cs.drop_last()[i] == cs[i]);
        let n1 = node_name(cs[i]);
        let n2 = node_name(cs.last());
        lemma_plan_node_rooted(prefix, cs.last(), k2 - front.len());
        lemma_wf_forest_members(cs);
        if starts_with(x, q + seq![slash()]) {
            // q lies at or under the sibling named n1, so x starting with
            // q and a slash starts with that sibling's path and a slash.
            let j1 = joined(prefix, n1);
            assert(q.len() >= j1.len());
            assert(starts_with(x, j1 + seq![slash()])) by {
                assert(x.take((j1.len() + 1) as int) =~= j1 + seq![slash()]) by {
                    assert(x.take((q.len() + 1) as int) == q + seq![slash()]);
                    assert(forall|p: int| 0 <= p < q.len() + 1 ==> x[p] == (q + seq![slash()])[p]);
                    assert(q.take(j1.len() as int) == j1);
                    assert(forall|p: int| 0 <= p < j1.len() ==> q[p] == j1[p]);
                    if q.len() > j1.len() {
                        assert(q[j1.len() as int] == slash());
                    }
                }
            }
            lemma_sibling_separation(prefix, n1, n2, x);
        }
    }
}

/// Every tree of a well-formed forest is well-formed and carries a good
/// name; distinct positions carry distinct names.
proof fn lemma_wf_forest_members(cs: Seq<FsTreeSpec>)
    requires
        wf_forest(cs),
    ensures
        forall|i: int| 0 <= i < cs.len() ==> wf_node(#[trigger] cs[i]),
        forall|i: int| 0 <= i < cs.len() ==> good_name(node_name(#[trigger] cs[i])),
        forall|i: int, j: int|
            0 <= i < j < cs.len() ==> node_name(cs[i]) != node_name(cs[j]),
    decreases cs,
{
    if cs.len() > 0 {
        lemma_wf_forest_members(cs.drop_last());
        assert(forall|i: int| 0 <= i < cs.len() - 1 ==> cs.drop_last()[i] == cs[i]);
        assert(wf_node(cs.last()));
        assert(good_name(node_name(cs.last()))) by {
            match cs.last() {
                FsTreeSpec::File(_) => {},
                FsTreeSpec::Dir(_, _) => {},
            }
        }
    }
}

/// Plans the removals for one node under `prefix`.
#[verifier::loop_isolation(false)]
fn plan_node_actions(prefix: &Vec<u8>, t: &FsTree) -> (r: Vec<CleanAction>)
    ensures
        r.deep_view() == plan_node(prefix@, t.deep_view()),
    decreases *t,
{
    match t {
        FsTree::File(n) => {
            let mut r: Vec<CleanAction> = Vec::new();
            r.push(CleanAction::RemoveFile(join_path(prefix, n)));
            proof {
                assert(t.deep_view() == FsTreeSpec::File(n@));
                assert(r.deep_view() =~= plan_node(prefix@, t.deep_view()));
            }
            r
        },
        FsTree::Dir(n, cs) => {
            let p = join_path(prefix, n);
            let ghost dv = cs.deep_view();
            let mut r: Vec<CleanAction> = Vec::new();
            proof {
                assert(r.deep_view() =~= plan_children(p@, dv.take(0)));
            }
            let mut j: usize = 0;
            while j < cs.len()
                invariant
                    0 <= j <= cs.len(),
                    dv == cs.deep_view(),
                    dv.len() == cs.len(),
                    p@ == joined(prefix@, n@),
                    r.deep_view() == plan_children(p@, dv.take(j as int)),
                decreases cs.len() - j,
            {
                let mut sub = plan_node_actions(&p, &cs[j]);
                proof {
                    assert(dv.take(j + 1 as int).drop_last() =~= dv.take(j as int));
                    assert(dv.take(j + 1 as int).last() == dv[j as int]);
                    assert(dv[j as int] == cs@[j as int].deep_view());
                }
                let ghost r_before = r.deep_view();
                let ghost sub_view = sub.deep_view();
                r.append(&mut sub);
                proof {
                    assert(r.deep_view() =~= r_before + sub_view);
                    assert(r.deep_view() =~= plan_children(p@, dv.take(j + 1 as int)));
                }
                j = j + 1;
            }
            proof {
                assert(dv.take(cs.len() as int) =~= dv);
                lemma_view_forest_elementwise(cs@);
                assert(dv =~= view_forest(cs@));
                assert(t.deep_view() == FsTreeSpec::Dir(n@, view_forest(cs@)));
            }
            let ghost r_before = r.deep_view();
            r.push(CleanAction::RemoveDir(p));
            proof {
                assert(r.deep_view() =~= r_before.push(
                    CleanActionSpec::RemoveDir(joined(prefix@, n@)),
                ));
            }
            r
        },
    }
}

/// Plans the removals that empty the cache root: every file and directory
/// under `root` is removed, children before their parent, in listing order;
/// the root itself stays.
pub fn clean_plan(root: &Vec<u8>, entries: &Vec<FsTree>) -> (r: Vec<CleanAction>)
    ensures
        r.deep_view() == plan_children(root@, entries.deep_view()),
{
    let ghost dv = entries.deep_view();
    let mut r: Vec<CleanAction> = Vec::new();
    proof {
        assert(r.deep_view() =~= plan_children(root@, dv.take(0)));
    }
    let mut j: usize = 0;
    while j < entries.len()
        invariant
            0 <= j <= entries.len(),
            dv == entries.deep_view(),
            dv.len() == entries.len(),
            r.deep_view() == plan_children(root@, dv.take(j as int)),
        decreases entries.len() - j,
    {
        let mut sub = plan_node_actions(root, &entries[j]);
        proof {
            assert(dv.take(j + 1 as int).drop_last() =~= dv.take(j as int));
            assert(dv.take(j + 1 as int).last() == dv[j as int]);
            assert(dv[j as int] == entries@[j as int].deep_view());
        }
        let ghost r_before = r.deep_view();
        let ghost sub_view = sub.deep_view();
        r.append(&mut sub);
        proof {
            assert(r.deep_view() =~= r_before + sub_view);
            assert(r.deep_view() =~= plan_children(root@, dv.take(j + 1 as int)));
        }
        j = j + 1;
    }
    proof {
        assert(dv.take(entries.len() as int) =~= dv);
    }
    r
}

} // verus!
