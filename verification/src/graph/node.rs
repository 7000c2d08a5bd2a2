//! Building the tree of stacks from a branch index.
//!
//! Every public function's contract ties its result to a specification-level
//! function over mathematical trees, so the whole construction is a function
//! of its inputs: equal repositories and branch indexes give equal trees.

use vstd::prelude::*;

use crate::git::anc_chain;
use crate::git::branches_view;
use crate::git::duplicate_branches;
use crate::git::commit_view_at;
use crate::git::lemma_first_common_in;
use crate::git::merge_base_spec;
use crate::git::lemma_sgroups_idx;
use crate::git::sgroups_flat;
use crate::git::sgroups_get;
use crate::git::sgroups_idx;
use crate::git::sgroups_remove;
use crate::git::BranchS;
use crate::git::Branch;
use crate::git::Branches;
use crate::git::Commit;
use crate::git::CommitRecordS;
use crate::git::CommitS;
use crate::git::GroupS;
use crate::git::Repo;
use vstd::multiset::Multiset;
use crate::text::chars_le;

verus! {

/// Why graph construction can fail.
#[derive(Clone, Copy, Debug, PartialEq, Eq, Structural)]
pub enum GraphError {
    /// The branch index held no branch at all.
    EmptyBranches,
    /// Two branch tips have disjoint histories.
    NoMergeBase,
    /// A commit that had to lie above the walk's base does not.
    NotDescendant,
}

/// One node of the tree: a commit, the branches whose tip it is, and the
/// child stacks (parallel lines of development) that diverge from it.
#[derive(Debug, PartialEq, Eq)]
pub struct Node {
    pub local_commit: Commit,
    pub branches: Vec<Branch>,
    pub stacks: Vec<Vec<Node>>,
}

/// Mathematical image of a [`Node`].
pub ghost struct NodeS {
    pub commit: CommitS,
    pub branches: Seq<BranchS>,
    pub stacks: Seq<Seq<NodeS>>,
}

/// The mathematical tree a [`Node`] stands for.
pub open spec fn node_view(n: Node) -> NodeS
    decreases n, 0int,
{
    NodeS {
        commit: n.local_commit@,
        branches: branches_view(n.branches@),
        stacks: vstacks_view_from(n.stacks, 0),
    }
}

/// The image of a node's stack list from position `i` on.
pub open spec fn vstacks_view_from(v: Vec<Vec<Node>>, i: int) -> Seq<Seq<NodeS>>
    decreases v, v@.len() - i,
    via vstacks_view_from_dec
{
    if i < 0 || i >= v@.len() {
        Seq::empty()
    } else {
        seq![vrun_view_from(v@[i], 0)] + vstacks_view_from(v, i + 1)
    }
}

#[via_fn]
proof fn vstacks_view_from_dec(v: Vec<Vec<Node>>, i: int) {
    if 0 <= i < v@.len() {
        assert(decreases_to!(v => v@));
        assert(decreases_to!(v@ => v@[i]));
        assert(decreases_to!(v => v@[i]));
    }
}

/// The image of one stack from position `j` on.
pub open spec fn vrun_view_from(v: Vec<Node>, j: int) -> Seq<NodeS>
    decreases v, v@.len() - j,
    via vrun_view_from_dec
{
    if j < 0 || j >= v@.len() {
        Seq::empty()
    } else {
        seq![node_view(v@[j])] + vrun_view_from(v, j + 1)
    }
}

#[via_fn]
proof fn vrun_view_from_dec(v: Vec<Node>, j: int) {
    if 0 <= j < v@.len() {
        assert(decreases_to!(v => v@));
        assert(decreases_to!(v@ => v@[j]));
        assert(decreases_to!(v => v@[j]));
    }
}

/// The image of a whole stack.
pub open spec fn vrun_view(v: Vec<Node>) -> Seq<NodeS> {
    vrun_view_from(v, 0)
}

/// The image of a whole stack list.
pub open spec fn vstacks_view(v: Vec<Vec<Node>>) -> Seq<Seq<NodeS>> {
    vstacks_view_from(v, 0)
}

/// Weight of a node: its own two units plus the weight of its stacks.
pub open spec fn node_size(n: NodeS) -> nat
    decreases n, 0int,
{
    2 + stacks_size_from(n.stacks, 0)
}

/// Weight of the stacks from position `i` on; each stack costs one unit
/// plus its nodes.
pub open spec fn stacks_size_from(ss: Seq<Seq<NodeS>>, i: int) -> nat
    decreases ss, ss.len() - i,
{
    if i < 0 || i >= ss.len() {
        0
    } else {
        1 + run_size_from(ss[i], 0) + stacks_size_from(ss, i + 1)
    }
}

/// Weight of a stack's nodes from position `i` on.
pub open spec fn run_size_from(run: Seq<NodeS>, i: int) -> nat
    decreases run, run.len() - i,
{
    if i < 0 || i >= run.len() {
        0
    } else {
        node_size(run[i]) + run_size_from(run, i + 1)
    }
}

/// Weight of a whole stack.
pub open spec fn run_size(run: Seq<NodeS>) -> nat {
    run_size_from(run, 0)
}

/// Length of the longest common commit prefix of two stacks.
pub open spec fn match_len(l: Seq<NodeS>, r: Seq<NodeS>) -> int
    decreases l.len(),
{
    if l.len() == 0 || r.len() == 0 {
        0
    } else if l[0].commit.id != r[0].commit.id {
        0
    } else {
        1 + match_len(l.drop_first(), r.drop_first())
    }
}

/// `l` with the branches of `r`'s first `m` nodes unioned onto its own
/// first `m` nodes.
pub open spec fn union_prefix(l: Seq<NodeS>, r: Seq<NodeS>, m: int) -> Seq<NodeS> {
    Seq::new(
        l.len(),
        |k: int|
            if 0 <= k < m {
                NodeS {
                    commit: l[k].commit,
                    branches: l[k].branches + r[k].branches,
                    stacks: l[k].stacks,
                }
            } else {
                l[k]
            },
    )
}

/// Weights are additive: the tail from `m` weighs the whole minus at least
/// two units per dropped node.
proof fn lemma_run_size_prefix(r: Seq<NodeS>, j: int, m: int)
    requires
        0 <= j <= m <= r.len(),
    ensures
        run_size_from(r, j) >= 2 * (m - j) + run_size_from(r, m),
    decreases m - j,
{
    if j < m {
        lemma_run_size_prefix(r, j + 1, m);
        assert(run_size_from(r, j) == node_size(r[j]) + run_size_from(r, j + 1));
        assert(node_size(r[j]) >= 2);
    }
}

/// Dropping a prefix reindexes the weight.
proof fn lemma_run_size_shift(r: Seq<NodeS>, i: int, k: int)
    requires
        0 <= i <= r.len(),
        0 <= k,
    ensures
        run_size_from(r.skip(i), k) == run_size_from(r, i + k),
    decreases r.len() - i - k,
{
    assert(r.skip(i).len() == r.len() - i);
    if i + k < r.len() {
        assert(r.skip(i)[k] == r[i + k]);
        lemma_run_size_shift(r, i, k + 1);
        assert(run_size_from(r.skip(i), k) == node_size(r.skip(i)[k]) + run_size_from(
            r.skip(i),
            k + 1,
        ));
        assert(run_size_from(r, i + k) == node_size(r[i + k]) + run_size_from(r, i + k + 1));
    } else {
        assert(run_size_from(r.skip(i), k) == 0);
        assert(run_size_from(r, i + k) == 0);
    }
}

/// Merge one stack into another.  `None` means the stacks do not share a
/// first commit and nothing happened; `Some` is the merged stack, with the
/// whole right-hand stack absorbed: shared commits union their branches,
/// and what the right side continues with hangs below the last shared node.
pub open spec fn merge_stack_s(l: Seq<NodeS>, r: Seq<NodeS>) -> Option<Seq<NodeS>>
    decreases run_size(r), 0int, 0int,
    via merge_stack_s_dec
{
    let m = match_len(l, r);
    if m <= 0 {
        None
    } else {
        let lu = union_prefix(l, r, m);
        if m == r.len() {
            Some(lu)
        } else if m == l.len() {
            let last = lu[l.len() - 1];
            Some(
                lu.update(
                    l.len() - 1,
                    NodeS {
                        commit: last.commit,
                        branches: last.branches,
                        stacks: last.stacks.push(r.skip(m)),
                    },
                ),
            )
        } else {
            Some(lu.update(m - 1, merge_stacks_s(lu[m - 1], seq![r.skip(m)], 0)))
        }
    }
}

#[via_fn]
proof fn merge_stack_s_dec(l: Seq<NodeS>, r: Seq<NodeS>) {
    lemma_match_len(l, r);
    let m = match_len(l, r);
    if 0 < m < r.len() && m < l.len() {
        lemma_run_size_prefix(r, 0, m);
        lemma_run_size_shift(r, m, 0);
        let tail = seq![r.skip(m)];
        assert(tail[0] == r.skip(m));
        assert(stacks_size_from(tail, 1) == 0);
        assert(stacks_size_from(tail, 0) == 1 + run_size_from(r.skip(m), 0));
        assert(stacks_size_from(tail, 0) < run_size(r));
    }
}

/// Try to merge `rs` into `l`'s stacks from position `i` on; the first
/// stack that shares a first commit absorbs it, and if none does, `rs`
/// becomes a new sibling stack.
pub open spec fn merge_try_s(l: NodeS, rs: Seq<NodeS>, i: int) -> NodeS
    decreases run_size(rs) + 1, 1int, l.stacks.len() - i,
{
    if i < 0 || i >= l.stacks.len() {
        NodeS { commit: l.commit, branches: l.branches, stacks: l.stacks.push(rs) }
    } else {
        match merge_stack_s(l.stacks[i], rs) {
            Some(ns) => NodeS {
                commit: l.commit,
                branches: l.branches,
                stacks: l.stacks.update(i, ns),
            },
            None => merge_try_s(l, rs, i + 1),
        }
    }
}

/// Fold the stacks of a right-hand node into `l`, one stack at a time.
pub open spec fn merge_stacks_s(l: NodeS, rstacks: Seq<Seq<NodeS>>, i: int) -> NodeS
    decreases stacks_size_from(rstacks, i), 2int, 0int,
{
    if i < 0 || i >= rstacks.len() {
        l
    } else {
        merge_stacks_s(merge_try_s(l, rstacks[i], 0), rstacks, i + 1)
    }
}

/// Merge a whole node into `l`: branches union, stacks fold in.
pub open spec fn merge_s(l: NodeS, r: NodeS) -> NodeS {
    merge_stacks_s(
        NodeS { commit: l.commit, branches: l.branches + r.branches, stacks: l.stacks },
        r.stacks,
        0,
    )
}

/// Find the node with `other`'s commit anywhere in `t` (depth first) and
/// merge `other` into it; `None` when no node matches.
pub open spec fn push_s(t: NodeS, other: NodeS) -> Option<NodeS>
    decreases t, 0int,
{
    if t.commit.id == other.commit.id {
        Some(merge_s(t, other))
    } else {
        match push_stacks_s(t.stacks, other, 0) {
            Some(ss) => Some(NodeS { commit: t.commit, branches: t.branches, stacks: ss }),
            None => None,
        }
    }
}

/// `push_s` over the stacks from position `i` on.
pub open spec fn push_stacks_s(ss: Seq<Seq<NodeS>>, other: NodeS, i: int) -> Option<
    Seq<Seq<NodeS>>,
>
    decreases ss, ss.len() - i,
{
    if i < 0 || i >= ss.len() {
        None
    } else {
        match push_run_s(ss[i], other, 0) {
            Some(run) => Some(ss.update(i, run)),
            None => push_stacks_s(ss, other, i + 1),
        }
    }
}

/// `push_s` over one stack's nodes from position `j` on.
pub open spec fn push_run_s(run: Seq<NodeS>, other: NodeS, j: int) -> Option<Seq<NodeS>>
    decreases run, run.len() - j,
{
    if j < 0 || j >= run.len() {
        None
    } else {
        match push_s(run[j], other) {
            Some(n) => Some(run.update(j, n)),
            None => push_run_s(run, other, j + 1),
        }
    }
}

/// A node holding one commit and the branches handed to it, with no stacks.
pub open spec fn fresh_node(c: CommitS, branches: Seq<BranchS>) -> NodeS {
    NodeS { commit: c, branches, stacks: Seq::empty() }
}

/// The prefix of `s` before the first occurrence of `x`.
pub open spec fn take_until(s: Seq<usize>, x: usize) -> Seq<usize>
    decreases s.len(),
{
    if s.len() == 0 {
        Seq::empty()
    } else if s[0] == x {
        Seq::empty()
    } else {
        seq![s[0]] + take_until(s.drop_first(), x)
    }
}

/// Build the linear run of nodes for `ids[i..]`, consuming each id's
/// branches from the index as its node is created.
pub open spec fn build_run(
    r: Seq<CommitRecordS>,
    ids: Seq<usize>,
    bs: Seq<GroupS>,
    i: int,
) -> (Seq<NodeS>, Seq<GroupS>)
    decreases ids.len() - i,
{
    if i < 0 || i >= ids.len() {
        (Seq::empty(), bs)
    } else {
        let n = fresh_node(commit_view_at(r, ids[i]), sgroups_get(bs, ids[i]));
        let (rest, bsf) = build_run(r, ids, sgroups_remove(bs, ids[i]), i + 1);
        (seq![n] + rest, bsf)
    }
}

/// Whether a walk from `base` up to `head` is possible: `base` must be the
/// merge base of the two.
pub open spec fn populate_ok(r: Seq<CommitRecordS>, base: usize, head: usize) -> bool {
    merge_base_spec(r, base, head) == Some(base)
}

/// A node for `base` carrying, as its single stack, the commits strictly
/// between `base` and `head`, oldest first; every commit's branches move
/// from the index into its node.
pub open spec fn populate_s(
    r: Seq<CommitRecordS>,
    base: usize,
    head: usize,
    bs: Seq<GroupS>,
) -> (NodeS, Seq<GroupS>) {
    let root0 = fresh_node(commit_view_at(r, base), sgroups_get(bs, base));
    let bs1 = sgroups_remove(bs, base);
    let ids = take_until(anc_chain(r, head), base).reverse();
    let (run, bs2) = build_run(r, ids, bs1, 0);
    let root = if run.len() > 0 {
        NodeS { commit: root0.commit, branches: root0.branches, stacks: seq![run] }
    } else {
        root0
    };
    (root, bs2)
}

/// `push_s` when it succeeds, the untouched prefix otherwise.
pub open spec fn push_or_keep(p: NodeS, t: NodeS) -> NodeS {
    match push_s(p, t) {
        Some(x) => x,
        None => p,
    }
}

/// Insert the branch tip `cid` into the tree `t`: find the merge base with
/// the current root, push the root down to it if it lies below, build the
/// new tip's run, and merge it in.
pub open spec fn insert_s(
    r: Seq<CommitRecordS>,
    t: NodeS,
    cid: usize,
    bs: Seq<GroupS>,
) -> Result<(NodeS, Seq<GroupS>), GraphError> {
    match merge_base_spec(r, t.commit.id, cid) {
        None => Err(GraphError::NoMergeBase),
        Some(mb) => {
            let (t1, bs1) = if mb != t.commit.id {
                let (p, bsp) = populate_s(r, mb, t.commit.id, bs);
                (push_or_keep(p, t), bsp)
            } else {
                (t, bs)
            };
            let (other, bs2) = populate_s(r, mb, cid, bs1);
            Ok((merge_s(t1, other), bs2))
        },
    }
}

/// The name that sorts a tip: the name of the first branch at it.
pub open spec fn tip_name(bs: Seq<GroupS>, id: usize) -> Seq<char> {
    sgroups_get(bs, id)[0].name
}

/// Insert `id` into an already sorted tip list.
pub open spec fn insert_tip(sorted: Seq<usize>, id: usize, bs: Seq<GroupS>) -> Seq<usize>
    decreases sorted.len(),
{
    if sorted.len() == 0 {
        seq![id]
    } else if chars_le(tip_name(bs, id), tip_name(bs, sorted[0])) {
        seq![id] + sorted
    } else {
        seq![sorted[0]] + insert_tip(sorted.drop_first(), id, bs)
    }
}

/// Sort tips by the name of the first branch at each.
pub open spec fn sort_tips(ids: Seq<usize>, bs: Seq<GroupS>) -> Seq<usize>
    decreases ids.len(),
{
    if ids.len() == 0 {
        Seq::empty()
    } else {
        insert_tip(sort_tips(ids.drop_last(), bs), ids.last(), bs)
    }
}

/// The tip commits an index records, in index order.
pub open spec fn tip_ids(bs: Seq<GroupS>) -> Seq<usize> {
    bs.map_values(|g: GroupS| g.id)
}

/// Insert the tips `ids[i..]` into `t`, one after the other.
pub open spec fn fold_insert(
    r: Seq<CommitRecordS>,
    t: NodeS,
    ids: Seq<usize>,
    bs: Seq<GroupS>,
    i: int,
) -> Result<(NodeS, Seq<GroupS>), GraphError>
    decreases ids.len() - i,
{
    if i < 0 || i >= ids.len() {
        Ok((t, bs))
    } else {
        match insert_s(r, t, ids[i], bs) {
            Err(e) => Err(e),
            Ok((t1, bs1)) => fold_insert(r, t1, ids, bs1, i + 1),
        }
    }
}

/// The whole construction: sort the tips by branch name, seed the tree
/// with the first, and insert the rest.
pub open spec fn from_branches_s(r: Seq<CommitRecordS>, bs: Seq<GroupS>) -> Result<
    (NodeS, Seq<GroupS>),
    GraphError,
> {
    if bs.len() == 0 {
        Err(GraphError::EmptyBranches)
    } else {
        let ids = sort_tips(tip_ids(bs), bs);
        let root = fresh_node(commit_view_at(r, ids[0]), sgroups_get(bs, ids[0]));
        fold_insert(r, root, ids, sgroups_remove(bs, ids[0]), 1)
    }
}

/// Insert every tip of a further index into an existing tree.
pub open spec fn extend_s(r: Seq<CommitRecordS>, t: NodeS, bs: Seq<GroupS>) -> Result<
    (NodeS, Seq<GroupS>),
    GraphError,
> {
    fold_insert(r, t, sort_tips(tip_ids(bs), bs), bs, 0)
}

/// `match_len` is the length of the longest shared commit prefix.
pub proof fn lemma_match_len(l: Seq<NodeS>, r: Seq<NodeS>)
    ensures
        0 <= match_len(l, r) <= l.len(),
        match_len(l, r) <= r.len(),
        forall|k: int| 0 <= k < match_len(l, r) ==> (#[trigger] l[k]).commit.id == r[k].commit.id,
        match_len(l, r) < l.len() && match_len(l, r) < r.len() ==> l[match_len(l, r)].commit.id
            != r[match_len(l, r)].commit.id,
    decreases l.len(),
{
    if l.len() > 0 && r.len() > 0 && l[0].commit.id == r[0].commit.id {
        lemma_match_len(l.drop_first(), r.drop_first());
        let lt = l.drop_first();
        let rt = r.drop_first();
        let m = match_len(l, r);
        assert forall|k: int| 0 <= k < m implies (#[trigger] l[k]).commit.id == r[k].commit.id by {
            if k > 0 {
                assert(l[k] == lt[k - 1]);
                assert(r[k] == rt[k - 1]);
            }
        }
        if m < l.len() && m < r.len() {
            assert(l[m] == lt[m - 1]);
            assert(r[m] == rt[m - 1]);
        }
    }
}

/// The stack-list image indexes elementwise.
pub proof fn lemma_vstacks_from(v: Vec<Vec<Node>>, i: int)
    requires
        0 <= i <= v@.len(),
    ensures
        vstacks_view_from(v, i).len() == v@.len() - i,
        forall|k: int| i <= k < v@.len() ==> vstacks_view_from(v, i)[k - i] == vrun_view(
            #[trigger] v@[k],
        ),
    decreases v@.len() - i,
{
    if i < v@.len() {
        lemma_vstacks_from(v, i + 1);
    }
}

/// The stack image indexes elementwise.
pub proof fn lemma_vrun_from(v: Vec<Node>, j: int)
    requires
        0 <= j <= v@.len(),
    ensures
        vrun_view_from(v, j).len() == v@.len() - j,
        forall|k: int| j <= k < v@.len() ==> vrun_view_from(v, j)[k - j] == node_view(
            #[trigger] v@[k],
        ),
    decreases v@.len() - j,
{
    if j < v@.len() {
        lemma_vrun_from(v, j + 1);
    }
}

/// A stack weighs at least each one of its nodes.
proof fn lemma_run_size_at(run: Seq<NodeS>, i: int, j: int)
    requires
        0 <= i <= j < run.len(),
    ensures
        run_size_from(run, i) >= node_size(run[j]),
    decreases j - i,
{
    if i < j {
        lemma_run_size_at(run, i + 1, j);
    }
}

/// A stack list weighs at least each one of its stacks.
proof fn lemma_stacks_size_at(ss: Seq<Seq<NodeS>>, i: int, j: int)
    requires
        0 <= i <= j < ss.len(),
    ensures
        stacks_size_from(ss, i) >= 1 + run_size(ss[j]),
    decreases j - i,
{
    if i < j {
        lemma_stacks_size_at(ss, i + 1, j);
    }
}

/// A node outweighs every node inside its stacks.
pub proof fn lemma_child_size(t: NodeS, i: int, j: int)
    requires
        0 <= i < t.stacks.len(),
        0 <= j < t.stacks[i].len(),
    ensures
        node_size(t.stacks[i][j]) < node_size(t),
{
    lemma_stacks_size_at(t.stacks, 0, i);
    lemma_run_size_at(t.stacks[i], 0, j);
}

/// A stack's image is whatever agrees with it elementwise.
pub proof fn lemma_vrun_eq(a: Vec<Node>, b: Seq<NodeS>)
    requires
        b.len() == a@.len(),
        forall|k: int| 0 <= k < a@.len() ==> b[k] == node_view(#[trigger] a@[k]),
    ensures
        vrun_view(a) == b,
{
    lemma_vrun_from(a, 0);
    assert forall|k: int| 0 <= k < vrun_view(a).len() implies vrun_view(a)[k] == b[k] by {
        assert(vrun_view(a)[k] == node_view(a@[k]));
    }
    assert(vrun_view(a) =~= b);
}

/// A stack list's image is whatever agrees with it elementwise.
pub proof fn lemma_vstacks_eq(a: Vec<Vec<Node>>, b: Seq<Seq<NodeS>>)
    requires
        b.len() == a@.len(),
        forall|k: int| 0 <= k < a@.len() ==> b[k] == vrun_view(#[trigger] a@[k]),
    ensures
        vstacks_view(a) == b,
{
    lemma_vstacks_from(a, 0);
    assert forall|k: int| 0 <= k < vstacks_view(a).len() implies vstacks_view(a)[k] == b[k] by {
        assert(vstacks_view(a)[k] == vrun_view(a@[k]));
    }
    assert(vstacks_view(a) =~= b);
}

impl Node {
    /// An exact copy of the whole tree; its contract says the image is kept.
    pub fn duplicate(&self) -> (r: Node)
        ensures
            node_view(r) == node_view(*self),
        decreases node_size(node_view(*self)),
    {
        let mut stacks: Vec<Vec<Node>> = Vec::new();
        let mut i: usize = 0;
        while i < self.stacks.len()
            invariant
                i <= self.stacks@.len(),
                stacks@.len() == i,
                forall|k: int| 0 <= k < i ==> vrun_view(#[trigger] stacks@[k]) == vrun_view(
                    self.stacks@[k],
                ),
            decreases self.stacks@.len() - i,
        {
            let mut run: Vec<Node> = Vec::new();
            let mut j: usize = 0;
            while j < self.stacks[i].len()
                invariant
                    0 <= i < self.stacks@.len(),
                    j <= self.stacks@[i as int]@.len(),
                    run@.len() == j,
                    forall|k: int| 0 <= k < j ==> node_view(#[trigger] run@[k]) == node_view(
                        self.stacks@[i as int]@[k],
                    ),
                decreases self.stacks@[i as int]@.len() - j,
            {
                proof {
                    lemma_vstacks_from(self.stacks, 0);
                    lemma_vrun_from(self.stacks@[i as int], 0);
                    lemma_child_size(node_view(*self), i as int, j as int);
                }
                run.push(self.stacks[i][j].duplicate());
                j = j + 1;
            }
            proof {
                lemma_vrun_from(run, 0);
                lemma_vrun_from(self.stacks@[i as int], 0);
                assert forall|k: int| 0 <= k < vrun_view(run).len() implies vrun_view(run)[k]
                    == vrun_view(self.stacks@[i as int])[k] by {
                    assert(vrun_view(run)[k] == node_view(run@[k]));
                    assert(vrun_view(self.stacks@[i as int])[k] == node_view(
                        self.stacks@[i as int]@[k],
                    ));
                }
                assert(vrun_view(run) =~= vrun_view(self.stacks@[i as int]));
            }
            stacks.push(run);
            i = i + 1;
        }
        proof {
            lemma_vstacks_from(stacks, 0);
            lemma_vstacks_from(self.stacks, 0);
            assert forall|k: int| 0 <= k < vstacks_view(stacks).len() implies vstacks_view(
                stacks,
            )[k] == vstacks_view(self.stacks)[k] by {
                assert(vstacks_view(stacks)[k] == vrun_view(stacks@[k]));
                assert(vstacks_view(self.stacks)[k] == vrun_view(self.stacks@[k]));
            }
            assert(vstacks_view(stacks) =~= vstacks_view(self.stacks));
        }
        Node {
            local_commit: self.local_commit.duplicate(),
            branches: duplicate_branches(&self.branches),
            stacks,
        }
    }

    /// A bare node for one commit, taking that commit's branches out of the
    /// index.
    pub fn new(local_commit: Commit, possible_branches: &mut Branches) -> (r: Node)
        ensures
            node_view(r) == fresh_node(local_commit@, sgroups_get(old(possible_branches)@,
                local_commit@.id)),
            final(possible_branches)@ == sgroups_remove(old(possible_branches)@,
                local_commit@.id),
            old(possible_branches).wf() ==> final(possible_branches).wf(),
    {
        let id = local_commit.id;
        let branches = match possible_branches.remove(id) {
            Some(b) => b,
            None => Vec::new(),
        };
        let r = Node { local_commit, branches, stacks: Vec::new() };
        proof {
            lemma_vstacks_from(r.stacks, 0);
            assert(vstacks_view(r.stacks) =~= Seq::<Seq<NodeS>>::empty());
            assert(branches_view(r.branches@) =~= sgroups_get(old(possible_branches)@, id));
        }
        r
    }
}

/// Length of the shared commit prefix of two stacks.
fn shared_prefix_len(lhs: &Vec<Node>, rhs: &Vec<Node>) -> (m: usize)
    ensures
        m as int == match_len(vrun_view(*lhs), vrun_view(*rhs)),
        m <= lhs@.len(),
        m <= rhs@.len(),
{
    let ghost l0 = vrun_view(*lhs);
    let ghost r0 = vrun_view(*rhs);
    proof {
        lemma_match_len(l0, r0);
        lemma_vrun_from(*lhs, 0);
        lemma_vrun_from(*rhs, 0);
    }
    let min: usize = if lhs.len() < rhs.len() {
        lhs.len()
    } else {
        rhs.len()
    };
    let mut m: usize = 0;
    while m < min
        invariant
            m <= min,
            min <= l0.len(),
            min <= r0.len(),
            min == if l0.len() < r0.len() { l0.len() } else { r0.len() },
            l0 == vrun_view(*lhs),
            r0 == vrun_view(*rhs),
            l0.len() == lhs@.len(),
            r0.len() == rhs@.len(),
            forall|k: int| 0 <= k < l0.len() ==> l0[k] == node_view(#[trigger] lhs@[k]),
            forall|k: int| 0 <= k < r0.len() ==> r0[k] == node_view(#[trigger] rhs@[k]),
            forall|k: int| 0 <= k < m ==> (#[trigger] l0[k]).commit.id == r0[k].commit.id,
        decreases min - m,
    {
        if lhs[m].local_commit.id != rhs[m].local_commit.id {
            proof {
                lemma_match_len(l0, r0);
                let ml = match_len(l0, r0);
                assert(l0[m as int] == node_view(lhs@[m as int]));
                assert(r0[m as int] == node_view(rhs@[m as int]));
                assert(l0[m as int].commit.id != r0[m as int].commit.id);
                if ml < m as int {
                    assert(l0[ml].commit.id == r0[ml].commit.id);
                    assert(l0[ml].commit.id != r0[ml].commit.id);
                } else if ml > m as int {
                    assert(l0[m as int].commit.id == r0[m as int].commit.id);
                }
            }
            return m;
        }
        m = m + 1;
    }
    proof {
        lemma_match_len(l0, r0);
        let ml = match_len(l0, r0);
        if ml < m as int {
            assert(l0[ml].commit.id == r0[ml].commit.id);
            assert(l0[ml].commit.id != r0[ml].commit.id);
        }
    }
    m
}

/// Merge `rhs` into `lhs` when the two stacks share their first commit.
/// On success `rhs` is emptied, absorbed into `lhs`; otherwise both stay
/// as they were.
pub fn merge_stack(lhs: &mut Vec<Node>, rhs: &mut Vec<Node>) -> (merged: bool)
    ensures
        match merge_stack_s(vrun_view(*old(lhs)), vrun_view(*old(rhs))) {
            None => !merged && *final(lhs) == *old(lhs) && *final(rhs) == *old(rhs),
            Some(x) => merged && vrun_view(*final(lhs)) == x && final(rhs)@.len() == 0,
        },
    decreases run_size(vrun_view(*rhs)), 0int, 0int,
{
    let ghost l0 = vrun_view(*old(lhs));
    let ghost r0 = vrun_view(*old(rhs));
    proof {
        lemma_match_len(l0, r0);
        lemma_vrun_from(*lhs, 0);
        lemma_vrun_from(*rhs, 0);
    }
    let m = shared_prefix_len(lhs, rhs);
    if m == 0 {
        return false;
    }
    let ghost lu = union_prefix(l0, r0, m as int);
    let mut new_lhs: Vec<Node> = Vec::new();
    let mut k: usize = 0;
    while k < m
        invariant
            k <= m,
            0 < m <= l0.len(),
            m <= r0.len(),
            lu == union_prefix(l0, r0, m as int),
            lhs@.len() == l0.len() - k,
            rhs@.len() == r0.len() - k,
            forall|j: int| 0 <= j < lhs@.len() ==> node_view(#[trigger] lhs@[j]) == l0[k + j],
            forall|j: int| 0 <= j < rhs@.len() ==> node_view(#[trigger] rhs@[j]) == r0[k + j],
            new_lhs@.len() == k,
            forall|j: int| 0 <= j < k ==> node_view(#[trigger] new_lhs@[j]) == lu[j],
        decreases m - k,
    {
        let mut ln = lhs.remove(0);
        let mut rn = rhs.remove(0);
        let ghost ln0 = ln;
        let ghost rn0 = rn;
        ln.branches.append(&mut rn.branches);
        proof {
            assert(node_view(ln0) == l0[k as int]);
            assert(node_view(rn0) == r0[k as int]);
            assert(branches_view(ln.branches@) =~= branches_view(ln0.branches@)
                + branches_view(rn0.branches@));
            assert(node_view(ln) == lu[k as int]);
        }
        new_lhs.push(ln);
        k = k + 1;
    }
    if rhs.len() == 0 {
        // the whole right stack was shared: the union is the result
        new_lhs.append(lhs);
        proof {
            assert forall|j: int| 0 <= j < new_lhs@.len() implies lu[j] == node_view(
                #[trigger] new_lhs@[j],
            ) by {
                if j >= m {
                    assert(node_view(new_lhs@[j]) == l0[j]);
                }
            }
            lemma_vrun_eq(new_lhs, lu);
        }
        *lhs = new_lhs;
        return true;
    }
    if lhs.len() == 0 {
        // the right stack continues past the left one: hang the rest
        // below the last shared node
        let mut last = match new_lhs.pop() {
            Some(n) => n,
            None => {
                proof {
                    assert(false);
                }
                return false;
            },
        };
        proof {
            assert(node_view(last) == lu[m - 1]);
        }
        let mut rest: Vec<Node> = Vec::new();
        rest.append(rhs);
        proof {
            assert forall|j: int| 0 <= j < rest@.len() implies r0.skip(m as int)[j] == node_view(
                #[trigger] rest@[j],
            ) by {
                assert(node_view(rest@[j]) == r0[m + j]);
            }
            lemma_vrun_eq(rest, r0.skip(m as int));
        }
        let ghost last0 = last;
        last.stacks.push(rest);
        proof {
            lemma_vstacks_from(last0.stacks, 0);
            assert forall|j: int| 0 <= j < last.stacks@.len() implies vstacks_view(
                last0.stacks,
            ).push(r0.skip(m as int))[j] == vrun_view(#[trigger] last.stacks@[j]) by {
                if j < last0.stacks@.len() {
                    assert(last.stacks@[j] == last0.stacks@[j]);
                }
            }
            lemma_vstacks_eq(last.stacks, vstacks_view(last0.stacks).push(r0.skip(m as int)));
        }
        new_lhs.push(last);
        proof {
            lemma_vrun_eq(
                new_lhs,
                lu.update(
                    m - 1,
                    NodeS {
                        commit: lu[m - 1].commit,
                        branches: lu[m - 1].branches,
                        stacks: lu[m - 1].stacks.push(r0.skip(m as int)),
                    },
                ),
            );
        }
        *lhs = new_lhs;
        return true;
    }
    // the stacks diverge after the shared prefix: merge the rest of the
    // right stack below the last shared node
    let mut rest: Vec<Node> = Vec::new();
    rest.append(rhs);
    proof {
        assert forall|j: int| 0 <= j < rest@.len() implies r0.skip(m as int)[j] == node_view(
            #[trigger] rest@[j],
        ) by {
            assert(node_view(rest@[j]) == r0[m + j]);
        }
        lemma_vrun_eq(rest, r0.skip(m as int));
    }
    let mut rstacks: Vec<Vec<Node>> = Vec::new();
    rstacks.push(rest);
    proof {
        lemma_vstacks_eq(rstacks, seq![r0.skip(m as int)]);
    }
    let mut host = match new_lhs.pop() {
        Some(n) => n,
        None => {
            proof {
                assert(false);
            }
            return false;
        },
    };
    proof {
        assert(node_view(host) == lu[m - 1]);
        lemma_run_size_prefix(r0, 0, m as int);
        lemma_run_size_shift(r0, m as int, 0);
        assert(seq![r0.skip(m as int)][0] == r0.skip(m as int));
        assert(stacks_size_from(seq![r0.skip(m as int)], 1) == 0);
        assert(stacks_size_from(vstacks_view(rstacks), 0) < run_size(r0));
    }
    merge_stacks_list(&mut host, rstacks);
    new_lhs.push(host);
    new_lhs.append(lhs);
    proof {
        let ghost target = lu.update(m - 1, merge_stacks_s(lu[m - 1], seq![r0.skip(m as int)], 0));
        assert forall|j: int| 0 <= j < new_lhs@.len() implies target[j] == node_view(
            #[trigger] new_lhs@[j],
        ) by {
            if j < m - 1 {
            } else if j == m - 1 {
            } else {
                assert(node_view(new_lhs@[j]) == l0[j]);
            }
        }
        lemma_vrun_eq(new_lhs, target);
    }
    *lhs = new_lhs;
    true
}

/// Try to merge the stack `rs` into each of `host`'s stacks from position
/// `i` on; if none absorbs it, it becomes a new sibling stack.
fn merge_try(host: &mut Node, rs: Vec<Node>, i: usize)
    requires
        i <= old(host).stacks@.len(),
    ensures
        node_view(*final(host)) == merge_try_s(node_view(*old(host)), vrun_view(rs), i as int),
    decreases run_size(vrun_view(rs)) + 1, 1int, old(host).stacks@.len() - i,
{
    let ghost h0 = node_view(*old(host));
    let ghost rv = vrun_view(rs);
    proof {
        lemma_vstacks_from(host.stacks, 0);
    }
    if i >= host.stacks.len() {
        host.stacks.push(rs);
        proof {
            lemma_vstacks_eq(host.stacks, h0.stacks.push(rv));
        }
        return;
    }
    let mut stack_i = host.stacks.remove(i);
    proof {
        assert(vrun_view(stack_i) == h0.stacks[i as int]);
    }
    let mut rs = rs;
    let merged = merge_stack(&mut stack_i, &mut rs);
    if merged {
        host.stacks.insert(i, stack_i);
        proof {
            lemma_vstacks_eq(host.stacks, h0.stacks.update(i as int, vrun_view(stack_i)));
        }
    } else {
        host.stacks.insert(i, stack_i);
        proof {
            lemma_vstacks_eq(host.stacks, h0.stacks);
            assert(node_view(*host) == h0);
        }
        merge_try(host, rs, i + 1);
    }
}

/// Fold a list of stacks into `host`, one at a time.
fn merge_stacks_list(host: &mut Node, rstacks: Vec<Vec<Node>>)
    ensures
        node_view(*final(host)) == merge_stacks_s(node_view(*old(host)), vstacks_view(rstacks),
            0),
    decreases stacks_size_from(vstacks_view(rstacks), 0), 2int, 0int,
{
    let ghost h0 = node_view(*old(host));
    let ghost sv = vstacks_view(rstacks);
    proof {
        lemma_vstacks_from(rstacks, 0);
    }
    let mut rstacks = rstacks;
    if rstacks.len() == 0 {
        return;
    }
    let rs = rstacks.remove(0);
    proof {
        assert(vrun_view(rs) == sv[0]);
        lemma_vstacks_eq(rstacks, sv.drop_first());
        assert(stacks_size_from(sv, 0) == 1 + run_size_from(sv[0], 0) + stacks_size_from(sv, 1));
        lemma_stacks_size_shift(sv, 1, 0);
    }
    merge_try(host, rs, 0);
    proof {
        assert(node_view(*host) == merge_try_s(h0, sv[0], 0));
        lemma_merge_stacks_step(h0, sv);
    }
    merge_stacks_list(host, rstacks);
}

/// Dropping a leading stack reindexes the stack-list weight.
proof fn lemma_stacks_size_shift(ss: Seq<Seq<NodeS>>, i: int, k: int)
    requires
        0 <= i <= ss.len(),
        0 <= k,
    ensures
        stacks_size_from(ss.skip(i), k) == stacks_size_from(ss, i + k),
    decreases ss.len() - i - k,
{
    assert(ss.skip(i).len() == ss.len() - i);
    if i + k < ss.len() {
        assert(ss.skip(i)[k] == ss[i + k]);
        lemma_stacks_size_shift(ss, i, k + 1);
    } else {
        assert(stacks_size_from(ss.skip(i), k) == 0);
        assert(stacks_size_from(ss, i + k) == 0);
    }
}

/// One step of the stack fold, seen from the front of the list.
proof fn lemma_merge_stacks_step(l: NodeS, sv: Seq<Seq<NodeS>>)
    requires
        sv.len() > 0,
    ensures
        merge_stacks_s(l, sv, 0) == merge_stacks_s(merge_try_s(l, sv[0], 0), sv.drop_first(), 0),
{
    lemma_merge_stacks_shift(merge_try_s(l, sv[0], 0), sv, 1, 0);
}

/// The stack fold does not care how far the list has been consumed, only
/// which stacks remain.
proof fn lemma_merge_stacks_shift(l: NodeS, sv: Seq<Seq<NodeS>>, i: int, k: int)
    requires
        0 <= i <= sv.len(),
        0 <= k,
    ensures
        merge_stacks_s(l, sv.skip(i), k) == merge_stacks_s(l, sv, i + k),
    decreases sv.len() - i - k,
{
    assert(sv.skip(i).len() == sv.len() - i);
    if i + k < sv.len() {
        assert(sv.skip(i)[k] == sv[i + k]);
        lemma_merge_stacks_shift(merge_try_s(l, sv[i + k], 0), sv, i, k + 1);
    }
}

impl Node {
    /// Merge `other` into this node: the branches union, and each of
    /// `other`'s stacks folds into this node's stacks.
    pub fn merge(&mut self, other: Node)
        ensures
            node_view(*final(self)) == merge_s(node_view(*old(self)), node_view(other)),
    {
        let ghost s0 = node_view(*old(self));
        let ghost o0 = node_view(other);
        let Node { local_commit: _, branches: other_branches, stacks: other_stacks } = other;
        let mut other_branches = other_branches;
        self.branches.append(&mut other_branches);
        proof {
            assert(branches_view(self.branches@) =~= s0.branches + o0.branches);
            assert(node_view(*self) == NodeS {
                commit: s0.commit,
                branches: s0.branches + o0.branches,
                stacks: s0.stacks,
            });
        }
        merge_stacks_list(self, other_stacks);
    }
}

/// Fold the stacks of `rhs_node` into `lhs_node`; the right-hand node's
/// own commit and branches are the caller's business and are dropped here.
pub fn merge_stacks(lhs_node: &mut Node, rhs_node: Node)
    ensures
        node_view(*final(lhs_node)) == merge_stacks_s(node_view(*old(lhs_node)), node_view(
            rhs_node,
        ).stacks, 0),
{
    let Node { local_commit: _, branches: _, stacks } = rhs_node;
    merge_stacks_list(lhs_node, stacks);
}

/// `push_s` over one stack, from position `j` on.
fn push_run(run: &mut Vec<Node>, other: &Node, j: usize) -> (pushed: bool)
    requires
        j <= old(run)@.len(),
    ensures
        match push_run_s(vrun_view(*old(run)), node_view(*other), j as int) {
            Some(x) => pushed && vrun_view(*final(run)) == x,
            None => !pushed && vrun_view(*final(run)) == vrun_view(*old(run)),
        },
    decreases run_size(vrun_view(*run)) + 1, 1int, run@.len() - j,
{
    let ghost r0 = vrun_view(*old(run));
    proof {
        lemma_vrun_from(*run, 0);
    }
    if j >= run.len() {
        return false;
    }
    let mut node = run.remove(j);
    proof {
        assert(node_view(node) == r0[j as int]);
        lemma_run_size_at(r0, 0, j as int);
    }
    let pushed = node.push(other);
    run.insert(j, node);
    if pushed {
        proof {
            lemma_vrun_eq(*run, r0.update(j as int, node_view(node)));
        }
        true
    } else {
        proof {
            lemma_vrun_eq(*run, r0);
        }
        push_run(run, other, j + 1)
    }
}

/// `push_s` over the stacks, from position `i` on.
fn push_stacks(ss: &mut Vec<Vec<Node>>, other: &Node, i: usize) -> (pushed: bool)
    requires
        i <= old(ss)@.len(),
    ensures
        match push_stacks_s(vstacks_view(*old(ss)), node_view(*other), i as int) {
            Some(x) => pushed && vstacks_view(*final(ss)) == x,
            None => !pushed && vstacks_view(*final(ss)) == vstacks_view(*old(ss)),
        },
    decreases stacks_size_from(vstacks_view(*ss), 0) + 1, 2int, ss@.len() - i,
{
    let ghost s0 = vstacks_view(*old(ss));
    proof {
        lemma_vstacks_from(*ss, 0);
    }
    if i >= ss.len() {
        return false;
    }
    let mut stack_i = ss.remove(i);
    proof {
        assert(vrun_view(stack_i) == s0[i as int]);
        lemma_stacks_size_at(s0, 0, i as int);
    }
    let pushed = push_run(&mut stack_i, other, 0);
    ss.insert(i, stack_i);
    if pushed {
        proof {
            lemma_vstacks_eq(*ss, s0.update(i as int, vrun_view(stack_i)));
        }
        true
    } else {
        proof {
            lemma_vstacks_eq(*ss, s0);
        }
        push_stacks(ss, other, i + 1)
    }
}

impl Node {
    /// Find the node holding `other`'s commit anywhere in this tree and
    /// merge `other` into it; reports whether such a node was found.
    pub fn push(&mut self, other: &Node) -> (pushed: bool)
        ensures
            match push_s(node_view(*old(self)), node_view(*other)) {
                Some(t) => pushed && node_view(*final(self)) == t,
                None => !pushed && node_view(*final(self)) == node_view(*old(self)),
            },
        decreases node_size(node_view(*self)), 0int, 0int,
    {
        let ghost t0 = node_view(*old(self));
        if self.local_commit.id == other.local_commit.id {
            let dup = other.duplicate();
            self.merge(dup);
            return true;
        }
        let pushed = push_stacks(&mut self.stacks, other, 0);
        proof {
            assert(node_view(*self) == NodeS {
                commit: t0.commit,
                branches: t0.branches,
                stacks: vstacks_view(self.stacks),
            });
        }
        pushed
    }
}

/// `take_until` is the prefix before the first occurrence of `x`.
proof fn lemma_take_until(s: Seq<usize>, x: usize, p: int)
    requires
        0 <= p <= s.len(),
        forall|k: int| 0 <= k < p ==> s[k] != x,
        p < s.len() ==> s[p] == x,
    ensures
        take_until(s, x) == s.take(p),
    decreases s.len(),
{
    if s.len() == 0 {
        assert(take_until(s, x) =~= s.take(p));
    } else if s[0] == x {
        assert(p == 0);
        assert(take_until(s, x) =~= s.take(0));
    } else {
        let t = s.drop_first();
        assert(p >= 1);
        assert forall|k: int| 0 <= k < p - 1 implies t[k] != x by {
            assert(t[k] == s[k + 1]);
        }
        lemma_take_until(t, x, p - 1);
        assert(take_until(s, x) =~= s.take(p));
    }
}

/// Build the tree for a linear walk: a node for `base` and, as its single
/// stack, nodes for the commits strictly between `base` and `head`, oldest
/// first, each taking its branches out of the index.
pub fn populate(repo: &Repo, base: usize, head: usize, branches: &mut Branches) -> (r: Result<
    Node,
    GraphError,
>)
    requires
        repo.wf(),
    ensures
        match r {
            Ok(n) => populate_ok(repo@, base, head) && node_view(n) == populate_s(repo@, base,
                head, old(branches)@).0 && final(branches)@ == populate_s(repo@, base, head,
                old(branches)@).1,
            Err(e) => !populate_ok(repo@, base, head) && final(branches)@ == old(branches)@ && (e
                == GraphError::NoMergeBase <==> merge_base_spec(repo@, base, head) is None) && (e
                == GraphError::NotDescendant <==> (merge_base_spec(repo@, base, head) matches Some(
                x,
            ) && x != base)),
        },
{
    let ghost bs0 = branches@;
    match repo.merge_base(base, head) {
        None => {
            return Err(GraphError::NoMergeBase);
        },
        Some(mb) => {
            if mb != base {
                return Err(GraphError::NotDescendant);
            }
        },
    }
    proof {
        lemma_first_common_in(anc_chain(repo@, base), anc_chain(repo@, head));
        crate::git::lemma_anc_chain_shape(repo@, base);
        crate::git::lemma_anc_chain_shape(repo@, head);
        let ca = anc_chain(repo@, base);
        assert(ca.contains(base));
        let w = choose|w: int| 0 <= w < ca.len() && ca[w] == base;
        assert(base < repo@.len());
    }
    let base_commit = match repo.find_commit(base) {
        Some(c) => c,
        None => {
            proof {
                assert(false);
            }
            return Err(GraphError::NoMergeBase);
        },
    };
    let mut root = Node::new(base_commit, branches);
    let ghost bs1 = sgroups_remove(bs0, base);
    let chain = repo.ancestors_of(head);
    let mut prefix: Vec<usize> = Vec::new();
    let mut i: usize = 0;
    while i < chain.len() && chain[i] != base
        invariant
            i <= chain@.len(),
            chain@ == anc_chain(repo@, head),
            prefix@ == chain@.take(i as int),
            forall|k: int| 0 <= k < i ==> chain@[k] != base,
        decreases chain@.len() - i,
    {
        prefix.push(chain[i]);
        proof {
            assert(prefix@ =~= chain@.take(i + 1));
        }
        i = i + 1;
    }
    proof {
        lemma_take_until(chain@, base, i as int);
    }
    let ghost ids = take_until(anc_chain(repo@, head), base).reverse();
    let ghost full = build_run(repo@, ids, bs1, 0);
    proof {
        lemma_build_run_len(repo@, ids, bs1, 0);
        assert(ids.len() == prefix@.len());
        assert forall|k: int| 0 <= k < ids.len() implies ids[k] == prefix@[prefix@.len() - 1
            - k] by {}
    }
    let mut run: Vec<Node> = Vec::new();
    let mut idx: usize = prefix.len();
    proof {
        assert(ids.skip(0) =~= ids);
    }
    while idx > 0
        invariant
            idx <= prefix@.len(),
            prefix@.len() == ids.len(),
            forall|k: int| 0 <= k < ids.len() ==> ids[k] == prefix@[prefix@.len() - 1 - k],
            forall|k: int| 0 <= k < ids.len() ==> #[trigger] ids[k] < repo@.len(),
            repo.wf(),
            full == build_run(repo@, ids, bs1, 0),
            full.0.len() == ids.len(),
            run@.len() == prefix@.len() - idx,
            build_run(repo@, ids, branches@, prefix@.len() - idx as int) == (full.0.skip(
                prefix@.len() - idx as int,
            ), full.1),
            forall|j: int| 0 <= j < run@.len() ==> node_view(#[trigger] run@[j]) == full.0[j],
        decreases idx,
    {
        idx = idx - 1;
        let ghost k = prefix@.len() - idx - 1;
        let id = prefix[idx];
        proof {
            assert(ids[k] == id);
        }
        let c = match repo.find_commit(id) {
            Some(c) => c,
            None => {
                proof {
                    assert(false);
                }
                return Err(GraphError::NoMergeBase);
            },
        };
        let ghost bs_now = branches@;
        let node = Node::new(c, branches);
        proof {
            assert(build_run(repo@, ids, bs_now, k) == (
                seq![fresh_node(commit_view_at(repo@, ids[k]), sgroups_get(bs_now, ids[k]))]
                    + build_run(repo@, ids, sgroups_remove(bs_now, ids[k]), k + 1).0,
                build_run(repo@, ids, sgroups_remove(bs_now, ids[k]), k + 1).1,
            ));
            assert(node_view(node) == full.0.skip(k)[0]);
            assert(full.0.skip(k)[0] == full.0[k]);
            assert(full.0.skip(k).drop_first() =~= full.0.skip(k + 1));
            assert(build_run(repo@, ids, branches@, k + 1).0 == full.0.skip(k).drop_first());
        }
        run.push(node);
    }
    proof {
        assert(build_run(repo@, ids, branches@, ids.len() as int) == (full.0.skip(
            ids.len() as int,
        ), full.1));
        assert(branches@ == full.1);
        assert(full.0.skip(ids.len() as int).len() == 0);
        assert(full.0.len() == ids.len());
        lemma_vrun_eq(run, full.0);
    }
    if run.len() > 0 {
        let ghost root0 = node_view(root);
        root.stacks.push(run);
        proof {
            lemma_vstacks_eq(root.stacks, seq![full.0]);
            assert(node_view(root) == NodeS {
                commit: root0.commit,
                branches: root0.branches,
                stacks: seq![full.0],
            });
        }
    }
    Ok(root)
}

/// `build_run` consumes ids one at a time, so its result length matches.
proof fn lemma_build_run_len(r: Seq<CommitRecordS>, ids: Seq<usize>, bs: Seq<GroupS>, i: int)
    ensures
        build_run(r, ids, bs, i).0.len() == if 0 <= i <= ids.len() {
            ids.len() - i
        } else {
            0int
        },
    decreases ids.len() - i,
{
    if 0 <= i < ids.len() {
        lemma_build_run_len(r, ids, sgroups_remove(bs, ids[i]), i + 1);
    }
}

impl Node {
    /// Insert the branch tip `local_commit` into this tree: walk down to
    /// the merge base with the current root, pushing the root below it if
    /// the base lies earlier, then merge the tip's linear run in.
    pub fn insert(self, repo: &Repo, local_commit: Commit, possible_branches: &mut Branches)
        -> (r: Result<Node, GraphError>)
        requires
            repo.wf(),
        ensures
            match r {
                Ok(n) => insert_s(repo@, node_view(self), local_commit@.id,
                    old(possible_branches)@) matches Ok(p) && p.0 == node_view(n)
                    && p.1 == final(possible_branches)@,
                Err(e) => insert_s(repo@, node_view(self), local_commit@.id,
                    old(possible_branches)@) matches Err(e2) && e == e2
                    && final(possible_branches)@ == old(possible_branches)@,
            },
    {
        let ghost t0 = node_view(self);
        let ghost bs0 = possible_branches@;
        let self_id = self.local_commit.id;
        let other_id = local_commit.id;
        let mb = match repo.merge_base(self_id, other_id) {
            None => {
                return Err(GraphError::NoMergeBase);
            },
            Some(m) => m,
        };
        proof {
            lemma_first_common_in(anc_chain(repo@, self_id), anc_chain(repo@, other_id));
        }
        let mut tree = self;
        if mb != self_id {
            proof {
                crate::git::lemma_merge_base_of_ancestor(repo@, mb, self_id);
            }
            let mut prefix = match populate(repo, mb, self_id, possible_branches) {
                Ok(p) => p,
                Err(e) => {
                    proof {
                        assert(false);
                    }
                    return Err(e);
                },
            };
            prefix.push(&tree);
            tree = prefix;
            proof {
                assert(node_view(tree) == push_or_keep(
                    populate_s(repo@, mb, self_id, bs0).0,
                    t0,
                ));
            }
        }
        proof {
            crate::git::lemma_merge_base_of_ancestor(repo@, mb, other_id);
        }
        let other = match populate(repo, mb, other_id, possible_branches) {
            Ok(o) => o,
            Err(e) => {
                proof {
                    assert(false);
                }
                return Err(e);
            },
        };
        tree.merge(other);
        Ok(tree)
    }
}

/// Where the new tip goes in a sorted list is where `insert_tip` puts it.
proof fn lemma_insert_tip_at(s: Seq<usize>, id: usize, bs: Seq<GroupS>, p: int)
    requires
        0 <= p <= s.len(),
        forall|k: int| 0 <= k < p ==> !chars_le(tip_name(bs, id), tip_name(bs, #[trigger] s[k])),
        p < s.len() ==> chars_le(tip_name(bs, id), tip_name(bs, s[p])),
    ensures
        insert_tip(s, id, bs) == s.take(p) + seq![id] + s.skip(p),
    decreases s.len(),
{
    if s.len() == 0 {
        assert(insert_tip(s, id, bs) =~= s.take(p) + seq![id] + s.skip(p));
    } else if chars_le(tip_name(bs, id), tip_name(bs, s[0])) {
        assert(p == 0);
        assert(insert_tip(s, id, bs) =~= s.take(0) + seq![id] + s.skip(0));
    } else {
        let t = s.drop_first();
        assert(p >= 1);
        assert forall|k: int| 0 <= k < p - 1 implies !chars_le(tip_name(bs, id), tip_name(
            bs,
            #[trigger] t[k],
        )) by {
            assert(t[k] == s[k + 1]);
        }
        lemma_insert_tip_at(t, id, bs, p - 1);
        assert(insert_tip(s, id, bs) =~= s.take(p) + seq![id] + s.skip(p));
    }
}

/// Sorting keeps the number of tips.
proof fn lemma_insert_tip_len(s: Seq<usize>, id: usize, bs: Seq<GroupS>)
    ensures
        insert_tip(s, id, bs).len() == s.len() + 1,
    decreases s.len(),
{
    if s.len() > 0 && !chars_le(tip_name(bs, id), tip_name(bs, s[0])) {
        lemma_insert_tip_len(s.drop_first(), id, bs);
    }
}

/// Sorting keeps exactly the tips it was given.
proof fn lemma_insert_tip_contains(s: Seq<usize>, id: usize, bs: Seq<GroupS>, x: usize)
    ensures
        insert_tip(s, id, bs).contains(x) <==> (x == id || s.contains(x)),
    decreases s.len(),
{
    let r = insert_tip(s, id, bs);
    if s.len() == 0 {
        assert(r =~= seq![id]);
        if r.contains(x) {
            let w = choose|w: int| 0 <= w < r.len() && r[w] == x;
            assert(x == id);
        }
        if x == id {
            assert(r[0] == x);
        }
    } else if chars_le(tip_name(bs, id), tip_name(bs, s[0])) {
        assert(r =~= seq![id] + s);
        if r.contains(x) {
            let w = choose|w: int| 0 <= w < r.len() && r[w] == x;
            if w > 0 {
                assert(s[w - 1] == x);
            }
        }
        if x == id {
            assert(r[0] == x);
        }
        if s.contains(x) {
            let w = choose|w: int| 0 <= w < s.len() && s[w] == x;
            assert(r[w + 1] == x);
        }
    } else {
        let t = s.drop_first();
        lemma_insert_tip_contains(t, id, bs, x);
        assert(r =~= seq![s[0]] + insert_tip(t, id, bs));
        if r.contains(x) {
            let w = choose|w: int| 0 <= w < r.len() && r[w] == x;
            if w == 0 {
                assert(s[0] == x);
            } else {
                assert(insert_tip(t, id, bs)[w - 1] == x);
                assert(insert_tip(t, id, bs).contains(x));
                if x != id {
                    let u = choose|u: int| 0 <= u < t.len() && t[u] == x;
                    assert(s[u + 1] == x);
                }
            }
        }
        if x == id {
            assert(insert_tip(t, id, bs).contains(x));
            let u = choose|u: int| 0 <= u < insert_tip(t, id, bs).len() && insert_tip(
                t,
                id,
                bs,
            )[u] == x;
            assert(r[u + 1] == x);
        }
        if s.contains(x) {
            let w = choose|w: int| 0 <= w < s.len() && s[w] == x;
            if w == 0 {
                assert(r[0] == x);
            } else {
                assert(t[w - 1] == x);
                assert(insert_tip(t, id, bs).contains(x));
                let u = choose|u: int| 0 <= u < insert_tip(t, id, bs).len() && insert_tip(
                    t,
                    id,
                    bs,
                )[u] == x;
                assert(r[u + 1] == x);
            }
        }
    }
}

/// `sort_tips` is a reordering: same length, same members.
pub proof fn lemma_sort_tips_members(ids: Seq<usize>, bs: Seq<GroupS>)
    ensures
        sort_tips(ids, bs).len() == ids.len(),
        forall|x: usize| sort_tips(ids, bs).contains(x) <==> ids.contains(x),
    decreases ids.len(),
{
    if ids.len() > 0 {
        let rest = ids.drop_last();
        lemma_sort_tips_members(rest, bs);
        lemma_insert_tip_len(sort_tips(rest, bs), ids.last(), bs);
        assert forall|x: usize| sort_tips(ids, bs).contains(x) <==> ids.contains(x) by {
            lemma_insert_tip_contains(sort_tips(rest, bs), ids.last(), bs, x);
            if ids.contains(x) {
                let w = choose|w: int| 0 <= w < ids.len() && ids[w] == x;
                if w < ids.len() - 1 {
                    assert(rest[w] == x);
                    assert(rest.contains(x));
                }
            }
            if x == ids.last() || rest.contains(x) {
                if rest.contains(x) {
                    let w = choose|w: int| 0 <= w < rest.len() && rest[w] == x;
                    assert(ids[w] == x);
                } else {
                    assert(ids[ids.len() - 1] == x);
                }
            }
        }
    }
}

/// The name of the first branch at tip `id`, for sorting.
fn tip_first_name(branches: &Branches, id: usize) -> (r: String)
    requires
        branches.wf(),
        crate::git::sgroups_idx(branches@, id) >= 0,
    ensures
        r@ == tip_name(branches@, id),
{
    proof {
        crate::git::lemma_sgroups_idx(branches@, id);
    }
    match branches.get(id) {
        Some(v) => v[0].name.clone(),
        None => {
            proof {
                assert(false);
            }
            String::new()
        },
    }
}

/// Sort the recorded tips by the name of the first branch at each.
fn sorted_tip_ids(branches: &Branches) -> (r: Vec<usize>)
    requires
        branches.wf(),
    ensures
        r@ == sort_tips(tip_ids(branches@), branches@),
{
    let ghost bs = branches@;
    let ids = branches.oids();
    proof {
        assert(ids@ == tip_ids(bs));
        assert(tip_ids(bs).take(0) =~= Seq::<usize>::empty());
    }
    let mut sorted: Vec<usize> = Vec::new();
    let mut i: usize = 0;
    while i < ids.len()
        invariant
            i <= ids@.len(),
            branches.wf(),
            bs == branches@,
            ids@ == tip_ids(bs),
            sorted@ == sort_tips(ids@.take(i as int), bs),
            forall|k: int| 0 <= k < sorted@.len() ==> crate::git::sgroups_idx(
                bs,
                #[trigger] sorted@[k],
            ) >= 0,
        decreases ids@.len() - i,
    {
        let id = ids[i];
        proof {
            assert(bs[i as int].id == id);
            crate::git::lemma_sgroups_idx(bs, id);
            if crate::git::sgroups_idx(bs, id) == -1 {
                assert(bs[i as int].id != id);
            }
        }
        let name = tip_first_name(branches, id);
        let mut p: usize = 0;
        loop
            invariant
                p <= sorted@.len(),
                branches.wf(),
                bs == branches@,
                name@ == tip_name(bs, id),
                forall|k: int| 0 <= k < sorted@.len() ==> crate::git::sgroups_idx(
                    bs,
                    #[trigger] sorted@[k],
                ) >= 0,
                forall|k: int| 0 <= k < p ==> !chars_le(tip_name(bs, id), tip_name(
                    bs,
                    #[trigger] sorted@[k],
                )),
            ensures
                p <= sorted@.len(),
                forall|k: int| 0 <= k < p ==> !chars_le(tip_name(bs, id), tip_name(
                    bs,
                    #[trigger] sorted@[k],
                )),
                p < sorted@.len() ==> chars_le(tip_name(bs, id), tip_name(bs, sorted@[p as int])),
            decreases sorted@.len() - p,
        {
            if p >= sorted.len() {
                break;
            }
            let cand = tip_first_name(branches, sorted[p]);
            if crate::text::str_le(name.as_str(), cand.as_str()) {
                break;
            }
            p = p + 1;
        }
        let ghost sorted0 = sorted@;
        sorted.insert(p, id);
        proof {
            lemma_insert_tip_at(sorted0, id, bs, p as int);
            assert(sorted@ =~= sorted0.take(p as int) + seq![id] + sorted0.skip(p as int));
            assert(ids@.take(i + 1).drop_last() =~= ids@.take(i as int));
            assert(ids@.take(i + 1).last() == id);
            assert(sorted@ == sort_tips(ids@.take(i + 1), bs));
        }
        i = i + 1;
    }
    proof {
        assert(ids@.take(ids@.len() as int) =~= ids@);
    }
    sorted
}

/// Every id an index records points below `n`.
pub open spec fn tips_below(bs: Seq<GroupS>, n: int) -> bool {
    forall|k: int| 0 <= k < bs.len() ==> (#[trigger] bs[k]).id < n
}

impl Node {
    /// Build the whole tree from a branch index: sort the tips by branch
    /// name, seed the tree with the first, and insert the rest.
    #[verifier::loop_isolation(false)]
    pub fn from_branches(repo: &Repo, branches: Branches) -> (r: Result<Node, GraphError>)
        requires
            repo.wf(),
            branches.wf(),
            tips_below(branches@, repo@.len() as int),
        ensures
            match r {
                Ok(n) => from_branches_s(repo@, branches@) matches Ok(p) && p.0 == node_view(n),
                Err(e) => from_branches_s(repo@, branches@) matches Err(e2) && e == e2,
            },
    {
        let ghost bs0 = branches@;
        let mut branches = branches;
        if branches.is_empty() {
            return Err(GraphError::EmptyBranches);
        }
        let ids = sorted_tip_ids(&branches);
        proof {
            lemma_sort_tips_members(tip_ids(bs0), bs0);
            assert(ids@.len() == bs0.len());
        }
        let root_commit = match repo.find_commit(ids[0]) {
            Some(c) => c,
            None => {
                proof {
                    lemma_tip_member_below(bs0, ids@, 0, repo@.len() as int);
                    assert(false);
                }
                return Err(GraphError::NoMergeBase);
            },
        };
        let mut root = Node::new(root_commit, &mut branches);
        let ghost idsv = ids@;
        let ghost target = fold_insert(repo@, node_view(root), idsv, branches@, 1);
        proof {
            assert(from_branches_s(repo@, bs0) == target);
        }
        let mut i: usize = 1;
        let mut tree = root;
        while i < ids.len()
            invariant
                1 <= i <= idsv.len(),
                idsv == ids@,
                repo.wf(),
                tips_below(bs0, repo@.len() as int),
                forall|x: usize| idsv.contains(x) ==> tip_ids(bs0).contains(x),
                target == fold_insert(repo@, node_view(tree), idsv, branches@, i as int),
                from_branches_s(repo@, bs0) == target,
            decreases idsv.len() - i,
        {
            let tip = ids[i];
            let c = match repo.find_commit(tip) {
                Some(c) => c,
                None => {
                    proof {
                        lemma_tip_member_below(bs0, idsv, i as int, repo@.len() as int);
                        assert(false);
                    }
                    return Err(GraphError::NoMergeBase);
                },
            };
            tree = match tree.insert(repo, c, &mut branches) {
                Ok(t) => t,
                Err(e) => {
                    proof {
                        assert(target matches Err(e2) && e2 == e);
                    }
                    return Err(e);
                },
            };
            i = i + 1;
        }
        proof {
            assert(target == Ok::<_, GraphError>((node_view(tree), branches@)));
        }
        Ok(tree)
    }

    /// Insert every tip of a further index into this tree.
    #[verifier::loop_isolation(false)]
    pub fn extend(self, repo: &Repo, branches: Branches) -> (r: Result<Node, GraphError>)
        requires
            repo.wf(),
            branches.wf(),
            tips_below(branches@, repo@.len() as int),
        ensures
            match r {
                Ok(n) => extend_s(repo@, node_view(self), branches@) matches Ok(p) && p.0
                    == node_view(n),
                Err(e) => extend_s(repo@, node_view(self), branches@) matches Err(e2) && e == e2,
            },
    {
        let ghost bs0 = branches@;
        let ghost old_self = node_view(self);
        let mut branches = branches;
        if branches.is_empty() {
            proof {
                assert(tip_ids(bs0).len() == 0);
                lemma_sort_tips_members(tip_ids(bs0), bs0);
            }
            return Ok(self);
        }
        let ids = sorted_tip_ids(&branches);
        proof {
            lemma_sort_tips_members(tip_ids(bs0), bs0);
        }
        let ghost idsv = ids@;
        let ghost target = fold_insert(repo@, node_view(self), idsv, branches@, 0);
        proof {
            assert(extend_s(repo@, node_view(self), bs0) == target);
        }
        let mut i: usize = 0;
        let mut tree = self;
        while i < ids.len()
            invariant
                0 <= i <= idsv.len(),
                idsv == ids@,
                repo.wf(),
                tips_below(bs0, repo@.len() as int),
                forall|x: usize| idsv.contains(x) ==> tip_ids(bs0).contains(x),
                target == fold_insert(repo@, node_view(tree), idsv, branches@, i as int),
                extend_s(repo@, old_self, bs0) == target,
            decreases idsv.len() - i,
        {
            let tip = ids[i];
            let c = match repo.find_commit(tip) {
                Some(c) => c,
                None => {
                    proof {
                        lemma_tip_member_below(bs0, idsv, i as int, repo@.len() as int);
                        assert(false);
                    }
                    return Err(GraphError::NoMergeBase);
                },
            };
            tree = match tree.insert(repo, c, &mut branches) {
                Ok(t) => t,
                Err(e) => {
                    proof {
                        assert(target matches Err(e2) && e2 == e);
                    }
                    return Err(e);
                },
            };
            i = i + 1;
        }
        proof {
            assert(target == Ok::<_, GraphError>((node_view(tree), branches@)));
        }
        Ok(tree)
    }
}

/// A member of a sorted tip list is one of the index's ids, so it lies
/// below the repository's length.
proof fn lemma_tip_member_below(bs: Seq<GroupS>, ids: Seq<usize>, i: int, n: int)
    requires
        tips_below(bs, n),
        0 <= i < ids.len(),
        forall|x: usize| ids.contains(x) ==> tip_ids(bs).contains(x),
    ensures
        ids[i] < n,
{
    assert(ids.contains(ids[i]));
    assert(tip_ids(bs).contains(ids[i]));
    let w = choose|w: int| 0 <= w < tip_ids(bs).len() && tip_ids(bs)[w] == ids[i];
    assert(bs[w].id == ids[i]);
}

/// Every branch stored anywhere in the tree, depth first.
pub open spec fn tree_branches(t: NodeS) -> Seq<BranchS>
    decreases t, 0int,
{
    t.branches + stacks_branches_from(t.stacks, 0)
}

/// Every branch in the stacks from position `i` on.
pub open spec fn stacks_branches_from(ss: Seq<Seq<NodeS>>, i: int) -> Seq<BranchS>
    decreases ss, ss.len() - i,
{
    if i < 0 || i >= ss.len() {
        Seq::empty()
    } else {
        run_branches_from(ss[i], 0) + stacks_branches_from(ss, i + 1)
    }
}

/// Every branch in a stack's nodes from position `j` on.
pub open spec fn run_branches_from(run: Seq<NodeS>, j: int) -> Seq<BranchS>
    decreases run, run.len() - j,
{
    if j < 0 || j >= run.len() {
        Seq::empty()
    } else {
        tree_branches(run[j]) + run_branches_from(run, j + 1)
    }
}

/// A linear run: none of its nodes has stacks of its own.
pub open spec fn run_linear(run: Seq<NodeS>) -> bool {
    forall|k: int| 0 <= k < run.len() ==> (#[trigger] run[k]).stacks.len() == 0
}

/// Sibling stacks are non-empty and diverge: no two begin with the same
/// commit.
pub open spec fn stacks_distinct_first(ss: Seq<Seq<NodeS>>) -> bool {
    &&& forall|k: int| 0 <= k < ss.len() ==> (#[trigger] ss[k]).len() > 0
    &&& forall|a: int, b: int|
        0 <= a < b < ss.len() ==> (#[trigger] ss[a])[0].commit.id != (#[trigger] ss[b])[0].commit.id
}

/// Branch collections depend only on the elements still in range.
proof fn lemma_stacks_branches_congruent(a: Seq<Seq<NodeS>>, b: Seq<Seq<NodeS>>, k: int)
    requires
        a.len() == b.len(),
        forall|j: int| k <= j < a.len() ==> a[j] == b[j],
    ensures
        stacks_branches_from(a, k) == stacks_branches_from(b, k),
    decreases a.len() - k,
{
    if 0 <= k < a.len() {
        lemma_stacks_branches_congruent(a, b, k + 1);
    }
}

/// Replacing one stack exchanges exactly that stack's branches.
proof fn lemma_stacks_branches_update(ss: Seq<Seq<NodeS>>, ns: Seq<NodeS>, i: int, k: int)
    requires
        0 <= k <= i < ss.len(),
    ensures
        stacks_branches_from(ss.update(i, ns), k).to_multiset().add(
            run_branches_from(ss[i], 0).to_multiset(),
        ) =~= stacks_branches_from(ss, k).to_multiset().add(
            run_branches_from(ns, 0).to_multiset(),
        ),
    decreases i - k,
{
    broadcast use vstd::multiset::group_multiset_axioms;
    broadcast use vstd::seq_lib::group_to_multiset_ensures;

    let u = ss.update(i, ns);
    assert(stacks_branches_from(u, k) == run_branches_from(u[k], 0) + stacks_branches_from(
        u,
        k + 1,
    ));
    assert(stacks_branches_from(ss, k) == run_branches_from(ss[k], 0) + stacks_branches_from(
        ss,
        k + 1,
    ));
    vstd::seq_lib::lemma_multiset_commutative(run_branches_from(u[k], 0), stacks_branches_from(
        u,
        k + 1,
    ));
    vstd::seq_lib::lemma_multiset_commutative(run_branches_from(ss[k], 0), stacks_branches_from(
        ss,
        k + 1,
    ));
    if k == i {
        assert(u[k] == ns);
        lemma_stacks_branches_congruent(u, ss, k + 1);
        assert(stacks_branches_from(u, k + 1) == stacks_branches_from(ss, k + 1));
        let m_ns = run_branches_from(ns, 0).to_multiset();
        let m_old = run_branches_from(ss[i], 0).to_multiset();
        let m_tail = stacks_branches_from(ss, k + 1).to_multiset();
        assert(stacks_branches_from(u, k).to_multiset() == m_ns.add(m_tail));
        assert(stacks_branches_from(ss, k).to_multiset() == m_old.add(m_tail));
        assert(m_ns.add(m_tail).add(m_old) =~= m_old.add(m_tail).add(m_ns));
    } else {
        assert(u[k] == ss[k]);
        lemma_stacks_branches_update(ss, ns, i, k + 1);
        let m_h = run_branches_from(ss[k], 0).to_multiset();
        let m_old = run_branches_from(ss[i], 0).to_multiset();
        let m_ns = run_branches_from(ns, 0).to_multiset();
        let m_ut = stacks_branches_from(u, k + 1).to_multiset();
        let m_st = stacks_branches_from(ss, k + 1).to_multiset();
        assert(m_ut.add(m_old) == m_st.add(m_ns));
        assert(stacks_branches_from(u, k).to_multiset() == m_h.add(m_ut));
        assert(stacks_branches_from(ss, k).to_multiset() == m_h.add(m_st));
        assert(m_h.add(m_ut).add(m_old) =~= m_h.add(m_ut.add(m_old)));
        assert(m_h.add(m_st.add(m_ns)) =~= m_h.add(m_st).add(m_ns));
    }
}

/// Replacing one node of a run exchanges exactly that node's branches.
proof fn lemma_run_branches_update(run: Seq<NodeS>, n: NodeS, i: int, k: int)
    requires
        0 <= k <= i < run.len(),
    ensures
        run_branches_from(run.update(i, n), k).to_multiset().add(
            tree_branches(run[i]).to_multiset(),
        ) =~= run_branches_from(run, k).to_multiset().add(tree_branches(n).to_multiset()),
    decreases i - k,
{
    broadcast use vstd::multiset::group_multiset_axioms;
    broadcast use vstd::seq_lib::group_to_multiset_ensures;

    let u = run.update(i, n);
    assert(run_branches_from(u, k) == tree_branches(u[k]) + run_branches_from(u, k + 1));
    assert(run_branches_from(run, k) == tree_branches(run[k]) + run_branches_from(run, k + 1));
    vstd::seq_lib::lemma_multiset_commutative(tree_branches(u[k]), run_branches_from(u, k + 1));
    vstd::seq_lib::lemma_multiset_commutative(tree_branches(run[k]), run_branches_from(
        run,
        k + 1,
    ));
    if k == i {
        assert(u[k] == n);
        lemma_run_branches_congruent(u, run, k + 1);
        let m_n = tree_branches(n).to_multiset();
        let m_old = tree_branches(run[i]).to_multiset();
        let m_tail = run_branches_from(run, k + 1).to_multiset();
        assert(run_branches_from(u, k).to_multiset() == m_n.add(m_tail));
        assert(run_branches_from(run, k).to_multiset() == m_old.add(m_tail));
        assert(m_n.add(m_tail).add(m_old) =~= m_old.add(m_tail).add(m_n));
    } else {
        assert(u[k] == run[k]);
        lemma_run_branches_update(run, n, i, k + 1);
        let m_h = tree_branches(run[k]).to_multiset();
        let m_old = tree_branches(run[i]).to_multiset();
        let m_n = tree_branches(n).to_multiset();
        let m_ut = run_branches_from(u, k + 1).to_multiset();
        let m_rt = run_branches_from(run, k + 1).to_multiset();
        assert(m_ut.add(m_old) == m_rt.add(m_n));
        assert(run_branches_from(u, k).to_multiset() == m_h.add(m_ut));
        assert(run_branches_from(run, k).to_multiset() == m_h.add(m_rt));
        assert(m_h.add(m_ut).add(m_old) =~= m_h.add(m_ut.add(m_old)));
        assert(m_h.add(m_rt.add(m_n)) =~= m_h.add(m_rt).add(m_n));
    }
}

/// Branch collections depend only on the nodes still in range.
proof fn lemma_run_branches_congruent(a: Seq<NodeS>, b: Seq<NodeS>, k: int)
    requires
        a.len() == b.len(),
        forall|j: int| k <= j < a.len() ==> a[j] == b[j],
    ensures
        run_branches_from(a, k) == run_branches_from(b, k),
    decreases a.len() - k,
{
    if 0 <= k < a.len() {
        lemma_run_branches_congruent(a, b, k + 1);
    }
}

/// Appending a stack appends its branches.
proof fn lemma_stacks_branches_push(ss: Seq<Seq<NodeS>>, rs: Seq<NodeS>, k: int)
    requires
        0 <= k <= ss.len(),
    ensures
        stacks_branches_from(ss.push(rs), k).to_multiset() =~= stacks_branches_from(
            ss,
            k,
        ).to_multiset().add(run_branches_from(rs, 0).to_multiset()),
    decreases ss.len() - k,
{
    broadcast use vstd::multiset::group_multiset_axioms;
    broadcast use vstd::seq_lib::group_to_multiset_ensures;

    let u = ss.push(rs);
    if k == ss.len() {
        assert(u[k] == rs);
        assert(stacks_branches_from(u, k + 1) =~= Seq::<BranchS>::empty());
        vstd::seq_lib::lemma_multiset_commutative(run_branches_from(rs, 0), stacks_branches_from(
            u,
            k + 1,
        ));
        assert(stacks_branches_from(ss, k) =~= Seq::<BranchS>::empty());
    } else {
        assert(u[k] == ss[k]);
        lemma_stacks_branches_push(ss, rs, k + 1);
        vstd::seq_lib::lemma_multiset_commutative(run_branches_from(u[k], 0),
            stacks_branches_from(u, k + 1));
        vstd::seq_lib::lemma_multiset_commutative(run_branches_from(ss[k], 0),
            stacks_branches_from(ss, k + 1));
    }
}

/// Stacks that do not share a first commit never merge.
proof fn lemma_merge_stack_none(l: Seq<NodeS>, r: Seq<NodeS>)
    requires
        l.len() == 0 || r.len() == 0 || l[0].commit.id != r[0].commit.id,
    ensures
        merge_stack_s(l, r) is None,
{
}

/// Folding stacks into a node with no stacks of its own, when no two of
/// them share a first commit, simply installs them.
proof fn lemma_merge_try_appends(l: NodeS, rs: Seq<NodeS>, i: int)
    requires
        0 <= i <= l.stacks.len(),
        forall|k: int| i <= k < l.stacks.len() ==> ((#[trigger] l.stacks[k]).len() == 0
            || rs.len() == 0 || l.stacks[k][0].commit.id != rs[0].commit.id),
    ensures
        merge_try_s(l, rs, i) == (NodeS {
            commit: l.commit,
            branches: l.branches,
            stacks: l.stacks.push(rs),
        }),
    decreases l.stacks.len() - i,
{
    if i < l.stacks.len() {
        lemma_merge_stack_none(l.stacks[i], rs);
        lemma_merge_try_appends(l, rs, i + 1);
    }
}

/// Merging a whole node into one with no stacks, when the right side's
/// sibling stacks diverge pairwise, keeps everything: the branches union
/// and the stacks carry over unchanged.
proof fn lemma_merge_into_empty(l: NodeS, r: NodeS)
    requires
        l.stacks.len() == 0,
        stacks_distinct_first(r.stacks),
    ensures
        merge_s(l, r) == (NodeS {
            commit: l.commit,
            branches: l.branches + r.branches,
            stacks: r.stacks,
        }),
{
    let start = NodeS { commit: l.commit, branches: l.branches + r.branches, stacks: l.stacks };
    assert(start.stacks =~= r.stacks.take(0));
    lemma_merge_into_empty_fold(start, r.stacks, 0);
    assert(start.stacks + r.stacks.skip(0) =~= r.stacks);
}

/// The fold behind `lemma_merge_into_empty`, one stack at a time.
proof fn lemma_merge_into_empty_fold(l: NodeS, ss: Seq<Seq<NodeS>>, i: int)
    requires
        0 <= i <= ss.len(),
        stacks_distinct_first(ss),
        l.stacks =~= ss.take(i),
    ensures
        merge_stacks_s(l, ss, i) == (NodeS {
            commit: l.commit,
            branches: l.branches,
            stacks: l.stacks + ss.skip(i),
        }),
    decreases ss.len() - i,
{
    if i >= ss.len() {
        assert(l.stacks + ss.skip(i) =~= l.stacks);
    } else {
        assert forall|k: int| 0 <= k < l.stacks.len() implies ((#[trigger] l.stacks[k]).len()
            == 0 || ss[i].len() == 0 || l.stacks[k][0].commit.id != ss[i][0].commit.id) by {
            assert(l.stacks[k] == ss[k]);
        }
        lemma_merge_try_appends(l, ss[i], 0);
        let l1 = merge_try_s(l, ss[i], 0);
        assert(l1.stacks =~= ss.take(i + 1));
        lemma_merge_into_empty_fold(l1, ss, i + 1);
        assert(l1.stacks + ss.skip(i + 1) =~= l.stacks + ss.skip(i));
    }
}

/// Reindexing branch collections across a dropped prefix.
proof fn lemma_run_branches_shift(r: Seq<NodeS>, i: int, k: int)
    requires
        0 <= i <= r.len(),
        0 <= k,
    ensures
        run_branches_from(r.skip(i), k) == run_branches_from(r, i + k),
    decreases r.len() - i - k,
{
    assert(r.skip(i).len() == r.len() - i);
    if i + k < r.len() {
        assert(r.skip(i)[k] == r[i + k]);
        lemma_run_branches_shift(r, i, k + 1);
    }
}

/// A run's branches split at any point into prefix and suffix.
proof fn lemma_run_branches_split(r: Seq<NodeS>, m: int, k: int)
    requires
        0 <= k <= m <= r.len(),
    ensures
        run_branches_from(r, k).to_multiset() =~= run_branches_from(r.take(m), k).to_multiset()
            .add(run_branches_from(r, m).to_multiset()),
    decreases m - k,
{
    broadcast use vstd::multiset::group_multiset_axioms;
    broadcast use vstd::seq_lib::group_to_multiset_ensures;

    if k == m {
        assert(run_branches_from(r.take(m), k) =~= Seq::<BranchS>::empty());
        assert(run_branches_from(r.take(m), k).to_multiset() =~= Multiset::<BranchS>::empty());
    } else {
        assert(r.take(m)[k] == r[k]);
        lemma_run_branches_split(r, m, k + 1);
        assert(run_branches_from(r, k) == tree_branches(r[k]) + run_branches_from(r, k + 1));
        assert(run_branches_from(r.take(m), k) == tree_branches(r.take(m)[k])
            + run_branches_from(r.take(m), k + 1));
        vstd::seq_lib::lemma_multiset_commutative(tree_branches(r[k]), run_branches_from(
            r,
            k + 1,
        ));
        vstd::seq_lib::lemma_multiset_commutative(tree_branches(r.take(m)[k]),
            run_branches_from(r.take(m), k + 1));
        let m_h = tree_branches(r[k]).to_multiset();
        let m_t1 = run_branches_from(r.take(m), k + 1).to_multiset();
        let m_t2 = run_branches_from(r, m).to_multiset();
        assert(run_branches_from(r, k + 1).to_multiset() == m_t1.add(m_t2));
        assert(run_branches_from(r, k).to_multiset() == m_h.add(m_t1.add(m_t2)));
        assert(run_branches_from(r.take(m), k).to_multiset() == m_h.add(m_t1));
        assert(m_h.add(m_t1.add(m_t2)) =~= m_h.add(m_t1).add(m_t2));
    }
}

/// Unioning a prefix of branches adds exactly those branches.
proof fn lemma_union_prefix_branches(l: Seq<NodeS>, r: Seq<NodeS>, m: int, k: int)
    requires
        run_linear(r),
        0 <= k <= l.len(),
        0 <= m <= l.len(),
        m <= r.len(),
    ensures
        run_branches_from(union_prefix(l, r, m), k).to_multiset() =~= run_branches_from(
            l,
            k,
        ).to_multiset().add(run_branches_from(r.take(m), k).to_multiset()),
    decreases l.len() - k,
{
    broadcast use vstd::multiset::group_multiset_axioms;
    broadcast use vstd::seq_lib::group_to_multiset_ensures;

    let lu = union_prefix(l, r, m);
    if k == l.len() {
        assert(run_branches_from(r.take(m), k) =~= Seq::<BranchS>::empty());
        assert(run_branches_from(r.take(m), k).to_multiset() =~= Multiset::<BranchS>::empty());
        assert(run_branches_from(lu, k) =~= Seq::<BranchS>::empty());
        assert(run_branches_from(l, k) =~= Seq::<BranchS>::empty());
    } else {
        lemma_union_prefix_branches(l, r, m, k + 1);
        assert(run_branches_from(lu, k) == tree_branches(lu[k]) + run_branches_from(lu, k + 1));
        assert(run_branches_from(l, k) == tree_branches(l[k]) + run_branches_from(l, k + 1));
        vstd::seq_lib::lemma_multiset_commutative(tree_branches(lu[k]), run_branches_from(
            lu,
            k + 1,
        ));
        vstd::seq_lib::lemma_multiset_commutative(tree_branches(l[k]), run_branches_from(
            l,
            k + 1,
        ));
        let m_lk = tree_branches(l[k]).to_multiset();
        let m_lt = run_branches_from(l, k + 1).to_multiset();
        let m_tt = run_branches_from(r.take(m), k + 1).to_multiset();
        if k < m {
            assert(r[k].stacks.len() == 0);
            assert(stacks_branches_from(r[k].stacks, 0) =~= Seq::<BranchS>::empty());
            assert(tree_branches(r.take(m)[k]) =~= r[k].branches);
            assert(run_branches_from(r.take(m), k) == tree_branches(r.take(m)[k])
                + run_branches_from(r.take(m), k + 1));
            vstd::seq_lib::lemma_multiset_commutative(tree_branches(r.take(m)[k]),
                run_branches_from(r.take(m), k + 1));
            let m_rk = r[k].branches.to_multiset();
            assert(tree_branches(r.take(m)[k]).to_multiset() == m_rk) by {
                assert(tree_branches(r.take(m)[k]) =~= r[k].branches);
            }
            assert(run_branches_from(r.take(m), k).to_multiset() == m_rk.add(m_tt));
            // the unioned node splits into the left node plus the right branches
            assert(tree_branches(lu[k]) =~= (l[k].branches + r[k].branches)
                + stacks_branches_from(l[k].stacks, 0));
            vstd::seq_lib::lemma_multiset_commutative(l[k].branches + r[k].branches,
                stacks_branches_from(l[k].stacks, 0));
            vstd::seq_lib::lemma_multiset_commutative(l[k].branches, r[k].branches);
            vstd::seq_lib::lemma_multiset_commutative(l[k].branches, stacks_branches_from(
                l[k].stacks,
                0,
            ));
            let m_lb = l[k].branches.to_multiset();
            let m_sb = stacks_branches_from(l[k].stacks, 0).to_multiset();
            assert(tree_branches(lu[k]).to_multiset() == m_lb.add(m_rk).add(m_sb));
            assert(m_lk == m_lb.add(m_sb));
            assert(run_branches_from(lu, k + 1).to_multiset() == m_lt.add(m_tt));
            assert(run_branches_from(lu, k).to_multiset() == m_lb.add(m_rk).add(m_sb).add(
                m_lt.add(m_tt),
            ));
            assert(run_branches_from(l, k).to_multiset().add(run_branches_from(
                r.take(m),
                k,
            ).to_multiset()) == m_lb.add(m_sb).add(m_lt).add(m_rk.add(m_tt)));
            assert(m_lb.add(m_rk).add(m_sb).add(m_lt.add(m_tt)) =~= m_lb.add(m_sb).add(
                m_lt,
            ).add(m_rk.add(m_tt)));
        } else {
            assert(lu[k] == l[k]);
            assert(run_branches_from(r.take(m), k) =~= Seq::<BranchS>::empty());
            assert(run_branches_from(r.take(m), k).to_multiset() =~= Multiset::<
                BranchS,
            >::empty());
            assert(run_branches_from(r.take(m), k + 1) =~= Seq::<BranchS>::empty());
            assert(run_branches_from(r.take(m), k + 1).to_multiset() =~= Multiset::<
                BranchS,
            >::empty());
            assert(run_branches_from(lu, k + 1).to_multiset() == m_lt.add(m_tt));
            assert(run_branches_from(lu, k).to_multiset() == m_lk.add(m_lt.add(m_tt)));
            assert(m_lk.add(m_lt.add(m_tt)) =~= m_lk.add(m_lt).add(m_tt));
        }
    }
}

/// Merging a linear stack loses nothing: the result holds both sides'
/// branches, under the same first commit.
proof fn lemma_merge_stack_conserves(l: Seq<NodeS>, r: Seq<NodeS>)
    requires
        run_linear(r),
    ensures
        match merge_stack_s(l, r) {
            None => true,
            Some(x) => {
                &&& l.len() > 0
                &&& x.len() == l.len()
                &&& x[0].commit.id == l[0].commit.id
                &&& run_branches_from(x, 0).to_multiset() =~= run_branches_from(
                    l,
                    0,
                ).to_multiset().add(run_branches_from(r, 0).to_multiset())
            },
        },
    decreases run_size(r), 0int, 0int,
{
    broadcast use vstd::multiset::group_multiset_axioms;
    broadcast use vstd::seq_lib::group_to_multiset_ensures;

    lemma_match_len(l, r);
    let m = match_len(l, r);
    if m > 0 {
        let lu = union_prefix(l, r, m);
        lemma_union_prefix_branches(l, r, m, 0);
        lemma_run_branches_split(r, m, 0);
        let m_l = run_branches_from(l, 0).to_multiset();
        let m_rp = run_branches_from(r.take(m), 0).to_multiset();
        let m_rs = run_branches_from(r, m).to_multiset();
        let m_r = run_branches_from(r, 0).to_multiset();
        assert(run_branches_from(lu, 0).to_multiset() == m_l.add(m_rp));
        assert(m_r == m_rp.add(m_rs));
        if m == r.len() {
            assert(r.take(m) =~= r);
            assert(run_branches_from(r, m) =~= Seq::<BranchS>::empty());
            assert(m_rs =~= Multiset::<BranchS>::empty());
            assert(m_l.add(m_rp) =~= m_l.add(m_r)) by {
                assert(m_r == m_rp.add(m_rs));
            }
        } else if m == l.len() {
            let last = lu[l.len() - 1];
            let nl = NodeS {
                commit: last.commit,
                branches: last.branches,
                stacks: last.stacks.push(r.skip(m)),
            };
            let x = lu.update(l.len() - 1, nl);
            lemma_stacks_branches_push(last.stacks, r.skip(m), 0);
            lemma_run_branches_shift(r, m, 0);
            assert(run_branches_from(r.skip(m), 0) == run_branches_from(r, m));
            vstd::seq_lib::lemma_multiset_commutative(nl.branches, stacks_branches_from(
                nl.stacks,
                0,
            ));
            vstd::seq_lib::lemma_multiset_commutative(last.branches, stacks_branches_from(
                last.stacks,
                0,
            ));
            assert(tree_branches(nl).to_multiset() =~= tree_branches(last).to_multiset().add(
                m_rs,
            )) by {
                let a = last.branches.to_multiset();
                let b = stacks_branches_from(last.stacks, 0).to_multiset();
                assert(stacks_branches_from(nl.stacks, 0).to_multiset() == b.add(m_rs));
                assert(tree_branches(nl).to_multiset() == a.add(b.add(m_rs)));
                assert(tree_branches(last).to_multiset() == a.add(b));
                assert(a.add(b.add(m_rs)) =~= a.add(b).add(m_rs));
            }
            let m_last = tree_branches(last).to_multiset();
            let m_x = run_branches_from(x, 0).to_multiset();
            if l.len() - 1 > 0 {
                lemma_run_branches_update(lu, nl, l.len() - 1, 0);
                assert(m_x.add(m_last) == run_branches_from(lu, 0).to_multiset().add(
                    tree_branches(nl).to_multiset(),
                ));
                assert forall|b: BranchS| m_x.count(b) == m_l.add(m_rp).add(m_rs).count(b) by {
                    assert(m_x.add(m_last).count(b) == run_branches_from(lu, 0).to_multiset()
                        .add(tree_branches(nl).to_multiset()).count(b));
                }
                assert(m_x =~= m_l.add(m_rp).add(m_rs));
            } else {
                assert(x =~= seq![nl]);
                assert(run_branches_from(x, 1) =~= Seq::<BranchS>::empty());
                assert(run_branches_from(lu, 1) =~= Seq::<BranchS>::empty());
                assert(run_branches_from(x, 0) == tree_branches(x[0]) + run_branches_from(x, 1));
                vstd::seq_lib::lemma_multiset_commutative(tree_branches(nl), run_branches_from(
                    x,
                    1,
                ));
                assert(run_branches_from(lu, 0) == tree_branches(lu[0]) + run_branches_from(
                    lu,
                    1,
                ));
                vstd::seq_lib::lemma_multiset_commutative(tree_branches(lu[0]),
                    run_branches_from(lu, 1));
                assert(x[0] == nl);
                assert(run_branches_from(x, 1).to_multiset() =~= Multiset::<BranchS>::empty());
                assert(run_branches_from(lu, 1).to_multiset() =~= Multiset::<BranchS>::empty());
                assert(m_x =~= tree_branches(nl).to_multiset());
                assert(m_last =~= run_branches_from(lu, 0).to_multiset()) by {
                    assert(lu[0] == last);
                }
                assert(m_x =~= m_l.add(m_rp).add(m_rs));
            }
            assert(m_l.add(m_rp).add(m_rs) =~= m_l.add(m_rp.add(m_rs)));
        } else {
            // the stacks diverge after the prefix
            let tail = seq![r.skip(m)];
            assert(tail[0] == r.skip(m));
            assert(run_linear(r.skip(m))) by {
                assert forall|k: int| 0 <= k < r.skip(m).len() implies (#[trigger] r.skip(
                    m,
                )[k]).stacks.len() == 0 by {
                    assert(r.skip(m)[k] == r[m + k]);
                }
            }
            lemma_run_size_prefix(r, 0, m);
            lemma_run_size_shift(r, m, 0);
            lemma_merge_try_conserves(lu[m - 1], r.skip(m), 0);
            let nn = merge_try_s(lu[m - 1], r.skip(m), 0);
            assert(merge_stacks_s(lu[m - 1], tail, 0) == merge_stacks_s(nn, tail, 1));
            assert(merge_stacks_s(nn, tail, 1) == nn);
            lemma_run_branches_shift(r, m, 0);
            assert(run_branches_from(r.skip(m), 0) == run_branches_from(r, m));
            assert(tree_branches(nn).to_multiset() == tree_branches(lu[m - 1]).to_multiset()
                .add(m_rs));
            let x = lu.update(m - 1, nn);
            let m_x = run_branches_from(x, 0).to_multiset();
            let m_host = tree_branches(lu[m - 1]).to_multiset();
            if m - 1 > 0 {
                lemma_run_branches_update(lu, nn, m - 1, 0);
                assert(m_x.add(m_host) == run_branches_from(lu, 0).to_multiset().add(
                    tree_branches(nn).to_multiset(),
                ));
                assert forall|b: BranchS| m_x.count(b) == m_l.add(m_rp).add(m_rs).count(b) by {
                    assert(m_x.add(m_host).count(b) == run_branches_from(lu, 0).to_multiset()
                        .add(tree_branches(nn).to_multiset()).count(b));
                }
                assert(m_x =~= m_l.add(m_rp).add(m_rs));
            } else {
                assert(x[0] == nn);
                lemma_run_branches_congruent(x, lu, 1);
                assert(run_branches_from(x, 0) == tree_branches(x[0]) + run_branches_from(x, 1));
                vstd::seq_lib::lemma_multiset_commutative(tree_branches(nn), run_branches_from(
                    x,
                    1,
                ));
                assert(run_branches_from(lu, 0) == tree_branches(lu[0]) + run_branches_from(
                    lu,
                    1,
                ));
                vstd::seq_lib::lemma_multiset_commutative(tree_branches(lu[0]),
                    run_branches_from(lu, 1));
                let m_t = run_branches_from(lu, 1).to_multiset();
                assert(m_x == tree_branches(nn).to_multiset().add(m_t));
                assert(run_branches_from(lu, 0).to_multiset() == m_host.add(m_t));
                assert(m_host.add(m_rs).add(m_t) =~= m_host.add(m_t).add(m_rs));
                assert(m_x =~= m_l.add(m_rp).add(m_rs));
            }
            assert(m_l.add(m_rp).add(m_rs) =~= m_l.add(m_rp.add(m_rs)));
        }
    }
}

/// Trying a linear stack against each of a node's stacks loses nothing,
/// whether it merges or lands as a new sibling.
proof fn lemma_merge_try_conserves(l: NodeS, rs: Seq<NodeS>, i: int)
    requires
        run_linear(rs),
        0 <= i,
    ensures
        merge_try_s(l, rs, i).commit == l.commit,
        merge_try_s(l, rs, i).branches == l.branches,
        tree_branches(merge_try_s(l, rs, i)).to_multiset() =~= tree_branches(l).to_multiset()
            .add(run_branches_from(rs, 0).to_multiset()),
    decreases run_size(rs) + 1, 1int, l.stacks.len() - i,
{
    broadcast use vstd::multiset::group_multiset_axioms;
    broadcast use vstd::seq_lib::group_to_multiset_ensures;

    let x = merge_try_s(l, rs, i);
    let m_b = l.branches.to_multiset();
    let m_s = stacks_branches_from(l.stacks, 0).to_multiset();
    let m_r = run_branches_from(rs, 0).to_multiset();
    vstd::seq_lib::lemma_multiset_commutative(l.branches, stacks_branches_from(l.stacks, 0));
    assert(tree_branches(l).to_multiset() == m_b.add(m_s));
    if i >= l.stacks.len() {
        lemma_stacks_branches_push(l.stacks, rs, 0);
        vstd::seq_lib::lemma_multiset_commutative(l.branches, stacks_branches_from(
            l.stacks.push(rs),
            0,
        ));
        assert(stacks_branches_from(l.stacks.push(rs), 0).to_multiset() == m_s.add(m_r));
        assert(tree_branches(x).to_multiset() == m_b.add(m_s.add(m_r)));
        assert(m_b.add(m_s.add(m_r)) =~= m_b.add(m_s).add(m_r));
    } else {
        lemma_merge_stack_conserves(l.stacks[i], rs);
        match merge_stack_s(l.stacks[i], rs) {
            Some(ns) => {
                lemma_stacks_branches_update(l.stacks, ns, i, 0);
                let m_si = run_branches_from(l.stacks[i], 0).to_multiset();
                let m_u = stacks_branches_from(l.stacks.update(i, ns), 0).to_multiset();
                assert(run_branches_from(ns, 0).to_multiset() == m_si.add(m_r));
                assert(m_u.add(m_si) == m_s.add(m_si.add(m_r)));
                assert forall|b: BranchS| m_u.count(b) == m_s.add(m_r).count(b) by {
                    assert(m_u.add(m_si).count(b) == m_s.add(m_si.add(m_r)).count(b));
                }
                assert(m_u =~= m_s.add(m_r));
                vstd::seq_lib::lemma_multiset_commutative(l.branches, stacks_branches_from(
                    l.stacks.update(i, ns),
                    0,
                ));
                assert(tree_branches(x).to_multiset() == m_b.add(m_u));
                assert(m_b.add(m_s.add(m_r)) =~= m_b.add(m_s).add(m_r));
            },
            None => {
                lemma_merge_try_conserves(l, rs, i + 1);
            },
        }
    }
}

/// Merging a populate result (no stack, or one linear stack) into a tree
/// keeps every branch of both.
proof fn lemma_merge_s_conserves(l: NodeS, r: NodeS)
    requires
        r.stacks.len() == 0 || (r.stacks.len() == 1 && run_linear(r.stacks[0])),
    ensures
        merge_s(l, r).commit == l.commit,
        tree_branches(merge_s(l, r)).to_multiset() =~= tree_branches(l).to_multiset().add(
            tree_branches(r).to_multiset(),
        ),
{
    broadcast use vstd::multiset::group_multiset_axioms;
    broadcast use vstd::seq_lib::group_to_multiset_ensures;

    let l1 = NodeS { commit: l.commit, branches: l.branches + r.branches, stacks: l.stacks };
    vstd::seq_lib::lemma_multiset_commutative(l.branches, r.branches);
    vstd::seq_lib::lemma_multiset_commutative(l.branches + r.branches, stacks_branches_from(
        l.stacks,
        0,
    ));
    vstd::seq_lib::lemma_multiset_commutative(l.branches, stacks_branches_from(l.stacks, 0));
    vstd::seq_lib::lemma_multiset_commutative(r.branches, stacks_branches_from(r.stacks, 0));
    if r.stacks.len() == 0 {
        assert(merge_s(l, r) == l1);
        assert(stacks_branches_from(r.stacks, 0) =~= Seq::<BranchS>::empty());
    } else {
        let rs = r.stacks[0];
        lemma_merge_try_conserves(l1, rs, 0);
        let nn = merge_try_s(l1, rs, 0);
        assert(merge_stacks_s(l1, r.stacks, 0) == merge_stacks_s(nn, r.stacks, 1));
        assert(merge_stacks_s(nn, r.stacks, 1) == nn);
        assert(stacks_branches_from(r.stacks, 0) =~= run_branches_from(rs, 0)
            + stacks_branches_from(r.stacks, 1));
        assert(stacks_branches_from(r.stacks, 1) =~= Seq::<BranchS>::empty());
        vstd::seq_lib::lemma_multiset_commutative(run_branches_from(rs, 0),
            stacks_branches_from(r.stacks, 1));
        vstd::seq_lib::lemma_multiset_commutative(l1.branches, stacks_branches_from(
            l1.stacks,
            0,
        ));
    }
}

/// Well-formed groups: never empty, branches match their group, distinct
/// tips.
pub open spec fn sgroups_wf(s: Seq<GroupS>) -> bool {
    &&& forall|i: int| 0 <= i < s.len() ==> (#[trigger] s[i]).branches.len() > 0
    &&& forall|i: int, j: int|
        0 <= i < j < s.len() ==> (#[trigger] s[i]).id != (#[trigger] s[j]).id
}

/// Removing a group keeps the rest well formed.
proof fn lemma_sgroups_remove_wf(s: Seq<GroupS>, id: usize)
    requires
        sgroups_wf(s),
    ensures
        sgroups_wf(sgroups_remove(s, id)),
{
    lemma_sgroups_idx(s, id);
    if sgroups_idx(s, id) >= 0 {
        let i = sgroups_idx(s, id);
        let t = s.remove(i);
        assert forall|a: int, b: int| 0 <= a < b < t.len() implies (#[trigger] t[a]).id
            != (#[trigger] t[b]).id by {
            let a2 = if a < i { a } else { a + 1 };
            let b2 = if b < i { b } else { b + 1 };
            assert(t[a] == s[a2]);
            assert(t[b] == s[b2]);
        }
        assert forall|a: int| 0 <= a < t.len() implies (#[trigger] t[a]).branches.len() > 0 by {
            let a2 = if a < i { a } else { a + 1 };
            assert(t[a] == s[a2]);
        }
    }
}

/// After removing `id`, a tip is present exactly when it was present and
/// is not `id`.
proof fn lemma_sgroups_remove_idx(s: Seq<GroupS>, id: usize, id2: usize)
    requires
        sgroups_wf(s),
    ensures
        sgroups_idx(sgroups_remove(s, id), id2) >= 0 <==> (sgroups_idx(s, id2) >= 0 && id2 != id),
{
    lemma_sgroups_idx(s, id);
    lemma_sgroups_idx(s, id2);
    let t = sgroups_remove(s, id);
    lemma_sgroups_idx(t, id2);
    if sgroups_idx(s, id) >= 0 {
        let i = sgroups_idx(s, id);
        if sgroups_idx(t, id2) >= 0 {
            let k = sgroups_idx(t, id2);
            let k2 = if k < i { k } else { k + 1 };
            assert(t[k] == s[k2]);
            crate::git::lemma_sgroups_idx_witness(s, id2, k2);
            if id2 == id {
                assert(s[k2].id == s[i].id);
            }
        }
        if sgroups_idx(s, id2) >= 0 && id2 != id {
            let k = sgroups_idx(s, id2);
            assert(k != i);
            let kt = if k < i { k } else { k - 1 };
            assert(t[kt] == s[k]);
            crate::git::lemma_sgroups_idx_witness(t, id2, kt);
        }
    }
}

/// Taking a group out moves exactly its branches out of the index.
proof fn lemma_flat_remove_at(s: Seq<GroupS>, i: int)
    requires
        0 <= i < s.len(),
    ensures
        sgroups_flat(s.remove(i)).to_multiset().add(s[i].branches.to_multiset())
            =~= sgroups_flat(s).to_multiset(),
    decreases i,
{
    broadcast use vstd::multiset::group_multiset_axioms;
    broadcast use vstd::seq_lib::group_to_multiset_ensures;

    if i == 0 {
        assert(s.remove(0) =~= s.drop_first());
        vstd::seq_lib::lemma_multiset_commutative(s[0].branches, sgroups_flat(s.drop_first()));
    } else {
        let t = s.drop_first();
        assert(s.remove(i).drop_first() =~= t.remove(i - 1));
        assert(s.remove(i)[0] == s[0]);
        assert(t[i - 1] == s[i]);
        lemma_flat_remove_at(t, i - 1);
        vstd::seq_lib::lemma_multiset_commutative(s[0].branches, sgroups_flat(t));
        vstd::seq_lib::lemma_multiset_commutative(s.remove(i)[0].branches, sgroups_flat(
            s.remove(i).drop_first(),
        ));
    }
}

/// `sgroups_remove` and `sgroups_get` split the index's branches.
proof fn lemma_flat_remove_get(s: Seq<GroupS>, id: usize)
    ensures
        sgroups_flat(sgroups_remove(s, id)).to_multiset().add(sgroups_get(s, id).to_multiset())
            =~= sgroups_flat(s).to_multiset(),
{
    broadcast use vstd::multiset::group_multiset_axioms;
    broadcast use vstd::seq_lib::group_to_multiset_ensures;

    lemma_sgroups_idx(s, id);
    if sgroups_idx(s, id) >= 0 {
        lemma_flat_remove_at(s, sgroups_idx(s, id));
    } else {
        assert(sgroups_get(s, id).to_multiset() =~= Seq::<BranchS>::empty().to_multiset());
        vstd::seq_lib::lemma_multiset_commutative(Seq::<BranchS>::empty(), Seq::<
            BranchS,
        >::empty());
        assert(Seq::<BranchS>::empty().to_multiset() =~= Multiset::<BranchS>::empty());
    }
}

/// What `build_run` makes of the ids it walks: a linear run, one node per
/// id carrying that id's branches, every consumed group gone, and no
/// branch lost.
proof fn lemma_build_run_facts(r: Seq<CommitRecordS>, ids: Seq<usize>, bs: Seq<GroupS>, i: int)
    requires
        sgroups_wf(bs),
        0 <= i <= ids.len(),
    ensures
        ({
            let (run, bsf) = build_run(r, ids, bs, i);
            &&& run.len() == ids.len() - i
            &&& run_linear(run)
            &&& forall|k: int| 0 <= k < run.len() ==> (#[trigger] run[k]).commit
                == commit_view_at(r, ids[i + k])
            &&& run_branches_from(run, 0).to_multiset().add(sgroups_flat(bsf).to_multiset())
                =~= sgroups_flat(bs).to_multiset()
            &&& sgroups_wf(bsf)
            &&& forall|x: usize| sgroups_idx(bsf, x) >= 0 ==> sgroups_idx(bs, x) >= 0
            &&& forall|k: int| i <= k < ids.len() ==> sgroups_idx(bsf, #[trigger] ids[k]) == -1
        }),
    decreases ids.len() - i,
{
    broadcast use vstd::multiset::group_multiset_axioms;
    broadcast use vstd::seq_lib::group_to_multiset_ensures;

    let (run, bsf) = build_run(r, ids, bs, i);
    if i < ids.len() {
        let id = ids[i];
        let n = fresh_node(commit_view_at(r, id), sgroups_get(bs, id));
        let bs1 = sgroups_remove(bs, id);
        lemma_sgroups_remove_wf(bs, id);
        lemma_build_run_facts(r, ids, bs1, i + 1);
        let (rest, bsf2) = build_run(r, ids, bs1, i + 1);
        assert(bsf2 == bsf);
        assert(run =~= seq![n] + rest);
        assert(run[0] == n);
        assert forall|k: int| 0 <= k < run.len() implies (#[trigger] run[k]).commit
            == commit_view_at(r, ids[i + k]) by {
            if k > 0 {
                assert(run[k] == rest[k - 1]);
            }
        }
        assert(run_linear(run)) by {
            assert forall|k: int| 0 <= k < run.len() implies (#[trigger] run[k]).stacks.len()
                == 0 by {
                if k > 0 {
                    assert(run[k] == rest[k - 1]);
                }
            }
        }
        // branch conservation
        lemma_flat_remove_get(bs, id);
        assert(run_branches_from(run, 0) == tree_branches(run[0]) + run_branches_from(run, 1));
        lemma_run_branches_congruent_offset(run, rest);
        vstd::seq_lib::lemma_multiset_commutative(tree_branches(n), run_branches_from(run, 1));
        assert(tree_branches(n) =~= n.branches);
        // absence of consumed ids
        assert forall|k: int| i <= k < ids.len() implies sgroups_idx(bsf, #[trigger] ids[k])
            == -1 by {
            if k == i {
                lemma_sgroups_remove_idx(bs, id, id);
                lemma_sgroups_idx(bsf, id);
                if sgroups_idx(bsf, id) >= 0 {
                    assert(sgroups_idx(bs1, id) >= 0);
                }
            }
        }
        assert forall|x: usize| sgroups_idx(bsf, x) >= 0 implies sgroups_idx(bs, x) >= 0 by {
            if sgroups_idx(bsf, x) >= 0 {
                lemma_sgroups_remove_idx(bs, id, x);
            }
        }
    } else {
        assert(run_branches_from(run, 0) =~= Seq::<BranchS>::empty());
    }
}

/// A run's branches agree with the run shifted by one.
proof fn lemma_run_branches_congruent_offset(run: Seq<NodeS>, rest: Seq<NodeS>)
    requires
        run.len() == rest.len() + 1,
        forall|k: int| 0 <= k < rest.len() ==> run[k + 1] == rest[k],
    ensures
        run_branches_from(run, 1) == run_branches_from(rest, 0),
{
    lemma_run_branches_shift_pair(run, rest, 0);
}

/// The induction behind `lemma_run_branches_congruent_offset`.
proof fn lemma_run_branches_shift_pair(run: Seq<NodeS>, rest: Seq<NodeS>, k: int)
    requires
        run.len() == rest.len() + 1,
        forall|j: int| 0 <= j < rest.len() ==> run[j + 1] == rest[j],
        0 <= k,
    ensures
        run_branches_from(run, k + 1) == run_branches_from(rest, k),
    decreases rest.len() - k,
{
    if k < rest.len() {
        lemma_run_branches_shift_pair(run, rest, k + 1);
    }
}

/// What `populate_s` builds when the walk is possible: a node for the
/// base whose single stack (if any) is the linear run up to the head,
/// with the head's node last; the consumed groups' branches all land in
/// the tree and nothing else moves.
proof fn lemma_populate_facts(r: Seq<CommitRecordS>, base: usize, head: usize, bs: Seq<GroupS>)
    requires
        sgroups_wf(bs),
        populate_ok(r, base, head),
    ensures
        ({
            let (root, bsf) = populate_s(r, base, head, bs);
            &&& root.commit.id == base
            &&& tree_branches(root).to_multiset().add(sgroups_flat(bsf).to_multiset())
                =~= sgroups_flat(bs).to_multiset()
            &&& sgroups_wf(bsf)
            &&& forall|x: usize| sgroups_idx(bsf, x) >= 0 ==> sgroups_idx(bs, x) >= 0
            &&& sgroups_idx(bsf, base) == -1
            &&& sgroups_idx(bsf, head) == -1
            &&& root.stacks.len() <= 1
            &&& (head == base ==> root.stacks.len() == 0)
            &&& (head != base ==> root.stacks.len() == 1 && run_linear(root.stacks[0])
                && root.stacks[0].len() > 0 && root.stacks[0].last().commit.id == head)
        }),
{
    broadcast use vstd::multiset::group_multiset_axioms;
    broadcast use vstd::seq_lib::group_to_multiset_ensures;

    let root0 = fresh_node(commit_view_at(r, base), sgroups_get(bs, base));
    let bs1 = sgroups_remove(bs, base);
    let chain = anc_chain(r, head);
    let ids = take_until(chain, base).reverse();
    lemma_sgroups_remove_wf(bs, base);
    lemma_build_run_facts(r, ids, bs1, 0);
    let (run, bs2) = build_run(r, ids, bs1, 0);
    let (root, bsf) = populate_s(r, base, head, bs);
    assert(bsf == bs2);
    lemma_flat_remove_get(bs, base);
    // the head is the newest commit of the walk
    lemma_first_common_in(anc_chain(r, base), chain);
    crate::git::lemma_anc_chain_shape(r, head);
    assert(chain.contains(base));
    assert(head < r.len()) by {
        let w = choose|w: int| 0 <= w < chain.len() && chain[w] == base;
    }
    assert(chain[0] == head);
    if head == base {
        assert(take_until(chain, base) =~= Seq::<usize>::empty());
        assert(ids.len() == 0);
        assert(root == root0);
        assert(tree_branches(root) =~= root0.branches);
        assert(run_branches_from(run, 0) =~= Seq::<BranchS>::empty());
        lemma_sgroups_remove_idx(bs, base, base);
        lemma_sgroups_idx(bsf, base);
        assert forall|x: usize| sgroups_idx(bsf, x) >= 0 implies sgroups_idx(bs, x) >= 0 by {
            if sgroups_idx(bsf, x) >= 0 {
                lemma_sgroups_remove_idx(bs, base, x);
            }
        }
    } else {
        lemma_take_until_head(chain, base);
        assert(take_until(chain, base)[0] == head);
        assert(ids.len() > 0);
        assert(ids.last() == head);
        assert(root.stacks =~= seq![run]);
        assert(root.stacks[0].last().commit == commit_view_at(r, ids[0 + (run.len() - 1)]));
        // conservation assembles from the base group and the run
        assert(tree_branches(root) == root.branches + stacks_branches_from(root.stacks, 0));
        assert(stacks_branches_from(root.stacks, 0) =~= run_branches_from(run, 0)
            + stacks_branches_from(root.stacks, 1));
        assert(stacks_branches_from(root.stacks, 1) =~= Seq::<BranchS>::empty());
        vstd::seq_lib::lemma_multiset_commutative(run_branches_from(run, 0),
            stacks_branches_from(root.stacks, 1));
        vstd::seq_lib::lemma_multiset_commutative(root.branches, stacks_branches_from(
            root.stacks,
            0,
        ));
        // absence of base and head
        lemma_sgroups_remove_idx(bs, base, base);
        assert forall|x: usize| sgroups_idx(bsf, x) >= 0 implies sgroups_idx(bs, x) >= 0 by {
            if sgroups_idx(bsf, x) >= 0 {
                lemma_sgroups_remove_idx(bs, base, x);
            }
        }
        assert(sgroups_idx(bsf, base) == -1) by {
            lemma_sgroups_idx(bsf, base);
            if sgroups_idx(bsf, base) >= 0 {
                assert(sgroups_idx(bs1, base) >= 0);
                lemma_sgroups_remove_idx(bs, base, base);
            }
        }
        assert(sgroups_idx(bsf, head) == -1) by {
            assert(ids[ids.len() - 1] == head);
        }
    }
}

/// A walk that does not start at its base begins with the head.
proof fn lemma_take_until_head(chain: Seq<usize>, base: usize)
    requires
        chain.len() > 0,
        chain[0] != base,
    ensures
        take_until(chain, base).len() > 0,
        take_until(chain, base)[0] == chain[0],
{
}

/// Pushing into a linear run: the first node holding the commit absorbs
/// the pushed tree whole, since run nodes have no stacks of their own.
proof fn lemma_push_run_into(run: Seq<NodeS>, t: NodeS, j: int)
    requires
        run_linear(run),
        stacks_distinct_first(t.stacks),
        0 <= j,
    ensures
        (exists|k: int| j <= k < run.len() && (#[trigger] run[k]).commit.id == t.commit.id)
            ==> (push_run_s(run, t, j) matches Some(x) && x.len() == run.len()
            && run_branches_from(x, 0).to_multiset() =~= run_branches_from(run, 0).to_multiset()
            .add(tree_branches(t).to_multiset())),
    decreases run.len() - j,
{
    broadcast use vstd::multiset::group_multiset_axioms;
    broadcast use vstd::seq_lib::group_to_multiset_ensures;

    if j < run.len() && exists|k: int|
        j <= k < run.len() && (#[trigger] run[k]).commit.id == t.commit.id {
        if run[j].commit.id == t.commit.id {
            assert(run[j].stacks.len() == 0);
            lemma_merge_into_empty(run[j], t);
            let nn = merge_s(run[j], t);
            assert(push_s(run[j], t) == Some(nn));
            let x = run.update(j, nn);
            assert(push_run_s(run, t, j) == Some(x));
            assert(tree_branches(nn).to_multiset() =~= tree_branches(run[j]).to_multiset().add(
                tree_branches(t).to_multiset(),
            )) by {
                let a = run[j].branches.to_multiset();
                let b = t.branches.to_multiset();
                let c = stacks_branches_from(t.stacks, 0).to_multiset();
                vstd::seq_lib::lemma_multiset_commutative(run[j].branches + t.branches,
                    stacks_branches_from(t.stacks, 0));
                vstd::seq_lib::lemma_multiset_commutative(run[j].branches, t.branches);
                vstd::seq_lib::lemma_multiset_commutative(run[j].branches,
                    stacks_branches_from(run[j].stacks, 0));
                vstd::seq_lib::lemma_multiset_commutative(t.branches, stacks_branches_from(
                    t.stacks,
                    0,
                ));
                assert(stacks_branches_from(run[j].stacks, 0) =~= Seq::<BranchS>::empty());
                assert(stacks_branches_from(run[j].stacks, 0).to_multiset() =~= Multiset::<
                    BranchS,
                >::empty());
                assert(tree_branches(nn).to_multiset() == a.add(b).add(c));
                assert(tree_branches(run[j]).to_multiset() == a.add(
                    stacks_branches_from(run[j].stacks, 0).to_multiset(),
                ));
                assert(tree_branches(t).to_multiset() == b.add(c));
                assert(a.add(b).add(c) =~= a.add(b.add(c)));
                assert(tree_branches(run[j]).to_multiset() =~= a);
            }
            if j > 0 {
                lemma_run_branches_update_from_zero(run, nn, j);
            } else {
                assert(run_branches_from(x, 0) == tree_branches(x[0]) + run_branches_from(x, 1));
                assert(run_branches_from(run, 0) == tree_branches(run[0]) + run_branches_from(
                    run,
                    1,
                ));
                lemma_run_branches_congruent(x, run, 1);
                vstd::seq_lib::lemma_multiset_commutative(tree_branches(nn), run_branches_from(
                    x,
                    1,
                ));
                vstd::seq_lib::lemma_multiset_commutative(tree_branches(run[0]),
                    run_branches_from(run, 1));
                let m_t = run_branches_from(run, 1).to_multiset();
                let m_old = tree_branches(run[0]).to_multiset();
                let m_add = tree_branches(t).to_multiset();
                assert(run_branches_from(x, 0).to_multiset() == m_old.add(m_add).add(m_t));
                assert(m_old.add(m_add).add(m_t) =~= m_old.add(m_t).add(m_add));
            }
        } else {
            assert(run[j].stacks.len() == 0);
            assert(push_stacks_s(run[j].stacks, t, 0) is None);
            assert(push_s(run[j], t) is None);
            assert(exists|k: int|
                j + 1 <= k < run.len() && (#[trigger] run[k]).commit.id == t.commit.id) by {
                let k = choose|k: int|
                    j <= k < run.len() && (#[trigger] run[k]).commit.id == t.commit.id;
                assert(run[k].commit.id == t.commit.id && k >= j + 1);
            }
            lemma_push_run_into(run, t, j + 1);
        }
    }
}

/// Updating inside a run exchanges that node's branches, seen from the
/// front.
proof fn lemma_run_branches_update_from_zero(run: Seq<NodeS>, n: NodeS, j: int)
    requires
        0 <= j < run.len(),
    ensures
        run_branches_from(run.update(j, n), 0).to_multiset() =~= run_branches_from(
            run,
            0,
        ).to_multiset().add(tree_branches(n).to_multiset()).sub(
            tree_branches(run[j]).to_multiset(),
        ),
        tree_branches(run[j]).to_multiset().subset_of(run_branches_from(run, 0).to_multiset()
            .add(tree_branches(n).to_multiset())),
        run_branches_from(run.update(j, n), 0).to_multiset().add(
            tree_branches(run[j]).to_multiset(),
        ) =~= run_branches_from(run, 0).to_multiset().add(tree_branches(n).to_multiset()),
{
    broadcast use vstd::multiset::group_multiset_axioms;
    broadcast use vstd::seq_lib::group_to_multiset_ensures;

    lemma_run_branches_update(run, n, j, 0);
    let m_x = run_branches_from(run.update(j, n), 0).to_multiset();
    let m_old = tree_branches(run[j]).to_multiset();
    let m_n = tree_branches(n).to_multiset();
    let m_r = run_branches_from(run, 0).to_multiset();
    assert(m_x.add(m_old) == m_r.add(m_n));
    assert forall|b: BranchS| m_old.count(b) <= m_r.add(m_n).count(b) by {
        assert(m_x.add(m_old).count(b) == m_r.add(m_n).count(b));
    }
    assert forall|b: BranchS| m_x.count(b) == m_r.add(m_n).sub(m_old).count(b) by {
        assert(m_x.add(m_old).count(b) == m_r.add(m_n).count(b));
    }
    assert(m_x =~= m_r.add(m_n).sub(m_old));
}

/// Pushing a tree below the tip of a freshly built walk finds the tip's
/// node and keeps every branch of both sides.
proof fn lemma_push_populate(root: NodeS, t: NodeS)
    requires
        root.commit.id != t.commit.id,
        root.stacks.len() == 1,
        run_linear(root.stacks[0]),
        root.stacks[0].len() > 0,
        root.stacks[0].last().commit.id == t.commit.id,
        stacks_distinct_first(t.stacks),
    ensures
        push_s(root, t) matches Some(x) && x.commit.id == root.commit.id && x.stacks.len() == 1
            && x.stacks[0].len() > 0 && tree_branches(x).to_multiset() =~= tree_branches(
            root,
        ).to_multiset().add(tree_branches(t).to_multiset()),
{
    broadcast use vstd::multiset::group_multiset_axioms;
    broadcast use vstd::seq_lib::group_to_multiset_ensures;

    let run = root.stacks[0];
    assert(run[run.len() - 1].commit.id == t.commit.id);
    lemma_push_run_into(run, t, 0);
    let x0 = match push_run_s(run, t, 0) {
        Some(x0) => x0,
        None => run,
    };
    assert(push_run_s(run, t, 0) == Some(x0));
    assert(push_stacks_s(root.stacks, t, 0) == Some(root.stacks.update(0, x0)));
    let nstacks = root.stacks.update(0, x0);
    let x = NodeS { commit: root.commit, branches: root.branches, stacks: nstacks };
    assert(push_s(root, t) == Some(x));
    assert(stacks_branches_from(nstacks, 0) == run_branches_from(nstacks[0], 0)
        + stacks_branches_from(nstacks, 1));
    assert(stacks_branches_from(nstacks, 1) =~= Seq::<BranchS>::empty());
    assert(stacks_branches_from(root.stacks, 0) == run_branches_from(run, 0)
        + stacks_branches_from(root.stacks, 1));
    assert(stacks_branches_from(root.stacks, 1) =~= Seq::<BranchS>::empty());
    vstd::seq_lib::lemma_multiset_commutative(run_branches_from(nstacks[0], 0),
        stacks_branches_from(nstacks, 1));
    vstd::seq_lib::lemma_multiset_commutative(run_branches_from(run, 0), stacks_branches_from(
        root.stacks,
        1,
    ));
    vstd::seq_lib::lemma_multiset_commutative(root.branches, stacks_branches_from(nstacks, 0));
    vstd::seq_lib::lemma_multiset_commutative(root.branches, stacks_branches_from(
        root.stacks,
        0,
    ));
    let m_b = root.branches.to_multiset();
    let m_run = run_branches_from(run, 0).to_multiset();
    let m_t = tree_branches(t).to_multiset();
    let m_e = Multiset::<BranchS>::empty();
    assert(stacks_branches_from(nstacks, 1).to_multiset() =~= m_e);
    assert(stacks_branches_from(root.stacks, 1).to_multiset() =~= m_e);
    assert(run_branches_from(nstacks[0], 0).to_multiset() == m_run.add(m_t));
    assert(tree_branches(x).to_multiset() == m_b.add(m_run.add(m_t).add(m_e)));
    assert(tree_branches(root).to_multiset() == m_b.add(m_run.add(m_e)));
    assert(m_b.add(m_run.add(m_t).add(m_e)) =~= m_b.add(m_run.add(m_e)).add(m_t));
}

/// Folding one linear stack in keeps sibling stacks diverging.
proof fn lemma_merge_try_top(l: NodeS, rs: Seq<NodeS>, i: int)
    requires
        stacks_distinct_first(l.stacks),
        run_linear(rs),
        rs.len() > 0,
        0 <= i,
        forall|k: int| 0 <= k < i && k < l.stacks.len() ==> (#[trigger] l.stacks[k])[0].commit.id
            != rs[0].commit.id,
    ensures
        stacks_distinct_first(merge_try_s(l, rs, i).stacks),
    decreases l.stacks.len() - i,
{
    let x = merge_try_s(l, rs, i);
    if i >= l.stacks.len() {
        assert(x.stacks == l.stacks.push(rs));
        assert forall|a: int, b: int|
            0 <= a < b < x.stacks.len() implies (#[trigger] x.stacks[a])[0].commit.id
            != (#[trigger] x.stacks[b])[0].commit.id by {
            if b < l.stacks.len() {
                assert(x.stacks[a] == l.stacks[a]);
                assert(x.stacks[b] == l.stacks[b]);
            } else {
                assert(x.stacks[b] == rs);
                assert(x.stacks[a] == l.stacks[a]);
            }
        }
    } else {
        lemma_merge_stack_conserves(l.stacks[i], rs);
        match merge_stack_s(l.stacks[i], rs) {
            Some(ns) => {
                assert(x.stacks == l.stacks.update(i, ns));
                assert forall|a: int, b: int|
                    0 <= a < b < x.stacks.len() implies (#[trigger] x.stacks[a])[0].commit.id
                    != (#[trigger] x.stacks[b])[0].commit.id by {
                    assert(l.stacks[a][0].commit.id != l.stacks[b][0].commit.id);
                }
            },
            None => {
                lemma_match_len(l.stacks[i], rs);
                assert(l.stacks[i].len() > 0);
                assert(l.stacks[i][0].commit.id != rs[0].commit.id);
                lemma_merge_try_top(l, rs, i + 1);
            },
        }
    }
}

/// Merging a populate result into a tree keeps sibling stacks diverging.
proof fn lemma_merge_s_top(l: NodeS, r: NodeS)
    requires
        stacks_distinct_first(l.stacks),
        r.stacks.len() == 0 || (r.stacks.len() == 1 && run_linear(r.stacks[0])
            && r.stacks[0].len() > 0),
    ensures
        stacks_distinct_first(merge_s(l, r).stacks),
{
    let l1 = NodeS { commit: l.commit, branches: l.branches + r.branches, stacks: l.stacks };
    if r.stacks.len() == 0 {
        assert(merge_s(l, r) == l1);
    } else {
        lemma_merge_try_top(l1, r.stacks[0], 0);
        let nn = merge_try_s(l1, r.stacks[0], 0);
        assert(merge_stacks_s(l1, r.stacks, 0) == merge_stacks_s(nn, r.stacks, 1));
        assert(merge_stacks_s(nn, r.stacks, 1) == nn);
    }
}

/// Inserting one tip loses no branch: whatever leaves the index lands in
/// the tree, the tip's group is consumed, and the tree stays well shaped.
proof fn lemma_insert_conserves(r: Seq<CommitRecordS>, t: NodeS, cid: usize, bs: Seq<GroupS>)
    requires
        sgroups_wf(bs),
        stacks_distinct_first(t.stacks),
    ensures
        match insert_s(r, t, cid, bs) {
            Err(_) => true,
            Ok((t2, bs2)) => {
                &&& tree_branches(t2).to_multiset().add(sgroups_flat(bs2).to_multiset())
                    =~= tree_branches(t).to_multiset().add(sgroups_flat(bs).to_multiset())
                &&& sgroups_wf(bs2)
                &&& forall|x: usize| sgroups_idx(bs2, x) >= 0 ==> sgroups_idx(bs, x) >= 0
                &&& sgroups_idx(bs2, cid) == -1
                &&& stacks_distinct_first(t2.stacks)
            },
        },
{
    broadcast use vstd::multiset::group_multiset_axioms;
    broadcast use vstd::seq_lib::group_to_multiset_ensures;

    match merge_base_spec(r, t.commit.id, cid) {
        None => {},
        Some(mb) => {
            lemma_first_common_in(anc_chain(r, t.commit.id), anc_chain(r, cid));
            let (t1, bs1) = if mb != t.commit.id {
                let (p, bsp) = populate_s(r, mb, t.commit.id, bs);
                (push_or_keep(p, t), bsp)
            } else {
                (t, bs)
            };
            if mb != t.commit.id {
                crate::git::lemma_merge_base_of_ancestor(r, mb, t.commit.id);
                lemma_populate_facts(r, mb, t.commit.id, bs);
                let (p, bsp) = populate_s(r, mb, t.commit.id, bs);
                lemma_push_populate(p, t);
                assert(t1 == push_or_keep(p, t));
                assert(tree_branches(t1).to_multiset() =~= tree_branches(p).to_multiset().add(
                    tree_branches(t).to_multiset(),
                ));
                assert(stacks_distinct_first(t1.stacks)) by {
                    assert(t1.stacks.len() == 1 && t1.stacks[0].len() > 0);
                }
            }
            crate::git::lemma_merge_base_of_ancestor(r, mb, cid);
            lemma_populate_facts(r, mb, cid, bs1);
            let (other, bs2) = populate_s(r, mb, cid, bs1);
            lemma_merge_s_conserves(t1, other);
            lemma_merge_s_top(t1, other);
            let t2 = merge_s(t1, other);
            // assemble the books: each stage moves branches, none vanish
            let a = tree_branches(t).to_multiset();
            let b = tree_branches(t1).to_multiset();
            let c = tree_branches(other).to_multiset();
            let fa = sgroups_flat(bs).to_multiset();
            let f1 = sgroups_flat(bs1).to_multiset();
            let f2 = sgroups_flat(bs2).to_multiset();
            assert(c.add(f2) =~= f1);
            assert(tree_branches(t2).to_multiset() == b.add(c));
            if mb != t.commit.id {
                let (p, bsp) = populate_s(r, mb, t.commit.id, bs);
                let pp = tree_branches(p).to_multiset();
                assert(pp.add(f1) =~= fa);
                assert(b =~= pp.add(a));
                assert forall|x: BranchS| b.add(c).add(f2).count(x) == a.add(fa).count(
                    x,
                ) by {
                    assert(c.add(f2).count(x) == f1.count(x));
                    assert(pp.add(f1).count(x) == fa.count(x));
                    assert(b.count(x) == pp.add(a).count(x));
                }
                assert(b.add(c).add(f2) =~= a.add(fa));
            } else {
                assert(b == a);
                assert forall|x: BranchS| b.add(c).add(f2).count(x) == a.add(fa).count(
                    x,
                ) by {
                    assert(c.add(f2).count(x) == f1.count(x));
                }
                assert(b.add(c).add(f2) =~= a.add(fa));
            }
            assert forall|x: usize| sgroups_idx(bs2, x) >= 0 implies sgroups_idx(bs, x)
                >= 0 by {}
        },
    }
}

/// Folding the remaining tips empties the index into the tree.
proof fn lemma_fold_insert_conserves(
    r: Seq<CommitRecordS>,
    t: NodeS,
    ids: Seq<usize>,
    bs: Seq<GroupS>,
    i: int,
)
    requires
        sgroups_wf(bs),
        stacks_distinct_first(t.stacks),
        0 <= i,
        forall|x: usize| sgroups_idx(bs, x) >= 0 ==> (exists|k: int|
            i <= k < ids.len() && ids[k] == x),
    ensures
        match fold_insert(r, t, ids, bs, i) {
            Err(_) => true,
            Ok((t2, bs2)) => bs2.len() == 0 && tree_branches(t2).to_multiset()
                =~= tree_branches(t).to_multiset().add(sgroups_flat(bs).to_multiset()),
        },
    decreases ids.len() - i,
{
    broadcast use vstd::multiset::group_multiset_axioms;
    broadcast use vstd::seq_lib::group_to_multiset_ensures;

    if i < 0 || i >= ids.len() {
        assert(bs.len() == 0) by {
            if bs.len() > 0 {
                crate::git::lemma_sgroups_idx_witness(bs, bs[0].id, 0);
            }
        }
        assert(sgroups_flat(bs) =~= Seq::<BranchS>::empty());
        assert(sgroups_flat(bs).to_multiset() =~= Multiset::<BranchS>::empty());
        assert(tree_branches(t).to_multiset() =~= tree_branches(t).to_multiset().add(
            sgroups_flat(bs).to_multiset(),
        ));
    } else {
        lemma_insert_conserves(r, t, ids[i], bs);
        match insert_s(r, t, ids[i], bs) {
            Err(_) => {},
            Ok((t1, bs1)) => {
                assert forall|x: usize| sgroups_idx(bs1, x) >= 0 implies (exists|k: int|
                    i + 1 <= k < ids.len() && ids[k] == x) by {
                    if sgroups_idx(bs1, x) >= 0 {
                        assert(sgroups_idx(bs, x) >= 0);
                        let k = choose|k: int| i <= k < ids.len() && ids[k] == x;
                        assert(x != ids[i]);
                        assert(ids[k] == x && k >= i + 1);
                    }
                }
                lemma_fold_insert_conserves(r, t1, ids, bs1, i + 1);
                match fold_insert(r, t1, ids, bs1, i + 1) {
                    Err(_) => {},
                    Ok((t2, bs2)) => {
                        let a = tree_branches(t).to_multiset();
                        let b = tree_branches(t1).to_multiset();
                        let fa = sgroups_flat(bs).to_multiset();
                        let f1 = sgroups_flat(bs1).to_multiset();
                        assert(b.add(f1) =~= a.add(fa));
                        assert(tree_branches(t2).to_multiset() =~= b.add(f1));
                    },
                }
            },
        }
    }
}

/// Law: when the graph builder succeeds, the branch index is fully
/// consumed and the tree holds exactly the branches the index held — so
/// every input branch is placed, and placed exactly once.
pub proof fn lemma_from_branches_places_every_branch(r: Seq<CommitRecordS>, bs: Seq<GroupS>)
    requires
        sgroups_wf(bs),
    ensures
        match from_branches_s(r, bs) {
            Err(_) => true,
            Ok((t, bsf)) => bsf.len() == 0 && tree_branches(t).to_multiset() =~= sgroups_flat(
                bs,
            ).to_multiset(),
        },
{
    broadcast use vstd::multiset::group_multiset_axioms;
    broadcast use vstd::seq_lib::group_to_multiset_ensures;

    if bs.len() > 0 {
        let ids = sort_tips(tip_ids(bs), bs);
        lemma_sort_tips_members(tip_ids(bs), bs);
        let root = fresh_node(commit_view_at(r, ids[0]), sgroups_get(bs, ids[0]));
        let bs1 = sgroups_remove(bs, ids[0]);
        lemma_sgroups_remove_wf(bs, ids[0]);
        lemma_flat_remove_get(bs, ids[0]);
        assert(tree_branches(root) =~= root.branches);
        assert(stacks_distinct_first(root.stacks));
        assert forall|x: usize| sgroups_idx(bs1, x) >= 0 implies (exists|k: int|
            1 <= k < ids.len() && ids[k] == x) by {
            if sgroups_idx(bs1, x) >= 0 {
                lemma_sgroups_remove_idx(bs, ids[0], x);
                assert(sgroups_idx(bs, x) >= 0 && x != ids[0]);
                lemma_sgroups_idx(bs, x);
                let w = sgroups_idx(bs, x);
                assert(bs[w].id == x);
                assert(tip_ids(bs)[w] == x);
                assert(tip_ids(bs).contains(x));
                assert(ids.contains(x));
                let k = choose|k: int| 0 <= k < ids.len() && ids[k] == x;
                assert(k != 0);
            }
        }
        lemma_fold_insert_conserves(r, root, ids, bs1, 1);
        match fold_insert(r, root, ids, bs1, 1) {
            Err(_) => {},
            Ok((t, bsf)) => {
                let g = sgroups_get(bs, ids[0]).to_multiset();
                let f1 = sgroups_flat(bs1).to_multiset();
                let fa = sgroups_flat(bs).to_multiset();
                assert(f1.add(g) =~= fa);
                assert(tree_branches(t).to_multiset() =~= g.add(f1));
                assert(g.add(f1) =~= fa);
            },
        }
    }
}

/// Law: the graph builder is a function of its inputs — building twice
/// from the same repository and branch index yields structurally equal
/// trees.
pub proof fn lemma_from_branches_deterministic(
    r: Seq<CommitRecordS>,
    bs: Seq<GroupS>,
    t1: Result<(NodeS, Seq<GroupS>), GraphError>,
    t2: Result<(NodeS, Seq<GroupS>), GraphError>,
)
    requires
        t1 == from_branches_s(r, bs),
        t2 == from_branches_s(r, bs),
    ensures
        t1 == t2,
{
}

/// The ids a tree's nodes hold, depth first.
pub open spec fn tree_ids(t: NodeS) -> Seq<usize>
    decreases t, 0int,
{
    seq![t.commit.id] + stacks_ids_from(t.stacks, 0)
}

/// The ids of the stacks from position `i` on.
pub open spec fn stacks_ids_from(ss: Seq<Seq<NodeS>>, i: int) -> Seq<usize>
    decreases ss, ss.len() - i,
{
    if i < 0 || i >= ss.len() {
        Seq::empty()
    } else {
        run_ids_from(ss[i], 0) + stacks_ids_from(ss, i + 1)
    }
}

/// The ids of a stack's nodes from position `j` on.
pub open spec fn run_ids_from(run: Seq<NodeS>, j: int) -> Seq<usize>
    decreases run, run.len() - j,
{
    if j < 0 || j >= run.len() {
        Seq::empty()
    } else {
        tree_ids(run[j]) + run_ids_from(run, j + 1)
    }
}

/// The prefix before `x` keeps only elements of the chain that come
/// before `x`.
proof fn lemma_take_until_sub(s: Seq<usize>, x: usize)
    ensures
        take_until(s, x).len() <= s.len(),
        forall|k: int| 0 <= k < take_until(s, x).len() ==> take_until(s, x)[k] == s[k] && s[k]
            != x,
    decreases s.len(),
{
    if s.len() > 0 && s[0] != x {
        let t = s.drop_first();
        lemma_take_until_sub(t, x);
        assert forall|k: int| 0 <= k < take_until(s, x).len() implies take_until(s, x)[k] == s[k]
            && s[k] != x by {
            if k > 0 {
                assert(take_until(s, x)[k] == take_until(t, x)[k - 1]);
                assert(t[k - 1] == s[k]);
            }
        }
    }
}

/// Law (one node per commit, for one walk): the tree `populate_s` builds
/// holds each commit id at most once — the base once at the root, and
/// each walked commit in exactly one node of the single stack.
pub proof fn lemma_populate_distinct_ids(
    r: Seq<CommitRecordS>,
    base: usize,
    head: usize,
    bs: Seq<GroupS>,
)
    requires
        populate_ok(r, base, head),
    ensures
        ({
            let ids = tree_ids(populate_s(r, base, head, bs).0);
            forall|i: int, j: int| 0 <= i < j < ids.len() ==> ids[i] != ids[j]
        }),
{
    let (root, _) = populate_s(r, base, head, bs);
    let chain = anc_chain(r, head);
    let pre = take_until(chain, base);
    let walk = pre.reverse();
    let (run, _) = build_run(r, walk, sgroups_remove(bs, base), 0);
    lemma_build_run_ids(r, walk, sgroups_remove(bs, base), 0);
    crate::git::lemma_anc_chain_shape(r, head);
    lemma_take_until_sub(chain, base);
    let ids = tree_ids(root);
    if walk.len() == 0 {
        assert(ids =~= seq![base]);
    } else {
        assert(root.stacks =~= seq![run]);
        assert(stacks_ids_from(root.stacks, 1) =~= Seq::<usize>::empty());
        assert(stacks_ids_from(root.stacks, 0) =~= run_ids_from(run, 0));
        lemma_run_ids_flat(run, walk);
        assert(ids =~= seq![base] + walk);
        assert forall|i: int, j: int| 0 <= i < j < ids.len() implies ids[i] != ids[j] by {
            if i == 0 {
                assert(ids[j] == walk[j - 1]);
                assert(walk[j - 1] == pre[pre.len() - j]);
                assert(pre[pre.len() - j] == chain[pre.len() - j]);
                assert(chain[pre.len() - j] != base);
            } else {
                assert(ids[i] == walk[i - 1]);
                assert(ids[j] == walk[j - 1]);
                assert(walk[i - 1] == chain[pre.len() - i]);
                assert(walk[j - 1] == chain[pre.len() - j]);
            }
        }
    }
}

/// The walk's nodes carry exactly the walked ids, with no stacks below.
proof fn lemma_build_run_ids(r: Seq<CommitRecordS>, walk: Seq<usize>, bs: Seq<GroupS>, i: int)
    requires
        0 <= i <= walk.len(),
    ensures
        ({
            let run = build_run(r, walk, bs, i).0;
            &&& run.len() == walk.len() - i
            &&& forall|k: int| 0 <= k < run.len() ==> (#[trigger] run[k]).commit.id == walk[i
                + k] && run[k].stacks.len() == 0
        }),
    decreases walk.len() - i,
{
    if i < walk.len() {
        lemma_build_run_ids(r, walk, sgroups_remove(bs, walk[i]), i + 1);
        let run = build_run(r, walk, bs, i).0;
        let rest = build_run(r, walk, sgroups_remove(bs, walk[i]), i + 1).0;
        assert forall|k: int| 0 <= k < run.len() implies (#[trigger] run[k]).commit.id == walk[i
            + k] && run[k].stacks.len() == 0 by {
            if k > 0 {
                assert(run[k] == rest[k - 1]);
            }
        }
    }
}

/// A run of bare nodes contributes exactly its own ids.
proof fn lemma_run_ids_flat(run: Seq<NodeS>, walk: Seq<usize>)
    requires
        run.len() == walk.len(),
        forall|k: int| 0 <= k < run.len() ==> (#[trigger] run[k]).commit.id == walk[k]
            && run[k].stacks.len() == 0,
    ensures
        run_ids_from(run, 0) =~= walk,
{
    lemma_run_ids_flat_from(run, walk, 0);
}

/// The induction behind `lemma_run_ids_flat`.
proof fn lemma_run_ids_flat_from(run: Seq<NodeS>, walk: Seq<usize>, j: int)
    requires
        run.len() == walk.len(),
        forall|k: int| 0 <= k < run.len() ==> (#[trigger] run[k]).commit.id == walk[k]
            && run[k].stacks.len() == 0,
        0 <= j <= run.len(),
    ensures
        run_ids_from(run, j) =~= walk.skip(j),
    decreases run.len() - j,
{
    if j < run.len() {
        lemma_run_ids_flat_from(run, walk, j + 1);
        assert(tree_ids(run[j]) =~= seq![walk[j]]) by {
            assert(stacks_ids_from(run[j].stacks, 0) =~= Seq::<usize>::empty());
        }
        assert(run_ids_from(run, j) =~= seq![walk[j]] + walk.skip(j + 1));
        assert(seq![walk[j]] + walk.skip(j + 1) =~= walk.skip(j));
    } else {
        assert(walk.skip(j) =~= Seq::<usize>::empty());
    }
}

} // verus!
