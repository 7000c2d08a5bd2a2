//! Data model of what the core logic reads from a repository.
//!
//! Commits live in a [`Repo`], which records for each commit its parent on
//! the line the builder walks.  A commit id is the commit's position in the
//! repository, so a parent always has a smaller id than its child; ancestry
//! walks and merge-base queries are ordinary verified functions over that
//! structure.  The caller that fronts a real repository loads the commits it
//! wants the core to reason about into a `Repo` value and converts ids back
//! when it applies the results.

use vstd::prelude::*;

verus! {

/// A local branch: its name, the commit its tip points at, and the commits
/// its push and pull tracking refs point at, when those exist.
#[derive(Debug, PartialEq, Eq)]
pub struct Branch {
    pub name: String,
    pub id: usize,
    pub push_id: Option<usize>,
    pub pull_id: Option<usize>,
}

/// Mathematical image of a [`Branch`].
pub ghost struct BranchS {
    pub name: Seq<char>,
    pub id: usize,
    pub push_id: Option<usize>,
    pub pull_id: Option<usize>,
}

impl View for Branch {
    type V = BranchS;

    open spec fn view(&self) -> BranchS {
        BranchS {
            name: self.name@,
            id: self.id,
            push_id: self.push_id,
            pull_id: self.pull_id,
        }
    }
}

/// The characters of a list of branches.
pub open spec fn branches_view(v: Seq<Branch>) -> Seq<BranchS> {
    v.map_values(|b: Branch| b@)
}

impl Branch {
    /// An exact copy; unlike a derived `clone`, its contract says so.
    pub fn duplicate(&self) -> (r: Self)
        ensures
            r@ == self@,
    {
        Branch {
            name: self.name.clone(),
            id: self.id,
            push_id: self.push_id,
            pull_id: self.pull_id,
        }
    }
}

/// Copy a list of branches, preserving its view.
pub fn duplicate_branches(v: &Vec<Branch>) -> (r: Vec<Branch>)
    ensures
        branches_view(r@) == branches_view(v@),
{
    let mut r: Vec<Branch> = Vec::new();
    let mut i: usize = 0;
    while i < v.len()
        invariant
            i <= v@.len(),
            r@.len() == i,
            forall|j: int| 0 <= j < i ==> (#[trigger] r@[j])@ == v@[j]@,
        decreases v@.len() - i,
    {
        r.push(v[i].duplicate());
        i = i + 1;
    }
    proof {
        assert(branches_view(r@) =~= branches_view(v@));
    }
    r
}

/// An immutable commit as the core reads it: identity plus display payload.
#[derive(Debug, PartialEq, Eq)]
pub struct Commit {
    pub id: usize,
    pub tree_id: usize,
    pub summary: Vec<u8>,
    pub time: u64,
}

/// Mathematical image of a [`Commit`].
pub ghost struct CommitS {
    pub id: usize,
    pub tree_id: usize,
    pub summary: Seq<u8>,
    pub time: u64,
}

impl View for Commit {
    type V = CommitS;

    open spec fn view(&self) -> CommitS {
        CommitS { id: self.id, tree_id: self.tree_id, summary: self.summary@, time: self.time }
    }
}

impl Commit {
    /// An exact copy; unlike a derived `clone`, its contract says so.
    pub fn duplicate(&self) -> (r: Self)
        ensures
            r@ == self@,
    {
        let summary = self.summary.clone();
        proof {
            assert(summary@ =~= self.summary@);
        }
        Commit { id: self.id, tree_id: self.tree_id, summary, time: self.time }
    }
}

/// One entry of the branch index: a tip commit and the branches at it.
#[derive(Debug, PartialEq, Eq)]
pub struct BranchGroup {
    pub id: usize,
    pub branches: Vec<Branch>,
}

/// Mathematical image of a [`BranchGroup`].
pub ghost struct GroupS {
    pub id: usize,
    pub branches: Seq<BranchS>,
}

impl View for BranchGroup {
    type V = GroupS;

    open spec fn view(&self) -> GroupS {
        GroupS { id: self.id, branches: branches_view(self.branches@) }
    }
}

/// First position of `id` among the groups, or `-1`.
pub open spec fn sgroups_idx(s: Seq<GroupS>, id: usize) -> int
    decreases s.len(),
{
    if s.len() == 0 {
        -1
    } else if s[0].id == id {
        0
    } else {
        let r = sgroups_idx(s.drop_first(), id);
        if r < 0 {
            -1
        } else {
            1 + r
        }
    }
}

/// `sgroups_idx` finds the first matching group, and `-1` means none.
pub proof fn lemma_sgroups_idx(s: Seq<GroupS>, id: usize)
    ensures
        sgroups_idx(s, id) == -1 ==> forall|j: int|
            0 <= j < s.len() ==> (#[trigger] s[j]).id != id,
        sgroups_idx(s, id) >= 0 ==> {
            &&& sgroups_idx(s, id) < s.len()
            &&& s[sgroups_idx(s, id)].id == id
            &&& forall|j: int| 0 <= j < sgroups_idx(s, id) ==> (#[trigger] s[j]).id != id
        },
    decreases s.len(),
{
    if s.len() > 0 && s[0].id != id {
        let t = s.drop_first();
        lemma_sgroups_idx(t, id);
        if sgroups_idx(t, id) == -1 {
            assert forall|j: int| 0 <= j < s.len() implies (#[trigger] s[j]).id != id by {
                if j > 0 {
                    assert(s[j] == t[j - 1]);
                }
            }
        } else {
            assert(s[sgroups_idx(s, id)] == t[sgroups_idx(t, id)]);
            assert forall|j: int| 0 <= j < sgroups_idx(s, id) implies (#[trigger] s[j]).id
                != id by {
                if j > 0 {
                    assert(s[j] == t[j - 1]);
                }
            }
        }
    }
}

/// The branches recorded for `id`, empty when there is no group for it.
pub open spec fn sgroups_get(s: Seq<GroupS>, id: usize) -> Seq<BranchS> {
    if sgroups_idx(s, id) >= 0 {
        s[sgroups_idx(s, id)].branches
    } else {
        Seq::empty()
    }
}

/// The groups after taking the entry for `id` out.
pub open spec fn sgroups_remove(s: Seq<GroupS>, id: usize) -> Seq<GroupS> {
    if sgroups_idx(s, id) >= 0 {
        s.remove(sgroups_idx(s, id))
    } else {
        s
    }
}

/// One branch added to the group of its tip, or opening a new group.
pub open spec fn sgroups_insert(s: Seq<GroupS>, b: BranchS) -> Seq<GroupS> {
    let i = sgroups_idx(s, b.id);
    if i >= 0 {
        s.update(i, GroupS { id: b.id, branches: s[i].branches.push(b) })
    } else {
        s.push(GroupS { id: b.id, branches: seq![b] })
    }
}

/// The branch index built from a list of branches, in order.
pub open spec fn sgroups_from(list: Seq<BranchS>) -> Seq<GroupS>
    decreases list.len(),
{
    if list.len() == 0 {
        Seq::empty()
    } else {
        sgroups_insert(sgroups_from(list.drop_last()), list.last())
    }
}

/// All branches of all groups, in index order.
pub open spec fn sgroups_flat(s: Seq<GroupS>) -> Seq<BranchS>
    decreases s.len(),
{
    if s.len() == 0 {
        Seq::empty()
    } else {
        s[0].branches + sgroups_flat(s.drop_first())
    }
}

/// A multimap from tip commit id to the branches currently pointing there.
///
/// The graph builder consumes it destructively: a branch placed in the tree
/// is removed here, so no branch is placed twice.
#[derive(Debug, PartialEq, Eq)]
pub struct Branches {
    entries: Vec<BranchGroup>,
}

impl View for Branches {
    type V = Seq<GroupS>;

    closed spec fn view(&self) -> Seq<GroupS> {
        Seq::new(self.entries@.len(), |i: int| self.entries@[i]@)
    }
}

impl Branches {
    /// Groups are for distinct tips, never empty, and hold only branches
    /// whose tip is the group's commit.
    pub open spec fn wf(&self) -> bool {
        &&& forall|i: int|
            0 <= i < self@.len() ==> (#[trigger] self@[i]).branches.len() > 0
        &&& forall|i: int, j: int|
            0 <= i < self@.len() && 0 <= j < self@[i].branches.len()
                ==> (#[trigger] self@[i].branches[j]).id == self@[i].id
        &&& forall|i: int, j: int|
            0 <= i < j < self@.len() ==> (#[trigger] self@[i]).id != (#[trigger] self@[j]).id
    }

    /// An empty index.
    pub fn new() -> (r: Self)
        ensures
            r@ =~= Seq::<GroupS>::empty(),
            r.wf(),
    {
        Branches { entries: Vec::new() }
    }

    /// Whether no branch is left in the index.
    pub fn is_empty(&self) -> (r: bool)
        ensures
            r == (self@.len() == 0),
    {
        self.entries.is_empty()
    }

    /// How many distinct tips the index still records.
    pub fn len(&self) -> (r: usize)
        ensures
            r == self@.len(),
    {
        self.entries.len()
    }

    /// Position of the group for `id`, if one exists.
    fn find_group(&self, id: usize) -> (r: Option<usize>)
        ensures
            r matches Some(i) ==> i == sgroups_idx(self@, id) && 0 <= sgroups_idx(self@, id),
            r is None ==> sgroups_idx(self@, id) == -1,
    {
        proof {
            lemma_sgroups_idx(self@, id);
        }
        let mut i: usize = 0;
        while i < self.entries.len()
            invariant
                i <= self@.len(),
                forall|j: int| 0 <= j < i ==> (#[trigger] self@[j]).id != id,
            decreases self@.len() - i,
        {
            if self.entries[i].id == id {
                proof {
                    lemma_sgroups_idx_found(self@, id, i as int);
                }
                return Some(i);
            }
            i = i + 1;
        }
        proof {
            lemma_sgroups_idx_found_none(self@, id);
        }
        None
    }

    /// The branches at tip `id`, if any are recorded.
    pub fn get(&self, id: usize) -> (r: Option<&Vec<Branch>>)
        ensures
            r matches Some(v) ==> sgroups_idx(self@, id) >= 0 && branches_view(v@)
                == sgroups_get(self@, id),
            r is None ==> sgroups_idx(self@, id) == -1,
    {
        proof {
            lemma_sgroups_idx(self@, id);
        }
        match self.find_group(id) {
            Some(i) => Some(&self.entries[i].branches),
            None => None,
        }
    }

    /// Take the branches at tip `id` out of the index.
    pub fn remove(&mut self, id: usize) -> (r: Option<Vec<Branch>>)
        ensures
            final(self)@ == sgroups_remove(old(self)@, id),
            r matches Some(v) ==> sgroups_idx(old(self)@, id) >= 0 && branches_view(v@)
                == sgroups_get(old(self)@, id),
            r is None ==> sgroups_idx(old(self)@, id) == -1,
            old(self).wf() ==> final(self).wf(),
    {
        let ghost pre = self@;
        proof {
            lemma_sgroups_idx(pre, id);
        }
        match self.find_group(id) {
            Some(i) => {
                let g = self.entries.remove(i);
                proof {
                    assert(self@ =~= sgroups_remove(pre, id));
                    if old(self).wf() {
                        assert(self.wf());
                    }
                }
                Some(g.branches)
            },
            None => {
                proof {
                    assert(self@ =~= sgroups_remove(pre, id));
                }
                None
            },
        }
    }

    /// Record one branch under its tip commit.
    pub fn insert(&mut self, b: Branch)
        ensures
            final(self)@ == sgroups_insert(old(self)@, b@),
            old(self).wf() ==> final(self).wf(),
    {
        let ghost pre = self@;
        proof {
            lemma_sgroups_idx(pre, b.id);
        }
        match self.find_group(b.id) {
            Some(i) => {
                let mut g = self.entries.remove(i);
                g.branches.push(b);
                proof {
                    assert(branches_view(g.branches@) =~= pre[i as int].branches.push(b@));
                }
                self.entries.insert(i, g);
                proof {
                    assert(self@ =~= sgroups_insert(pre, b@));
                }
            },
            None => {
                let id = b.id;
                let mut branches: Vec<Branch> = Vec::new();
                branches.push(b);
                proof {
                    assert(branches_view(branches@) =~= seq![b@]);
                }
                self.entries.push(BranchGroup { id, branches });
                proof {
                    assert(self@ =~= sgroups_insert(pre, b@));
                }
            },
        }
        proof {
            if old(self).wf() {
                assert(self.wf());
            }
        }
    }

    /// Build the index from a list of branches.
    pub fn from_list(list: Vec<Branch>) -> (r: Self)
        ensures
            r@ == sgroups_from(branches_view(list@)),
            r.wf(),
    {
        let mut r = Branches::new();
        let mut i: usize = 0;
        proof {
            assert(branches_view(list@).take(0) =~= Seq::<BranchS>::empty());
        }
        let mut list = list;
        let ghost all = branches_view(list@);
        let len = list.len();
        // consume from the front to keep insertion order
        let mut k: usize = 0;
        while k < len
            invariant
                k <= len,
                len == all.len(),
                list@.len() == len - k,
                forall|j: int| 0 <= j < list@.len() ==> (#[trigger] list@[j])@ == all[k + j],
                r@ == sgroups_from(all.take(k as int)),
                r.wf(),
            decreases len - k,
        {
            let b = list.remove(0);
            proof {
                assert(b@ == all[k as int]);
            }
            r.insert(b);
            proof {
                assert(all.take(k + 1).drop_last() =~= all.take(k as int));
                assert(all.take(k + 1).last() == all[k as int]);
            }
            k = k + 1;
        }
        proof {
            assert(all.take(len as int) =~= all);
        }
        r
    }

    /// The tip commit ids still recorded, in index order.
    pub fn oids(&self) -> (r: Vec<usize>)
        ensures
            r@ == self@.map_values(|g: GroupS| g.id),
    {
        let mut r: Vec<usize> = Vec::new();
        let mut i: usize = 0;
        while i < self.entries.len()
            invariant
                i <= self@.len(),
                r@.len() == i,
                forall|j: int| 0 <= j < i ==> r@[j] == (#[trigger] self@[j]).id,
            decreases self@.len() - i,
        {
            r.push(self.entries[i].id);
            i = i + 1;
        }
        proof {
            assert(r@ =~= self@.map_values(|g: GroupS| g.id));
        }
        r
    }
}

/// One commit as the repository records it: the payload of a [`Commit`]
/// plus its parent on the line the builder walks, when it has one.
#[derive(Debug, PartialEq, Eq)]
pub struct CommitRecord {
    pub parent: Option<usize>,
    pub tree_id: usize,
    pub summary: Vec<u8>,
    pub time: u64,
}

/// Mathematical image of a [`CommitRecord`].
pub ghost struct CommitRecordS {
    pub parent: Option<usize>,
    pub tree_id: usize,
    pub summary: Seq<u8>,
    pub time: u64,
}

impl View for CommitRecord {
    type V = CommitRecordS;

    open spec fn view(&self) -> CommitRecordS {
        CommitRecordS {
            parent: self.parent,
            tree_id: self.tree_id,
            summary: self.summary@,
            time: self.time,
        }
    }
}

/// The ancestor chain of `id`, newest first, starting with `id` itself.
pub open spec fn anc_chain(r: Seq<CommitRecordS>, id: usize) -> Seq<usize>
    decreases id,
{
    if id < r.len() {
        match r[id as int].parent {
            Some(p) => if p < id {
                seq![id] + anc_chain(r, p)
            } else {
                seq![id]
            },
            None => seq![id],
        }
    } else {
        Seq::empty()
    }
}

/// First element of `ca` that also occurs in `cb`.
pub open spec fn first_common(ca: Seq<usize>, cb: Seq<usize>) -> Option<usize>
    decreases ca.len(),
{
    if ca.len() == 0 {
        None
    } else if cb.contains(ca[0]) {
        Some(ca[0])
    } else {
        first_common(ca.drop_first(), cb)
    }
}

/// The nearest common ancestor of `a` and `b`, when their chains meet.
pub open spec fn merge_base_spec(r: Seq<CommitRecordS>, a: usize, b: usize) -> Option<usize> {
    first_common(anc_chain(r, a), anc_chain(r, b))
}

/// The commit data the repository serves for `id`.
pub open spec fn commit_view_at(r: Seq<CommitRecordS>, id: usize) -> CommitS {
    CommitS {
        id,
        tree_id: r[id as int].tree_id,
        summary: r[id as int].summary,
        time: r[id as int].time,
    }
}

/// The commits the core reasons about, as plain data.
///
/// A commit's id is its position, so every parent link points backwards;
/// that shape is what makes ancestry walks terminate.
#[derive(Debug, PartialEq, Eq)]
pub struct Repo {
    commits: Vec<CommitRecord>,
}

impl View for Repo {
    type V = Seq<CommitRecordS>;

    closed spec fn view(&self) -> Seq<CommitRecordS> {
        Seq::new(self.commits@.len(), |i: int| self.commits@[i]@)
    }
}

impl Repo {
    /// Every parent link points at an earlier commit.
    pub open spec fn wf(&self) -> bool {
        forall|i: int|
            0 <= i < self@.len() ==> ((#[trigger] self@[i]).parent matches Some(p) ==> p < i)
    }

    /// A repository with no commits.
    pub fn new() -> (r: Self)
        ensures
            r@ =~= Seq::<CommitRecordS>::empty(),
            r.wf(),
    {
        Repo { commits: Vec::new() }
    }

    /// How many commits the repository records.
    pub fn len(&self) -> (r: usize)
        ensures
            r == self@.len(),
    {
        self.commits.len()
    }

    /// Record a new commit on top of `parent` and return its id.
    pub fn add_commit(&mut self, parent: Option<usize>, tree_id: usize, summary: Vec<u8>, time: u64)
        -> (id: usize)
        requires
            old(self).wf(),
                        parent matches Some(p) ==> p < old(self)@.len(),
        ensures
            id == old(self)@.len(),
            final(self)@ =~= old(self)@.push(
                CommitRecordS { parent, tree_id, summary: summary@, time },
            ),
            final(self).wf(),
    {
        let id = self.commits.len();
        self.commits.push(CommitRecord { parent, tree_id, summary, time });
        proof {
            assert(self@ =~= old(self)@.push(
                CommitRecordS { parent, tree_id, summary: summary@, time },
            ));
        }
        id
    }

    /// Look the commit for `id` up; `None` exactly when `id` is unknown.
    pub fn find_commit(&self, id: usize) -> (r: Option<Commit>)
        ensures
            r matches Some(c) ==> id < self@.len() && c@ == commit_view_at(self@, id),
            r is None ==> id >= self@.len(),
    {
        if id < self.commits.len() {
            let rec = &self.commits[id];
            let summary = rec.summary.clone();
            proof {
                assert(summary@ =~= rec.summary@);
            }
            Some(Commit { id, tree_id: rec.tree_id, summary, time: rec.time })
        } else {
            None
        }
    }

    /// The ancestor chain of `head`, newest first.
    pub fn ancestors_of(&self, head: usize) -> (r: Vec<usize>)
        requires
            self.wf(),
        ensures
            r@ == anc_chain(self@, head),
    {
        let mut chain: Vec<usize> = Vec::new();
        if head >= self.commits.len() {
            proof {
                assert(chain@ =~= anc_chain(self@, head));
            }
            return chain;
        }
        let mut cur_opt: Option<usize> = Some(head);
        while cur_opt.is_some()
            invariant
                self.wf(),
                match cur_opt {
                    Some(c) => c < self@.len() && chain@ + anc_chain(self@, c) =~= anc_chain(
                        self@,
                        head,
                    ),
                    None => chain@ =~= anc_chain(self@, head),
                },
            decreases (match cur_opt {
                Some(c) => c as int + 1,
                None => 0,
            }),
        {
            let c = match cur_opt {
                Some(c) => c,
                None => 0,  // unreachable: the loop condition holds
            };
            chain.push(c);
            cur_opt = match self.commits[c].parent {
                Some(p) => Some(p),
                None => None,
            };
            proof {
                match cur_opt {
                    Some(p) => {
                        assert(anc_chain(self@, c) =~= seq![c] + anc_chain(self@, p));
                        assert(chain@ + anc_chain(self@, p) =~= anc_chain(self@, head));
                    },
                    None => {
                        assert(anc_chain(self@, c) =~= seq![c]);
                        assert(chain@ =~= anc_chain(self@, head));
                    },
                }
            }
        }
        chain
    }

    /// The nearest common ancestor of `one` and `two`, or `None` when their
    /// histories are disjoint.
    pub fn merge_base(&self, one: usize, two: usize) -> (r: Option<usize>)
        requires
            self.wf(),
        ensures
            r == merge_base_spec(self@, one, two),
    {
        let ca = self.ancestors_of(one);
        let cb = self.ancestors_of(two);
        let mut i: usize = 0;
        proof {
            assert(ca@.skip(0) =~= ca@);
        }
        while i < ca.len()
            invariant
                i <= ca@.len(),
                ca@ == anc_chain(self@, one),
                cb@ == anc_chain(self@, two),
                first_common(ca@.skip(i as int), cb@) == merge_base_spec(self@, one, two),
            decreases ca@.len() - i,
        {
            proof {
                assert(ca@.skip(i as int)[0] == ca@[i as int]);
            }
            if contains_id(&cb, ca[i]) {
                return Some(ca[i]);
            }
            proof {
                assert(ca@.skip(i as int).drop_first() =~= ca@.skip(i + 1));
            }
            i = i + 1;
        }
        proof {
            assert(ca@.skip(i as int).len() == 0);
        }
        None
    }
}

/// An ancestor chain starts at its head, stays inside the repository, and
/// is strictly decreasing, so no commit repeats in it.
pub proof fn lemma_anc_chain_shape(r: Seq<CommitRecordS>, id: usize)
    ensures
        id < r.len() ==> anc_chain(r, id).len() > 0 && anc_chain(r, id)[0] == id,
        forall|i: int| 0 <= i < anc_chain(r, id).len() ==> #[trigger] anc_chain(r, id)[i] <= id,
        forall|i: int| 0 <= i < anc_chain(r, id).len() ==> #[trigger] anc_chain(r, id)[i]
            < r.len(),
        forall|i: int, j: int| 0 <= i < j < anc_chain(r, id).len() ==> #[trigger] anc_chain(
            r,
            id,
        )[i] > #[trigger] anc_chain(r, id)[j],
    decreases id,
{
    if id < r.len() {
        match r[id as int].parent {
            Some(p) => {
                if p < id {
                    lemma_anc_chain_shape(r, p);
                    let c = anc_chain(r, id);
                    let t = anc_chain(r, p);
                    assert forall|i: int, j: int| 0 <= i < j < c.len() implies #[trigger] c[i]
                        > #[trigger] c[j] by {
                        if i > 0 {
                            assert(c[i] == t[i - 1]);
                            assert(c[j] == t[j - 1]);
                        } else {
                            assert(c[j] == t[j - 1]);
                        }
                    }
                }
            },
            None => {},
        }
    }
}

/// Whatever `first_common` returns occurs in both chains.
pub proof fn lemma_first_common_in(ca: Seq<usize>, cb: Seq<usize>)
    ensures
        first_common(ca, cb) matches Some(m) ==> ca.contains(m) && cb.contains(m),
    decreases ca.len(),
{
    if ca.len() > 0 && !cb.contains(ca[0]) {
        lemma_first_common_in(ca.drop_first(), cb);
        match first_common(ca, cb) {
            Some(m) => {
                assert(ca.drop_first().contains(m));
                let i = choose|i: int|
                    0 <= i < ca.drop_first().len() && ca.drop_first()[i] == m;
                assert(ca[i + 1] == m);
            },
            None => {},
        }
    }
}

/// A commit on some chain is its own merge base with that chain's head.
pub proof fn lemma_merge_base_of_ancestor(r: Seq<CommitRecordS>, m: usize, x: usize)
    requires
        anc_chain(r, x).contains(m),
    ensures
        merge_base_spec(r, m, x) == Some(m),
{
    lemma_anc_chain_shape(r, x);
    let i = choose|i: int| 0 <= i < anc_chain(r, x).len() && anc_chain(r, x)[i] == m;
    assert(m < r.len());
    lemma_anc_chain_shape(r, m);
    assert(anc_chain(r, m)[0] == m);
}

/// Whether `x` occurs in `v`.
pub fn contains_id(v: &Vec<usize>, x: usize) -> (r: bool)
    ensures
        r == v@.contains(x),
{
    let mut i: usize = 0;
    while i < v.len()
        invariant
            i <= v@.len(),
            forall|j: int| 0 <= j < i ==> v@[j] != x,
        decreases v@.len() - i,
    {
        if v[i] == x {
            return true;
        }
        i = i + 1;
    }
    false
}

/// If some group holds `id`, the index finds one.
pub proof fn lemma_sgroups_idx_witness(s: Seq<GroupS>, id: usize, k: int)
    requires
        0 <= k < s.len(),
        s[k].id == id,
    ensures
        sgroups_idx(s, id) >= 0,
{
    lemma_sgroups_idx(s, id);
}

/// If the first `i` groups miss `id` and group `i` has it, the index is `i`.
proof fn lemma_sgroups_idx_found(s: Seq<GroupS>, id: usize, i: int)
    requires
        0 <= i < s.len(),
        s[i].id == id,
        forall|j: int| 0 <= j < i ==> (#[trigger] s[j]).id != id,
    ensures
        sgroups_idx(s, id) == i,
    decreases s.len(),
{
    if i > 0 {
        lemma_sgroups_idx_found(s.drop_first(), id, i - 1);
    }
}

/// If no group has `id`, the index is `-1`.
proof fn lemma_sgroups_idx_found_none(s: Seq<GroupS>, id: usize)
    requires
        forall|j: int| 0 <= j < s.len() ==> (#[trigger] s[j]).id != id,
    ensures
        sgroups_idx(s, id) == -1,
    decreases s.len(),
{
    if s.len() > 0 {
        lemma_sgroups_idx_found_none(s.drop_first(), id);
    }
}

} // verus!
