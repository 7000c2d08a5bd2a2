//! Snapshots: the state of all local branches, captured and restored.
//!
//! A snapshot is an ordered list of branch records plus free-form metadata.
//! Capturing reads branch tips and summaries and sorts the records by
//! name and commit; restoring first plans the minimal set of ref changes
//! and then lays them out as an ordered list of ref operations, with the
//! checked-out branch handled by detaching and re-attaching the head.

use vstd::prelude::*;

use crate::git::commit_view_at;
use crate::git::Commit;
use crate::git::CommitRecordS;
use crate::git::Repo;
use crate::text::chars_le;
use crate::text::str_eq;
use crate::text::str_le;
use vstd::string::StringExecFns;

verus! {

/// One metadata entry: a string key and a string value.
#[derive(Debug, PartialEq, Eq)]
pub struct MetaEntry {
    pub key: String,
    pub value: String,
}

/// Mathematical image of a [`MetaEntry`].
pub ghost struct MetaEntryS {
    pub key: Seq<char>,
    pub value: Seq<char>,
}

impl View for MetaEntry {
    type V = MetaEntryS;

    open spec fn view(&self) -> MetaEntryS {
        MetaEntryS { key: self.key@, value: self.value@ }
    }
}

/// The characters of a metadata list.
pub open spec fn meta_view(v: Seq<MetaEntry>) -> Seq<MetaEntryS> {
    v.map_values(|e: MetaEntry| e@)
}

/// State of an individual branch as a snapshot records it.
#[derive(Debug, PartialEq, Eq)]
pub struct Branch {
    pub name: String,
    pub id: usize,
    pub metadata: Vec<MetaEntry>,
}

/// Mathematical image of a snapshot [`Branch`] record.
pub ghost struct RecordS {
    pub name: Seq<char>,
    pub id: usize,
    pub metadata: Seq<MetaEntryS>,
}

impl View for Branch {
    type V = RecordS;

    open spec fn view(&self) -> RecordS {
        RecordS { name: self.name@, id: self.id, metadata: meta_view(self.metadata@) }
    }
}

/// The images of a record list.
pub open spec fn records_view(v: Seq<Branch>) -> Seq<RecordS> {
    v.map_values(|b: Branch| b@)
}

/// State of all branches at one point in time.
#[derive(Debug, PartialEq, Eq)]
pub struct Snapshot {
    pub branches: Vec<Branch>,
    pub metadata: Vec<MetaEntry>,
}

/// What `String::from_utf8_lossy` makes of a byte string; it depends on
/// the bytes alone.
pub uninterp spec fn lossy_of(bytes: Seq<u8>) -> Seq<char>;

/// Relies on `String::from_utf8_lossy`: decodes UTF-8, replacing invalid
/// sequences, and depends on the bytes alone.
#[verifier::external_body]
fn summary_text(bytes: &Vec<u8>) -> (r: String)
    ensures
        r@ == lossy_of(bytes@),
{
    String::from_utf8_lossy(bytes.as_slice()).into_owned()
}

/// Records order by name first, then by commit id; metadata does not
/// take part.
pub open spec fn record_le(a: RecordS, b: RecordS) -> bool {
    if a.name != b.name {
        chars_le(a.name, b.name)
    } else {
        a.id <= b.id
    }
}

/// The snapshot record capture writes for one live branch.
pub open spec fn record_of(r: Seq<CommitRecordS>, b: crate::git::BranchS) -> RecordS {
    RecordS {
        name: b.name,
        id: b.id,
        metadata: seq![
            MetaEntryS { key: "summary"@, value: lossy_of(r[b.id as int].summary) },
        ],
    }
}

/// Insert a record into an already sorted record list.
pub open spec fn insert_record(sorted: Seq<RecordS>, rec: RecordS) -> Seq<RecordS>
    decreases sorted.len(),
{
    if sorted.len() == 0 {
        seq![rec]
    } else if record_le(rec, sorted[0]) {
        seq![rec] + sorted
    } else {
        seq![sorted[0]] + insert_record(sorted.drop_first(), rec)
    }
}

/// Sort records by (name, id) with insertion sort.
pub open spec fn sort_records(recs: Seq<RecordS>) -> Seq<RecordS>
    decreases recs.len(),
{
    if recs.len() == 0 {
        Seq::empty()
    } else {
        insert_record(sort_records(recs.drop_last()), recs.last())
    }
}

/// What capture produces: one record per live branch, sorted.
pub open spec fn from_repo_s(r: Seq<CommitRecordS>, live: Seq<crate::git::BranchS>) -> Seq<
    RecordS,
> {
    sort_records(live.map_values(|b: crate::git::BranchS| record_of(r, b)))
}

/// One planned ref change: move (or create) the branch `name` so it
/// points at `new_id`.  `old_id` is `None` when the branch does not exist
/// yet.
#[derive(Debug, PartialEq, Eq)]
pub struct Change {
    pub name: String,
    pub old_id: Option<usize>,
    pub new_id: usize,
}

/// Mathematical image of a [`Change`].
pub ghost struct ChangeS {
    pub name: Seq<char>,
    pub old_id: Option<usize>,
    pub new_id: usize,
}

impl View for Change {
    type V = ChangeS;

    open spec fn view(&self) -> ChangeS {
        ChangeS { name: self.name@, old_id: self.old_id, new_id: self.new_id }
    }
}

/// The images of a change list.
pub open spec fn changes_view(v: Seq<Change>) -> Seq<ChangeS> {
    v.map_values(|c: Change| c@)
}

/// The tip the live repository has for `name`, if that branch exists.
pub open spec fn lookup(live: Seq<crate::git::BranchS>, name: Seq<char>) -> Option<usize>
    decreases live.len(),
{
    if live.len() == 0 {
        None
    } else if live[0].name == name {
        Some(live[0].id)
    } else {
        lookup(live.drop_first(), name)
    }
}

/// The change restoring one record asks for: nothing when the branch is
/// already at the recorded commit, a retarget when it is elsewhere, a
/// creation when it is missing.
pub open spec fn change_for(rec: RecordS, live: Seq<crate::git::BranchS>) -> Seq<ChangeS> {
    match lookup(live, rec.name) {
        Some(id) => if id == rec.id {
            Seq::empty()
        } else {
            seq![ChangeS { name: rec.name, old_id: Some(id), new_id: rec.id }]
        },
        None => seq![ChangeS { name: rec.name, old_id: None, new_id: rec.id }],
    }
}

/// The whole restore plan, record by record.
pub open spec fn plan_s(recs: Seq<RecordS>, live: Seq<crate::git::BranchS>) -> Seq<ChangeS>
    decreases recs.len(),
{
    if recs.len() == 0 {
        Seq::empty()
    } else {
        plan_s(recs.drop_last(), live) + change_for(recs.last(), live)
    }
}

/// One ref operation of the restore protocol.
#[derive(Debug, PartialEq, Eq)]
pub enum RefStep {
    /// Detach the head from its branch, leaving it on the same commit.
    Detach,
    /// Create the branch `name` at `id`, or move it there.
    SetBranch { name: String, id: usize },
    /// Attach the head to the branch `name`, forcing the working tree to
    /// match.
    SwitchTo { name: String },
}

/// Mathematical image of a [`RefStep`].
pub ghost enum RefStepS {
    Detach,
    SetBranch { name: Seq<char>, id: usize },
    SwitchTo { name: Seq<char> },
}

impl View for RefStep {
    type V = RefStepS;

    open spec fn view(&self) -> RefStepS {
        match self {
            RefStep::Detach => RefStepS::Detach,
            RefStep::SetBranch { name, id } => RefStepS::SetBranch { name: name@, id: *id },
            RefStep::SwitchTo { name } => RefStepS::SwitchTo { name: name@ },
        }
    }
}

/// The images of a step list.
pub open spec fn steps_view(v: Seq<RefStep>) -> Seq<RefStepS> {
    v.map_values(|s: RefStep| s@)
}

/// The operations applying one change takes: the checked-out branch is
/// detached from, retargeted and re-attached to; any other branch is
/// simply set.
pub open spec fn steps_for(c: ChangeS, head: Option<Seq<char>>) -> Seq<RefStepS> {
    if head == Some(c.name) {
        seq![
            RefStepS::Detach,
            RefStepS::SetBranch { name: c.name, id: c.new_id },
            RefStepS::SwitchTo { name: c.name },
        ]
    } else {
        seq![RefStepS::SetBranch { name: c.name, id: c.new_id }]
    }
}

/// The operations applying a whole plan takes, in plan order.
pub open spec fn steps_s(plan: Seq<ChangeS>, head: Option<Seq<char>>) -> Seq<RefStepS>
    decreases plan.len(),
{
    if plan.len() == 0 {
        Seq::empty()
    } else {
        steps_s(plan.drop_last(), head) + steps_for(plan.last(), head)
    }
}

/// The view of an optional head-branch name.
pub open spec fn head_view(h: Option<String>) -> Option<Seq<char>> {
    match h {
        Some(s) => Some(s@),
        None => None,
    }
}

impl Snapshot {
    /// Extract branch state from a repository: one record per live
    /// branch, remembering the tip commit's summary for display, sorted
    /// by (name, id).
    pub fn from_repo(repo: &Repo, local_branches: &Vec<crate::git::Branch>) -> (r: Snapshot)
        requires
            forall|k: int| 0 <= k < local_branches@.len()
                ==> (#[trigger] local_branches@[k])@.id < repo@.len(),
        ensures
            records_view(r.branches@) == from_repo_s(repo@, crate::git::branches_view(
                local_branches@,
            )),
            r.metadata@.len() == 0,
    {
        let ghost livev = crate::git::branches_view(local_branches@);
        let ghost mapped = livev.map_values(|b: crate::git::BranchS| record_of(repo@, b));
        let mut records: Vec<Branch> = Vec::new();
        let mut i: usize = 0;
        proof {
            assert(mapped.take(0) =~= Seq::<RecordS>::empty());
        }
        while i < local_branches.len()
            invariant
                i <= local_branches@.len(),
                livev == crate::git::branches_view(local_branches@),
                mapped == livev.map_values(|b: crate::git::BranchS| record_of(repo@, b)),
                forall|k: int| 0 <= k < local_branches@.len()
                    ==> (#[trigger] local_branches@[k])@.id < repo@.len(),
                records_view(records@) == mapped.take(i as int),
                records@.len() == i,
            decreases local_branches@.len() - i,
        {
            let b = &local_branches[i];
            let commit = match repo.find_commit(b.id) {
                Some(c) => c,
                None => {
                    proof {
                        assert(false);
                    }
                    Commit { id: 0, tree_id: 0, summary: Vec::new(), time: 0 }
                },
            };
            let mut metadata: Vec<MetaEntry> = Vec::new();
            metadata.push(
                MetaEntry { key: "summary".to_owned(), value: summary_text(&commit.summary) },
            );
            let rec = Branch { name: b.name.clone(), id: b.id, metadata };
            proof {
                assert(meta_view(rec.metadata@) =~= seq![
                    MetaEntryS {
                        key: "summary"@,
                        value: lossy_of(commit_view_at(repo@, b.id).summary),
                    },
                ]);
                assert(rec@ == record_of(repo@, livev[i as int]));
                assert(records_view(records@.push(rec)) =~= mapped.take(i + 1));
            }
            records.push(rec);
            i = i + 1;
        }
        proof {
            assert(mapped.take(mapped.len() as int) =~= mapped);
        }
        let branches = sort_branch_records(records);
        Snapshot { branches, metadata: Vec::new() }
    }

    /// The minimal set of ref changes that brings the live branches to
    /// this snapshot: one change per record whose branch is missing or
    /// points elsewhere, in record order.
    pub fn plan_changes(&self, live: &Vec<crate::git::Branch>) -> (r: Vec<Change>)
        ensures
            changes_view(r@) == plan_s(records_view(self.branches@), crate::git::branches_view(
                live@,
            )),
    {
        let ghost recsv = records_view(self.branches@);
        let ghost livev = crate::git::branches_view(live@);
        let mut plan: Vec<Change> = Vec::new();
        let mut i: usize = 0;
        proof {
            assert(changes_view(plan@) =~= plan_s(recsv.take(0), livev));
        }
        while i < self.branches.len()
            invariant
                i <= self.branches@.len(),
                recsv == records_view(self.branches@),
                livev == crate::git::branches_view(live@),
                changes_view(plan@) == plan_s(recsv.take(i as int), livev),
            decreases self.branches@.len() - i,
        {
            let rec = &self.branches[i];
            let ghost plan0 = changes_view(plan@);
            match lookup_branch(live, &rec.name) {
                Some(id) => {
                    if id != rec.id {
                        plan.push(
                            Change { name: rec.name.clone(), old_id: Some(id), new_id: rec.id },
                        );
                        proof {
                            assert(changes_view(plan@) =~= plan0 + change_for(
                                recsv[i as int],
                                livev,
                            ));
                        }
                    } else {
                        proof {
                            assert(changes_view(plan@) =~= plan0 + change_for(
                                recsv[i as int],
                                livev,
                            ));
                        }
                    }
                },
                None => {
                    plan.push(Change { name: rec.name.clone(), old_id: None, new_id: rec.id });
                    proof {
                        assert(changes_view(plan@) =~= plan0 + change_for(recsv[i as int], livev));
                    }
                },
            }
            proof {
                assert(recsv.take(i + 1).drop_last() =~= recsv.take(i as int));
                assert(recsv.take(i + 1).last() == recsv[i as int]);
            }
            i = i + 1;
        }
        proof {
            assert(recsv.take(recsv.len() as int) =~= recsv);
        }
        plan
    }

    /// Add (or replace) the free-form message carried by this snapshot.
    pub fn insert_message(&mut self, message: &str)
        ensures
            meta_view(final(self).metadata@) == meta_set(meta_view(old(self).metadata@),
                "message"@, message@),
            final(self).branches@ == old(self).branches@,
    {
        let ghost md0 = meta_view(self.metadata@);
        let mut i: usize = 0;
        while i < self.metadata.len()
            invariant
                i <= self.metadata@.len(),
                md0 == meta_view(self.metadata@),
                forall|k: int| 0 <= k < i ==> (#[trigger] md0[k]).key != "message"@,
                self.branches@ == old(self).branches@,
                self.metadata@ == old(self).metadata@,
            decreases self.metadata@.len() - i,
        {
            if str_eq(self.metadata[i].key.as_str(), "message") {
                let entry = MetaEntry { key: "message".to_owned(), value: message.to_owned() };
                let _replaced = self.metadata.remove(i);
                self.metadata.insert(i, entry);
                proof {
                    lemma_meta_set_at(md0, "message"@, message@, i as int);
                    assert(meta_view(self.metadata@) =~= md0.update(
                        i as int,
                        MetaEntryS { key: "message"@, value: message@ },
                    ));
                }
                return ;
            }
            i = i + 1;
        }
        let entry = MetaEntry { key: "message".to_owned(), value: message.to_owned() };
        self.metadata.push(entry);
        proof {
            lemma_meta_set_none(md0, "message"@, message@);
            assert(meta_view(self.metadata@) =~= md0.push(
                MetaEntryS { key: "message"@, value: message@ },
            ));
        }
    }
}

/// Set `key` to `value` in a metadata list: the first entry with that key
/// is replaced, or a new entry is appended.
pub open spec fn meta_set(md: Seq<MetaEntryS>, key: Seq<char>, value: Seq<char>) -> Seq<
    MetaEntryS,
>
    decreases md.len(),
{
    if md.len() == 0 {
        seq![MetaEntryS { key, value }]
    } else if md[0].key == key {
        seq![MetaEntryS { key, value }] + md.drop_first()
    } else {
        seq![md[0]] + meta_set(md.drop_first(), key, value)
    }
}

/// When the key first occurs at `i`, `meta_set` updates position `i`.
proof fn lemma_meta_set_at(md: Seq<MetaEntryS>, key: Seq<char>, value: Seq<char>, i: int)
    requires
        0 <= i < md.len(),
        md[i].key == key,
        forall|k: int| 0 <= k < i ==> (#[trigger] md[k]).key != key,
    ensures
        meta_set(md, key, value) == md.update(i, MetaEntryS { key, value }),
    decreases md.len(),
{
    if i == 0 {
        assert(meta_set(md, key, value) =~= md.update(0, MetaEntryS { key, value }));
    } else {
        let t = md.drop_first();
        assert forall|k: int| 0 <= k < i - 1 implies (#[trigger] t[k]).key != key by {
            assert(t[k] == md[k + 1]);
        }
        lemma_meta_set_at(t, key, value, i - 1);
        assert(meta_set(md, key, value) =~= md.update(i, MetaEntryS { key, value }));
    }
}

/// When the key never occurs, `meta_set` appends.
proof fn lemma_meta_set_none(md: Seq<MetaEntryS>, key: Seq<char>, value: Seq<char>)
    requires
        forall|k: int| 0 <= k < md.len() ==> (#[trigger] md[k]).key != key,
    ensures
        meta_set(md, key, value) == md.push(MetaEntryS { key, value }),
    decreases md.len(),
{
    if md.len() == 0 {
        assert(meta_set(md, key, value) =~= md.push(MetaEntryS { key, value }));
    } else {
        let t = md.drop_first();
        assert forall|k: int| 0 <= k < t.len() implies (#[trigger] t[k]).key != key by {
            assert(t[k] == md[k + 1]);
        }
        lemma_meta_set_none(t, key, value);
        assert(meta_set(md, key, value) =~= md.push(MetaEntryS { key, value }));
    }
}

/// The tip the live branch list records for `name`, by linear search.
pub fn lookup_branch(live: &Vec<crate::git::Branch>, name: &String) -> (r: Option<usize>)
    ensures
        r == lookup(crate::git::branches_view(live@), name@),
{
    let ghost livev = crate::git::branches_view(live@);
    let mut i: usize = 0;
    proof {
        assert(livev.skip(0) =~= livev);
    }
    while i < live.len()
        invariant
            i <= live@.len(),
            livev == crate::git::branches_view(live@),
            lookup(livev, name@) == lookup(livev.skip(i as int), name@),
        decreases live@.len() - i,
    {
        proof {
            assert(livev.skip(i as int)[0] == livev[i as int]);
        }
        if str_eq(live[i].name.as_str(), name.as_str()) {
            return Some(live[i].id);
        }
        proof {
            assert(livev.skip(i as int).drop_first() =~= livev.skip(i + 1));
        }
        i = i + 1;
    }
    None
}

/// Lay a plan out as the ordered ref operations that apply it.
pub fn restore_steps(plan: &Vec<Change>, head_name: &Option<String>) -> (r: Vec<RefStep>)
    ensures
        steps_view(r@) == steps_s(changes_view(plan@), head_view(*head_name)),
{
    let ghost planv = changes_view(plan@);
    let ghost headv = head_view(*head_name);
    let mut steps: Vec<RefStep> = Vec::new();
    let mut i: usize = 0;
    proof {
        assert(steps_view(steps@) =~= steps_s(planv.take(0), headv));
    }
    while i < plan.len()
        invariant
            i <= plan@.len(),
            planv == changes_view(plan@),
            headv == head_view(*head_name),
            steps_view(steps@) == steps_s(planv.take(i as int), headv),
        decreases plan@.len() - i,
    {
        let c = &plan[i];
        let ghost steps0 = steps_view(steps@);
        let is_head = match head_name {
            Some(h) => str_eq(h.as_str(), c.name.as_str()),
            None => false,
        };
        if is_head {
            steps.push(RefStep::Detach);
            steps.push(RefStep::SetBranch { name: c.name.clone(), id: c.new_id });
            steps.push(RefStep::SwitchTo { name: c.name.clone() });
        } else {
            steps.push(RefStep::SetBranch { name: c.name.clone(), id: c.new_id });
        }
        proof {
            assert(steps_view(steps@) =~= steps0 + steps_for(planv[i as int], headv));
            assert(planv.take(i + 1).drop_last() =~= planv.take(i as int));
            assert(planv.take(i + 1).last() == planv[i as int]);
        }
        i = i + 1;
    }
    proof {
        assert(planv.take(planv.len() as int) =~= planv);
    }
    steps
}

/// Sort snapshot records by (name, id).
fn sort_branch_records(records: Vec<Branch>) -> (r: Vec<Branch>)
    ensures
        records_view(r@) == sort_records(records_view(records@)),
{
    let ghost recsv = records_view(records@);
    let mut records = records;
    let mut sorted: Vec<Branch> = Vec::new();
    let mut i: usize = 0;
    proof {
        assert(records_view(sorted@) =~= sort_records(recsv.take(0)));
    }
    let len = records.len();
    while i < len
        invariant
            i <= len,
            len == recsv.len(),
            records@.len() == len - i,
            forall|j: int| 0 <= j < records@.len() ==> (#[trigger] records@[j])@ == recsv[i + j],
            records_view(sorted@) == sort_records(recsv.take(i as int)),
        decreases len - i,
    {
        let rec = records.remove(0);
        proof {
            assert(rec@ == recsv[i as int]);
        }
        let ghost sorted0 = records_view(sorted@);
        let mut p: usize = 0;
        loop
            invariant
                p <= sorted@.len(),
                sorted0 == records_view(sorted@),
                forall|k: int| 0 <= k < p ==> !record_le(rec@, #[trigger] sorted0[k]),
            ensures
                p <= sorted@.len(),
                sorted0 == records_view(sorted@),
                forall|k: int| 0 <= k < p ==> !record_le(rec@, #[trigger] sorted0[k]),
                p < sorted@.len() ==> record_le(rec@, sorted0[p as int]),
            decreases sorted@.len() - p,
        {
            if p >= sorted.len() {
                break ;
            }
            let cand = &sorted[p];
            let le = if str_eq(rec.name.as_str(), cand.name.as_str()) {
                rec.id <= cand.id
            } else {
                str_le(rec.name.as_str(), cand.name.as_str())
            };
            proof {
                assert(sorted0[p as int] == records_view(sorted@)[p as int]);
                assert(le == record_le(rec@, sorted0[p as int]));
            }
            if le {
                break ;
            }
            p = p + 1;
        }
        sorted.insert(p, rec);
        proof {
            lemma_insert_record_at(sorted0, rec@, p as int);
            assert(records_view(sorted@) =~= sorted0.take(p as int) + seq![rec@] + sorted0.skip(
                p as int,
            ));
            assert(recsv.take(i + 1).drop_last() =~= recsv.take(i as int));
            assert(recsv.take(i + 1).last() == recsv[i as int]);
        }
        i = i + 1;
    }
    proof {
        assert(recsv.take(recsv.len() as int) =~= recsv);
    }
    sorted
}

/// Where a record goes in a sorted list is where `insert_record` puts it.
proof fn lemma_insert_record_at(s: Seq<RecordS>, rec: RecordS, p: int)
    requires
        0 <= p <= s.len(),
        forall|k: int| 0 <= k < p ==> !record_le(rec, #[trigger] s[k]),
        p < s.len() ==> record_le(rec, s[p]),
    ensures
        insert_record(s, rec) == s.take(p) + seq![rec] + s.skip(p),
    decreases s.len(),
{
    if s.len() == 0 {
        assert(insert_record(s, rec) =~= s.take(p) + seq![rec] + s.skip(p));
    } else if record_le(rec, s[0]) {
        assert(p == 0);
        assert(insert_record(s, rec) =~= s.take(0) + seq![rec] + s.skip(0));
    } else {
        let t = s.drop_first();
        assert(p >= 1);
        assert forall|k: int| 0 <= k < p - 1 implies !record_le(rec, #[trigger] t[k]) by {
            assert(t[k] == s[k + 1]);
        }
        lemma_insert_record_at(t, rec, p - 1);
        assert(insert_record(s, rec) =~= s.take(p) + seq![rec] + s.skip(p));
    }
}

/// A snapshot that matches the live branches plans no change at all.
///
/// Law: when every recorded branch exists and already points at its
/// recorded commit, the restore plan is empty.
pub proof fn lemma_matching_snapshot_plans_nothing(
    recs: Seq<RecordS>,
    live: Seq<crate::git::BranchS>,
)
    requires
        forall|k: int| 0 <= k < recs.len() ==> lookup(live, (#[trigger] recs[k]).name) == Some(
            recs[k].id,
        ),
    ensures
        plan_s(recs, live).len() == 0,
    decreases recs.len(),
{
    if recs.len() > 0 {
        let rest = recs.drop_last();
        assert forall|k: int| 0 <= k < rest.len() implies lookup(
            live,
            (#[trigger] rest[k]).name,
        ) == Some(rest[k].id) by {
            assert(rest[k] == recs[k]);
        }
        lemma_matching_snapshot_plans_nothing(rest, live);
        assert(change_for(recs.last(), live) =~= Seq::<ChangeS>::empty());
    }
}

/// The first value stored under `key` in a metadata list.
pub open spec fn meta_get(md: Seq<MetaEntryS>, key: Seq<char>) -> Option<Seq<char>>
    decreases md.len(),
{
    if md.len() == 0 {
        None
    } else if md[0].key == key {
        Some(md[0].value)
    } else {
        meta_get(md.drop_first(), key)
    }
}

/// How a record shows up in a listing: `parent..name` when a parent
/// branch was recorded for it, the bare name otherwise.
pub open spec fn display_name_s(rec: RecordS) -> Seq<char> {
    match meta_get(rec.metadata, "parent"@) {
        Some(p) => p + ".."@ + rec.name,
        None => rec.name,
    }
}

impl Branch {
    /// The value this record stores under `key`, if any.
    pub fn metadata_value(&self, key: &str) -> (r: Option<&String>)
        ensures
            (match r {
                Some(v) => Some(v@),
                None => None,
            }) == meta_get(meta_view(self.metadata@), key@),
    {
        let ghost md = meta_view(self.metadata@);
        let mut i: usize = 0;
        proof {
            assert(md.skip(0) =~= md);
        }
        while i < self.metadata.len()
            invariant
                i <= self.metadata@.len(),
                md == meta_view(self.metadata@),
                meta_get(md, key@) == meta_get(md.skip(i as int), key@),
            decreases self.metadata@.len() - i,
        {
            proof {
                assert(md.skip(i as int)[0] == md[i as int]);
            }
            if str_eq(self.metadata[i].key.as_str(), key) {
                return Some(&self.metadata[i].value);
            }
            proof {
                assert(md.skip(i as int).drop_first() =~= md.skip(i + 1));
            }
            i = i + 1;
        }
        None
    }

    /// The name a listing shows for this record.
    pub fn display_name(&self) -> (r: String)
        ensures
            r@ == display_name_s(self@),
    {
        match self.metadata_value("parent") {
            Some(p) => {
                let mut out = p.clone();
                out.append("..");
                out.append(self.name.as_str());
                out
            },
            None => self.name.clone(),
        }
    }
}

/// First position of a branch named `name`, or `-1`.
pub open spec fn live_idx(live: Seq<crate::git::BranchS>, name: Seq<char>) -> int
    decreases live.len(),
{
    if live.len() == 0 {
        -1
    } else if live[0].name == name {
        0
    } else {
        let r = live_idx(live.drop_first(), name);
        if r < 0 {
            -1
        } else {
            1 + r
        }
    }
}

/// `live_idx` finds the first branch with the name, and `-1` means none.
pub proof fn lemma_live_idx(live: Seq<crate::git::BranchS>, name: Seq<char>)
    ensures
        live_idx(live, name) == -1 ==> forall|j: int|
            0 <= j < live.len() ==> (#[trigger] live[j]).name != name,
        live_idx(live, name) >= 0 ==> {
            &&& live_idx(live, name) < live.len()
            &&& live[live_idx(live, name)].name == name
            &&& forall|j: int| 0 <= j < live_idx(live, name) ==> (#[trigger] live[j]).name != name
        },
        lookup(live, name) == (if live_idx(live, name) >= 0 {
            Some(live[live_idx(live, name)].id)
        } else {
            None::<usize>
        }),
    decreases live.len(),
{
    if live.len() > 0 && live[0].name != name {
        let t = live.drop_first();
        lemma_live_idx(t, name);
        if live_idx(t, name) == -1 {
            assert forall|j: int| 0 <= j < live.len() implies (#[trigger] live[j]).name
                != name by {
                if j > 0 {
                    assert(live[j] == t[j - 1]);
                }
            }
        } else {
            assert(live[live_idx(live, name)] == t[live_idx(t, name)]);
            assert forall|j: int| 0 <= j < live_idx(live, name) implies (#[trigger] live[j]).name
                != name by {
                if j > 0 {
                    assert(live[j] == t[j - 1]);
                }
            }
        }
    }
}

/// One planned change applied to the branch list: retarget the named
/// branch, or create it at the end.
pub open spec fn apply_change(live: Seq<crate::git::BranchS>, c: ChangeS) -> Seq<
    crate::git::BranchS,
> {
    let i = live_idx(live, c.name);
    if i >= 0 {
        live.update(
            i,
            crate::git::BranchS {
                name: c.name,
                id: c.new_id,
                push_id: live[i].push_id,
                pull_id: live[i].pull_id,
            },
        )
    } else {
        live.push(
            crate::git::BranchS { name: c.name, id: c.new_id, push_id: None, pull_id: None },
        )
    }
}

/// A whole plan applied, change by change, from position `i` on.
pub open spec fn apply_plan(
    live: Seq<crate::git::BranchS>,
    plan: Seq<ChangeS>,
    i: int,
) -> Seq<crate::git::BranchS>
    decreases plan.len() - i,
{
    if i < 0 || i >= plan.len() {
        live
    } else {
        apply_plan(apply_change(live, plan[i]), plan, i + 1)
    }
}

/// Applying a plan one change longer applies that change last.
proof fn lemma_apply_plan_snoc(live: Seq<crate::git::BranchS>, plan: Seq<ChangeS>, c: ChangeS)
    ensures
        apply_plan(live, plan.push(c), 0) == apply_change(apply_plan(live, plan, 0), c),
    decreases plan.len(),
{
    lemma_apply_plan_snoc_from(live, plan, c, 0);
}

/// The induction behind `lemma_apply_plan_snoc`.
proof fn lemma_apply_plan_snoc_from(
    live: Seq<crate::git::BranchS>,
    plan: Seq<ChangeS>,
    c: ChangeS,
    i: int,
)
    requires
        0 <= i <= plan.len(),
    ensures
        apply_plan(live, plan.push(c), i) == apply_change(apply_plan(live, plan, i), c),
    decreases plan.len() - i,
{
    if i == plan.len() {
        assert(plan.push(c)[i] == c);
        assert(apply_plan(apply_change(live, c), plan.push(c), i + 1) == apply_change(live, c));
        assert(apply_plan(live, plan, i) == live);
    } else {
        assert(plan.push(c)[i] == plan[i]);
        lemma_apply_plan_snoc_from(apply_change(live, plan[i]), plan, c, i + 1);
    }
}

/// Branch names never repeat in the list.
pub open spec fn names_unique(live: Seq<crate::git::BranchS>) -> bool {
    forall|i: int, j: int|
        0 <= i < j < live.len() ==> (#[trigger] live[i]).name != (#[trigger] live[j]).name
}

/// Record names never repeat and come sorted, as capture writes them.
pub open spec fn recs_sorted_unique(recs: Seq<RecordS>) -> bool {
    forall|i: int, j: int|
        0 <= i < j < recs.len() ==> record_le(#[trigger] recs[i], #[trigger] recs[j])
            && recs[i].name != recs[j].name
}

/// What applying one change does to lookups: the changed name now
/// resolves to the new commit, any other name as before; names stay
/// unique, and only the change's name can be new.
proof fn lemma_apply_change_lookup(live: Seq<crate::git::BranchS>, c: ChangeS)
    requires
        names_unique(live),
    ensures
        lookup(apply_change(live, c), c.name) == Some(c.new_id),
        forall|x: Seq<char>| x != c.name ==> lookup(apply_change(live, c), x) == lookup(live, x),
        names_unique(apply_change(live, c)),
        forall|i: int| 0 <= i < apply_change(live, c).len() ==> ((#[trigger] apply_change(
            live,
            c,
        )[i]).name == c.name || (exists|j: int|
            0 <= j < live.len() && (#[trigger] live[j]).name == apply_change(live, c)[i].name)),
{
    let out = apply_change(live, c);
    lemma_live_idx(live, c.name);
    let i = live_idx(live, c.name);
    if i >= 0 {
        lemma_live_idx(out, c.name);
        lemma_idx_after_update(live, c, i);
    } else {
        lemma_live_idx(out, c.name);
        lemma_idx_after_push(live, c);
    }
    assert forall|x: Seq<char>| x != c.name implies lookup(out, x) == lookup(live, x) by {
        lemma_live_idx(live, x);
        lemma_live_idx(out, x);
        let k = live_idx(live, x);
        let k2 = live_idx(out, x);
        if k >= 0 && k2 >= 0 {
            if out[k2].name == x && live[k].name == x {
                if k != k2 {
                    if i >= 0 {
                        assert(out[k] == live[k] || k == i);
                        assert(live[k2] == out[k2] || k2 == i);
                        assert(live[k2].name == x);
                    } else {
                        if k2 < live.len() {
                            assert(live[k2].name == x);
                        } else {
                            assert(out[k2].name == c.name);
                        }
                    }
                }
            }
            assert(out[k2].id == live[k].id) by {
                if i >= 0 {
                    assert(k == k2);
                    assert(out[k2] == live[k] || k2 == i);
                    if k2 == i {
                        assert(out[i].name == c.name);
                    }
                } else {
                    assert(k == k2);
                    assert(out[k2] == live[k]);
                }
            }
        } else if k >= 0 {
            assert(out[if i >= 0 && k == i { k } else { k }].name == live[k].name || true);
            if i >= 0 {
                if k == i {
                    assert(live[i].name == c.name);
                } else {
                    assert(out[k] == live[k]);
                    assert(out[k].name == x);
                }
            } else {
                assert(out[k] == live[k]);
                assert(out[k].name == x);
            }
        } else if k2 >= 0 {
            if i >= 0 {
                if k2 == i {
                    assert(out[i].name == c.name);
                } else {
                    assert(live[k2] == out[k2]);
                    assert(live[k2].name == x);
                }
            } else {
                if k2 < live.len() {
                    assert(live[k2] == out[k2]);
                    assert(live[k2].name == x);
                } else {
                    assert(out[k2].name == c.name);
                }
            }
        }
    }
    assert(names_unique(out)) by {
        assert forall|a: int, b: int|
            0 <= a < b < out.len() implies (#[trigger] out[a]).name != (#[trigger] out[b]).name
             by {
            if i >= 0 {
                if a != i && b != i {
                    assert(out[a] == live[a]);
                    assert(out[b] == live[b]);
                } else if a == i {
                    assert(out[b] == live[b]);
                    assert(live[i].name == c.name);
                } else {
                    assert(out[a] == live[a]);
                    assert(live[i].name == c.name);
                }
            } else {
                if b < live.len() {
                    assert(out[a] == live[a]);
                    assert(out[b] == live[b]);
                } else {
                    assert(out[a] == live[a]);
                    assert(out[b].name == c.name);
                    if live[a].name == c.name {
                        lemma_live_idx(live, c.name);
                    }
                }
            }
        }
    }
    assert forall|k: int| 0 <= k < out.len() implies ((#[trigger] out[k]).name == c.name || (
    exists|j: int| 0 <= j < live.len() && (#[trigger] live[j]).name == out[k].name)) by {
        if i >= 0 {
            if k != i {
                assert(out[k] == live[k]);
            }
        } else {
            if k < live.len() {
                assert(out[k] == live[k]);
            }
        }
    }
}

/// Updating a branch keeps the first position of its name.
proof fn lemma_idx_after_update(live: Seq<crate::git::BranchS>, c: ChangeS, i: int)
    requires
        names_unique(live),
        0 <= i < live.len(),
        live[i].name == c.name,
        live_idx(live, c.name) == i,
    ensures
        lookup(apply_change(live, c), c.name) == Some(c.new_id),
{
    let out = apply_change(live, c);
    assert(out == live.update(
        i,
        crate::git::BranchS {
            name: c.name,
            id: c.new_id,
            push_id: live[i].push_id,
            pull_id: live[i].pull_id,
        },
    ));
    lemma_live_idx(out, c.name);
    let k = live_idx(out, c.name);
    if k == -1 {
        assert(out[i].name == c.name);
    }
    assert(k >= 0);
    if k != i {
        assert(out[k] == live[k]);
        assert(live[k].name == c.name);
        assert(live[i].name == c.name);
    }
    assert(k == i);
}

/// Pushing a new branch makes its name resolvable.
proof fn lemma_idx_after_push(live: Seq<crate::git::BranchS>, c: ChangeS)
    requires
        live_idx(live, c.name) == -1,
    ensures
        lookup(apply_change(live, c), c.name) == Some(c.new_id),
{
    let out = apply_change(live, c);
    lemma_live_idx(live, c.name);
    lemma_live_idx(out, c.name);
    let k = live_idx(out, c.name);
    if k == -1 {
        assert(out[live.len() as int].name == c.name);
    }
    assert(k >= 0);
    if k < live.len() {
        assert(out[k] == live[k]);
        assert(live[k].name == c.name);
    }
    assert(k == live.len());
}

/// Law (restore effect): after applying a snapshot's plan, every
/// recorded branch resolves to its recorded commit, any other name is
/// untouched, names stay unique, and no name appears that neither the
/// snapshot nor the repository had.
pub proof fn lemma_restore_reaches_snapshot(
    r: Seq<CommitRecordS>,
    recs: Seq<RecordS>,
    live: Seq<crate::git::BranchS>,
)
    requires
        names_unique(live),
        recs_sorted_unique(recs),
    ensures
        ({
            let fl = apply_plan(live, plan_s(recs, live), 0);
            &&& forall|k: int| 0 <= k < recs.len() ==> lookup(fl, (#[trigger] recs[k]).name)
                == Some(recs[k].id)
            &&& names_unique(fl)
            &&& forall|i: int| 0 <= i < fl.len() ==> ((exists|k: int|
                0 <= k < recs.len() && (#[trigger] recs[k]).name == (#[trigger] fl[i]).name) || (
            exists|j: int| 0 <= j < live.len() && (#[trigger] live[j]).name == fl[i].name))
        }),
    decreases recs.len(),
{
    let fl = apply_plan(live, plan_s(recs, live), 0);
    if recs.len() == 0 {
        assert(plan_s(recs, live).len() == 0);
        assert(fl == live);
    } else {
        let rest = recs.drop_last();
        let last = recs.last();
        assert(recs_sorted_unique(rest)) by {
            assert forall|i: int, j: int| 0 <= i < j < rest.len() implies record_le(
                #[trigger] rest[i],
                #[trigger] rest[j],
            ) && rest[i].name != rest[j].name by {
                assert(rest[i] == recs[i]);
                assert(rest[j] == recs[j]);
            }
        }
        lemma_restore_reaches_snapshot(r, rest, live);
        let fl0 = apply_plan(live, plan_s(rest, live), 0);
        let cf = change_for(last, live);
        assert(plan_s(recs, live) == plan_s(rest, live) + cf);
        if cf.len() == 0 {
            assert(plan_s(rest, live) + cf =~= plan_s(rest, live));
            assert(fl == fl0);
            // the branch already pointed at the recorded commit, and no
            // earlier change touched its name
            assert(lookup(live, last.name) == Some(last.id));
            assert(lookup(fl0, last.name) == lookup(live, last.name)) by {
                lemma_plan_preserves_other_names(live, rest, last.name);
            }
            assert forall|k: int| 0 <= k < recs.len() implies lookup(
                fl,
                (#[trigger] recs[k]).name,
            ) == Some(recs[k].id) by {
                if k < recs.len() - 1 {
                    assert(recs[k] == rest[k]);
                }
            }
        } else {
            let c = cf[0];
            assert(c.name == last.name && c.new_id == last.id);
            assert(plan_s(rest, live) + cf =~= plan_s(rest, live).push(c));
            lemma_apply_plan_snoc(live, plan_s(rest, live), c);
            assert(fl == apply_change(fl0, c));
            assert(names_unique(fl0));
            lemma_apply_change_lookup(fl0, c);
            assert forall|k: int| 0 <= k < recs.len() implies lookup(
                fl,
                (#[trigger] recs[k]).name,
            ) == Some(recs[k].id) by {
                if k < recs.len() - 1 {
                    assert(recs[k] == rest[k]);
                    assert(recs[k].name != last.name);
                    assert(lookup(fl0, recs[k].name) == Some(recs[k].id));
                } else {
                    assert(recs[k] == last);
                }
            }
            assert forall|i: int| 0 <= i < fl.len() implies ((exists|k: int|
                0 <= k < recs.len() && (#[trigger] recs[k]).name == (#[trigger] fl[i]).name) || (
            exists|j: int| 0 <= j < live.len() && (#[trigger] live[j]).name == fl[i].name)) by {
                if fl[i].name == c.name {
                    assert(recs[recs.len() - 1].name == fl[i].name);
                } else {
                    let w = choose|w: int| 0 <= w < fl0.len() && fl0[w].name == fl[i].name;
                    if exists|k: int|
                        0 <= k < rest.len() && (#[trigger] rest[k]).name == fl0[w].name {
                        let k = choose|k: int|
                            0 <= k < rest.len() && (#[trigger] rest[k]).name == fl0[w].name;
                        assert(recs[k].name == fl[i].name);
                    }
                }
            }
        }
    }
}

/// A plan built from records that never mention `x` leaves the lookup of
/// `x` alone.
proof fn lemma_plan_preserves_other_names(
    live: Seq<crate::git::BranchS>,
    recs: Seq<RecordS>,
    x: Seq<char>,
)
    requires
        names_unique(live),
        recs_sorted_unique(recs),
        forall|k: int| 0 <= k < recs.len() ==> (#[trigger] recs[k]).name != x,
    ensures
        lookup(apply_plan(live, plan_s(recs, live), 0), x) == lookup(live, x),
        names_unique(apply_plan(live, plan_s(recs, live), 0)),
    decreases recs.len(),
{
    if recs.len() > 0 {
        let rest = recs.drop_last();
        let last = recs.last();
        assert(recs_sorted_unique(rest)) by {
            assert forall|i: int, j: int| 0 <= i < j < rest.len() implies record_le(
                #[trigger] rest[i],
                #[trigger] rest[j],
            ) && rest[i].name != rest[j].name by {
                assert(rest[i] == recs[i]);
                assert(rest[j] == recs[j]);
            }
        }
        assert forall|k: int| 0 <= k < rest.len() implies (#[trigger] rest[k]).name != x by {
            assert(rest[k] == recs[k]);
        }
        lemma_plan_preserves_other_names(live, rest, x);
        let fl0 = apply_plan(live, plan_s(rest, live), 0);
        let cf = change_for(last, live);
        assert(plan_s(recs, live) == plan_s(rest, live) + cf);
        if cf.len() == 0 {
            assert(plan_s(rest, live) + cf =~= plan_s(rest, live));
        } else {
            let c = cf[0];
            assert(plan_s(rest, live) + cf =~= plan_s(rest, live).push(c));
            lemma_apply_plan_snoc(live, plan_s(rest, live), c);
            lemma_apply_change_lookup(fl0, c);
            assert(recs[recs.len() - 1].name != x);
        }
    }
}

/// The (name, id) pairs of a record list; metadata does not take part.
pub open spec fn rec_pairs(recs: Seq<RecordS>) -> Seq<(Seq<char>, usize)> {
    recs.map_values(|rec: RecordS| (rec.name, rec.id))
}

/// Records in nondecreasing (name, id) order.
pub open spec fn sorted_le(recs: Seq<RecordS>) -> bool {
    forall|i: int, j: int|
        0 <= i < j < recs.len() ==> record_le(#[trigger] recs[i], #[trigger] recs[j])
}

/// Record names never repeat.
pub open spec fn rec_names_unique(recs: Seq<RecordS>) -> bool {
    forall|i: int, j: int|
        0 <= i < j < recs.len() ==> (#[trigger] recs[i]).name != (#[trigger] recs[j]).name
}

/// The record order is total, and records equal both ways share name and
/// id.
proof fn lemma_record_le_total(a: RecordS, b: RecordS)
    ensures
        record_le(a, b) || record_le(b, a),
        record_le(a, b) && record_le(b, a) ==> a.name == b.name && a.id == b.id,
{
    crate::text::lemma_chars_le_total(a.name, b.name);
}

/// The record order is transitive.
proof fn lemma_record_le_trans(a: RecordS, b: RecordS, c: RecordS)
    requires
        record_le(a, b),
        record_le(b, c),
    ensures
        record_le(a, c),
{
    crate::text::lemma_chars_le_total(a.name, b.name);
    crate::text::lemma_chars_le_total(b.name, c.name);
    crate::text::lemma_chars_le_total(a.name, c.name);
    if a.name != b.name && b.name != c.name {
        crate::text::lemma_chars_le_trans(a.name, b.name, c.name);
    }
}

/// Inserting a record splices it in somewhere, moving nothing else.
proof fn lemma_insert_record_shape(s: Seq<RecordS>, x: RecordS)
    ensures
        exists|p: int|
            0 <= p <= s.len() && insert_record(s, x) == s.take(p) + seq![x] + s.skip(p),
    decreases s.len(),
{
    if s.len() == 0 {
        assert(insert_record(s, x) =~= s.take(0) + seq![x] + s.skip(0));
    } else if record_le(x, s[0]) {
        assert(insert_record(s, x) =~= s.take(0) + seq![x] + s.skip(0));
    } else {
        let t = s.drop_first();
        lemma_insert_record_shape(t, x);
        let p = choose|p: int|
            0 <= p <= t.len() && insert_record(t, x) == t.take(p) + seq![x] + t.skip(p);
        assert(insert_record(s, x) =~= s.take(p + 1) + seq![x] + s.skip(p + 1)) by {
            assert(insert_record(s, x) == seq![s[0]] + insert_record(t, x));
            assert(seq![s[0]] + (t.take(p) + seq![x] + t.skip(p)) =~= s.take(p + 1) + seq![x]
                + s.skip(p + 1));
        }
    }
}

/// Inserting into a sorted list keeps it sorted.
proof fn lemma_insert_record_sorted(s: Seq<RecordS>, x: RecordS)
    requires
        sorted_le(s),
    ensures
        sorted_le(insert_record(s, x)),
    decreases s.len(),
{
    let out = insert_record(s, x);
    if s.len() == 0 {
    } else if record_le(x, s[0]) {
        assert(out =~= seq![x] + s);
        assert forall|i: int, j: int| 0 <= i < j < out.len() implies record_le(
            #[trigger] out[i],
            #[trigger] out[j],
        ) by {
            if i == 0 {
                assert(out[j] == s[j - 1]);
                if j > 1 {
                    lemma_record_le_trans(x, s[0], s[j - 1]);
                } else {
                    assert(s[j - 1] == s[0]);
                }
            } else {
                assert(out[i] == s[i - 1]);
                assert(out[j] == s[j - 1]);
            }
        }
    } else {
        let t = s.drop_first();
        assert(sorted_le(t)) by {
            assert forall|i: int, j: int| 0 <= i < j < t.len() implies record_le(
                #[trigger] t[i],
                #[trigger] t[j],
            ) by {
                assert(t[i] == s[i + 1]);
                assert(t[j] == s[j + 1]);
            }
        }
        lemma_insert_record_sorted(t, x);
        lemma_record_le_total(x, s[0]);
        assert(record_le(s[0], x));
        assert(out =~= seq![s[0]] + insert_record(t, x));
        lemma_insert_record_shape(t, x);
        let p = choose|p: int|
            0 <= p <= t.len() && insert_record(t, x) == t.take(p) + seq![x] + t.skip(p);
        assert forall|i: int, j: int| 0 <= i < j < out.len() implies record_le(
            #[trigger] out[i],
            #[trigger] out[j],
        ) by {
            if i > 0 {
                assert(out[i] == insert_record(t, x)[i - 1]);
                assert(out[j] == insert_record(t, x)[j - 1]);
            } else {
                assert(out[j] == insert_record(t, x)[j - 1]);
                // the tail element is either the new record or one of the
                // old ones, and the old head precedes both
                if j - 1 < p {
                    assert(insert_record(t, x)[j - 1] == t[j - 1]);
                    assert(record_le(s[0], s[j]));
                } else if j - 1 == p {
                    assert(insert_record(t, x)[j - 1] == x);
                } else {
                    assert(insert_record(t, x)[j - 1] == t[j - 2]);
                    assert(record_le(s[0], s[j - 1]));
                }
            }
        }
    }
}

/// Sorting keeps the records: same count, same members, sorted order,
/// and distinct names stay distinct.
proof fn lemma_sort_records_props(recs: Seq<RecordS>)
    ensures
        sort_records(recs).len() == recs.len(),
        sorted_le(sort_records(recs)),
        forall|rec: RecordS| sort_records(recs).contains(rec) <==> recs.contains(rec),
        rec_names_unique(recs) ==> rec_names_unique(sort_records(recs)),
        forall|n: Seq<char>| name_in(sort_records(recs), n) <==> name_in(recs, n),
    decreases recs.len(),
{
    let out = sort_records(recs);
    if recs.len() > 0 {
        let rest = recs.drop_last();
        let last = recs.last();
        lemma_sort_records_props(rest);
        let sr = sort_records(rest);
        lemma_insert_record_sorted(sr, last);
        lemma_insert_record_shape(sr, last);
        let p = choose|p: int|
            0 <= p <= sr.len() && insert_record(sr, last) == sr.take(p) + seq![last] + sr.skip(p);
        assert(out.len() == recs.len());
        assert forall|rec: RecordS| out.contains(rec) <==> recs.contains(rec) by {
            lemma_splice_contains(sr, last, p, rec);
            if sr.contains(rec) || rec == last {
                if sr.contains(rec) {
                    assert(rest.contains(rec));
                    let w = choose|w: int| 0 <= w < rest.len() && rest[w] == rec;
                    assert(recs[w] == rec);
                } else {
                    assert(recs[recs.len() - 1] == rec);
                }
            }
            if recs.contains(rec) {
                let w = choose|w: int| 0 <= w < recs.len() && recs[w] == rec;
                if w < recs.len() - 1 {
                    assert(rest[w] == rec);
                    assert(rest.contains(rec));
                }
            }
        }
        assert forall|n: Seq<char>| name_in(out, n) <==> name_in(recs, n) by {
            if name_in(out, n) {
                let w = choose|w: int| 0 <= w < out.len() && out[w].name == n;
                assert(out.contains(out[w]));
                assert(recs.contains(out[w]));
                let v = choose|v: int| 0 <= v < recs.len() && recs[v] == out[w];
            }
            if name_in(recs, n) {
                let w = choose|w: int| 0 <= w < recs.len() && recs[w].name == n;
                assert(recs.contains(recs[w]));
                assert(out.contains(recs[w]));
                let v = choose|v: int| 0 <= v < out.len() && out[v] == recs[w];
            }
        }
        if rec_names_unique(recs) {
            assert(rec_names_unique(rest)) by {
                assert forall|i: int, j: int| 0 <= i < j < rest.len() implies (
                #[trigger] rest[i]).name != (#[trigger] rest[j]).name by {
                    assert(rest[i] == recs[i]);
                    assert(rest[j] == recs[j]);
                }
            }
            assert(rec_names_unique(out)) by {
                assert forall|i: int, j: int| 0 <= i < j < out.len() implies (
                #[trigger] out[i]).name != (#[trigger] out[j]).name by {
                    let oi = splice_src(sr, p, i);
                    let oj = splice_src(sr, p, j);
                    assert(out[i] == (if i < p {
                        sr[i]
                    } else if i == p {
                        last
                    } else {
                        sr[i - 1]
                    }));
                    assert(out[j] == (if j < p {
                        sr[j]
                    } else if j == p {
                        last
                    } else {
                        sr[j - 1]
                    }));
                    if i != p && j != p {
                        assert(oi != oj);
                        assert(sr[oi].name != sr[oj].name);
                    } else {
                        // one of them is the newly inserted record, whose
                        // name no other record of the rest has
                        let other = if i == p {
                            oj
                        } else {
                            oi
                        };
                        assert(sr.contains(sr[other]));
                        assert(rest.contains(sr[other]));
                        let v = choose|v: int| 0 <= v < rest.len() && rest[v] == sr[other];
                        assert(recs[v] == sr[other]);
                        assert(recs[recs.len() - 1].name != recs[v].name);
                    }
                }
            }
        }
    }
}

/// Where a spliced element came from.
spec fn splice_src(sr: Seq<RecordS>, p: int, i: int) -> int {
    if i < p {
        i
    } else {
        i - 1
    }
}

/// Membership across a splice.
proof fn lemma_splice_contains(sr: Seq<RecordS>, x: RecordS, p: int, rec: RecordS)
    requires
        0 <= p <= sr.len(),
    ensures
        (sr.take(p) + seq![x] + sr.skip(p)).contains(rec) <==> (rec == x || sr.contains(rec)),
{
    let out = sr.take(p) + seq![x] + sr.skip(p);
    if out.contains(rec) {
        let w = choose|w: int| 0 <= w < out.len() && out[w] == rec;
        if w < p {
            assert(sr[w] == rec);
        } else if w > p {
            assert(sr[w - 1] == rec);
        }
    }
    if rec == x {
        assert(out[p] == rec);
    }
    if sr.contains(rec) {
        let w = choose|w: int| 0 <= w < sr.len() && sr[w] == rec;
        if w < p {
            assert(out[w] == rec);
        } else {
            assert(out[w + 1] == rec);
        }
    }
}

/// Whether some record carries the name.
pub open spec fn name_in(recs: Seq<RecordS>, n: Seq<char>) -> bool {
    exists|k: int| 0 <= k < recs.len() && (#[trigger] recs[k]).name == n
}

/// Two sorted record lists with distinct names and the same (name, id)
/// members have the same (name, id) pairs throughout.
proof fn lemma_sorted_unique_pairs_equal(xs: Seq<RecordS>, ys: Seq<RecordS>)
    requires
        sorted_le(xs),
        sorted_le(ys),
        rec_names_unique(xs),
        rec_names_unique(ys),
        forall|n: Seq<char>, i: usize| pair_in(xs, n, i) <==> pair_in(ys, n, i),
    ensures
        rec_pairs(xs) == rec_pairs(ys),
    decreases xs.len(),
{
    if xs.len() == 0 {
        if ys.len() > 0 {
            assert(pair_in(ys, ys[0].name, ys[0].id));
            assert(pair_in(xs, ys[0].name, ys[0].id));
            let w = choose|w: int|
                0 <= w < xs.len() && (#[trigger] xs[w]).name == ys[0].name && xs[w].id == ys[0].id;
            assert(false);
        }
        assert(rec_pairs(xs) =~= rec_pairs(ys));
    } else {
        assert(pair_in(xs, xs[0].name, xs[0].id));
        assert(pair_in(ys, xs[0].name, xs[0].id));
        if ys.len() == 0 {
            let w = choose|w: int|
                0 <= w < ys.len() && (#[trigger] ys[w]).name == xs[0].name && ys[w].id == xs[0].id;
            assert(false);
        }
        // the two heads carry the same least (name, id)
        let k2 = choose|k: int|
            0 <= k < ys.len() && (#[trigger] ys[k]).name == xs[0].name && ys[k].id == xs[0].id;
        assert(pair_in(ys, ys[0].name, ys[0].id));
        assert(pair_in(xs, ys[0].name, ys[0].id));
        let k1 = choose|k: int|
            0 <= k < xs.len() && (#[trigger] xs[k]).name == ys[0].name && xs[k].id == ys[0].id;
        assert(record_le(ys[0], ys[k2]) || k2 == 0);
        assert(record_le(xs[0], xs[k1]) || k1 == 0);
        assert(record_le(ys[0], xs[0])) by {
            if k2 != 0 {
                assert(record_le(ys[0], ys[k2]));
            }
        }
        assert(record_le(xs[0], ys[0])) by {
            if k1 != 0 {
                assert(record_le(xs[0], xs[k1]));
            }
        }
        lemma_record_le_total(xs[0], ys[0]);
        assert(xs[0].name == ys[0].name && xs[0].id == ys[0].id);
        let t1 = xs.drop_first();
        let t2 = ys.drop_first();
        assert(sorted_le(t1) && rec_names_unique(t1)) by {
            assert forall|i: int, j: int| 0 <= i < j < t1.len() implies record_le(
                #[trigger] t1[i],
                #[trigger] t1[j],
            ) && t1[i].name != t1[j].name by {
                assert(t1[i] == xs[i + 1]);
                assert(t1[j] == xs[j + 1]);
            }
        }
        assert(sorted_le(t2) && rec_names_unique(t2)) by {
            assert forall|i: int, j: int| 0 <= i < j < t2.len() implies record_le(
                #[trigger] t2[i],
                #[trigger] t2[j],
            ) && t2[i].name != t2[j].name by {
                assert(t2[i] == ys[i + 1]);
                assert(t2[j] == ys[j + 1]);
            }
        }
        assert forall|n: Seq<char>, i: usize| pair_in(t1, n, i) <==> pair_in(t2, n, i) by {
            lemma_pair_in_tail(xs, n, i);
            lemma_pair_in_tail(ys, n, i);
        }
        lemma_sorted_unique_pairs_equal(t1, t2);
        assert(rec_pairs(t1).len() == rec_pairs(t2).len());
        assert(xs.len() == ys.len());
        assert(rec_pairs(xs) =~= rec_pairs(ys)) by {
            assert forall|k: int| 0 <= k < xs.len() implies rec_pairs(xs)[k] == rec_pairs(
                ys,
            )[k] by {
                assert(rec_pairs(xs)[k] == (xs[k].name, xs[k].id));
                assert(rec_pairs(ys)[k] == (ys[k].name, ys[k].id));
                if k > 0 {
                    assert(rec_pairs(t1)[k - 1] == rec_pairs(t2)[k - 1]);
                    assert(rec_pairs(t1)[k - 1] == (t1[k - 1].name, t1[k - 1].id));
                    assert(rec_pairs(t2)[k - 1] == (t2[k - 1].name, t2[k - 1].id));
                    assert(t1[k - 1] == xs[k]);
                    assert(t2[k - 1] == ys[k]);
                }
            }
        }
    }
}

/// Whether some record carries the pair.
pub open spec fn pair_in(recs: Seq<RecordS>, n: Seq<char>, i: usize) -> bool {
    exists|k: int| 0 <= k < recs.len() && (#[trigger] recs[k]).name == n && recs[k].id == i
}

/// With distinct names, a pair lives in the tail exactly when it lives in
/// the list and is not the head's.
proof fn lemma_pair_in_tail(p: Seq<RecordS>, n: Seq<char>, i: usize)
    requires
        p.len() > 0,
        rec_names_unique(p),
    ensures
        pair_in(p.drop_first(), n, i) <==> (pair_in(p, n, i) && n != p[0].name),
{
    let t = p.drop_first();
    if pair_in(t, n, i) {
        let w = choose|w: int| 0 <= w < t.len() && (#[trigger] t[w]).name == n && t[w].id == i;
        assert(p[w + 1].name == n && p[w + 1].id == i);
        assert(p[0].name != p[w + 1].name);
    }
    if pair_in(p, n, i) && n != p[0].name {
        let w = choose|w: int| 0 <= w < p.len() && (#[trigger] p[w]).name == n && p[w].id == i;
        assert(w > 0);
        assert(t[w - 1].name == n && t[w - 1].id == i);
    }
}

/// Law (restore-then-capture round trip): applying a snapshot's plan and
/// then capturing anew yields records with exactly the snapshot's
/// (name, id) pairs; metadata may differ.  It asks that the snapshot's
/// records be in capture form (sorted, one per name) and that every live
/// branch be recorded in the snapshot, since restore deletes nothing.
pub proof fn lemma_restore_then_capture_round_trip(
    r: Seq<CommitRecordS>,
    recs: Seq<RecordS>,
    live: Seq<crate::git::BranchS>,
)
    requires
        names_unique(live),
        recs_sorted_unique(recs),
        forall|j: int| 0 <= j < live.len() ==> name_in(recs, (#[trigger] live[j]).name),
    ensures
        rec_pairs(from_repo_s(r, apply_plan(live, plan_s(recs, live), 0))) == rec_pairs(recs),
{
    let fl = apply_plan(live, plan_s(recs, live), 0);
    lemma_restore_reaches_snapshot(r, recs, live);
    let mapped = fl.map_values(|b: crate::git::BranchS| record_of(r, b));
    lemma_sort_records_props(mapped);
    let sorted = sort_records(mapped);
    assert(rec_names_unique(mapped)) by {
        assert forall|i: int, j: int| 0 <= i < j < mapped.len() implies (
        #[trigger] mapped[i]).name != (#[trigger] mapped[j]).name by {
            assert(mapped[i].name == fl[i].name);
            assert(mapped[j].name == fl[j].name);
        }
    }
    assert(sorted_le(recs) && rec_names_unique(recs)) by {
        assert forall|i: int, j: int| 0 <= i < j < recs.len() implies record_le(
            #[trigger] recs[i],
            #[trigger] recs[j],
        ) && recs[i].name != recs[j].name by {}
    }
    assert forall|n: Seq<char>, i: usize| pair_in(sorted, n, i) <==> pair_in(recs, n, i) by {
        // a pair of the capture is a branch of the final state; with
        // names unique that is the same as what lookup answers, and the
        // restore left exactly the recorded answers
        if pair_in(sorted, n, i) {
            let w = choose|w: int|
                0 <= w < sorted.len() && (#[trigger] sorted[w]).name == n && sorted[w].id == i;
            assert(sorted.contains(sorted[w]));
            assert(mapped.contains(sorted[w]));
            let v = choose|v: int| 0 <= v < mapped.len() && mapped[v] == sorted[w];
            assert(fl[v].name == n && fl[v].id == i);
            assert(name_in(recs, n)) by {
                if exists|k: int| 0 <= k < recs.len() && (#[trigger] recs[k]).name == fl[v].name {
                } else {
                    let j = choose|j: int|
                        0 <= j < live.len() && (#[trigger] live[j]).name == fl[v].name;
                    assert(name_in(recs, live[j].name));
                }
            }
            let k = choose|k: int| 0 <= k < recs.len() && (#[trigger] recs[k]).name == n;
            assert(lookup(fl, n) == Some(recs[k].id));
            lemma_live_idx(fl, n);
            let fi = live_idx(fl, n);
            assert(fi >= 0) by {
                if fi == -1 {
                    assert(fl[v].name != n);
                }
            }
            assert(fi == v) by {
                if fi != v {
                    assert(fl[fi].name == n);
                    assert(fl[v].name == n);
                }
            }
            assert(recs[k].id == i);
        }
        if pair_in(recs, n, i) {
            let k = choose|k: int|
                0 <= k < recs.len() && (#[trigger] recs[k]).name == n && recs[k].id == i;
            assert(lookup(fl, n) == Some(i));
            lemma_live_idx(fl, n);
            let fi = live_idx(fl, n);
            assert(fi >= 0);
            assert(mapped[fi].name == n && mapped[fi].id == i);
            assert(mapped.contains(mapped[fi]));
            assert(sorted.contains(mapped[fi]));
            let w = choose|w: int| 0 <= w < sorted.len() && sorted[w] == mapped[fi];
            assert(pair_in(sorted, n, i));
        }
    }
    lemma_sorted_unique_pairs_equal(sorted, recs);
}

} // verus!
