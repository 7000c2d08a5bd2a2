use git_branch_stash::git::Branch as LiveBranch;
use git_branch_stash::git::Repo;
use git_branch_stash::snapshot::restore_steps;
use git_branch_stash::snapshot::RefStep;
use git_branch_stash::snapshot::Snapshot;

fn live(name: &str, id: usize) -> LiveBranch {
    LiveBranch { name: name.to_owned(), id, push_id: None, pull_id: None }
}

fn meta(rec: &git_branch_stash::snapshot::Branch, key: &str) -> Option<String> {
    rec.metadata_value(key).cloned()
}

#[test]
fn capture_sorts_by_name_then_id() {
    let mut repo = Repo::new();
    let a = repo.add_commit(None, 0, b"first".to_vec(), 0);
    let b = repo.add_commit(Some(a), 1, b"second".to_vec(), 1);
    let branches = vec![live("zeta", b), live("alpha", a), live("beta", b)];
    let snap = Snapshot::from_repo(&repo, &branches);
    let names: Vec<&str> = snap.branches.iter().map(|r| r.name.as_str()).collect();
    assert_eq!(names, vec!["alpha", "beta", "zeta"]);
    assert_eq!(snap.branches[0].id, a);
    assert_eq!(snap.branches[1].id, b);
    assert!(snap.metadata.is_empty());
}

#[test]
fn capture_records_summaries() {
    let mut repo = Repo::new();
    let a = repo.add_commit(None, 0, b"fix the bug".to_vec(), 0);
    let snap = Snapshot::from_repo(&repo, &vec![live("main", a)]);
    assert_eq!(meta(&snap.branches[0], "summary"), Some("fix the bug".to_owned()));
}

#[test]
fn capture_replaces_invalid_text_in_summaries() {
    let mut repo = Repo::new();
    let a = repo.add_commit(None, 0, vec![0xff, 0xfe], 0);
    let snap = Snapshot::from_repo(&repo, &vec![live("main", a)]);
    assert_eq!(meta(&snap.branches[0], "summary"), Some("\u{fffd}\u{fffd}".to_owned()));
}

#[test]
fn matching_state_plans_zero_changes() {
    let mut repo = Repo::new();
    let a = repo.add_commit(None, 0, b"a".to_vec(), 0);
    let b = repo.add_commit(Some(a), 1, b"b".to_vec(), 1);
    let branches = vec![live("main", a), live("feature", b)];
    let snap = Snapshot::from_repo(&repo, &branches);
    let plan = snap.plan_changes(&branches);
    assert!(plan.is_empty());
}

#[test]
fn moved_branch_plans_a_retarget() {
    let mut repo = Repo::new();
    let a = repo.add_commit(None, 0, b"a".to_vec(), 0);
    let b = repo.add_commit(Some(a), 1, b"b".to_vec(), 1);
    let snap = Snapshot::from_repo(&repo, &vec![live("main", b)]);
    let plan = snap.plan_changes(&vec![live("main", a)]);
    assert_eq!(plan.len(), 1);
    assert_eq!(plan[0].name, "main");
    assert_eq!(plan[0].old_id, Some(a));
    assert_eq!(plan[0].new_id, b);
}

#[test]
fn missing_branch_plans_a_creation() {
    // the snapshot references a branch not present locally
    let mut repo = Repo::new();
    let a = repo.add_commit(None, 0, b"a".to_vec(), 0);
    let b = repo.add_commit(Some(a), 1, b"b".to_vec(), 1);
    let snap = Snapshot::from_repo(&repo, &vec![live("main", a), live("feature", b)]);
    let plan = snap.plan_changes(&vec![live("main", a)]);
    assert_eq!(plan.len(), 1);
    assert_eq!(plan[0].name, "feature");
    assert_eq!(plan[0].old_id, None);
    assert_eq!(plan[0].new_id, b);
}

#[test]
fn restoring_the_checked_out_branch_detaches_first() {
    // old_id = A, new_id = B, name = "main", with main checked out
    let mut repo = Repo::new();
    let a = repo.add_commit(None, 0, b"a".to_vec(), 0);
    let b = repo.add_commit(Some(a), 1, b"b".to_vec(), 1);
    let snap = Snapshot::from_repo(&repo, &vec![live("main", b)]);
    let plan = snap.plan_changes(&vec![live("main", a)]);
    let steps = restore_steps(&plan, &Some("main".to_owned()));
    assert_eq!(steps.len(), 3);
    assert_eq!(steps[0], RefStep::Detach);
    assert_eq!(steps[1], RefStep::SetBranch { name: "main".to_owned(), id: b });
    assert_eq!(steps[2], RefStep::SwitchTo { name: "main".to_owned() });
}

#[test]
fn restoring_other_branches_leaves_the_head_alone() {
    let mut repo = Repo::new();
    let a = repo.add_commit(None, 0, b"a".to_vec(), 0);
    let b = repo.add_commit(Some(a), 1, b"b".to_vec(), 1);
    let snap = Snapshot::from_repo(&repo, &vec![live("feature", b)]);
    let plan = snap.plan_changes(&vec![live("feature", a)]);
    let steps = restore_steps(&plan, &Some("main".to_owned()));
    assert_eq!(steps, vec![RefStep::SetBranch { name: "feature".to_owned(), id: b }]);
    let steps = restore_steps(&plan, &None);
    assert_eq!(steps, vec![RefStep::SetBranch { name: "feature".to_owned(), id: b }]);
}

#[test]
fn restore_then_capture_round_trips() {
    // apply a snapshot's plan to the live branches, then capture again:
    // the (name, id) pairs come back identical
    let mut repo = Repo::new();
    let a = repo.add_commit(None, 0, b"a".to_vec(), 0);
    let b = repo.add_commit(Some(a), 1, b"b".to_vec(), 1);
    let c = repo.add_commit(Some(b), 2, b"c".to_vec(), 2);
    let recorded = vec![live("feature", c), live("main", a), live("new-work", b)];
    let snap = Snapshot::from_repo(&repo, &recorded);

    // the live repository has drifted: feature moved, new-work is gone
    let mut current = vec![live("main", a), live("feature", b)];
    let plan = snap.plan_changes(&current);
    for change in plan.iter() {
        match current.iter_mut().find(|l| l.name == change.name) {
            Some(l) => l.id = change.new_id,
            None => current.push(live(&change.name, change.new_id)),
        }
    }
    let recaptured = Snapshot::from_repo(&repo, &current);
    let before: Vec<(String, usize)> =
        snap.branches.iter().map(|r| (r.name.clone(), r.id)).collect();
    let after: Vec<(String, usize)> =
        recaptured.branches.iter().map(|r| (r.name.clone(), r.id)).collect();
    assert_eq!(before, after);
}

#[test]
fn insert_message_sets_and_replaces() {
    let repo = Repo::new();
    let mut snap = Snapshot::from_repo(&repo, &Vec::new());
    snap.insert_message("first");
    assert_eq!(snap.metadata.len(), 1);
    assert_eq!(snap.metadata[0].key, "message");
    assert_eq!(snap.metadata[0].value, "first");
    snap.insert_message("second");
    assert_eq!(snap.metadata.len(), 1);
    assert_eq!(snap.metadata[0].value, "second");
}

#[test]
fn display_name_uses_the_recorded_parent() {
    let mut repo = Repo::new();
    let a = repo.add_commit(None, 0, b"a".to_vec(), 0);
    let snap = Snapshot::from_repo(&repo, &vec![live("feature", a)]);
    let mut rec = snap.branches.into_iter().next().unwrap();
    assert_eq!(rec.display_name(), "feature");
    rec.metadata.push(git_branch_stash::snapshot::MetaEntry {
        key: "parent".to_owned(),
        value: "main".to_owned(),
    });
    assert_eq!(rec.display_name(), "main..feature");
}
