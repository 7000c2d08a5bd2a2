use git_branch_stash::git::Branch;
use git_branch_stash::git::Branches;
use git_branch_stash::git::Repo;
use git_branch_stash::graph::node::GraphError;
use git_branch_stash::graph::node::Node;

fn branch(name: &str, id: usize) -> Branch {
    Branch { name: name.to_owned(), id, push_id: None, pull_id: None }
}

fn collect_names(node: &Node, out: &mut Vec<String>) {
    for b in node.branches.iter() {
        out.push(b.name.clone());
    }
    for stack in node.stacks.iter() {
        for n in stack.iter() {
            collect_names(n, out);
        }
    }
}

fn collect_ids(node: &Node, out: &mut Vec<usize>) {
    out.push(node.local_commit.id);
    for stack in node.stacks.iter() {
        for n in stack.iter() {
            collect_ids(n, out);
        }
    }
}

#[test]
fn linear_feature_over_main() {
    // main at A, feature at B, where B's parent is A
    let mut repo = Repo::new();
    let a = repo.add_commit(None, 0, b"base".to_vec(), 0);
    let b = repo.add_commit(Some(a), 1, b"work".to_vec(), 1);
    let branches = Branches::from_list(vec![branch("main", a), branch("feature", b)]);
    let tree = Node::from_branches(&repo, branches).unwrap();
    assert_eq!(tree.local_commit.id, a);
    assert_eq!(tree.branches.len(), 1);
    assert_eq!(tree.branches[0].name, "main");
    assert_eq!(tree.stacks.len(), 1);
    assert_eq!(tree.stacks[0].len(), 1);
    let child = &tree.stacks[0][0];
    assert_eq!(child.local_commit.id, b);
    assert_eq!(child.branches.len(), 1);
    assert_eq!(child.branches[0].name, "feature");
    assert!(child.stacks.is_empty());
}

#[test]
fn two_siblings_diverge_from_main() {
    // feature-1 at B1 and feature-2 at B2, both branched from main at A
    let mut repo = Repo::new();
    let a = repo.add_commit(None, 0, b"base".to_vec(), 0);
    let b1 = repo.add_commit(Some(a), 1, b"one".to_vec(), 1);
    let b2 = repo.add_commit(Some(a), 2, b"two".to_vec(), 2);
    let branches = Branches::from_list(vec![
        branch("main", a),
        branch("feature-1", b1),
        branch("feature-2", b2),
    ]);
    let tree = Node::from_branches(&repo, branches).unwrap();
    assert_eq!(tree.local_commit.id, a);
    assert_eq!(tree.branches.len(), 1);
    assert_eq!(tree.branches[0].name, "main");
    assert_eq!(tree.stacks.len(), 2);
    assert_eq!(tree.stacks[0].len(), 1);
    assert_eq!(tree.stacks[0][0].local_commit.id, b1);
    assert_eq!(tree.stacks[0][0].branches[0].name, "feature-1");
    assert_eq!(tree.stacks[1].len(), 1);
    assert_eq!(tree.stacks[1][0].local_commit.id, b2);
    assert_eq!(tree.stacks[1][0].branches[0].name, "feature-2");
}

#[test]
fn building_twice_gives_equal_trees() {
    let mut repo = Repo::new();
    let a = repo.add_commit(None, 0, b"base".to_vec(), 0);
    let b = repo.add_commit(Some(a), 1, b"mid".to_vec(), 1);
    let c = repo.add_commit(Some(b), 2, b"tip".to_vec(), 2);
    let list = vec![branch("main", a), branch("dev", b), branch("feature", c)];
    let again = list.iter().map(|x| branch(&x.name, x.id)).collect::<Vec<_>>();
    let t1 = Node::from_branches(&repo, Branches::from_list(list)).unwrap();
    let t2 = Node::from_branches(&repo, Branches::from_list(again)).unwrap();
    assert_eq!(t1, t2);
}

#[test]
fn every_branch_is_placed_exactly_once() {
    let mut repo = Repo::new();
    let a = repo.add_commit(None, 0, b"a".to_vec(), 0);
    let b = repo.add_commit(Some(a), 1, b"b".to_vec(), 1);
    let c1 = repo.add_commit(Some(b), 2, b"c1".to_vec(), 2);
    let c2 = repo.add_commit(Some(b), 3, b"c2".to_vec(), 3);
    let branches = Branches::from_list(vec![
        branch("main", a),
        branch("extra", a),
        branch("feature-1", c1),
        branch("feature-2", c2),
    ]);
    let tree = Node::from_branches(&repo, branches).unwrap();
    let mut names = Vec::new();
    collect_names(&tree, &mut names);
    names.sort();
    assert_eq!(names, vec!["extra", "feature-1", "feature-2", "main"]);
}

#[test]
fn no_commit_appears_in_two_nodes() {
    let mut repo = Repo::new();
    let a = repo.add_commit(None, 0, b"a".to_vec(), 0);
    let b = repo.add_commit(Some(a), 1, b"b".to_vec(), 1);
    let c1 = repo.add_commit(Some(b), 2, b"c1".to_vec(), 2);
    let c2 = repo.add_commit(Some(b), 3, b"c2".to_vec(), 3);
    let branches = Branches::from_list(vec![
        branch("main", a),
        branch("feature-1", c1),
        branch("feature-2", c2),
    ]);
    let tree = Node::from_branches(&repo, branches).unwrap();
    let mut ids = Vec::new();
    collect_ids(&tree, &mut ids);
    let mut deduped = ids.clone();
    deduped.sort();
    deduped.dedup();
    assert_eq!(ids.len(), deduped.len());
}

#[test]
fn shared_prefix_becomes_one_run() {
    // feature tips C1 and C2 both continue B, which continues A (main)
    let mut repo = Repo::new();
    let a = repo.add_commit(None, 0, b"a".to_vec(), 0);
    let b = repo.add_commit(Some(a), 1, b"b".to_vec(), 1);
    let c1 = repo.add_commit(Some(b), 2, b"c1".to_vec(), 2);
    let c2 = repo.add_commit(Some(b), 3, b"c2".to_vec(), 3);
    let branches = Branches::from_list(vec![
        branch("main", a),
        branch("feature-1", c1),
        branch("feature-2", c2),
    ]);
    let tree = Node::from_branches(&repo, branches).unwrap();
    assert_eq!(tree.local_commit.id, a);
    assert_eq!(tree.stacks.len(), 1);
    let run = &tree.stacks[0];
    assert_eq!(run.len(), 1);
    assert_eq!(run[0].local_commit.id, b);
    assert!(run[0].branches.is_empty());
    assert_eq!(run[0].stacks.len(), 2);
    assert_eq!(run[0].stacks[0][0].local_commit.id, c1);
    assert_eq!(run[0].stacks[1][0].local_commit.id, c2);
}

#[test]
fn disjoint_histories_are_an_error() {
    let mut repo = Repo::new();
    let a = repo.add_commit(None, 0, b"a".to_vec(), 0);
    let x = repo.add_commit(None, 1, b"x".to_vec(), 1);
    let branches = Branches::from_list(vec![branch("main", a), branch("orphan", x)]);
    let err = Node::from_branches(&repo, branches).unwrap_err();
    assert_eq!(err, GraphError::NoMergeBase);
}

#[test]
fn empty_index_is_an_error() {
    let repo = Repo::new();
    let err = Node::from_branches(&repo, Branches::new()).unwrap_err();
    assert_eq!(err, GraphError::EmptyBranches);
}

#[test]
fn extend_adds_later_branches() {
    let mut repo = Repo::new();
    let a = repo.add_commit(None, 0, b"a".to_vec(), 0);
    let b = repo.add_commit(Some(a), 1, b"b".to_vec(), 1);
    let tree = Node::from_branches(&repo, Branches::from_list(vec![branch("main", a)])).unwrap();
    let tree = tree.extend(&repo, Branches::from_list(vec![branch("feature", b)])).unwrap();
    let mut names = Vec::new();
    collect_names(&tree, &mut names);
    names.sort();
    assert_eq!(names, vec!["feature", "main"]);
    assert_eq!(tree.local_commit.id, a);
    assert_eq!(tree.stacks.len(), 1);
    assert_eq!(tree.stacks[0][0].local_commit.id, b);
}

#[test]
fn ancestor_waypoints_carry_no_branches() {
    // main at A, feature at C, with B in between carrying no branch
    let mut repo = Repo::new();
    let a = repo.add_commit(None, 0, b"a".to_vec(), 0);
    let b = repo.add_commit(Some(a), 1, b"b".to_vec(), 1);
    let c = repo.add_commit(Some(b), 2, b"c".to_vec(), 2);
    let branches = Branches::from_list(vec![branch("main", a), branch("feature", c)]);
    let tree = Node::from_branches(&repo, branches).unwrap();
    assert_eq!(tree.stacks.len(), 1);
    let run = &tree.stacks[0];
    assert_eq!(run.len(), 2);
    assert_eq!(run[0].local_commit.id, b);
    assert!(run[0].branches.is_empty());
    assert_eq!(run[1].local_commit.id, c);
    assert_eq!(run[1].branches[0].name, "feature");
}

#[test]
fn merge_base_is_the_nearest_shared_ancestor() {
    let mut repo = Repo::new();
    let a = repo.add_commit(None, 0, b"a".to_vec(), 0);
    let b = repo.add_commit(Some(a), 1, b"b".to_vec(), 1);
    let c1 = repo.add_commit(Some(b), 2, b"c1".to_vec(), 2);
    let c2 = repo.add_commit(Some(b), 3, b"c2".to_vec(), 3);
    assert_eq!(repo.merge_base(c1, c2), Some(b));
    assert_eq!(repo.merge_base(a, c1), Some(a));
    assert_eq!(repo.merge_base(c2, c2), Some(c2));
    let x = repo.add_commit(None, 4, b"x".to_vec(), 4);
    assert_eq!(repo.merge_base(x, c1), None);
    assert_eq!(repo.ancestors_of(c1), vec![c1, b, a]);
}

#[test]
fn branch_index_groups_by_tip() {
    let mut idx = Branches::from_list(vec![
        branch("one", 5),
        branch("two", 5),
        branch("other", 7),
    ]);
    assert!(!idx.is_empty());
    assert_eq!(idx.len(), 2);
    assert_eq!(idx.oids(), vec![5, 7]);
    let at5 = idx.get(5).unwrap();
    assert_eq!(at5.len(), 2);
    assert_eq!(at5[0].name, "one");
    assert_eq!(at5[1].name, "two");
    let removed = idx.remove(5).unwrap();
    assert_eq!(removed.len(), 2);
    assert!(idx.get(5).is_none());
    assert_eq!(idx.len(), 1);
}

#[test]
fn new_node_takes_its_branches_out_of_the_index() {
    let mut repo = Repo::new();
    let a = repo.add_commit(None, 0, b"a".to_vec(), 0);
    let commit = repo.find_commit(a).unwrap();
    let mut idx = Branches::from_list(vec![branch("main", a), branch("extra", a)]);
    let node = Node::new(commit, &mut idx);
    assert_eq!(node.local_commit.id, a);
    assert_eq!(node.branches.len(), 2);
    assert!(node.stacks.is_empty());
    assert!(idx.is_empty());
}

#[test]
fn push_merges_at_the_matching_node() {
    let mut repo = Repo::new();
    let a = repo.add_commit(None, 0, b"a".to_vec(), 0);
    let b = repo.add_commit(Some(a), 1, b"b".to_vec(), 1);
    let idx = Branches::from_list(vec![branch("main", a), branch("feature", b)]);
    let mut tree = Node::from_branches(&repo, idx).unwrap();
    let mut other_idx = Branches::from_list(vec![branch("also", b)]);
    let other = Node::new(repo.find_commit(b).unwrap(), &mut other_idx);
    assert!(tree.push(&other));
    let mut names = Vec::new();
    collect_names(&tree, &mut names);
    names.sort();
    assert_eq!(names, vec!["also", "feature", "main"]);

    let mut stray_idx = Branches::new();
    let stray = Node::new(
        git_branch_stash::git::Commit { id: 99, tree_id: 0, summary: Vec::new(), time: 0 },
        &mut stray_idx,
    );
    assert!(!tree.push(&stray));
}

#[test]
fn merge_unions_branches_and_folds_stacks() {
    let mut repo = Repo::new();
    let a = repo.add_commit(None, 0, b"a".to_vec(), 0);
    let b = repo.add_commit(Some(a), 1, b"b".to_vec(), 1);
    let mut left_idx = Branches::from_list(vec![branch("main", a)]);
    let mut left = git_branch_stash::graph::node::populate(&repo, a, b, &mut left_idx).unwrap();
    let mut right_idx = Branches::from_list(vec![branch("extra", a), branch("tip", b)]);
    let right = git_branch_stash::graph::node::populate(&repo, a, b, &mut right_idx).unwrap();
    left.merge(right);
    assert_eq!(left.local_commit.id, a);
    let mut names = Vec::new();
    collect_names(&left, &mut names);
    names.sort();
    assert_eq!(names, vec!["extra", "main", "tip"]);
    assert_eq!(left.stacks.len(), 1);
    assert_eq!(left.stacks[0].len(), 1);
    assert_eq!(left.stacks[0][0].local_commit.id, b);
}

#[test]
fn merge_stacks_adopts_the_right_side_stacks() {
    let mut repo = Repo::new();
    let a = repo.add_commit(None, 0, b"a".to_vec(), 0);
    let b = repo.add_commit(Some(a), 1, b"b".to_vec(), 1);
    let c = repo.add_commit(Some(a), 2, b"c".to_vec(), 2);
    let mut lhs_idx = Branches::from_list(vec![branch("one", b)]);
    let mut lhs = git_branch_stash::graph::node::populate(&repo, a, b, &mut lhs_idx).unwrap();
    let mut rhs_idx = Branches::from_list(vec![branch("two", c)]);
    let rhs = git_branch_stash::graph::node::populate(&repo, a, c, &mut rhs_idx).unwrap();
    git_branch_stash::graph::node::merge_stacks(&mut lhs, rhs);
    assert_eq!(lhs.stacks.len(), 2);
    assert_eq!(lhs.stacks[0][0].local_commit.id, b);
    assert_eq!(lhs.stacks[1][0].local_commit.id, c);
}

#[test]
fn duplicate_copies_the_whole_tree() {
    let mut repo = Repo::new();
    let a = repo.add_commit(None, 0, b"a".to_vec(), 0);
    let b = repo.add_commit(Some(a), 1, b"b".to_vec(), 1);
    let tree = Node::from_branches(
        &repo,
        Branches::from_list(vec![branch("main", a), branch("feature", b)]),
    )
    .unwrap();
    assert_eq!(tree.duplicate(), tree);
}

#[test]
fn continuation_tie_break_can_repeat_a_commit() {
    // The builder prefers continuing past a fully matched stack over
    // splicing into that stack's children.  On this topology two runs
    // continue past Q through the tipless commit X, and each lands as its
    // own sibling stack under Q, so X gets two nodes.  The branches are
    // still placed exactly once each; only the waypoint repeats.
    let mut repo = Repo::new();
    let a = repo.add_commit(None, 0, b"a".to_vec(), 0);
    let q = repo.add_commit(Some(a), 1, b"q".to_vec(), 1);
    let x = repo.add_commit(Some(q), 2, b"x".to_vec(), 2);
    let s1 = repo.add_commit(Some(x), 3, b"s1".to_vec(), 3);
    let s2 = repo.add_commit(Some(x), 4, b"s2".to_vec(), 4);
    let branches = Branches::from_list(vec![
        branch("a-base", a),
        branch("b-mid", q),
        branch("c-one", s1),
        branch("d-two", s2),
    ]);
    let tree = Node::from_branches(&repo, branches).unwrap();
    let mut ids = Vec::new();
    collect_ids(&tree, &mut ids);
    assert_eq!(ids, vec![a, q, x, s1, x, s2]);
    let mut names = Vec::new();
    collect_names(&tree, &mut names);
    names.sort();
    assert_eq!(names, vec!["a-base", "b-mid", "c-one", "d-two"]);
}
