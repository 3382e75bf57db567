use jj_branches::commands::{
    cmd_branch, cmd_branch_create, cmd_branch_delete, cmd_branch_forget, cmd_branch_set,
    BranchCreateArgs, BranchDeleteArgs, BranchForgetArgs, BranchListArgs, BranchOutcome,
    BranchSetArgs, BranchSubcommand,
};
use jj_branches::divergence::{divergence, present_divergence, DivergenceDisplay};
use jj_branches::errors::{quoted_list, BranchError};
use jj_branches::globs::find_globs;
use jj_branches::ids::CommitId;
use jj_branches::oracle::{AncestryOracle, CommitRecord, TableOracle};
use jj_branches::policy::is_fast_forward;
use jj_branches::repo_view::{BranchEntry, BranchTarget, BranchView, RemoteRef};
use jj_branches::target::RefTarget;

fn ids(ns: &[u64]) -> Vec<CommitId> {
    ns.iter().map(|n| CommitId(*n)).collect()
}

/// A small history: 1 is the root; 2 and 3 are siblings on top of 1;
/// 4 extends 2. Commit 9 exists nowhere (unknown to the store).
fn oracle() -> TableOracle {
    TableOracle {
        records: vec![
            CommitRecord { commit: CommitId(1), reachable: ids(&[1]) },
            CommitRecord { commit: CommitId(2), reachable: ids(&[2, 1]) },
            CommitRecord { commit: CommitId(3), reachable: ids(&[3, 1]) },
            CommitRecord { commit: CommitId(4), reachable: ids(&[4, 2, 1]) },
        ],
    }
}

fn local_only(name: &str, commit: u64) -> BranchEntry {
    BranchEntry {
        name: name.to_string(),
        target: BranchTarget {
            local_target: Some(RefTarget::Normal(CommitId(commit))),
            remote_targets: Vec::new(),
        },
    }
}

fn entry_with_remote(name: &str, local: Option<u64>, remote: &str, commit: u64) -> BranchEntry {
    BranchEntry {
        name: name.to_string(),
        target: BranchTarget {
            local_target: local.map(|c| RefTarget::Normal(CommitId(c))),
            remote_targets: vec![RemoteRef {
                remote: remote.to_string(),
                target: RefTarget::Normal(CommitId(commit)),
            }],
        },
    }
}

fn local_target_commit(view: &BranchView, name: &str) -> Option<u64> {
    match view.get_local_branch(&name.to_string()) {
        Some(RefTarget::Normal(CommitId(n))) => Some(*n),
        Some(_) => panic!("conflicted target"),
        None => None,
    }
}

#[test]
fn test_fast_forward_absent_branch_always_allowed() {
    let o = oracle();
    // No local target: any move is trivially forward.
    assert!(is_fast_forward(&o, None, &CommitId(3)));
    assert!(is_fast_forward(&o, None, &CommitId(9)));
}

#[test]
fn test_fast_forward_normal_iff_ancestor() {
    let o = oracle();
    let at_one = RefTarget::Normal(CommitId(1));
    let at_two = RefTarget::Normal(CommitId(2));
    let at_three = RefTarget::Normal(CommitId(3));
    // 1 is an ancestor of 2: forward.
    assert!(is_fast_forward(&o, Some(&at_one), &CommitId(2)));
    // 2 is not an ancestor of 3 (siblings): sideways, refused.
    assert!(!is_fast_forward(&o, Some(&at_two), &CommitId(3)));
    // 2 is not an ancestor of 1: backwards, refused.
    assert!(!is_fast_forward(&o, Some(&at_two), &CommitId(1)));
    // A commit is an ancestor of itself.
    assert!(is_fast_forward(&o, Some(&at_three), &CommitId(3)));
}

#[test]
fn test_fast_forward_conflict_any_branch_suffices() {
    let o = oracle();
    // Conflicted between 3 and 2; moving to 4 passes 2 even though 3 is
    // not an ancestor of 4.
    let conflicted = RefTarget::Conflict { removes: ids(&[1]), adds: ids(&[3, 2]) };
    assert!(is_fast_forward(&o, Some(&conflicted), &CommitId(4)));
    // Neither 3 nor 2 is an ancestor of 1: refused.
    assert!(!is_fast_forward(&o, Some(&conflicted), &CommitId(1)));
}

#[test]
fn test_divergence_identical_operative_sets_in_sync() {
    let o = oracle();
    let local = RefTarget::Normal(CommitId(2));
    let remote = RefTarget::Normal(CommitId(2));
    let (ahead, behind) = divergence(&o, &local, &remote).unwrap();
    assert_eq!((ahead, behind), (0, 0));
    assert_eq!(present_divergence(ahead, behind), DivergenceDisplay::InSync);
}

#[test]
fn test_divergence_counts_both_directions() {
    let o = oracle();
    let local = RefTarget::Normal(CommitId(3));
    let remote = RefTarget::Normal(CommitId(4));
    // Remote has {4, 2}; local has {3}; both reach 1.
    let (ahead, behind) = divergence(&o, &local, &remote).unwrap();
    assert_eq!((ahead, behind), (2, 1));
    assert_eq!(
        present_divergence(ahead, behind),
        DivergenceDisplay::Diverged { ahead: 2, behind: 1 }
    );
    // One direction only.
    let local = RefTarget::Normal(CommitId(2));
    let (ahead, behind) = divergence(&o, &local, &remote).unwrap();
    assert_eq!((ahead, behind), (1, 0));
    assert_eq!(present_divergence(ahead, behind), DivergenceDisplay::Ahead { ahead: 1 });
    let (ahead, behind) = divergence(&o, &remote, &local).unwrap();
    assert_eq!((ahead, behind), (0, 1));
    assert_eq!(present_divergence(ahead, behind), DivergenceDisplay::Behind { behind: 1 });
}

#[test]
fn test_divergence_unknown_commit_is_store_error() {
    let o = oracle();
    let local = RefTarget::Normal(CommitId(9));
    let remote = RefTarget::Normal(CommitId(2));
    assert!(divergence(&o, &local, &remote).is_err());
}

#[test]
fn test_glob_no_match_fails_and_names_every_pattern() {
    let view = BranchView { branches: vec![local_only("feature", 2)] };
    let globs = vec!["zz*".to_string(), "fea*".to_string(), "yy*".to_string()];
    match find_globs(&view, &globs, false) {
        Err(BranchError::GlobNoMatch(ps)) => {
            assert_eq!(ps, vec!["zz*".to_string(), "yy*".to_string()]);
        }
        other => panic!("expected GlobNoMatch, got {:?}", other),
    }
}

#[test]
fn test_glob_invalid_pattern_is_refused() {
    let view = BranchView { branches: vec![local_only("feature", 2)] };
    let globs = vec!["fea*".to_string(), "a**b".to_string()];
    match find_globs(&view, &globs, false) {
        Err(BranchError::InvalidGlob(p)) => assert_eq!(p, "a**b".to_string()),
        other => panic!("expected InvalidGlob, got {:?}", other),
    }
}

#[test]
fn test_glob_deleted_branch_needs_allow_deleted() {
    // "gone" has only a remote copy left.
    let view = BranchView {
        branches: vec![entry_with_remote("gone", None, "origin", 2)],
    };
    let globs = vec!["go*".to_string()];
    assert!(find_globs(&view, &globs, false).is_err());
    assert_eq!(find_globs(&view, &globs, true).unwrap(), vec!["gone".to_string()]);
}

#[test]
fn test_glob_duplicate_matches_then_one_deletion() {
    let view = BranchView { branches: vec![local_only("feature", 2)] };
    let globs = vec!["feat*".to_string(), "*ture".to_string()];
    // Both patterns match: the name comes back once per pattern.
    let names = find_globs(&view, &globs, false).unwrap();
    assert_eq!(names, vec!["feature".to_string(), "feature".to_string()]);
    // Deleting through the same globs deduplicates: exactly one deletion.
    let mut view = view;
    let args = BranchDeleteArgs { names: vec![], glob: globs };
    let removed = cmd_branch_delete(&mut view, &args).unwrap();
    assert_eq!(removed, vec!["feature".to_string()]);
    assert!(view.get_branch(&"feature".to_string()).is_none());
}

#[test]
fn test_delete_keeps_remote_forget_leaves_no_trace() {
    let make_view = || BranchView {
        branches: vec![entry_with_remote("x", Some(2), "origin", 3)],
    };

    // Delete: the local target goes, the remote copy stays untouched.
    let mut view = make_view();
    let args = BranchDeleteArgs { names: vec!["x".to_string()], glob: vec![] };
    let removed = cmd_branch_delete(&mut view, &args).unwrap();
    assert_eq!(removed, vec!["x".to_string()]);
    let bt = view.get_branch(&"x".to_string()).expect("entry must survive");
    assert!(bt.local_target.is_none());
    assert_eq!(bt.remote_targets.len(), 1);
    assert_eq!(bt.remote_targets[0].remote, "origin".to_string());
    assert!(bt.remote_targets[0].target.same_as(&RefTarget::Normal(CommitId(3))));

    // Forget: no trace of "x" remains.
    let mut view = make_view();
    let args = BranchForgetArgs { names: vec!["x".to_string()], glob: vec![] };
    let removed = cmd_branch_forget(&mut view, &args).unwrap();
    assert_eq!(removed, vec!["x".to_string()]);
    assert!(view.get_branch(&"x".to_string()).is_none());
    assert_eq!(view.branches.len(), 0);
}

#[test]
fn test_delete_without_local_target_is_not_found() {
    let mut view = BranchView {
        branches: vec![entry_with_remote("gone", None, "origin", 2)],
    };
    let args = BranchDeleteArgs { names: vec!["gone".to_string()], glob: vec![] };
    match cmd_branch_delete(&mut view, &args) {
        Err(BranchError::NotFound(n)) => assert_eq!(n, "gone".to_string()),
        other => panic!("expected NotFound, got {:?}", other),
    }
    // The rejected operation changed nothing.
    assert!(view.get_branch(&"gone".to_string()).is_some());
}

#[test]
fn test_forget_accepts_remote_only_but_not_absent() {
    let mut view = BranchView {
        branches: vec![entry_with_remote("gone", None, "origin", 2)],
    };
    // Remote-only branches exist in some form: forget succeeds.
    let args = BranchForgetArgs { names: vec!["gone".to_string()], glob: vec![] };
    assert!(cmd_branch_forget(&mut view, &args).is_ok());
    assert_eq!(view.branches.len(), 0);
    // A wholly absent branch is an error.
    let args = BranchForgetArgs { names: vec!["missing".to_string()], glob: vec![] };
    match cmd_branch_forget(&mut view, &args) {
        Err(BranchError::NotFound(n)) => assert_eq!(n, "missing".to_string()),
        other => panic!("expected NotFound, got {:?}", other),
    }
}

#[test]
fn test_end_to_end_create_then_set() {
    let o = oracle();
    let mut view = BranchView { branches: vec![] };

    // Create "main" at commit 2: succeeds, local target is Normal(2).
    let create = BranchCreateArgs { revision: None, names: vec!["main".to_string()] };
    assert!(cmd_branch_create(&mut view, &CommitId(2), &create).is_ok());
    assert_eq!(local_target_commit(&view, "main"), Some(2));

    // Create "main" again at commit 4: refused, target unchanged.
    match cmd_branch_create(&mut view, &CommitId(4), &create) {
        Err(BranchError::AlreadyExists(n)) => assert_eq!(n, "main".to_string()),
        other => panic!("expected AlreadyExists, got {:?}", other),
    }
    assert_eq!(local_target_commit(&view, "main"), Some(2));

    // Set "main" to sibling commit 3 without the override: refused.
    let set = BranchSetArgs {
        revision: None,
        allow_backwards: false,
        names: vec!["main".to_string()],
    };
    match cmd_branch_set(&mut view, &o, &CommitId(3), &set) {
        Err(BranchError::NonFastForward) => {}
        other => panic!("expected NonFastForward, got {:?}", other),
    }
    assert_eq!(local_target_commit(&view, "main"), Some(2));

    // With the override it succeeds.
    let set = BranchSetArgs { allow_backwards: true, ..set };
    assert!(cmd_branch_set(&mut view, &o, &CommitId(3), &set).is_ok());
    assert_eq!(local_target_commit(&view, "main"), Some(3));
}

#[test]
fn test_set_fast_forward_without_override() {
    let o = oracle();
    let mut view = BranchView { branches: vec![local_only("main", 2)] };
    let set = BranchSetArgs {
        revision: None,
        allow_backwards: false,
        names: vec!["main".to_string()],
    };
    // 2 -> 4 is a descendant move: allowed without the override.
    assert!(cmd_branch_set(&mut view, &o, &CommitId(4), &set).is_ok());
    assert_eq!(local_target_commit(&view, "main"), Some(4));
}

#[test]
fn test_set_resolves_conflict_forward() {
    let o = oracle();
    let mut view = BranchView {
        branches: vec![BranchEntry {
            name: "main".to_string(),
            target: BranchTarget {
                local_target: Some(RefTarget::Conflict {
                    removes: ids(&[1]),
                    adds: ids(&[3, 2]),
                }),
                remote_targets: Vec::new(),
            },
        }],
    };
    // Moving to 4 passes the conflict branch at 2: accepted, and the
    // conflict is replaced by a normal target.
    let set = BranchSetArgs {
        revision: None,
        allow_backwards: false,
        names: vec!["main".to_string()],
    };
    assert!(cmd_branch_set(&mut view, &o, &CommitId(4), &set).is_ok());
    assert_eq!(local_target_commit(&view, "main"), Some(4));
}

#[test]
fn test_create_multiple_is_all_or_nothing() {
    let mut view = BranchView { branches: vec![local_only("b", 2)] };
    let create = BranchCreateArgs {
        revision: None,
        names: vec!["a".to_string(), "b".to_string()],
    };
    assert!(matches!(
        cmd_branch_create(&mut view, &CommitId(3), &create),
        Err(BranchError::AlreadyExists(_))
    ));
    // Nothing was staged: "a" was not created.
    assert!(view.get_branch(&"a".to_string()).is_none());
}

#[test]
fn test_create_keeps_existing_remote_copies() {
    let mut view = BranchView {
        branches: vec![entry_with_remote("x", None, "origin", 3)],
    };
    let create = BranchCreateArgs { revision: None, names: vec!["x".to_string()] };
    assert!(cmd_branch_create(&mut view, &CommitId(2), &create).is_ok());
    let bt = view.get_branch(&"x".to_string()).unwrap();
    assert_eq!(local_target_commit(&view, "x"), Some(2));
    assert_eq!(bt.remote_targets.len(), 1);
}

#[test]
fn test_dispatcher_routes_operations() {
    let o = oracle();
    let tracking = Vec::new();
    let reserved = "git".to_string();
    let mut view = BranchView { branches: vec![] };

    let create = BranchSubcommand::Create(BranchCreateArgs {
        revision: None,
        names: vec!["main".to_string()],
    });
    match cmd_branch(&mut view, &o, &CommitId(2), &tracking, &reserved, &create) {
        Ok(BranchOutcome::Done) => {}
        other => panic!("expected Done, got {:?}", other),
    }
    assert_eq!(local_target_commit(&view, "main"), Some(2));

    let set = BranchSubcommand::SetTarget(BranchSetArgs {
        revision: None,
        allow_backwards: false,
        names: vec!["main".to_string()],
    });
    match cmd_branch(&mut view, &o, &CommitId(4), &tracking, &reserved, &set) {
        Ok(BranchOutcome::Done) => {}
        other => panic!("expected Done, got {:?}", other),
    }
    assert_eq!(local_target_commit(&view, "main"), Some(4));

    let delete = BranchSubcommand::Delete(BranchDeleteArgs {
        names: vec!["main".to_string()],
        glob: vec![],
    });
    match cmd_branch(&mut view, &o, &CommitId(4), &tracking, &reserved, &delete) {
        Ok(BranchOutcome::Removed(names)) => assert_eq!(names, vec!["main".to_string()]),
        other => panic!("expected Removed, got {:?}", other),
    }

    let list = BranchSubcommand::List(BranchListArgs);
    match cmd_branch(&mut view, &o, &CommitId(4), &tracking, &reserved, &list) {
        Ok(BranchOutcome::Listed(listing)) => assert_eq!(listing.entries.len(), 0),
        other => panic!("expected Listed, got {:?}", other),
    }

    let forget = BranchSubcommand::Forget(BranchForgetArgs {
        names: vec!["missing".to_string()],
        glob: vec![],
    });
    assert!(matches!(
        cmd_branch(&mut view, &o, &CommitId(4), &tracking, &reserved, &forget),
        Err(BranchError::NotFound(_))
    ));
}

#[test]
fn test_quoted_list_formats_exactly() {
    assert_eq!(quoted_list(&Vec::new()), "".to_string());
    assert_eq!(quoted_list(&vec!["x*".to_string()]), "'x*'".to_string());
    assert_eq!(
        quoted_list(&vec!["zz*".to_string(), "yy*".to_string(), "a".to_string()]),
        "'zz*', 'yy*', 'a'".to_string()
    );
}

#[test]
fn test_oracle_walk_revs_excludes_shared_history() {
    let o = oracle();
    // Reachable from 4 but not from 3: {4, 2}.
    let mut revs = o.walk_revs(&ids(&[4]), &ids(&[3])).unwrap();
    revs.sort();
    assert_eq!(revs, ids(&[2, 4]));
    // Asking about an unknown commit fails.
    assert!(o.walk_revs(&ids(&[9]), &ids(&[])).is_err());
}
