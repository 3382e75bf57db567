use jj_branches::divergence::DivergenceDisplay;
use jj_branches::errors::BranchError;
use jj_branches::ids::CommitId;
use jj_branches::listing::{cmd_branch_list, BranchState, TrackedBranch};
use jj_branches::oracle::{CommitRecord, TableOracle};
use jj_branches::repo_view::{BranchEntry, BranchTarget, BranchView, RemoteRef};
use jj_branches::target::RefTarget;

fn ids(ns: &[u64]) -> Vec<CommitId> {
    ns.iter().map(|n| CommitId(*n)).collect()
}

fn oracle() -> TableOracle {
    TableOracle {
        records: vec![
            CommitRecord { commit: CommitId(1), reachable: ids(&[1]) },
            CommitRecord { commit: CommitId(2), reachable: ids(&[2, 1]) },
            CommitRecord { commit: CommitId(3), reachable: ids(&[3, 1]) },
            CommitRecord { commit: CommitId(4), reachable: ids(&[4, 2, 1]) },
        ],
    }
}

fn normal(n: u64) -> RefTarget {
    RefTarget::Normal(CommitId(n))
}

#[test]
fn test_list_states_and_divergence() {
    let o = oracle();
    let reserved = "git".to_string();
    let view = BranchView {
        branches: vec![
            // Local at 2; a remote copy ahead at 4.
            BranchEntry {
                name: "main".to_string(),
                target: BranchTarget {
                    local_target: Some(normal(2)),
                    remote_targets: vec![RemoteRef {
                        remote: "origin".to_string(),
                        target: normal(4),
                    }],
                },
            },
            // Deleted locally, a genuine remote copy left.
            BranchEntry {
                name: "old".to_string(),
                target: BranchTarget {
                    local_target: None,
                    remote_targets: vec![RemoteRef {
                        remote: "origin".to_string(),
                        target: normal(3),
                    }],
                },
            },
        ],
    };
    let tracking = Vec::new();
    let listing = cmd_branch_list(&view, &o, &tracking, &reserved).unwrap();
    assert_eq!(listing.entries.len(), 2);
    assert_eq!(listing.collisions.len(), 0);

    let main = &listing.entries[0];
    assert_eq!(main.name, "main".to_string());
    assert!(matches!(&main.state, BranchState::Local(t) if t.same_as(&normal(2))));
    assert_eq!(main.remotes.len(), 1);
    assert_eq!(main.remotes[0].remote, "origin".to_string());
    assert_eq!(main.remotes[0].divergence, Some(DivergenceDisplay::Ahead { ahead: 1 }));

    let old = &listing.entries[1];
    assert_eq!(old.name, "old".to_string());
    assert!(matches!(old.state, BranchState::Deleted));
    assert_eq!(old.remotes.len(), 1);
    // No local target: nothing to diverge from.
    assert_eq!(old.remotes[0].divergence, None);
}

#[test]
fn test_list_skips_remote_equal_to_local() {
    let o = oracle();
    let reserved = "git".to_string();
    let view = BranchView {
        branches: vec![BranchEntry {
            name: "main".to_string(),
            target: BranchTarget {
                local_target: Some(normal(2)),
                remote_targets: vec![
                    RemoteRef { remote: "origin".to_string(), target: normal(2) },
                    RemoteRef { remote: "fork".to_string(), target: normal(3) },
                ],
            },
        }],
    };
    let listing = cmd_branch_list(&view, &o, &Vec::new(), &reserved).unwrap();
    let rows = &listing.entries[0].remotes;
    // The copy identical to the local target is not shown.
    assert_eq!(rows.len(), 1);
    assert_eq!(rows[0].remote, "fork".to_string());
    assert_eq!(
        rows[0].divergence,
        Some(DivergenceDisplay::Diverged { ahead: 1, behind: 1 })
    );
}

#[test]
fn test_list_merges_synthetic_tracking_remote() {
    let o = oracle();
    let reserved = "git".to_string();
    let view = BranchView {
        branches: vec![BranchEntry {
            name: "main".to_string(),
            target: BranchTarget {
                local_target: Some(normal(2)),
                remote_targets: Vec::new(),
            },
        }],
    };
    let tracking = vec![
        // Differs from the local target: shown under the reserved name.
        TrackedBranch { name: "main".to_string(), target: normal(1) },
        // Unknown to the view: listed as forgotten.
        TrackedBranch { name: "stale".to_string(), target: normal(3) },
    ];
    let listing = cmd_branch_list(&view, &o, &tracking, &reserved).unwrap();
    assert_eq!(listing.entries.len(), 2);

    let main = &listing.entries[0];
    assert_eq!(main.remotes.len(), 1);
    assert_eq!(main.remotes[0].remote, "git".to_string());
    assert!(main.remotes[0].target.same_as(&normal(1)));
    assert_eq!(main.remotes[0].divergence, Some(DivergenceDisplay::Behind { behind: 1 }));

    let stale = &listing.entries[1];
    assert_eq!(stale.name, "stale".to_string());
    assert!(matches!(stale.state, BranchState::Forgotten));
    assert_eq!(stale.remotes.len(), 1);
    assert_eq!(stale.remotes[0].remote, "git".to_string());
    assert_eq!(stale.remotes[0].divergence, None);
}

#[test]
fn test_list_warns_instead_of_overwriting_shadowed_remote() {
    let o = oracle();
    let reserved = "git".to_string();
    // A genuine remote is literally named like the reserved one.
    let view = BranchView {
        branches: vec![BranchEntry {
            name: "main".to_string(),
            target: BranchTarget {
                local_target: Some(normal(2)),
                remote_targets: vec![RemoteRef {
                    remote: "git".to_string(),
                    target: normal(3),
                }],
            },
        }],
    };
    let tracking = vec![TrackedBranch { name: "main".to_string(), target: normal(4) }];
    let listing = cmd_branch_list(&view, &o, &tracking, &reserved).unwrap();
    // The tracking state was not merged; the caller is told to warn.
    assert_eq!(listing.collisions, vec!["main".to_string()]);
    let rows = &listing.entries[0].remotes;
    assert_eq!(rows.len(), 1);
    assert!(rows[0].target.same_as(&normal(3)));
}

#[test]
fn test_list_shows_conflicted_local_target() {
    let o = oracle();
    let reserved = "git".to_string();
    let conflicted = RefTarget::Conflict { removes: ids(&[1]), adds: ids(&[2, 3]) };
    let view = BranchView {
        branches: vec![BranchEntry {
            name: "main".to_string(),
            target: BranchTarget {
                local_target: Some(RefTarget::Conflict { removes: ids(&[1]), adds: ids(&[2, 3]) }),
                remote_targets: Vec::new(),
            },
        }],
    };
    let listing = cmd_branch_list(&view, &o, &Vec::new(), &reserved).unwrap();
    // The conflict is handed through whole: removes and adds intact for
    // the presentation layer to prefix with - and +.
    assert!(matches!(&listing.entries[0].state,
        BranchState::Local(t) if t.same_as(&conflicted)));
}

#[test]
fn test_list_unknown_commit_is_store_error() {
    let o = oracle();
    let reserved = "git".to_string();
    let view = BranchView {
        branches: vec![BranchEntry {
            name: "main".to_string(),
            target: BranchTarget {
                local_target: Some(RefTarget::Normal(CommitId(9))),
                remote_targets: vec![RemoteRef {
                    remote: "origin".to_string(),
                    target: normal(2),
                }],
            },
        }],
    };
    assert!(matches!(
        cmd_branch_list(&view, &o, &Vec::new(), &reserved),
        Err(BranchError::UnderlyingStore(_))
    ));
}
