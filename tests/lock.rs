use nyarr::lock::{
    archive_url, choose_branch_head, line_from_captures, parse_git_ls_remote_line, plan_update,
    GitLsRemoteLine, HeadError, LockfileChange, LsRemoteError, PackageHead,
};

#[test]
fn test_ls_remote_parsing() {
    let input = "\
ref: refs/heads/main    HEAD
59f5c322b48409c4d6d08cecae50b663151b22ed        HEAD
ref: refs/remotes/origin/main   refs/remotes/origin/HEAD
59f5c322b48409c4d6d08cecae50b663151b22ed        refs/remotes/origin/HEAD
";
    let lines = input
        .lines()
        .map(parse_git_ls_remote_line)
        .collect::<Result<Vec<_>, _>>()
        .unwrap();
    assert_eq!(
        lines,
        vec![
            GitLsRemoteLine::SymRef {
                target: "refs/heads/main".into(),
                name: "HEAD".into()
            },
            GitLsRemoteLine::Branch {
                rev: "59f5c322b48409c4d6d08cecae50b663151b22ed".into(),
                target: "HEAD".into()
            },
            GitLsRemoteLine::SymRef {
                target: "refs/remotes/origin/main".into(),
                name: "refs/remotes/origin/HEAD".into()
            },
            GitLsRemoteLine::Branch {
                rev: "59f5c322b48409c4d6d08cecae50b663151b22ed".into(),
                target: "refs/remotes/origin/HEAD".into()
            }
        ]
    );
}

#[test]
fn unparsable_line_is_reported() {
    match parse_git_ls_remote_line("nothing to see") {
        Err(LsRemoteError::Unparsable(s)) => assert_eq!(s, "nothing to see"),
        other => panic!("unexpected {:?}", other),
    }
}

#[test]
fn captures_are_read_symref_first() {
    let g = |a: &str, b: &str| Some(vec![Some(format!("{a} {b}")), Some(a.to_string()), Some(b.to_string())]);
    let l = line_from_captures("x", g("t", "n"), g("r", "q")).unwrap();
    assert_eq!(l, GitLsRemoteLine::SymRef { target: "t".into(), name: "n".into() });
    let l = line_from_captures("x", None, g("r", "q")).unwrap();
    assert_eq!(l, GitLsRemoteLine::Branch { rev: "r".into(), target: "q".into() });
    assert!(matches!(line_from_captures("x", None, None), Err(LsRemoteError::Unparsable(_))));
}

#[test]
fn archive_url_of_a_revision() {
    assert_eq!(
        archive_url("lf-", "gridlock", "abc123"),
        "https://github.com/lf-/gridlock/archive/abc123.tar.gz"
    );
}

fn pkg(name: &str, locked: &str, head: &str) -> PackageHead {
    PackageHead { name: name.into(), locked_rev: locked.into(), head: head.into() }
}

#[test]
fn test_plan_update() {
    let changes = plan_update(&vec![
        pkg("package1", "0000000000000000000000000000000000000000", "aaaaaaaaaaaaaaaaaaaaaaaaaaaaaaaaaaaaaaaa"),
        pkg("package2", "1111111111111111111111111111111111111111", "cccccccccccccccccccccccccccccccccccccccc"),
        pkg("package3", "dddddddddddddddddddddddddddddddddddddddd", "dddddddddddddddddddddddddddddddddddddddd"),
    ]);
    assert_eq!(
        changes,
        vec![
            LockfileChange::UpdateRev(
                "package1".into(),
                "aaaaaaaaaaaaaaaaaaaaaaaaaaaaaaaaaaaaaaaa".into()
            ),
            LockfileChange::UpdateRev(
                "package2".into(),
                "cccccccccccccccccccccccccccccccccccccccc".into()
            )
        ]
    );
}

fn ls_remote_lines() -> Vec<GitLsRemoteLine> {
    vec![
        GitLsRemoteLine::SymRef { target: "refs/heads/main".into(), name: "HEAD".into() },
        GitLsRemoteLine::Branch { rev: "59f5".into(), target: "HEAD".into() },
        GitLsRemoteLine::Branch { rev: "ffff".into(), target: "other".into() },
    ]
}

#[test]
fn default_branch_comes_from_symref() {
    let (rev, branch) = choose_branch_head(&ls_remote_lines(), None).unwrap();
    assert_eq!(rev, "59f5");
    assert_eq!(branch, "main");
}

#[test]
fn asked_branch_is_kept() {
    let (rev, branch) = choose_branch_head(&ls_remote_lines(), Some("dev")).unwrap();
    assert_eq!(rev, "59f5");
    assert_eq!(branch, "dev");
}

#[test]
fn symref_outside_heads_is_kept_whole() {
    let lines = vec![
        GitLsRemoteLine::SymRef { target: "refs/remotes/origin/main".into(), name: "HEAD".into() },
        GitLsRemoteLine::Branch { rev: "1".into(), target: "HEAD".into() },
    ];
    let (_, branch) = choose_branch_head(&lines, None).unwrap();
    assert_eq!(branch, "refs/remotes/origin/main");
}

#[test]
fn missing_revision_or_default_branch() {
    let only_symref = vec![GitLsRemoteLine::SymRef { target: "refs/heads/main".into(), name: "HEAD".into() }];
    assert_eq!(choose_branch_head(&only_symref, None), Err(HeadError::NoRevision));
    let only_rev = vec![GitLsRemoteLine::Branch { rev: "1".into(), target: "HEAD".into() }];
    assert_eq!(choose_branch_head(&only_rev, None), Err(HeadError::NoDefaultBranch));
}
