//! What the status line program decides.

use cc_ledger::statusline::{action, gitdir_target, head_branch, repository, Action, Repository};
use cc_ledger::transcript::EntryKind;

#[test]
fn reads_branch_from_a_git_dir() {
    assert_eq!(repository(EntryKind::Directory), Repository::Here);
    assert_eq!(
        head_branch("ref: refs/heads/feature/x\n"),
        Some("feature/x".to_string())
    );
}

#[test]
fn abbreviates_detached_head() {
    assert_eq!(
        head_branch("0ce2532abcdef0123456789\n"),
        Some("0ce2532".to_string())
    );
}

#[test]
fn no_git_directory_yields_no_branch() {
    assert_eq!(repository(EntryKind::Other), Repository::Above);
}

#[test]
fn a_head_too_short_shows_nothing() {
    assert_eq!(head_branch(""), None);
    assert_eq!(head_branch("  0ce253 \n"), None);
    // Seven characters, not seven bytes.
    assert_eq!(head_branch("äöüßéèê"), Some("äöüßéèê".to_string()));
    // Trimmed, the prefix lacks nothing: the branch has no name.
    assert_eq!(head_branch("ref: refs/heads/\n"), Some(String::new()));
    assert_eq!(head_branch("ref: refs/tags/v1"), Some("ref: re".to_string()));
}

#[test]
fn a_git_file_points_elsewhere() {
    assert_eq!(repository(EntryKind::File), Repository::Elsewhere);
    assert_eq!(
        gitdir_target("gitdir: /srv/repo/.git/worktrees/x\n"),
        Some("/srv/repo/.git/worktrees/x".to_string())
    );
    assert_eq!(gitdir_target("gitdir:"), Some(String::new()));
    assert_eq!(gitdir_target(" gitdir: /x"), None);
    assert_eq!(gitdir_target(""), None);
}

#[test]
fn arguments() {
    let args = |v: &[&str]| -> Vec<String> { v.iter().map(|s| s.to_string()).collect() };
    assert_eq!(action(&args(&[])), Action::Run { short: false });
    assert_eq!(action(&args(&["--short"])), Action::Run { short: true });
    assert_eq!(action(&args(&["--short", "-V"])), Action::Version);
    assert_eq!(action(&args(&["--version"])), Action::Version);
    assert_eq!(action(&args(&["-V", "-h"])), Action::Help);
    assert_eq!(action(&args(&["--help"])), Action::Help);
    assert_eq!(action(&args(&["--shorter"])), Action::Run { short: false });
}
