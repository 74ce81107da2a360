//! What the status line program decides, apart from the line itself.

use vstd::prelude::*;
use vstd::string::*;

use crate::text;
use crate::text::{chars_of, has_prefix, same_text, string_of, trim};
use crate::transcript::EntryKind;

verus! {

// ---------------------------------------------------------------------------
// The branch, without a subprocess
// ---------------------------------------------------------------------------

/// What a `HEAD` file begins with while a branch is checked out.
pub const HEAD_PREFIX: &'static str = "ref: refs/heads/";

/// What a `.git` file begins with that stands for a directory elsewhere.
pub const GITDIR_PREFIX: &'static str = "gitdir:";

/// How many characters of a commit are shown where no branch is checked out.
pub const ABBREV: usize = 7;

/// What is shown of a `HEAD` file: the branch, or the beginning of the commit. A
/// file too short for either shows nothing.
pub open spec fn branch_of(head: Seq<char>) -> Option<Seq<char>> {
    let h = text::trimmed(head);
    if text::begins_with(h, HEAD_PREFIX@) {
        Some(h.skip(HEAD_PREFIX@.len() as int))
    } else if h.len() >= ABBREV {
        Some(h.take(ABBREV as int))
    } else {
        None
    }
}

/// The characters of an optional string.
pub open spec fn said(o: Option<String>) -> Option<Seq<char>> {
    match o {
        Some(s) => Some(s@),
        None => None,
    }
}

/// What is shown of a `HEAD` file. Counted in characters: the file is whatever
/// the repository holds.
pub fn head_branch(head: &str) -> (r: Option<String>)
    ensures
        said(r) == branch_of(head@),
{
    let chars = chars_of(trim(head).as_str());
    let prefix = chars_of(HEAD_PREFIX);
    if has_prefix(&chars, &prefix) {
        let branch = string_of(&chars, prefix.len(), chars.len());
        assert(branch@ =~= text::trimmed(head@).skip(HEAD_PREFIX@.len() as int));
        Some(branch)
    } else if chars.len() >= ABBREV {
        let abbrev = string_of(&chars, 0, ABBREV);
        assert(abbrev@ =~= text::trimmed(head@).take(ABBREV as int));
        Some(abbrev)
    } else {
        None
    }
}

/// The directory that a `.git` file stands for: that of a worktree or a submodule.
pub fn gitdir_target(contents: &str) -> (r: Option<String>)
    ensures
        said(r) == (if text::begins_with(contents@, GITDIR_PREFIX@) {
            Some(text::trimmed(contents@.skip(GITDIR_PREFIX@.len() as int)))
        } else {
            None
        }),
{
    let chars = chars_of(contents);
    let prefix = chars_of(GITDIR_PREFIX);
    if has_prefix(&chars, &prefix) {
        let rest = string_of(&chars, prefix.len(), chars.len());
        assert(rest@ =~= contents@.skip(GITDIR_PREFIX@.len() as int));
        Some(trim(rest.as_str()))
    } else {
        None
    }
}

/// Where the repository of a directory is, seen from that directory.
#[derive(Debug, Clone, Copy, PartialEq, Eq, Structural)]
pub enum Repository {
    /// In its `.git` directory.
    Here,
    /// Where its `.git` file says.
    Elsewhere,
    /// The directory has none; its parent may.
    Above,
}

/// Where the repository is, given what `.git` is.
pub fn repository(dot_git: EntryKind) -> (r: Repository)
    ensures
        r == (match dot_git {
            EntryKind::Directory => Repository::Here,
            EntryKind::File => Repository::Elsewhere,
            EntryKind::Other => Repository::Above,
        }),
{
    match dot_git {
        EntryKind::Directory => Repository::Here,
        EntryKind::File => Repository::Elsewhere,
        EntryKind::Other => Repository::Above,
    }
}

// ---------------------------------------------------------------------------
// Arguments
// ---------------------------------------------------------------------------

/// What the program is asked to do.
#[derive(Debug, Clone, Copy, PartialEq, Eq, Structural)]
pub enum Action {
    Help,
    Version,
    Run { short: bool },
}

/// Whether the argument is there.
pub open spec fn given(args: Seq<String>, arg: Seq<char>) -> bool {
    text::texts(args).contains(arg)
}

fn is_given(args: &Vec<String>, arg: &str) -> (r: bool)
    ensures
        r == given(args@, arg@),
{
    let mut i: usize = 0;
    while i < args.len()
        invariant
            i <= args@.len(),
            forall|j: int| 0 <= j < i ==> #[trigger] text::texts(args@)[j] != arg@,
        decreases args@.len() - i,
    {
        assert(text::texts(args@)[i as int] == args@[i as int]@);
        if same_text(args[i].as_str(), arg) {
            return true;
        }
        i += 1;
    }
    false
}

/// What the arguments ask for. Help and version come first: asked for by hand,
/// the program must not wait for a payload that is never typed.
pub fn action(args: &Vec<String>) -> (r: Action)
    ensures
        r == (if given(args@, "--help"@) || given(args@, "-h"@) {
            Action::Help
        } else if given(args@, "--version"@) || given(args@, "-V"@) {
            Action::Version
        } else {
            Action::Run { short: given(args@, "--short"@) }
        }),
{
    if is_given(args, "--help") || is_given(args, "-h") {
        Action::Help
    } else if is_given(args, "--version") || is_given(args, "-V") {
        Action::Version
    } else {
        Action::Run { short: is_given(args, "--short") }
    }
}

// ---------------------------------------------------------------------------
// Laws
// ---------------------------------------------------------------------------

/// A detached `HEAD` shows exactly seven characters, the first of the file; a
/// checked out branch shows all of its name.
pub proof fn law_a_detached_head_shows_seven_characters(head: Seq<char>)
    requires
        branch_of(head) is Some,
    ensures
        text::begins_with(text::trimmed(head), HEAD_PREFIX@) ==> text::trimmed(head)
            == HEAD_PREFIX@ + branch_of(head)->0,
        !text::begins_with(text::trimmed(head), HEAD_PREFIX@) ==> branch_of(head)->0.len()
            == ABBREV && text::begins_with(text::trimmed(head), branch_of(head)->0),
{
    let h = text::trimmed(head);
    if text::begins_with(h, HEAD_PREFIX@) {
        assert(h =~= HEAD_PREFIX@ + h.skip(HEAD_PREFIX@.len() as int));
    } else {
        assert(h.take(ABBREV as int).len() == ABBREV);
    }
}

/// A branch that is checked out is shown by its whole name, whatever white space
/// is around it in the file.
pub proof fn law_a_checked_out_branch_is_shown(
    head: &str,
    before: Seq<char>,
    name: Seq<char>,
    after: Seq<char>,
    r: Option<String>,
)
    requires
        call_ensures(head_branch, (head,), r),
        text::all_space(before),
        text::all_space(after),
        name.len() > 0,
        !text::is_space(name.last()),
        head@ == before + ("ref: refs/heads/"@ + name) + after,
    ensures
        r matches Some(s) && s@ == name,
{
    reveal_strlit("ref: refs/heads/");
    let line = "ref: refs/heads/"@ + name;
    assert(line[0] == 'r' && line.last() == name.last());
    text::trimmed_of_padded(before, line, after);
    text::law_what_a_prefix_is(name, "ref: refs/heads/"@);
    assert(line.skip(16) =~= name);
}

/// Where no branch is checked out the first seven characters of the commit are
/// shown, and nothing of a file that has fewer.
pub proof fn law_a_commit_is_abbreviated(head: &str, r: Option<String>)
    requires
        call_ensures(head_branch, (head,), r),
        !"ref: refs/heads/"@.is_prefix_of(text::trimmed(head@)),
    ensures
        r is Some <==> text::trimmed(head@).len() >= 7,
        r matches Some(s) ==> s@ == text::trimmed(head@).take(7),
{
    let h = text::trimmed(head@);
    if text::begins_with(h, HEAD_PREFIX@) {
        assert(HEAD_PREFIX@ =~= h.subrange(0, HEAD_PREFIX@.len() as int));
    }
}

/// A file that stands for a directory elsewhere says which behind its prefix,
/// white space aside; any other file stands for none.
pub proof fn law_what_a_git_file_stands_for(
    contents: &str,
    path: Seq<char>,
    r: Option<String>,
)
    requires
        call_ensures(gitdir_target, (contents,), r),
    ensures
        contents@ == "gitdir:"@ + path ==> (r matches Some(s) && s@ == text::trimmed(path)),
        !"gitdir:"@.is_prefix_of(contents@) ==> r is None,
{
    if contents@ == "gitdir:"@ + path {
        text::law_what_a_prefix_is(path, "gitdir:"@);
        assert(contents@.skip("gitdir:"@.len() as int) =~= path);
    }
    if text::begins_with(contents@, GITDIR_PREFIX@) {
        assert(GITDIR_PREFIX@ =~= contents@.subrange(0, GITDIR_PREFIX@.len() as int));
    }
}

/// A repository is where its `.git` directory is, or where its `.git` file says;
/// without either it may be above.
pub proof fn law_where_a_repository_is(dot_git: EntryKind, r: Repository)
    requires
        call_ensures(repository, (dot_git,), r),
    ensures
        r is Here <==> dot_git is Directory,
        r is Elsewhere <==> dot_git is File,
        r is Above <==> dot_git is Other,
{
}

/// Help is asked for by either of its two names, and comes before everything; the
/// version by either of its two, and comes before a run; a run is short exactly if
/// that is asked for.
pub proof fn law_what_arguments_ask_for(args: &Vec<String>, r: Action)
    requires
        call_ensures(action, (args,), r),
    ensures
        ({
            let said = |arg: Seq<char>|
                exists|i: int| 0 <= i < args@.len() && (#[trigger] args@[i])@ == arg;
            let help = said("--help"@) || said("-h"@);
            let version = said("--version"@) || said("-V"@);
            &&& r is Help <==> help
            &&& r is Version <==> !help && version
            &&& r is Run <==> !help && !version
            &&& r matches Action::Run { short } ==> (short <==> said("--short"@))
        }),
{
    arguments_given(args@, "--help"@);
    arguments_given(args@, "-h"@);
    arguments_given(args@, "--version"@);
    arguments_given(args@, "-V"@);
    arguments_given(args@, "--short"@);
}

proof fn arguments_given(args: Seq<String>, arg: Seq<char>)
    ensures
        given(args, arg) <==> exists|i: int| 0 <= i < args.len() && (#[trigger] args[i])@ == arg,
{
    let texts = text::texts(args);
    assert(texts.len() == args.len());
    if given(args, arg) {
        let i = choose|i: int| 0 <= i < texts.len() && texts[i] == arg;
        assert(args[i]@ == arg);
    }
    if exists|i: int| 0 <= i < args.len() && (#[trigger] args[i])@ == arg {
        let i = choose|i: int| 0 <= i < args.len() && (#[trigger] args[i])@ == arg;
        assert(texts[i] == arg);
    }
}

} // verus!
