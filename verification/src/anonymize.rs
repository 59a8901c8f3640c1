//! Taking out of a report what could identify people.
use vstd::prelude::*;
use vstd::string::*;
use crate::json::opt_text;
use crate::report::{BranchStat, ProjectStat, Report};
use crate::scan::SessionStat;
use crate::text::{
    decimal, filled, law_filled_numbers_are_told_apart, push_filled, same_text,
};

verus! {

/// The number of sessions with a title among the first `n`.
pub open spec fn titled(sessions: Seq<SessionStat>, n: int) -> nat
    decreases n,
{
    if n <= 0 {
        0
    } else if sessions[n - 1].title is Some {
        titled(sessions, n - 1) + 1
    } else {
        titled(sessions, n - 1)
    }
}

/// The title that stands in for another, by number.
pub open spec fn session_alias(number: nat) -> Seq<char> {
    "Session "@ + filled(decimal(number), 4, '0')
}

/// A branch name that so many repositories have that it tells nothing.
pub open spec fn is_universal(name: Seq<char>) -> bool {
    name == "main"@ || name == "master"@ || name == "develop"@ || name == "HEAD"@ || name == ""@
}

/// The number of branches with a name of their own among the first `n`.
pub open spec fn private_branches(branches: Seq<BranchStat>, n: int) -> nat
    decreases n,
{
    if n <= 0 {
        0
    } else if is_universal(branches[n - 1].name@) {
        private_branches(branches, n - 1)
    } else {
        private_branches(branches, n - 1) + 1
    }
}

/// The name that stands in for that of a branch, by number.
pub open spec fn branch_alias(number: nat) -> Seq<char> {
    "branch-"@ + filled(decimal(number), 2, '0')
}

/// `after` is the session with its file cleared and its title, where it has
/// one, replaced by one with a number; all else as it was.
pub open spec fn session_cleared(after: SessionStat, before: SessionStat, number: nat) -> bool {
    &&& after == (SessionStat { file: after.file, title: after.title, ..before })
    &&& after.file@ == Seq::<char>::empty()
    &&& opt_text(after.title) == match before.title {
        Some(_) => Some(session_alias(number)),
        None => None,
    }
}

/// `after` is the branch with a name that is not universal replaced by one with
/// a number; all else as it was.
pub open spec fn branch_cleared(after: BranchStat, before: BranchStat, number: nat) -> bool {
    &&& after == (BranchStat { name: after.name, ..before })
    &&& after.name@ == if is_universal(before.name@) {
        before.name@
    } else {
        branch_alias(number)
    }
}

/// `after` are the sessions without files, with numbered titles.
pub open spec fn sessions_cleared(after: Seq<SessionStat>, before: Seq<SessionStat>) -> bool {
    &&& after.len() == before.len()
    &&& forall|i: int|
        0 <= i < after.len() ==> session_cleared(
            #[trigger] after[i],
            before[i],
            titled(before, i + 1),
        )
}

/// `after` are the projects without working directories.
pub open spec fn projects_cleared(after: Seq<ProjectStat>, before: Seq<ProjectStat>) -> bool {
    &&& after.len() == before.len()
    &&& forall|i: int|
        0 <= i < after.len() ==> #[trigger] after[i] == (ProjectStat { cwd: None, ..before[i] })
}

/// `after` are the branches with numbered names for those that are not
/// universal.
pub open spec fn branches_cleared(after: Seq<BranchStat>, before: Seq<BranchStat>) -> bool {
    &&& after.len() == before.len()
    &&& forall|i: int|
        0 <= i < after.len() ==> branch_cleared(
            #[trigger] after[i],
            before[i],
            private_branches(before, i + 1),
        )
}

/// `after` is the report without files, titles, working directories and
/// branch names that could identify people; all else as it was.
pub open spec fn anonymized(after: Report, before: Report) -> bool {
    &&& sessions_cleared(after.sessions@, before.sessions@)
    &&& projects_cleared(after.projects@, before.projects@)
    &&& branches_cleared(after.by_branch@, before.by_branch@)
    &&& after == (Report {
        sessions: after.sessions,
        projects: after.projects,
        by_branch: after.by_branch,
        ..before
    })
}

/// Whether so many repositories have the branch name that it tells nothing.
pub fn universal_branch(name: &str) -> (r: bool)
    ensures
        r == is_universal(name@),
{
    same_text(name, "main") || same_text(name, "master") || same_text(name, "develop")
        || same_text(name, "HEAD") || same_text(name, "")
}

fn alias(prefix: &str, number: u64, width: usize) -> (r: String)
    ensures
        r@ == prefix@ + filled(decimal(number as nat), width as nat, '0'),
{
    let mut s = prefix.to_owned();
    push_filled(&mut s, number as u128, width, '0');
    s
}

fn clear_sessions(sessions: &mut Vec<SessionStat>)
    ensures
        sessions_cleared(final(sessions)@, old(sessions)@),
{
    let ghost before = sessions@;
    let n: usize = sessions.len();
    let mut number: u64 = 0;
    for i in 0..n
        invariant
            n == before.len(),
            sessions@.len() == before.len(),
            number == titled(before, i as int),
            number <= i,
            forall|j: int| i <= j < n ==> #[trigger] sessions@[j] == before[j],
            forall|j: int|
                0 <= j < i ==> session_cleared(
                    #[trigger] sessions@[j],
                    before[j],
                    titled(before, j + 1),
                ),
    {
        assert(sessions@[i as int] == before[i as int]);
        let s = &mut sessions[i];
        s.file = String::new();
        if s.title.is_some() {
            number += 1;
            s.title = Some(alias("Session ", number, 4));
        }
    }
}

fn clear_projects(projects: &mut Vec<ProjectStat>)
    ensures
        projects_cleared(final(projects)@, old(projects)@),
{
    let ghost before = projects@;
    let n: usize = projects.len();
    for i in 0..n
        invariant
            n == before.len(),
            projects@.len() == before.len(),
            forall|j: int| i <= j < n ==> #[trigger] projects@[j] == before[j],
            forall|j: int|
                0 <= j < i ==> #[trigger] projects@[j] == (ProjectStat { cwd: None, ..before[j] }),
    {
        assert(projects@[i as int] == before[i as int]);
        let p = &mut projects[i];
        p.cwd = None;
    }
}

fn clear_branches(branches: &mut Vec<BranchStat>)
    ensures
        branches_cleared(final(branches)@, old(branches)@),
{
    let ghost before = branches@;
    let n: usize = branches.len();
    let mut number: u64 = 0;
    for i in 0..n
        invariant
            n == before.len(),
            branches@.len() == before.len(),
            number == private_branches(before, i as int),
            number <= i,
            forall|j: int| i <= j < n ==> #[trigger] branches@[j] == before[j],
            forall|j: int|
                0 <= j < i ==> branch_cleared(
                    #[trigger] branches@[j],
                    before[j],
                    private_branches(before, j + 1),
                ),
    {
        assert(branches@[i as int] == before[i as int]);
        if !universal_branch(branches[i].name.as_str()) {
            number += 1;
            let b = &mut branches[i];
            b.name = alias("branch-", number, 2);
        }
    }
}

/// Takes out of a report what could identify people: the files and titles of
/// sessions, the working directories of projects, and the names of branches
/// that are not universal.
pub fn anonymize_report(r: &mut Report)
    ensures
        anonymized(*final(r), *old(r)),
{
    clear_sessions(&mut r.sessions);
    clear_projects(&mut r.projects);
    clear_branches(&mut r.by_branch);
}

/// The sessions with a title.
pub open spec fn has_title() -> spec_fn(SessionStat) -> bool {
    |s: SessionStat| s.title is Some
}

/// The branches with a name that tells something.
pub open spec fn has_own_name() -> spec_fn(BranchStat) -> bool {
    |b: BranchStat|
        b.name@.len() > 0 && b.name@ != "main"@ && b.name@ != "master"@ && b.name@ != "develop"@
            && b.name@ != "HEAD"@
}

proof fn lemma_titled(sessions: Seq<SessionStat>, n: int)
    requires
        0 <= n <= sessions.len(),
    ensures
        titled(sessions, n) == sessions.take(n).filter(has_title()).len(),
    decreases n,
{
    reveal(Seq::filter);
    if n > 0 {
        lemma_titled(sessions, n - 1);
        assert(sessions.take(n).drop_last() =~= sessions.take(n - 1));
        assert(sessions.take(n).last() == sessions[n - 1]);
    }
}

proof fn lemma_own_names(branches: Seq<BranchStat>, n: int)
    requires
        0 <= n <= branches.len(),
    ensures
        private_branches(branches, n) == branches.take(n).filter(has_own_name()).len(),
    decreases n,
{
    reveal(Seq::filter);
    if n > 0 {
        lemma_own_names(branches, n - 1);
        assert(branches.take(n).drop_last() =~= branches.take(n - 1));
        assert(branches.take(n).last() == branches[n - 1]);
        lemma_universal(branches[n - 1].name@);
    }
}

proof fn lemma_universal(name: Seq<char>)
    ensures
        is_universal(name) <==> name.len() == 0 || name == "main"@ || name == "master"@ || name
            == "develop"@ || name == "HEAD"@,
{
    reveal_strlit("");
    if name.len() == 0 {
        assert(name =~= ""@);
    }
}

/// No session of an anonymized report has a file. Those that had a title have
/// one with a number, of four digits at least, by which they are counted from
/// the first; the others have none. All else that is said of a session stays.
pub proof fn law_files_and_titles_are_taken_out(after: Report, before: Report, i: int)
    requires
        anonymized(after, before),
        0 <= i < before.sessions@.len(),
    ensures
        after.sessions@.len() == before.sessions@.len(),
        ({
            let s = after.sessions@[i];
            let t = before.sessions@[i];
            let number = before.sessions@.take(i + 1).filter(has_title()).len();
            &&& s.file@.len() == 0
            &&& t.title is None ==> s.title is None
            &&& t.title is Some ==> opt_text(s.title) == Some(
                "Session "@ + filled(decimal(number), 4, '0'),
            )
            &&& s.project == t.project && s.session_id == t.session_id
            &&& s.start == t.start && s.end == t.end
            &&& s.active_sec == t.active_sec && s.total_sec == t.total_sec
            &&& s.messages == t.messages && s.tokens == t.tokens && s.cost == t.cost
            &&& s.models == t.models
        }),
{
    assert(session_cleared(
        after.sessions@[i],
        before.sessions@[i],
        titled(before.sessions@, i + 1),
    ));
    lemma_titled(before.sessions@, i + 1);
}

/// No project of an anonymized report has a working directory. All else that is
/// said of it stays.
pub proof fn law_working_directories_are_taken_out(after: Report, before: Report, i: int)
    requires
        anonymized(after, before),
        0 <= i < before.projects@.len(),
    ensures
        after.projects@.len() == before.projects@.len(),
        ({
            let p = after.projects@[i];
            let q = before.projects@[i];
            &&& p.cwd is None
            &&& p.name == q.name && p.first == q.first && p.last == q.last
            &&& p.active_sec == q.active_sec && p.active_sec_union == q.active_sec_union
            &&& p.total_sec == q.total_sec && p.sessions == q.sessions
            &&& p.messages == q.messages && p.tokens == q.tokens && p.cost == q.cost
            &&& p.by_hour == q.by_hour && p.by_weekday == q.by_weekday
            &&& p.by_skill == q.by_skill && p.by_tool == q.by_tool
        }),
{
    assert(after.projects@[i] == (ProjectStat { cwd: None, ..before.projects@[i] }));
}

/// The branches of an anonymized report with a name that tells nothing keep it.
/// The others have one with a number, of two digits at least, by which they are
/// counted from the first. All else that is said of a branch stays.
pub proof fn law_branch_names_are_taken_out(after: Report, before: Report, i: int)
    requires
        anonymized(after, before),
        0 <= i < before.by_branch@.len(),
    ensures
        after.by_branch@.len() == before.by_branch@.len(),
        ({
            let b = after.by_branch@[i];
            let c = before.by_branch@[i];
            let number = before.by_branch@.take(i + 1).filter(has_own_name()).len();
            &&& has_own_name()(c) ==> b.name@ == "branch-"@ + filled(decimal(number), 2, '0')
            &&& !has_own_name()(c) ==> b.name@ == c.name@
            &&& b.active_sec == c.active_sec && b.sessions == c.sessions
            &&& b.messages == c.messages && b.tokens == c.tokens && b.cost == c.cost
        }),
{
    assert(branch_cleared(
        after.by_branch@[i],
        before.by_branch@[i],
        private_branches(before.by_branch@, i + 1),
    ));
    lemma_own_names(before.by_branch@, i + 1);
    lemma_universal(before.by_branch@[i].name@);
}

/// What holds nothing that could identify people stays in an anonymized report.
pub proof fn law_all_else_stays(after: Report, before: Report)
    requires
        anonymized(after, before),
    ensures
        after.summary == before.summary,
        after.daily == before.daily,
        after.by_model == before.by_model,
        after.by_skill == before.by_skill,
        after.by_plugin == before.by_plugin,
        after.by_tool == before.by_tool,
        after.by_mcp_server == before.by_mcp_server,
        after.by_content_type == before.by_content_type,
        after.by_stop_reason == before.by_stop_reason,
        after.by_hour == before.by_hour,
        after.by_weekday == before.by_weekday,
{
}

/// The name that stands in for that of a branch is not universal.
proof fn lemma_alias_is_private(number: nat)
    ensures
        !is_universal(branch_alias(number)),
{
    let s = branch_alias(number);
    reveal_strlit("branch-");
    reveal_strlit("main");
    reveal_strlit("master");
    reveal_strlit("develop");
    reveal_strlit("HEAD");
    reveal_strlit("");
    assert(s[0] == 'b');
    assert("main"@[0] == 'm');
    assert("master"@[0] == 'm');
    assert("develop"@[0] == 'd');
    assert("HEAD"@[0] == 'H');
    assert(""@.len() == 0);
}

proof fn lemma_private_grows(branches: Seq<BranchStat>, m: int, n: int)
    requires
        0 <= m <= n <= branches.len(),
    ensures
        private_branches(branches, m) <= private_branches(branches, n),
    decreases n,
{
    if m < n {
        lemma_private_grows(branches, m, n - 1);
    }
}

/// Two branches with names of their own still have different names when these
/// are taken out.
pub proof fn law_branches_stay_apart(
    after: Seq<BranchStat>,
    before: Seq<BranchStat>,
    i: int,
    j: int,
)
    requires
        branches_cleared(after, before),
        0 <= i < j < before.len(),
        !is_universal(before[i].name@),
        !is_universal(before[j].name@),
    ensures
        after[i].name@ != after[j].name@,
{
    let a = private_branches(before, i + 1);
    let b = private_branches(before, j + 1);
    lemma_private_grows(before, i + 1, j);
    assert(branch_cleared(after[i], before[i], a));
    assert(branch_cleared(after[j], before[j], b));
    law_filled_numbers_are_told_apart(a, b, 2);
    let x = filled(decimal(a), 2, '0');
    let y = filled(decimal(b), 2, '0');
    let n = "branch-"@.len() as int;
    assert(("branch-"@ + x).skip(n) =~= x);
    assert(("branch-"@ + y).skip(n) =~= y);
}

proof fn lemma_titles_stay(after: Seq<SessionStat>, before: Seq<SessionStat>, n: int)
    requires
        sessions_cleared(after, before),
        n <= before.len(),
    ensures
        titled(after, n) == titled(before, n),
    decreases n,
{
    if n > 0 {
        lemma_titles_stay(after, before, n - 1);
        assert(session_cleared(after[n - 1], before[n - 1], titled(before, n)));
    }
}

proof fn lemma_branches_stay(after: Seq<BranchStat>, before: Seq<BranchStat>, n: int)
    requires
        branches_cleared(after, before),
        n <= before.len(),
    ensures
        private_branches(after, n) == private_branches(before, n),
    decreases n,
{
    if n > 0 {
        lemma_branches_stay(after, before, n - 1);
        assert(branch_cleared(after[n - 1], before[n - 1], private_branches(before, n)));
        lemma_alias_is_private(private_branches(before, n));
    }
}

/// Taking out what could identify people a second time changes no title, no
/// file, no working directory and no branch name.
pub proof fn law_anonymizing_again_changes_nothing(twice: Report, once: Report, report: Report)
    requires
        anonymized(once, report),
        anonymized(twice, once),
    ensures
        twice.sessions@.len() == once.sessions@.len(),
        forall|i: int|
            0 <= i < twice.sessions@.len() ==> opt_text((#[trigger] twice.sessions@[i]).title)
                == opt_text(once.sessions@[i].title) && twice.sessions@[i].file@
                == once.sessions@[i].file@,
        twice.projects@ == once.projects@,
        twice.by_branch@.len() == once.by_branch@.len(),
        forall|i: int|
            0 <= i < twice.by_branch@.len() ==> (#[trigger] twice.by_branch@[i]).name@
                == once.by_branch@[i].name@,
{
    assert forall|i: int| 0 <= i < twice.sessions@.len() implies opt_text(
        (#[trigger] twice.sessions@[i]).title,
    ) == opt_text(once.sessions@[i].title) && twice.sessions@[i].file@
        == once.sessions@[i].file@ by {
        lemma_titles_stay(once.sessions@, report.sessions@, i + 1);
        assert(session_cleared(
            once.sessions@[i],
            report.sessions@[i],
            titled(report.sessions@, i + 1),
        ));
    }
    assert forall|i: int| 0 <= i < twice.projects@.len() implies twice.projects@[i]
        == once.projects@[i] by {
        assert(once.projects@[i] == (ProjectStat { cwd: None, ..report.projects@[i] }));
    }
    assert(twice.projects@ =~= once.projects@);
    assert forall|i: int| 0 <= i < twice.by_branch@.len() implies (
    #[trigger] twice.by_branch@[i]).name@ == once.by_branch@[i].name@ by {
        lemma_branches_stay(once.by_branch@, report.by_branch@, i + 1);
        assert(branch_cleared(
            once.by_branch@[i],
            report.by_branch@[i],
            private_branches(report.by_branch@, i + 1),
        ));
        lemma_alias_is_private(private_branches(report.by_branch@, i + 1));
    }
}

} // verus!
