//! The evaluation engine: the last-applicable-entry-wins scan and the
//! decision procedure over whole policies.
//!
//! Given an ordered list of qualified entries and a predicate over entry
//! targets, an entry is *applicable* if it is the wildcard or its specific
//! target satisfies the predicate. Each applicable entry fully replaces the
//! running outcome — allow sets it, forbid clears it — so the last
//! applicable entry wins and entries that are never applicable are
//! invisible.

use vstd::prelude::*;
use crate::ast::ClauseView;
use crate::ast::CmdSpec;
use crate::ast::CmdSpecView;
use crate::ast::QualView;
use crate::ast::Qualified;
use crate::ast::Rule;
use crate::ast::RuleView;
use crate::ast::RunAsView;
use crate::ast::Tag;
use crate::ast::view_seq;
use crate::parse::parse_line_spec;
use crate::tokens::All;
use crate::tokens::AllView;
use crate::tokens::Command;
use crate::tokens::Hostname;
use crate::tokens::UserSpecView;
use crate::tokens::UserSpecifier;

verus! {

// --- string and name predicates ---

/// Are two strings the same sequence of characters?
pub fn exact(s1: &str, s2: &str) -> (r: bool)
    ensures
        r == (s1@ == s2@),
{
    let n = s1.unicode_len();
    let m = s2.unicode_len();
    if n != m {
        return false;
    }
    let mut k: usize = 0;
    while k < n
        invariant
            k <= n,
            n == s1@.len() == s2@.len(),
            forall|q: int| 0 <= q < k ==> s1@[q] == s2@[q],
        decreases n - k,
    {
        if s1.get_char(k) != s2.get_char(k) {
            return false;
        }
        k += 1;
    }
    proof {
        assert(s1@ =~= s2@);
    }
    true
}

/// The placeholder group-membership rule: a user belongs to exactly the
/// group of their own name. A production system would inject a real
/// membership resolver here.
pub open spec fn spec_in_group(user: Seq<char>, group: Seq<char>) -> bool {
    user == group
}

/// Does this user belong to this group, under the default membership rule?
pub fn in_group(user: &str, group: &str) -> (r: bool)
    ensures
        r == spec_in_group(user@, group@),
{
    exact(user, group)
}

/// Does a user specifier apply to the named user: a user entry by name
/// equality, a group entry by group membership?
pub open spec fn user_matches(v: UserSpecView, username: Seq<char>) -> bool {
    match v {
        UserSpecView::User(name) => name == username,
        UserSpecView::Group(group) => spec_in_group(username, group),
    }
}

/// Does this user specifier apply to the named user?
pub fn match_user(username: &str, spec: &UserSpecifier) -> (r: bool)
    ensures
        r == user_matches(spec@, username@),
{
    match spec {
        UserSpecifier::User(name) => exact(name.0.as_str(), username),
        UserSpecifier::Group(group) => in_group(username, group.0.as_str()),
    }
}

/// Does a token's text equal the query text exactly?
pub fn match_token(text: &str, token: &str) -> (r: bool)
    ensures
        r == (token@ == text@),
{
    exact(token, text)
}

// --- the last-applicable-entry-wins scan ---

/// A token type whose parsed values can be matched against a query string.
pub trait Match: View + Sized {
    /// What it means, mathematically, for a value to match a query.
    spec fn match_view(v: Self::V, q: Seq<char>) -> bool;

    /// Decide the match on a concrete value.
    fn matches(&self, q: &str) -> (b: bool)
        ensures
            b == Self::match_view(self@, q@),
    ;
}

impl Match for UserSpecifier {
    open spec fn match_view(v: UserSpecView, q: Seq<char>) -> bool {
        user_matches(v, q)
    }

    fn matches(&self, q: &str) -> (b: bool) {
        match_user(q, self)
    }
}

impl Match for Hostname {
    open spec fn match_view(v: Seq<char>, q: Seq<char>) -> bool {
        v == q
    }

    fn matches(&self, q: &str) -> (b: bool) {
        match_token(q, self.0.as_str())
    }
}

impl Match for Command {
    open spec fn match_view(v: Seq<char>, q: Seq<char>) -> bool {
        v == q
    }

    fn matches(&self, q: &str) -> (b: bool) {
        match_token(q, self.0.as_str())
    }
}

/// The predicate over entry targets induced by a query string.
pub open spec fn match_pred<T: Match>(q: Seq<char>) -> spec_fn(T::V) -> bool {
    |t: T::V| T::match_view(t, q)
}

/// Is this entry applicable: the wildcard, or a specific target that
/// satisfies the predicate?
pub open spec fn applicable<T>(e: QualView<AllView<T>>, p: spec_fn(T) -> bool) -> bool {
    match e.target() {
        AllView::All => true,
        AllView::Only(t) => p(t),
    }
}

/// The index of the last applicable entry, if any.
pub open spec fn last_applicable<T>(items: Seq<QualView<AllView<T>>>, p: spec_fn(T) -> bool) -> Option<int>
    decreases items.len(),
{
    if items.len() == 0 {
        None
    } else if applicable(items.last(), p) {
        Some(items.len() - 1)
    } else {
        last_applicable(items.drop_last(), p)
    }
}

/// The outcome of the scan: the index of the last applicable entry if that
/// entry allows, and no outcome if there is none or it forbids.
pub open spec fn decision<T>(items: Seq<QualView<AllView<T>>>, p: spec_fn(T) -> bool) -> Option<int> {
    match last_applicable(items, p) {
        None => None,
        Some(ix) => if items[ix].allows() {
            Some(ix)
        } else {
            None
        },
    }
}

/// Does the list grant the query: is the last applicable entry an allow?
pub open spec fn permits<T>(items: Seq<QualView<AllView<T>>>, p: spec_fn(T) -> bool) -> bool {
    decision(items, p) is Some
}

/// The last applicable index is an applicable entry after which no entry is
/// applicable; when it is absent, no entry is applicable at all.
pub proof fn lemma_last_applicable_props<T>(items: Seq<QualView<AllView<T>>>, p: spec_fn(T) -> bool)
    ensures
        match last_applicable(items, p) {
            None => forall|j: int| 0 <= j < items.len() ==> !applicable(#[trigger] items[j], p),
            Some(ix) => 0 <= ix < items.len() && applicable(items[ix], p) && forall|j: int|
                ix < j < items.len() ==> !applicable(#[trigger] items[j], p),
        },
    decreases items.len(),
{
    if items.len() > 0 {
        lemma_last_applicable_props(items.drop_last(), p);
        assert(forall|j: int| 0 <= j < items.len() - 1 ==> items.drop_last()[j] == #[trigger] items[j]);
    }
}

/// Conversely, an applicable entry with no applicable entry after it is the
/// last applicable one.
pub proof fn lemma_last_applicable_unique<T>(items: Seq<QualView<AllView<T>>>, p: spec_fn(T) -> bool, ix: int)
    requires
        0 <= ix < items.len(),
        applicable(items[ix], p),
        forall|j: int| ix < j < items.len() ==> !applicable(#[trigger] items[j], p),
    ensures
        last_applicable(items, p) == Some(ix),
    decreases items.len(),
{
    if ix == items.len() - 1 {
    } else {
        assert(!applicable(items.last(), p));
        assert(forall|j: int| 0 <= j < items.len() - 1 ==> items.drop_last()[j] == #[trigger] items[j]);
        lemma_last_applicable_unique(items.drop_last(), p, ix);
    }
}

/// The subsequence of entries that are applicable to the predicate, in
/// source order: all that the scan's outcome can depend on.
pub open spec fn applicable_entries<T>(items: Seq<QualView<AllView<T>>>, p: spec_fn(T) -> bool) -> Seq<
    QualView<AllView<T>>,
>
    decreases items.len(),
{
    if items.len() == 0 {
        Seq::empty()
    } else if applicable(items.last(), p) {
        applicable_entries(items.drop_last(), p).push(items.last())
    } else {
        applicable_entries(items.drop_last(), p)
    }
}

/// Scan an ordered entry list; each applicable entry's direction fully
/// replaces the running result, so the last applicable entry wins. Returns
/// the index of the decisive allowing entry, or nothing when no entry is
/// applicable or the decisive entry forbids.
pub fn find_item<T: Match>(items: &Vec<Qualified<All<T>>>, query: &str) -> (r: Option<usize>)
    ensures
        match r {
            None => decision(view_seq(items@), match_pred::<T>(query@)) is None,
            Some(ix) => decision(view_seq(items@), match_pred::<T>(query@)) == Some(ix as int),
        },
{
    let ghost vs = view_seq(items@);
    let ghost p = match_pred::<T>(query@);
    let mut result: Option<usize> = None;
    let mut k: usize = 0;
    while k < items.len()
        invariant
            k <= items.len(),
            vs == view_seq(items@),
            p == match_pred::<T>(query@),
            vs.len() == items@.len(),
            match result {
                None => decision(vs.take(k as int), p) is None,
                Some(ix) => decision(vs.take(k as int), p) == Some(ix as int) && ix < k,
            },
        decreases items.len() - k,
    {
        let item = &items[k];
        proof {
            assert(vs[k as int] == items@[k as int]@);
        }
        let (allows, target) = match item {
            Qualified::Forbid(t) => (false, t),
            Qualified::Allow(t) => (true, t),
        };
        let is_applicable = match target {
            All::All => true,
            All::Only(x) => x.matches(query),
        };
        proof {
            assert(is_applicable == applicable(vs[k as int], p));
            assert(vs.take(k + 1).drop_last() =~= vs.take(k as int));
            assert(vs.take(k + 1).last() == vs[k as int]);
            lemma_last_applicable_props(vs.take(k as int), p);
            lemma_last_applicable_props(vs.take(k + 1), p);
        }
        if is_applicable {
            result = if allows {
                Some(k)
            } else {
                None
            };
        }
        k += 1;
    }
    proof {
        assert(vs.take(items@.len() as int) =~= vs);
    }
    result
}

// --- deciding one rule line ---

/// One request: who invokes, as which target user and group, on which
/// host, and the exact command line.
pub struct QueryView {
    pub am_user: Seq<char>,
    pub target_user: Seq<char>,
    pub target_group: Seq<char>,
    pub host: Seq<char>,
    pub cmdline: Seq<char>,
}

/// The default target identity that applies when a clause has no run-as
/// scope.
pub open spec fn root_name() -> Seq<char> {
    seq!['r', 'o', 'o', 't']
}

/// Does the run-as scope admit the requested target user? The check is
/// skipped only when the scope's user list is empty and the target user is
/// the invoking user.
pub open spec fn runas_user_ok(ra: RunAsView, q: QueryView) -> bool {
    (ra.users.len() == 0 && q.target_user == q.am_user) || permits(
        ra.users,
        match_pred::<UserSpecifier>(q.target_user),
    )
}

/// Does the run-as scope admit the requested target group? The check is
/// skipped only when the target user is trivially a member of the target
/// group under the default membership rule.
pub open spec fn runas_group_ok(ra: RunAsView, q: QueryView) -> bool {
    spec_in_group(q.target_user, q.target_group) || permits(
        ra.groups,
        match_pred::<UserSpecifier>(q.target_group),
    )
}

/// Without a run-as scope a clause applies only to the default target
/// identity: user root, and a group root is a member of.
pub open spec fn default_runas_ok(q: QueryView) -> bool {
    q.target_user == root_name() && spec_in_group(root_name(), q.target_group)
}

/// Does this clause apply to the request: its host list grants the host,
/// and its run-as scoping admits the requested target identity?
pub open spec fn clause_applies(c: ClauseView, q: QueryView) -> bool {
    permits(c.hosts, match_pred::<Hostname>(q.host)) && match c.runas {
        Some(ra) => runas_user_ok(ra, q) && runas_group_ok(ra, q),
        None => default_runas_ok(q),
    }
}

/// The command entries of all applicable clauses, flattened in source
/// order.
pub open spec fn granted_commands(clauses: Seq<ClauseView>, q: QueryView) -> Seq<CmdSpecView>
    decreases clauses.len(),
{
    if clauses.len() == 0 {
        Seq::empty()
    } else {
        let rest = granted_commands(clauses.drop_first(), q);
        if clause_applies(clauses.first(), q) {
            clauses.first().cmds + rest
        } else {
            rest
        }
    }
}

/// The command targets of a command entry sequence, in order.
pub open spec fn cmd_parts(cmds: Seq<CmdSpecView>) -> Seq<QualView<AllView<Seq<char>>>> {
    cmds.map_values(|c: CmdSpecView| c.cmd)
}

/// The command entries applicable to the command line, in source order:
/// all that the command scan's outcome can depend on.
pub open spec fn applicable_cmds(cmds: Seq<CmdSpecView>, cmdline: Seq<char>) -> Seq<CmdSpecView>
    decreases cmds.len(),
{
    if cmds.len() == 0 {
        Seq::empty()
    } else if applicable(cmds.last().cmd, match_pred::<Command>(cmdline)) {
        applicable_cmds(cmds.drop_last(), cmdline).push(cmds.last())
    } else {
        applicable_cmds(cmds.drop_last(), cmdline)
    }
}

/// The outcome of the command scan. The outer level says whether any entry
/// was applicable at all; when one was, the inner level carries the
/// decisive entry's direction: the tags of a decisive allow, or nothing for
/// a decisive forbid — an explicit deny, which overrides earlier lines.
pub open spec fn cmd_outcome(cmds: Seq<CmdSpecView>, cmdline: Seq<char>) -> Option<Option<Seq<Tag>>> {
    match last_applicable(cmd_parts(cmds), match_pred::<Command>(cmdline)) {
        None => None,
        Some(ix) => if cmd_parts(cmds)[ix].allows() {
            Some(Some(cmds[ix].tags))
        } else {
            Some(None)
        },
    }
}

/// The outcome of one parsed rule line: nothing unless the user list grants
/// the invoking user; otherwise the command scan's outcome over the
/// applicable clauses' commands.
pub open spec fn rule_outcome(r: RuleView, q: QueryView) -> Option<Option<Seq<Tag>>> {
    if permits(r.users, match_pred::<UserSpecifier>(q.am_user)) {
        cmd_outcome(granted_commands(r.clauses, q), q.cmdline)
    } else {
        None
    }
}

/// The outcome of one line of policy text: a line that does not parse
/// contributes nothing.
pub open spec fn line_outcome(l: Seq<char>, q: QueryView) -> Option<Option<Seq<Tag>>> {
    match parse_line_spec(l) {
        None => None,
        Some(r) => rule_outcome(r, q),
    }
}

/// The verdict of a whole policy: the outcome of the last line that has
/// one — a grant with its tags, or a deny from a decisive forbid. An empty
/// policy, or one where no line has an outcome, denies.
pub open spec fn policy_verdict(lines: Seq<Seq<char>>, q: QueryView) -> Option<Seq<Tag>>
    decreases lines.len(),
{
    if lines.len() == 0 {
        None
    } else {
        match line_outcome(lines.last(), q) {
            Some(v) => v,
            None => policy_verdict(lines.drop_last(), q),
        }
    }
}

/// The requested target identity of one evaluation call.
pub struct UserInfo {
    pub user: String,
    pub group: String,
}

fn find_cmd_index(items: &Vec<CmdSpec>, cmdline: &str) -> (r: Option<usize>)
    ensures
        match r {
            None => last_applicable(cmd_parts(view_seq(items@)), match_pred::<Command>(cmdline@)) is None,
            Some(ix) => last_applicable(cmd_parts(view_seq(items@)), match_pred::<Command>(cmdline@))
                == Some(ix as int) && ix < items@.len(),
        },
{
    let ghost ps = cmd_parts(view_seq(items@));
    let ghost p = match_pred::<Command>(cmdline@);
    let mut result: Option<usize> = None;
    let mut k: usize = 0;
    proof {
        assert(ps.len() == items@.len());
    }
    while k < items.len()
        invariant
            k <= items.len(),
            ps == cmd_parts(view_seq(items@)),
            p == match_pred::<Command>(cmdline@),
            ps.len() == items@.len(),
            match result {
                None => last_applicable(ps.take(k as int), p) is None,
                Some(ix) => last_applicable(ps.take(k as int), p) == Some(ix as int) && ix < k,
            },
        decreases items.len() - k,
    {
        let item = &items[k];
        proof {
            assert(view_seq(items@)[k as int] == items@[k as int]@);
            assert(ps[k as int] == items@[k as int]@.cmd);
        }
        let target = match &item.cmd {
            Qualified::Forbid(t) => t,
            Qualified::Allow(t) => t,
        };
        let is_applicable = match target {
            All::All => true,
            All::Only(x) => x.matches(cmdline),
        };
        proof {
            assert(is_applicable == applicable(ps[k as int], p));
            assert(ps.take(k + 1).drop_last() =~= ps.take(k as int));
            assert(ps.take(k + 1).last() == ps[k as int]);
        }
        if is_applicable {
            result = Some(k);
        }
        k += 1;
    }
    proof {
        assert(ps.take(items@.len() as int) =~= ps);
    }
    result
}

/// Decide one parsed rule line against a request: no outcome, an explicit
/// deny, or a grant with the decisive entry's tags.
pub fn eval_rule(rule: Rule, am_user: &str, request: &UserInfo, on_host: &str, cmdline: &str) -> (r: Option<
    Option<Vec<Tag>>,
>)
    ensures
        ({
            let q = (QueryView {
                am_user: am_user@,
                target_user: request.user@,
                target_group: request.group@,
                host: on_host@,
                cmdline: cmdline@,
            });
            match r {
                None => rule_outcome(rule@, q) is None,
                Some(None) => rule_outcome(rule@, q) == Some(Option::<Seq<Tag>>::None),
                Some(Some(v)) => rule_outcome(rule@, q) == Some(Some(v@)),
            }
        }),
{
    let ghost q = (QueryView {
        am_user: am_user@,
        target_user: request.user@,
        target_group: request.group@,
        host: on_host@,
        cmdline: cmdline@,
    });
    if find_item(&rule.users, am_user).is_none() {
        return None;
    }
    let ghost cl0 = view_seq(rule.clauses@);
    let mut combined: Vec<CmdSpec> = Vec::new();
    let mut rest = rule.clauses;
    proof {
        assert(view_seq(rest@) =~= cl0.skip(0));
        assert(view_seq(combined@) =~= Seq::<CmdSpecView>::empty());
    }
    let ghost k: int = 0;
    while rest.len() > 0
        invariant
            0 <= k,
            k + rest@.len() == cl0.len(),
            view_seq(rest@) == cl0.skip(k),
            granted_commands(cl0, q) == view_seq(combined@) + granted_commands(view_seq(rest@), q),
            q == (QueryView {
                am_user: am_user@,
                target_user: request.user@,
                target_group: request.group@,
                host: on_host@,
                cmdline: cmdline@,
            }),
        decreases rest.len(),
    {
        let ghost pre = view_seq(rest@);
        let c = rest.remove(0);
        proof {
            assert(pre.first() == c@);
            assert(view_seq(rest@) =~= pre.drop_first());
            assert(view_seq(rest@) =~= cl0.skip(k + 1));
        }
        let host_ok = find_item(&c.hosts, on_host).is_some();
        let applies: bool = if !host_ok {
            false
        } else {
            match &c.runas {
                Some(ra) => {
                    let user_ok = (ra.users.len() == 0 && exact(request.user.as_str(), am_user))
                        || find_item(&ra.users, request.user.as_str()).is_some();
                    let group_ok = in_group(request.user.as_str(), request.group.as_str())
                        || find_item(&ra.groups, request.group.as_str()).is_some();
                    user_ok && group_ok
                },
                None => {
                    let root_ok = exact(request.user.as_str(), "root") && in_group(
                        "root",
                        request.group.as_str(),
                    );
                    proof {
                        reveal_strlit("root");
                        assert("root"@ =~= root_name());
                    }
                    root_ok
                },
            }
        };
        proof {
            assert(applies == clause_applies(c@, q));
        }
        if applies {
            let ghost old_combined = view_seq(combined@);
            let mut cs = c.cmds;
            combined.append(&mut cs);
            proof {
                assert(view_seq(combined@) =~= old_combined + c@.cmds);
            }
        }
        proof {
            k = k + 1;
        }
    }
    proof {
        assert(view_seq(rest@).len() == 0);
        assert(granted_commands(view_seq(rest@), q) =~= Seq::<CmdSpecView>::empty());
        assert(granted_commands(cl0, q) =~= view_seq(combined@));
    }
    match find_cmd_index(&combined, cmdline) {
        None => None,
        Some(ix) => {
            proof {
                lemma_last_applicable_props(cmd_parts(view_seq(combined@)), match_pred::<Command>(cmdline@));
                assert(cmd_parts(view_seq(combined@))[ix as int] == combined@[ix as int]@.cmd);
            }
            let entry = combined.remove(ix);
            match entry.cmd {
                Qualified::Allow(_) => Some(Some(entry.tags)),
                Qualified::Forbid(_) => Some(None),
            }
        },
    }
}

/// Decide a whole policy, one line string per rule, against a request:
/// the verdict of the last line that has one. A line that does not parse
/// contributes no verdict; absence of any verdict is a deny.
pub fn check_permission(
    sudoers: &Vec<String>,
    am_user: &str,
    request: &UserInfo,
    on_host: &str,
    cmdline: &str,
) -> (r: Option<Vec<Tag>>)
    ensures
        ({
            let q = (QueryView {
                am_user: am_user@,
                target_user: request.user@,
                target_group: request.group@,
                host: on_host@,
                cmdline: cmdline@,
            });
            match r {
                None => policy_verdict(view_seq(sudoers@), q) is None,
                Some(v) => policy_verdict(view_seq(sudoers@), q) == Some(v@),
            }
        }),
{
    let ghost q = (QueryView {
        am_user: am_user@,
        target_user: request.user@,
        target_group: request.group@,
        host: on_host@,
        cmdline: cmdline@,
    });
    let ghost lv = view_seq(sudoers@);
    let mut result: Option<Vec<Tag>> = None;
    let mut k: usize = 0;
    while k < sudoers.len()
        invariant
            k <= sudoers.len(),
            lv == view_seq(sudoers@),
            lv.len() == sudoers@.len(),
            q == (QueryView {
                am_user: am_user@,
                target_user: request.user@,
                target_group: request.group@,
                host: on_host@,
                cmdline: cmdline@,
            }),
            match result {
                None => policy_verdict(lv.take(k as int), q) is None,
                Some(v) => policy_verdict(lv.take(k as int), q) == Some(v@),
            },
        decreases sudoers.len() - k,
    {
        let line: &String = &sudoers[k];
        proof {
            assert(lv[k as int] == sudoers@[k as int]@);
            assert(lv.take(k + 1).drop_last() =~= lv.take(k as int));
            assert(lv.take(k + 1).last() == lv[k as int]);
        }
        match crate::parse::parse_line(line.as_str()) {
            None => {},
            Some(rule) => {
                match eval_rule(rule, am_user, request, on_host, cmdline) {
                    None => {},
                    Some(v) => {
                        result = v;
                    },
                }
            },
        }
        k += 1;
    }
    proof {
        assert(lv.take(sudoers@.len() as int) =~= lv);
    }
    result
}

} // verus!
