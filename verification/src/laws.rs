//! The library's general guarantees, stated and proved once over the spec
//! functions that the executable functions' contracts use.

use vstd::prelude::*;
use crate::ast::CmdSpecView;
use crate::ast::QualView;
use crate::ast::RuleView;
use crate::ast::RunAsView;
use crate::ast::Tag;
use crate::eval::QueryView;
use crate::eval::applicable;
use crate::eval::applicable_cmds;
use crate::eval::applicable_entries;
use crate::eval::clause_applies;
use crate::eval::cmd_outcome;
use crate::eval::cmd_parts;
use crate::eval::decision;
use crate::eval::default_runas_ok;
use crate::eval::granted_commands;
use crate::eval::last_applicable;
use crate::eval::lemma_last_applicable_props;
use crate::eval::lemma_last_applicable_unique;
use crate::eval::match_pred;
use crate::eval::permits;
use crate::eval::policy_verdict;
use crate::eval::rule_outcome;
use crate::eval::runas_user_ok;
use crate::tokens::AllView;
use crate::tokens::Command;

verus! {

/// Evaluating the same policy against the same request always yields the
/// same verdict; nothing besides the policy and the request can sway the
/// decision.
pub proof fn law_evaluation_is_pure(
    lines: Seq<Seq<char>>,
    q: QueryView,
    r1: Option<Seq<Tag>>,
    r2: Option<Seq<Tag>>,
)
    requires
        r1 == policy_verdict(lines, q),
        r2 == policy_verdict(lines, q),
    ensures
        r1 == r2,
{
}

/// The last applicable entry of a list fully decides its outcome: the list
/// grants exactly when that entry allows, whatever stands before it.
pub proof fn law_last_applicable_wins<T>(
    items: Seq<QualView<AllView<T>>>,
    p: spec_fn(T) -> bool,
    ix: int,
)
    requires
        0 <= ix < items.len(),
        applicable(items[ix], p),
        forall|j: int| ix < j < items.len() ==> !applicable(#[trigger] items[j], p),
    ensures
        decision(items, p) == (if items[ix].allows() {
            Some(ix)
        } else {
            Option::<int>::None
        }),
{
    lemma_last_applicable_unique(items, p, ix);
}

/// A later applicable forbid overrides an earlier allow: a list of an
/// allow-everything entry followed by a forbid of a matching target denies.
pub proof fn law_later_forbid_overrides<T>(x: T, p: spec_fn(T) -> bool)
    requires
        p(x),
    ensures
        !permits(seq![QualView::Allow(AllView::<T>::All), QualView::Forbid(AllView::Only(x))], p),
{
    let items = seq![QualView::Allow(AllView::<T>::All), QualView::Forbid(AllView::Only(x))];
    assert(applicable(items.last(), p));
}

/// A later applicable allow overrides an earlier forbid: a forbid of a
/// matching target followed by an allow-everything entry grants.
pub proof fn law_later_allow_overrides<T>(x: T, p: spec_fn(T) -> bool)
    requires
        p(x),
    ensures
        permits(seq![QualView::Forbid(AllView::Only(x)), QualView::Allow(AllView::<T>::All)], p),
{
    let items = seq![QualView::Forbid(AllView::Only(x)), QualView::Allow(AllView::<T>::All)];
    assert(applicable(items.last(), p));
}

/// An entry that is not applicable never changes a list's outcome: removing
/// it leaves the decision as it was.
pub proof fn law_inapplicable_invisible<T>(
    items: Seq<QualView<AllView<T>>>,
    p: spec_fn(T) -> bool,
    i: int,
)
    requires
        0 <= i < items.len(),
        !applicable(items[i], p),
    ensures
        permits(items.remove(i), p) == permits(items, p),
    decreases items.len(),
{
    let shorter = items.remove(i);
    if i == items.len() - 1 {
        assert(shorter =~= items.drop_last());
        lemma_last_applicable_props(items.drop_last(), p);
    } else {
        assert(shorter.last() == items.last());
        assert(shorter.drop_last() =~= items.drop_last().remove(i));
        if applicable(items.last(), p) {
        } else {
            assert(!applicable(items.drop_last()[i], p)) by {
                assert(items.drop_last()[i] == items[i]);
            }
            law_inapplicable_invisible(items.drop_last(), p, i);
            lemma_last_applicable_props(items.drop_last(), p);
            lemma_last_applicable_props(items.drop_last().remove(i), p);
        }
    }
}

/// The scan's decisive entry is the last of the applicable subsequence:
/// absent exactly when no entry is applicable.
proof fn lemma_decisive_entry<T>(items: Seq<QualView<AllView<T>>>, p: spec_fn(T) -> bool)
    ensures
        (last_applicable(items, p) is None) == (applicable_entries(items, p).len() == 0),
        match last_applicable(items, p) {
            Some(ix) => items[ix] == applicable_entries(items, p).last(),
            None => true,
        },
    decreases items.len(),
{
    if items.len() > 0 {
        lemma_decisive_entry(items.drop_last(), p);
        if !applicable(items.last(), p) {
            lemma_last_applicable_props(items.drop_last(), p);
        }
    }
}

/// Entries that are never applicable are invisible in full generality: two
/// lists with the same applicable entries — however many inapplicable
/// entries stand inserted or removed anywhere between them — have the same
/// outcome, decided by the same entry.
pub proof fn law_applicable_entries_decide<T>(
    items1: Seq<QualView<AllView<T>>>,
    items2: Seq<QualView<AllView<T>>>,
    p: spec_fn(T) -> bool,
)
    requires
        applicable_entries(items1, p) == applicable_entries(items2, p),
    ensures
        permits(items1, p) == permits(items2, p),
        match (last_applicable(items1, p), last_applicable(items2, p)) {
            (Some(i1), Some(i2)) => items1[i1] == items2[i2],
            (Option::<int>::None, Option::<int>::None) => true,
            _ => false,
        },
{
    lemma_decisive_entry(items1, p);
    lemma_decisive_entry(items2, p);
    lemma_last_applicable_props(items1, p);
    lemma_last_applicable_props(items2, p);
}

/// The command scan's outcome, tags included, is a function of the
/// applicable command entries alone: the tags of the last one when it
/// allows, an explicit deny when it forbids.
proof fn lemma_cmd_outcome_of_applicable(cmds: Seq<CmdSpecView>, cmdline: Seq<char>)
    ensures
        cmd_outcome(cmds, cmdline) == ({
            let vis = applicable_cmds(cmds, cmdline);
            if vis.len() == 0 {
                None
            } else if vis.last().cmd.allows() {
                Some(Some(vis.last().tags))
            } else {
                Some(Option::<Seq<Tag>>::None)
            }
        }),
    decreases cmds.len(),
{
    let p = match_pred::<Command>(cmdline);
    if cmds.len() > 0 {
        lemma_cmd_outcome_of_applicable(cmds.drop_last(), cmdline);
        assert(cmd_parts(cmds).drop_last() =~= cmd_parts(cmds.drop_last()));
        assert(cmd_parts(cmds).last() == cmds.last().cmd);
        if !applicable(cmds.last().cmd, p) {
            lemma_last_applicable_props(cmd_parts(cmds.drop_last()), p);
            assert(forall|j: int| 0 <= j < cmds.len() - 1 ==> cmds.drop_last()[j]
                == #[trigger] cmds[j]);
        }
    } else {
        assert(cmd_parts(cmds) =~= Seq::empty());
    }
}

/// Command entries that are never applicable are invisible in full
/// generality: two command lists with the same applicable entries have the
/// same outcome, tags included.
pub proof fn law_applicable_cmds_decide(
    cmds1: Seq<CmdSpecView>,
    cmds2: Seq<CmdSpecView>,
    cmdline: Seq<char>,
)
    requires
        applicable_cmds(cmds1, cmdline) == applicable_cmds(cmds2, cmdline),
    ensures
        cmd_outcome(cmds1, cmdline) == cmd_outcome(cmds2, cmdline),
{
    lemma_cmd_outcome_of_applicable(cmds1, cmdline);
    lemma_cmd_outcome_of_applicable(cmds2, cmdline);
}

/// A command entry that is not applicable never changes the command scan's
/// outcome, tags included: removing it leaves the outcome as it was.
pub proof fn law_inapplicable_cmd_invisible(cmds: Seq<CmdSpecView>, cmdline: Seq<char>, i: int)
    requires
        0 <= i < cmds.len(),
        !applicable(cmds[i].cmd, match_pred::<Command>(cmdline)),
    ensures
        cmd_outcome(cmds.remove(i), cmdline) == cmd_outcome(cmds, cmdline),
{
    let p = match_pred::<Command>(cmdline);
    let ps = cmd_parts(cmds);
    let shorter = cmds.remove(i);
    let qs = cmd_parts(shorter);
    assert(qs =~= ps.remove(i));
    lemma_last_applicable_props(ps, p);
    lemma_last_applicable_props(qs, p);
    match last_applicable(ps, p) {
        None => {
            assert(forall|j: int| 0 <= j < qs.len() ==> qs[j] == (if j < i {
                ps[j]
            } else {
                ps[j + 1]
            }));
            if let Some(jx) = last_applicable(qs, p) {
                assert(false);
            }
        },
        Some(ix) => {
            assert(ps[i] == cmds[i].cmd);
            assert(ix != i);
            if ix < i {
                assert(qs[ix] == ps[ix]);
                assert(forall|j: int| ix < j < qs.len() ==> !applicable(#[trigger] qs[j], p)) by {
                    assert(forall|j: int| ix < j < qs.len() ==> qs[j] == (if j < i {
                        ps[j]
                    } else {
                        ps[j + 1]
                    }));
                }
                lemma_last_applicable_unique(qs, p, ix);
                assert(shorter[ix] == cmds[ix]);
            } else {
                assert(qs[ix - 1] == ps[ix]);
                assert(forall|j: int| ix - 1 < j < qs.len() ==> !applicable(#[trigger] qs[j], p))
                    by {
                    assert(forall|j: int| ix - 1 < j < qs.len() ==> qs[j] == ps[j + 1]);
                }
                lemma_last_applicable_unique(qs, p, ix - 1);
                assert(shorter[ix - 1] == cmds[ix]);
            }
        },
    }
}

/// An empty policy denies every request.
pub proof fn law_default_deny(q: QueryView)
    ensures
        policy_verdict(Seq::empty(), q) is None,
{
}

/// A rule whose clauses all lack a run-as scope denies every request whose
/// target identity is not the default one (root, and a group root belongs
/// to).
pub proof fn law_missing_runas_targets_root(r: RuleView, q: QueryView)
    requires
        forall|k: int| 0 <= k < r.clauses.len() ==> (#[trigger] r.clauses[k]).runas is None,
        !default_runas_ok(q),
    ensures
        rule_outcome(r, q) is None,
{
    lemma_no_applicable_clause_no_commands(r.clauses, q);
    assert(cmd_parts(Seq::<CmdSpecView>::empty()) =~= Seq::empty());
}

proof fn lemma_no_applicable_clause_no_commands(clauses: Seq<crate::ast::ClauseView>, q: QueryView)
    requires
        forall|k: int| 0 <= k < clauses.len() ==> !clause_applies(#[trigger] clauses[k], q),
    ensures
        granted_commands(clauses, q) == Seq::<CmdSpecView>::empty(),
    decreases clauses.len(),
{
    if clauses.len() > 0 {
        assert(!clause_applies(clauses[0], q));
        assert(forall|k: int| 0 <= k < clauses.len() - 1 ==> clauses.drop_first()[k]
            == #[trigger] clauses[k + 1]);
        lemma_no_applicable_clause_no_commands(clauses.drop_first(), q);
    }
}

/// A run-as scope with an empty target-user list admits the invoking user
/// as target without an explicit listing.
pub proof fn law_self_target_without_listing(ra: RunAsView, q: QueryView)
    requires
        ra.users.len() == 0,
        q.target_user == q.am_user,
    ensures
        runas_user_ok(ra, q),
{
}

/// On a line of one clause whose host list grants the host and whose run-as
/// scope has an empty target-user list, a request by a granted invoking
/// user targeting themselves, with a target group the target user belongs
/// to, is decided by the clause's command scan alone: the grant needs no
/// explicit listing of the target user. (With several clauses a later
/// clause's commands could override, so this holds of single-clause lines.)
pub proof fn law_self_target_grant(r: RuleView, q: QueryView)
    requires
        r.clauses.len() == 1,
        permits(r.users, match_pred::<crate::tokens::UserSpecifier>(q.am_user)),
        match r.clauses[0].runas {
            Some(ra) => ra.users.len() == 0,
            None => false,
        },
        q.target_user == q.am_user,
        crate::eval::spec_in_group(q.target_user, q.target_group),
        permits(r.clauses[0].hosts, match_pred::<crate::tokens::Hostname>(q.host)),
    ensures
        rule_outcome(r, q) == cmd_outcome(r.clauses[0].cmds, q.cmdline),
{
    assert(clause_applies(r.clauses[0], q));
    assert(r.clauses.drop_first().len() == 0);
    assert(granted_commands(r.clauses.drop_first(), q) =~= Seq::<CmdSpecView>::empty());
    assert(r.clauses.first() == r.clauses[0]);
    assert(granted_commands(r.clauses, q) =~= r.clauses[0].cmds);
}

/// Only the decisive command entry — the last applicable one — shapes the
/// command scan's outcome: its tags when it allows, an explicit deny when
/// it forbids. No entry after it is applicable, so earlier entries' tags
/// never leak into the result.
pub proof fn law_tag_propagation(cmds: Seq<CmdSpecView>, cmdline: Seq<char>, ix: int)
    requires
        last_applicable(cmd_parts(cmds), match_pred::<Command>(cmdline)) == Some(ix),
    ensures
        0 <= ix < cmds.len(),
        applicable(cmds[ix].cmd, match_pred::<Command>(cmdline)),
        forall|j: int| ix < j < cmds.len() ==> !applicable(
            (#[trigger] cmds[j]).cmd,
            match_pred::<Command>(cmdline),
        ),
        cmd_outcome(cmds, cmdline) == (if cmds[ix].cmd.allows() {
            Some(Some(cmds[ix].tags))
        } else {
            Some(Option::<Seq<Tag>>::None)
        }),
{
    let ps = cmd_parts(cmds);
    let p = match_pred::<Command>(cmdline);
    lemma_last_applicable_props(ps, p);
    assert(forall|j: int| 0 <= j < cmds.len() ==> ps[j] == (#[trigger] cmds[j]).cmd);
}

} // verus!
