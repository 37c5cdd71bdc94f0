//! The parsed shape of one policy line, and its mathematical view.
//!
//! A rule line is an ordered list of qualified user specifiers ("who may
//! invoke this line") and an ordered list of clauses, each pairing a host
//! list with an optional run-as scope and a tagged command list. Every list
//! preserves source order: later entries can override earlier ones.

use vstd::prelude::*;
use crate::tokens::All;
use crate::tokens::AllView;
use crate::tokens::Command;
use crate::tokens::Hostname;
use crate::tokens::UserSpecifier;
use crate::tokens::UserSpecView;

verus! {

/// An allow-or-forbid direction attached to one rule-list entry.
pub enum Qualified<T> {
    Forbid(T),
    Allow(T),
}

/// The mathematical shape of a qualified entry.
pub enum QualView<T> {
    Forbid(T),
    Allow(T),
}

impl<T: View> View for Qualified<T> {
    type V = QualView<T::V>;

    open spec fn view(&self) -> QualView<T::V> {
        match self {
            Qualified::Forbid(t) => QualView::Forbid(t@),
            Qualified::Allow(t) => QualView::Allow(t@),
        }
    }
}

impl<T> QualView<T> {
    /// The wrapped target, regardless of direction.
    pub open spec fn target(self) -> T {
        match self {
            QualView::Forbid(t) => t,
            QualView::Allow(t) => t,
        }
    }

    /// Does this entry allow rather than forbid?
    pub open spec fn allows(self) -> bool {
        self is Allow
    }
}

/// A flag attached to a matched command entry; it is surfaced only when
/// that entry is the decisive match.
#[derive(Clone, Copy, PartialEq, Eq, Debug, Structural)]
pub enum Tag {
    NoPasswd,
}

/// A command entry of a clause: the command target together with the tags
/// that were in force when it was parsed.
pub struct CmdSpec {
    pub tags: Vec<Tag>,
    pub cmd: Qualified<All<Command>>,
}

/// The mathematical shape of a tagged command entry.
pub struct CmdSpecView {
    pub tags: Seq<Tag>,
    pub cmd: QualView<AllView<Seq<char>>>,
}

impl View for CmdSpec {
    type V = CmdSpecView;

    open spec fn view(&self) -> CmdSpecView {
        CmdSpecView { tags: self.tags@, cmd: self.cmd@ }
    }
}

/// The run-as scope of a clause: the permitted target users and the
/// permitted target groups.
pub struct RunAs {
    pub users: Vec<Qualified<All<UserSpecifier>>>,
    pub groups: Vec<Qualified<All<UserSpecifier>>>,
}

/// The mathematical shape of a run-as scope.
pub struct RunAsView {
    pub users: Seq<QualView<AllView<UserSpecView>>>,
    pub groups: Seq<QualView<AllView<UserSpecView>>>,
}

/// The view of a sequence of viewable values, element by element.
pub open spec fn view_seq<T: View>(s: Seq<T>) -> Seq<T::V> {
    s.map_values(|t: T| t@)
}

/// Inserting a value at the front of a sequence puts its view at the front
/// of the sequence's view.
pub proof fn lemma_view_seq_insert_front<T: View>(s: Seq<T>, e: T)
    ensures
        view_seq(s.insert(0, e)) == seq![e@] + view_seq(s),
{
    let lhs = view_seq(s.insert(0, e));
    let rhs = seq![e@] + view_seq(s);
    assert forall|k: int| 0 <= k < lhs.len() implies lhs[k] == rhs[k] by {
        if k == 0 {
            assert(s.insert(0, e)[0] == e);
        } else {
            assert(s.insert(0, e)[k] == s[k - 1]);
        }
    }
    assert(lhs =~= rhs);
}

impl View for RunAs {
    type V = RunAsView;

    open spec fn view(&self) -> RunAsView {
        RunAsView { users: view_seq(self.users@), groups: view_seq(self.groups@) }
    }
}

/// One host/run-as/command grouping within a rule line.
pub struct Clause {
    pub hosts: Vec<Qualified<All<Hostname>>>,
    pub runas: Option<RunAs>,
    pub cmds: Vec<CmdSpec>,
}

/// The mathematical shape of a clause.
pub struct ClauseView {
    pub hosts: Seq<QualView<AllView<Seq<char>>>>,
    pub runas: Option<RunAsView>,
    pub cmds: Seq<CmdSpecView>,
}

impl View for Clause {
    type V = ClauseView;

    open spec fn view(&self) -> ClauseView {
        ClauseView {
            hosts: view_seq(self.hosts@),
            runas: match &self.runas {
                Some(ra) => Some(ra@),
                None => None,
            },
            cmds: view_seq(self.cmds@),
        }
    }
}

/// One parsed policy line: who may invoke it, and its clauses.
pub struct Rule {
    pub users: Vec<Qualified<All<UserSpecifier>>>,
    pub clauses: Vec<Clause>,
}

/// The mathematical shape of a rule line.
pub struct RuleView {
    pub users: Seq<QualView<AllView<UserSpecView>>>,
    pub clauses: Seq<ClauseView>,
}

impl View for Rule {
    type V = RuleView;

    open spec fn view(&self) -> RuleView {
        RuleView { users: view_seq(self.users@), clauses: view_seq(self.clauses@) }
    }
}

} // verus!
