//! The duplicate resolver: what happens to the duplicate groups once they
//! are known.
//!
//! One of four dispositions is selected from the operator's flags, by
//! precedence: dry run, then interactive, then automatic deletion, then no
//! action. A report, if one is asked for, is written first, whatever the
//! disposition and however many groups there are: with no group the report
//! is empty, and it is still written.
//!
//! Printing, prompting, writing and deleting are done by the caller. The
//! resolver decides: it is a state machine that is handed what happened and
//! answers with what to do next.

use crate::hash_grouper::{duplicates_of, group_views, DuplicateGroup, GroupView};
use crate::report::{render_report, report_text};
use crate::text::{lemma_text_views_push, text_views};
use vstd::prelude::*;

verus! {

/// What is done with the duplicates that were found.
#[derive(Clone, Copy, Debug, PartialEq, Eq, Structural)]
pub enum Disposition {
    /// List the files that would be deleted; delete nothing.
    DryRun,
    /// Ask the operator, group by group, which duplicates to delete.
    Interactive,
    /// Delete every duplicate, keeping the original of each group.
    AutoDelete,
    /// Do nothing beyond reporting.
    NoAction,
}

/// The disposition that the flags select: a dry run overrides everything,
/// interactive removal overrides automatic removal.
pub open spec fn disposition_of(
    dry_run: bool,
    interactive: bool,
    auto_delete: bool,
) -> Disposition {
    if dry_run {
        Disposition::DryRun
    } else if interactive {
        Disposition::Interactive
    } else if auto_delete {
        Disposition::AutoDelete
    } else {
        Disposition::NoAction
    }
}

/// Selects the disposition from the operator's flags.
pub fn select_disposition(dry_run: bool, interactive: bool, auto_delete: bool) -> (mode:
    Disposition)
    ensures
        mode == disposition_of(dry_run, interactive, auto_delete),
{
    if dry_run {
        Disposition::DryRun
    } else if interactive {
        Disposition::Interactive
    } else if auto_delete {
        Disposition::AutoDelete
    } else {
        Disposition::NoAction
    }
}

/// Every duplicate of every group: the members after the first, group by
/// group.
pub open spec fn removal_candidates(groups: Seq<GroupView>) -> Seq<Seq<char>> {
    groups.map_values(|group: GroupView| duplicates_of(group)).flatten()
}

/// Whether `index` names one of `count` duplicates.
pub open spec fn names_one_of(count: nat) -> spec_fn(usize) -> bool {
    |index: usize| index < count
}

/// The duplicates that a selection names, in the order of the selection. An
/// index that names no duplicate selects nothing.
pub open spec fn chosen(duplicates: Seq<Seq<char>>, selection: Seq<usize>) -> Seq<Seq<char>> {
    selection.filter(names_one_of(duplicates.len())).map_values(
        |index: usize| duplicates[index as int],
    )
}

/// Copies of the paths of every duplicate of every group.
pub fn all_duplicates(groups: &Vec<DuplicateGroup>) -> (paths: Vec<String>)
    ensures
        text_views(paths@) == removal_candidates(group_views(groups@)),
{
    let ghost views = group_views(groups@);
    let ghost lists = views.map_values(|group: GroupView| duplicates_of(group));
    let mut paths: Vec<String> = Vec::new();
    let mut g: usize = 0;
    assert(lists.take(0).flatten() =~= Seq::<Seq<char>>::empty());
    while g < groups.len()
        invariant
            g <= groups@.len(),
            views == group_views(groups@),
            lists == views.map_values(|group: GroupView| duplicates_of(group)),
            text_views(paths@) == lists.take(g as int).flatten(),
        decreases groups@.len() - g,
    {
        let mut more = groups[g].duplicates();
        proof {
            assert(lists.take(g + 1) =~= lists.take(g as int).push(text_views(more@)));
            lists.take(g as int).lemma_flatten_push(text_views(more@));
        }
        let ghost earlier = paths@;
        let ghost added = more@;
        paths.append(&mut more);
        assert(text_views(paths@) =~= text_views(earlier) + text_views(added));
        g += 1;
    }
    assert(lists.take(groups@.len() as int) =~= lists);
    paths
}

/// Copies of the paths of the duplicates of `group` that `selection` names.
pub fn chosen_duplicates(group: &DuplicateGroup, selection: &Vec<usize>) -> (paths: Vec<String>)
    ensures
        text_views(paths@) == chosen(duplicates_of(group@), selection@),
{
    let members = group.members();
    let ghost duplicates = duplicates_of(group@);
    let ghost valid = names_one_of(duplicates.len());
    let mut paths: Vec<String> = Vec::new();
    let mut s: usize = 0;
    proof {
        reveal(Seq::filter);
        assert(selection@.take(0) =~= Seq::<usize>::empty());
    }
    while s < selection.len()
        invariant
            s <= selection@.len(),
            members@.len() >= 2,
            text_views(members@) == group@.members,
            duplicates == duplicates_of(group@),
            valid == names_one_of(duplicates.len()),
            text_views(paths@) == chosen(duplicates, selection@.take(s as int)),
        decreases selection@.len() - s,
    {
        let index = selection[s];
        proof {
            reveal(Seq::filter);
            assert(selection@.take(s + 1).drop_last() =~= selection@.take(s as int));
        }
        if index < members.len() - 1 {
            let path = members[index + 1].clone();
            proof {
                lemma_text_views_push(paths@, path);
                assert(path@ == duplicates[index as int]);
                assert(chosen(duplicates, selection@.take(s + 1)) =~= chosen(
                    duplicates,
                    selection@.take(s as int),
                ).push(duplicates[index as int]));
            }
            paths.push(path);
        }
        s += 1;
    }
    assert(selection@.take(selection@.len() as int) =~= selection@);
    paths
}

/// Where the resolver stands.
#[derive(Clone, Copy, Debug, PartialEq, Eq, Structural)]
pub enum Phase {
    /// Nothing has been done yet.
    Start,
    /// The report is being written.
    Reporting,
    /// The dry-run listing is being shown.
    Previewing,
    /// The operator is being told that nothing will be removed.
    Idling,
    /// The operator is being asked about the group with this index.
    Prompting(usize),
    /// Files of the group with this index are being deleted.
    Removing(usize),
    /// All is done.
    Finished,
    /// The run was given up.
    Aborted,
}

/// What the caller reports back to the resolver.
#[derive(Debug, PartialEq, Eq)]
pub enum ResolverEvent {
    /// The duplicate groups are known; resolution starts.
    Begin,
    /// The last action was carried out.
    Completed,
    /// The last action failed, in part or in whole.
    Failed,
    /// The operator selected the duplicates with these indices, counted from
    /// zero.
    Selection(Vec<usize>),
}

/// What the resolver asks the caller to do.
#[derive(Debug, PartialEq, Eq)]
pub enum ResolverAction {
    /// Write `text` to the file at `path`.
    WriteReport { path: String, text: String },
    /// Show these files as the ones that would be deleted.
    Preview(Vec<String>),
    /// Show the group and ask which of `duplicates` to delete.
    Prompt { original: String, duplicates: Vec<String> },
    /// Delete these files, each one whether or not the others could be
    /// deleted.
    Delete(Vec<String>),
    /// Tell the operator that nothing is removed without a removal flag.
    NoAction,
    /// Tell the operator that there are no duplicates, and stop.
    NothingFound,
    /// Stop: all is done.
    Finish,
    /// Stop: the run cannot go on.
    Abort,
}

/// An action as a mathematical value.
pub enum ActionView {
    WriteReport { path: Seq<char>, text: Seq<char> },
    Preview(Seq<Seq<char>>),
    Prompt { original: Seq<char>, duplicates: Seq<Seq<char>> },
    Delete(Seq<Seq<char>>),
    NoAction,
    NothingFound,
    Finish,
    Abort,
}

impl View for ResolverAction {
    type V = ActionView;

    open spec fn view(&self) -> ActionView {
        match *self {
            ResolverAction::WriteReport { path, text } => ActionView::WriteReport {
                path: path@,
                text: text@,
            },
            ResolverAction::Preview(paths) => ActionView::Preview(text_views(paths@)),
            ResolverAction::Prompt { original, duplicates } => ActionView::Prompt {
                original: original@,
                duplicates: text_views(duplicates@),
            },
            ResolverAction::Delete(paths) => ActionView::Delete(text_views(paths@)),
            ResolverAction::NoAction => ActionView::NoAction,
            ResolverAction::NothingFound => ActionView::NothingFound,
            ResolverAction::Finish => ActionView::Finish,
            ResolverAction::Abort => ActionView::Abort,
        }
    }
}

/// Turning to the group with index `g`: there is none left, or the operator
/// is asked, or its duplicates are deleted.
pub open spec fn enter_group(mode: Disposition, groups: Seq<GroupView>, g: int) -> (
    Phase,
    ActionView,
) {
    if g >= groups.len() {
        (Phase::Finished, ActionView::Finish)
    } else {
        match mode {
            Disposition::Interactive => (
                Phase::Prompting(g as usize),
                ActionView::Prompt {
                    original: groups[g].members[0],
                    duplicates: duplicates_of(groups[g]),
                },
            ),
            Disposition::AutoDelete => (
                Phase::Removing(g as usize),
                ActionView::Delete(duplicates_of(groups[g])),
            ),
            _ => (Phase::Aborted, ActionView::Abort),
        }
    }
}

/// Turning to the disposition, once the report is out of the way.
pub open spec fn enter_mode(mode: Disposition, groups: Seq<GroupView>) -> (Phase, ActionView) {
    match mode {
        Disposition::DryRun => (
            Phase::Previewing,
            ActionView::Preview(removal_candidates(groups)),
        ),
        Disposition::NoAction => (Phase::Idling, ActionView::NoAction),
        _ => enter_group(mode, groups, 0),
    }
}

/// What follows the report, or the start when no report is asked for: with
/// no groups the operator is told so and the run ends, otherwise the
/// disposition takes over.
pub open spec fn after_report(mode: Disposition, groups: Seq<GroupView>) -> (Phase, ActionView) {
    if groups.len() == 0 {
        (Phase::Finished, ActionView::NothingFound)
    } else {
        enter_mode(mode, groups)
    }
}

/// The transition function of the resolver: the phase that follows `phase`
/// on `event`, and the action that the caller is asked for.
///
/// A report that is asked for is written first, whatever the disposition
/// and whether or not there are groups: with none it is empty. A failed
/// report or a failed deletion does not stop the run. A failed prompt does,
/// and so does an event that the phase does not expect.
pub open spec fn step(
    mode: Disposition,
    report: Option<Seq<char>>,
    groups: Seq<GroupView>,
    phase: Phase,
    event: ResolverEvent,
) -> (Phase, ActionView) {
    match phase {
        Phase::Start => match event {
            ResolverEvent::Begin => match report {
                Some(path) => (
                    Phase::Reporting,
                    ActionView::WriteReport { path, text: report_text(groups) },
                ),
                None => after_report(mode, groups),
            },
            _ => (Phase::Aborted, ActionView::Abort),
        },
        Phase::Reporting => match event {
            ResolverEvent::Completed | ResolverEvent::Failed => after_report(mode, groups),
            _ => (Phase::Aborted, ActionView::Abort),
        },
        Phase::Previewing | Phase::Idling => match event {
            ResolverEvent::Completed | ResolverEvent::Failed => (
                Phase::Finished,
                ActionView::Finish,
            ),
            _ => (Phase::Aborted, ActionView::Abort),
        },
        Phase::Prompting(g) => match event {
            ResolverEvent::Selection(selection) => if mode == Disposition::Interactive && g
                < groups.len() {
                (
                    Phase::Removing(g),
                    ActionView::Delete(chosen(duplicates_of(groups[g as int]), selection@)),
                )
            } else {
                (Phase::Aborted, ActionView::Abort)
            },
            _ => (Phase::Aborted, ActionView::Abort),
        },
        Phase::Removing(g) => match event {
            ResolverEvent::Completed | ResolverEvent::Failed => if g < groups.len() {
                enter_group(mode, groups, g + 1)
            } else {
                (Phase::Aborted, ActionView::Abort)
            },
            _ => (Phase::Aborted, ActionView::Abort),
        },
        Phase::Finished => (Phase::Finished, ActionView::Finish),
        Phase::Aborted => (Phase::Aborted, ActionView::Abort),
    }
}

/// The resolver: a disposition, an optional report path, the duplicate
/// groups, and the phase reached.
pub struct Resolver {
    mode: Disposition,
    report: Option<String>,
    groups: Vec<DuplicateGroup>,
    phase: Phase,
}

/// A resolver as a mathematical value.
pub struct ResolverView {
    pub mode: Disposition,
    pub report: Option<Seq<char>>,
    pub groups: Seq<GroupView>,
    pub phase: Phase,
}

impl View for Resolver {
    type V = ResolverView;

    closed spec fn view(&self) -> ResolverView {
        ResolverView {
            mode: self.mode,
            report: match self.report {
                Some(path) => Some(path@),
                None => None,
            },
            groups: group_views(self.groups@),
            phase: self.phase,
        }
    }
}

impl Resolver {
    /// A resolver at its start, for the given flags and groups.
    pub fn new(
        dry_run: bool,
        interactive: bool,
        auto_delete: bool,
        report: Option<String>,
        groups: Vec<DuplicateGroup>,
    ) -> (resolver: Resolver)
        ensures
            resolver@ == (ResolverView {
                mode: disposition_of(dry_run, interactive, auto_delete),
                report: match report {
                    Some(path) => Some(path@),
                    None => None,
                },
                groups: group_views(groups@),
                phase: Phase::Start,
            }),
    {
        Resolver {
            mode: select_disposition(dry_run, interactive, auto_delete),
            report,
            groups,
            phase: Phase::Start,
        }
    }

    /// The disposition in force.
    pub fn mode(&self) -> (mode: Disposition)
        ensures
            mode == self@.mode,
    {
        self.mode
    }

    /// The phase reached.
    pub fn phase(&self) -> (phase: Phase)
        ensures
            phase == self@.phase,
    {
        self.phase
    }

    /// The duplicate groups being resolved.
    pub fn groups(&self) -> (groups: &Vec<DuplicateGroup>)
        ensures
            group_views(groups@) == self@.groups,
    {
        &self.groups
    }

    /// Turns to the group with index `g`.
    fn enter_group(&mut self, g: usize) -> (action: ResolverAction)
        ensures
            final(self)@ == (ResolverView {
                phase: enter_group(old(self)@.mode, old(self)@.groups, g as int).0,
                ..old(self)@
            }),
            action@ == enter_group(old(self)@.mode, old(self)@.groups, g as int).1,
    {
        if g >= self.groups.len() {
            self.phase = Phase::Finished;
            ResolverAction::Finish
        } else {
            match self.mode {
                Disposition::Interactive => {
                    let original = self.groups[g].original().clone();
                    let duplicates = self.groups[g].duplicates();
                    self.phase = Phase::Prompting(g);
                    ResolverAction::Prompt { original, duplicates }
                },
                Disposition::AutoDelete => {
                    let duplicates = self.groups[g].duplicates();
                    self.phase = Phase::Removing(g);
                    ResolverAction::Delete(duplicates)
                },
                _ => {
                    self.phase = Phase::Aborted;
                    ResolverAction::Abort
                },
            }
        }
    }

    /// Turns to the disposition.
    fn enter_mode(&mut self) -> (action: ResolverAction)
        ensures
            final(self)@ == (ResolverView {
                phase: enter_mode(old(self)@.mode, old(self)@.groups).0,
                ..old(self)@
            }),
            action@ == enter_mode(old(self)@.mode, old(self)@.groups).1,
    {
        match self.mode {
            Disposition::DryRun => {
                let paths = all_duplicates(&self.groups);
                self.phase = Phase::Previewing;
                ResolverAction::Preview(paths)
            },
            Disposition::NoAction => {
                self.phase = Phase::Idling;
                ResolverAction::NoAction
            },
            _ => self.enter_group(0),
        }
    }

    /// Goes on after the report, or from the start without one.
    fn after_report(&mut self) -> (action: ResolverAction)
        ensures
            final(self)@ == (ResolverView {
                phase: after_report(old(self)@.mode, old(self)@.groups).0,
                ..old(self)@
            }),
            action@ == after_report(old(self)@.mode, old(self)@.groups).1,
    {
        if self.groups.len() == 0 {
            self.phase = Phase::Finished;
            ResolverAction::NothingFound
        } else {
            self.enter_mode()
        }
    }

    /// Gives the run up.
    fn abort(&mut self) -> (action: ResolverAction)
        ensures
            final(self)@ == (ResolverView { phase: Phase::Aborted, ..old(self)@ }),
            action@ == ActionView::Abort,
    {
        self.phase = Phase::Aborted;
        ResolverAction::Abort
    }

    /// Takes in what happened and answers with what to do next.
    ///
    /// Only the phase changes, and it changes as `step` says; the action is
    /// the one that `step` gives.
    pub fn advance(&mut self, event: ResolverEvent) -> (action: ResolverAction)
        ensures
            final(self)@ == (ResolverView {
                phase: step(
                    old(self)@.mode,
                    old(self)@.report,
                    old(self)@.groups,
                    old(self)@.phase,
                    event,
                ).0,
                ..old(self)@
            }),
            action@ == step(
                old(self)@.mode,
                old(self)@.report,
                old(self)@.groups,
                old(self)@.phase,
                event,
            ).1,
    {
        match self.phase {
            Phase::Start => match event {
                ResolverEvent::Begin => match &self.report {
                    Some(path) => {
                        let path = path.clone();
                        let text = render_report(&self.groups);
                        self.phase = Phase::Reporting;
                        ResolverAction::WriteReport { path, text }
                    },
                    None => self.after_report(),
                },
                _ => self.abort(),
            },
            Phase::Reporting => match event {
                ResolverEvent::Completed | ResolverEvent::Failed => self.after_report(),
                _ => self.abort(),
            },
            Phase::Previewing | Phase::Idling => match event {
                ResolverEvent::Completed | ResolverEvent::Failed => {
                    self.phase = Phase::Finished;
                    ResolverAction::Finish
                },
                _ => self.abort(),
            },
            Phase::Prompting(g) => match event {
                ResolverEvent::Selection(selection) => {
                    if self.mode == Disposition::Interactive && g < self.groups.len() {
                        let paths = chosen_duplicates(&self.groups[g], &selection);
                        self.phase = Phase::Removing(g);
                        ResolverAction::Delete(paths)
                    } else {
                        self.abort()
                    }
                },
                _ => self.abort(),
            },
            Phase::Removing(g) => match event {
                ResolverEvent::Completed | ResolverEvent::Failed => {
                    if g < self.groups.len() {
                        self.enter_group(g + 1)
                    } else {
                        self.abort()
                    }
                },
                _ => self.abort(),
            },
            Phase::Finished => ResolverAction::Finish,
            Phase::Aborted => ResolverAction::Abort,
        }
    }
}

/// A report that is asked for is always written, and written first:
/// whatever the disposition, and also when there is no group at all, the
/// first action is to write the listing of the groups to the given path.
/// What follows does not depend on whether the writing succeeded.
pub proof fn law_report_is_always_written(
    mode: Disposition,
    path: Seq<char>,
    groups: Seq<GroupView>,
)
    ensures
        step(mode, Some(path), groups, Phase::Start, ResolverEvent::Begin) == (
            Phase::Reporting,
            ActionView::WriteReport { path, text: report_text(groups) },
        ),
        step(mode, Some(path), groups, Phase::Reporting, ResolverEvent::Completed) == step(
            mode,
            Some(path),
            groups,
            Phase::Reporting,
            ResolverEvent::Failed,
        ),
        step(mode, Some(path), groups, Phase::Reporting, ResolverEvent::Completed) == step(
            mode,
            None,
            groups,
            Phase::Start,
            ResolverEvent::Begin,
        ),
{
}

/// In a dry run nothing is deleted: whatever the other flags, the phase and
/// the event, no step asks for a deletion.
pub proof fn law_dry_run_never_deletes(
    interactive: bool,
    auto_delete: bool,
    report: Option<Seq<char>>,
    groups: Seq<GroupView>,
    phase: Phase,
    event: ResolverEvent,
)
    ensures
        !(step(
            disposition_of(true, interactive, auto_delete),
            report,
            groups,
            phase,
            event,
        ).1 is Delete),
{
}

/// Interactive removal overrides automatic removal: with both flags set
/// every group is put to the operator, and nothing is deleted that was not
/// selected.
pub proof fn law_interactive_overrides_auto_delete(
    auto_delete: bool,
    groups: Seq<GroupView>,
    g: int,
)
    requires
        0 <= g < groups.len(),
    ensures
        enter_group(disposition_of(false, true, auto_delete), groups, g).1 is Prompt,
{
}

/// A deletion is asked for only under interactive or automatic removal, and
/// only of duplicates of one group: of members after the first.
pub proof fn law_only_duplicates_are_deleted(
    mode: Disposition,
    report: Option<Seq<char>>,
    groups: Seq<GroupView>,
    phase: Phase,
    event: ResolverEvent,
)
    requires
        step(mode, report, groups, phase, event).1 is Delete,
    ensures
        mode == Disposition::Interactive || mode == Disposition::AutoDelete,
        exists|g: int|
            0 <= g < groups.len() && forall|m: int|
                0 <= m < step(mode, report, groups, phase, event).1->Delete_0.len()
                    ==> duplicates_of(#[trigger] groups[g]).contains(
                    step(mode, report, groups, phase, event).1->Delete_0[m],
                ),
{
    let paths = step(mode, report, groups, phase, event).1->Delete_0;
    match phase {
        Phase::Prompting(g) => {
            let selection = event->Selection_0@;
            let duplicates = duplicates_of(groups[g as int]);
            let valid = names_one_of(duplicates.len());
            assert forall|m: int| 0 <= m < paths.len() implies duplicates.contains(paths[m]) by {
                selection.lemma_filter_pred(valid, m);
                let index = selection.filter(valid)[m];
                assert(duplicates[index as int] == paths[m]);
            }
            assert(0 <= g < groups.len() && forall|m: int|
                0 <= m < paths.len() ==> duplicates_of(#[trigger] groups[g as int]).contains(
                    paths[m],
                ));
        },
        Phase::Removing(g) => {
            let next = g + 1;
            assert forall|m: int| 0 <= m < paths.len() implies duplicates_of(
                groups[next],
            ).contains(paths[m]) by {
                assert(duplicates_of(groups[next])[m] == paths[m]);
            }
            assert(0 <= next < groups.len() && forall|m: int|
                0 <= m < paths.len() ==> duplicates_of(#[trigger] groups[next]).contains(paths[m]));
        },
        _ => {
            assert forall|m: int| 0 <= m < paths.len() implies duplicates_of(groups[0]).contains(
                paths[m],
            ) by {
                assert(duplicates_of(groups[0])[m] == paths[m]);
            }
            assert(0 <= 0 < groups.len() && forall|m: int|
                0 <= m < paths.len() ==> duplicates_of(#[trigger] groups[0]).contains(paths[m]));
        },
    }
}

/// The run of a resolver that is handed `events` one after the other: the
/// phase it reaches, and the files it has asked to delete, in order.
pub open spec fn run(
    mode: Disposition,
    report: Option<Seq<char>>,
    groups: Seq<GroupView>,
    events: Seq<ResolverEvent>,
) -> (Phase, Seq<Seq<char>>)
    decreases events.len(),
{
    if events.len() == 0 {
        (Phase::Start, Seq::empty())
    } else {
        let before = run(mode, report, groups, events.drop_last());
        let next = step(mode, report, groups, before.0, events.last());
        (
            next.0,
            match next.1 {
                ActionView::Delete(paths) => before.1 + paths,
                _ => before.1,
            },
        )
    }
}

/// The events of a run in which nothing fails and nobody is asked: the
/// start, then `n` completed actions.
pub open spec fn undisturbed(n: nat) -> Seq<ResolverEvent> {
    seq![ResolverEvent::Begin] + Seq::new(n, |k: int| ResolverEvent::Completed)
}

/// The number of completed actions after which `k` deletions are done: `k`,
/// and one more if a report is written first.
pub open spec fn completions(report: Option<Seq<char>>, k: int) -> nat {
    if report is Some {
        (k + 1) as nat
    } else {
        k as nat
    }
}

/// In a dry run nothing is deleted, whatever happens and however long it
/// goes on.
pub proof fn law_dry_run_deletes_nothing(
    interactive: bool,
    auto_delete: bool,
    report: Option<Seq<char>>,
    groups: Seq<GroupView>,
    events: Seq<ResolverEvent>,
)
    ensures
        run(disposition_of(true, interactive, auto_delete), report, groups, events).1
            == Seq::<Seq<char>>::empty(),
    decreases events.len(),
{
    if events.len() > 0 {
        law_dry_run_deletes_nothing(interactive, auto_delete, report, groups, events.drop_last());
    }
}

/// Without a removal flag nothing is deleted either.
pub proof fn law_no_flags_delete_nothing(
    report: Option<Seq<char>>,
    groups: Seq<GroupView>,
    events: Seq<ResolverEvent>,
)
    ensures
        run(disposition_of(false, false, false), report, groups, events).1
            == Seq::<Seq<char>>::empty(),
    decreases events.len(),
{
    if events.len() > 0 {
        law_no_flags_delete_nothing(report, groups, events.drop_last());
    }
}

/// How far automatic removal has come after the start and `k` completed
/// deletions: it is deleting the duplicates of the group with index `k`, and
/// has asked for the duplicates of every group up to that one.
proof fn lemma_auto_delete_progress(report: Option<Seq<char>>, groups: Seq<GroupView>, k: int)
    requires
        0 <= k < groups.len() <= usize::MAX,
    ensures
        run(Disposition::AutoDelete, report, groups, undisturbed(completions(report, k))) == (
            Phase::Removing(k as usize),
            removal_candidates(groups.take(k + 1)),
        ),
    decreases k,
{
    let mode = Disposition::AutoDelete;
    let lists = groups.map_values(|group: GroupView| duplicates_of(group));
    let events = undisturbed(completions(report, k));
    assert(groups.take(k + 1).map_values(|group: GroupView| duplicates_of(group)) =~= lists.take(
        k + 1,
    ));
    if k == 0 {
        let first = seq![ResolverEvent::Begin];
        assert(first.drop_last() =~= Seq::<ResolverEvent>::empty());
        assert(run(mode, report, groups, first.drop_last()).0 == Phase::Start);
        assert(lists.take(1) =~= Seq::<Seq<Seq<char>>>::empty().push(lists[0]));
        Seq::<Seq<Seq<char>>>::empty().lemma_flatten_push(lists[0]);
        if report is Some {
            assert(events.drop_last() =~= first);
            assert(events.last() == ResolverEvent::Completed);
            assert(run(mode, report, groups, first).0 == Phase::Reporting);
            assert(run(mode, report, groups, first).1 =~= Seq::<Seq<char>>::empty());
            assert(run(mode, report, groups, events).1 =~= removal_candidates(groups.take(1)));
        } else {
            assert(events =~= first);
            assert(run(mode, report, groups, events).1 =~= removal_candidates(groups.take(1)));
        }
    } else {
        let before = undisturbed(completions(report, k - 1));
        lemma_auto_delete_progress(report, groups, k - 1);
        assert(events.drop_last() =~= before);
        assert(events.last() == ResolverEvent::Completed);
        assert(groups.take(k).map_values(|group: GroupView| duplicates_of(group)) =~= lists.take(
            k,
        ));
        assert(lists.take(k + 1) =~= lists.take(k).push(lists[k]));
        lists.take(k).lemma_flatten_push(lists[k]);
    }
}

/// Automatic removal, left to run, deletes every duplicate of every group,
/// group by group, and nothing else: the original of each group remains.
pub proof fn law_auto_delete_removes_every_duplicate(
    report: Option<Seq<char>>,
    groups: Seq<GroupView>,
)
    requires
        groups.len() <= usize::MAX,
    ensures
        run(
            disposition_of(false, false, true),
            report,
            groups,
            undisturbed(completions(report, groups.len() as int)),
        ) == (Phase::Finished, removal_candidates(groups)),
{
    let mode = Disposition::AutoDelete;
    let n = groups.len() as int;
    let events = undisturbed(completions(report, n));
    if n == 0 {
        let first = seq![ResolverEvent::Begin];
        assert(first.drop_last() =~= Seq::<ResolverEvent>::empty());
        assert(run(mode, report, groups, first.drop_last()).0 == Phase::Start);
        assert(run(mode, report, groups, first).1 =~= Seq::<Seq<char>>::empty());
        assert(removal_candidates(groups) =~= Seq::<Seq<char>>::empty());
        if report is Some {
            assert(run(mode, report, groups, first).0 == Phase::Reporting);
            assert(events.drop_last() =~= first);
            assert(events.last() == ResolverEvent::Completed);
        } else {
            assert(run(mode, report, groups, first).0 == Phase::Finished);
            assert(events =~= first);
        }
    } else {
        lemma_auto_delete_progress(report, groups, n - 1);
        assert(events.drop_last() =~= undisturbed(completions(report, n - 1)));
        assert(events.last() == ResolverEvent::Completed);
        assert(groups.take(n) =~= groups);
    }
}

} // verus!
