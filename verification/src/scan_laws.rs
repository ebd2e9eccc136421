//! What holds of every scan, whatever the file system answers.

use crate::matcher::{matches_url, PatternView};
use crate::scan_model::{
    child_visit, counted, distinct_subdirectories, has_git_entry, holds_unit, join_path,
    lemma_after_listing_inv, lemma_after_remotes_inv, lemma_close_frame, lemma_close_inv,
    lemma_drained_inv,
    lemma_emit_inv, lemma_grant_inv, lemma_matching_remotes, lemma_open_for_closing,
    lemma_record_inv, lemma_results_distinct, lemma_start_inv, lemma_tally_bounds,
    matching_remotes, remotes_warning, subdirectory_names, unreadable_warning, ListingModel,
    MatchModel, MessageModel, Phase, ScanModel, Tally,
};
use vstd::prelude::*;

verus! {

/// One step of a scan.
pub enum Step {
    /// The longest-waiting visit is given a unit, where one is free.
    Grant,
    /// A visit is told what listing its directory gave.
    Listed(int, Result<ListingModel, Seq<char>>),
    /// A visit is told the remotes of its repository.
    Remotes(int, Option<Seq<(Seq<char>, Seq<char>)>>),
    /// The messages are handed out.
    Drain,
}

/// Whether `step` can come from a file system: the subdirectories of a
/// listing can be told apart.
pub open spec fn plausible(step: Step) -> bool {
    step matches Step::Listed(_, Ok(listing)) ==> distinct_subdirectories(listing.entries)
}

/// The scan `m` after `step`. A step that no visit awaits changes nothing.
pub open spec fn apply(m: ScanModel, step: Step) -> ScanModel {
    match step {
        Step::Grant => if m.can_grant() {
            m.grant()
        } else {
            m
        },
        Step::Listed(id, outcome) => if m.expects_listing(id) {
            m.after_listing(id, outcome)
        } else {
            m
        },
        Step::Remotes(id, remotes) => if m.expects_remotes(id) {
            m.after_remotes(id, remotes)
        } else {
            m
        },
        Step::Drain => m.drained(),
    }
}

/// The scan `m` after `steps`, in order.
pub open spec fn run(m: ScanModel, steps: Seq<Step>) -> ScanModel
    decreases steps.len(),
{
    if steps.len() == 0 {
        m
    } else {
        apply(run(m, steps.drop_last()), steps.last())
    }
}

/// Whether the scan of `root` for `pattern` with `limit` units comes to
/// `m` by `steps`, each of which can come from a file system.
pub open spec fn reaches(
    root: Seq<char>,
    pattern: PatternView,
    limit: nat,
    steps: Seq<Step>,
    m: ScanModel,
) -> bool {
    &&& forall|i: int| 0 <= i < steps.len() ==> plausible(#[trigger] steps[i])
    &&& m == run(ScanModel::start(root, pattern, limit), steps)
}

/// Whether `m` is a state that some scan can reach.
pub open spec fn reachable(m: ScanModel) -> bool {
    exists|root: Seq<char>, pattern: PatternView, limit: nat, steps: Seq<Step>|
        reaches(root, pattern, limit, steps, m)
}

/// Every step keeps the invariant.
pub proof fn lemma_step_keeps_invariant(m: ScanModel, step: Step)
    requires
        m.inv(),
        plausible(step),
    ensures
        apply(m, step).inv(),
{
    match step {
        Step::Grant => {
            if m.can_grant() {
                lemma_grant_inv(m);
            }
        },
        Step::Listed(id, outcome) => {
            if m.expects_listing(id) {
                lemma_after_listing_inv(m, id, outcome);
            }
        },
        Step::Remotes(id, remotes) => {
            if m.expects_remotes(id) {
                lemma_after_remotes_inv(m, id, remotes);
            }
        },
        Step::Drain => {
            lemma_drained_inv(m, None);
        },
    }
}

/// The invariant holds of every state that a scan reaches.
pub proof fn lemma_run_keeps_invariant(m: ScanModel, steps: Seq<Step>)
    requires
        m.inv(),
        forall|i: int| 0 <= i < steps.len() ==> plausible(#[trigger] steps[i]),
    ensures
        run(m, steps).inv(),
    decreases steps.len(),
{
    if steps.len() > 0 {
        let before = steps.drop_last();
        assert forall|i: int| 0 <= i < before.len() implies plausible(#[trigger] before[i]) by {
            assert(before[i] == steps[i]);
        }
        lemma_run_keeps_invariant(m, before);
        lemma_step_keeps_invariant(run(m, before), steps.last());
    }
}

/// The invariant holds of every reachable state.
pub proof fn lemma_reachable_inv(m: ScanModel)
    requires
        reachable(m),
    ensures
        m.inv(),
{
    let (root, pattern, limit, steps) = choose|
        root: Seq<char>,
        pattern: PatternView,
        limit: nat,
        steps: Seq<Step>,
    | reaches(root, pattern, limit, steps, m);
    lemma_start_inv(root, pattern, limit);
    lemma_run_keeps_invariant(ScanModel::start(root, pattern, limit), steps);
}

/// In no state that a scan reaches do more visits hold a unit than the
/// limit allows.
pub proof fn lemma_concurrency_bound(m: ScanModel)
    requires
        reachable(m),
    ensures
        m.holders() <= m.limit,
{
    lemma_reachable_inv(m);
}

/// In no state that a scan reaches do two matches have the same path, nor
/// do two visits.
pub proof fn lemma_no_duplicates(m: ScanModel)
    requires
        reachable(m),
    ensures
        forall|a: int, b: int|
            0 <= a < b < m.results.len() ==> (#[trigger] m.results[a]).path != (
            #[trigger] m.results[b]).path,
        forall|i: int, j: int|
            0 <= i < j < m.visits.len() ==> (#[trigger] m.visits[i]).path != (
            #[trigger] m.visits[j]).path,
{
    lemma_reachable_inv(m);
    lemma_results_distinct(m);
}

/// Every match holds remotes, and only remotes whose URL matches the
/// pattern.
pub proof fn lemma_matches_match(m: ScanModel, k: int)
    requires
        reachable(m),
        0 <= k < m.results.len(),
    ensures
        m.results[k].remotes.len() > 0,
        forall|r: int|
            0 <= r < m.results[k].remotes.len() ==> matches_url(
                m.pattern,
                (#[trigger] m.results[k].remotes[r]).1,
            ),
{
    lemma_reachable_inv(m);
    assert(m.result_ok(k, None));
}

/// How far a visit in phase `phase` has come.
pub open spec fn progress_of(phase: Phase) -> int {
    match phase {
        Phase::Queued => 0,
        Phase::Listing => 1,
        Phase::ReadingRemotes => 2,
        Phase::Joining => 2,
        Phase::Finished => 3,
    }
}

/// What an answer leaves as it is, and what it may add: the state
/// `after` comes from `before` by a warning or a recorded match at most,
/// and by closing the visit `id`.
proof fn lemma_answer_frame(m: ScanModel, before: ScanModel, id: int)
    requires
        m.inv(),
        m.expects_listing(id) || m.expects_remotes(id),
        before.inv_but(Some(id)),
        before.visits == m.visits,
        before.pattern == m.pattern,
        before.limit == m.limit,
        before.admitted == m.admitted,
        before.ended == m.ended,
        m.results.is_prefix_of(before.results),
        m.sources.is_prefix_of(before.sources),
        m.outbox.is_prefix_of(before.outbox),
    ensures
        ({
            let after = before.close(id);
            &&& after.pattern == m.pattern
            &&& after.limit == m.limit
            &&& after.admitted == m.admitted
            &&& after.visits.len() == m.visits.len()
            &&& after.results == before.results
            &&& after.sources == before.sources
            &&& after.outbox == before.outbox
            &&& m.results.is_prefix_of(after.results)
            &&& m.sources.is_prefix_of(after.sources)
            &&& m.outbox.is_prefix_of(after.outbox)
            &&& after.visits[id].phase == Phase::Finished
            &&& forall|i: int|
                0 <= i < m.visits.len() ==> {
                    let was = #[trigger] m.visits[i];
                    let is = after.visits[i];
                    &&& is.path == was.path
                    &&& is.name == was.name
                    &&& is.parent == was.parent
                    &&& is.repository == was.repository
                    &&& i != id && was.phase != Phase::Joining ==> is == was
                    &&& progress_of(was.phase) <= progress_of(is.phase)
                }
        }),
{
    lemma_close_frame(before, id);
    let after = before.close(id);
    assert forall|i: int| 0 <= i < m.visits.len() implies {
        let was = #[trigger] m.visits[i];
        let is = after.visits[i];
        &&& is.path == was.path
        &&& is.name == was.name
        &&& is.parent == was.parent
        &&& is.repository == was.repository
        &&& i != id && was.phase != Phase::Joining ==> is == was
        &&& progress_of(was.phase) <= progress_of(is.phase)
    } by {
        assert(before.visits[i] == m.visits[i]);
    }
}

/// What a step leaves as it is: what the scan looks for and its limit,
/// every visit's directory and kin, and what was found and told so far.
/// Visits, matches and messages are only added, and no visit goes back to
/// a phase that it has left.
pub proof fn lemma_step_frame(m: ScanModel, step: Step)
    requires
        m.inv(),
        plausible(step),
    ensures
        ({
            let after = apply(m, step);
            &&& after.pattern == m.pattern
            &&& after.limit == m.limit
            &&& m.visits.len() <= after.visits.len()
            &&& m.results.is_prefix_of(after.results)
            &&& m.sources.is_prefix_of(after.sources)
            &&& !(step is Drain) ==> m.outbox.is_prefix_of(after.outbox)
            &&& forall|i: int|
                0 <= i < m.visits.len() ==> {
                    let was = #[trigger] m.visits[i];
                    let is = after.visits[i];
                    &&& is.path == was.path
                    &&& is.name == was.name
                    &&& is.parent == was.parent
                    &&& progress_of(was.phase) <= progress_of(is.phase)
                }
        }),
{
    let after = apply(m, step);
    assert(m.results =~= m.results.subrange(0, m.results.len() as int));
    assert(m.sources =~= m.sources.subrange(0, m.sources.len() as int));
    assert(m.outbox =~= m.outbox.subrange(0, m.outbox.len() as int));
    match step {
        Step::Grant => {
            if m.can_grant() {
                assert(m.visit_ok(m.admitted as int, None));
            }
        },
        Step::Drain => {},
        Step::Listed(id, outcome) => {
            if m.expects_listing(id) {
                let path = m.visits[id].path;
                lemma_open_for_closing(m, id);
                match outcome {
                    Err(error) => {
                        let warning = MessageModel::Warning(unreadable_warning(path, error));
                        lemma_emit_inv(m, warning, Some(id));
                        assert(m.outbox =~= m.emit(warning).outbox.subrange(
                            0,
                            m.outbox.len() as int,
                        ));
                        lemma_answer_frame(m, m.emit(warning), id);
                    },
                    Ok(listing) => {
                        let names = subdirectory_names(listing.entries);
                        if has_git_entry(listing.entries) {
                        } else if listing.error is Some {
                            let warning = MessageModel::Warning(
                                unreadable_warning(path, listing.error->0),
                            );
                            lemma_emit_inv(m, warning, Some(id));
                            assert(m.outbox =~= m.emit(warning).outbox.subrange(
                                0,
                                m.outbox.len() as int,
                            ));
                            lemma_answer_frame(m, m.emit(warning), id);
                        } else if names.len() == 0 {
                            lemma_answer_frame(m, m, id);
                        } else {
                            assert(m.outbox =~= after.outbox.subrange(0, m.outbox.len() as int));
                        }
                    },
                }
            }
        },
        Step::Remotes(id, remotes) => {
            if m.expects_remotes(id) {
                let path = m.visits[id].path;
                lemma_open_for_closing(m, id);
                match remotes {
                    None => {
                        let warning = MessageModel::Warning(remotes_warning(path));
                        lemma_emit_inv(m, warning, Some(id));
                        assert(m.outbox =~= m.emit(warning).outbox.subrange(
                            0,
                            m.outbox.len() as int,
                        ));
                        lemma_answer_frame(m, m.emit(warning), id);
                    },
                    Some(all) => {
                        let hits = matching_remotes(m.pattern, all);
                        if hits.len() > 0 {
                            let found = MatchModel { path, remotes: hits };
                            let recorded = m.record(id, found);
                            lemma_matching_remotes(m.pattern, all);
                            assert forall|k: int| 0 <= k < m.sources.len() implies #[trigger] m.sources[k]
                                != id by {
                                assert(m.result_ok(k, None));
                            }
                            lemma_record_inv(m, id, found);
                            assert(m.outbox =~= recorded.outbox.subrange(
                                0,
                                m.outbox.len() as int,
                            ));
                            assert(m.results =~= recorded.results.subrange(
                                0,
                                m.results.len() as int,
                            ));
                            assert(m.sources =~= recorded.sources.subrange(
                                0,
                                m.sources.len() as int,
                            ));
                            lemma_answer_frame(m, recorded, id);
                        } else {
                            lemma_answer_frame(m, m, id);
                        }
                    },
                }
            }
        },
    }
}

/// A directory with an entry `.git` is a repository root. Its listing
/// schedules and announces nothing, whatever else it holds; its visit
/// turns to the remotes.
pub proof fn lemma_repository_root_schedules_nothing(m: ScanModel, id: int, listing: ListingModel)
    requires
        m.inv(),
        m.expects_listing(id),
        has_git_entry(listing.entries),
    ensures
        m.after_listing(id, Ok(listing)).visits.len() == m.visits.len(),
        m.after_listing(id, Ok(listing)).outbox == m.outbox,
        m.after_listing(id, Ok(listing)).expects_remotes(id),
        m.after_listing(id, Ok(listing)).visits[id].repository,
{
}

/// The remotes of a repository root schedule nothing either.
pub proof fn lemma_remotes_schedule_nothing(
    m: ScanModel,
    id: int,
    remotes: Option<Seq<(Seq<char>, Seq<char>)>>,
)
    requires
        m.inv(),
        m.expects_remotes(id),
    ensures
        m.after_remotes(id, remotes).visits.len() == m.visits.len(),
        m.after_remotes(id, remotes).admitted == m.admitted,
{
    let path = m.visits[id].path;
    lemma_open_for_closing(m, id);
    match remotes {
        None => {
            let warning = MessageModel::Warning(remotes_warning(path));
            lemma_emit_inv(m, warning, Some(id));
            lemma_close_frame(m.emit(warning), id);
        },
        Some(all) => {
            let hits = matching_remotes(m.pattern, all);
            if hits.len() > 0 {
                let found = MatchModel { path, remotes: hits };
                lemma_matching_remotes(m.pattern, all);
                assert forall|k: int| 0 <= k < m.sources.len() implies #[trigger] m.sources[k]
                    != id by {
                    assert(m.result_ok(k, None));
                }
                lemma_record_inv(m, id, found);
                lemma_close_frame(m.record(id, found), id);
            } else {
                lemma_close_frame(m, id);
            }
        },
    }
}

/// In no state that a scan reaches was a visit scheduled by a repository
/// root: the directories below a repository are never visited.
pub proof fn lemma_nothing_below_a_repository(m: ScanModel, j: int)
    requires
        reachable(m),
        0 < j < m.visits.len(),
    ensures
        m.visits[j].parent matches Some(p) && 0 <= p < j && !m.visits[p].repository,
{
    lemma_reachable_inv(m);
    assert(m.visit_ok(j, None));
}

/// Whether listing a directory failed: it could not be opened, or it is
/// no repository root and its reading ended in an error.
pub open spec fn listing_failed(outcome: Result<ListingModel, Seq<char>>) -> bool {
    match outcome {
        Err(_) => true,
        Ok(listing) => !has_git_entry(listing.entries) && listing.error is Some,
    }
}

/// The text of the error with which listing a directory failed.
pub open spec fn listing_error(outcome: Result<ListingModel, Seq<char>>) -> Seq<char> {
    match outcome {
        Err(error) => error,
        Ok(listing) => listing.error->0,
    }
}

/// A directory whose listing fails, be it on opening or while its entries
/// are read, costs one warning with its path and the error's text, and
/// nothing else. Its visit is over and schedules nothing; the matches
/// stay; every other visit that waits for a unit or for an answer is as
/// it was; and the scan goes on: it is over only where every visit is.
pub proof fn lemma_failed_listing_is_isolated(
    m: ScanModel,
    id: int,
    outcome: Result<ListingModel, Seq<char>>,
)
    requires
        m.inv(),
        m.expects_listing(id),
        listing_failed(outcome),
    ensures
        ({
            let after = m.after_listing(id, outcome);
            &&& after.results == m.results
            &&& after.visits.len() == m.visits.len()
            &&& after.outbox == m.outbox.push(
                MessageModel::Warning(
                    unreadable_warning(m.visits[id].path, listing_error(outcome)),
                ),
            )
            &&& after.visits[id].phase == Phase::Finished
            &&& forall|i: int|
                0 <= i < m.visits.len() && i != id && (#[trigger] m.visits[i]).phase
                    != Phase::Joining ==> after.visits[i] == m.visits[i]
            &&& after.ended ==> forall|i: int|
                0 <= i < after.visits.len() ==> (#[trigger] after.visits[i]).phase
                    == Phase::Finished
        }),
{
    let warning = MessageModel::Warning(
        unreadable_warning(m.visits[id].path, listing_error(outcome)),
    );
    let after = m.after_listing(id, outcome);
    assert(after == m.emit(warning).close(id));
    lemma_open_for_closing(m, id);
    lemma_emit_inv(m, warning, Some(id));
    lemma_close_frame(m.emit(warning), id);
    lemma_close_inv(m.emit(warning), id);
    if after.ended {
        assert forall|i: int| 0 <= i < after.visits.len() implies (
        #[trigger] after.visits[i]).phase == Phase::Finished by {
            lemma_over_means_all_over(after, i);
        }
    }
}

/// A repository with a matching remote is recorded and announced whatever
/// became of the other visits.
pub proof fn lemma_match_is_recorded(m: ScanModel, id: int, remotes: Seq<(Seq<char>, Seq<char>)>)
    requires
        m.inv(),
        m.expects_remotes(id),
        matching_remotes(m.pattern, remotes).len() > 0,
    ensures
        ({
            let found = MatchModel {
                path: m.visits[id].path,
                remotes: matching_remotes(m.pattern, remotes),
            };
            let after = m.after_remotes(id, Some(remotes));
            &&& after.results == m.results.push(found)
            &&& after.outbox == m.outbox.push(MessageModel::MatchFound(found))
        }),
{
    let found = MatchModel {
        path: m.visits[id].path,
        remotes: matching_remotes(m.pattern, remotes),
    };
    lemma_open_for_closing(m, id);
    lemma_matching_remotes(m.pattern, remotes);
    assert forall|k: int| 0 <= k < m.sources.len() implies #[trigger] m.sources[k] != id by {
        assert(m.result_ok(k, None));
    }
    lemma_record_inv(m, id, found);
    lemma_close_frame(m.record(id, found), id);
}

/// No step takes a match away: what was found stays, in its place.
pub proof fn lemma_results_only_grow(m: ScanModel, step: Step)
    requires
        m.inv(),
        plausible(step),
    ensures
        m.results.is_prefix_of(apply(m, step).results),
{
    lemma_step_frame(m, step);
}

/// While a visit is not over, neither is the scan: every visit of a scan
/// that is over is over.
pub proof fn lemma_over_means_all_over(m: ScanModel, i: int)
    requires
        m.inv(),
        m.ended,
        0 <= i < m.visits.len(),
    ensures
        m.visits[i].phase == Phase::Finished,
    decreases i,
{
    assert(m.visit_ok(i, None));
    if i > 0 {
        let p = m.visits[i].parent->0;
        lemma_over_means_all_over(m, p);
        assert(m.visit_ok(p, None));
        lemma_tally_bounds(m.visits, Tally::ChildOf(p));
        if m.visits[i].phase != Phase::Finished {
            assert(counted(m.visits[i], Tally::ChildOf(p)));
        }
    }
}

/// A scan that is over holds no unit and has nothing left to do: the
/// search path and every directory scheduled below it were dealt with.
pub proof fn lemma_over_means_idle(m: ScanModel)
    requires
        m.inv(),
        m.ended,
    ensures
        m.holders() == 0,
        m.admitted == m.visits.len(),
        !m.blocked(),
{
    lemma_tally_bounds(m.visits, Tally::Holder);
    assert forall|i: int| 0 <= i < m.visits.len() implies !counted(
        #[trigger] m.visits[i],
        Tally::Holder,
    ) by {
        lemma_over_means_all_over(m, i);
    }
    if m.admitted < m.visits.len() {
        let last = m.visits.len() - 1;
        lemma_over_means_all_over(m, last);
        assert(m.visit_ok(last, None));
    }
}

/// A visit that waits for others is followed by one that waits for a unit
/// or for an answer.
pub proof fn lemma_waiting_visit_has_work_below(m: ScanModel, i: int) -> (j: int)
    requires
        m.inv(),
        0 <= i < m.visits.len(),
        m.visits[i].phase == Phase::Joining,
    ensures
        i < j < m.visits.len(),
        m.visits[j].phase == Phase::Queued || holds_unit(m.visits[j].phase),
    decreases m.visits.len() - i,
{
    assert(m.visit_ok(i, None));
    lemma_tally_bounds(m.visits, Tally::ChildOf(i));
    let c = choose|c: int| 0 <= c < m.visits.len() && counted(#[trigger] m.visits[c], Tally::ChildOf(i));
    assert(m.visit_ok(c, None));
    if m.visits[c].phase == Phase::Joining {
        lemma_waiting_visit_has_work_below(m, c)
    } else {
        c
    }
}

/// A scan that may hold a unit is never blocked: while it is not over, a
/// visit awaits an answer or a visit can be given a unit. Only a scan
/// with a limit of zero is blocked, and that from its start.
pub proof fn lemma_blocked_only_without_units(m: ScanModel)
    requires
        m.inv(),
    ensures
        m.blocked() ==> m.limit == 0,
        m.limit >= 1 && !m.ended ==> m.holders() > 0 || m.can_grant(),
{
    if !m.ended && m.holders() == 0 && m.limit >= 1 && !m.can_grant() {
        lemma_tally_bounds(m.visits, Tally::Holder);
        assert forall|i: int| 0 <= i < m.visits.len() implies !counted(
            #[trigger] m.visits[i],
            Tally::Holder,
        ) by {}
        assert(m.visit_ok(0, None));
        assert(!counted(m.visits[0], Tally::Holder));
        let j = lemma_waiting_visit_has_work_below(m, 0);
        assert(!counted(m.visits[j], Tally::Holder));
        assert(m.visit_ok(j, None));
    }
}

/// In no state that a scan with a limit of one or more reaches is the
/// scan blocked.
pub proof fn lemma_scan_never_blocks(m: ScanModel)
    requires
        reachable(m),
        m.limit >= 1,
    ensures
        !m.blocked(),
{
    lemma_reachable_inv(m);
    lemma_blocked_only_without_units(m);
}

/// The subdirectories of a directory that is no repository root and was
/// read without error are each scheduled and announced, in the order
/// read, under the path that joins the directory and their name.
pub proof fn lemma_subdirectories_are_scheduled(m: ScanModel, id: int, listing: ListingModel)
    requires
        m.inv(),
        m.expects_listing(id),
        !has_git_entry(listing.entries),
        listing.error is None,
    ensures
        ({
            let names = subdirectory_names(listing.entries);
            let dir = m.visits[id].path;
            let after = m.after_listing(id, Ok(listing));
            &&& after.visits.len() == m.visits.len() + names.len()
            &&& forall|k: int|
                0 <= k < names.len() ==> #[trigger] after.visits[m.visits.len() + k]
                    == child_visit(dir, id, names[k])
            &&& after.outbox == m.outbox + Seq::new(
                names.len(),
                |k: int| MessageModel::ScanningDirectory(join_path(dir, names[k])),
            )
        }),
{
    let names = subdirectory_names(listing.entries);
    if names.len() == 0 {
        lemma_open_for_closing(m, id);
        lemma_close_frame(m, id);
        assert(m.outbox =~= m.outbox + Seq::new(
            names.len(),
            |k: int| MessageModel::ScanningDirectory(join_path(m.visits[id].path, names[k])),
        ));
    }
}

/// No step drops a visit or moves it to another directory, and no visit
/// goes back to a phase that it has left. So a directory is listed once,
/// and its remotes are read once.
pub proof fn lemma_visits_only_advance(m: ScanModel, step: Step)
    requires
        m.inv(),
        plausible(step),
    ensures
        m.visits.len() <= apply(m, step).visits.len(),
        forall|i: int|
            0 <= i < m.visits.len() ==> {
                let before = #[trigger] m.visits[i];
                let after = apply(m, step).visits[i];
                &&& after.path == before.path
                &&& after.parent == before.parent
                &&& progress_of(before.phase) <= progress_of(after.phase)
            },
        step matches Step::Listed(id, _) ==> (m.expects_listing(id) ==> !apply(
            m,
            step,
        ).expects_listing(id)),
        step matches Step::Remotes(id, _) ==> (m.expects_remotes(id) ==> !apply(
            m,
            step,
        ).expects_remotes(id)),
{
    lemma_step_frame(m, step);
    match step {
        Step::Listed(id, _) => {
            if m.expects_listing(id) {
                assert(progress_of(m.visits[id].phase) <= progress_of(apply(m, step).visits[id].phase));
                lemma_listing_moves_on(m, step);
            }
        },
        Step::Remotes(id, _) => {
            if m.expects_remotes(id) {
                lemma_remotes_move_on(m, step);
            }
        },
        _ => {},
    }
}

/// A visit that was told its listing does not await one any more.
proof fn lemma_listing_moves_on(m: ScanModel, step: Step)
    requires
        m.inv(),
        plausible(step),
        step matches Step::Listed(id, _) && m.expects_listing(id),
    ensures
        step matches Step::Listed(id, _) && !apply(m, step).expects_listing(id),
{
    if let Step::Listed(id, outcome) = step {
        let path = m.visits[id].path;
        lemma_open_for_closing(m, id);
        match outcome {
            Err(error) => {
                let warning = MessageModel::Warning(unreadable_warning(path, error));
                lemma_emit_inv(m, warning, Some(id));
                lemma_close_frame(m.emit(warning), id);
            },
            Ok(listing) => {
                if listing.error is Some {
                    let warning = MessageModel::Warning(
                        unreadable_warning(path, listing.error->0),
                    );
                    lemma_emit_inv(m, warning, Some(id));
                    lemma_close_frame(m.emit(warning), id);
                }
                lemma_close_frame(m, id);
            },
        }
    }
}

/// A visit that was told its remotes does not await them any more.
proof fn lemma_remotes_move_on(m: ScanModel, step: Step)
    requires
        m.inv(),
        step matches Step::Remotes(id, _) && m.expects_remotes(id),
    ensures
        step matches Step::Remotes(id, _) && !apply(m, step).expects_remotes(id),
{
    if let Step::Remotes(id, remotes) = step {
        lemma_remotes_schedule_nothing(m, id, remotes);
        let path = m.visits[id].path;
        lemma_open_for_closing(m, id);
        match remotes {
            None => {
                let warning = MessageModel::Warning(remotes_warning(path));
                lemma_emit_inv(m, warning, Some(id));
                lemma_close_frame(m.emit(warning), id);
            },
            Some(all) => {
                let hits = matching_remotes(m.pattern, all);
                if hits.len() > 0 {
                    let found = MatchModel { path, remotes: hits };
                    lemma_matching_remotes(m.pattern, all);
                    assert forall|k: int| 0 <= k < m.sources.len() implies #[trigger] m.sources[k]
                        != id by {
                        assert(m.result_ok(k, None));
                    }
                    lemma_record_inv(m, id, found);
                    lemma_close_frame(m.record(id, found), id);
                } else {
                    lemma_close_frame(m, id);
                }
            },
        }
    }
}

/// What a scan has to tell only grows at its end: no step but the handing
/// out takes a message away or puts one before an earlier one. So what is
/// told of a directory follows the announcement of its visit.
pub proof fn lemma_messages_are_appended(m: ScanModel, step: Step)
    requires
        m.inv(),
        plausible(step),
        !(step is Drain),
    ensures
        m.outbox.is_prefix_of(apply(m, step).outbox),
{
    lemma_step_frame(m, step);
}

} // verus!
