//! The scan as a whole: what it has visited and found once it is over,
//! held against the file system that answered it.

use crate::matcher::PatternView;
use crate::scan_laws::{
    apply, lemma_blocked_only_without_units, lemma_over_means_all_over, lemma_step_frame,
    lemma_step_keeps_invariant, run, Step,
};
use crate::scan_model::{
    distinct_subdirectories, has_git_entry, join_path, lemma_close_frame, lemma_emit_inv,
    lemma_matching_remotes, lemma_open_for_closing, lemma_record_inv, lemma_start_inv,
    lemma_subdirectory_names, matching_remotes, remotes_warning, subdirectory_names,
    unreadable_warning, ListingModel, MatchModel, MessageModel, Phase, ScanModel,
};
use vstd::prelude::*;

verus! {

/// What a file system answers: for each path what listing it gives, and
/// what reading the remotes of the repository there gives.
pub struct FileSystem {
    pub listing: spec_fn(Seq<char>) -> Result<ListingModel, Seq<char>>,
    pub remotes: spec_fn(Seq<char>) -> Option<Seq<(Seq<char>, Seq<char>)>>,
}

impl FileSystem {
    /// Whether the subdirectories of every directory can be told apart.
    pub open spec fn plausible(self) -> bool {
        forall|path: Seq<char>|
            (#[trigger] (self.listing)(path)) matches Ok(listing) ==> distinct_subdirectories(
                listing.entries,
            )
    }

    /// Whether `path` is a directory that can be listed without error and
    /// is no repository root: its subdirectories are to be visited.
    pub open spec fn opened(self, path: Seq<char>) -> bool {
        (self.listing)(path) matches Ok(listing) && !has_git_entry(listing.entries)
            && listing.error is None
    }

    /// Whether `path` is a repository root.
    pub open spec fn repository(self, path: Seq<char>) -> bool {
        (self.listing)(path) matches Ok(listing) && has_git_entry(listing.entries)
    }

    /// The names of the subdirectories of `path`, in the order read.
    pub open spec fn subdirectories(self, path: Seq<char>) -> Seq<Seq<char>> {
        match (self.listing)(path) {
            Ok(listing) => subdirectory_names(listing.entries),
            Err(_) => Seq::empty(),
        }
    }

    /// The remotes of `path` whose URL matches `pattern`; none where the
    /// remotes cannot be read.
    pub open spec fn matching(self, pattern: PatternView, path: Seq<char>) -> Seq<
        (Seq<char>, Seq<char>),
    > {
        match (self.remotes)(path) {
            Some(all) => matching_remotes(pattern, all),
            None => Seq::empty(),
        }
    }

    /// The directory that is reached from `root` by going down through
    /// the subdirectories `names`, each found in a directory that is
    /// opened; `None` where the way is barred by a repository root, by a
    /// directory that cannot be read, or by a name that is not there.
    pub open spec fn walk(self, root: Seq<char>, names: Seq<Seq<char>>) -> Option<Seq<char>>
        decreases names.len(),
    {
        if names.len() == 0 {
            Some(root)
        } else {
            match self.walk(root, names.drop_last()) {
                Some(dir) => if self.opened(dir) && self.subdirectories(dir).contains(
                    names.last(),
                ) {
                    Some(join_path(dir, names.last()))
                } else {
                    None
                },
                None => None,
            }
        }
    }

    /// Whether a scan of `root` is to visit `path`: the root itself, and
    /// every directory below it that can be reached through directories
    /// that are readable and no repository roots.
    pub open spec fn to_visit(self, root: Seq<char>, path: Seq<char>) -> bool {
        exists|names: Seq<Seq<char>>| #[trigger] self.walk(root, names) == Some(path)
    }
}

/// Whether `step`, taken in the state `m`, is what `fs` answers.
pub open spec fn answers(fs: FileSystem, m: ScanModel, step: Step) -> bool {
    match step {
        Step::Listed(id, outcome) => m.expects_listing(id) ==> outcome == (fs.listing)(
            m.visits[id].path,
        ),
        Step::Remotes(id, remotes) => m.expects_remotes(id) ==> remotes == (fs.remotes)(
            m.visits[id].path,
        ),
        _ => true,
    }
}

/// Whether each of `steps`, taken in turn from the state `m`, is what `fs`
/// answers.
pub open spec fn answered_by(fs: FileSystem, m: ScanModel, steps: Seq<Step>) -> bool
    decreases steps.len(),
{
    steps.len() == 0 || (answered_by(fs, m, steps.drop_last()) && answers(
        fs,
        run(m, steps.drop_last()),
        steps.last(),
    ))
}

/// Whether `c` is the visit of the subdirectory `name` scheduled by `j`.
pub open spec fn is_child(m: ScanModel, c: int, j: int, name: Seq<char>) -> bool {
    0 <= c < m.visits.len() && m.visits[c].parent == Some(j) && m.visits[c].name == name
}

/// Whether the visit `j` scheduled a visit of the subdirectory `name`.
pub open spec fn has_child(m: ScanModel, j: int, name: Seq<char>) -> bool {
    exists|c: int| #[trigger] is_child(m, c, j, name)
}

/// Whether `k` is the match that the visit `j` found.
pub open spec fn is_result_of(m: ScanModel, k: int, j: int) -> bool {
    0 <= k < m.sources.len() && m.sources[k] == j
}

/// What holds of the visit `j` of a scan of `root` that `fs` answers.
pub open spec fn visit_faithful(m: ScanModel, fs: FileSystem, root: Seq<char>, j: int) -> bool {
    let v = m.visits[j];
    let answered = v.phase != Phase::Queued && v.phase != Phase::Listing;
    let listed = v.phase == Phase::Joining || v.phase == Phase::Finished;
    &&& fs.to_visit(root, v.path)
    &&& answered ==> v.repository == fs.repository(v.path)
    &&& listed && fs.opened(v.path) ==> forall|k: int|
        0 <= k < fs.subdirectories(v.path).len() ==> has_child(
            m,
            j,
            #[trigger] fs.subdirectories(v.path)[k],
        )
    &&& v.phase == Phase::Finished && v.repository && fs.matching(m.pattern, v.path).len() > 0
        ==> exists|k: int| #[trigger] is_result_of(m, k, j)
}

/// What holds of a scan of `root` that `fs` answers.
pub open spec fn faithful(m: ScanModel, fs: FileSystem, root: Seq<char>) -> bool {
    &&& m.visits[0].path == root
    &&& forall|j: int| 0 <= j < m.visits.len() ==> #[trigger] visit_faithful(m, fs, root, j)
    &&& forall|k: int|
        0 <= k < m.results.len() ==> (#[trigger] m.results[k]).remotes == fs.matching(
            m.pattern,
            m.results[k].path,
        )
}

/// What was true of a visit stays true while the scan only moves visits
/// on, adds visits and adds matches.
proof fn lemma_visit_stays_faithful(
    m: ScanModel,
    after: ScanModel,
    fs: FileSystem,
    root: Seq<char>,
    j: int,
)
    requires
        0 <= j < m.visits.len() <= after.visits.len(),
        visit_faithful(m, fs, root, j),
        after.pattern == m.pattern,
        m.sources.is_prefix_of(after.sources),
        forall|i: int|
            0 <= i < m.visits.len() ==> (#[trigger] after.visits[i]).path == m.visits[i].path
                && after.visits[i].parent == m.visits[i].parent && after.visits[i].name
                == m.visits[i].name,
        after.visits[j].repository == m.visits[j].repository,
        after.visits[j].phase == m.visits[j].phase || (m.visits[j].phase == Phase::Joining
            && !m.visits[j].repository && after.visits[j].phase == Phase::Finished),
    ensures
        visit_faithful(after, fs, root, j),
{
    let v = after.visits[j];
    let names = fs.subdirectories(v.path);
    if (v.phase == Phase::Joining || v.phase == Phase::Finished) && fs.opened(v.path) {
        assert forall|k: int| 0 <= k < names.len() implies has_child(
            after,
            j,
            #[trigger] names[k],
        ) by {
            assert(has_child(m, j, names[k]));
            let c = choose|c: int| #[trigger] is_child(m, c, j, names[k]);
            assert(after.visits[c].parent == m.visits[c].parent);
            assert(is_child(after, c, j, names[k]));
        }
    }
    if v.phase == Phase::Finished && v.repository && fs.matching(m.pattern, v.path).len() > 0 {
        let k = choose|k: int| #[trigger] is_result_of(m, k, j);
        assert(m.sources[k] == after.sources.subrange(0, m.sources.len() as int)[k]);
        assert(is_result_of(after, k, j));
    }
}

/// A scan starts faithful to whatever file system will answer it.
pub proof fn lemma_faithful_start(fs: FileSystem, root: Seq<char>, pattern: PatternView, limit: nat)
    ensures
        faithful(ScanModel::start(root, pattern, limit), fs, root),
{
    let m = ScanModel::start(root, pattern, limit);
    assert(fs.walk(root, Seq::empty()) == Some(root));
    assert(visit_faithful(m, fs, root, 0));
}

/// Closing a visit keeps a scan faithful, where the visit that closes is
/// itself as a finished visit should be.
proof fn lemma_faithful_close(
    m: ScanModel,
    fs: FileSystem,
    root: Seq<char>,
    id: int,
)
    requires
        m.inv_but(Some(id)),
        m.visits[0].path == root,
        forall|j: int|
            0 <= j < m.visits.len() && j != id ==> #[trigger] visit_faithful(m, fs, root, j),
        forall|k: int|
            0 <= k < m.results.len() ==> (#[trigger] m.results[k]).remotes == fs.matching(
                m.pattern,
                m.results[k].path,
            ),
        fs.to_visit(root, m.visits[id].path),
        m.visits[id].repository == fs.repository(m.visits[id].path),
        fs.opened(m.visits[id].path) ==> fs.subdirectories(m.visits[id].path).len() == 0,
        m.visits[id].repository && fs.matching(m.pattern, m.visits[id].path).len() > 0
            ==> exists|k: int| #[trigger] is_result_of(m, k, id),
    ensures
        faithful(m.close(id), fs, root),
{
    let after = m.close(id);
    lemma_close_frame(m, id);
    assert(m.visit_ok(0, Some(id)));
    assert forall|j: int| 0 <= j < after.visits.len() implies #[trigger] visit_faithful(
        after,
        fs,
        root,
        j,
    ) by {
        assert(m.visit_ok(j, Some(id)));
        assert(after.visits[j].path == m.visits[j].path);
        if j == id {
            if after.visits[j].repository && fs.matching(m.pattern, m.visits[j].path).len() > 0 {
                let k = choose|k: int| #[trigger] is_result_of(m, k, id);
                assert(is_result_of(after, k, id));
            }
        } else {
            assert forall|i: int| 0 <= i < m.visits.len() implies (
            #[trigger] after.visits[i]).path == m.visits[i].path && after.visits[i].parent
                == m.visits[i].parent && after.visits[i].name == m.visits[i].name by {
                assert(after.visits[i].path == m.visits[i].path);
            }
            lemma_visit_stays_faithful(m, after, fs, root, j);
        }
    }
}

/// A step that the file system answers keeps a scan faithful to it.
pub proof fn lemma_faithful_step(m: ScanModel, fs: FileSystem, root: Seq<char>, step: Step)
    requires
        m.inv(),
        faithful(m, fs, root),
        fs.plausible(),
        answers(fs, m, step),
    ensures
        apply(m, step).inv(),
        faithful(apply(m, step), fs, root),
{
    let after = apply(m, step);
    assert(m.visit_ok(0, None));
    match step {
        Step::Grant => {
            lemma_step_keeps_invariant(m, step);
            if m.can_grant() {
                assert forall|j: int| 0 <= j < after.visits.len() implies #[trigger] visit_faithful(
                    after,
                    fs,
                    root,
                    j,
                ) by {
                    assert(visit_faithful(m, fs, root, j));
                    assert(m.visit_ok(j, None));
                    if j != m.admitted {
                        lemma_visit_stays_faithful(m, after, fs, root, j);
                    }
                }
            }
        },
        Step::Drain => {
            lemma_step_keeps_invariant(m, step);
            assert forall|j: int| 0 <= j < after.visits.len() implies #[trigger] visit_faithful(
                after,
                fs,
                root,
                j,
            ) by {
                assert(visit_faithful(m, fs, root, j));
                lemma_visit_stays_faithful(m, after, fs, root, j);
            }
        },
        Step::Listed(id, outcome) => {
            if m.expects_listing(id) {
                lemma_step_keeps_invariant(m, step);
                lemma_faithful_listing(m, fs, root, id);
            }
        },
        Step::Remotes(id, remotes) => {
            if m.expects_remotes(id) {
                lemma_step_keeps_invariant(m, step);
                lemma_faithful_remotes(m, fs, root, id);
            }
        },
    }
}

/// The listing that the file system gives keeps a scan faithful to it.
proof fn lemma_faithful_listing(m: ScanModel, fs: FileSystem, root: Seq<char>, id: int)
    requires
        m.inv(),
        faithful(m, fs, root),
        fs.plausible(),
        m.expects_listing(id),
    ensures
        faithful(m.after_listing(id, (fs.listing)(m.visits[id].path)), fs, root),
{
    let path = m.visits[id].path;
    let outcome = (fs.listing)(path);
    let after = m.after_listing(id, outcome);
    assert(m.visit_ok(id, None));
    assert(m.visit_ok(0, None));
    assert(visit_faithful(m, fs, root, id));
    lemma_open_for_closing(m, id);
    match outcome {
        Err(error) => {
            let warning = MessageModel::Warning(unreadable_warning(path, error));
            let warned = m.emit(warning);
            lemma_emit_inv(m, warning, Some(id));
            assert forall|j: int| 0 <= j < warned.visits.len() && j != id implies #[trigger] visit_faithful(
                warned,
                fs,
                root,
                j,
            ) by {
                assert(visit_faithful(m, fs, root, j));
                lemma_visit_stays_faithful(m, warned, fs, root, j);
            }
            lemma_faithful_close(warned, fs, root, id);
        },
        Ok(listing) => {
            let names = subdirectory_names(listing.entries);
            lemma_subdirectory_names(listing.entries);
            if has_git_entry(listing.entries) {
                assert forall|j: int| 0 <= j < after.visits.len() implies #[trigger] visit_faithful(
                    after,
                    fs,
                    root,
                    j,
                ) by {
                    assert(visit_faithful(m, fs, root, j));
                    if j != id {
                        lemma_visit_stays_faithful(m, after, fs, root, j);
                    }
                }
            } else if listing.error is Some {
                let warning = MessageModel::Warning(unreadable_warning(path, listing.error->0));
                let warned = m.emit(warning);
                lemma_emit_inv(m, warning, Some(id));
                assert forall|j: int| 0 <= j < warned.visits.len() && j != id implies #[trigger] visit_faithful(
                    warned,
                    fs,
                    root,
                    j,
                ) by {
                    assert(visit_faithful(m, fs, root, j));
                    lemma_visit_stays_faithful(m, warned, fs, root, j);
                }
                lemma_faithful_close(warned, fs, root, id);
            } else if names.len() == 0 {
                lemma_faithful_close(m, fs, root, id);
            } else {
                let n = m.visits.len() as int;
                assert forall|j: int| 0 <= j < after.visits.len() implies #[trigger] visit_faithful(
                    after,
                    fs,
                    root,
                    j,
                ) by {
                    if j < n {
                        assert(visit_faithful(m, fs, root, j));
                        assert(m.visit_ok(j, None));
                        if j == id {
                            assert forall|k: int| 0 <= k < names.len() implies has_child(
                                after,
                                j,
                                #[trigger] names[k],
                            ) by {
                                assert(is_child(after, n + k, j, names[k]));
                            }
                        } else {
                            lemma_visit_stays_faithful(m, after, fs, root, j);
                        }
                    } else {
                        let name = names[j - n];
                        let way = choose|way: Seq<Seq<char>>|
                            #[trigger] fs.walk(root, way) == Some(path);
                        let longer = way.push(name);
                        assert(longer.drop_last() =~= way);
                        assert(names.contains(name));
                        assert(fs.walk(root, longer) == Some(join_path(path, name)));
                    }
                }
            }
        },
    }
}

/// The remotes that the file system gives keep a scan faithful to it.
proof fn lemma_faithful_remotes(m: ScanModel, fs: FileSystem, root: Seq<char>, id: int)
    requires
        m.inv(),
        faithful(m, fs, root),
        m.expects_remotes(id),
    ensures
        faithful(m.after_remotes(id, (fs.remotes)(m.visits[id].path)), fs, root),
{
    let path = m.visits[id].path;
    let remotes = (fs.remotes)(path);
    assert(m.visit_ok(id, None));
    assert(visit_faithful(m, fs, root, id));
    lemma_open_for_closing(m, id);
    match remotes {
        None => {
            let warning = MessageModel::Warning(remotes_warning(path));
            let warned = m.emit(warning);
            lemma_emit_inv(m, warning, Some(id));
            assert forall|j: int| 0 <= j < warned.visits.len() && j != id implies #[trigger] visit_faithful(
                warned,
                fs,
                root,
                j,
            ) by {
                assert(visit_faithful(m, fs, root, j));
                lemma_visit_stays_faithful(m, warned, fs, root, j);
            }
            lemma_faithful_close(warned, fs, root, id);
        },
        Some(all) => {
            let hits = matching_remotes(m.pattern, all);
            if hits.len() > 0 {
                let found = MatchModel { path, remotes: hits };
                let recorded = m.record(id, found);
                lemma_matching_remotes(m.pattern, all);
                assert forall|k: int| 0 <= k < m.sources.len() implies #[trigger] m.sources[k]
                    != id by {
                    assert(m.result_ok(k, None));
                }
                lemma_record_inv(m, id, found);
                assert forall|j: int| 0 <= j < recorded.visits.len() && j != id implies #[trigger] visit_faithful(
                    recorded,
                    fs,
                    root,
                    j,
                ) by {
                    assert(visit_faithful(m, fs, root, j));
                    assert(m.sources =~= recorded.sources.subrange(0, m.sources.len() as int));
                    lemma_visit_stays_faithful(m, recorded, fs, root, j);
                }
                assert(is_result_of(recorded, m.results.len() as int, id));
                lemma_faithful_close(recorded, fs, root, id);
            } else {
                lemma_faithful_close(m, fs, root, id);
            }
        },
    }
}

/// What a plausible file system answers is plausible, or is not awaited.
proof fn lemma_answer_is_plausible(fs: FileSystem, m: ScanModel, step: Step)
    requires
        fs.plausible(),
        answers(fs, m, step),
    ensures
        crate::scan_laws::plausible(step) || apply(m, step) == m,
{
}

/// A scan that the file system answers stays sound and faithful to it,
/// however many steps it takes and in whatever order the answers come.
pub proof fn lemma_faithful_run(
    fs: FileSystem,
    root: Seq<char>,
    pattern: PatternView,
    limit: nat,
    steps: Seq<Step>,
)
    requires
        fs.plausible(),
        answered_by(fs, ScanModel::start(root, pattern, limit), steps),
    ensures
        run(ScanModel::start(root, pattern, limit), steps).inv(),
        faithful(run(ScanModel::start(root, pattern, limit), steps), fs, root),
        run(ScanModel::start(root, pattern, limit), steps).pattern == pattern,
        run(ScanModel::start(root, pattern, limit), steps).limit == limit,
    decreases steps.len(),
{
    let start = ScanModel::start(root, pattern, limit);
    if steps.len() == 0 {
        lemma_start_inv(root, pattern, limit);
        lemma_faithful_start(fs, root, pattern, limit);
    } else {
        let before = run(start, steps.drop_last());
        lemma_faithful_run(fs, root, pattern, limit, steps.drop_last());
        lemma_faithful_step(before, fs, root, steps.last());
        lemma_answer_is_plausible(fs, before, steps.last());
        if crate::scan_laws::plausible(steps.last()) {
            lemma_step_frame(before, steps.last());
        }
    }
}

/// In a scan that is over, the directory at the end of every way that is
/// open from the root has a visit.
proof fn lemma_way_is_visited(m: ScanModel, fs: FileSystem, root: Seq<char>, way: Seq<Seq<char>>) -> (i:
    int)
    requires
        m.inv(),
        m.ended,
        faithful(m, fs, root),
        fs.walk(root, way) is Some,
    ensures
        0 <= i < m.visits.len(),
        Some(m.visits[i].path) == fs.walk(root, way),
    decreases way.len(),
{
    if way.len() == 0 {
        0
    } else {
        let j = lemma_way_is_visited(m, fs, root, way.drop_last());
        let dir = m.visits[j].path;
        let names = fs.subdirectories(dir);
        lemma_over_means_all_over(m, j);
        assert(visit_faithful(m, fs, root, j));
        let k = choose|k: int| 0 <= k < names.len() && names[k] == way.last();
        assert(has_child(m, j, names[k]));
        let c = choose|c: int| #[trigger] is_child(m, c, j, names[k]);
        assert(m.visit_ok(c, None));
        c
    }
}

/// Once a scan that `fs` answered is over, its visits are those of the
/// directories that a scan of the root is to visit, each with one visit,
/// and each visit is over.
pub proof fn lemma_visits_are_the_directories_to_visit(
    fs: FileSystem,
    root: Seq<char>,
    pattern: PatternView,
    limit: nat,
    steps: Seq<Step>,
)
    requires
        fs.plausible(),
        answered_by(fs, ScanModel::start(root, pattern, limit), steps),
        run(ScanModel::start(root, pattern, limit), steps).ended,
    ensures
        ({
            let m = run(ScanModel::start(root, pattern, limit), steps);
            &&& forall|i: int|
                0 <= i < m.visits.len() ==> fs.to_visit(root, (#[trigger] m.visits[i]).path)
                    && m.visits[i].phase == Phase::Finished
            &&& forall|path: Seq<char>| #[trigger]
                fs.to_visit(root, path) ==> exists|i: int|
                    0 <= i < m.visits.len() && (#[trigger] m.visits[i]).path == path
            &&& forall|i: int, j: int|
                0 <= i < j < m.visits.len() ==> (#[trigger] m.visits[i]).path != (
                #[trigger] m.visits[j]).path
        }),
{
    let m = run(ScanModel::start(root, pattern, limit), steps);
    lemma_faithful_run(fs, root, pattern, limit, steps);
    assert forall|i: int| 0 <= i < m.visits.len() implies fs.to_visit(
        root,
        (#[trigger] m.visits[i]).path,
    ) && m.visits[i].phase == Phase::Finished by {
        assert(visit_faithful(m, fs, root, i));
        lemma_over_means_all_over(m, i);
    }
    assert forall|path: Seq<char>| #[trigger] fs.to_visit(root, path) implies exists|i: int|
        0 <= i < m.visits.len() && (#[trigger] m.visits[i]).path == path by {
        let way = choose|way: Seq<Seq<char>>| #[trigger] fs.walk(root, way) == Some(path);
        let i = lemma_way_is_visited(m, fs, root, way);
        assert(m.visits[i].path == path);
    }
}

/// Once a scan that `fs` answered is over, it holds one match for each
/// repository root among the directories to visit that has a remote
/// matching the pattern, with exactly the remotes that match, in their
/// order; and it holds no other match.
pub proof fn lemma_results_are_the_matching_repositories(
    fs: FileSystem,
    root: Seq<char>,
    pattern: PatternView,
    limit: nat,
    steps: Seq<Step>,
)
    requires
        fs.plausible(),
        answered_by(fs, ScanModel::start(root, pattern, limit), steps),
        run(ScanModel::start(root, pattern, limit), steps).ended,
    ensures
        ({
            let m = run(ScanModel::start(root, pattern, limit), steps);
            &&& forall|k: int|
                0 <= k < m.results.len() ==> {
                    let found = #[trigger] m.results[k];
                    &&& fs.to_visit(root, found.path)
                    &&& fs.repository(found.path)
                    &&& found.remotes == fs.matching(pattern, found.path)
                    &&& found.remotes.len() > 0
                }
            &&& forall|path: Seq<char>|
                #![trigger fs.to_visit(root, path)]
                fs.to_visit(root, path) && fs.repository(path) && fs.matching(pattern, path).len()
                    > 0 ==> exists|k: int|
                    0 <= k < m.results.len() && #[trigger] m.results[k] == (MatchModel {
                        path,
                        remotes: fs.matching(pattern, path),
                    })
            &&& forall|a: int, b: int|
                0 <= a < b < m.results.len() ==> (#[trigger] m.results[a]).path != (
                #[trigger] m.results[b]).path
        }),
{
    let m = run(ScanModel::start(root, pattern, limit), steps);
    lemma_faithful_run(fs, root, pattern, limit, steps);
    crate::scan_model::lemma_results_distinct(m);
    assert forall|k: int| 0 <= k < m.results.len() implies {
        let found = #[trigger] m.results[k];
        &&& fs.to_visit(root, found.path)
        &&& fs.repository(found.path)
        &&& found.remotes == fs.matching(pattern, found.path)
        &&& found.remotes.len() > 0
    } by {
        assert(m.result_ok(k, None));
        assert(visit_faithful(m, fs, root, m.sources[k]));
    }
    assert forall|path: Seq<char>|
        #![trigger fs.to_visit(root, path)]
        fs.to_visit(root, path) && fs.repository(path) && fs.matching(pattern, path).len()
            > 0 implies exists|k: int|
        0 <= k < m.results.len() && #[trigger] m.results[k] == (MatchModel {
            path,
            remotes: fs.matching(pattern, path),
        }) by {
        let way = choose|way: Seq<Seq<char>>| #[trigger] fs.walk(root, way) == Some(path);
        let i = lemma_way_is_visited(m, fs, root, way);
        lemma_over_means_all_over(m, i);
        assert(visit_faithful(m, fs, root, i));
        let k = choose|k: int| #[trigger] is_result_of(m, k, i);
        assert(m.result_ok(k, None));
        assert(m.results[k].remotes == fs.matching(pattern, m.results[k].path));
        assert(m.results[k] =~= (MatchModel { path, remotes: fs.matching(pattern, path) }));
    }
}

/// A scan with a limit of one or more runs to its end, whatever the file
/// system answers and however few units there are: once every visit that
/// could be given a unit has been given one and every answer that was
/// awaited has come, the scan is over. It then holds one match for each
/// repository root among the directories to visit that has a matching
/// remote, whether or not other directories could be read.
pub proof fn lemma_scan_runs_to_its_end(
    fs: FileSystem,
    root: Seq<char>,
    pattern: PatternView,
    limit: nat,
    steps: Seq<Step>,
)
    requires
        fs.plausible(),
        limit >= 1,
        answered_by(fs, ScanModel::start(root, pattern, limit), steps),
        run(ScanModel::start(root, pattern, limit), steps).holders() == 0,
        !run(ScanModel::start(root, pattern, limit), steps).can_grant(),
    ensures
        ({
            let m = run(ScanModel::start(root, pattern, limit), steps);
            &&& m.ended
            &&& forall|path: Seq<char>|
                #![trigger fs.to_visit(root, path)]
                fs.to_visit(root, path) && fs.repository(path) && fs.matching(pattern, path).len()
                    > 0 ==> exists|k: int|
                    0 <= k < m.results.len() && #[trigger] m.results[k] == (MatchModel {
                        path,
                        remotes: fs.matching(pattern, path),
                    })
            &&& forall|k: int|
                0 <= k < m.results.len() ==> fs.repository((#[trigger] m.results[k]).path)
                    && m.results[k].remotes == fs.matching(pattern, m.results[k].path)
        }),
{
    let start = ScanModel::start(root, pattern, limit);
    let m = run(start, steps);
    lemma_faithful_run(fs, root, pattern, limit, steps);
    lemma_start_inv(root, pattern, limit);
    lemma_blocked_only_without_units(m);
    lemma_results_are_the_matching_repositories(fs, root, pattern, limit, steps);
}

} // verus!
