//! What holds of every execution of an action, whatever is answered.

use crate::action::ActionView;
use crate::execute;
use crate::execute::{
    CargoLayoutView, ExecutionPhaseView, ExecutionReplyView, ExecutionRequestView, ExecutionView,
    NearestView,
};
use crate::path;
use crate::path::{PartView, Platform};
use vstd::prelude::*;

verus! {

/// An execution after a number of answers.
pub open spec fn answered(
    execution: ExecutionView,
    replies: Seq<ExecutionReplyView>,
) -> ExecutionView
    decreases replies.len(),
{
    if replies.len() == 0 {
        execution
    } else {
        answered(execution, replies.drop_last()).after(replies.last())
    }
}

/// Whether each answer is one to what the execution asks for at its time.
pub open spec fn apt(execution: ExecutionView, replies: Seq<ExecutionReplyView>) -> bool
    decreases replies.len(),
{
    if replies.len() == 0 {
        true
    } else {
        &&& apt(execution, replies.drop_last())
        &&& answered(execution, replies.drop_last()).awaits(replies.last())
    }
}

/// Whether all directories that may be deleted lie strictly below the root.
pub open spec fn all_beneath(targets: Seq<Seq<PartView>>, root: Seq<PartView>) -> bool {
    forall|i: int| 0 <= i < targets.len() ==> path::beneath(#[trigger] targets[i], root)
}

/// Whether the execution waits for something that is there.
spec fn sensible(execution: ExecutionView) -> bool {
    match execution.phase {
        ExecutionPhaseView::ListingProfiles { index } => index < execution.targets.len(),
        ExecutionPhaseView::Probing { index, candidates, at } => {
            index < execution.targets.len() && at < candidates.len()
        },
        ExecutionPhaseView::Measuring { index, total } => index < execution.targets.len(),
        ExecutionPhaseView::Restarting => execution.targets.len() > 0,
        ExecutionPhaseView::Contending { index } => index < execution.targets.len(),
        ExecutionPhaseView::Acquiring { index } => index < execution.targets.len(),
        ExecutionPhaseView::Removing { index } => index < execution.targets.len(),
        ExecutionPhaseView::Releasing { index, cancelled } => index < execution.targets.len(),
        ExecutionPhaseView::Seeking { nearest } => nearest.within() && execution.requested.len()
            > 0,
        ExecutionPhaseView::Resolving { nearest } => nearest.within() && execution.requested.len()
            > 0,
        _ => true,
    }
}

/// Whether nothing has been deleted yet.
spec fn untouched(execution: ExecutionView) -> bool {
    &&& execution.completion.reclaimed_bytes == 0
    &&& execution.completion.files_removed == 0
}

/// Whether the execution has not come to deleting.
pub open spec fn before_deleting(phase: ExecutionPhaseView) -> bool {
    match phase {
        ExecutionPhaseView::Contending { index } => false,
        ExecutionPhaseView::Acquiring { index } => false,
        ExecutionPhaseView::Removing { index } => false,
        ExecutionPhaseView::Releasing { index, cancelled } => false,
        ExecutionPhaseView::Finished => false,
        _ => true,
    }
}

/// Whether the failures have been counted.
pub open spec fn counted(phase: ExecutionPhaseView) -> bool {
    match phase {
        ExecutionPhaseView::Measuring { index, total } => true,
        ExecutionPhaseView::Restarting => true,
        _ => !before_deleting(phase),
    }
}

spec fn sound(execution: ExecutionView) -> bool {
    &&& sensible(execution)
    &&& all_beneath(execution.targets, execution.root)
    &&& before_deleting(execution.phase) ==> untouched(execution)
    &&& !counted(execution.phase) ==> execution.completion.error_count == 0
    &&& execution.completion.skipped ==> {
        &&& execution.phase is Finished
        &&& untouched(execution)
        &&& execution.completion.error_count + 1 == execution.completion.errors.len()
    }
}

/// Whether a path is in a list, however its prefix is written.
pub open spec fn holds_alike(list: Seq<Seq<PartView>>, target: Seq<PartView>) -> bool {
    exists|i: int| 0 <= i < list.len() && path::alike(#[trigger] list[i], target)
}

proof fn lemma_deduplicated(list: Seq<Seq<PartView>>)
    ensures
        list.len() > 0 ==> deduplicated_last(list),
        forall|i: int|
            0 <= i < execute::deduplicated(list).len() ==> list.contains(
                #[trigger] execute::deduplicated(list)[i],
            ),
        forall|i: int|
            0 <= i < execute::deduplicated(list).len() - 1 ==> !path::alike(
                #[trigger] execute::deduplicated(list)[i],
                execute::deduplicated(list)[i + 1],
            ),
    decreases list.len(),
{
    let short = execute::deduplicated(list);
    if list.len() <= 1 {
        assert forall|i: int| 0 <= i < short.len() implies list.contains(#[trigger] short[i]) by {
            assert(list[i] == short[i]);
        }
    } else {
        let earlier = list.drop_last();
        let less = execute::deduplicated(earlier);
        lemma_deduplicated(earlier);
        assert forall|i: int| 0 <= i < short.len() implies list.contains(#[trigger] short[i]) by {
            if i < less.len() {
                assert(earlier.contains(less[i]));
                let j = choose|j: int| 0 <= j < earlier.len() && earlier[j] == less[i];
                assert(list[j] == short[i]);
            } else {
                assert(list[list.len() - 1] == short[i]);
            }
        }
        assert forall|i: int| 0 <= i < short.len() - 1 implies !path::alike(
            #[trigger] short[i],
            short[i + 1],
        ) by {
            if i + 1 < less.len() {
                assert(!path::alike(less[i], less[i + 1]));
            }
        }
    }
}

proof fn lemma_nothing_lost(list: Seq<Seq<PartView>>)
    ensures
        forall|i: int|
            0 <= i < list.len() ==> holds_alike(execute::deduplicated(list), #[trigger] list[i]),
    decreases list.len(),
{
    let short = execute::deduplicated(list);
    if list.len() <= 1 {
        assert forall|i: int| 0 <= i < list.len() implies holds_alike(short, #[trigger] list[i]) by {
            assert(path::alike(short[i], list[i]));
        }
    } else {
        let earlier = list.drop_last();
        let less = execute::deduplicated(earlier);
        lemma_nothing_lost(earlier);
        lemma_deduplicated(list);
        assert forall|i: int| 0 <= i < list.len() implies holds_alike(short, #[trigger] list[i]) by {
            if i < earlier.len() {
                assert(holds_alike(less, earlier[i]));
                let j = choose|j: int|
                    0 <= j < less.len() && path::alike(#[trigger] less[j], earlier[i]);
                assert(short[j] == less[j]);
            } else {
                assert(path::alike(short[short.len() - 1], list[i]));
            }
        }
    }
}

spec fn deduplicated_last(list: Seq<Seq<PartView>>) -> bool {
    &&& execute::deduplicated(list).len() > 0
    &&& path::alike(execute::deduplicated(list).last(), list.last())
}

/// Two spellings of one directory that follow one another collapse into one,
/// and nothing else is lost or added.
pub proof fn law_repetitions_collapse(list: Seq<Seq<PartView>>)
    ensures
        forall|i: int|
            0 <= i < execute::deduplicated(list).len() ==> list.contains(
                #[trigger] execute::deduplicated(list)[i],
            ),
        forall|target: Seq<PartView>| #[trigger]
            holds_alike(execute::deduplicated(list), target) <==> holds_alike(list, target),
        forall|i: int|
            0 <= i < execute::deduplicated(list).len() - 1 ==> !path::alike(
                #[trigger] execute::deduplicated(list)[i],
                execute::deduplicated(list)[i + 1],
            ),
{
    lemma_deduplicated(list);
    lemma_nothing_lost(list);
    let short = execute::deduplicated(list);
    assert forall|target: Seq<PartView>| #[trigger] holds_alike(short, target) <==> holds_alike(
        list,
        target,
    ) by {
        if holds_alike(short, target) {
            let i = choose|i: int| 0 <= i < short.len() && path::alike(#[trigger] short[i], target);
            assert(list.contains(short[i]));
        }
        if holds_alike(list, target) {
            let i = choose|i: int| 0 <= i < list.len() && path::alike(#[trigger] list[i], target);
            assert(holds_alike(short, list[i]));
        }
    }
}

proof fn lemma_settled_sound(execution: ExecutionView)
    requires
        all_beneath(execution.targets, execution.root),
        untouched(execution),
        execution.completion.error_count == 0,
        !execution.completion.skipped,
    ensures
        sound(execution.settled()),
        execution.settled().root == execution.root,
{
    let short = execute::deduplicated(execution.targets);
    lemma_deduplicated(execution.targets);
    assert forall|i: int| 0 <= i < short.len() implies path::beneath(
        #[trigger] short[i],
        execution.root,
    ) by {
        assert(execution.targets.contains(short[i]));
        let j = choose|j: int|
            0 <= j < execution.targets.len() && execution.targets[j] == short[i];
        assert(path::beneath(execution.targets[j], execution.root));
    }
}

proof fn lemma_seeking_sound(execution: ExecutionView)
    requires
        all_beneath(execution.targets, execution.root),
        untouched(execution),
        execution.completion.error_count == 0,
        !execution.completion.skipped,
    ensures
        sound(execution.seeking()),
        execution.seeking().root == execution.root,
{
    lemma_settled_sound(execution);
}

proof fn lemma_judged_sound(execution: ExecutionView, canonical: Seq<PartView>)
    requires
        all_beneath(execution.targets, execution.root),
        untouched(execution),
        execution.completion.error_count == 0,
        !execution.completion.skipped,
    ensures
        sound(execution.judged(canonical)),
        execution.judged(canonical).root == execution.root,
{
    match execute::validated(canonical, execution.root, execution.platform) {
        Ok(target) => {
            let longer = ExecutionView {
                targets: execution.targets.push(target),
                ..execution.looked_at()
            };
            assert forall|i: int| 0 <= i < longer.targets.len() implies path::beneath(
                #[trigger] longer.targets[i],
                execution.root,
            ) by {
                if i < execution.targets.len() {
                    assert(longer.targets[i] == execution.targets[i]);
                }
            }
            lemma_seeking_sound(longer);
        },
        Err(error) => lemma_seeking_sound(execution.looked_at().with_error(error)),
    }
}

proof fn lemma_informed_sound(execution: ExecutionView, layout: CargoLayoutView)
    requires
        all_beneath(execution.targets, execution.root),
        untouched(execution),
        execution.completion.error_count == 0,
        !execution.completion.skipped,
    ensures
        sound(execution.informed(layout)),
        execution.informed(layout).root == execution.root,
{
    let informed = ExecutionView {
        requested: execute::targets_of(execution.action.path, layout),
        completion: execute::CompletionView {
            errors: execution.completion.errors + execute::layout_errors(layout),
            ..execution.completion
        },
        ..execution
    };
    lemma_seeking_sound(informed);
}

proof fn lemma_after_sound(execution: ExecutionView, reply: ExecutionReplyView)
    requires
        sound(execution),
        execution.awaits(reply),
    ensures
        sound(execution.after(reply)),
        execution.after(reply).root == execution.root,
{
    match (execution.phase, reply) {
        (ExecutionPhaseView::AskingCargo, ExecutionReplyView::Metadata(result)) => match result {
            Ok(target) => {},
            Err(error) => lemma_informed_sound(execution, CargoLayoutView::Unknown(error)),
        },
        (
            ExecutionPhaseView::SeekingConventional { target },
            ExecutionReplyView::Found(found),
        ) => {
            lemma_informed_sound(
                execution,
                CargoLayoutView::Known { target, conventional_exists: found },
            );
        },
        (ExecutionPhaseView::Seeking { nearest }, ExecutionReplyView::Found(found)) => {
            lemma_judged_sound(execution, nearest.path);
        },
        (
            ExecutionPhaseView::Resolving { nearest },
            ExecutionReplyView::Canonical(result),
        ) => match result {
            Ok(canonical) => lemma_judged_sound(execution, nearest.restored(canonical)),
            Err(error) => lemma_seeking_sound(
                execution.looked_at().with_error(
                    "cannot canonicalize "@ + execution.shown(nearest.current()) + ": "@ + error,
                ),
            ),
        },
        _ => {},
    }
}

proof fn lemma_answered_sound(
    action: ActionView,
    root: Seq<PartView>,
    platform: Platform,
    replies: Seq<ExecutionReplyView>,
)
    requires
        apt(execute::execution_begun(action, root, platform), replies),
    ensures
        sound(answered(execute::execution_begun(action, root, platform), replies)),
        answered(execute::execution_begun(action, root, platform), replies).root == root,
    decreases replies.len(),
{
    let start = execute::execution_begun(action, root, platform);
    if replies.len() == 0 {
        let fresh = ExecutionView {
            requested: Seq::empty(),
            targets: Seq::empty(),
            completion: execute::CompletionView {
                path: action.path,
                errors: Seq::empty(),
                error_count: 0,
                reclaimed_bytes: 0,
                files_removed: 0,
                skipped: false,
            },
            phase: ExecutionPhaseView::AskingCargo,
            ..start
        };
        lemma_informed_sound(fresh, CargoLayoutView::NotCargo);
    } else {
        let earlier = replies.drop_last();
        lemma_answered_sound(action, root, platform, earlier);
        lemma_after_sound(answered(start, earlier), replies.last());
    }
}

/// Whether a request touches nothing but what lies strictly below the root.
pub open spec fn touches_only_beneath(
    request: ExecutionRequestView,
    root: Seq<PartView>,
) -> bool {
    match request {
        ExecutionRequestView::Measure(path) => path::beneath(path, root),
        ExecutionRequestView::Acquire(path) => path::beneath(path, root),
        ExecutionRequestView::Remove(path) => path::beneath(path, root),
        ExecutionRequestView::Release(path) => path::beneath(path, root),
        _ => true,
    }
}

/// Whatever is answered, nothing is deleted that does not lie strictly below
/// the root.
pub proof fn law_nothing_outside_the_root_is_deleted(
    action: ActionView,
    root: Seq<PartView>,
    platform: Platform,
    replies: Seq<ExecutionReplyView>,
)
    requires
        apt(execute::execution_begun(action, root, platform), replies),
    ensures
        touches_only_beneath(
            answered(execute::execution_begun(action, root, platform), replies).request(),
            root,
        ),
{
    lemma_answered_sound(action, root, platform, replies);
}

/// An action that is skipped because a build is running is over and has
/// deleted nothing. What it reports last is no failure; all else that it
/// reports counts as one.
pub proof fn law_skipped_actions_touch_nothing(
    action: ActionView,
    root: Seq<PartView>,
    platform: Platform,
    replies: Seq<ExecutionReplyView>,
)
    requires
        apt(execute::execution_begun(action, root, platform), replies),
        answered(
            execute::execution_begun(action, root, platform),
            replies,
        ).completion.skipped,
    ensures
        ({
            let end = answered(execute::execution_begun(action, root, platform), replies);
            &&& end.phase is Finished
            &&& end.completion.reclaimed_bytes == 0
            &&& end.completion.files_removed == 0
            &&& end.completion.error_count + 1 == end.completion.errors.len()
        }),
{
    lemma_answered_sound(action, root, platform, replies);
}

/// A lock that is held makes the action skip whatever it was to delete.
pub proof fn law_running_builds_are_left_alone(execution: ExecutionView)
    requires
        execution.phase is Probing,
    ensures
        execution.after(ExecutionReplyView::Found(true)).completion.skipped,
        execution.after(ExecutionReplyView::Found(true)).phase is Finished,
{
}

/// The directory that an execution holds for itself.
pub open spec fn held(execution: ExecutionView) -> Option<Seq<PartView>> {
    match execution.phase {
        ExecutionPhaseView::Removing { index } => Some(execution.targets[index as int]),
        ExecutionPhaseView::Releasing { index, cancelled } => Some(
            execution.targets[index as int],
        ),
        _ => None,
    }
}

proof fn lemma_seeking_unheld(execution: ExecutionView)
    ensures
        held(execution.seeking()) is None,
{
}

proof fn lemma_judged_unheld(execution: ExecutionView, canonical: Seq<PartView>)
    ensures
        held(execution.judged(canonical)) is None,
{
    match execute::validated(canonical, execution.root, execution.platform) {
        Ok(target) => lemma_seeking_unheld(
            ExecutionView {
                targets: execution.targets.push(target),
                ..execution.looked_at()
            },
        ),
        Err(error) => lemma_seeking_unheld(execution.looked_at().with_error(error)),
    }
}

proof fn lemma_informed_unheld(execution: ExecutionView, layout: CargoLayoutView)
    ensures
        held(execution.informed(layout)) is None,
{
    lemma_seeking_unheld(
        ExecutionView {
            requested: execute::targets_of(execution.action.path, layout),
            completion: execute::CompletionView {
                errors: execution.completion.errors + execute::layout_errors(layout),
                ..execution.completion
            },
            ..execution
        },
    );
}

/// Whether an answer leaves in place what a request says is held.
spec fn held_by(
    request: ExecutionRequestView,
    before: Option<Seq<PartView>>,
    after: Option<Seq<PartView>>,
) -> bool {
    match request {
        ExecutionRequestView::Acquire(path) => before is None && after == Some(path),
        ExecutionRequestView::Remove(path) => before == Some(path) && after == Some(path),
        ExecutionRequestView::Release(path) => before == Some(path) && after is None,
        _ => before is None && after is None,
    }
}

proof fn lemma_held_in_order(execution: ExecutionView, reply: ExecutionReplyView)
    requires
        execution.awaits(reply),
    ensures
        held_by(execution.request(), held(execution), held(execution.after(reply))),
{
    match (execution.phase, reply) {
        (ExecutionPhaseView::AskingCargo, ExecutionReplyView::Metadata(result)) => match result {
            Ok(target) => {},
            Err(error) => lemma_informed_unheld(execution, CargoLayoutView::Unknown(error)),
        },
        (
            ExecutionPhaseView::SeekingConventional { target },
            ExecutionReplyView::Found(found),
        ) => {
            lemma_informed_unheld(
                execution,
                CargoLayoutView::Known { target, conventional_exists: found },
            );
        },
        (ExecutionPhaseView::Seeking { nearest }, ExecutionReplyView::Found(found)) => {
            lemma_judged_unheld(execution, nearest.path);
        },
        (
            ExecutionPhaseView::Resolving { nearest },
            ExecutionReplyView::Canonical(result),
        ) => match result {
            Ok(canonical) => lemma_judged_unheld(execution, nearest.restored(canonical)),
            Err(error) => lemma_seeking_unheld(
                execution.looked_at().with_error(
                    "cannot canonicalize "@ + execution.shown(nearest.current()) + ": "@ + error,
                ),
            ),
        },
        _ => {},
    }
}

/// A directory is held from when it is acquired until it is released, nothing
/// else is, and only what is held is removed.
pub proof fn law_only_what_is_held_is_removed(
    action: ActionView,
    root: Seq<PartView>,
    platform: Platform,
    replies: Seq<ExecutionReplyView>,
    reply: ExecutionReplyView,
)
    requires
        apt(execute::execution_begun(action, root, platform), replies),
        answered(execute::execution_begun(action, root, platform), replies).awaits(reply),
    ensures
        ({
            let before = answered(execute::execution_begun(action, root, platform), replies);
            let after = before.after(reply);
            match before.request() {
                ExecutionRequestView::Acquire(path) => {
                    held(before) is None && held(after) == Some(path)
                },
                ExecutionRequestView::Remove(path) => {
                    held(before) == Some(path) && held(after) == Some(path)
                },
                ExecutionRequestView::Release(path) => {
                    held(before) == Some(path) && held(after) is None
                },
                _ => held(before) is None && held(after) is None,
            }
        }),
{
    let before = answered(execute::execution_begun(action, root, platform), replies);
    lemma_held_in_order(before, reply);
}

/// What the removals of an action come to.
pub open spec fn bytes_among(replies: Seq<ExecutionReplyView>) -> nat
    decreases replies.len(),
{
    if replies.len() == 0 {
        0
    } else {
        bytes_among(replies.drop_last()) + match replies.last() {
            ExecutionReplyView::Removed(outcome) => outcome.bytes_removed as nat,
            _ => 0,
        }
    }
}

/// The files that the removals of an action take.
pub open spec fn files_among(replies: Seq<ExecutionReplyView>) -> nat
    decreases replies.len(),
{
    if replies.len() == 0 {
        0
    } else {
        files_among(replies.drop_last()) + match replies.last() {
            ExecutionReplyView::Removed(outcome) => outcome.files_removed as nat,
            _ => 0,
        }
    }
}

/// The failures of the removals of an action.
pub open spec fn failures_among(replies: Seq<ExecutionReplyView>) -> nat
    decreases replies.len(),
{
    if replies.len() == 0 {
        0
    } else {
        failures_among(replies.drop_last()) + match replies.last() {
            ExecutionReplyView::Removed(outcome) => outcome.error_count as nat,
            _ => 0,
        }
    }
}

/// Whether a removal of an action was cancelled.
pub open spec fn any_cancelled(replies: Seq<ExecutionReplyView>) -> bool {
    exists|i: int|
        0 <= i < replies.len() && ((#[trigger] replies[i]) matches ExecutionReplyView::Removed(
            outcome,
        ) && outcome.cancelled)
}

/// The failures that are noted before anything is measured or deleted. That a
/// build is running is none.
pub open spec fn failures_noted(
    execution: ExecutionView,
    replies: Seq<ExecutionReplyView>,
) -> nat
    decreases replies.len(),
{
    if replies.len() > 0 && counted(answered(execution, replies.drop_last()).phase) {
        failures_noted(execution, replies.drop_last())
    } else {
        let reached = answered(execution, replies).completion;
        (reached.errors.len() - if reached.skipped {
            1int
        } else {
            0int
        }) as nat
    }
}

/// Whether the failures are counted so far as they should be.
spec fn failures_add_up(execution: ExecutionView, replies: Seq<ExecutionReplyView>) -> bool {
    let reached = answered(execution, replies);
    if counted(reached.phase) {
        &&& reached.completion.error_count == failures_noted(execution, replies)
            + failures_among(replies) + if any_cancelled(replies) && reached.phase is Finished {
            1int
        } else {
            0int
        }
        &&& !(reached.phase is Finished) ==> {
            any_cancelled(replies) == giving_up(reached.phase)
        }
    } else {
        &&& failures_among(replies) == 0
        &&& !any_cancelled(replies)
        &&& reached.completion.error_count == 0
        &&& !reached.completion.skipped
    }
}

/// Whether an execution has come to an answer without a failure of a removal,
/// and its failures are counted if they should be.
spec fn freshly_counted(execution: ExecutionView) -> bool {
    let errors = execution.completion.errors.len() as int;
    if counted(execution.phase) {
        &&& execution.completion.error_count == errors - if execution.completion.skipped {
            1int
        } else {
            0int
        }
        &&& !(execution.phase is Releasing)
    } else {
        execution.completion.error_count == 0 && !execution.completion.skipped
    }
}

proof fn lemma_settled_counted(execution: ExecutionView)
    requires
        execution.completion.error_count == 0,
        !execution.completion.skipped,
    ensures
        freshly_counted(execution.settled()),
        freshly_counted(execution.seeking()),
{
}

proof fn lemma_judged_counted(execution: ExecutionView, canonical: Seq<PartView>)
    requires
        execution.completion.error_count == 0,
        !execution.completion.skipped,
    ensures
        freshly_counted(execution.judged(canonical)),
{
    match execute::validated(canonical, execution.root, execution.platform) {
        Ok(target) => lemma_settled_counted(
            ExecutionView {
                targets: execution.targets.push(target),
                ..execution.looked_at()
            },
        ),
        Err(error) => lemma_settled_counted(execution.looked_at().with_error(error)),
    }
}

proof fn lemma_informed_counted(execution: ExecutionView, layout: CargoLayoutView)
    requires
        execution.completion.error_count == 0,
        !execution.completion.skipped,
    ensures
        freshly_counted(execution.informed(layout)),
{
    lemma_settled_counted(
        ExecutionView {
            requested: execute::targets_of(execution.action.path, layout),
            completion: execute::CompletionView {
                errors: execution.completion.errors + execute::layout_errors(layout),
                ..execution.completion
            },
            ..execution
        },
    );
}

proof fn lemma_before_counting(before: ExecutionView, reply: ExecutionReplyView)
    requires
        !counted(before.phase),
        before.awaits(reply),
        before.completion.error_count == 0,
        !before.completion.skipped,
    ensures
        freshly_counted(before.after(reply)),
        !(reply is Removed),
{
    match (before.phase, reply) {
        (ExecutionPhaseView::AskingCargo, ExecutionReplyView::Metadata(result)) => match result {
            Ok(target) => {},
            Err(error) => lemma_informed_counted(before, CargoLayoutView::Unknown(error)),
        },
        (
            ExecutionPhaseView::SeekingConventional { target },
            ExecutionReplyView::Found(found),
        ) => lemma_informed_counted(
            before,
            CargoLayoutView::Known { target, conventional_exists: found },
        ),
        (ExecutionPhaseView::Seeking { nearest }, _) => lemma_judged_counted(before, nearest.path),
        (
            ExecutionPhaseView::Resolving { nearest },
            ExecutionReplyView::Canonical(result),
        ) => match result {
            Ok(canonical) => lemma_judged_counted(before, nearest.restored(canonical)),
            Err(error) => lemma_settled_counted(
                before.looked_at().with_error(
                    "cannot canonicalize "@ + before.shown(nearest.current()) + ": "@ + error,
                ),
            ),
        },
        _ => {},
    }
}

/// Whether a removal was just cancelled.
spec fn giving_up(phase: ExecutionPhaseView) -> bool {
    phase matches ExecutionPhaseView::Releasing { index, cancelled } && cancelled
}

proof fn lemma_while_counting(before: ExecutionView, reply: ExecutionReplyView)
    requires
        counted(before.phase),
        before.awaits(reply),
    ensures
        ({
            let after = before.after(reply);
            &&& counted(after.phase)
            &&& after.completion.error_count == before.completion.error_count + (match reply {
                ExecutionReplyView::Removed(outcome) => outcome.error_count as nat,
                _ => 0,
            }) + if giving_up(before.phase) {
                1int
            } else {
                0int
            }
            &&& giving_up(before.phase) ==> after.phase is Finished
            &&& giving_up(after.phase) <==> (reply matches ExecutionReplyView::Removed(outcome)
                && outcome.cancelled)
            &&& after.phase is Finished ==> !(reply is Removed)
            &&& !(before.phase is Finished)
        }),
{
}

pub proof fn lemma_any_cancelled(replies: Seq<ExecutionReplyView>)
    requires
        replies.len() > 0,
    ensures
        any_cancelled(replies) == (any_cancelled(replies.drop_last()) || (
        replies.last() matches ExecutionReplyView::Removed(outcome) && outcome.cancelled)),
{
    let earlier = replies.drop_last();
    if any_cancelled(earlier) {
        let i = choose|i: int|
            0 <= i < earlier.len() && ((#[trigger] earlier[i]) matches ExecutionReplyView::Removed(
                outcome,
            ) && outcome.cancelled);
        assert(replies[i] == earlier[i]);
    }
    if any_cancelled(replies) {
        let i = choose|i: int|
            0 <= i < replies.len() && ((#[trigger] replies[i]) matches ExecutionReplyView::Removed(
                outcome,
            ) && outcome.cancelled);
        if i < earlier.len() {
            assert(replies[i] == earlier[i]);
        }
    }
    assert(replies[replies.len() - 1] == replies.last());
}

proof fn lemma_first_counted(start: ExecutionView, replies: Seq<ExecutionReplyView>)
    requires
        replies.len() > 0,
        !counted(answered(start, replies.drop_last()).phase),
        failures_among(replies.drop_last()) == 0,
        !any_cancelled(replies.drop_last()),
        !(replies.last() is Removed),
        freshly_counted(answered(start, replies)),
    ensures
        failures_add_up(start, replies),
{
    lemma_any_cancelled(replies);
}

proof fn lemma_failures_add_up(
    action: ActionView,
    root: Seq<PartView>,
    platform: Platform,
    replies: Seq<ExecutionReplyView>,
)
    requires
        apt(execute::execution_begun(action, root, platform), replies),
    ensures
        failures_add_up(execute::execution_begun(action, root, platform), replies),
    decreases replies.len(),
{
    let start = execute::execution_begun(action, root, platform);
    if replies.len() > 0 {
        let earlier = replies.drop_last();
        let before = answered(start, earlier);
        lemma_failures_add_up(action, root, platform, earlier);
        lemma_any_cancelled(replies);
        if counted(before.phase) {
            lemma_while_counting(before, replies.last());
        } else {
            lemma_before_counting(before, replies.last());
            lemma_first_counted(start, replies);
        }
    } else {
        assert(!any_cancelled(replies));
        assert(!counted(start.phase));
    }
}

proof fn lemma_after_adds_up(execution: ExecutionView, reply: ExecutionReplyView)
    requires
        execution.awaits(reply),
    ensures
        execution.after(reply).completion.reclaimed_bytes == execution.completion.reclaimed_bytes
            + (match reply {
            ExecutionReplyView::Removed(outcome) => outcome.bytes_removed as nat,
            _ => 0,
        }),
        execution.after(reply).completion.files_removed == execution.completion.files_removed + (
        match reply {
            ExecutionReplyView::Removed(outcome) => outcome.files_removed as nat,
            _ => 0,
        }),
{
}

/// An action reports as reclaimed exactly what its removals reclaimed. Once it
/// is known what it deletes, if anything, it also counts as failures exactly
/// those noted before, those of its removals, and that one of them was
/// cancelled.
pub proof fn law_reports_add_up(
    action: ActionView,
    root: Seq<PartView>,
    platform: Platform,
    replies: Seq<ExecutionReplyView>,
)
    requires
        apt(execute::execution_begun(action, root, platform), replies),
    ensures
        ({
            let end = answered(execute::execution_begun(action, root, platform), replies);
            &&& end.completion.reclaimed_bytes == bytes_among(replies)
            &&& end.completion.files_removed == files_among(replies)
            &&& counted(end.phase) ==> {
                end.completion.error_count == failures_noted(
                    execute::execution_begun(action, root, platform),
                    replies,
                ) + failures_among(replies) + if any_cancelled(replies) && end.phase is Finished {
                    1int
                } else {
                    0int
                }
            }
        }),
    decreases replies.len(),
{
    let start = execute::execution_begun(action, root, platform);
    lemma_failures_add_up(action, root, platform, replies);
    if replies.len() > 0 {
        let earlier = replies.drop_last();
        law_reports_add_up(action, root, platform, earlier);
        lemma_after_adds_up(answered(start, earlier), replies.last());
    }
}

/// How far an execution is from its end: which part it is in, and how far it
/// is from the end of that part.
pub open spec fn distance(execution: ExecutionView) -> (nat, nat, nat) {
    let left = |index: nat| (execution.targets.len() - index) as nat;
    match execution.phase {
        ExecutionPhaseView::AskingCargo => (7, 0, 0),
        ExecutionPhaseView::SeekingConventional { target } => (6, 0, 0),
        ExecutionPhaseView::Seeking { nearest } => {
            (5, execution.requested.len(), 2 * nearest.kept + 1)
        },
        ExecutionPhaseView::Resolving { nearest } => {
            (5, execution.requested.len(), 2 * nearest.kept)
        },
        ExecutionPhaseView::ListingProfiles { index } => (4, 2 * left(index) + 1, 0),
        ExecutionPhaseView::Probing { index, candidates, at } => {
            (4, 2 * left(index), (candidates.len() - at) as nat)
        },
        ExecutionPhaseView::Measuring { index, total } => (3, left(index), 0),
        ExecutionPhaseView::Restarting => (2, 0, 0),
        ExecutionPhaseView::Contending { index } => (1, left(index), 3),
        ExecutionPhaseView::Acquiring { index } => (1, left(index), 2),
        ExecutionPhaseView::Removing { index } => (1, left(index), 1),
        ExecutionPhaseView::Releasing { index, cancelled } => (1, left(index), 0),
        ExecutionPhaseView::Finished => (0, 0, 0),
    }
}

/// The order in which such distances shrink: there is no endless descent.
pub open spec fn nearer(left: (nat, nat, nat), right: (nat, nat, nat)) -> bool {
    ||| left.0 < right.0
    ||| left.0 == right.0 && left.1 < right.1
    ||| left.0 == right.0 && left.1 == right.1 && left.2 < right.2
}

proof fn lemma_seeking_nearer(execution: ExecutionView, requested: nat, kept: nat)
    requires
        execution.requested.len() < requested,
    ensures
        nearer(distance(execution.seeking()), (5, requested, kept)),
{
}

/// Each answer brings an execution nearer to its end, so none goes on for
/// ever.
pub proof fn law_executions_end(
    action: ActionView,
    root: Seq<PartView>,
    platform: Platform,
    replies: Seq<ExecutionReplyView>,
    reply: ExecutionReplyView,
)
    requires
        apt(execute::execution_begun(action, root, platform), replies),
        answered(execute::execution_begun(action, root, platform), replies).awaits(reply),
    ensures
        ({
            let before = answered(execute::execution_begun(action, root, platform), replies);
            nearer(distance(before.after(reply)), distance(before))
        }),
{
    lemma_answered_sound(action, root, platform, replies);
    let before = answered(execute::execution_begun(action, root, platform), replies);
    lemma_after_nearer(before, reply);
}

proof fn lemma_informed_nearer(execution: ExecutionView, layout: CargoLayoutView)
    ensures
        distance(execution.informed(layout)).0 <= 5,
{
    lemma_seeking_part(
        ExecutionView {
            requested: execute::targets_of(execution.action.path, layout),
            completion: execute::CompletionView {
                errors: execution.completion.errors + execute::layout_errors(layout),
                ..execution.completion
            },
            ..execution
        },
    );
}

proof fn lemma_seeking_part(execution: ExecutionView)
    ensures
        distance(execution.seeking()).0 <= 5,
{
}

proof fn lemma_after_nearer(before: ExecutionView, reply: ExecutionReplyView)
    requires
        sensible(before),
        before.awaits(reply),
    ensures
        nearer(distance(before.after(reply)), distance(before)),
{
    match (before.phase, reply) {
        (ExecutionPhaseView::AskingCargo, ExecutionReplyView::Metadata(result)) => match result {
            Ok(target) => {},
            Err(error) => lemma_informed_nearer(before, CargoLayoutView::Unknown(error)),
        },
        (
            ExecutionPhaseView::SeekingConventional { target },
            ExecutionReplyView::Found(found),
        ) => {
            lemma_informed_nearer(
                before,
                CargoLayoutView::Known { target, conventional_exists: found },
            );
        },
        (ExecutionPhaseView::Seeking { nearest }, ExecutionReplyView::Found(found)) => {
            if !found && !nearest.can_shorten() {
                lemma_judged_nearer(before, nearest.path, 2 * nearest.kept + 1);
            }
        },
        (
            ExecutionPhaseView::Resolving { nearest },
            ExecutionReplyView::Canonical(result),
        ) => match result {
            Ok(canonical) => {
                lemma_judged_nearer(before, nearest.restored(canonical), 2 * nearest.kept);
            },
            Err(error) => {
                lemma_seeking_nearer(
                    before.looked_at().with_error(
                        "cannot canonicalize "@ + before.shown(nearest.current()) + ": "@ + error,
                    ),
                    before.requested.len(),
                    2 * nearest.kept,
                );
            },
        },
        _ => {},
    }
}

proof fn lemma_judged_nearer(execution: ExecutionView, canonical: Seq<PartView>, kept: nat)
    requires
        execution.requested.len() > 0,
    ensures
        nearer(distance(execution.judged(canonical)), (5, execution.requested.len(), kept)),
{
    match execute::validated(canonical, execution.root, execution.platform) {
        Ok(target) => lemma_seeking_nearer(
            ExecutionView {
                targets: execution.targets.push(target),
                ..execution.looked_at()
            },
            execution.requested.len(),
            kept,
        ),
        Err(error) => lemma_seeking_nearer(
            execution.looked_at().with_error(error),
            execution.requested.len(),
            kept,
        ),
    }
}

/// A path whose deepest existing ancestor is canonical already stays the same
/// path: what was cut off to find the ancestor is put back.
pub proof fn law_what_is_cut_off_is_put_back(nearest: NearestView)
    requires
        nearest.within(),
    ensures
        path::alike(nearest.restored(nearest.current()), nearest.path),
{
    let kept = nearest.path.take(nearest.kept as int);
    let rest = nearest.path.skip(nearest.kept as int);
    path::lemma_key_extended(nearest.current(), rest);
    path::lemma_key_trimmed(kept);
    assert(nearest.path =~= kept + rest);
    assert(path::key(nearest.path) =~= path::key(kept) + path::key(rest));
    if nearest.kept == nearest.path.len() {
        assert(kept =~= nearest.path);
    }
}

/// Whether an answer reports failures if and only if it counts some.
pub open spec fn honest(reply: ExecutionReplyView) -> bool {
    match reply {
        ExecutionReplyView::Removed(outcome) => outcome.errors.len() == 0 <==> outcome.error_count
            == 0,
        _ => true,
    }
}

spec fn tallied(execution: ExecutionView) -> bool {
    counted(execution.phase) && !execution.completion.skipped ==> (
    execution.completion.errors.len() == 0 <==> execution.completion.error_count == 0)
}

proof fn lemma_seeking_tallied(execution: ExecutionView)
    ensures
        tallied(execution.seeking()),
{
}

proof fn lemma_judged_tallied(execution: ExecutionView, canonical: Seq<PartView>)
    ensures
        tallied(execution.judged(canonical)),
{
    match execute::validated(canonical, execution.root, execution.platform) {
        Ok(target) => lemma_seeking_tallied(
            ExecutionView {
                targets: execution.targets.push(target),
                ..execution.looked_at()
            },
        ),
        Err(error) => lemma_seeking_tallied(execution.looked_at().with_error(error)),
    }
}

proof fn lemma_informed_tallied(execution: ExecutionView, layout: CargoLayoutView)
    ensures
        tallied(execution.informed(layout)),
{
    lemma_seeking_tallied(
        ExecutionView {
            requested: execute::targets_of(execution.action.path, layout),
            completion: execute::CompletionView {
                errors: execution.completion.errors + execute::layout_errors(layout),
                ..execution.completion
            },
            ..execution
        },
    );
}

proof fn lemma_after_tallied(execution: ExecutionView, reply: ExecutionReplyView)
    requires
        tallied(execution),
        execution.awaits(reply),
        honest(reply),
    ensures
        tallied(execution.after(reply)),
{
    match (execution.phase, reply) {
        (ExecutionPhaseView::AskingCargo, ExecutionReplyView::Metadata(result)) => match result {
            Ok(target) => {},
            Err(error) => lemma_informed_tallied(execution, CargoLayoutView::Unknown(error)),
        },
        (
            ExecutionPhaseView::SeekingConventional { target },
            ExecutionReplyView::Found(found),
        ) => {
            lemma_informed_tallied(
                execution,
                CargoLayoutView::Known { target, conventional_exists: found },
            );
        },
        (ExecutionPhaseView::Seeking { nearest }, ExecutionReplyView::Found(found)) => {
            lemma_judged_tallied(execution, nearest.path);
        },
        (
            ExecutionPhaseView::Resolving { nearest },
            ExecutionReplyView::Canonical(result),
        ) => match result {
            Ok(canonical) => lemma_judged_tallied(execution, nearest.restored(canonical)),
            Err(error) => lemma_seeking_tallied(
                execution.looked_at().with_error(
                    "cannot canonicalize "@ + execution.shown(nearest.current()) + ": "@ + error,
                ),
            ),
        },
        _ => {},
    }
}

/// An action counts failures if and only if it reports some, as long as its
/// removals do; that it was skipped is reported but is no failure.
pub proof fn law_failures_are_counted_and_reported(
    action: ActionView,
    root: Seq<PartView>,
    platform: Platform,
    replies: Seq<ExecutionReplyView>,
)
    requires
        apt(execute::execution_begun(action, root, platform), replies),
        forall|i: int| 0 <= i < replies.len() ==> honest(#[trigger] replies[i]),
    ensures
        ({
            let end = answered(execute::execution_begun(action, root, platform), replies);
            end.phase is Finished ==> if end.completion.skipped {
                end.completion.error_count + 1 == end.completion.errors.len()
            } else {
                end.completion.errors.len() == 0 <==> end.completion.error_count == 0
            }
        }),
{
    lemma_answered_tallied(action, root, platform, replies);
    lemma_answered_sound(action, root, platform, replies);
}

proof fn lemma_answered_tallied(
    action: ActionView,
    root: Seq<PartView>,
    platform: Platform,
    replies: Seq<ExecutionReplyView>,
)
    requires
        apt(execute::execution_begun(action, root, platform), replies),
        forall|i: int| 0 <= i < replies.len() ==> honest(#[trigger] replies[i]),
    ensures
        tallied(answered(execute::execution_begun(action, root, platform), replies)),
    decreases replies.len(),
{
    let start = execute::execution_begun(action, root, platform);
    if replies.len() > 0 {
        let earlier = replies.drop_last();
        assert forall|i: int| 0 <= i < earlier.len() implies honest(#[trigger] earlier[i]) by {
            assert(earlier[i] == replies[i]);
        }
        assert(replies[replies.len() - 1] == replies.last());
        lemma_answered_tallied(action, root, platform, earlier);
        lemma_after_tallied(answered(start, earlier), replies.last());
    }
}

} // verus!
