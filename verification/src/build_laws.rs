//! How builds that are running are noticed, and what an action goes through
//! before and while it deletes.

use crate::action::{ActionKind, ActionState, ActionView, ProgressView};
use crate::execute;
use crate::execute::{
    CargoLayoutView, ExecutionPhaseView, ExecutionReplyView, ExecutionRequestView, ExecutionView,
    NearestView,
};
use crate::execution_laws;
use crate::finding_laws;
use crate::path;
use crate::path::{ComponentView, PartView, Platform};
use vstd::prelude::*;

verus! {

/// The lock file of a number in a directory: there are three, and this is their
/// order.
pub open spec fn lock_in(directory: Seq<PartView>, number: int) -> Seq<PartView> {
    path::pushed(
        directory,
        ComponentView::Name(
            vstd::utf8::encode_utf8(
                if number == 0 {
                    ".cargo-lock"@
                } else if number == 1 {
                    ".cargo-build-lock"@
                } else {
                    ".cargo-artifact-lock"@
                },
            ),
        ),
    )
}

/// An entry of a directory.
pub open spec fn entry_of(directory: Seq<PartView>, name: Seq<u8>) -> Seq<PartView> {
    path::pushed(directory, ComponentView::Name(name))
}

/// Whether a directory sits in one named `target`.
pub open spec fn sits_in_target(directory: Seq<PartView>) -> bool {
    &&& directory.len() >= 2
    &&& !(directory.last().component is Root || directory.last().component is Prefix)
    &&& directory[directory.len() - 2].component == ComponentView::Name(
        vstd::utf8::encode_utf8("target"@),
    )
}

/// How many directories a listing has.
pub open spec fn directories_in(listing: Seq<(Seq<u8>, bool)>) -> nat {
    listing.filter(|entry: (Seq<u8>, bool)| entry.1).len()
}

proof fn lemma_all_lock_files(directories: Seq<Seq<PartView>>)
    ensures
        execute::all_lock_files(directories).len() == 3 * directories.len(),
        forall|k: int, number: int|
            0 <= k < directories.len() && 0 <= number < 3 ==> execute::all_lock_files(
                directories,
            )[3 * k + number] == #[trigger] lock_in(#[trigger] directories[k], number),
    decreases directories.len(),
{
    if directories.len() > 0 {
        let less = directories.drop_last();
        let all = execute::all_lock_files(directories);
        lemma_all_lock_files(less);
        assert forall|k: int, number: int| 0 <= k < directories.len() && 0 <= number < 3 implies all[
            3 * k + number
        ] == #[trigger] lock_in(#[trigger] directories[k], number) by {
            if k < less.len() {
                assert(less[k] == directories[k]);
                assert(execute::all_lock_files(less)[3 * k + number] == lock_in(less[k], number));
            }
        }
    }
}

proof fn lemma_subdirectories(directory: Seq<PartView>, listing: Seq<(Seq<u8>, bool)>)
    ensures
        execute::subdirectories(directory, listing).len() == directories_in(listing),
        forall|i: int|
            0 <= i < listing.len() && (#[trigger] listing[i]).1 ==> directories_in(
                listing.take(i),
            ) < directories_in(listing) && execute::subdirectories(
                directory,
                listing,
            )[directories_in(listing.take(i)) as int] == entry_of(directory, listing[i].0),
    decreases listing.len(),
{
    reveal(Seq::filter);
    if listing.len() > 0 {
        let less = listing.drop_last();
        lemma_subdirectories(directory, less);
        assert forall|i: int| 0 <= i < listing.len() && (#[trigger] listing[i]).1 implies {
            &&& directories_in(listing.take(i)) < directories_in(listing)
            &&& execute::subdirectories(directory, listing)[directories_in(listing.take(i)) as int]
                == entry_of(directory, listing[i].0)
        } by {
            if i < less.len() {
                assert(less[i] == listing[i]);
                assert(less.take(i) =~= listing.take(i));
            } else {
                assert(listing.take(i) =~= less);
            }
        }
    }
}

proof fn lemma_enclosing(target: Seq<PartView>)
    ensures
        sits_in_target(target) ==> execute::enclosing_target(target) == seq![
            path::trimmed(target.drop_last()),
        ],
        !sits_in_target(target) ==> execute::enclosing_target(target).len() == 0,
{
    if target.len() >= 2 {
        let inner = target.drop_last();
        assert(path::trimmed(inner).last().component == target[target.len() - 2].component);
    }
}

/// A running build is looked for in the target directory, in the one named
/// `target` that a bare debug directory sits in, and in every directory in the
/// target directory, by three lock files in each, in this order.
pub proof fn law_builds_are_looked_for_everywhere(
    target: Seq<PartView>,
    listing: Seq<(Seq<u8>, bool)>,
)
    ensures
        ({
            let locks = execute::build_locks(target, listing);
            let around = if sits_in_target(target) {
                1int
            } else {
                0int
            };
            &&& locks.len() == 3 * (1 + around + directories_in(listing))
            &&& forall|number: int|
                0 <= number < 3 ==> locks[number] == #[trigger] lock_in(target, number)
            &&& sits_in_target(target) ==> forall|number: int|
                0 <= number < 3 ==> locks[3 + number] == #[trigger] lock_in(
                    path::trimmed(target.drop_last()),
                    number,
                )
            &&& forall|i: int, number: int|
                0 <= i < listing.len() && (#[trigger] listing[i]).1 && 0 <= number < 3 ==> locks[3
                    * (1 + around + directories_in(listing.take(i))) + number]
                    == #[trigger] lock_in(entry_of(target, listing[i].0), number)
        }),
{
    let scopes = execute::lock_scopes(target, listing);
    let locks = execute::build_locks(target, listing);
    let around = if sits_in_target(target) {
        1int
    } else {
        0int
    };
    lemma_all_lock_files(scopes);
    lemma_enclosing(target);
    lemma_subdirectories(target, listing);
    assert(scopes[0] == target);
    assert(scopes.len() == 1 + around + directories_in(listing));
    assert forall|number: int| 0 <= number < 3 implies locks[number] == #[trigger] lock_in(
        target,
        number,
    ) by {
        assert(locks[3 * 0 + number] == lock_in(scopes[0], number));
    }
    if sits_in_target(target) {
        let outer = path::trimmed(target.drop_last());
        assert(scopes[1] == outer);
        assert forall|number: int| 0 <= number < 3 implies locks[3 + number] == #[trigger] lock_in(
            outer,
            number,
        ) by {
            assert(locks[3 * 1 + number] == lock_in(scopes[1], number));
        }
    }
    assert forall|i: int, number: int|
        0 <= i < listing.len() && (#[trigger] listing[i]).1 && 0 <= number < 3 implies locks[3 * (1
        + around + directories_in(listing.take(i))) + number] == #[trigger] lock_in(
        entry_of(target, listing[i].0),
        number,
    ) by {
        let k = 1 + around + directories_in(listing.take(i));
        assert(scopes[k] == entry_of(target, listing[i].0));
        assert(locks[3 * k + number] == lock_in(scopes[k], number));
    }
}

/// Every directory in a target directory has its three lock files tried, and so
/// has the target directory itself.
pub proof fn law_every_profile_is_tried(
    target: Seq<PartView>,
    listing: Seq<(Seq<u8>, bool)>,
    i: int,
)
    requires
        0 <= i < listing.len(),
        listing[i].1,
    ensures
        ({
            let locks = execute::build_locks(target, listing);
            let profile = entry_of(target, listing[i].0);
            &&& locks.contains(entry_of(profile, vstd::utf8::encode_utf8(".cargo-lock"@)))
            &&& locks.contains(entry_of(profile, vstd::utf8::encode_utf8(".cargo-build-lock"@)))
            &&& locks.contains(entry_of(profile, vstd::utf8::encode_utf8(".cargo-artifact-lock"@)))
            &&& locks.contains(entry_of(target, vstd::utf8::encode_utf8(".cargo-lock"@)))
            &&& locks.contains(entry_of(target, vstd::utf8::encode_utf8(".cargo-build-lock"@)))
            &&& locks.contains(entry_of(target, vstd::utf8::encode_utf8(".cargo-artifact-lock"@)))
        }),
{
    law_builds_are_looked_for_everywhere(target, listing);
    let locks = execute::build_locks(target, listing);
    let profile = entry_of(target, listing[i].0);
    let around = if sits_in_target(target) {
        1int
    } else {
        0int
    };
    let k = 3 * (1 + around + directories_in(listing.take(i)));
    lemma_subdirectories(target, listing);
    assert(locks[k + 0] == lock_in(profile, 0));
    assert(locks[k + 1] == lock_in(profile, 1));
    assert(locks[k + 2] == lock_in(profile, 2));
    assert(locks[0] == lock_in(target, 0));
    assert(locks[1] == lock_in(target, 1));
    assert(locks[2] == lock_in(target, 2));
}

/// Whether an execution was asked at a place of a course of answers whether a
/// lock is held, and was told that it is not.
pub open spec fn told_free(
    start: ExecutionView,
    replies: Seq<ExecutionReplyView>,
    at: int,
    lock: Seq<PartView>,
) -> bool {
    &&& 0 <= at < replies.len()
    &&& execution_laws::answered(start, replies.take(at)).request()
        == ExecutionRequestView::IsLocked(lock)
    &&& replies[at] == ExecutionReplyView::Found(false)
}

/// Whether the entries of a directory were asked for at a place of a course of
/// answers.
pub open spec fn told_entries(
    start: ExecutionView,
    replies: Seq<ExecutionReplyView>,
    at: int,
    directory: Seq<PartView>,
) -> bool {
    &&& 0 <= at < replies.len()
    &&& execution_laws::answered(start, replies.take(at)).request() == ExecutionRequestView::List(
        directory,
    )
    &&& replies[at] is Listed
}

/// Whether all locks of a target, as it was listed, were free up to one.
#[verifier::opaque]
spec fn free_up_to(
    start: ExecutionView,
    replies: Seq<ExecutionReplyView>,
    at: int,
    target: Seq<PartView>,
    count: int,
) -> bool {
    &&& told_entries(start, replies, at, target)
    &&& forall|j: int|
        0 <= j < count ==> told_free(
            start,
            replies,
            at + 1 + j,
            #[trigger] execute::build_locks(target, replies[at]->Listed_0)[j],
        )
}

/// Whether all locks of a target were free.
#[verifier::opaque]
spec fn some_free(
    start: ExecutionView,
    replies: Seq<ExecutionReplyView>,
    target: Seq<PartView>,
) -> bool {
    exists|at: int| #[trigger]
        free_up_to(
            start,
            replies,
            at,
            target,
            execute::build_locks(target, replies[at]->Listed_0).len() as int,
        )
}

/// Whether all locks of the first targets were free.
#[verifier::opaque]
spec fn targets_free(
    start: ExecutionView,
    replies: Seq<ExecutionReplyView>,
    targets: Seq<Seq<PartView>>,
    count: int,
) -> bool {
    forall|k: int| 0 <= k < count ==> some_free(start, replies, #[trigger] targets[k])
}

/// What the phase of an execution says about the locks that were tried.
#[verifier::opaque]
spec fn tried(start: ExecutionView, replies: Seq<ExecutionReplyView>) -> bool {
    let reached = execution_laws::answered(start, replies);
    match reached.phase {
        ExecutionPhaseView::AskingCargo => true,
        ExecutionPhaseView::SeekingConventional { target } => true,
        ExecutionPhaseView::Seeking { nearest } => true,
        ExecutionPhaseView::Resolving { nearest } => true,
        ExecutionPhaseView::ListingProfiles { index } => {
            &&& reached.builds_here()
            &&& index < reached.targets.len()
            &&& targets_free(start, replies, reached.targets, index as int)
        },
        ExecutionPhaseView::Probing { index, candidates, at } => {
            let place = replies.len() - 1 - at;
            &&& reached.builds_here()
            &&& index < reached.targets.len()
            &&& at < candidates.len()
            &&& targets_free(start, replies, reached.targets, index as int)
            &&& free_up_to(start, replies, place, reached.targets[index as int], at as int)
            &&& candidates == execute::build_locks(
                reached.targets[index as int],
                replies[place]->Listed_0,
            )
        },
        ExecutionPhaseView::Finished => reached.completion.skipped || !reached.builds_here()
            || targets_free(start, replies, reached.targets, reached.targets.len() as int),
        _ => !reached.builds_here() || targets_free(
            start,
            replies,
            reached.targets,
            reached.targets.len() as int,
        ),
    }
}

proof fn lemma_free_stays(
    start: ExecutionView,
    replies: Seq<ExecutionReplyView>,
    reply: ExecutionReplyView,
    at: int,
    target: Seq<PartView>,
    count: int,
)
    requires
        free_up_to(start, replies, at, target, count),
    ensures
        free_up_to(start, replies.push(reply), at, target, count),
        0 <= at < replies.len(),
{
    reveal(free_up_to);
    let longer = replies.push(reply);
    assert(longer.take(at) =~= replies.take(at));
    assert forall|j: int| 0 <= j < count implies told_free(
        start,
        longer,
        at + 1 + j,
        #[trigger] execute::build_locks(target, longer[at]->Listed_0)[j],
    ) by {
        assert(told_free(
            start,
            replies,
            at + 1 + j,
            execute::build_locks(target, replies[at]->Listed_0)[j],
        ));
        assert(longer.take(at + 1 + j) =~= replies.take(at + 1 + j));
    }
}

proof fn lemma_one_stays_free(
    start: ExecutionView,
    replies: Seq<ExecutionReplyView>,
    reply: ExecutionReplyView,
    target: Seq<PartView>,
)
    requires
        some_free(start, replies, target),
    ensures
        some_free(start, replies.push(reply), target),
{
    reveal(some_free);
    let at = choose|at: int| #[trigger]
        free_up_to(
            start,
            replies,
            at,
            target,
            execute::build_locks(target, replies[at]->Listed_0).len() as int,
        );
    let count = execute::build_locks(target, replies[at]->Listed_0).len() as int;
    lemma_free_stays(start, replies, reply, at, target, count);
    assert(replies.push(reply)[at] == replies[at]);
}

proof fn lemma_targets_stay_free(
    start: ExecutionView,
    replies: Seq<ExecutionReplyView>,
    reply: ExecutionReplyView,
    targets: Seq<Seq<PartView>>,
    count: int,
)
    requires
        targets_free(start, replies, targets, count),
    ensures
        targets_free(start, replies.push(reply), targets, count),
{
    reveal(targets_free);
    assert forall|k: int| 0 <= k < count implies some_free(
        start,
        replies.push(reply),
        #[trigger] targets[k],
    ) by {
        lemma_one_stays_free(start, replies, reply, targets[k]);
    }
}

/// An execution that goes on to look for builds, or past it.
spec fn onward(reached: ExecutionView) -> bool {
    match reached.phase {
        ExecutionPhaseView::Seeking { nearest } => true,
        ExecutionPhaseView::ListingProfiles { index } => reached.builds_here() && index == 0
            && reached.targets.len() > 0,
        ExecutionPhaseView::Measuring { index, total } => !reached.builds_here(),
        ExecutionPhaseView::Finished => reached.targets.len() == 0,
        _ => false,
    }
}

proof fn lemma_seeking_onward(execution: ExecutionView)
    ensures
        onward(execution.seeking()),
        execution.seeking().action == execution.action,
{
}

proof fn lemma_judged_onward(execution: ExecutionView, canonical: Seq<PartView>)
    ensures
        onward(execution.judged(canonical)),
        execution.judged(canonical).action == execution.action,
{
    match execute::validated(canonical, execution.root, execution.platform) {
        Ok(target) => lemma_seeking_onward(
            ExecutionView {
                targets: execution.targets.push(target),
                ..execution.looked_at()
            },
        ),
        Err(error) => lemma_seeking_onward(execution.looked_at().with_error(error)),
    }
}

proof fn lemma_informed_onward(execution: ExecutionView, layout: CargoLayoutView)
    ensures
        onward(execution.informed(layout)),
        execution.informed(layout).action == execution.action,
{
    lemma_seeking_onward(
        ExecutionView {
            requested: execute::targets_of(execution.action.path, layout),
            completion: execute::CompletionView {
                errors: execution.completion.errors + execute::layout_errors(layout),
                ..execution.completion
            },
            ..execution
        },
    );
}

/// Whether an execution still looks for its targets.
spec fn looks_for_targets(phase: ExecutionPhaseView) -> bool {
    phase is AskingCargo || phase is SeekingConventional || phase is Seeking || phase is Resolving
}

#[verifier::spinoff_prover]
#[verifier::rlimit(80)]
proof fn lemma_still_looking(before: ExecutionView, reply: ExecutionReplyView)
    requires
        looks_for_targets(before.phase),
        before.awaits(reply),
    ensures
        onward(before.after(reply)) || looks_for_targets(before.after(reply).phase),
        before.after(reply).action == before.action,
{
    match (before.phase, reply) {
        (ExecutionPhaseView::AskingCargo, ExecutionReplyView::Metadata(result)) => match result {
            Ok(target) => {},
            Err(error) => lemma_informed_onward(before, CargoLayoutView::Unknown(error)),
        },
        (
            ExecutionPhaseView::SeekingConventional { target },
            ExecutionReplyView::Found(found),
        ) => lemma_informed_onward(
            before,
            CargoLayoutView::Known { target, conventional_exists: found },
        ),
        (ExecutionPhaseView::Seeking { nearest }, _) => lemma_judged_onward(before, nearest.path),
        (
            ExecutionPhaseView::Resolving { nearest },
            ExecutionReplyView::Canonical(result),
        ) => match result {
            Ok(canonical) => lemma_judged_onward(before, nearest.restored(canonical)),
            Err(error) => lemma_seeking_onward(
                before.looked_at().with_error(
                    "cannot canonicalize "@ + before.shown(nearest.current()) + ": "@ + error,
                ),
            ),
        },
        _ => {},
    }
}

#[verifier::spinoff_prover]
#[verifier::rlimit(80)]
proof fn lemma_onward_tried(start: ExecutionView, replies: Seq<ExecutionReplyView>)
    requires
        onward(execution_laws::answered(start, replies)) || looks_for_targets(
            execution_laws::answered(start, replies).phase,
        ),
    ensures
        tried(start, replies),
{
    reveal(tried);
    let reached = execution_laws::answered(start, replies);
    assert(targets_free(start, replies, reached.targets, 0)) by {
        reveal(targets_free);
    }
}

/// One more target is free once the last of its locks is.
proof fn lemma_target_free(
    start: ExecutionView,
    replies: Seq<ExecutionReplyView>,
    targets: Seq<Seq<PartView>>,
    index: int,
    at: int,
)
    requires
        0 <= index < targets.len(),
        targets_free(start, replies, targets, index),
        free_up_to(
            start,
            replies,
            at,
            targets[index],
            execute::build_locks(targets[index], replies[at]->Listed_0).len() as int,
        ),
    ensures
        targets_free(start, replies, targets, index + 1),
{
    reveal(targets_free);
    reveal(some_free);
    assert(some_free(start, replies, targets[index]));
}

/// No lock is tried before the first.
proof fn lemma_none_tried(
    start: ExecutionView,
    earlier: Seq<ExecutionReplyView>,
    reply: ExecutionReplyView,
    target: Seq<PartView>,
)
    requires
        execution_laws::answered(start, earlier).request() == ExecutionRequestView::List(target),
        reply is Listed,
    ensures
        free_up_to(start, earlier.push(reply), earlier.len() as int, target, 0),
{
    reveal(free_up_to);
    assert(earlier.push(reply).take(earlier.len() as int) =~= earlier);
}

/// One more lock is free once it is found to be.
proof fn lemma_one_more_free(
    start: ExecutionView,
    earlier: Seq<ExecutionReplyView>,
    place: int,
    target: Seq<PartView>,
    at: int,
)
    requires
        at >= 0,
        place + 1 + at == earlier.len(),
        free_up_to(start, earlier, place, target, at),
        execution_laws::answered(start, earlier).request() == ExecutionRequestView::IsLocked(
            execute::build_locks(target, earlier[place]->Listed_0)[at],
        ),
    ensures
        free_up_to(
            start,
            earlier.push(ExecutionReplyView::Found(false)),
            place,
            target,
            at + 1,
        ),
{
    let reply = ExecutionReplyView::Found(false);
    let replies = earlier.push(reply);
    lemma_free_stays(start, earlier, reply, place, target, at);
    reveal(free_up_to);
    assert(replies[place] == earlier[place]);
    assert(replies.take(earlier.len() as int) =~= earlier);
    let locks = execute::build_locks(target, replies[place]->Listed_0);
    assert(told_free(start, replies, place + 1 + at, locks[at]));
    assert forall|j: int| 0 <= j < at + 1 implies told_free(
        start,
        replies,
        place + 1 + j,
        #[trigger] locks[j],
    ) by {
        if j == at {
            assert(told_free(start, replies, place + 1 + at, locks[at]));
        }
    }
}

#[verifier::spinoff_prover]
#[verifier::rlimit(80)]
proof fn lemma_listed(
    start: ExecutionView,
    earlier: Seq<ExecutionReplyView>,
    listing: Seq<(Seq<u8>, bool)>,
)
    requires
        tried(start, earlier),
        execution_laws::answered(start, earlier).phase is ListingProfiles,
    ensures
        tried(start, earlier.push(ExecutionReplyView::Listed(listing))),
        execution_laws::answered(
            start,
            earlier.push(ExecutionReplyView::Listed(listing)),
        ).action == execution_laws::answered(start, earlier).action,
{
    reveal(tried);
    let reply = ExecutionReplyView::Listed(listing);
    let replies = earlier.push(reply);
    let before = execution_laws::answered(start, earlier);
    let index = before.phase->ListingProfiles_index;
    let target = before.targets[index as int];
    assert(replies.drop_last() =~= earlier);
    assert(execution_laws::answered(start, replies) == before.after(reply));
    lemma_targets_stay_free(start, earlier, reply, before.targets, index as int);
    assert(execute::build_locks(target, listing).len() > 0) by {
        law_builds_are_looked_for_everywhere(target, listing);
    }
    lemma_none_tried(start, earlier, reply, target);
    assert(replies[earlier.len() as int] == reply);
}

#[verifier::spinoff_prover]
#[verifier::rlimit(80)]
proof fn lemma_found_free(start: ExecutionView, earlier: Seq<ExecutionReplyView>)
    requires
        tried(start, earlier),
        execution_laws::answered(start, earlier).phase is Probing,
    ensures
        tried(start, earlier.push(ExecutionReplyView::Found(false))),
        execution_laws::answered(
            start,
            earlier.push(ExecutionReplyView::Found(false)),
        ).action == execution_laws::answered(start, earlier).action,
{
    reveal(tried);
    let reply = ExecutionReplyView::Found(false);
    let replies = earlier.push(reply);
    let before = execution_laws::answered(start, earlier);
    let index = before.phase->Probing_index;
    let candidates = before.phase->Probing_candidates;
    let at = before.phase->Probing_at;
    let target = before.targets[index as int];
    let place = earlier.len() - 1 - at;
    assert(replies.drop_last() =~= earlier);
    let after = execution_laws::answered(start, replies);
    assert(after == before.after(reply));
    lemma_targets_stay_free(start, earlier, reply, before.targets, index as int);
    lemma_free_stays(start, earlier, reply, place, target, at as int);
    lemma_one_more_free(start, earlier, place, target, at as int);
    assert(replies[place] == earlier[place]);
    if at + 1 >= candidates.len() {
        lemma_target_free(start, replies, before.targets, index as int, place);
    }
}

/// Whether an execution has all its locks behind it.
spec fn late(phase: ExecutionPhaseView) -> bool {
    past_the_locks(phase) || phase is Finished
}

#[verifier::spinoff_prover]
#[verifier::rlimit(80)]
proof fn lemma_later(before: ExecutionView, reply: ExecutionReplyView)
    requires
        past_the_locks(before.phase),
        before.awaits(reply),
    ensures
        late(before.after(reply).phase),
        before.after(reply).targets == before.targets,
        before.after(reply).action == before.action,
{
}

#[verifier::spinoff_prover]
#[verifier::rlimit(80)]
proof fn lemma_found_held(start: ExecutionView, earlier: Seq<ExecutionReplyView>)
    requires
        execution_laws::answered(start, earlier).phase is Probing,
    ensures
        tried(start, earlier.push(ExecutionReplyView::Found(true))),
        execution_laws::answered(
            start,
            earlier.push(ExecutionReplyView::Found(true)),
        ).action == execution_laws::answered(start, earlier).action,
{
    reveal(tried);
    assert(earlier.push(ExecutionReplyView::Found(true)).drop_last() =~= earlier);
}

#[verifier::spinoff_prover]
#[verifier::rlimit(80)]
proof fn lemma_tried_later(
    start: ExecutionView,
    earlier: Seq<ExecutionReplyView>,
    reply: ExecutionReplyView,
)
    requires
        tried(start, earlier),
        past_the_locks(execution_laws::answered(start, earlier).phase),
        execution_laws::answered(start, earlier).awaits(reply),
    ensures
        tried(start, earlier.push(reply)),
        execution_laws::answered(start, earlier.push(reply)).action == execution_laws::answered(
            start,
            earlier,
        ).action,
{
    reveal(tried);
    let before = execution_laws::answered(start, earlier);
    assert(earlier.push(reply).drop_last() =~= earlier);
    lemma_later(before, reply);
    if before.builds_here() {
        lemma_targets_stay_free(
            start,
            earlier,
            reply,
            before.targets,
            before.targets.len() as int,
        );
    }
}

#[verifier::spinoff_prover]
#[verifier::rlimit(80)]
proof fn lemma_tried_looking(
    start: ExecutionView,
    earlier: Seq<ExecutionReplyView>,
    reply: ExecutionReplyView,
)
    requires
        looks_for_targets(execution_laws::answered(start, earlier).phase),
        execution_laws::answered(start, earlier).awaits(reply),
    ensures
        tried(start, earlier.push(reply)),
        execution_laws::answered(start, earlier.push(reply)).action == execution_laws::answered(
            start,
            earlier,
        ).action,
{
    assert(earlier.push(reply).drop_last() =~= earlier);
    lemma_still_looking(execution_laws::answered(start, earlier), reply);
    lemma_onward_tried(start, earlier.push(reply));
}

#[verifier::spinoff_prover]
#[verifier::rlimit(80)]
proof fn lemma_tried_next(
    start: ExecutionView,
    earlier: Seq<ExecutionReplyView>,
    reply: ExecutionReplyView,
)
    requires
        tried(start, earlier),
        execution_laws::answered(start, earlier).awaits(reply),
    ensures
        tried(start, earlier.push(reply)),
        execution_laws::answered(start, earlier.push(reply)).action == execution_laws::answered(
            start,
            earlier,
        ).action,
{
    let before = execution_laws::answered(start, earlier);
    if looks_for_targets(before.phase) {
        lemma_tried_looking(start, earlier, reply);
    } else if before.phase is ListingProfiles {
        lemma_listed(start, earlier, reply->Listed_0);
    } else if before.phase is Probing {
        if reply == ExecutionReplyView::Found(false) {
            lemma_found_free(start, earlier);
        } else {
            lemma_found_held(start, earlier);
        }
    } else {
        lemma_tried_later(start, earlier, reply);
    }
}

#[verifier::spinoff_prover]
#[verifier::rlimit(80)]
proof fn lemma_tried_first(action: ActionView, root: Seq<PartView>, platform: Platform)
    ensures
        tried(execute::execution_begun(action, root, platform), Seq::empty()),
        execute::execution_begun(action, root, platform).action == action,
{
    lemma_onward_tried(execute::execution_begun(action, root, platform), Seq::empty());
}

#[verifier::spinoff_prover]
#[verifier::rlimit(80)]
proof fn lemma_tried(
    action: ActionView,
    root: Seq<PartView>,
    platform: Platform,
    replies: Seq<ExecutionReplyView>,
)
    requires
        execution_laws::apt(execute::execution_begun(action, root, platform), replies),
    ensures
        tried(execute::execution_begun(action, root, platform), replies),
        execution_laws::answered(
            execute::execution_begun(action, root, platform),
            replies,
        ).action == action,
    decreases replies.len(),
{
    let start = execute::execution_begun(action, root, platform);
    if replies.len() == 0 {
        assert(replies =~= Seq::empty());
        lemma_tried_first(action, root, platform);
    } else {
        let earlier = replies.drop_last();
        lemma_tried(action, root, platform, earlier);
        lemma_tried_next(start, earlier, replies.last());
        assert(replies =~= earlier.push(replies.last()));
    }
}

/// Whether an execution has left everything behind that can make it leave its
/// targets alone.
pub open spec fn past_the_locks(phase: ExecutionPhaseView) -> bool {
    match phase {
        ExecutionPhaseView::Measuring { index, total } => true,
        ExecutionPhaseView::Restarting => true,
        ExecutionPhaseView::Contending { index } => true,
        ExecutionPhaseView::Acquiring { index } => true,
        ExecutionPhaseView::Removing { index } => true,
        ExecutionPhaseView::Releasing { index, cancelled } => true,
        _ => false,
    }
}

/// Nothing is measured or deleted under a running build. Before an action on a
/// package or a debug directory comes to measuring, each of its targets has been
/// listed, and the three lock files of the target and of every directory in it
/// have been tried and found free.
#[verifier::spinoff_prover]
#[verifier::rlimit(80)]
pub proof fn law_nothing_is_deleted_under_a_build(
    action: ActionView,
    root: Seq<PartView>,
    platform: Platform,
    replies: Seq<ExecutionReplyView>,
    k: int,
)
    requires
        execution_laws::apt(execute::execution_begun(action, root, platform), replies),
        action.kind == ActionKind::Cargo || action.kind == ActionKind::Debug,
        past_the_locks(
            execution_laws::answered(
                execute::execution_begun(action, root, platform),
                replies,
            ).phase,
        ),
        0 <= k < execution_laws::answered(
            execute::execution_begun(action, root, platform),
            replies,
        ).targets.len(),
    ensures
        ({
            let start = execute::execution_begun(action, root, platform);
            let target = execution_laws::answered(start, replies).targets[k];
            exists|at: int| #[trigger]
                told_entries(start, replies, at, target) && locks_were_free(
                    start,
                    replies,
                    target,
                    replies[at]->Listed_0,
                )
        }),
{
    let start = execute::execution_begun(action, root, platform);
    let reached = execution_laws::answered(start, replies);
    let target = reached.targets[k];
    lemma_tried(action, root, platform, replies);
    reveal(tried);
    assert(some_free(start, replies, target)) by {
        reveal(targets_free);
    }
    reveal(some_free);
    let at = choose|at: int| #[trigger]
        free_up_to(
            start,
            replies,
            at,
            target,
            execute::build_locks(target, replies[at]->Listed_0).len() as int,
        );
    lemma_all_were_free(start, replies, at, target);
}

proof fn lemma_all_were_free(
    start: ExecutionView,
    replies: Seq<ExecutionReplyView>,
    at: int,
    target: Seq<PartView>,
)
    requires
        free_up_to(
            start,
            replies,
            at,
            target,
            execute::build_locks(target, replies[at]->Listed_0).len() as int,
        ),
    ensures
        told_entries(start, replies, at, target),
        locks_were_free(start, replies, target, replies[at]->Listed_0),
{
    reveal(free_up_to);
    let listing = replies[at]->Listed_0;
    let locks = execute::build_locks(target, listing);
    law_builds_are_looked_for_everywhere(target, listing);
    lemma_subdirectories(target, listing);
    assert forall|number: int| 0 <= number < 3 implies was_free(
        start,
        replies,
        #[trigger] lock_in(target, number),
    ) by {
        assert(locks[number] == lock_in(target, number));
        assert(told_free(start, replies, at + 1 + number, locks[number]));
    }
    let around = if sits_in_target(target) {
        1int
    } else {
        0int
    };
    assert forall|i: int, number: int|
        0 <= i < listing.len() && (#[trigger] listing[i]).1 && 0 <= number < 3 implies was_free(
        start,
        replies,
        #[trigger] lock_in(entry_of(target, listing[i].0), number),
    ) by {
        let j = 3 * (1 + around + directories_in(listing.take(i))) + number;
        assert(locks[j] == lock_in(entry_of(target, listing[i].0), number));
        assert(told_free(start, replies, at + 1 + j, locks[j]));
    }
}

/// Whether a lock was tried and found free.
pub open spec fn was_free(
    start: ExecutionView,
    replies: Seq<ExecutionReplyView>,
    lock: Seq<PartView>,
) -> bool {
    exists|at: int| told_free(start, replies, at, lock)
}

/// Whether the three lock files of a target, and of every directory in it, were
/// tried and found free.
pub open spec fn locks_were_free(
    start: ExecutionView,
    replies: Seq<ExecutionReplyView>,
    target: Seq<PartView>,
    listing: Seq<(Seq<u8>, bool)>,
) -> bool {
    &&& forall|number: int|
        0 <= number < 3 ==> was_free(start, replies, #[trigger] lock_in(target, number))
    &&& forall|i: int, number: int|
        0 <= i < listing.len() && (#[trigger] listing[i]).1 && 0 <= number < 3 ==> was_free(
            start,
            replies,
            #[trigger] lock_in(entry_of(target, listing[i].0), number),
        )
}

/// A lock that is held ends the action, with a line that names the lock and
/// counts for no failure; one that is free leads on to the next.
#[verifier::spinoff_prover]
#[verifier::rlimit(80)]
pub proof fn law_a_held_lock_ends_the_action(execution: ExecutionView)
    requires
        execution.phase is Probing,
        execution.phase->Probing_at < execution.phase->Probing_candidates.len(),
    ensures
        ({
            let at = execution.phase->Probing_at;
            let candidates = execution.phase->Probing_candidates;
            let lock = candidates[at as int];
            let held = execution.after(ExecutionReplyView::Found(true));
            let free = execution.after(ExecutionReplyView::Found(false));
            &&& execution.request() == ExecutionRequestView::IsLocked(lock)
            &&& held.request() == ExecutionRequestView::Finished
            &&& held.completion.skipped
            &&& held.completion.errors == execution.completion.errors.push(
                "build in progress ("@ + crate::format::display_text(lock, execution.platform)
                    + " is locked); left alone"@,
            )
            &&& held.completion.error_count == execution.completion.errors.len()
            &&& held.completion.reclaimed_bytes == execution.completion.reclaimed_bytes
            &&& held.completion.files_removed == execution.completion.files_removed
            &&& held.completion.path == execution.completion.path
            &&& at + 1 < candidates.len() ==> free.request() == ExecutionRequestView::IsLocked(
                candidates[at as int + 1],
            )
            &&& free.completion.skipped == execution.completion.skipped
            &&& free.completion.errors == execution.completion.errors
        }),
{
}

/// Builds matter to packages and debug directories, and to nothing else: once
/// its targets are known, any other action goes on to measuring at once.
#[verifier::spinoff_prover]
#[verifier::rlimit(80)]
pub proof fn law_builds_matter_to_packages_only(execution: ExecutionView)
    requires
        execution.requested.len() == 0,
        execution.targets.len() > 0,
    ensures
        ({
            let after = execution.seeking();
            let kind = execution.action.kind;
            &&& (kind == ActionKind::Cargo || kind == ActionKind::Debug) ==> after.request()
                == ExecutionRequestView::List(execution.targets[0])
            &&& (kind == ActionKind::NodeModules || kind == ActionKind::PythonVenv || kind
                == ActionKind::Scratch) ==> after.request() == ExecutionRequestView::Measure(
                execution.targets[0],
            )
            &&& after.completion.path == execution.targets[0]
        }),
{
    lemma_first_stays(execution.targets);
}

/// Once every requested directory has been looked at, the targets are those that
/// were accepted, with no two that follow one another alike.
pub proof fn law_targets_are_named_once(execution: ExecutionView)
    requires
        execution.requested.len() == 0,
    ensures
        ({
            let targets = execution.seeking().targets;
            &&& forall|i: int|
                0 <= i < targets.len() ==> execution.targets.contains(#[trigger] targets[i])
            &&& forall|target: Seq<PartView>| #[trigger]
                execution_laws::holds_alike(targets, target) <==> execution_laws::holds_alike(
                    execution.targets,
                    target,
                )
            &&& forall|i: int|
                0 <= i < targets.len() - 1 ==> !path::alike(#[trigger] targets[i], targets[i + 1])
        }),
{
    execution_laws::law_repetitions_collapse(execution.targets);
}

proof fn lemma_first_stays(list: Seq<Seq<PartView>>)
    requires
        list.len() > 0,
    ensures
        execute::deduplicated(list).len() > 0,
        execute::deduplicated(list)[0] == list[0],
    decreases list.len(),
{
    if list.len() > 1 {
        lemma_first_stays(list.drop_last());
    }
}

/// Without a target there is nothing to do: the action is over, and every line
/// it has counts as a failure.
pub proof fn law_nothing_to_do_is_over(execution: ExecutionView)
    requires
        execution.requested.len() == 0,
        execution.targets.len() == 0,
    ensures
        ({
            let after = execution.seeking();
            &&& after.request() == ExecutionRequestView::Finished
            &&& after.completion.error_count == execution.completion.errors.len()
            &&& after.completion.errors == execution.completion.errors
            &&& after.completion.path == execution.completion.path
            &&& after.completion.reclaimed_bytes == execution.completion.reclaimed_bytes
            &&& after.completion.skipped == execution.completion.skipped
        }),
{
}

/// An action on anything but a package is about its own path. One on a package
/// asks Cargo for the target directory, and then whether there is one named
/// `target` in the project.
#[verifier::spinoff_prover]
#[verifier::rlimit(80)]
pub proof fn law_actions_ask_for_their_targets(
    action: ActionView,
    root: Seq<PartView>,
    platform: Platform,
)
    ensures
        ({
            let start = execute::execution_begun(action, root, platform);
            &&& action.kind == ActionKind::Cargo ==> start.request()
                == ExecutionRequestView::CargoMetadata(action.path)
            &&& action.kind != ActionKind::Cargo ==> start.requested == seq![action.path]
                && start.request() == ExecutionRequestView::Exists(action.path)
            &&& start.targets.len() == 0
            &&& start.completion.errors.len() == 0
            &&& start.completion.error_count == 0
            &&& start.completion.reclaimed_bytes == 0
            &&& start.completion.files_removed == 0
            &&& !start.completion.skipped
            &&& start.completion.path == action.path
            &&& start.action == action
            &&& start.root == root
            &&& start.platform == platform
        }),
{
    let start = execute::execution_begun(action, root, platform);
    assert(action.kind != ActionKind::Cargo ==> start.completion.errors =~= Seq::empty());
}

/// What Cargo says of a project decides what is looked at: the directory it
/// names and, where there is one, the one named `target` in the project; the
/// latter alone where it says nothing, and then its failure is noted.
#[verifier::spinoff_prover]
#[verifier::rlimit(80)]
pub proof fn law_cargo_names_the_targets(
    execution: ExecutionView,
    target: Seq<PartView>,
    found: bool,
    error: Seq<char>,
)
    requires
        execution.phase is AskingCargo,
    ensures
        ({
            let beside = entry_of(
                execution.action.path,
                vstd::utf8::encode_utf8("target"@),
            );
            let named = execution.after(ExecutionReplyView::Metadata(Ok(target)));
            let known = named.after(ExecutionReplyView::Found(found));
            let unknown = execution.after(ExecutionReplyView::Metadata(Err(error)));
            &&& named.request() == ExecutionRequestView::IsDirectory(beside)
            &&& known.request() == ExecutionRequestView::Exists(target)
            &&& found ==> known.requested == seq![target, beside]
            &&& !found ==> known.requested == seq![target]
            &&& known.completion.errors == execution.completion.errors
            &&& unknown.requested == seq![beside]
            &&& unknown.request() == ExecutionRequestView::Exists(beside)
            &&& unknown.completion.errors == execution.completion.errors.push(error)
            &&& unknown.completion.error_count == execution.completion.error_count
        }),
{
    let beside = entry_of(execution.action.path, vstd::utf8::encode_utf8("target"@));
    let named = execution.after(ExecutionReplyView::Metadata(Ok(target)));
    let known = named.after(ExecutionReplyView::Found(found));
    let unknown = execution.after(ExecutionReplyView::Metadata(Err(error)));
    assert(known.completion.errors =~= execution.completion.errors);
    assert(unknown.completion.errors =~= execution.completion.errors.push(error));
}

/// A requested directory that does not exist is looked for by the directory it
/// is in, as long as it has a name; the first that exists is made canonical, and
/// the names that were cut off are put back behind it. Where none exists the
/// path is taken as it is.
#[verifier::spinoff_prover]
#[verifier::rlimit(80)]
pub proof fn law_requested_directories_are_resolved(
    execution: ExecutionView,
    canonical: Seq<PartView>,
    error: Seq<char>,
)
    requires
        execution.phase is Seeking || execution.phase is Resolving,
        execution.requested.len() > 0,
    ensures
        execution.phase matches ExecutionPhaseView::Seeking { nearest } ==> {
            let there = execution.after(ExecutionReplyView::Found(true));
            let gone = execution.after(ExecutionReplyView::Found(false));
            let shorter = NearestView { path: nearest.path, kept: (nearest.kept - 1) as nat };
            &&& execution.request() == ExecutionRequestView::Exists(nearest.current())
            &&& there.request() == ExecutionRequestView::Canonicalize(nearest.current())
            &&& nearest.kept > 0 && nearest.path[nearest.kept - 1].component is Name
                ==> gone.request() == ExecutionRequestView::Exists(shorter.current())
            &&& nearest.kept == 0 || !(nearest.path[nearest.kept - 1].component is Name)
                ==> judges(execution, gone, nearest.path)
        },
        execution.phase matches ExecutionPhaseView::Resolving { nearest } ==> {
            let done = execution.after(ExecutionReplyView::Canonical(Ok(canonical)));
            let failed = execution.after(ExecutionReplyView::Canonical(Err(error)));
            &&& execution.request() == ExecutionRequestView::Canonicalize(nearest.current())
            &&& judges(
                execution,
                done,
                path::extended(canonical, nearest.path.skip(nearest.kept as int)),
            )
            &&& failed.completion.errors == execution.completion.errors.push(
                "cannot canonicalize "@ + crate::format::display_text(
                    nearest.current(),
                    execution.platform,
                ) + ": "@ + error,
            )
            &&& failed.targets == execute::deduplicated(execution.targets) || failed.targets
                == execution.targets
        },
{
    match execution.phase {
        ExecutionPhaseView::Seeking { nearest } => {
            lemma_judges(execution, nearest.path);
        },
        ExecutionPhaseView::Resolving { nearest } => {
            lemma_judges(execution, nearest.restored(canonical));
        },
        _ => {},
    }
}

/// Whether a directory was accepted because it lies strictly below the root, or
/// refused with a line because it does not.
pub open spec fn judges(
    before: ExecutionView,
    after: ExecutionView,
    canonical: Seq<PartView>,
) -> bool {
    let accepted = finding_laws::strictly_below(canonical, before.root);
    let refusal = "refusing target outside cleanup root: "@ + crate::format::display_text(
        canonical,
        before.platform,
    );
    &&& accepted ==> after.completion.errors == before.completion.errors
    &&& accepted ==> {
        ||| after.targets == before.targets.push(canonical)
        ||| after.targets == execute::deduplicated(before.targets.push(canonical))
    }
    &&& !accepted ==> after.completion.errors == before.completion.errors.push(refusal)
    &&& !accepted ==> {
        ||| after.targets == before.targets
        ||| after.targets == execute::deduplicated(before.targets)
    }
    &&& after.requested == before.requested.skip(1)
}

proof fn lemma_judges(execution: ExecutionView, canonical: Seq<PartView>)
    requires
        execution.requested.len() > 0,
    ensures
        judges(execution, execution.judged(canonical), canonical),
{
    finding_laws::lemma_strictly_below(canonical, execution.root);
    assert(execution.requested.remove(0) =~= execution.requested.skip(1));
}

/// A directory may be deleted exactly if it lies strictly below the root.
pub proof fn law_only_what_is_below_the_root_may_go(
    canonical: Seq<PartView>,
    root: Seq<PartView>,
    platform: Platform,
)
    ensures
        execute::validated(canonical, root, platform) == (if finding_laws::strictly_below(
            canonical,
            root,
        ) {
            Ok::<Seq<PartView>, Seq<char>>(canonical)
        } else {
            Err::<Seq<PartView>, Seq<char>>(
                "refusing target outside cleanup root: "@ + crate::format::display_text(
                    canonical,
                    platform,
                ),
            )
        }),
{
    finding_laws::lemma_strictly_below(canonical, root);
}

/// The sizes that were measured.
pub open spec fn measured_among(replies: Seq<ExecutionReplyView>) -> nat
    decreases replies.len(),
{
    if replies.len() == 0 {
        0
    } else {
        measured_among(replies.drop_last()) + match replies.last() {
            ExecutionReplyView::Measured(bytes) => bytes as nat,
            _ => 0,
        }
    }
}

/// The counters of an action after a number of answers.
pub open spec fn progress_after(
    start: ExecutionView,
    replies: Seq<ExecutionReplyView>,
    progress: ProgressView,
) -> ProgressView
    decreases replies.len(),
{
    if replies.len() == 0 {
        progress
    } else {
        execution_laws::answered(start, replies.drop_last()).progressed(
            replies.last(),
            progress_after(start, replies.drop_last(), progress),
        )
    }
}

/// How many targets were removed.
pub open spec fn removed_among(replies: Seq<ExecutionReplyView>) -> nat
    decreases replies.len(),
{
    if replies.len() == 0 {
        0
    } else {
        removed_among(replies.drop_last()) + if replies.last() is Removed {
            1nat
        } else {
            0nat
        }
    }
}

/// What the phase of an execution says about what was measured and removed.
#[verifier::opaque]
spec fn tallied(
    reached: ExecutionView,
    first: Option<u64>,
    total: Option<u64>,
    sizes: nat,
    count: nat,
    cancelled: bool,
) -> bool {
    let none = total == first && count == 0 && !cancelled;
    let known = sizes <= u64::MAX ==> total == Some(sizes as u64);
    &&& reached.completion.skipped ==> reached.phase is Finished && count == 0
    &&& match reached.phase {
        ExecutionPhaseView::Measuring { index, total: sum } => {
            none && sum == sizes && index < reached.targets.len()
        },
        ExecutionPhaseView::Restarting => known && count == 0 && reached.targets.len() > 0
            && !cancelled,
        ExecutionPhaseView::Contending { index } => known && count == index && index
            < reached.targets.len() && !cancelled,
        ExecutionPhaseView::Acquiring { index } => known && count == index && index
            < reached.targets.len() && !cancelled,
        ExecutionPhaseView::Removing { index } => known && count == index && index
            < reached.targets.len() && !cancelled,
        ExecutionPhaseView::Releasing { index, cancelled: gave_up } => known && count == index + 1
            && index < reached.targets.len() && gave_up == cancelled,
        ExecutionPhaseView::Finished => {
            ||| reached.completion.skipped && none
            ||| reached.targets.len() == 0 && none
            ||| known && 0 < count <= reached.targets.len() && (cancelled || count
                == reached.targets.len())
        },
        ExecutionPhaseView::ListingProfiles { index } => none && sizes == 0 && reached.targets.len()
            > 0,
        ExecutionPhaseView::Probing { index, candidates, at } => none && sizes == 0
            && reached.targets.len() > 0,
        _ => none && sizes == 0,
    }
}

#[verifier::spinoff_prover]
#[verifier::rlimit(80)]
proof fn lemma_looking_begins(before: ExecutionView, reply: ExecutionReplyView)
    requires
        looks_for_targets(before.phase),
        before.awaits(reply),
    ensures
        sizes_begin(before.after(reply)),
        before.after(reply).completion.skipped == before.completion.skipped,
{
    match (before.phase, reply) {
        (ExecutionPhaseView::AskingCargo, ExecutionReplyView::Metadata(result)) => match result {
            Ok(target) => {},
            Err(error) => lemma_informed_sizes(before, CargoLayoutView::Unknown(error)),
        },
        (
            ExecutionPhaseView::SeekingConventional { target },
            ExecutionReplyView::Found(found),
        ) => lemma_informed_sizes(
            before,
            CargoLayoutView::Known { target, conventional_exists: found },
        ),
        (ExecutionPhaseView::Seeking { nearest }, _) => lemma_judged_sizes(before, nearest.path),
        (
            ExecutionPhaseView::Resolving { nearest },
            ExecutionReplyView::Canonical(result),
        ) => match result {
            Ok(canonical) => lemma_judged_sizes(before, nearest.restored(canonical)),
            Err(error) => lemma_seeking_sizes(
                before.looked_at().with_error(
                    "cannot canonicalize "@ + before.shown(nearest.current()) + ": "@ + error,
                ),
            ),
        },
        _ => {},
    }
}

/// An execution that has just found its targets, or has not yet.
spec fn sizes_begin(after: ExecutionView) -> bool {
    match after.phase {
        ExecutionPhaseView::Measuring { index, total } => index == 0 && total == 0
            && after.targets.len() > 0,
        ExecutionPhaseView::ListingProfiles { index } => after.targets.len() > 0,
        ExecutionPhaseView::Finished => after.targets.len() == 0,
        _ => looks_for_targets(after.phase),
    }
}

proof fn lemma_seeking_sizes(execution: ExecutionView)
    ensures
        sizes_begin(execution.seeking()),
        execution.seeking().completion.skipped == execution.completion.skipped,
{
}

proof fn lemma_judged_sizes(execution: ExecutionView, canonical: Seq<PartView>)
    ensures
        sizes_begin(execution.judged(canonical)),
        execution.judged(canonical).completion.skipped == execution.completion.skipped,
{
    match execute::validated(canonical, execution.root, execution.platform) {
        Ok(target) => lemma_seeking_sizes(
            ExecutionView {
                targets: execution.targets.push(target),
                ..execution.looked_at()
            },
        ),
        Err(error) => lemma_seeking_sizes(execution.looked_at().with_error(error)),
    }
}

proof fn lemma_informed_sizes(execution: ExecutionView, layout: CargoLayoutView)
    ensures
        sizes_begin(execution.informed(layout)),
        execution.informed(layout).completion.skipped == execution.completion.skipped,
{
    lemma_seeking_sizes(
        ExecutionView {
            requested: execute::targets_of(execution.action.path, layout),
            completion: execute::CompletionView {
                errors: execution.completion.errors + execute::layout_errors(layout),
                ..execution.completion
            },
            ..execution
        },
    );
}

/// What an answer adds to the sizes.
spec fn size_in(reply: ExecutionReplyView) -> nat {
    match reply {
        ExecutionReplyView::Measured(bytes) => bytes as nat,
        _ => 0,
    }
}

/// What an answer adds to the removals.
spec fn removal_in(reply: ExecutionReplyView) -> nat {
    if reply is Removed {
        1
    } else {
        0
    }
}

#[verifier::spinoff_prover]
#[verifier::rlimit(80)]
proof fn lemma_tallied(
    before: ExecutionView,
    reply: ExecutionReplyView,
    first: Option<u64>,
    progress: ProgressView,
    sizes: nat,
    count: nat,
    cancelled: bool,
)
    requires
        before.awaits(reply),
        tallied(before, first, progress.total, sizes, count, cancelled),
    ensures
        tallied(
            before.after(reply),
            first,
            before.progressed(reply, progress).total,
            sizes + size_in(reply),
            count + removal_in(reply),
            cancelled || (reply matches ExecutionReplyView::Removed(outcome) && outcome.cancelled),
        ),
{
    reveal(tallied);
    if looks_for_targets(before.phase) {
        lemma_looking_begins(before, reply);
    }
}

#[verifier::spinoff_prover]
#[verifier::rlimit(80)]
proof fn lemma_nothing_tallied(
    action: ActionView,
    root: Seq<PartView>,
    platform: Platform,
    total: Option<u64>,
)
    ensures
        tallied(execute::execution_begun(action, root, platform), total, total, 0, 0, false),
{
    reveal(tallied);
}

#[verifier::spinoff_prover]
#[verifier::rlimit(80)]
proof fn lemma_keeps_count(
    action: ActionView,
    root: Seq<PartView>,
    platform: Platform,
    replies: Seq<ExecutionReplyView>,
    progress: ProgressView,
)
    requires
        execution_laws::apt(execute::execution_begun(action, root, platform), replies),
    ensures
        ({
            let start = execute::execution_begun(action, root, platform);
            tallied(
                execution_laws::answered(start, replies),
                progress.total,
                progress_after(start, replies, progress).total,
                measured_among(replies),
                removed_among(replies),
                execution_laws::any_cancelled(replies),
            )
        }),
    decreases replies.len(),
{
    let start = execute::execution_begun(action, root, platform);
    if replies.len() > 0 {
        let earlier = replies.drop_last();
        lemma_keeps_count(action, root, platform, earlier, progress);
        execution_laws::lemma_any_cancelled(replies);
        lemma_tallied(
            execution_laws::answered(start, earlier),
            replies.last(),
            progress.total,
            progress_after(start, earlier, progress),
            measured_among(earlier),
            removed_among(earlier),
            execution_laws::any_cancelled(earlier),
        );
    } else {
        lemma_nothing_tallied(action, root, platform, progress.total);
        assert(!execution_laws::any_cancelled(replies));
    }
}

/// What the tally says of the total and of the removals.
#[verifier::spinoff_prover]
#[verifier::rlimit(80)]
proof fn lemma_told_by_tally(
    reached: ExecutionView,
    first: Option<u64>,
    total: Option<u64>,
    sizes: nat,
    count: nat,
    cancelled: bool,
)
    requires
        tallied(reached, first, total, sizes, count, cancelled),
    ensures
        sizes <= u64::MAX && past_the_locks(reached.phase) && !(reached.phase is Measuring) ==> total
            == Some(sizes as u64),
        reached.phase is Measuring || looks_for_them(reached.phase) ==> total == first,
        reached.phase is Finished && !reached.completion.skipped && !cancelled ==> count
            == reached.targets.len(),
        reached.completion.skipped ==> count == 0,
        count <= reached.targets.len(),
        reached.request() matches ExecutionRequestView::Remove(target) ==> target
            == reached.targets[count as int] && !cancelled,
{
    reveal(tallied);
}

/// The total of an action is the sum of the sizes of its targets, known once all
/// have been measured and not before.
#[verifier::spinoff_prover]
#[verifier::rlimit(80)]
pub proof fn law_totals_are_what_was_measured(
    action: ActionView,
    root: Seq<PartView>,
    platform: Platform,
    replies: Seq<ExecutionReplyView>,
    progress: ProgressView,
)
    requires
        execution_laws::apt(execute::execution_begun(action, root, platform), replies),
        measured_among(replies) <= u64::MAX,
    ensures
        ({
            let start = execute::execution_begun(action, root, platform);
            let reached = execution_laws::answered(start, replies);
            let total = progress_after(start, replies, progress).total;
            &&& past_the_locks(reached.phase) && !(reached.phase is Measuring) ==> total == Some(
                measured_among(replies) as u64,
            )
            &&& reached.phase is Measuring || looks_for_them(reached.phase) ==> total
                == progress.total
        }),
{
    lemma_keeps_count(action, root, platform, replies, progress);
    let start = execute::execution_begun(action, root, platform);
    lemma_told_by_tally(
        execution_laws::answered(start, replies),
        progress.total,
        progress_after(start, replies, progress).total,
        measured_among(replies),
        removed_among(replies),
        execution_laws::any_cancelled(replies),
    );
}

/// Whether an execution still looks for its targets or for builds in them.
pub open spec fn looks_for_them(phase: ExecutionPhaseView) -> bool {
    phase is AskingCargo || phase is SeekingConventional || phase is Seeking || phase is Resolving
        || phase is ListingProfiles || phase is Probing
}

/// An action that is over without having been skipped or cancelled has removed
/// each of its targets once, in order; one that was cancelled has removed none
/// after the one that was.
#[verifier::spinoff_prover]
#[verifier::rlimit(80)]
pub proof fn law_every_target_is_removed(
    action: ActionView,
    root: Seq<PartView>,
    platform: Platform,
    replies: Seq<ExecutionReplyView>,
    progress: ProgressView,
)
    requires
        execution_laws::apt(execute::execution_begun(action, root, platform), replies),
    ensures
        ({
            let start = execute::execution_begun(action, root, platform);
            let reached = execution_laws::answered(start, replies);
            &&& reached.phase is Finished && !reached.completion.skipped
                && !execution_laws::any_cancelled(replies) ==> removed_among(replies)
                == reached.targets.len()
            &&& reached.completion.skipped ==> removed_among(replies) == 0
            &&& removed_among(replies) <= reached.targets.len()
            &&& reached.request() matches ExecutionRequestView::Remove(target) ==> target
                == reached.targets[removed_among(replies) as int]
                && !execution_laws::any_cancelled(replies)
        }),
{
    lemma_keeps_count(action, root, platform, replies, progress);
    let start = execute::execution_begun(action, root, platform);
    lemma_told_by_tally(
        execution_laws::answered(start, replies),
        progress.total,
        progress_after(start, replies, progress).total,
        measured_among(replies),
        removed_among(replies),
        execution_laws::any_cancelled(replies),
    );
}

/// What a person sees of the state of an action: it is measuring from when its
/// targets are known, waiting if a target is contended, and deleting once a
/// target is its own; no other answer changes it.
#[verifier::spinoff_prover]
#[verifier::rlimit(80)]
pub proof fn law_states_follow_the_work(
    execution: ExecutionView,
    reply: ExecutionReplyView,
    progress: ProgressView,
)
    requires
        execution.awaits(reply),
    ensures
        ({
            let after = execution.progressed(reply, progress);
            &&& after.done_bytes == progress.done_bytes
            &&& after.done_files == progress.done_files
            &&& execution.phase is Contending && reply == ExecutionReplyView::Found(true)
                ==> after.state == ActionState::Waiting
            &&& execution.phase is Contending && reply == ExecutionReplyView::Found(false)
                ==> after.state == progress.state
            &&& execution.phase is Acquiring ==> after.state == ActionState::Deleting
            &&& execution.phase is Removing || execution.phase is Releasing || execution.phase
                is Restarting || execution.phase is Measuring ==> after.state == progress.state
            &&& looks_for_them(execution.phase) && execution.after(reply).phase is Measuring
                ==> after.state == ActionState::Sizing
            &&& looks_for_them(execution.phase) && !(execution.after(reply).phase is Measuring)
                ==> after.state == progress.state
        }),
{
}

/// How a target is deleted: it is seen whether it is contended, taken, removed
/// and given back, and then the next one is; a removal that was cancelled ends
/// the action with a line that counts as a failure.
#[verifier::spinoff_prover]
#[verifier::rlimit(80)]
pub proof fn law_targets_are_deleted_in_turn(
    execution: ExecutionView,
    contended: bool,
)
    ensures
        execution.phase matches ExecutionPhaseView::Contending { index } ==> {
            let after = execution.after(ExecutionReplyView::Found(contended));
            &&& execution.request() == ExecutionRequestView::IsContended(
                execution.targets[index as int],
            )
            &&& after.request() == ExecutionRequestView::Acquire(execution.targets[index as int])
            &&& after.completion == execution.completion
        },
        execution.phase matches ExecutionPhaseView::Acquiring { index } ==> {
            let after = execution.after(ExecutionReplyView::Done);
            &&& after.request() == ExecutionRequestView::Remove(execution.targets[index as int])
            &&& after.completion == execution.completion
        },
        execution.phase matches ExecutionPhaseView::Releasing { index, cancelled } ==> {
            let after = execution.after(ExecutionReplyView::Done);
            &&& execution.request() == ExecutionRequestView::Release(
                execution.targets[index as int],
            )
            &&& cancelled ==> after.request() == ExecutionRequestView::Finished
                && after.completion.errors == execution.completion.errors.push(
                "cancelled before completion"@,
            ) && after.completion.error_count == execution.completion.error_count + 1
            &&& !cancelled ==> after.completion == execution.completion
            &&& !cancelled && index + 1 < execution.targets.len() ==> after.request()
                == ExecutionRequestView::IsContended(execution.targets[index as int + 1])
            &&& !cancelled && index + 1 >= execution.targets.len() ==> after.request()
                == ExecutionRequestView::Finished
        },
        execution.phase matches ExecutionPhaseView::Restarting ==> {
            let after = execution.after(ExecutionReplyView::Done);
            &&& execution.request() == ExecutionRequestView::RestartClock
            &&& execution.targets.len() > 0 ==> after.request()
                == ExecutionRequestView::IsContended(execution.targets[0])
        },
        execution.phase matches ExecutionPhaseView::Measuring { index, total } ==> {
            let after = execution.after(ExecutionReplyView::Measured(0));
            &&& execution.request() == ExecutionRequestView::Measure(
                execution.targets[index as int],
            )
            &&& index + 1 < execution.targets.len() ==> after.request()
                == ExecutionRequestView::Measure(execution.targets[index as int + 1])
            &&& index + 1 >= execution.targets.len() ==> after.request()
                == ExecutionRequestView::RestartClock
        },
{
}

/// What a removal adds to the report of its action: its bytes, its files, its
/// failures and its lines, and nothing else.
pub proof fn law_removals_are_taken_into_account(
    execution: ExecutionView,
    outcome: crate::remove::RemovalOutcomeView,
)
    requires
        execution.phase is Removing,
    ensures
        ({
            let after = execution.after(ExecutionReplyView::Removed(outcome)).completion;
            let before = execution.completion;
            &&& after.reclaimed_bytes == before.reclaimed_bytes + outcome.bytes_removed
            &&& after.files_removed == before.files_removed + outcome.files_removed
            &&& after.error_count == before.error_count + outcome.error_count
            &&& after.errors == before.errors + outcome.errors
            &&& after.path == before.path
            &&& after.skipped == before.skipped
        }),
{
}

/// An execution takes exactly the answers to what it asks for.
pub proof fn law_executions_take_answers(execution: ExecutionView, reply: ExecutionReplyView)
    ensures
        execution.awaits(reply) <==> match execution.request() {
            ExecutionRequestView::CargoMetadata(_) => reply is Metadata,
            ExecutionRequestView::IsDirectory(_) => reply is Found,
            ExecutionRequestView::Exists(_) => reply is Found,
            ExecutionRequestView::Canonicalize(_) => reply is Canonical,
            ExecutionRequestView::List(_) => reply is Listed,
            ExecutionRequestView::IsLocked(_) => reply is Found,
            ExecutionRequestView::Measure(_) => reply is Measured,
            ExecutionRequestView::RestartClock => reply is Done,
            ExecutionRequestView::IsContended(_) => reply is Found,
            ExecutionRequestView::Acquire(_) => reply is Done,
            ExecutionRequestView::Remove(_) => reply is Removed,
            ExecutionRequestView::Release(_) => reply is Done,
            ExecutionRequestView::Finished => false,
        },
{
}

/// Whether the counters of an execution fit, with one more failure if it was
/// cancelled.
pub open spec fn counters_fit(execution: ExecutionView) -> bool {
    &&& execution.completion.reclaimed_bytes <= u64::MAX
    &&& execution.completion.files_removed <= u64::MAX
    &&& execution.completion.error_count <= u64::MAX
    &&& execution.phase matches ExecutionPhaseView::Releasing { index, cancelled } ==> {
        cancelled ==> execution.completion.error_count < u64::MAX
    }
}

/// An execution has room for what it measures or removes exactly if its counters
/// fit afterwards.
pub proof fn law_there_is_room_for_what_fits(execution: ExecutionView, reply: ExecutionReplyView)
    requires
        execution.awaits(reply),
    ensures
        reply is Removed ==> (execution.has_room(reply) <==> counters_fit(execution.after(reply))),
        execution.phase matches ExecutionPhaseView::Measuring { index, total } ==> (
        execution.has_room(reply) <==> total + reply->Measured_0 <= u64::MAX),
        !(reply is Removed) && !(reply is Measured) ==> execution.has_room(reply),
{
}

} // verus!
