//! One sync at a time.

use crate::sync::SyncResult;
use crate::sync_model::ResultView;
use vstd::prelude::*;

verus! {

/// `std::sync::Mutex`, carried as it is.
#[verifier::external_type_specification]
#[verifier::external_body]
#[verifier::reject_recursive_types(T)]
pub struct ExMutex<T: ?Sized>(std::sync::Mutex<T>);

/// What all who ask for a sync share: whether one is under way.
pub struct SyncState {
    pub in_progress: std::sync::Mutex<bool>,
}

/// Takes the turn for a sync. Where someone has it, the sync is skipped, and that
/// nothing was done is what is reported.
pub fn gdrive_sync(in_progress: &mut bool) -> (r: Result<(), SyncResult>)
    ensures
        *final(in_progress),
        match r {
            Ok(_) => !*old(in_progress),
            Err(skipped) => *old(in_progress) && skipped@ == (ResultView {
                uploaded: 0,
                downloaded: 0,
                conflicts: 0,
                chars_synced: 0,
                summary: "Sync already in progress"@,
            }),
        },
{
    if *in_progress {
        return Err(
            SyncResult {
                uploaded: 0,
                downloaded: 0,
                conflicts: 0,
                chars_synced: 0,
                summary: "Sync already in progress".to_owned(),
            },
        );
    }
    *in_progress = true;
    Ok(())
}

/// Takes the turn for a reset, which is refused where someone has it.
pub fn gdrive_reset_sync(in_progress: &mut bool) -> (r: Result<(), String>)
    ensures
        *final(in_progress),
        match r {
            Ok(_) => !*old(in_progress),
            Err(e) => *old(in_progress) && e@
                == "A sync is already in progress; wait for it to finish."@,
        },
{
    if *in_progress {
        return Err("A sync is already in progress; wait for it to finish.".to_owned());
    }
    *in_progress = true;
    Ok(())
}

/// Gives the turn back.
pub fn give_back(in_progress: &mut bool)
    ensures
        !*final(in_progress),
{
    *in_progress = false;
}

/// Whether the turn is taken after some have tried to take it and some have
/// given it back: `true` stands for an attempt, `false` for giving it back.
pub open spec fn taken(before: bool, events: Seq<bool>) -> bool {
    if events.len() == 0 {
        before
    } else {
        events.last()
    }
}

/// Event `i` is an attempt to take the turn, and it is granted.
pub open spec fn granted(before: bool, events: Seq<bool>, i: int) -> bool {
    events[i] && !taken(before, events.take(i))
}

/// Between two attempts that were granted, the turn was given back: at most one
/// sync is under way at any time.
pub proof fn only_one_has_the_turn(before: bool, events: Seq<bool>, i: int, j: int)
    requires
        0 <= i < j < events.len(),
        granted(before, events, i),
        granted(before, events, j),
    ensures
        exists|k: int| i < k < j && !#[trigger] events[k],
{
    assert(events.take(j).last() == events[j - 1]);
}

} // verus!
