//! Offering things to a queue that may have no room for them.

use vstd::prelude::*;

verus! {

/// The answers of a queue to what was offered to it, one after the other.
pub open spec fn offered<P, T: Fn(P) -> bool>(offer: T, parcels: Seq<P>, answers: Seq<bool>) -> bool {
    &&& parcels.len() == answers.len()
    &&& forall|i: int|
        0 <= i < answers.len() ==> call_ensures(offer, (parcels[i],), #[trigger] answers[i])
}

/// How many offers were taken.
pub open spec fn taken(answers: Seq<bool>) -> nat
    decreases answers.len(),
{
    if answers.len() == 0 {
        0
    } else if answers.last() {
        taken(answers.drop_last()) + 1
    } else {
        taken(answers.drop_last())
    }
}

/// No more offers are taken than were made.
pub proof fn lemma_taken_bounded(answers: Seq<bool>)
    ensures
        taken(answers) <= answers.len(),
    decreases answers.len(),
{
    if answers.len() > 0 {
        lemma_taken_bounded(answers.drop_last());
    }
}

/// One more answer.
pub proof fn lemma_taken_push(answers: Seq<bool>, answer: bool)
    ensures
        taken(answers.push(answer)) == taken(answers) + (if answer {
            1nat
        } else {
            0nat
        }),
{
    assert(answers.push(answer).drop_last() =~= answers);
}

} // verus!
