//! Update bookkeeping shared with the update pipeline: the kinds of updates
//! and the numbering of enqueued ones.
use vstd::prelude::*;

verus! {

/// The kind of an update, with the number of items it carries.
#[derive(Debug, Clone, Copy, PartialEq, Eq, Structural)]
pub enum UpdateType {
    ClearAll,
    Schema,
    Customs,
    DocumentsAddition { number: usize },
    DocumentsPartial { number: usize },
    DocumentsDeletion { number: usize },
    SynonymsAddition { number: usize },
    SynonymsDeletion { number: usize },
    StopWordsAddition { number: usize },
    StopWordsDeletion { number: usize },
}

/// The identifier of the next update, from the last enqueued one and the last
/// processed one: one past the larger of the two, zero where there is none.
pub fn next_update_id(last_update: Option<u64>, last_update_result: Option<u64>) -> (r: u64)
    requires
        last_update != Some(u64::MAX),
        last_update_result != Some(u64::MAX),
    ensures
        last_update is None && last_update_result is None ==> r == 0,
        last_update matches Some(a) ==> r > a,
        last_update_result matches Some(b) ==> r > b,
        last_update matches Some(a) ==> (r == a + 1 || last_update_result == Some((r - 1) as u64)),
        last_update_result matches Some(b) ==> (r == b + 1 || last_update == Some((r - 1) as u64)),
{
    let max_update_id = match (last_update, last_update_result) {
        (None, None) => None,
        (Some(a), None) => Some(a),
        (None, Some(b)) => Some(b),
        (Some(a), Some(b)) => Some(if a >= b { a } else { b }),
    };
    match max_update_id {
        None => 0,
        Some(n) => n + 1,
    }
}

} // verus!
