pub mod assign;
pub mod broker;
pub mod messages;
pub mod randomness;
pub mod rooms;

use vstd::prelude::*;

verus! {

/// The display name a player chose for itself; unique within a room.
pub type PlayerId = String;

/// The short, human-typeable code that identifies a room.
pub type RoomId = String;

/// The name of a cover role at some location.
pub type Role = String;

/// Index of the first element of `slice` whose characters equal `elem`,
/// or `None` when no element matches.
pub fn find_index(slice: &Vec<String>, elem: &String) -> (r: Option<usize>)
    ensures
        match r {
            Some(i) => i < slice@.len() && slice@[i as int]@ == elem@ && (forall|j: int|
                0 <= j < i ==> slice@[j]@ != elem@),
            None => forall|j: int| 0 <= j < slice@.len() ==> slice@[j]@ != elem@,
        },
{
    let mut i: usize = 0;
    while i < slice.len()
        invariant
            i <= slice@.len(),
            forall|j: int| 0 <= j < i ==> slice@[j]@ != elem@,
        decreases slice@.len() - i,
    {
        if slice[i] == *elem {
            return Some(i);
        }
        i += 1;
    }
    None
}

} // verus!
