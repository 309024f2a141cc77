//! A solver for the constrained course-assignment problem: every participant
//! is placed into exactly one course such that capacities are respected,
//! instructors teach their own course, everyone else gets one of their chosen
//! courses, and the preference-weighted objective is maximal.  Courses may be
//! cancelled to reach feasibility.  The search is a branch-and-bound whose
//! per-node relaxation is a maximum-weight bipartite matching.

use vstd::prelude::*;

pub mod bab;
pub mod caobab;
pub mod hungarian;
pub mod io;
pub mod matrix;

verus! {

/// A person taking part in the event, with an ordered list of course choices
/// (most preferred first).
pub struct Participant {
    /// Dense index of this participant; equals its position in the list.
    pub index: usize,
    /// Stable external identifier.
    pub dbid: u64,
    /// Human readable name.
    pub name: String,
    /// Ordered course indices this participant chose.
    pub choices: Vec<usize>,
}

/// A course with capacity bounds and the participants who teach it.
pub struct Course {
    /// Dense index of this course; equals its position in the list.
    pub index: usize,
    /// Stable external identifier.
    pub dbid: u64,
    /// Human readable name.
    pub name: String,
    /// Maximum number of attendees (course instructors not counted).
    pub num_max: usize,
    /// Minimum number of attendees (course instructors not counted).
    pub num_min: usize,
    /// Participant indices of this course's instructors.
    pub instructors: Vec<usize>,
}

/// A total mapping from participant index to assigned course index,
/// represented as a sequence of length `participants.len()`.
pub type Assignment = Vec<usize>;

/// Every participant's stored index matches its position and every choice
/// refers to an existing course.
pub open spec fn participants_consistent(participants: Seq<Participant>, num_courses: int) -> bool {
    forall|p: int|
        0 <= p < participants.len() ==> {
            &&& (#[trigger] participants[p]).index == p
            &&& forall|k: int|
                0 <= k < participants[p].choices@.len() ==> (
                #[trigger] participants[p].choices@[k] as int) < num_courses
        }
}

/// Every course's stored index matches its position and every instructor
/// refers to an existing participant.
pub open spec fn courses_consistent(courses: Seq<Course>, num_participants: int) -> bool {
    forall|c: int|
        0 <= c < courses.len() ==> {
            &&& (#[trigger] courses[c]).index == c
            &&& forall|k: int|
                0 <= k < courses[c].instructors@.len() ==> (
                #[trigger] courses[c].instructors@[k] as int) < num_participants
        }
}

} // verus!
