//! Rendering a computed assignment for people, and the consistency check on
//! raw problem data.

use vstd::prelude::*;
use vstd::string::StringExecFns;
use crate::{Assignment, Course, Participant};

verus! {

/// The rendered line for participant `p` within course `c`'s section: name,
/// instructor tag if the course is taught by them, newline; empty when the
/// participant is assigned elsewhere.
pub open spec fn spec_entry(
    courses: Seq<Course>,
    participants: Seq<Participant>,
    assignment: Seq<usize>,
    c: int,
    p: int,
) -> Seq<char> {
    if assignment[p] == courses[c].index {
        participants[p].name@ + (if courses[c].instructors@.contains(p as usize) {
            " (instr)"@
        } else {
            ""@
        }) + "\n"@
    } else {
        Seq::<char>::empty()
    }
}

/// The first `p` rendered lines of course `c`'s section.
pub open spec fn spec_entries(
    courses: Seq<Course>,
    participants: Seq<Participant>,
    assignment: Seq<usize>,
    c: int,
    p: int,
) -> Seq<char>
    decreases p,
{
    if p <= 0 {
        Seq::<char>::empty()
    } else {
        spec_entries(courses, participants, assignment, c, p - 1) + spec_entry(
            courses,
            participants,
            assignment,
            c,
            p - 1,
        )
    }
}

/// Course `c`'s full section: a banner with its name, then its members.
pub open spec fn spec_section(
    courses: Seq<Course>,
    participants: Seq<Participant>,
    assignment: Seq<usize>,
    c: int,
) -> Seq<char> {
    "\n===== "@ + courses[c].name@ + " =====\n"@ + spec_entries(
        courses,
        participants,
        assignment,
        c,
        assignment.len() as int,
    )
}

/// The sections of the first `c` courses, in order.
pub open spec fn spec_sections(
    courses: Seq<Course>,
    participants: Seq<Participant>,
    assignment: Seq<usize>,
    c: int,
) -> Seq<char>
    decreases c,
{
    if c <= 0 {
        Seq::<char>::empty()
    } else {
        spec_sections(courses, participants, assignment, c - 1) + spec_section(
            courses,
            participants,
            assignment,
            c - 1,
        )
    }
}

/// Format the calculated course assignment into a human readable string, one
/// banner line per course followed by the names of its members, instructors
/// tagged.
pub fn format_assignment(
    assignment: &Assignment,
    courses: &Vec<Course>,
    participants: &Vec<Participant>,
) -> (r: String)
    requires
        assignment@.len() == participants@.len(),
    ensures
        r@ == spec_sections(courses@, participants@, assignment@, courses@.len() as int),
{
    let mut result = String::new();
    let mut c: usize = 0;
    while c < courses.len()
        invariant
            c <= courses@.len(),
            assignment@.len() == participants@.len(),
            result@ == spec_sections(courses@, participants@, assignment@, c as int),
        decreases courses@.len() - c,
    {
        result.append("\n===== ");
        result.append(courses[c].name.as_str());
        result.append(" =====\n");
        let mut p: usize = 0;
        while p < assignment.len()
            invariant
                p <= assignment@.len(),
                c < courses@.len(),
                assignment@.len() == participants@.len(),
                result@ == spec_sections(courses@, participants@, assignment@, c as int)
                    + "\n===== "@ + courses@[c as int].name@ + " =====\n"@ + spec_entries(
                    courses@,
                    participants@,
                    assignment@,
                    c as int,
                    p as int,
                ),
            decreases assignment@.len() - p,
        {
            if assignment[p] == courses[c].index {
                result.append(participants[p].name.as_str());
                let mut is_instr = false;
                let mut k: usize = 0;
                while k < courses[c].instructors.len()
                    invariant
                        k <= courses@[c as int].instructors@.len(),
                        c < courses@.len(),
                        p < participants@.len(),
                        is_instr == exists|j: int|
                            0 <= j < k && (#[trigger] courses@[c as int].instructors@[j]) == p,
                    decreases courses@[c as int].instructors@.len() - k,
                {
                    if courses[c].instructors[k] == p {
                        is_instr = true;
                    }
                    k += 1;
                }
                proof {
                    if is_instr {
                        assert(courses@[c as int].instructors@.contains(p));
                    } else {
                        if courses@[c as int].instructors@.contains(p) {
                            let j = choose|j: int|
                                0 <= j < courses@[c as int].instructors@.len() && courses@[
                                c as int].instructors@[j] == p;
                            assert(courses@[c as int].instructors@[j] == p);
                        }
                    }
                }
                if is_instr {
                    result.append(" (instr)");
                } else {
                    result.append("");
                }
                result.append("\n");
            }
            proof {
                assert(result@ == spec_sections(courses@, participants@, assignment@, c as int)
                    + "\n===== "@ + courses@[c as int].name@ + " =====\n"@ + spec_entries(
                    courses@,
                    participants@,
                    assignment@,
                    c as int,
                    p + 1,
                ));
            }
            p += 1;
        }
        c += 1;
    }
    result
}

/// Check that a courses/participants data structure is consistent: every
/// object's stored index equals its position, every choice names an existing
/// course and every instructor an existing participant.
pub fn assert_data_consitency(participants: &Vec<Participant>, courses: &Vec<Course>) -> (r: bool)
    ensures
        r == (crate::participants_consistent(participants@, courses@.len() as int)
            && crate::courses_consistent(courses@, participants@.len() as int)),
{
    let mut ok = true;
    let mut p: usize = 0;
    while p < participants.len()
        invariant
            p <= participants@.len(),
            ok == forall|i: int|
                0 <= i < p ==> {
                    &&& (#[trigger] participants@[i]).index == i
                    &&& forall|k: int|
                        0 <= k < participants@[i].choices@.len() ==> (
                        #[trigger] participants@[i].choices@[k] as int) < courses@.len()
                },
        decreases participants@.len() - p,
    {
        if participants[p].index != p {
            ok = false;
        }
        let mut k: usize = 0;
        while k < participants[p].choices.len()
            invariant
                k <= participants@[p as int].choices@.len(),
                p < participants@.len(),
                ok == ({
                    &&& forall|i: int|
                        0 <= i < p ==> {
                            &&& (#[trigger] participants@[i]).index == i
                            &&& forall|kk: int|
                                0 <= kk < participants@[i].choices@.len() ==> (
                                #[trigger] participants@[i].choices@[kk] as int) < courses@.len()
                        }
                    &&& participants@[p as int].index == p
                    &&& forall|kk: int|
                        0 <= kk < k ==> (#[trigger] participants@[p as int].choices@[kk] as int)
                            < courses@.len()
                }),
        decreases participants@[p as int].choices@.len() - k,
        {
            if participants[p].choices[k] >= courses.len() {
                ok = false;
            }
            k += 1;
        }
        p += 1;
    }
    let mut c: usize = 0;
    while c < courses.len()
        invariant
            c <= courses@.len(),
            ok == ({
                &&& crate::participants_consistent(participants@, courses@.len() as int)
                &&& forall|i: int|
                    0 <= i < c ==> {
                        &&& (#[trigger] courses@[i]).index == i
                        &&& forall|k: int|
                            0 <= k < courses@[i].instructors@.len() ==> (
                            #[trigger] courses@[i].instructors@[k] as int)
                                < participants@.len()
                    }
            }),
        decreases courses@.len() - c,
    {
        if courses[c].index != c {
            ok = false;
        }
        let mut k: usize = 0;
        while k < courses[c].instructors.len()
            invariant
                k <= courses@[c as int].instructors@.len(),
                c < courses@.len(),
                ok == ({
                    &&& crate::participants_consistent(participants@, courses@.len() as int)
                    &&& forall|i: int|
                        0 <= i < c ==> {
                            &&& (#[trigger] courses@[i]).index == i
                            &&& forall|kk: int|
                                0 <= kk < courses@[i].instructors@.len() ==> (
                                #[trigger] courses@[i].instructors@[kk] as int)
                                    < participants@.len()
                        }
                    &&& courses@[c as int].index == c
                    &&& forall|kk: int|
                        0 <= kk < k ==> (#[trigger] courses@[c as int].instructors@[kk] as int)
                            < participants@.len()
                }),
        decreases courses@[c as int].instructors@.len() - k,
        {
            if courses[c].instructors[k] >= participants.len() {
                ok = false;
            }
            k += 1;
        }
        c += 1;
    }
    ok
}

} // verus!
