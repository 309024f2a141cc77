//! The course-assignment solver: precomputation of the matching matrix,
//! feasibility checking with branching information, node evaluation, and the
//! branch-and-bound driver.

use vstd::prelude::*;
use crate::matrix::Matrix;
use crate::{Course, Participant};

verus! {

/// Base offset of the preference weight schedule.  The k-th choice of a
/// participant weighs `WEIGHT_OFFSET - k`, a non-chosen course weighs 0, so
/// that any chosen placement dominates any non-chosen one.
pub const WEIGHT_OFFSET: u16 = 50000;

/// Length of the preference weight schedule: participants may rank at most
/// this many courses.
pub const NUM_WEIGHTS: usize = 3;

/// Upper bound on the total number of course places, so that a score sum
/// never overflows a `u32` and matrix indices never overflow a `usize`.
pub const MAX_SEATS: usize = 40000;

/// The data precomputed once per problem and reused by every search node.
pub struct Problem {
    /// `n` by `n` weight matrix; rows are participants (then dummies),
    /// columns are course places.
    pub adjacency_matrix: Matrix,
    /// For every column, the course it belongs to.
    pub course_map: Vec<usize>,
    /// For every course, its first column.
    pub inverse_course_map: Vec<usize>,
    /// For every row, whether it is a dummy (filler) row.
    pub dummy_x: Vec<bool>,
}

/// Total number of course places of the first `i` courses.
pub open spec fn sum_num_max_prefix(courses: Seq<Course>, i: int) -> int
    decreases i,
{
    if i <= 0 {
        0
    } else {
        sum_num_max_prefix(courses, i - 1) + courses[i - 1].num_max
    }
}

/// Total number of course places: one matrix column per place.
pub open spec fn sum_num_max(courses: Seq<Course>) -> int {
    sum_num_max_prefix(courses, courses.len() as int)
}

/// Prefix sums of `num_max` only grow.
pub proof fn lemma_sum_num_max_prefix_mono(courses: Seq<Course>, i: int, j: int)
    requires
        0 <= i <= j,
    ensures
        sum_num_max_prefix(courses, i) <= sum_num_max_prefix(courses, j),
    decreases j - i,
{
    if i < j {
        lemma_sum_num_max_prefix_mono(courses, i, j - 1);
    }
}

/// The weight of assigning a participant with the given choice list to course
/// `c`: the position of `c` in the list decides, a course not in the list
/// weighs nothing.
pub open spec fn pref_weight(choices: Seq<usize>, c: usize) -> u16 {
    match choices.index_of_first(c) {
        Some(k) => ((WEIGHT_OFFSET as int) - k) as u16,
        None => 0u16,
    }
}

/// The weight the adjacency matrix must hold in row `x`, column `y`: dummy
/// rows weigh nothing, real rows weigh the participant's preference for the
/// column's course.
pub open spec fn expected_weight(
    participants: Seq<Participant>,
    course_map: Seq<usize>,
    x: int,
    y: int,
) -> u16 {
    if x < participants.len() {
        pref_weight(participants[x].choices@, course_map[y])
    } else {
        0u16
    }
}

/// What the precomputation promises of its output.
pub open spec fn problem_wf(pr: Problem, courses: Seq<Course>, participants: Seq<Participant>) -> bool {
    let n = sum_num_max(courses);
    &&& pr.adjacency_matrix.wf()
    &&& pr.adjacency_matrix.n == n
    &&& pr.course_map@.len() == n
    &&& pr.inverse_course_map@.len() == courses.len()
    &&& pr.dummy_x@.len() == n
    &&& forall|c: int|
        0 <= c < courses.len() ==> (#[trigger] pr.inverse_course_map@[c]) as int
            == sum_num_max_prefix(courses, c)
    &&& forall|y: int| 0 <= y < n ==> ((#[trigger] pr.course_map@[y]) as int) < courses.len()
    &&& forall|c: int, j: int|
        0 <= c < courses.len() && 0 <= j < courses[c].num_max ==> (#[trigger] pr.course_map@[
            sum_num_max_prefix(courses, c) + j]) as int == c
    &&& forall|x: int| 0 <= x < n ==> (#[trigger] pr.dummy_x@[x]) == (x >= participants.len())
    &&& forall|x: int, y: int|
        0 <= x < n && 0 <= y < n ==> (#[trigger] pr.adjacency_matrix.spec_at(x, y))
            == expected_weight(participants, pr.course_map@, x, y)
}

/// What the precomputation needs of its input: enough places for everyone,
/// a bounded total size, and choice lists no longer than the weight schedule.
pub open spec fn precompute_pre(courses: Seq<Course>, participants: Seq<Participant>) -> bool {
    &&& sum_num_max(courses) <= MAX_SEATS
    &&& participants.len() <= sum_num_max(courses)
    &&& forall|p: int|
        0 <= p < participants.len() ==> (#[trigger] participants[p].choices@.len())
            <= NUM_WEIGHTS
}

/// The position of `c` in a choice list, or the list's length if absent.
fn find_choice(choices: &Vec<usize>, c: usize) -> (w: u16)
    requires
        choices@.len() <= NUM_WEIGHTS,
    ensures
        w == pref_weight(choices@, c),
{
    proof {
        choices@.index_of_first_ensures(c);
    }
    let mut k: usize = 0;
    while k < choices.len()
        invariant
            k <= choices@.len(),
            choices@.len() <= NUM_WEIGHTS,
            forall|j: int| 0 <= j < k ==> choices@[j] != c,
        decreases choices@.len() - k,
    {
        if choices[k] == c {
            proof {
                choices@.index_of_first_ensures(c);
                assert(choices@.contains(c));
                let i = choices@.index_of_first(c)->Some_0;
                assert(!(i < k) && !(k < i));
            }
            return WEIGHT_OFFSET - (k as u16);
        }
        k += 1;
    }
    proof {
        choices@.index_of_first_ensures(c);
        if choices@.contains(c) {
            let i = choose|i: int| 0 <= i < choices@.len() && choices@[i] == c;
            assert(choices@[i] != c);
        }
    }
    0
}

/// Build the data every search node reuses: the weight matrix, the mapping
/// between columns and courses, and the dummy-row mask.
pub fn precompute_problem(courses: &Vec<Course>, participants: &Vec<Participant>) -> (r: Problem)
    requires
        precompute_pre(courses@, participants@),
    ensures
        problem_wf(r, courses@, participants@),
{
    let num_courses = courses.len();

    // Column bookkeeping: the first column of each course, and each column's course.
    let mut inverse_course_map: Vec<usize> = Vec::new();
    let mut course_map: Vec<usize> = Vec::new();
    let mut c: usize = 0;
    while c < num_courses
        invariant
            c <= num_courses,
            num_courses == courses@.len(),
            precompute_pre(courses@, participants@),
            inverse_course_map@.len() == c,
            course_map@.len() == sum_num_max_prefix(courses@, c as int),
            forall|i: int|
                0 <= i < c ==> (#[trigger] inverse_course_map@[i]) as int == sum_num_max_prefix(
                    courses@,
                    i,
                ),
            forall|y: int| 0 <= y < course_map@.len() ==> ((#[trigger] course_map@[y]) as int) < num_courses,
            forall|i: int, j: int|
                0 <= i < c && 0 <= j < courses@[i].num_max ==> (#[trigger] course_map@[
                    sum_num_max_prefix(courses@, i) + j]) as int == i,
        decreases num_courses - c,
    {
        proof {
            lemma_sum_num_max_prefix_mono(courses@, c as int + 1, courses@.len() as int);
        }
        inverse_course_map.push(course_map.len());
        let mut j: usize = 0;
        let m = courses[c].num_max;
        while j < m
            invariant
                j <= m,
                c < num_courses,
                num_courses == courses@.len(),
                m == courses@[c as int].num_max,
                sum_num_max_prefix(courses@, c as int) + m <= MAX_SEATS,
                course_map@.len() == sum_num_max_prefix(courses@, c as int) + j,
                forall|y: int| 0 <= y < course_map@.len() ==> ((#[trigger] course_map@[y]) as int) < num_courses,
                forall|i: int, jj: int|
                    0 <= i < c && 0 <= jj < courses@[i].num_max ==> (#[trigger] course_map@[
                        sum_num_max_prefix(courses@, i) + jj]) as int == i,
                forall|jj: int|
                    0 <= jj < j ==> (#[trigger] course_map@[
                        sum_num_max_prefix(courses@, c as int) + jj]) as int == c,
            decreases m - j,
        {
            let ghost cm0 = course_map@;
            course_map.push(c);
            proof {
                assert forall|i: int, jj: int|
                    0 <= i < c && 0 <= jj < courses@[i].num_max implies (#[trigger] course_map@[
                    sum_num_max_prefix(courses@, i) + jj]) as int == i by {
                    lemma_sum_num_max_prefix_mono(courses@, i + 1, c as int);
                    assert(sum_num_max_prefix(courses@, i + 1) == sum_num_max_prefix(courses@, i)
                        + courses@[i].num_max);
                    lemma_sum_num_max_prefix_mono(courses@, 0, i);
                    let idx = sum_num_max_prefix(courses@, i) + jj;
                    assert(0 <= idx < cm0.len());
                    assert(course_map@[idx] == cm0[idx]);
                }
                assert forall|jj: int| 0 <= jj <= j implies (#[trigger] course_map@[
                    sum_num_max_prefix(courses@, c as int) + jj]) as int == c by {
                    lemma_sum_num_max_prefix_mono(courses@, 0, c as int);
                    let idx = sum_num_max_prefix(courses@, c as int) + jj;
                    if jj < j {
                        assert(course_map@[idx] == cm0[idx]);
                    } else {
                        assert(idx == cm0.len());
                    }
                }
            }
            j += 1;
        }
        c += 1;
    }
    let n = course_map.len();
    proof {
        assert(n == sum_num_max(courses@));
    }

    // Dummy-row mask: rows past the real participants are fillers.
    let num_participants = participants.len();
    let mut dummy_x: Vec<bool> = Vec::new();
    let mut x: usize = 0;
    while x < n
        invariant
            x <= n,
            dummy_x@.len() == x,
            num_participants == participants@.len(),
            forall|i: int| 0 <= i < x ==> (#[trigger] dummy_x@[i]) == (i >= num_participants),
        decreases n - x,
    {
        dummy_x.push(x >= num_participants);
        x += 1;
    }

    // The weight matrix: preference weights for real rows, zero for dummies.
    proof {
        assert((n as int) * (n as int) <= 1_600_000_000) by (nonlinear_arith)
            requires
                0 <= n <= 40000,
        ;
    }
    let mut adjacency_matrix = Matrix::zeroes(n);
    let mut x: usize = 0;
    while x < num_participants
        invariant
            x <= num_participants,
            num_participants == participants@.len(),
            num_participants <= n,
            precompute_pre(courses@, participants@),
            adjacency_matrix.wf(),
            adjacency_matrix.n == n,
            course_map@.len() == n,
            forall|i: int, y: int|
                0 <= i < x && 0 <= y < n ==> (#[trigger] adjacency_matrix.spec_at(i, y))
                    == pref_weight(participants@[i].choices@, course_map@[y]),
            forall|i: int, y: int|
                x <= i < n && 0 <= y < n ==> (#[trigger] adjacency_matrix.spec_at(i, y)) == 0,
        decreases num_participants - x,
    {
        let mut y: usize = 0;
        while y < n
            invariant
                y <= n,
                x < num_participants,
                num_participants == participants@.len(),
                num_participants <= n,
                precompute_pre(courses@, participants@),
                adjacency_matrix.wf(),
                adjacency_matrix.n == n,
                course_map@.len() == n,
                forall|i: int, yy: int|
                    0 <= i < x && 0 <= yy < n ==> (#[trigger] adjacency_matrix.spec_at(i, yy))
                        == pref_weight(participants@[i].choices@, course_map@[yy]),
                forall|yy: int|
                    0 <= yy < y ==> (#[trigger] adjacency_matrix.spec_at(x as int, yy))
                        == pref_weight(participants@[x as int].choices@, course_map@[yy]),
                forall|i: int, yy: int|
                    x < i < n && 0 <= yy < n ==> (#[trigger] adjacency_matrix.spec_at(i, yy)) == 0,
                forall|yy: int|
                    y <= yy < n ==> (#[trigger] adjacency_matrix.spec_at(x as int, yy)) == 0,
            decreases n - y,
        {
            proof {
                assert(participants@[x as int].choices@.len() <= NUM_WEIGHTS);
            }
            let w = find_choice(&participants[x].choices, course_map[y]);
            if w > 0 {
                adjacency_matrix.set(x, y, w);
            }
            proof {
                if w == 0 {
                    assert(adjacency_matrix.spec_at(x as int, y as int) == pref_weight(
                        participants@[x as int].choices@,
                        course_map@[y as int],
                    ));
                }
            }
            y += 1;
        }
        x += 1;
    }

    let r = Problem { adjacency_matrix, course_map, inverse_course_map, dummy_x };
    proof {
        assert forall|x: int, y: int|
            0 <= x < n && 0 <= y < n implies (#[trigger] r.adjacency_matrix.spec_at(x, y))
            == expected_weight(participants@, r.course_map@, x, y) by {
        }
    }
    r
}


/// A search-tree node: the set of courses decided to be cancelled and the set
/// decided to be enforced.  Nodes are ordered by depth (total number of
/// decisions), ties broken lexicographically, so that deeper nodes come last.
#[derive(Clone)]
pub struct BABNode {
    /// Courses that must not run in this subtree.
    pub cancelled_courses: Vec<usize>,
    /// Courses whose minimum size must be reached by real participants in
    /// this subtree.
    pub enforced_courses: Vec<usize>,
}

/// The number of decisions a node has taken.
pub open spec fn node_depth(n: BABNode) -> int {
    n.cancelled_courses@.len() + n.enforced_courses@.len() as int
}

/// Lexicographic comparison of two index sequences.
pub open spec fn seq_lex_cmp(a: Seq<usize>, b: Seq<usize>) -> core::cmp::Ordering
    decreases a.len(),
{
    if a.len() == 0 && b.len() == 0 {
        core::cmp::Ordering::Equal
    } else if a.len() == 0 {
        core::cmp::Ordering::Less
    } else if b.len() == 0 {
        core::cmp::Ordering::Greater
    } else if a[0] < b[0] {
        core::cmp::Ordering::Less
    } else if a[0] > b[0] {
        core::cmp::Ordering::Greater
    } else {
        seq_lex_cmp(a.drop_first(), b.drop_first())
    }
}

/// The node order used by the search frontier: depth first, then the
/// cancelled set, then the enforced set, each lexicographically.
pub open spec fn node_cmp(a: BABNode, b: BABNode) -> core::cmp::Ordering {
    if node_depth(a) < node_depth(b) {
        core::cmp::Ordering::Less
    } else if node_depth(a) > node_depth(b) {
        core::cmp::Ordering::Greater
    } else if seq_lex_cmp(a.cancelled_courses@, b.cancelled_courses@) != core::cmp::Ordering::Equal {
        seq_lex_cmp(a.cancelled_courses@, b.cancelled_courses@)
    } else {
        seq_lex_cmp(a.enforced_courses@, b.enforced_courses@)
    }
}

/// A lexicographic comparison is unchanged by dropping a common prefix.
proof fn lemma_lex_skip(a: Seq<usize>, b: Seq<usize>, i: int)
    requires
        0 <= i <= a.len(),
        i <= b.len(),
        forall|j: int| 0 <= j < i ==> a[j] == b[j],
    ensures
        seq_lex_cmp(a, b) == seq_lex_cmp(a.skip(i), b.skip(i)),
    decreases i,
{
    if i > 0 {
        assert(a.len() > 0 && b.len() > 0);
        assert(a[0] == b[0]);
        lemma_lex_skip(a.drop_first(), b.drop_first(), i - 1);
        assert(a.drop_first().skip(i - 1) =~= a.skip(i));
        assert(b.drop_first().skip(i - 1) =~= b.skip(i));
    } else {
        assert(a.skip(0) =~= a);
        assert(b.skip(0) =~= b);
    }
}

/// Sequences that compare equal lexicographically are equal.
pub proof fn lemma_lex_equal(a: Seq<usize>, b: Seq<usize>)
    requires
        seq_lex_cmp(a, b) == core::cmp::Ordering::Equal,
    ensures
        a == b,
    decreases a.len(),
{
    if a.len() == 0 && b.len() == 0 {
        assert(a =~= b);
    } else if a.len() == 0 || b.len() == 0 {
    } else {
        lemma_lex_equal(a.drop_first(), b.drop_first());
        assert(a =~= Seq::empty().push(a[0]) + a.drop_first());
        assert(b =~= Seq::empty().push(b[0]) + b.drop_first());
    }
}

/// Lexicographic comparison of two index vectors.
fn lex_cmp(a: &Vec<usize>, b: &Vec<usize>) -> (r: core::cmp::Ordering)
    ensures
        r == seq_lex_cmp(a@, b@),
{
    let mut i: usize = 0;
    loop
        invariant
            i <= a@.len(),
            i <= b@.len(),
            forall|j: int| 0 <= j < i ==> a@[j] == b@[j],
        decreases a@.len() - i,
    {
        proof {
            lemma_lex_skip(a@, b@, i as int);
        }
        if i == a.len() && i == b.len() {
            return core::cmp::Ordering::Equal;
        } else if i == a.len() {
            return core::cmp::Ordering::Less;
        } else if i == b.len() {
            return core::cmp::Ordering::Greater;
        } else if a[i] < b[i] {
            proof {
                assert(a@.skip(i as int)[0] == a@[i as int]);
                assert(b@.skip(i as int)[0] == b@[i as int]);
            }
            return core::cmp::Ordering::Less;
        } else if a[i] > b[i] {
            proof {
                assert(a@.skip(i as int)[0] == a@[i as int]);
                assert(b@.skip(i as int)[0] == b@[i as int]);
            }
            return core::cmp::Ordering::Greater;
        }
        i += 1;
    }
}

impl PartialEq for BABNode {
    fn eq(&self, other: &BABNode) -> (r: bool) {
        let r = self.cancelled_courses == other.cancelled_courses && self.enforced_courses
            == other.enforced_courses;
        proof {
            if r {
                assert(self.cancelled_courses@ =~= other.cancelled_courses@);
                assert(self.enforced_courses@ =~= other.enforced_courses@);
            }
        }
        r
    }
}

impl vstd::std_specs::cmp::PartialEqSpecImpl for BABNode {
    open spec fn obeys_eq_spec() -> bool {
        true
    }

    open spec fn eq_spec(&self, other: &BABNode) -> bool {
        self.cancelled_courses@ == other.cancelled_courses@ && self.enforced_courses@
            == other.enforced_courses@
    }
}

impl PartialOrd for BABNode {
    fn partial_cmp(&self, other: &BABNode) -> (r: Option<core::cmp::Ordering>) {
        let ad: u128 = self.cancelled_courses.len() as u128 + self.enforced_courses.len() as u128;
        let bd: u128 = other.cancelled_courses.len() as u128 + other.enforced_courses.len() as u128;
        if ad < bd {
            Some(core::cmp::Ordering::Less)
        } else if ad > bd {
            Some(core::cmp::Ordering::Greater)
        } else {
            let first = lex_cmp(&self.cancelled_courses, &other.cancelled_courses);
            if !(matches!(first, core::cmp::Ordering::Equal)) {
                Some(first)
            } else {
                Some(lex_cmp(&self.enforced_courses, &other.enforced_courses))
            }
        }
    }
}

impl vstd::std_specs::cmp::PartialOrdSpecImpl for BABNode {
    open spec fn obeys_partial_cmp_spec() -> bool {
        true
    }

    open spec fn partial_cmp_spec(&self, other: &BABNode) -> Option<core::cmp::Ordering> {
        Some(node_cmp(*self, *other))
    }
}

/// A node below another in the frontier order is at most as deep: the order
/// explores deeper nodes later, never earlier.
pub proof fn lemma_node_order_depth(a: BABNode, b: BABNode)
    requires
        node_cmp(a, b) == core::cmp::Ordering::Less,
    ensures
        node_depth(a) <= node_depth(b),
{
}

/// Nodes that compare equal have the same decision sets.
pub proof fn lemma_node_order_equal(a: BABNode, b: BABNode)
    requires
        node_cmp(a, b) == core::cmp::Ordering::Equal,
    ensures
        a.cancelled_courses@ == b.cancelled_courses@,
        a.enforced_courses@ == b.enforced_courses@,
{
    lemma_lex_equal(a.cancelled_courses@, b.cancelled_courses@);
    lemma_lex_equal(a.enforced_courses@, b.enforced_courses@);
}


/// Whether a vector of course indices mentions `x`.
fn vec_contains(v: &Vec<usize>, x: usize) -> (r: bool)
    ensures
        r == v@.contains(x),
{
    let mut i: usize = 0;
    while i < v.len()
        invariant
            i <= v@.len(),
            forall|j: int| 0 <= j < i ==> v@[j] != x,
        decreases v@.len() - i,
    {
        if v[i] == x {
            return true;
        }
        i += 1;
    }
    proof {
        if v@.contains(x) {
            let j = choose|j: int| 0 <= j < v@.len() && v@[j] == x;
            assert(v@[j] != x);
        }
    }
    false
}

/// The number of participants assigned to course `c` among the first `i`,
/// not counting the instructors on duty.
pub open spec fn course_size_prefix(
    assignment: Seq<usize>,
    mask: Seq<bool>,
    c: int,
    i: int,
) -> int
    decreases i,
{
    if i <= 0 {
        0
    } else {
        course_size_prefix(assignment, mask, c, i - 1) + if assignment[i - 1] == c && !mask[i
            - 1] {
            1int
        } else {
            0int
        }
    }
}

/// The number of participants assigned to course `c`, not counting the
/// instructors on duty.
pub open spec fn course_size(assignment: Seq<usize>, mask: Seq<bool>, c: int) -> int {
    course_size_prefix(assignment, mask, c, assignment.len() as int)
}

/// A candidate assignment is a valid solution for a node when every running
/// course's attendee count lies within its bounds, every cancelled course is
/// empty, and every instructor of an enforced course sits in that course.
pub open spec fn spec_feasible(
    courses: Seq<Course>,
    assignment: Seq<usize>,
    cancelled: Seq<usize>,
    enforced: Seq<usize>,
    mask: Seq<bool>,
) -> bool {
    &&& forall|c: int|
        0 <= c < courses.len() && !cancelled.contains(c as usize) ==> courses[c].num_min
            <= #[trigger] course_size(assignment, mask, c) <= courses[c].num_max
    &&& forall|c: int|
        0 <= c < courses.len() && cancelled.contains(c as usize) ==> #[trigger] course_size(
            assignment,
            mask,
            c,
        ) == 0
    &&& forall|c: int, k: int|
        0 <= c < courses.len() && enforced.contains(c as usize) && 0 <= k < courses[c].instructors@.len()
            ==> assignment[#[trigger] courses[c].instructors@[k] as int] == c
}

/// The relaxation placed somebody where they do not belong: an instructor of
/// a running course outside their course, or a participant who is not on
/// instructor duty outside their chosen courses.
pub open spec fn spec_violation(
    courses: Seq<Course>,
    participants: Seq<Participant>,
    assignment: Seq<usize>,
    cancelled: Seq<usize>,
    mask: Seq<bool>,
) -> bool {
    ||| exists|c: int, k: int|
        0 <= c < courses.len() && !cancelled.contains(c as usize) && 0 <= k < courses[c].instructors@.len()
            && assignment[#[trigger] courses[c].instructors@[k] as int] != c
    ||| exists|p: int|
        0 <= p < participants.len() && !mask[p] && !(#[trigger] participants[p].choices@.contains(
            assignment[p],
        ))
}

/// The shortfall of course `c` under the candidate assignment: how many
/// attendees it lacks, zero for cancelled or sufficiently filled courses.
pub open spec fn spec_deficit(
    courses: Seq<Course>,
    assignment: Seq<usize>,
    cancelled: Seq<usize>,
    mask: Seq<bool>,
    c: int,
) -> int {
    if cancelled.contains(c as usize) || course_size(assignment, mask, c) >= courses[c].num_min {
        0
    } else {
        courses[c].num_min - course_size(assignment, mask, c)
    }
}

/// Decide whether a relaxed assignment is a valid solution for the node and,
/// if it is not, find the most lacking course to branch on and report whether
/// somebody was placed where they do not belong.
pub fn check_feasibility(
    courses: &Vec<Course>,
    participants: &Vec<Participant>,
    assignment: &Vec<usize>,
    node: &BABNode,
    course_instructors: &Vec<bool>,
) -> (r: (bool, bool, Option<usize>))
    requires
        assignment@.len() == participants@.len(),
        course_instructors@.len() == participants@.len(),
        forall|p: int|
            0 <= p < assignment@.len() ==> (#[trigger] assignment@[p] as int) < courses@.len(),
        crate::courses_consistent(courses@, participants@.len() as int),
    ensures
        r.0 == spec_feasible(
            courses@,
            assignment@,
            node.cancelled_courses@,
            node.enforced_courses@,
            course_instructors@,
        ),
        r.1 == spec_violation(
            courses@,
            participants@,
            assignment@,
            node.cancelled_courses@,
            course_instructors@,
        ),
        r.2 is None <==> forall|c: int|
            0 <= c < courses@.len() ==> #[trigger] spec_deficit(
                courses@,
                assignment@,
                node.cancelled_courses@,
                course_instructors@,
                c,
            ) == 0,
        r.2 matches Some(b) ==> {
            let d = spec_deficit(
                courses@,
                assignment@,
                node.cancelled_courses@,
                course_instructors@,
                b as int,
            );
            &&& (b as int) < courses@.len()
            &&& d > 0
            &&& forall|c: int|
                0 <= c < courses@.len() ==> #[trigger] spec_deficit(
                    courses@,
                    assignment@,
                    node.cancelled_courses@,
                    course_instructors@,
                    c,
                ) <= d
            &&& forall|c: int|
                0 <= c < courses@.len() && spec_deficit(
                    courses@,
                    assignment@,
                    node.cancelled_courses@,
                    course_instructors@,
                    c,
                ) == d ==> b <= c
        },
{
    let num_courses = courses.len();
    let num_participants = participants.len();
    let ghost a = assignment@;
    let ghost m = course_instructors@;
    let ghost cancelled = node.cancelled_courses@;
    let ghost enforced = node.enforced_courses@;

    // Count each course's attendees, instructors on duty not included.
    let mut sizes: Vec<usize> = vec![0usize; num_courses];
    let mut p: usize = 0;
    while p < num_participants
        invariant
            p <= num_participants,
            num_participants == a.len(),
            num_participants == m.len(),
            a == assignment@,
            m == course_instructors@,
            sizes@.len() == courses@.len(),
            forall|pp: int| 0 <= pp < a.len() ==> (#[trigger] a[pp] as int) < courses@.len(),
            forall|c: int|
                0 <= c < courses@.len() ==> (#[trigger] sizes@[c]) as int == course_size_prefix(
                    a,
                    m,
                    c,
                    p as int,
                ),
            forall|c: int|
                0 <= c < courses@.len() ==> (#[trigger] sizes@[c]) as int <= p,
        decreases num_participants - p,
    {
        if !course_instructors[p] {
            let c = assignment[p];
            let cur = sizes[c];
            sizes.set(c, cur + 1);
        }
        p += 1;
    }

    // Walk the courses: capacity violations, the largest shortfall, and
    // instructors of running courses who sit elsewhere.
    let mut feasible = true;
    let mut violation = false;
    let mut branch: Option<usize> = None;
    let mut best_deficit: usize = 0;
    let mut c: usize = 0;
    while c < num_courses
        invariant
            c <= num_courses,
            num_courses == courses@.len(),
            a == assignment@,
            m == course_instructors@,
            cancelled == node.cancelled_courses@,
            enforced == node.enforced_courses@,
            a.len() == participants@.len(),
            m.len() == participants@.len(),
            sizes@.len() == courses@.len(),
            forall|p2: int| 0 <= p2 < a.len() ==> (#[trigger] a[p2] as int) < courses@.len(),
            crate::courses_consistent(courses@, participants@.len() as int),
            forall|cc: int|
                0 <= cc < courses@.len() ==> (#[trigger] sizes@[cc]) as int == course_size(a, m, cc),
            feasible == {
                &&& forall|cc: int|
                    0 <= cc < c && !cancelled.contains(cc as usize) ==> courses@[cc].num_min
                        <= #[trigger] course_size(a, m, cc) <= courses@[cc].num_max
                &&& forall|cc: int|
                    0 <= cc < c && cancelled.contains(cc as usize) ==> #[trigger] course_size(
                        a,
                        m,
                        cc,
                    ) == 0
                &&& forall|cc: int, k: int|
                    0 <= cc < c && enforced.contains(cc as usize) && 0 <= k < courses@[cc].instructors@.len()
                        ==> a[#[trigger] courses@[cc].instructors@[k] as int] == cc
            },
            violation == exists|cc: int, k: int|
                0 <= cc < c && !cancelled.contains(cc as usize) && 0 <= k < courses@[cc].instructors@.len()
                    && a[#[trigger] courses@[cc].instructors@[k] as int] != cc,
            branch is None <==> forall|cc: int|
                0 <= cc < c ==> #[trigger] spec_deficit(courses@, a, cancelled, m, cc) == 0,
            branch is None ==> best_deficit == 0,
            branch matches Some(b) ==> {
                &&& (b as int) < c
                &&& best_deficit as int == spec_deficit(courses@, a, cancelled, m, b as int)
                &&& best_deficit > 0
                &&& forall|cc: int|
                    0 <= cc < c ==> #[trigger] spec_deficit(courses@, a, cancelled, m, cc)
                        <= best_deficit as int
                &&& forall|cc: int|
                    0 <= cc < c && spec_deficit(courses@, a, cancelled, m, cc)
                        == best_deficit as int ==> b <= cc
            },
        decreases num_courses - c,
    {
        let is_cancelled = vec_contains(&node.cancelled_courses, c);
        let size = sizes[c];
        if is_cancelled {
            if size != 0 {
                feasible = false;
            }
        } else {
            if size < courses[c].num_min || size > courses[c].num_max {
                feasible = false;
            }
            if size < courses[c].num_min {
                let d = courses[c].num_min - size;
                if d > best_deficit {
                    best_deficit = d;
                    branch = Some(c);
                }
            }
            // Instructors of a running course must sit in it.
            let mut k: usize = 0;
            let num_instr = courses[c].instructors.len();
            while k < num_instr
                invariant
                    k <= num_instr,
                    c < num_courses,
                    num_courses == courses@.len(),
                    num_instr == courses@[c as int].instructors@.len(),
                    a == assignment@,
                    a.len() == participants@.len(),
                    crate::courses_consistent(courses@, participants@.len() as int),
                    !cancelled.contains(c),
                    cancelled == node.cancelled_courses@,
                    violation == {
                        ||| exists|cc: int, kk: int|
                            0 <= cc < c && !cancelled.contains(cc as usize) && 0 <= kk
                                < courses@[cc].instructors@.len() && a[#[trigger] courses@[
                                cc].instructors@[kk] as int] != cc
                        ||| exists|kk: int|
                            0 <= kk < k && a[#[trigger] courses@[c as int].instructors@[kk] as int]
                                != c
                    },
                decreases num_instr - k,
            {
                let instr = courses[c].instructors[k];
                if assignment[instr] != c {
                    violation = true;
                }
                k += 1;
            }
        }
        // Instructors of an enforced course must sit in it for feasibility.
        let is_enforced = vec_contains(&node.enforced_courses, c);
        if is_enforced {
            let mut k: usize = 0;
            let num_instr = courses[c].instructors.len();
            while k < num_instr
                invariant
                    k <= num_instr,
                    c < num_courses,
                    num_courses == courses@.len(),
                    num_instr == courses@[c as int].instructors@.len(),
                    a == assignment@,
                    a.len() == participants@.len(),
                    crate::courses_consistent(courses@, participants@.len() as int),
                    enforced.contains(c),
                    enforced == node.enforced_courses@,
                    cancelled == node.cancelled_courses@,
                    feasible == {
                        &&& forall|cc: int|
                            0 <= cc < c && !cancelled.contains(cc as usize) ==> courses@[cc].num_min
                                <= #[trigger] course_size(a, m, cc) <= courses@[cc].num_max
                        &&& forall|cc: int|
                            0 <= cc < c && cancelled.contains(cc as usize)
                                ==> #[trigger] course_size(a, m, cc) == 0
                        &&& (cancelled.contains(c) ==> course_size(a, m, c as int) == 0)
                        &&& (!cancelled.contains(c) ==> courses@[c as int].num_min <= course_size(
                            a,
                            m,
                            c as int,
                        ) <= courses@[c as int].num_max)
                        &&& forall|cc: int, kk: int|
                            0 <= cc < c && enforced.contains(cc as usize) && 0 <= kk
                                < courses@[cc].instructors@.len() ==> a[#[trigger] courses@[
                                cc].instructors@[kk] as int] == cc
                        &&& forall|kk: int|
                            0 <= kk < k ==> a[#[trigger] courses@[c as int].instructors@[kk] as int]
                                == c
                    },
                    m == course_instructors@,
                    sizes@.len() == courses@.len(),
                    forall|cc: int|
                        0 <= cc < courses@.len() ==> (#[trigger] sizes@[cc]) as int == course_size(
                            a,
                            m,
                            cc,
                        ),
                decreases num_instr - k,
            {
                let instr = courses[c].instructors[k];
                if assignment[instr] != c {
                    feasible = false;
                }
                k += 1;
            }
        }
        proof {
            let ci = c as int;
            if is_cancelled || size as int >= courses@[ci].num_min {
                assert(spec_deficit(courses@, a, cancelled, m, ci) == 0);
            } else {
                assert(spec_deficit(courses@, a, cancelled, m, ci) == courses@[ci].num_min
                    - size as int);
            }
        }
        c += 1;
    }

    // Participants not on instructor duty must sit in a course they chose.
    let mut p: usize = 0;
    while p < num_participants
        invariant
            p <= num_participants,
            num_participants == participants@.len(),
            a == assignment@,
            m == course_instructors@,
            a.len() == participants@.len(),
            m.len() == participants@.len(),
            cancelled == node.cancelled_courses@,
            num_courses == courses@.len(),
            violation == {
                ||| exists|cc: int, kk: int|
                    0 <= cc < courses@.len() && !cancelled.contains(cc as usize) && 0 <= kk
                        < courses@[cc].instructors@.len() && a[#[trigger] courses@[
                        cc].instructors@[kk] as int] != cc
                ||| exists|pp: int|
                    0 <= pp < p && !m[pp] && !(#[trigger] participants@[pp].choices@.contains(
                        a[pp],
                    ))
            },
        decreases num_participants - p,
    {
        if !course_instructors[p] {
            if !vec_contains(&participants[p].choices, assignment[p]) {
                violation = true;
            }
        }
        p += 1;
    }

    (feasible, violation, branch)
}


/// Course capacity bounds are sane: a positive minimum no larger than the
/// maximum.
pub open spec fn courses_bounds(courses: Seq<Course>) -> bool {
    forall|c: int|
        0 <= c < courses.len() ==> 0 < (#[trigger] courses[c].num_min) <= courses[c].num_max
}

/// No course is decided both ways: the cancelled and enforced sets share no
/// member.  The driver only ever creates such nodes, and the evaluator
/// returns `NoSolution` for any other.
pub open spec fn node_sets_disjoint(cancelled: Seq<usize>, enforced: Seq<usize>) -> bool {
    forall|c: usize| !(#[trigger] cancelled.contains(c) && enforced.contains(c))
}

/// Participant `p` is on instructor duty: they teach some course that is not
/// cancelled, and will be seated in their course rather than matched by
/// preference.
pub open spec fn spec_on_duty(courses: Seq<Course>, cancelled: Seq<usize>, p: int) -> bool {
    exists|c: int, k: int|
        0 <= c < courses.len() && !cancelled.contains(c as usize) && 0 <= k < courses[c].instructors@.len()
            && (#[trigger] courses[c].instructors@[k]) == p
}

/// The instructor-duty mask over all participants.
pub open spec fn duty_mask(courses: Seq<Course>, cancelled: Seq<usize>, num_p: int) -> Seq<bool> {
    Seq::new(num_p as nat, |p: int| spec_on_duty(courses, cancelled, p))
}

/// How many of the first `i` participants are on instructor duty.
pub open spec fn count_mask_prefix(m: Seq<bool>, i: int) -> int
    decreases i,
{
    if i <= 0 {
        0
    } else {
        count_mask_prefix(m, i - 1) + if m[i - 1] {
            1int
        } else {
            0int
        }
    }
}

/// The preference-weighted value of an assignment over the first `i`
/// participants: an instructor on duty counts the full offset, everyone else
/// counts the weight of the course they were given.
pub open spec fn assignment_score_prefix(
    participants: Seq<Participant>,
    a: Seq<usize>,
    m: Seq<bool>,
    i: int,
) -> int
    decreases i,
{
    if i <= 0 {
        0
    } else {
        assignment_score_prefix(participants, a, m, i - 1) + if m[i - 1] {
            WEIGHT_OFFSET as int
        } else {
            pref_weight(participants[i - 1].choices@, a[i - 1]) as int
        }
    }
}

/// The preference-weighted value of a full assignment.
pub open spec fn assignment_score(
    participants: Seq<Participant>,
    a: Seq<usize>,
    m: Seq<bool>,
) -> int {
    assignment_score_prefix(participants, a, m, participants.len() as int)
}

/// The weight matrix a node hands to the matcher: rows of instructors on
/// duty and columns of cancelled courses are zeroed, the rest keeps the
/// precomputed preference weights.
pub open spec fn spec_node_weight(
    pr: Problem,
    cancelled_flag: Seq<bool>,
    m: Seq<bool>,
    num_p: int,
    x: int,
    y: int,
) -> u16 {
    if x < num_p && m[x] {
        0u16
    } else if cancelled_flag[pr.course_map@[y] as int] {
        0u16
    } else {
        pr.adjacency_matrix.spec_at(x, y)
    }
}

/// A preference weight never exceeds the offset.
pub proof fn lemma_pref_weight_le(choices: Seq<usize>, c: usize)
    requires
        choices.len() <= NUM_WEIGHTS,
    ensures
        pref_weight(choices, c) <= WEIGHT_OFFSET,
{
    choices.index_of_first_ensures(c);
}

/// Matched rows past `p` that hold only zeroes add nothing to the weight.
pub proof fn lemma_matching_weight_zero_suffix(w: Matrix, s: Seq<usize>, p: int, k: int)
    requires
        0 <= p <= k,
        forall|x: int, y: int|
            p <= x < k && 0 <= y < w.n ==> (#[trigger] w.spec_at(x, y)) == 0,
        forall|x: int| 0 <= x < k ==> ((#[trigger] s[x]) as int) < w.n,
        k <= s.len(),
    ensures
        crate::hungarian::matching_weight(w, s, k) == crate::hungarian::matching_weight(w, s, p),
    decreases k - p,
{
    if p < k {
        lemma_matching_weight_zero_suffix(w, s, p, k - 1);
    }
}

/// Someone counted by `course_size` makes it positive.
pub proof fn lemma_course_size_member(a: Seq<usize>, m: Seq<bool>, c: int, p0: int, i: int)
    requires
        0 <= p0 < i <= a.len(),
        a[p0] == c,
        0 <= p0 < m.len(),
        !m[p0],
    ensures
        course_size_prefix(a, m, c, i) >= 1,
    decreases i,
{
    lemma_course_size_nonneg(a, m, c, p0);
    if p0 == i - 1 {
    } else {
        lemma_course_size_member(a, m, c, p0, i - 1);
    }
}

/// A count of participants is never negative.
pub proof fn lemma_course_size_nonneg(a: Seq<usize>, m: Seq<bool>, c: int, i: int)
    ensures
        course_size_prefix(a, m, c, i) >= 0,
    decreases i,
{
    if i > 0 {
        lemma_course_size_nonneg(a, m, c, i - 1);
    }
}

/// The matcher's total over the participant rows, plus the full offset for
/// every instructor on duty, is exactly the assignment's preference value.
pub proof fn lemma_score_conversion(
    w: Matrix,
    participants: Seq<Participant>,
    a: Seq<usize>,
    m: Seq<bool>,
    s: Seq<usize>,
    i: int,
)
    requires
        0 <= i <= participants.len(),
        participants.len() <= s.len(),
        participants.len() <= a.len(),
        participants.len() <= m.len(),
        forall|x: int|
            0 <= x < participants.len() && m[x] ==> (#[trigger] w.spec_at(
                x,
                s[x] as int,
            )) == 0,
        forall|x: int|
            0 <= x < participants.len() && !m[x] ==> (#[trigger] w.spec_at(x, s[x] as int))
                == pref_weight(participants[x].choices@, a[x]),
    ensures
        crate::hungarian::matching_weight(w, s, i) + (WEIGHT_OFFSET as int) * count_mask_prefix(
            m,
            i,
        ) == assignment_score_prefix(participants, a, m, i),
    decreases i,
{
    if i > 0 {
        lemma_score_conversion(w, participants, a, m, s, i - 1);
        assert((WEIGHT_OFFSET as int) * count_mask_prefix(m, i) == (WEIGHT_OFFSET as int)
            * count_mask_prefix(m, i - 1) + (WEIGHT_OFFSET as int) * (count_mask_prefix(m, i)
            - count_mask_prefix(m, i - 1))) by (nonlinear_arith);
    }
}

/// An upper bound on any matching's weight when every entry is bounded.
pub proof fn lemma_matching_weight_le(w: Matrix, s: Seq<usize>, k: int)
    requires
        0 <= k <= s.len(),
        forall|x: int, y: int|
            0 <= x < w.n && 0 <= y < w.n ==> (#[trigger] w.spec_at(x, y)) <= WEIGHT_OFFSET,
        forall|x: int| 0 <= x < k ==> ((#[trigger] s[x]) as int) < w.n,
        k <= w.n,
    ensures
        0 <= crate::hungarian::matching_weight(w, s, k) <= k * (WEIGHT_OFFSET as int),
    decreases k,
{
    if k > 0 {
        lemma_matching_weight_le(w, s, k - 1);
        assert(k * (WEIGHT_OFFSET as int) == (k - 1) * (WEIGHT_OFFSET as int) + (
        WEIGHT_OFFSET as int)) by (nonlinear_arith);
    }
}

/// A duty count is bounded by the number counted over.
pub proof fn lemma_count_mask_le(m: Seq<bool>, i: int)
    requires
        0 <= i,
    ensures
        0 <= count_mask_prefix(m, i) <= i,
    decreases i,
{
    if i > 0 {
        lemma_count_mask_le(m, i - 1);
    }
}



/// For each course, whether the node cancelled it.
pub open spec fn spec_cancelled_flags(courses: Seq<Course>, cancelled: Seq<usize>) -> Seq<bool> {
    Seq::new(courses.len(), |c: int| cancelled.contains(c as usize))
}

/// The rows the node's matcher may not seat in mandatory columns: fillers
/// beyond the participants and instructors on duty.
pub open spec fn spec_node_dummy(
    courses: Seq<Course>,
    cancelled: Seq<usize>,
    num_p: int,
    n: int,
) -> Seq<bool> {
    Seq::new(n as nat, |x: int| x >= num_p || duty_mask(courses, cancelled, num_p)[x])
}

/// The columns the node's matcher must fill with free participants: the first
/// `num_min` places of every enforced course.
pub open spec fn spec_mandatory(courses: Seq<Course>, enforced: Seq<usize>, n: int) -> Seq<bool> {
    Seq::new(
        n as nat,
        |y: int|
            exists|c: int|
                0 <= c < courses.len() && #[trigger] enforced.contains(c as usize)
                    && sum_num_max_prefix(courses, c) <= y < sum_num_max_prefix(courses, c)
                    + courses[c].num_min,
    )
}

/// The score reported with an infeasible node is the exact value of the
/// node's relaxation: a maximum-weight matching of the node's weight matrix
/// (instructors on duty and cancelled columns zeroed, mandatory columns kept
/// from fillers), plus the full offset for every instructor on duty.  Feasible
/// descendants can only lose weight, so this score prunes soundly.
#[verifier::opaque]
pub open spec fn spec_relaxation_score(
    pr: Problem,
    courses: Seq<Course>,
    participants: Seq<Participant>,
    cancelled: Seq<usize>,
    enforced: Seq<usize>,
    wm: Matrix,
    sigma: Seq<usize>,
    s: int,
) -> bool {
    let n = sum_num_max(courses);
    let num_p = participants.len() as int;
    let m = duty_mask(courses, cancelled, num_p);
    let dummy = spec_node_dummy(courses, cancelled, num_p, n);
    let mandatory = spec_mandatory(courses, enforced, n);
    &&& wm.wf()
    &&& wm.n == n
    &&& (forall|x: int, y: int|
        0 <= x < n && 0 <= y < n ==> (#[trigger] wm.spec_at(x, y)) == spec_node_weight(
            pr,
            spec_cancelled_flags(courses, cancelled),
            m,
            num_p,
            x,
            y,
        ))
    &&& crate::hungarian::is_permutation(sigma, n)
    &&& (forall|i: int| 0 <= i < n && dummy[i] ==> !mandatory[(#[trigger] sigma[i]) as int])
    &&& s == crate::hungarian::matching_weight(wm, sigma, n) + (WEIGHT_OFFSET as int)
        * count_mask_prefix(m, num_p)
    &&& (forall|t: Seq<usize>|
        crate::hungarian::is_permutation(t, n) && (forall|i: int|
            0 <= i < n && dummy[i] ==> !mandatory[(#[trigger] t[i]) as int])
            ==> #[trigger] crate::hungarian::matching_weight(wm, t, n)
            <= crate::hungarian::matching_weight(wm, sigma, n))
}

/// What the branching oracle reported of the relaxation's assignment `a` when
/// the node was judged infeasible with branch course `bc` and violation flag
/// `v`: the assignment is not acceptable, `v` is exactly the violation flag,
/// and `bc` is the course with the largest shortfall, lowest index first.
#[verifier::opaque]
pub open spec fn spec_branch_report(
    courses: Seq<Course>,
    participants: Seq<Participant>,
    cancelled: Seq<usize>,
    enforced: Seq<usize>,
    a: Seq<usize>,
    v: bool,
    bc: usize,
) -> bool {
    let m = duty_mask(courses, cancelled, participants.len() as int);
    &&& a.len() == participants.len()
    &&& (forall|p: int| 0 <= p < a.len() ==> ((#[trigger] a[p]) as int) < courses.len())
    &&& !(spec_feasible(courses, a, cancelled, enforced, m) && !spec_violation(
        courses,
        participants,
        a,
        cancelled,
        m,
    ))
    &&& v == spec_violation(courses, participants, a, cancelled, m)
    &&& spec_deficit(courses, a, cancelled, m, bc as int) > 0
    &&& (forall|c: int|
        0 <= c < courses.len() ==> #[trigger] spec_deficit(courses, a, cancelled, m, c)
            <= spec_deficit(courses, a, cancelled, m, bc as int))
    &&& (forall|c: int|
        0 <= c < courses.len() && spec_deficit(courses, a, cancelled, m, c) == spec_deficit(
            courses,
            a,
            cancelled,
            m,
            bc as int,
        ) ==> bc as int <= c)
}

/// Evaluate one search node: adapt the precomputed matrix to the node's
/// cancelled and enforced sets, run the matcher, seat the instructors on
/// duty, and judge the outcome.  Yields a valid assignment with its exact
/// preference value, or the course to branch on together with the
/// relaxation's score, or nothing when the node admits no acceptable
/// matching.
pub fn run_bab_node(
    courses: &Vec<Course>,
    participants: &Vec<Participant>,
    problem: &Problem,
    node: BABNode,
) -> (r: crate::bab::NodeResult)
    requires
        precompute_pre(courses@, participants@),
        problem_wf(*problem, courses@, participants@),
        crate::courses_consistent(courses@, participants@.len() as int),
        courses_bounds(courses@),
    ensures
        r matches crate::bab::NodeResult::Feasible(a, s) ==> {
            let m = duty_mask(courses@, node.cancelled_courses@, participants@.len() as int);
            &&& a@.len() == participants@.len()
            &&& forall|p: int| 0 <= p < a@.len() ==> ((#[trigger] a@[p]) as int) < courses@.len()
            &&& spec_feasible(courses@, a@, node.cancelled_courses@, node.enforced_courses@, m)
            &&& !spec_violation(courses@, participants@, a@, node.cancelled_courses@, m)
            &&& s as int == assignment_score(participants@, a@, m)
        },
        r matches crate::bab::NodeResult::Infeasible(bc, v, s) ==> {
            &&& (bc as int) < courses@.len()
            &&& !node.cancelled_courses@.contains(bc)
        },
        r is Infeasible ==> exists|a: Seq<usize>| #[trigger] spec_branch_report(
            courses@,
            participants@,
            node.cancelled_courses@,
            node.enforced_courses@,
            a,
            r->Infeasible_1,
            r->Infeasible_0,
        ),
        r is Infeasible ==> exists|wm: Matrix, sigma: Seq<usize>| #[trigger] spec_relaxation_score(
            *problem,
            courses@,
            participants@,
            node.cancelled_courses@,
            node.enforced_courses@,
            wm,
            sigma,
            r->Infeasible_2 as int,
        ),
        !node_sets_disjoint(node.cancelled_courses@, node.enforced_courses@) ==> r
            is NoSolution,
{
    let num_courses = courses.len();
    let num_participants = participants.len();
    let n = problem.course_map.len();
    let ghost cancelled = node.cancelled_courses@;
    let ghost enforced = node.enforced_courses@;

    // A course decided both ways at once admits nothing.
    let mut ci: usize = 0;
    while ci < node.cancelled_courses.len()
        invariant
            ci <= cancelled.len(),
            cancelled == node.cancelled_courses@,
            enforced == node.enforced_courses@,
            forall|k: int| 0 <= k < ci ==> !enforced.contains(#[trigger] cancelled[k]),
        decreases cancelled.len() - ci,
    {
        if vec_contains(&node.enforced_courses, node.cancelled_courses[ci]) {
            return crate::bab::NodeResult::NoSolution;
        }
        ci += 1;
    }
    proof {
        assert forall|c: usize| !(#[trigger] cancelled.contains(c) && enforced.contains(c)) by {
            if cancelled.contains(c) {
                let k = choose|k: int| 0 <= k < cancelled.len() && cancelled[k] == c;
                assert(!enforced.contains(cancelled[k]));
            }
        }
        assert(node_sets_disjoint(cancelled, enforced));
    }

    // Which courses are cancelled, as a flag per course.
    let mut cancelled_flag: Vec<bool> = Vec::new();
    let mut c: usize = 0;
    while c < num_courses
        invariant
            c <= num_courses,
            num_courses == courses@.len(),
            cancelled == node.cancelled_courses@,
            cancelled_flag@.len() == c,
            forall|cc: int|
                0 <= cc < c ==> (#[trigger] cancelled_flag@[cc]) == cancelled.contains(
                    cc as usize,
                ),
        decreases num_courses - c,
    {
        cancelled_flag.push(vec_contains(&node.cancelled_courses, c));
        c += 1;
    }

    // The instructor-duty mask, and each on-duty instructor's seat: the
    // first running course they teach.
    let mut mask: Vec<bool> = vec![false; num_participants];
    let mut assignment: Vec<usize> = vec![0usize; num_participants];
    let mut c: usize = 0;
    while c < num_courses
        invariant
            c <= num_courses,
            num_courses == courses@.len(),
            num_participants == participants@.len(),
            cancelled == node.cancelled_courses@,
            crate::courses_consistent(courses@, participants@.len() as int),
            mask@.len() == num_participants,
            assignment@.len() == num_participants,
            cancelled_flag@.len() == num_courses,
            forall|cc: int|
                0 <= cc < num_courses ==> (#[trigger] cancelled_flag@[cc]) == cancelled.contains(
                    cc as usize,
                ),
            forall|p: int|
                0 <= p < num_participants ==> ((#[trigger] mask@[p]) <==> exists|cc: int, k: int|
                    0 <= cc < c && !cancelled.contains(cc as usize) && 0 <= k < courses@[cc].instructors@.len()
                        && (#[trigger] courses@[cc].instructors@[k]) == p),
            forall|p: int|
                0 <= p < num_participants && mask@[p] ==> ((#[trigger] assignment@[p]) as int)
                    < courses@.len(),
        decreases num_courses - c,
    {
        if !cancelled_flag[c] {
            let mut k: usize = 0;
            let num_instr = courses[c].instructors.len();
            while k < num_instr
                invariant
                    k <= num_instr,
                    c < num_courses,
                    num_courses == courses@.len(),
                    num_participants == participants@.len(),
                    num_instr == courses@[c as int].instructors@.len(),
                    cancelled == node.cancelled_courses@,
                    !cancelled.contains(c),
                    crate::courses_consistent(courses@, participants@.len() as int),
                    mask@.len() == num_participants,
                    assignment@.len() == num_participants,
                    forall|p: int|
                        0 <= p < num_participants ==> ((#[trigger] mask@[p]) <==> {
                            ||| exists|cc: int, kk: int|
                                0 <= cc < c && !cancelled.contains(cc as usize) && 0 <= kk
                                    < courses@[cc].instructors@.len() && (#[trigger] courses@[
                                cc].instructors@[kk]) == p
                            ||| exists|kk: int|
                                0 <= kk < k && (#[trigger] courses@[c as int].instructors@[kk])
                                    == p
                        }),
                    forall|p: int|
                        0 <= p < num_participants && mask@[p] ==> ((#[trigger] assignment@[
                        p]) as int) < courses@.len(),
                decreases num_instr - k,
            {
                let instr = courses[c].instructors[k];
                if !mask[instr] {
                    mask.set(instr, true);
                    assignment.set(instr, c);
                }
                proof {
                    assert(courses@[c as int].instructors@[k as int] == instr);
                }
                k += 1;
            }
        }
        c += 1;
    }
    proof {
        assert forall|p: int|
            0 <= p < num_participants implies ((#[trigger] mask@[p]) == spec_on_duty(
            courses@,
            cancelled,
            p,
        )) by {
        }
        assert(mask@ =~= duty_mask(courses@, cancelled, num_participants as int));
    }
    let ghost m = mask@;

    // Count the instructors on duty.
    let mut duty_count: usize = 0;
    let mut p: usize = 0;
    while p < num_participants
        invariant
            p <= num_participants,
            num_participants == m.len(),
            m == mask@,
            duty_count as int == count_mask_prefix(m, p as int),
            duty_count <= p,
        decreases num_participants - p,
    {
        if mask[p] {
            duty_count += 1;
        }
        p += 1;
    }

    // The node's weight matrix: zero the rows of instructors on duty and the
    // columns of cancelled courses.
    proof {
        assert((n as int) * (n as int) <= 1_600_000_000) by (nonlinear_arith)
            requires
                0 <= n <= 40000,
        ;
    }
    let mut w = Matrix::zeroes(n);
    let mut x: usize = 0;
    while x < n
        invariant
            x <= n,
            n == problem.course_map@.len(),
            problem_wf(*problem, courses@, participants@),
            num_participants == participants@.len(),
            num_courses == courses@.len(),
            m == mask@,
            m.len() == num_participants,
            cancelled_flag@.len() == num_courses,
            w.wf(),
            w.n == n,
            forall|x2: int, y: int|
                0 <= x2 < x && 0 <= y < n ==> (#[trigger] w.spec_at(x2, y)) == spec_node_weight(
                    *problem,
                    cancelled_flag@,
                    m,
                    num_participants as int,
                    x2,
                    y,
                ),
            forall|x2: int, y: int|
                x <= x2 < n && 0 <= y < n ==> (#[trigger] w.spec_at(x2, y)) == 0,
        decreases n - x,
    {
        let row_masked = if x < num_participants {
            mask[x]
        } else {
            false
        };
        let mut y: usize = 0;
        while y < n
            invariant
                y <= n,
                x < n,
                n == problem.course_map@.len(),
                problem_wf(*problem, courses@, participants@),
                num_participants == participants@.len(),
                num_courses == courses@.len(),
                m == mask@,
                m.len() == num_participants,
                cancelled_flag@.len() == num_courses,
                row_masked == ((x as int) < num_participants && m[x as int]),
                w.wf(),
                w.n == n,
                forall|x2: int, yy: int|
                    0 <= x2 < x && 0 <= yy < n ==> (#[trigger] w.spec_at(x2, yy))
                        == spec_node_weight(
                        *problem,
                        cancelled_flag@,
                        m,
                        num_participants as int,
                        x2,
                        yy,
                    ),
                forall|yy: int|
                    0 <= yy < y ==> (#[trigger] w.spec_at(x as int, yy)) == spec_node_weight(
                        *problem,
                        cancelled_flag@,
                        m,
                        num_participants as int,
                        x as int,
                        yy,
                    ),
                forall|yy: int| y <= yy < n ==> (#[trigger] w.spec_at(x as int, yy)) == 0,
                forall|x2: int, yy: int|
                    x < x2 < n && 0 <= yy < n ==> (#[trigger] w.spec_at(x2, yy)) == 0,
        decreases n - y,
        {
            if !row_masked {
                let cm = problem.course_map[y];
                if !cancelled_flag[cm] {
                    let entry = problem.adjacency_matrix.at(x, y);
                    if entry > 0 {
                        w.set(x, y, entry);
                    }
                }
            }
            y += 1;
        }
        x += 1;
    }

    // Rows the matcher must keep out of mandatory columns: fillers and
    // instructors on duty.
    let mut dummy2: Vec<bool> = Vec::new();
    let mut x: usize = 0;
    while x < n
        invariant
            x <= n,
            m == mask@,
            m.len() == num_participants,
            dummy2@.len() == x,
            forall|i: int|
                0 <= i < x ==> (#[trigger] dummy2@[i]) == (i >= num_participants || m[i]),
        decreases n - x,
    {
        if x < num_participants {
            dummy2.push(mask[x]);
        } else {
            dummy2.push(true);
        }
        x += 1;
    }

    // Columns that must be filled by real, free participants: the minimum
    // size of every enforced course.
    let mut mandatory: Vec<bool> = vec![false; n];
    let mut c: usize = 0;
    while c < num_courses
        invariant
            c <= num_courses,
            num_courses == courses@.len(),
            n as int == sum_num_max(courses@),
            enforced == node.enforced_courses@,
            courses_bounds(courses@),
            problem_wf(*problem, courses@, participants@),
            mandatory@.len() == n,
            forall|y: int|
                0 <= y < n ==> ((#[trigger] mandatory@[y]) <==> exists|cc: int|
                    0 <= cc < c && #[trigger] enforced.contains(cc as usize)
                        && sum_num_max_prefix(courses@, cc) <= y < sum_num_max_prefix(courses@, cc)
                        + courses@[cc].num_min),
        decreases num_courses - c,
    {
        let c_enforced = vec_contains(&node.enforced_courses, c);
        if c_enforced {
            let base = problem.inverse_course_map[c];
            let mut j: usize = 0;
            let nm = courses[c].num_min;
            while j < nm
                invariant
                    j <= nm,
                    c < num_courses,
                    num_courses == courses@.len(),
                    n as int == sum_num_max(courses@),
                    nm == courses@[c as int].num_min,
                    courses_bounds(courses@),
                    problem_wf(*problem, courses@, participants@),
                    base as int == sum_num_max_prefix(courses@, c as int),
                    mandatory@.len() == n,
                    enforced == node.enforced_courses@,
                    enforced.contains(c),
                    forall|y: int|
                        0 <= y < n ==> ((#[trigger] mandatory@[y]) <==> {
                            ||| exists|cc: int|
                                0 <= cc < c && #[trigger] enforced.contains(cc as usize)
                                    && sum_num_max_prefix(courses@, cc) <= y
                                    < sum_num_max_prefix(courses@, cc) + courses@[cc].num_min
                            ||| base <= y < base + j
                        }),
                decreases nm - j,
            {
                proof {
                    lemma_sum_num_max_prefix_mono(courses@, c as int + 1, num_courses as int);
                    lemma_sum_num_max_prefix_mono(courses@, 0, c as int);
                }
                mandatory.set(base + j, true);
                j += 1;
            }
            proof {
                assert forall|y: int|
                    0 <= y < n implies ((#[trigger] mandatory@[y]) <==> exists|cc: int|
                    0 <= cc < c + 1 && #[trigger] enforced.contains(cc as usize)
                        && sum_num_max_prefix(courses@, cc) <= y < sum_num_max_prefix(courses@, cc)
                        + courses@[cc].num_min) by {
                    if mandatory@[y] {
                        if base <= y < base + nm {
                            assert(enforced.contains(c as usize));
                            assert(sum_num_max_prefix(courses@, c as int) <= y
                                < sum_num_max_prefix(courses@, c as int) + courses@[
                                c as int].num_min);
                        }
                    }
                }
            }
        } else {
            proof {
                assert forall|y: int|
                    0 <= y < n implies ((#[trigger] mandatory@[y]) <==> exists|cc: int|
                    0 <= cc < c + 1 && #[trigger] enforced.contains(cc as usize)
                        && sum_num_max_prefix(courses@, cc) <= y < sum_num_max_prefix(courses@, cc)
                        + courses@[cc].num_min) by {
                    if !mandatory@[y] {
                        if exists|cc: int|
                            0 <= cc < c + 1 && #[trigger] enforced.contains(cc as usize)
                                && sum_num_max_prefix(courses@, cc) <= y < sum_num_max_prefix(
                                courses@,
                                cc,
                            ) + courses@[cc].num_min {
                            let cc = choose|cc: int|
                                0 <= cc < c + 1 && #[trigger] enforced.contains(cc as usize)
                                    && sum_num_max_prefix(courses@, cc) <= y < sum_num_max_prefix(
                                    courses@,
                                    cc,
                                ) + courses@[cc].num_min;
                            assert(cc < c);
                        }
                    }
                }
            }
        }
        c += 1;
    }
    proof {
        assert(mandatory@ =~= spec_mandatory(courses@, enforced, n as int));
        assert(dummy2@ =~= spec_node_dummy(courses@, cancelled, num_participants as int, n as int));
        assert(cancelled_flag@ =~= spec_cancelled_flags(courses@, cancelled));
    }

    // Everything the matcher needs holds of the node matrix.
    proof {
        assert forall|x2: int, y: int|
            0 <= x2 < n && 0 <= y < n implies (#[trigger] w.spec_at(x2, y)) <= WEIGHT_OFFSET by {
            if x2 < num_participants {
                lemma_pref_weight_le(participants@[x2].choices@, problem.course_map@[y]);
            }
        }
    }
    let result = crate::hungarian::hungarian_algorithm(&w, &dummy2, &mandatory);
    let (sigma, hscore) = match result {
        Some(pair) => pair,
        None => {
            return crate::bab::NodeResult::NoSolution;
        },
    };

    // Seat the free participants where the matcher put them.
    let mut p: usize = 0;
    while p < num_participants
        invariant
            p <= num_participants,
            num_participants == participants@.len(),
            num_participants <= n,
            n == problem.course_map@.len(),
            problem_wf(*problem, courses@, participants@),
            num_courses == courses@.len(),
            m == mask@,
            m.len() == num_participants,
            sigma@.len() == n,
            crate::hungarian::is_permutation(sigma@, n as int),
            assignment@.len() == num_participants,
            forall|pp: int|
                0 <= pp < num_participants && m[pp] ==> ((#[trigger] assignment@[pp]) as int)
                    < courses@.len(),
            forall|pp: int|
                0 <= pp < p && !m[pp] ==> (#[trigger] assignment@[pp]) == problem.course_map@[
                    sigma@[pp] as int],
        decreases num_participants - p,
    {
        if !mask[p] {
            assignment.set(p, problem.course_map[sigma[p]]);
        }
        p += 1;
    }
    let ghost a = assignment@;

    // The relaxation's exact value: the matcher's total plus the full offset
    // for every instructor on duty.
    proof {
        lemma_matching_weight_le(w, sigma@, n as int);
        lemma_count_mask_le(m, num_participants as int);
        assert((n as int) * (WEIGHT_OFFSET as int) <= 2_000_000_000) by (nonlinear_arith)
            requires
                0 <= n as int <= 40000,
        ;
        assert((WEIGHT_OFFSET as int) * (duty_count as int) <= 2_000_000_000) by (nonlinear_arith)
            requires
                0 <= duty_count as int <= 40000,
                duty_count as int <= num_participants as int,
                num_participants <= 40000,
        ;
    }
    let total: u64 = hscore as u64 + (WEIGHT_OFFSET as u64) * (duty_count as u64);
    let score: u32 = total as u32;

    // Judge the outcome.
    let (feasible, violation, branch) = check_feasibility(
        courses,
        participants,
        &assignment,
        &node,
        &mask,
    );
    if feasible && !violation {
        proof {
            // Rows past the participants hold only zeroes, so the matcher's
            // total is a total over the participants.
            assert forall|x2: int, y: int|
                num_participants <= x2 < n && 0 <= y < n implies (#[trigger] w.spec_at(
                x2,
                y,
            )) == 0 by {
            }
            lemma_matching_weight_zero_suffix(w, sigma@, num_participants as int, n as int);
            // Every free participant sits in a running course, so their
            // matrix entry is their preference weight.
            assert forall|x2: int|
                0 <= x2 < num_participants && !m[x2] implies (#[trigger] w.spec_at(
                x2,
                sigma@[x2] as int,
            )) == pref_weight(participants@[x2].choices@, a[x2]) by {
                let sy = sigma@[x2] as int;
                assert(0 <= sy < n);
                assert(w.spec_at(x2, sy) == spec_node_weight(
                    *problem,
                    cancelled_flag@,
                    m,
                    num_participants as int,
                    x2,
                    sy,
                ));
                let cy = problem.course_map@[sy] as int;
                assert(0 <= cy < courses@.len());
                assert(a[x2] as int == cy);
                if cancelled_flag@[cy] {
                    assert(node.cancelled_courses@.contains(cy as usize));
                    assert(course_size(a, m, cy) == 0);
                    lemma_course_size_member(a, m, cy, x2, a.len() as int);
                    assert(false);
                } else {
                    assert(w.spec_at(x2, sy) == problem.adjacency_matrix.spec_at(x2, sy));
                    assert(problem.adjacency_matrix.spec_at(x2, sy) == expected_weight(
                        participants@,
                        problem.course_map@,
                        x2,
                        sy,
                    ));
                }
            }
            lemma_score_conversion(w, participants@, a, m, sigma@, num_participants as int);
        }
        return crate::bab::NodeResult::Feasible(assignment, score);
    } else if let Some(bc) = branch {
        proof {
            reveal(spec_branch_report);
            assert(m == duty_mask(courses@, node.cancelled_courses@, participants@.len() as int));
            assert(spec_branch_report(
                courses@,
                participants@,
                node.cancelled_courses@,
                node.enforced_courses@,
                a,
                violation,
                bc,
            ));
        }
        let res = crate::bab::NodeResult::Infeasible(bc, violation, score);
        proof {
            assert(res->Infeasible_1 == violation && res->Infeasible_0 == bc);
            assert(exists|aw: Seq<usize>| #[trigger] spec_branch_report(
                courses@,
                participants@,
                node.cancelled_courses@,
                node.enforced_courses@,
                aw,
                res->Infeasible_1,
                res->Infeasible_0,
            ));
            reveal(spec_relaxation_score);
            assert(spec_relaxation_score(
                *problem,
                courses@,
                participants@,
                node.cancelled_courses@,
                node.enforced_courses@,
                w,
                sigma@,
                res->Infeasible_2 as int,
            ));
            assert(exists|wm: Matrix, sg: Seq<usize>| #[trigger] spec_relaxation_score(
                *problem,
                courses@,
                participants@,
                node.cancelled_courses@,
                node.enforced_courses@,
                wm,
                sg,
                res->Infeasible_2 as int,
            ));
        }
        return res;
    } else {
        return crate::bab::NodeResult::NoSolution;
    }
}


/// An exact copy of an index vector.
fn clone_vec_usize(v: &Vec<usize>) -> (r: Vec<usize>)
    ensures
        r@ == v@,
{
    let mut r: Vec<usize> = Vec::new();
    let mut i: usize = 0;
    while i < v.len()
        invariant
            i <= v@.len(),
            r@ == v@.take(i as int),
        decreases v@.len() - i,
    {
        r.push(v[i]);
        proof {
            assert(r@ =~= v@.take(i + 1));
        }
        i += 1;
    }
    proof {
        assert(v@.take(v@.len() as int) =~= v@);
    }
    r
}

/// An exact copy of a search node.
fn clone_node(n: &BABNode) -> (r: BABNode)
    ensures
        r.cancelled_courses@ == n.cancelled_courses@,
        r.enforced_courses@ == n.enforced_courses@,
{
    BABNode {
        cancelled_courses: clone_vec_usize(&n.cancelled_courses),
        enforced_courses: clone_vec_usize(&n.enforced_courses),
    }
}


/// Appending one entry adds exactly that member.
pub proof fn lemma_push_contains(s: Seq<usize>, x: usize, c: usize)
    ensures
        s.push(x).contains(c) <==> (s.contains(c) || c == x),
{
    if s.push(x).contains(c) {
        let i = choose|i: int| 0 <= i < s.push(x).len() && s.push(x)[i] == c;
        if i < s.len() {
            assert(s[i] == c);
        }
    }
    if s.contains(c) {
        let i = choose|i: int| 0 <= i < s.len() && s[i] == c;
        assert(s.push(x)[i] == c);
    }
    if c == x {
        assert(s.push(x)[s.len() as int] == c);
    }
}

/// The children a node spawns after an infeasible relaxation: when somebody
/// was placed where they do not belong, only enforcing the branch course can
/// help; otherwise both enforcing and cancelling it are tried.
pub fn branch_children(node: &BABNode, branch_course: usize, instructor_violation: bool) -> (r:
    Vec<BABNode>)
    ensures
        r@.len() == (if instructor_violation {
            1int
        } else {
            2int
        }),
        r@[0].cancelled_courses@ == node.cancelled_courses@,
        r@[0].enforced_courses@ == node.enforced_courses@.push(branch_course),
        !instructor_violation ==> {
            &&& r@[1].cancelled_courses@ == node.cancelled_courses@.push(branch_course)
            &&& r@[1].enforced_courses@ == node.enforced_courses@
        },
        forall|i: int|
            0 <= i < r@.len() ==> node_depth(#[trigger] r@[i]) == node_depth(*node) + 1,
        (node_sets_disjoint(node.cancelled_courses@, node.enforced_courses@)
            && !node.cancelled_courses@.contains(branch_course)
            && !node.enforced_courses@.contains(branch_course)) ==> forall|i: int|
            0 <= i < r@.len() ==> node_sets_disjoint(
                (#[trigger] r@[i]).cancelled_courses@,
                r@[i].enforced_courses@,
            ),
{
    let mut r: Vec<BABNode> = Vec::new();
    let mut enforce_child = clone_node(node);
    enforce_child.enforced_courses.push(branch_course);
    r.push(enforce_child);
    if !instructor_violation {
        let mut cancel_child = clone_node(node);
        cancel_child.cancelled_courses.push(branch_course);
        r.push(cancel_child);
    }
    proof {
        if node_sets_disjoint(node.cancelled_courses@, node.enforced_courses@)
            && !node.cancelled_courses@.contains(branch_course)
            && !node.enforced_courses@.contains(branch_course) {
            assert forall|i: int|
                0 <= i < r@.len() implies node_sets_disjoint(
                (#[trigger] r@[i]).cancelled_courses@,
                r@[i].enforced_courses@,
            ) by {
                assert forall|c: usize|
                    !(#[trigger] r@[i].cancelled_courses@.contains(c)
                        && r@[i].enforced_courses@.contains(c)) by {
                    lemma_push_contains(node.enforced_courses@, branch_course, c);
                    lemma_push_contains(node.cancelled_courses@, branch_course, c);
                }
            }
        }
    }
    r
}

/// Compare two nodes in the frontier order.
fn node_cmp_exec(a: &BABNode, b: &BABNode) -> (r: core::cmp::Ordering)
    ensures
        r == node_cmp(*a, *b),
{
    let ad: u128 = a.cancelled_courses.len() as u128 + a.enforced_courses.len() as u128;
    let bd: u128 = b.cancelled_courses.len() as u128 + b.enforced_courses.len() as u128;
    if ad < bd {
        core::cmp::Ordering::Less
    } else if ad > bd {
        core::cmp::Ordering::Greater
    } else {
        let first = lex_cmp(&a.cancelled_courses, &b.cancelled_courses);
        if !(matches!(first, core::cmp::Ordering::Equal)) {
            first
        } else {
            lex_cmp(&a.enforced_courses, &b.enforced_courses)
        }
    }
}


/// Powers of three, the branching factor bound of the search tree.
pub open spec fn pow3(k: nat) -> nat
    decreases k,
{
    if k == 0 {
        1
    } else {
        3 * pow3((k - 1) as nat)
    }
}

/// A power of three is positive.
proof fn lemma_pow3_pos(k: nat)
    ensures
        pow3(k) >= 1,
    decreases k,
{
    if k > 0 {
        lemma_pow3_pos((k - 1) as nat);
    }
}

/// An upper bound on the number of descendants a node can still spawn: the
/// deeper the node, the smaller the bound.
pub open spec fn node_pot(n: BABNode, cap: int) -> int {
    if node_depth(n) <= cap {
        pow3((cap + 1 - node_depth(n)) as nat) as int
    } else {
        1
    }
}

/// The total remaining work of a search frontier.
pub open spec fn frontier_pot(s: Seq<BABNode>, cap: int) -> int
    decreases s.len(),
{
    if s.len() == 0 {
        0
    } else {
        frontier_pot(s.drop_last(), cap) + node_pot(s.last(), cap)
    }
}

/// Every node carries positive remaining work.
proof fn lemma_node_pot_pos(n: BABNode, cap: int)
    ensures
        node_pot(n, cap) >= 1,
{
    if node_depth(n) <= cap {
        lemma_pow3_pos((cap + 1 - node_depth(n)) as nat);
    }
}

/// A frontier's remaining work is at least zero.
proof fn lemma_frontier_pot_nonneg(s: Seq<BABNode>, cap: int)
    ensures
        frontier_pot(s, cap) >= 0,
    decreases s.len(),
{
    if s.len() > 0 {
        lemma_frontier_pot_nonneg(s.drop_last(), cap);
        lemma_node_pot_pos(s.last(), cap);
    }
}

/// Replacing one node exchanges exactly its remaining work.
proof fn lemma_frontier_pot_update(s: Seq<BABNode>, i: int, y: BABNode, cap: int)
    requires
        0 <= i < s.len(),
    ensures
        frontier_pot(s.update(i, y), cap) == frontier_pot(s, cap) - node_pot(s[i], cap)
            + node_pot(y, cap),
    decreases s.len(),
{
    if i == s.len() - 1 {
        assert(s.update(i, y).drop_last() =~= s.drop_last());
    } else {
        assert(s.update(i, y).drop_last() =~= s.drop_last().update(i, y));
        lemma_frontier_pot_update(s.drop_last(), i, y, cap);
    }
}

/// Taking the last node away removes exactly its remaining work; appending a
/// node adds exactly its own.
proof fn lemma_frontier_pot_push(s: Seq<BABNode>, y: BABNode, cap: int)
    ensures
        frontier_pot(s.push(y), cap) == frontier_pot(s, cap) + node_pot(y, cap),
{
    assert(s.push(y).drop_last() =~= s);
    assert(s.push(y).last() == y);
}

/// What a pop from the frontier leaves behind: the same work minus the popped
/// node's.
proof fn lemma_frontier_pot_swap_remove(s: Seq<BABNode>, i: int, cap: int)
    requires
        0 <= i < s.len(),
    ensures
        frontier_pot(s.update(i, s.last()).drop_last(), cap) == frontier_pot(s, cap) - node_pot(
            s[i],
            cap,
        ),
{
    lemma_frontier_pot_update(s, i, s.last(), cap);
    let s2 = s.update(i, s.last());
    assert(s2.last() == s.last());
    assert(frontier_pot(s2, cap) == frontier_pot(s2.drop_last(), cap) + node_pot(s2.last(), cap));
}

/// What the solver promises of a returned solution: for the cancelled set it
/// settled on, the assignment is a valid, well-placed solution and the score
/// is its exact preference value.
pub open spec fn spec_solution(
    courses: Seq<Course>,
    participants: Seq<Participant>,
    a: Seq<usize>,
    s: int,
) -> bool {
    exists|cancelled: Seq<usize>, enforced: Seq<usize>|
        {
            &&& a.len() == participants.len()
            &&& (forall|p: int| 0 <= p < a.len() ==> ((#[trigger] a[p]) as int) < courses.len())
            &&& #[trigger] spec_feasible(
                courses,
                a,
                cancelled,
                enforced,
                duty_mask(courses, cancelled, participants.len() as int),
            )
            &&& !spec_violation(
                courses,
                participants,
                a,
                cancelled,
                duty_mask(courses, cancelled, participants.len() as int),
            )
            &&& s == assignment_score(
                participants,
                a,
                duty_mask(courses, cancelled, participants.len() as int),
            )
        }
}

/// Solve the whole assignment problem: search the tree of cancel/enforce
/// decisions depth-first, keep the best valid assignment, and prune by the
/// relaxation bound.  Returns the best assignment and its exact preference
/// value, or nothing when no valid assignment was found.  The search runs
/// until the frontier is empty; termination is proved by the shrinking
/// remaining-work measure of the frontier.
#[verifier::rlimit(60)]
pub fn solve(courses: &Vec<Course>, participants: &Vec<Participant>) -> (r: Option<
    (crate::Assignment, crate::hungarian::Score)>)
    requires
        precompute_pre(courses@, participants@),
        crate::courses_consistent(courses@, participants@.len() as int),
        courses_bounds(courses@),
    ensures
        r matches Some((a, s)) ==> spec_solution(courses@, participants@, a@, s as int),
{
    let problem = precompute_problem(courses, participants);
    let num_courses = courses.len();
    let ghost cap = 2 * (num_courses as int);
    let mut open: Vec<BABNode> = Vec::new();
    open.push(BABNode { cancelled_courses: Vec::new(), enforced_courses: Vec::new() });
    let mut best: Option<(crate::Assignment, crate::hungarian::Score)> = None;
    proof {
        lemma_frontier_pot_nonneg(open@, cap);
    }
    while open.len() > 0
        invariant
            precompute_pre(courses@, participants@),
            problem_wf(problem, courses@, participants@),
            crate::courses_consistent(courses@, participants@.len() as int),
            courses_bounds(courses@),
            num_courses == courses@.len(),
            cap == 2 * (num_courses as int),
            frontier_pot(open@, cap) >= 0,
            best matches Some((a, s)) ==> spec_solution(courses@, participants@, a@, s as int),
        decreases frontier_pot(open@, cap),
    {
        let ghost open0 = open@;
        // Deepest (greatest) node first: a depth-first bias that finds
        // incumbents early and so prunes most.
        let mut bi: usize = 0;
        let mut i: usize = 1;
        while i < open.len()
            invariant
                open@.len() > 0,
                bi < open@.len(),
                i <= open@.len(),
            decreases open@.len() - i,
        {
            if matches!(node_cmp_exec(&open[i], &open[bi]), core::cmp::Ordering::Greater) {
                bi = i;
            }
            i += 1;
        }
        let node = open.swap_remove(bi);
        proof {
            lemma_frontier_pot_swap_remove(open0, bi as int, cap);
            lemma_node_pot_pos(node, cap);
            lemma_frontier_pot_nonneg(open@, cap);
        }
        let ghost open_popped = open@;
        let node_for_eval = clone_node(&node);
        let result = run_bab_node(courses, participants, &problem, node_for_eval);
        match result {
            crate::bab::NodeResult::Feasible(a, s) => {
                let better = match &best {
                    Some((_, bs)) => s > *bs,
                    None => true,
                };
                if better {
                    best = Some((a, s));
                }
            },
            crate::bab::NodeResult::Infeasible(bc, viol, s) => {
                let pruned = match &best {
                    Some((_, bs)) => s <= *bs,
                    None => false,
                };
                let depth: u128 = node.cancelled_courses.len() as u128
                    + node.enforced_courses.len() as u128;
                // Expanding beyond one decision per course and direction is
                // never useful; the depth guard also bounds the search tree.
                if !pruned && depth < 2 * (num_courses as u128) && !vec_contains(
                    &node.cancelled_courses,
                    bc,
                ) && !vec_contains(&node.enforced_courses, bc) {
                    proof {
                        assert(node_depth(node) < cap);
                        assert(node_pot(node, cap) == pow3((cap + 1 - node_depth(node)) as nat));
                        assert(pow3((cap + 1 - node_depth(node)) as nat) == 3 * pow3(
                            (cap - node_depth(node)) as nat,
                        ));
                        lemma_pow3_pos((cap - node_depth(node)) as nat);
                    }
                    let mut children = branch_children(&node, bc, viol);
                    let ghost child_pot = pow3((cap - node_depth(node)) as nat) as int;
                    while children.len() > 0
                        invariant
                            cap == 2 * (num_courses as int),
                            forall|k: int|
                                0 <= k < children@.len() ==> node_depth(#[trigger] children@[k])
                                    == node_depth(node) + 1,
                            node_depth(node) < cap,
                            child_pot == pow3((cap - node_depth(node)) as nat) as int,
                            child_pot >= 1,
                            frontier_pot(open@, cap) <= frontier_pot(open_popped, cap) + (2
                                - children@.len()) * child_pot,
                            children@.len() <= 2,
                        decreases children@.len(),
                    {
                        let ghost clen0 = children@.len() as int;
                        let child = children.pop().unwrap();
                        proof {
                            lemma_frontier_pot_push(open@, child, cap);
                            assert(node_pot(child, cap) == child_pot);
                            assert((2 - clen0) * child_pot + child_pot == (2 - (clen0 - 1))
                                * child_pot) by (nonlinear_arith);
                        }
                        open.push(child);
                    }
                }
            },
            crate::bab::NodeResult::NoSolution => {},
        }
        proof {
            lemma_frontier_pot_nonneg(open@, cap);
            assert(frontier_pot(open@, cap) < frontier_pot(open0, cap));
        }
    }
    best
}

} // verus!
