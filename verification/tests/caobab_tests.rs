//! The solver exercised end to end on a small fixture: precomputation,
//! feasibility checking, node ordering, node evaluation and the full search.

use caobab::bab::NodeResult;
use caobab::caobab::{
    branch_children, check_feasibility, precompute_problem, run_bab_node, solve, BABNode,
    WEIGHT_OFFSET,
};
use caobab::{Assignment, Course, Participant};

const WEIGHTS: [u16; 3] = [WEIGHT_OFFSET, WEIGHT_OFFSET - 1, WEIGHT_OFFSET - 2];

fn create_simple_problem() -> (Vec<Participant>, Vec<Course>) {
    // Idea: Course 1 or 2 must be cancelled, b/c otherwise, we don't have enough participants to fill all courses.
    // Course 1 will win due to Participant 5's choices, so Course 2 will be cancelled.
    (
        vec![
            Participant {
                index: 0,
                dbid: 0,
                name: String::from("Participant 0"),
                choices: vec![1, 2],
            },
            Participant {
                index: 1,
                dbid: 1,
                name: String::from("Participant 1"),
                choices: vec![0, 2],
            },
            Participant {
                index: 2,
                dbid: 2,
                name: String::from("Participant 2"),
                choices: vec![0, 1],
            },
            Participant {
                index: 3,
                dbid: 3,
                name: String::from("Participant 3"),
                choices: vec![0, 1],
            },
            Participant {
                index: 4,
                dbid: 4,
                name: String::from("Participant 4"),
                choices: vec![0, 2],
            },
            Participant {
                index: 5,
                dbid: 5,
                name: String::from("Participant 5"),
                choices: vec![1, 2],
            },
        ],
        vec![
            Course {
                index: 0,
                dbid: 0,
                name: String::from("Wanted Course 0"),
                num_max: 2,
                num_min: 2,
                instructors: vec![0],
            },
            Course {
                index: 1,
                dbid: 1,
                name: String::from("Okay Course 1"),
                num_max: 8,
                num_min: 2,
                instructors: vec![1],
            },
            Course {
                index: 2,
                dbid: 2,
                name: String::from("Boring Course 2"),
                num_max: 10,
                num_min: 2,
                instructors: vec![2],
            },
        ],
    )
}

#[test]
fn test_precompute_problem() {
    let (participants, courses) = create_simple_problem();

    let problem = precompute_problem(&courses, &participants);

    // check vector sizes
    let n = courses.iter().fold(0, |acc, c| acc + c.num_max);
    assert_eq!(problem.adjacency_matrix.dim().0, n);
    assert_eq!(problem.adjacency_matrix.dim().1, n);
    assert_eq!(problem.dummy_x.len(), n);
    assert_eq!(problem.course_map.len(), n);
    assert_eq!(problem.inverse_course_map.len(), courses.len());

    // Check references of courses
    for (i, c) in courses.iter().enumerate() {
        for j in 0..c.num_max {
            let base_column = problem.inverse_course_map[i];
            assert_eq!(
                problem.course_map[base_column + j],
                i,
                "Column {} should be mapped to course {}, as it is within {} columns after {}",
                base_column + j,
                i,
                c.num_max,
                base_column
            );
        }
    }

    // check adjacency matrix
    for (x, p) in participants.iter().enumerate() {
        for y in 0..n {
            let choice = p.choices.iter().position(|c| *c == problem.course_map[y]);
            assert_eq!(
                problem.adjacency_matrix.at(x, y),
                match choice {
                    Some(c) => WEIGHTS[c],
                    None => 0,
                },
                "Edge weigth for participant {} with course place {} is not expected.",
                x,
                y
            );
        }
    }
    for x in participants.len()..n {
        for y in 0..n {
            assert_eq!(
                problem.adjacency_matrix.at(x, y),
                0,
                "Edge weigth for dummy participant {} with course place {} is not zero.",
                x,
                y
            );
        }
    }

    // check dummy_x
    for x in 0..participants.len() {
        assert!(!problem.dummy_x[x]);
    }
    for x in participants.len()..n {
        assert!(problem.dummy_x[x]);
    }
}

#[test]
fn test_babnode_sorting() {
    let node0 = BABNode {
        cancelled_courses: vec![],
        enforced_courses: vec![],
    };
    let node1 = BABNode {
        cancelled_courses: vec![0],
        enforced_courses: vec![],
    };
    assert!(node0 < node1);
    let node2 = BABNode {
        cancelled_courses: vec![],
        enforced_courses: vec![2],
    };
    assert!(node0 < node2);
    let node3 = BABNode {
        cancelled_courses: vec![1, 2],
        enforced_courses: vec![],
    };
    assert!(node1 < node3);
    assert!(node2 < node3);
    let node4 = BABNode {
        cancelled_courses: vec![],
        enforced_courses: vec![0, 1, 2],
    };
    assert!(node2 < node4);
    let node5 = BABNode {
        cancelled_courses: vec![0, 1],
        enforced_courses: vec![0, 1],
    };
    assert!(node4 < node5);
}

#[test]
fn test_check_feasibility() {
    let (participants, courses) = create_simple_problem();

    // A feasible assignment
    let assignment: Assignment = vec![0, 1, 1, 0, 0, 1];
    let course_instructors = vec![true, true, false, false, false, false];
    let node = BABNode {
        cancelled_courses: vec![2],
        enforced_courses: vec![],
    };
    assert_eq!(
        check_feasibility(
            &courses,
            &participants,
            &assignment,
            &node,
            &course_instructors
        ),
        (true, false, None)
    );

    // Courses 1 & 2 have to few participants. Course 2 lacks more than Course 1.
    let assignment: Assignment = vec![0, 1, 2, 0, 0, 1];
    let course_instructors = vec![true, true, true, false, false, false];
    let node = BABNode {
        cancelled_courses: vec![],
        enforced_courses: vec![],
    };
    assert_eq!(
        check_feasibility(
            &courses,
            &participants,
            &assignment,
            &node,
            &course_instructors
        ),
        (false, false, Some(2))
    );

    // Let's ignore that Participant 4 chose course 0. Participant 5 has been assigned to wrong course 0. We should
    // cancel course 2 to fill course 0 with its instructor.
    let assignment: Assignment = vec![0, 1, 2, 0, 1, 0];
    let course_instructors = vec![true, true, true, false, false, false];
    let node = BABNode {
        cancelled_courses: vec![],
        enforced_courses: vec![0],
    };
    assert_eq!(
        check_feasibility(
            &courses,
            &participants,
            &assignment,
            &node,
            &course_instructors
        ),
        (false, true, Some(2))
    );
}

/// Testing helper function to check correctness of a feasible solution
fn check_assignment(
    courses: &Vec<Course>,
    participants: &Vec<Participant>,
    assignment: &Assignment,
    node: &BABNode,
) {
    // Check course instructor assignment
    let mut course_instructors = vec![false; participants.len()];
    for (c, course) in courses.iter().enumerate() {
        if !node.cancelled_courses.contains(&c) {
            for i in course.instructors.iter() {
                assert_eq!(
                    assignment[*i], c,
                    "Instructor {} of course {} is assigned to {}",
                    *i, c, assignment[*i]
                );
                course_instructors[*i] = true;
            }
        }
    }

    // Calculate course sizes
    let mut course_size = vec![0usize; courses.len()];
    for (p, c) in assignment.iter().enumerate() {
        if !course_instructors[p] {
            course_size[*c] += 1;
        }
    }

    // Check course sizes
    for (c, size) in course_size.iter().enumerate() {
        assert!(
            *size <= courses[c].num_max,
            "Maximum size violation for course {}: {} places, {} participants",
            c,
            courses[c].num_max,
            size
        );
        // Feasible solutions must not have wrong assigned participants
        if !node.cancelled_courses.contains(&c) {
            assert!(
                *size >= courses[c].num_min,
                "Minimum size violation for course {}: {} required, {} assigned",
                c,
                courses[c].num_min,
                size
            );
        }
    }

    // Check cancelled courses
    for c in node.cancelled_courses.iter() {
        assert_eq!(
            course_size[*c], 0,
            "Cancelled course {} has {} participants",
            *c, course_size[*c]
        );
    }

    // Feasible solutions must not have wrong assigned participants
    for (p, participant) in participants.iter().enumerate() {
        if !course_instructors[p] {
            assert!(
                participant.choices.contains(&assignment[p]),
                "Course {} of participant {} is none of their choices ({:?})",
                assignment[p],
                p,
                participant.choices
            );
        }
    }
}

#[test]
fn test_bab_node_simple() {
    // This test depends on `precompute_problem()`, `check_feasibility()` and `hungarian::hungarian_algorithm()`,
    // so if it fails, please check their test results first.

    let (participants, courses) = create_simple_problem();
    let problem = precompute_problem(&courses, &participants);
    let node = BABNode {
        cancelled_courses: vec![1],
        enforced_courses: vec![],
    };

    let result = run_bab_node(&courses, &participants, &problem, node.clone());

    match result {
        NodeResult::Feasible(assignment, score) => {
            println!("assignment: {:?}", assignment);
            check_assignment(&courses, &participants, &assignment, &node);
            assert!(score > participants.len() as u32 * (WEIGHT_OFFSET as u32 - 1));
        }
        x => panic!("Expected feasible result, got {:?}", x),
    }
}

#[test]
fn test_bab_node_already_feasible() {
    // Cancelling the big course leaves a first relaxation that is already a
    // valid solution: no branching needed.
    let (participants, courses) = create_simple_problem();
    let problem = precompute_problem(&courses, &participants);
    let node = BABNode {
        cancelled_courses: vec![2],
        enforced_courses: vec![],
    };
    let result = run_bab_node(&courses, &participants, &problem, node.clone());
    match result {
        NodeResult::Feasible(assignment, score) => {
            check_assignment(&courses, &participants, &assignment, &node);
            assert_eq!(score, 6 * WEIGHT_OFFSET as u32 - 1);
        }
        x => panic!("Expected feasible result, got {:?}", x),
    }
}

#[test]
fn test_bab_node_deficit_branch() {
    // The root relaxation leaves course 2 short of its minimum: the deficit
    // oracle points there and both children are generated.
    let (participants, courses) = create_simple_problem();
    let problem = precompute_problem(&courses, &participants);
    let node = BABNode {
        cancelled_courses: vec![],
        enforced_courses: vec![],
    };
    let result = run_bab_node(&courses, &participants, &problem, node.clone());
    match result {
        NodeResult::Infeasible(branch_course, instructor_violation, bound) => {
            assert_eq!(branch_course, 2);
            assert!(!instructor_violation);
            // The relaxation bound: everyone can still get a first choice.
            assert_eq!(bound, 6 * WEIGHT_OFFSET as u32);
            let children = branch_children(&node, branch_course, instructor_violation);
            assert_eq!(children.len(), 2);
            assert!(children[0].enforced_courses.contains(&2));
            assert!(children[0].cancelled_courses.is_empty());
            assert!(children[1].cancelled_courses.contains(&2));
            assert!(children[1].enforced_courses.is_empty());
        }
        x => panic!("Expected infeasible result, got {:?}", x),
    }
}

#[test]
fn test_branch_children_on_violation() {
    // When somebody was placed where they do not belong, only the enforce
    // child is generated.
    let node = BABNode {
        cancelled_courses: vec![],
        enforced_courses: vec![0],
    };
    let children = branch_children(&node, 2, true);
    assert_eq!(children.len(), 1);
    assert_eq!(children[0].enforced_courses, vec![0, 2]);
    assert_eq!(children[0].cancelled_courses, Vec::<usize>::new());
}

#[test]
fn test_bab_node_forced_conflict() {
    // A node that cancels and enforces the same course forces an instructor
    // into a cancelled course: it admits nothing.
    let (participants, courses) = create_simple_problem();
    let problem = precompute_problem(&courses, &participants);
    let node = BABNode {
        cancelled_courses: vec![0],
        enforced_courses: vec![0],
    };
    let result = run_bab_node(&courses, &participants, &problem, node);
    assert!(matches!(result, NodeResult::NoSolution));
}

#[test]
fn test_solve_simple() {
    // Course 2 is cancelled; everyone else lands in a chosen course and each
    // remaining instructor in their own.
    let (participants, courses) = create_simple_problem();
    let (assignment, score) = solve(&courses, &participants).expect("a solution must exist");
    assert_eq!(score, 6 * WEIGHT_OFFSET as u32 - 1);
    assert_eq!(assignment.len(), participants.len());
    assert_eq!(assignment[0], 0);
    assert_eq!(assignment[1], 1);
    assert_eq!(assignment[4], 0);
    assert_eq!(assignment[5], 1);
    assert!(assignment[2] == 0 || assignment[2] == 1);
    assert!(assignment[3] == 0 || assignment[3] == 1);
    // Course 2 was cancelled: nobody sits there.
    for c in assignment.iter() {
        assert!(*c != 2);
    }
    // Course 0 holds its instructor and exactly two attendees.
    let attendees0 = assignment
        .iter()
        .enumerate()
        .filter(|(p, c)| **c == 0 && *p != 0)
        .count();
    assert_eq!(attendees0, 2);
}

#[test]
fn test_solve_score_roundtrip() {
    // The returned score is exactly the sum of the placement weights: the
    // full offset for each instructor on duty, the preference weight of the
    // assigned course for everyone else.
    let (participants, courses) = create_simple_problem();
    let (assignment, score) = solve(&courses, &participants).expect("a solution must exist");
    let mut expected: u32 = 0;
    for (p, participant) in participants.iter().enumerate() {
        let on_duty = courses
            .iter()
            .any(|c| c.instructors.contains(&p) && assignment.iter().any(|a| *a == c.index));
        if on_duty {
            expected += WEIGHT_OFFSET as u32;
        } else {
            let rank = participant
                .choices
                .iter()
                .position(|c| *c == assignment[p])
                .expect("everyone else sits in a chosen course");
            expected += WEIGHTS[rank] as u32;
        }
    }
    assert_eq!(score, expected);
}

#[test]
fn test_babnode_eq() {
    let a = BABNode {
        cancelled_courses: vec![1, 2],
        enforced_courses: vec![0],
    };
    let b = BABNode {
        cancelled_courses: vec![1, 2],
        enforced_courses: vec![0],
    };
    let c = BABNode {
        cancelled_courses: vec![1],
        enforced_courses: vec![0],
    };
    assert!(a == b);
    assert!(a != c);
}

#[test]
fn test_solve_infeasible() {
    // One participant cannot fill a course that needs two attendees, and
    // cancelling that course leaves them nowhere to go.
    let participants = vec![Participant {
        index: 0,
        dbid: 0,
        name: String::from("Loner"),
        choices: vec![0],
    }];
    let courses = vec![Course {
        index: 0,
        dbid: 0,
        name: String::from("Undersubscribed"),
        num_max: 2,
        num_min: 2,
        instructors: vec![],
    }];
    assert!(solve(&courses, &participants).is_none());
}
