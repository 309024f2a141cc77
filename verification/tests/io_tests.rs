//! Rendering of assignments and the consistency check on raw data.

use caobab::io::{assert_data_consitency, format_assignment};
use caobab::{Course, Participant};

fn tiny_problem() -> (Vec<Participant>, Vec<Course>) {
    (
        vec![
            Participant {
                index: 0,
                dbid: 10,
                name: String::from("Anton Administrator"),
                choices: vec![1],
            },
            Participant {
                index: 1,
                dbid: 11,
                name: String::from("Bertalotta Beispiel"),
                choices: vec![0],
            },
        ],
        vec![
            Course {
                index: 0,
                dbid: 20,
                name: String::from("Course A"),
                num_max: 2,
                num_min: 1,
                instructors: vec![0],
            },
            Course {
                index: 1,
                dbid: 21,
                name: String::from("Course B"),
                num_max: 2,
                num_min: 1,
                instructors: vec![],
            },
        ],
    )
}

#[test]
fn test_format_assignment() {
    let (participants, courses) = tiny_problem();
    let assignment = vec![0, 0];
    let text = format_assignment(&assignment, &courses, &participants);
    assert_eq!(
        text,
        "\n===== Course A =====\nAnton Administrator (instr)\nBertalotta Beispiel\n\n===== Course B =====\n"
    );
}

#[test]
fn test_assert_data_consitency_accepts() {
    let (participants, courses) = tiny_problem();
    assert!(assert_data_consitency(&participants, &courses));
}

#[test]
fn test_assert_data_consitency_rejects() {
    let (mut participants, courses) = tiny_problem();
    participants[1].index = 7;
    assert!(!assert_data_consitency(&participants, &courses));
    let (participants, mut courses) = tiny_problem();
    courses[0].instructors = vec![9];
    assert!(!assert_data_consitency(&participants, &courses));
    let (mut participants, courses) = tiny_problem();
    participants[0].choices = vec![5];
    assert!(!assert_data_consitency(&participants, &courses));
}
