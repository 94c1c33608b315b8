use zeitplan::input::{Input, Meeting, Participant, ValidationError};
use zeitplan::time::TimeRange;

#[test]
fn validates_invalid_input() {
    let mut long_range: Vec<TimeRange> = Vec::new();
    for n in 0..300u32 {
        long_range.push(TimeRange(n, n));
    }
    let mut test_input = Input::new(vec![], vec![], long_range);

    assert!(match test_input.validate() {
        Err(ValidationError::UnsupportedLength {
            expected: _,
            found: _,
        }) => true,
        _ => false,
    });

    let mut many_participants: Vec<Participant> = Vec::new();
    for _ in 0..200 {
        many_participants.push(Participant::default());
    }
    let mut test_input = Input::new(many_participants, vec![], vec![]);

    assert!(match test_input.validate() {
        Err(ValidationError::UnsupportedLength {
            expected: _,
            found: _,
        }) => true,
        _ => false,
    });
}

#[test]
fn sort_input_works() {
    let mut test_input = Input::new(
        vec![Participant::new(
            "0".to_string(),
            vec![
                TimeRange(20, 22),
                TimeRange(1, 3),
                TimeRange(9, 12),
                TimeRange(4, 8),
            ],
        )],
        vec![],
        vec![
            TimeRange(20, 22),
            TimeRange(1, 3),
            TimeRange(9, 12),
            TimeRange(4, 8),
        ],
    );

    assert!(test_input.sort().is_ok());

    assert_eq!(
        test_input.participants[0].blocked_times,
        vec![
            TimeRange(1, 3),
            TimeRange(4, 8),
            TimeRange(9, 12),
            TimeRange(20, 22),
        ]
    );
    assert_eq!(
        test_input.available_time_range,
        vec![
            TimeRange(1, 3),
            TimeRange(4, 8),
            TimeRange(9, 12),
            TimeRange(20, 22),
        ]
    );
}

#[test]
fn sort_input_validation() {
    let mut test_input = Input::new(
        vec![Participant::new(
            "0".to_string(),
            vec![TimeRange(0, 1), TimeRange(1, 1)],
        )],
        vec![],
        vec![],
    );

    assert!(match test_input.sort() {
        Err(ValidationError::OverlappingTimeRange) => true,
        _ => false,
    });

    let mut test_input = Input::new(
        vec![Participant::new(
            "0".to_string(),
            vec![TimeRange(0, 3), TimeRange(1, 5)],
        )],
        vec![],
        vec![],
    );

    assert!(match test_input.sort() {
        Err(ValidationError::OverlappingTimeRange) => true,
        _ => false,
    });

    let mut test_input = Input::new(vec![], vec![], vec![TimeRange(0, 1), TimeRange(1, 1)]);

    assert!(match test_input.sort() {
        Err(ValidationError::OverlappingTimeRange) => true,
        _ => false,
    });
    let mut test_input = Input::new(vec![], vec![], vec![TimeRange(0, 3), TimeRange(1, 5)]);

    assert!(match test_input.sort() {
        Err(ValidationError::OverlappingTimeRange) => true,
        _ => false,
    });
}

#[test]
fn gets_user_availability() {
    let mut test_input = Input::new(
        vec![
            Participant::new(
                "0".to_string(),
                vec![TimeRange(0, 0), TimeRange(2, 5), TimeRange(9, 9)],
            ),
            Participant::new(
                "1".to_string(),
                vec![TimeRange(1, 1), TimeRange(3, 3), TimeRange(7, 8)],
            ),
            Participant::new("2".to_string(), vec![TimeRange(1, 8)]),
            Participant::new("3".to_string(), vec![]),
            Participant::new("4".to_string(), vec![TimeRange(2, 7)]),
            Participant::new("5".to_string(), vec![TimeRange(9, 9)]),
        ],
        vec![],
        vec![TimeRange(0, 1), TimeRange(3, 6), TimeRange(8, 11)],
    );

    assert!(test_input.sort().is_ok());
    assert!(test_input.get_user_availability().is_ok());

    assert_eq!(
        test_input.participants[0].available_times,
        vec![
            TimeRange(1, 1),
            TimeRange(6, 6),
            TimeRange(8, 8),
            TimeRange(10, 11)
        ]
    );

    assert_eq!(
        test_input.participants[1].available_times,
        vec![TimeRange(0, 0), TimeRange(4, 6), TimeRange(9, 11),]
    );

    assert_eq!(
        test_input.participants[2].available_times,
        vec![TimeRange(0, 0), TimeRange(9, 11),]
    );

    assert_eq!(
        test_input.participants[3].available_times,
        vec![TimeRange(0, 1), TimeRange(3, 6), TimeRange(8, 11)]
    );

    assert_eq!(
        test_input.participants[4].available_times,
        vec![TimeRange(0, 1), TimeRange(8, 11)]
    );

    assert_eq!(
        test_input.participants[5].available_times,
        vec![
            TimeRange(0, 1),
            TimeRange(3, 6),
            TimeRange(8, 8),
            TimeRange(10, 11)
        ]
    );
}

#[test]
fn lib_gets_meeting_availability() {
    let mut test_input = Input::new(
        vec![
            Participant::new(
                "0".to_string(),
                vec![TimeRange(0, 0), TimeRange(2, 5), TimeRange(9, 9)],
            ),
            Participant::new(
                "1".to_string(),
                vec![TimeRange(1, 1), TimeRange(3, 3), TimeRange(7, 8)],
            ),
            Participant::new("2".to_string(), vec![TimeRange(1, 8)]),
            Participant::new("3".to_string(), vec![]),
            Participant::new("4".to_string(), vec![TimeRange(0, 7)]),
            Participant::new("5".to_string(), vec![TimeRange(8, 12)]),
        ],
        vec![
            Meeting::new("0".to_string(), 1, vec!["0".to_string(), "1".to_string()]),
            Meeting::new("1".to_string(), 2, vec!["0".to_string(), "1".to_string()]),
            Meeting::new("2".to_string(), 1, vec!["1".to_string(), "2".to_string()]),
            Meeting::new(
                "3".to_string(),
                1,
                vec!["0".to_string(), "1".to_string(), "2".to_string()],
            ),
            Meeting::new("4".to_string(), 1, vec!["4".to_string(), "5".to_string()]),
        ],
        vec![TimeRange(0, 1), TimeRange(3, 6), TimeRange(8, 11)],
    );

    assert!(test_input.sort().is_ok());
    assert!(test_input.get_user_availability().is_ok());
    assert!(test_input.get_meeting_availability().is_ok());

    assert_eq!(
        test_input.meetings[0].available_times,
        vec![TimeRange(6, 6), TimeRange(10, 11)]
    );

    assert_eq!(
        test_input.meetings[1].available_times,
        vec![TimeRange(10, 11)]
    );

    assert_eq!(
        test_input.meetings[2].available_times,
        vec![TimeRange(0, 0), TimeRange(9, 11)]
    );

    assert_eq!(
        test_input.meetings[3].available_times,
        vec![TimeRange(10, 11)]
    );

    assert_eq!(test_input.meetings[4].available_times, vec![]);
}

#[test]
fn meeting_availability_from_fresh_input() {
    // Calling the meeting step first runs validation, sorting and the
    // participant step on its own.
    let mut test_input = Input::new(
        vec![
            Participant::new("a".to_string(), vec![TimeRange(4, 4), TimeRange(0, 1)]),
            Participant::new("b".to_string(), vec![TimeRange(5, 6)]),
        ],
        vec![Meeting::new(
            "m".to_string(),
            2,
            vec!["a".to_string(), "b".to_string()],
        )],
        vec![TimeRange(0, 8)],
    );
    assert!(test_input.get_meeting_availability().is_ok());
    // a is free on [2,3] and [5,8]; b on [0,4] and [7,8]; together [2,3]
    // and [7,8], both long enough for two units.
    assert_eq!(
        test_input.meetings[0].available_times,
        vec![TimeRange(2, 3), TimeRange(7, 8)]
    );
}

#[test]
fn sort_rejects_oversize_blocked_list() {
    let mut long_blocked: Vec<TimeRange> = Vec::new();
    for n in 0..200u32 {
        long_blocked.push(TimeRange(2 * n, 2 * n));
    }
    let mut test_input = Input::new(
        vec![Participant::new("0".to_string(), long_blocked)],
        vec![],
        vec![],
    );
    assert!(match test_input.sort() {
        Err(ValidationError::UnsupportedLength {
            expected: 168,
            found: 200,
        }) => true,
        _ => false,
    });
}
