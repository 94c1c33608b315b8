use zeitplan::meeting::{Meeting, MeetingParticipants};
use zeitplan::participant::Participant;
use zeitplan::schedule::{Schedule, ValidationError};
use zeitplan::time::{blocks, count_units, time_merge, windowed, Pigeons, TimeRange, Validate};

#[test]
fn gets_participant_availability() {
    let blocked_times = vec![
        TimeRange::new(1, 2),
        TimeRange::new(4, 4),
        TimeRange::new(20, 22),
        TimeRange::new(24, 31),
    ];
    let participant = Participant::new("1", blocked_times);

    let available_time = vec![
        TimeRange::new(0, 9),
        TimeRange::new(22, 24),
        TimeRange::new(30, 35),
    ];

    assert_eq!(
        participant.get_availability(&available_time),
        vec![
            TimeRange::new(0, 0),
            TimeRange::new(3, 3),
            TimeRange::new(5, 9),
            TimeRange::new(23, 23),
            TimeRange::new(32, 35),
        ]
    );
}

#[test]
fn merge_times() {
    let unmerged_times: Vec<TimeRange> = vec![
        TimeRange::new(1, 1),
        TimeRange::new(2, 2),
        TimeRange::new(2, 9),
        TimeRange::new(3, 5),
        TimeRange::new(11, 11),
    ];

    assert_eq!(
        time_merge(&unmerged_times),
        vec![TimeRange::new(1, 9), TimeRange::new(11, 11)]
    );
}

#[test]
fn pigeon_count() {
    let pigeon_set: Vec<TimeRange> = vec![TimeRange::new(1, 9), TimeRange::new(11, 11)];

    assert_eq!(pigeon_set.count_pigeons(), Some(10));
}

#[test]
fn gets_meeting_availability() {
    let blocked_times_1: Vec<TimeRange> = vec![
        TimeRange::new(1, 2),
        TimeRange::new(22, 22),
        TimeRange::new(4, 4),
    ];

    let blocked_times_2 = vec![TimeRange::new(24, 31), TimeRange::new(20, 21)];

    let participants = vec![
        Participant::new("1", blocked_times_1),
        Participant::new("2", blocked_times_2),
    ];

    let meeting: MeetingParticipants = MeetingParticipants::new("1", participants, 2);

    let meeting: Meeting = Meeting::from_participants(meeting);

    let available_time = vec![
        TimeRange::new(0, 9),
        TimeRange::new(22, 24),
        TimeRange::new(30, 35),
    ];

    assert_eq!(
        meeting.get_availability(&available_time),
        vec![TimeRange::new(5, 9), TimeRange::new(32, 35)]
    );
}

#[test]
fn windows() {
    let available_time: Vec<TimeRange> = vec![
        TimeRange::new(0, 6),
        TimeRange::new(22, 24),
        TimeRange::new(30, 33),
    ];

    assert_eq!(
        windowed(&available_time, 1),
        vec![
            TimeRange::new(0, 0),
            TimeRange::new(1, 1),
            TimeRange::new(2, 2),
            TimeRange::new(3, 3),
            TimeRange::new(4, 4),
            TimeRange::new(5, 5),
            TimeRange::new(6, 6),
            TimeRange::new(22, 22),
            TimeRange::new(23, 23),
            TimeRange::new(24, 24),
            TimeRange::new(30, 30),
            TimeRange::new(31, 31),
            TimeRange::new(32, 32),
            TimeRange::new(33, 33),
        ]
    );
    assert_eq!(
        windowed(&available_time, 2),
        vec![
            TimeRange::new(0, 1),
            TimeRange::new(1, 2),
            TimeRange::new(2, 3),
            TimeRange::new(3, 4),
            TimeRange::new(4, 5),
            TimeRange::new(5, 6),
            TimeRange::new(22, 23),
            TimeRange::new(23, 24),
            TimeRange::new(30, 31),
            TimeRange::new(31, 32),
            TimeRange::new(32, 33)
        ]
    );
    assert_eq!(
        windowed(&available_time, 3),
        vec![
            TimeRange::new(0, 2),
            TimeRange::new(1, 3),
            TimeRange::new(2, 4),
            TimeRange::new(3, 5),
            TimeRange::new(4, 6),
            TimeRange::new(22, 24),
            TimeRange::new(30, 32),
            TimeRange::new(31, 33)
        ]
    );
    assert_eq!(
        windowed(&available_time, 4),
        vec![
            TimeRange::new(0, 3),
            TimeRange::new(1, 4),
            TimeRange::new(2, 5),
            TimeRange::new(3, 6),
            TimeRange::new(30, 33)
        ]
    );
}

#[test]
fn schedules() {
    let meeting_1 = Meeting::new("1", vec![TimeRange::new(2, 5)], 1);
    let meeting_2 = Meeting::new("2", vec![TimeRange::new(0, 0), TimeRange::new(2, 5)], 1);
    let meeting_3 = Meeting::new("3", vec![TimeRange::new(0, 1), TimeRange::new(3, 5)], 1);
    let meeting_4 = Meeting::new("4", vec![TimeRange::new(0, 2), TimeRange::new(4, 5)], 1);
    let meeting_5 = Meeting::new("5", vec![TimeRange::new(0, 3), TimeRange::new(5, 5)], 1);

    let available_time = vec![TimeRange::new(0, 5)];

    let schedule: Schedule = Schedule::new(
        vec![
            meeting_1.clone(),
            meeting_2.clone(),
            meeting_3.clone(),
            meeting_4.clone(),
            meeting_5.clone(),
        ],
        available_time.clone(),
    );

    assert!(schedule.schedule_meetings(None, None, None).is_ok());

    let meeting_6 = Meeting::new("6", vec![TimeRange::new(0, 3), TimeRange::new(5, 5)], 1);

    let schedule = Schedule::new(
        vec![
            meeting_1, meeting_2, meeting_3, meeting_4, meeting_5, meeting_6,
        ],
        available_time,
    );
    assert!(schedule.schedule_meetings(None, None, None).is_err());

    let schedule: Schedule = Schedule::new(
        vec![
            Meeting::new("1", vec![TimeRange::new(1, 1000)], 1),
            Meeting::new("2", vec![TimeRange::new(1, 1000)], 1),
            Meeting::new("3", vec![], 1),
            Meeting::new("4", vec![], 1),
            Meeting::new("5", vec![], 1),
            Meeting::new("6", vec![], 1),
            Meeting::new("7", vec![], 1),
        ],
        vec![TimeRange::new(0, 1000)],
    );

    assert!(schedule.schedule_meetings(None, None, None).is_err());
}

#[test]
fn trivially_feasible_placements() {
    // Five one-unit meetings whose only free slots are 0..=4, one each.
    let blocked = vec![
        vec![TimeRange::new(2, 5)],
        vec![TimeRange::new(0, 0), TimeRange::new(2, 5)],
        vec![TimeRange::new(0, 1), TimeRange::new(3, 5)],
        vec![TimeRange::new(0, 2), TimeRange::new(4, 5)],
        vec![TimeRange::new(0, 3), TimeRange::new(5, 5)],
    ];
    let mut meetings = Vec::new();
    for (i, b) in blocked.into_iter().enumerate() {
        meetings.push(Meeting::new(&(i + 1).to_string(), b, 1));
    }
    let schedule = Schedule::new(meetings, vec![TimeRange::new(0, 5)]);
    let result = schedule.schedule_meetings(None, None, None).unwrap();

    assert_eq!(result.results.len(), 5);
    // Every placement is one unit long, inside the allowed range, and no two
    // placements overlap.
    for r in result.results.iter() {
        assert_eq!(r.time.0, r.time.1);
        assert!(r.time.1 <= 4);
    }
    let mut ids: Vec<String> = result.results.iter().map(|r| r.id.clone()).collect();
    ids.sort();
    assert_eq!(ids, vec!["1", "2", "3", "4", "5"]);
    for a in 0..result.results.len() {
        for b in (a + 1)..result.results.len() {
            let x = result.results[a].time;
            let y = result.results[b].time;
            assert!(x.1 < y.0 || y.1 < x.0);
        }
    }
    // Results come back ascending by time; the forced placements put the
    // meetings at 0..=4 in their own order.
    for (i, r) in result.results.iter().enumerate() {
        assert_eq!(r.time.0, i as u32);
    }
    let in_order: Vec<String> = result.results.iter().map(|r| r.id.clone()).collect();
    assert_eq!(in_order, vec!["1", "2", "3", "4", "5"]);
}

#[test]
fn rejects_duplicate_meeting_ids() {
    // Downstream results identify meetings by id, so duplicates are turned
    // away at the boundary.
    let schedule = Schedule::new(
        vec![
            Meeting::new("twin", vec![], 1),
            Meeting::new("twin", vec![], 1),
        ],
        vec![TimeRange::new(0, 5)],
    );
    match schedule.schedule_meetings(None, None, None) {
        Err(ValidationError::InvalidData { error }) => {
            assert!(error.contains("duplicate"));
        }
        _ => panic!("expected duplicate identifiers to be rejected"),
    }
}

#[test]
fn pigeonhole_rejection() {
    // 105 units of room, 106 unit meetings.
    let available_slots: Vec<TimeRange> = vec![
        TimeRange::new(0, 100),
        TimeRange::new(200, 200),
        TimeRange::new(201, 203),
    ];
    let mut meetings = Vec::with_capacity(106);
    for i in 0..106u32 {
        meetings.push(Meeting::new(&i.to_string(), vec![], 1));
    }
    let schedule = Schedule::new(meetings, available_slots);
    match schedule.schedule_meetings(None, None, None) {
        Err(ValidationError::PigeonholeError {
            pigeons,
            pigeon_holes,
        }) => {
            assert_eq!(pigeons, 106);
            assert_eq!(pigeon_holes, 105);
        }
        _ => panic!("expected a pigeonhole rejection"),
    }
}

#[test]
fn no_solution_not_prechecked() {
    // Three meetings fight over two units while a fourth keeps the pigeon
    // count feasible; the search must prove there is no solution.
    let available_slots = vec![TimeRange::new(0, 5)];
    let blocked_times = vec![TimeRange::new(0, 3)];
    let mut meetings = Vec::new();
    for i in 0..3u32 {
        meetings.push(Meeting::new(&i.to_string(), blocked_times.clone(), 1));
    }
    meetings.push(Meeting::new("extra", vec![], 1));
    let schedule = Schedule::new(meetings, available_slots);

    assert!(matches!(
        schedule.schedule_meetings(Some(1), None, None),
        Err(ValidationError::NoSolutionWithinIteration(1))
    ));
    assert!(matches!(
        schedule.schedule_meetings(None, None, None),
        Err(ValidationError::NoSolution)
    ));
}

#[test]
fn rejects_invalid_data() {
    // A zero-duration meeting fails validation before any search runs.
    let schedule = Schedule::new(
        vec![Meeting::new("1", vec![], 0)],
        vec![TimeRange::new(0, 5)],
    );
    assert!(matches!(
        schedule.schedule_meetings(None, None, None),
        Err(ValidationError::InvalidData { .. })
    ));
}

#[test]
fn merge_is_idempotent_on_values() {
    let times = vec![
        TimeRange::new(0, 0),
        TimeRange::new(1, 1),
        TimeRange::new(0, 1),
        TimeRange::new(1, 3),
        TimeRange::new(2, 4),
        TimeRange::new(6, 6),
    ];
    let once = time_merge(&times);
    assert_eq!(once, vec![TimeRange::new(0, 4), TimeRange::new(6, 6)]);
    let twice = time_merge(&once);
    assert_eq!(twice, once);
}

#[test]
fn subtract_across_boundaries() {
    let availability = vec![
        TimeRange::new(0, 9),
        TimeRange::new(22, 24),
        TimeRange::new(30, 35),
    ];
    let blocked = vec![
        TimeRange::new(1, 2),
        TimeRange::new(4, 4),
        TimeRange::new(20, 22),
        TimeRange::new(24, 31),
    ];
    assert_eq!(
        blocks(&availability, &blocked),
        vec![
            TimeRange::new(0, 0),
            TimeRange::new(3, 3),
            TimeRange::new(5, 9),
            TimeRange::new(23, 23),
            TimeRange::new(32, 35),
        ]
    );
}

#[test]
fn counts_saturate_to_none() {
    // The whole grid has one more unit than the grid type can count.
    let times = vec![TimeRange::new(0, u32::MAX)];
    assert_eq!(count_units(&times), None);
    assert_eq!(times.count_pigeons(), None);
}

#[test]
fn windows_of_zero_duration_are_empty() {
    let times = vec![TimeRange::new(0, 4)];
    assert_eq!(windowed(&times, 0), Vec::<TimeRange>::new());
}

#[test]
fn range_constructor_swaps() {
    let t = TimeRange::new(100, 0);
    assert_eq!(t.start(), 0);
    assert_eq!(t.end(), 100);
    assert!(t.validate().is_ok());
    assert!(TimeRange(5, 3).validate().is_err());
}

#[test]
fn participant_with_no_blocks_gets_merged_global() {
    // Overlapping global entries come back coalesced.
    let participant = Participant::new("1", vec![]);
    let available = vec![
        TimeRange::new(0, 3),
        TimeRange::new(2, 6),
        TimeRange::new(8, 8),
    ];
    assert_eq!(
        participant.get_availability(&available),
        vec![TimeRange::new(0, 6), TimeRange::new(8, 8)]
    );
}

#[test]
fn blocks_with_empty_inputs() {
    let available = vec![TimeRange::new(0, 5)];
    let nothing: Vec<TimeRange> = vec![];
    assert_eq!(blocks(&nothing, &available), Vec::<TimeRange>::new());
    assert_eq!(blocks(&available, &nothing), vec![TimeRange::new(0, 5)]);
    // Touching ranges coalesce before subtraction.
    let touching = vec![TimeRange::new(0, 0), TimeRange::new(1, 1)];
    assert_eq!(time_merge(&touching), vec![TimeRange::new(0, 1)]);
}

#[test]
fn meeting_availability_filters_short_stretches() {
    let meeting = Meeting::new("1", vec![TimeRange::new(1, 1)], 2);
    let available = vec![TimeRange::new(0, 4)];
    // Subtraction leaves [0,0] and [2,4]; only the second is long enough.
    assert_eq!(
        meeting.get_availability(&available),
        vec![TimeRange::new(2, 4)]
    );
}

#[test]
fn computes_window_product() {
    // One meeting with four units of spread, one with a single unit, one
    // with no room at all (which counts as one).
    let schedule = Schedule::new(
        vec![
            Meeting::new("wide", vec![], 2),
            Meeting::new("narrow", vec![TimeRange::new(0, 3)], 1),
            Meeting::new("boxed", vec![TimeRange::new(0, 5)], 1),
        ],
        vec![TimeRange::new(0, 5)],
    );
    assert_eq!(schedule.compute_windows(), 4);
}

#[test]
fn validation_message_names_the_meeting() {
    let schedule = Schedule::new(
        vec![Meeting::new("team sync", vec![], 0)],
        vec![TimeRange::new(0, 5)],
    );
    match schedule.schedule_meetings(None, None, None) {
        Err(ValidationError::InvalidData { error }) => {
            assert!(error.contains("team sync"));
        }
        _ => panic!("expected the zero-duration meeting to be rejected"),
    }
}
