use multiarchi::status::{merge_last_activity, Status};

#[test]
fn status_codes_round_trip() {
    let all = [Status::Unstarted, Status::InProgress, Status::Goal, Status::AllChecks, Status::Done];
    for (i, status) in all.iter().enumerate() {
        assert_eq!(status.as_i64(), i as i64);
        assert_eq!(Status::from_i64(i as i64), Some(*status));
    }
    assert_eq!(Status::from_i64(5), None);
    assert_eq!(Status::from_i64(-1), None);
}

#[test]
fn status_labels() {
    assert_eq!(Status::Unstarted.as_str(), "Unstarted");
    assert_eq!(Status::InProgress.as_str(), "In Progress");
    assert_eq!(Status::Goal.as_str(), "Goal");
    assert_eq!(Status::AllChecks.as_str(), "All Checks");
    assert_eq!(Status::Done.as_str(), "Done");
}

#[test]
fn merge_unstarted_observation_wins() {
    for start in [Status::Unstarted, Status::InProgress, Status::Goal, Status::AllChecks, Status::Done] {
        let mut status = start;
        status.merge(Status::Unstarted);
        assert_eq!(status, Status::Unstarted);
    }
}

#[test]
fn merge_done_takes_any_observation() {
    for next in [Status::InProgress, Status::Goal, Status::AllChecks, Status::Done] {
        let mut status = Status::Done;
        status.merge(next);
        assert_eq!(status, next);
    }
}

#[test]
fn merge_only_advances_otherwise() {
    let mut status = Status::InProgress;
    status.merge(Status::Goal);
    assert_eq!(status, Status::Goal);
    status.merge(Status::InProgress);
    assert_eq!(status, Status::Goal);
    status.merge(Status::AllChecks);
    assert_eq!(status, Status::Goal);
    status.merge(Status::Done);
    assert_eq!(status, Status::Done);

    let mut status = Status::Unstarted;
    status.merge(Status::AllChecks);
    assert_eq!(status, Status::AllChecks);
    status.merge(Status::Goal);
    assert_eq!(status, Status::AllChecks);
}

#[test]
fn last_activity_merges_to_the_later_one() {
    let mut last = Some(5);
    merge_last_activity(&mut last, Some(9));
    assert_eq!(last, Some(9));
    merge_last_activity(&mut last, Some(3));
    assert_eq!(last, Some(9));
    merge_last_activity(&mut last, None);
    assert_eq!(last, None);
    merge_last_activity(&mut last, Some(4));
    assert_eq!(last, None);
}
