use dag_scheduler::error::SchedulerError;
use dag_scheduler::map_output_tracker::MapOutputTracker;
use dag_scheduler::partial::PartialJobError;
use dag_scheduler::stage::Stage;

fn text(s: &str) -> String {
    s.to_string()
}

#[test]
fn registering_a_shuffle_makes_empty_slots() {
    let mut t = MapOutputTracker::new();
    assert_eq!(t.register_shuffle(3, 2), Ok(()));
    assert_eq!(t.server_uris[&3], vec![None, None]);
    assert_eq!(t.register_shuffle(4, 0), Ok(()));
    assert_eq!(t.server_uris[&4], Vec::<Option<String>>::new());
    assert_eq!(t.server_uris.len(), 2);
}

#[test]
fn registering_a_shuffle_again_keeps_its_slots() {
    let mut t = MapOutputTracker::new();
    t.register_shuffle(3, 2).unwrap();
    t.register_map_outputs(3, vec![Some(text("x")), None]);
    assert_eq!(t.register_shuffle(3, 2), Ok(()));
    assert_eq!(t.server_uris[&3], vec![Some(text("x")), None]);
}

#[test]
fn registering_a_shuffle_with_another_arity_fails() {
    let mut t = MapOutputTracker::new();
    t.register_shuffle(3, 2).unwrap();
    assert_eq!(
        t.register_shuffle(3, 5),
        Err(SchedulerError::ShuffleArityMismatch { shuffle_id: 3, registered: 2, requested: 5 })
    );
    assert_eq!(t.server_uris[&3], vec![None, None]);
}

#[test]
fn map_outputs_are_set_all_at_once() {
    let mut t = MapOutputTracker::new();
    t.register_shuffle(0, 2).unwrap();
    t.register_map_outputs(0, vec![Some(text("a")), Some(text("b"))]);
    assert_eq!(t.get_map_output(0, 0), Some(text("a")));
    assert_eq!(t.get_map_output(0, 1), Some(text("b")));
    assert_eq!(t.get_map_output(0, 2), None);
    assert_eq!(t.get_map_output(1, 0), None);
    // a shuffle that was never registered is taken in too
    t.register_map_outputs(9, vec![None]);
    assert_eq!(t.server_uris[&9], vec![None]);
    assert_eq!(t.get_map_output(9, 0), None);
}

#[test]
fn unregistering_clears_the_slot_that_holds_the_server() {
    let mut t = MapOutputTracker::new();
    t.register_map_outputs(0, vec![Some(text("a")), Some(text("b"))]);
    t.register_map_outputs(1, vec![Some(text("a"))]);
    t.unregister_map_output(0, 0, &text("a"));
    assert_eq!(t.server_uris[&0], vec![None, Some(text("b"))]);
    assert_eq!(t.server_uris[&1], vec![Some(text("a"))]);
    // a second report of the same failure changes nothing
    t.unregister_map_output(0, 0, &text("a"));
    assert_eq!(t.server_uris[&0], vec![None, Some(text("b"))]);
}

#[test]
fn unregistering_another_server_is_a_no_op() {
    let mut t = MapOutputTracker::new();
    t.register_map_outputs(0, vec![Some(text("a")), Some(text("b"))]);
    t.unregister_map_output(0, 1, &text("a"));
    t.unregister_map_output(0, 7, &text("a"));
    t.unregister_map_output(5, 0, &text("a"));
    assert_eq!(t.server_uris[&0], vec![Some(text("a")), Some(text("b"))]);
    assert_eq!(t.server_uris.len(), 1);
}

#[test]
fn a_stage_is_available_when_every_partition_has_a_location() {
    let mut s = Stage::new(4, 9, 2, None, vec![1, 2]);
    assert_eq!((s.id, s.get_rdd(), s.num_partitions), (4, 9, 2));
    assert_eq!(s.parents, vec![1, 2]);
    assert!(!s.is_available());
    assert!(s.is_missing(0) && s.is_missing(1));
    s.add_output_loc(1, text("x"));
    assert!(!s.is_available());
    assert!(!s.is_missing(1));
    s.add_output_loc(0, text("y"));
    s.add_output_loc(0, text("z"));
    assert!(s.is_available());
    assert_eq!(s.output_locs, vec![vec![text("y"), text("z")], vec![text("x")]]);
}

#[test]
fn a_stage_without_partitions_is_available() {
    let s = Stage::new(0, 0, 0, None, vec![]);
    assert!(s.is_available());
}

#[test]
fn removing_a_location_leaves_the_others() {
    let mut s = Stage::new(0, 0, 2, None, vec![]);
    for host in ["a", "b", "a", "c"] {
        s.add_output_loc(0, text(host));
    }
    s.add_output_loc(1, text("a"));
    s.remove_output_loc(0, &text("a"));
    assert_eq!(s.output_locs, vec![vec![text("b"), text("c")], vec![text("a")]]);
    s.remove_output_loc(0, &text("nowhere"));
    assert_eq!(s.output_locs, vec![vec![text("b"), text("c")], vec![text("a")]]);
    s.remove_output_loc(1, &text("a"));
    assert_eq!(s.output_locs, vec![vec![text("b"), text("c")], vec![]]);
    assert!(!s.is_available());
}

#[test]
fn partial_job_errors_have_their_messages() {
    assert_eq!(
        PartialJobError::SetFinalValTwice.message(),
        "set_final_value called twice on a PartialResult"
    );
    assert_eq!(PartialJobError::Unreachable.message(), "unreachable");
}
