use vanargand::codec::{Decode, Encode};
use vanargand::nonce::{Lane, LaneState, Nonce};

#[test]
fn nonces_round_trip() {
    for nonce in [
        Nonce::first(Lane::first()),
        Nonce::new(Lane::new(1), 0),
        Nonce::new(Lane::new(u32::MAX), u64::MAX),
    ] {
        let bytes = nonce.to_canonical_bytes();
        assert_eq!(Nonce::from_canonical_bytes(&bytes), Ok(nonce));
    }
}

#[test]
fn a_lane_is_strictly_sequential() {
    let mut state = LaneState::new();
    let lane = Lane::first();

    assert!(state.accepts(Nonce::new(lane, 0)));
    assert!(!state.accepts(Nonce::new(lane, 1)), "a gap was accepted");

    assert!(state.consume(Nonce::new(lane, 0)));
    assert!(state.accepts(Nonce::new(lane, 1)));
    assert!(!state.accepts(Nonce::new(lane, 0)), "a replay was accepted");
    assert!(!state.accepts(Nonce::new(lane, 2)), "a gap was accepted");
}

#[test]
fn a_rejected_nonce_does_not_advance_the_lane() {
    let mut state = LaneState::new();
    let lane = Lane::first();
    assert!(!state.consume(Nonce::new(lane, 5)));
    assert_eq!(state.next_sequence(lane), 0);
}

#[test]
fn lanes_advance_independently() {
    let mut state = LaneState::new();
    let village = Lane::new(0);
    let city = Lane::new(1);

    assert!(state.consume(Nonce::new(village, 0)));
    assert!(state.consume(Nonce::new(village, 1)));
    assert!(state.consume(Nonce::new(city, 0)));

    assert_eq!(state.next_sequence(village), 2);
    assert_eq!(state.next_sequence(city), 1);
    assert_eq!(state.next_sequence(Lane::new(2)), 0, "an unused lane must start at zero");
}

#[test]
fn a_replay_in_one_lane_does_not_disturb_another() {
    let mut state = LaneState::new();
    state.consume(Nonce::new(Lane::new(0), 0));
    state.consume(Nonce::new(Lane::new(1), 0));
    assert!(!state.consume(Nonce::new(Lane::new(0), 0)));
    assert_eq!(state.next_sequence(Lane::new(1)), 1);
}

#[test]
fn collision_is_within_a_lane_only() {
    assert!(Nonce::new(Lane::new(0), 7).collides_with(Nonce::new(Lane::new(0), 7)));
    assert!(!Nonce::new(Lane::new(0), 7).collides_with(Nonce::new(Lane::new(1), 7)));
    assert!(!Nonce::new(Lane::new(0), 7).collides_with(Nonce::new(Lane::new(0), 8)));
}

#[test]
fn lane_and_sequence_exhaustion_is_none_not_a_wrap() {
    assert_eq!(Lane::new(u32::MAX).next(), None);
    assert_eq!(Lane::new(0).next(), Some(Lane::new(1)));
    assert_eq!(Nonce::new(Lane::first(), u64::MAX).next(), None);

    let mut state = LaneState::new();
    state.restore(Lane::first(), u64::MAX);
    assert!(!state.consume(Nonce::new(Lane::first(), u64::MAX)));
}

#[test]
fn lanes_iterate_in_ascending_order() {
    let mut state = LaneState::new();
    for index in [5_u32, 1, 3, 0] {
        state.consume(Nonce::new(Lane::new(index), 0));
    }
    let observed: Vec<u32> = state.lanes().iter().map(|(lane, _)| lane.index()).collect();
    assert_eq!(observed, vec![0, 1, 3, 5]);
}

#[test]
fn display_is_readable() {
    assert_eq!(Nonce::new(Lane::new(2), 9).to_string(), "2/9");
    assert_eq!(Lane::new(2).to_string(), "lane 2");
}

#[test]
fn the_next_nonce_follows_in_its_lane() {
    assert_eq!(Nonce::new(Lane::new(3), 4).next(), Some(Nonce::new(Lane::new(3), 5)));
    let mut state = LaneState::new();
    state.restore(Lane::new(7), 12);
    assert_eq!(state.next_sequence(Lane::new(7)), 12);
    assert!(state.accepts(Nonce::new(Lane::new(7), 12)));
    assert_eq!(state.lanes(), vec![(Lane::new(7), 12)]);
}
