use relaydrop::crypto::derive_key;
use relaydrop::framed::{open_next, seal_msg, Msg, RecvError};
use relaydrop::relay::{
    handshake_step, pipe_step, reply_to, Admission, DropReason, HandshakeStep, PipeEvent, PipeStep,
    Relay, Seated, Side, Stage,
};

const SECOND: u128 = 1_000_000_000;

fn wait<C>(seated: Seated<C>) {
    assert!(matches!(seated, Seated::Waiting));
}

fn pair<C: Default>(relay: &mut Relay<C>, room: &str) -> C {
    match relay.seat(room, C::default(), true, 0) {
        Seated::Paired { first, .. } => first,
        _ => panic!("nobody waits in {room}"),
    }
}

#[test]
fn a_room_has_two_seats() {
    let mut relay: Relay<&str> = Relay::new("pw", 300 * SECOND);
    assert_eq!(relay.admission_to("r"), Admission::First);
    wait(relay.seat("r", "alice", true, 5));
    assert_eq!(relay.admission_to("r"), Admission::Second);
    assert_eq!(pair(&mut relay, "r"), "alice");
    assert_eq!(relay.admission_to("r"), Admission::Full);
    relay.release("r");
    assert_eq!(relay.admission_to("r"), Admission::First);
}

#[test]
fn rooms_do_not_disturb_each_other() {
    let mut relay: Relay<u32> = Relay::new("pw", 300 * SECOND);
    wait(relay.seat("a", 1, true, 0));
    wait(relay.seat("b", 2, true, 0));
    wait(relay.seat("c", 3, true, 0));
    assert_eq!(pair(&mut relay, "a"), 1);
    assert_eq!(relay.admission_to("b"), Admission::Second);
    relay.release("a");
    assert_eq!(pair(&mut relay, "c"), 3);
    assert_eq!(pair(&mut relay, "b"), 2);
    assert_eq!(relay.admission_to("a"), Admission::First);
}

#[test]
fn releasing_spares_a_waiting_peer() {
    let mut relay: Relay<u32> = Relay::new("pw", 300 * SECOND);
    wait(relay.seat("a", 1, true, 0));
    relay.release("a");
    assert_eq!(relay.admission_to("a"), Admission::Second);
    relay.release("none");
}

#[test]
fn a_wait_ends_with_its_time_to_live() {
    let mut relay: Relay<u32> = Relay::new("pw", 10 * SECOND);
    wait(relay.seat("a", 1, true, 100 * SECOND));
    assert_eq!(relay.expire("a", 110 * SECOND - 1), None);
    assert_eq!(relay.expire("b", 500 * SECOND), None);
    assert_eq!(relay.expire("a", 110 * SECOND), Some(1));
    assert_eq!(relay.admission_to("a"), Admission::First);
}

#[test]
fn a_paired_room_does_not_expire() {
    let mut relay: Relay<u32> = Relay::new("pw", 10 * SECOND);
    wait(relay.seat("a", 1, true, 0));
    pair(&mut relay, "a");
    assert_eq!(relay.expire("a", 10_000 * SECOND), None);
    assert!(relay.evict_stale(10_000 * SECOND).is_empty());
    assert_eq!(relay.admission_to("a"), Admission::Full);
}

#[test]
fn a_sweep_takes_exactly_the_stale_rooms() {
    let mut relay: Relay<u32> = Relay::new("pw", 10 * SECOND);
    wait(relay.seat("old", 1, true, 0));
    wait(relay.seat("edge", 2, true, 90 * SECOND));
    wait(relay.seat("new", 3, true, 95 * SECOND));
    wait(relay.seat("busy", 4, true, 0));
    wait(relay.seat("older", 5, true, 1));
    pair(&mut relay, "busy");
    let mut gone = relay.evict_stale(100 * SECOND);
    gone.sort();
    assert_eq!(gone, vec![("old".to_string(), 1), ("older".to_string(), 5)]);
    assert!(relay.evict_stale(100 * SECOND).is_empty());
    assert_eq!(relay.admission_to("edge"), Admission::Second);
    assert_eq!(relay.admission_to("new"), Admission::Second);
    assert_eq!(relay.admission_to("busy"), Admission::Full);
}

#[test]
fn a_clock_before_the_opening_counts_as_no_time() {
    let mut relay: Relay<u32> = Relay::new("pw", 10 * SECOND);
    wait(relay.seat("a", 1, true, 100 * SECOND));
    assert!(relay.evict_stale(50 * SECOND).is_empty());
    assert_eq!(relay.expire("a", 0), None);
}

#[test]
fn sweep_intervals() {
    let relay: Relay<u32> = Relay::new("pw", 300 * SECOND);
    assert_eq!(relay.sweep_interval(), 150 * SECOND);
    let relay: Relay<u32> = Relay::new("pw", 10 * SECOND);
    assert_eq!(relay.sweep_interval(), 5 * SECOND);
    let relay: Relay<u32> = Relay::new("pw", 0);
    assert_eq!(relay.sweep_interval(), 5 * SECOND);
}

#[test]
fn the_relay_key_comes_from_the_password() {
    let relay: Relay<u32> = Relay::new("pw", 0);
    assert_eq!(relay.relay_key(), derive_key(b"pw"));
}

#[test]
fn answers() {
    assert!(matches!(reply_to(Admission::First), Msg::Ready));
    assert!(matches!(reply_to(Admission::Second), Msg::Ready));
    assert!(matches!(reply_to(Admission::Full), Msg::RoomFull));
}

#[test]
fn handshakes() {
    let password = || Ok(Some(Msg::Password { enc: vec![] }));
    let join = || Ok(Some(Msg::RoomJoin { room: "r".into() }));
    assert!(matches!(
        handshake_step(Stage::AwaitPassword, password()),
        HandshakeStep::Continue(Stage::AwaitRoom)
    ));
    assert!(matches!(
        handshake_step(Stage::AwaitPassword, join()),
        HandshakeStep::Drop(DropReason::NoPassword)
    ));
    assert!(matches!(
        handshake_step(Stage::AwaitPassword, Ok(None)),
        HandshakeStep::Drop(DropReason::NoPassword)
    ));
    assert!(matches!(
        handshake_step(Stage::AwaitPassword, Err(RecvError::Transport)),
        HandshakeStep::Drop(DropReason::Unreadable(RecvError::Transport))
    ));
    assert!(matches!(
        handshake_step(Stage::AwaitRoom, join()),
        HandshakeStep::Join { room } if room == "r"
    ));
    assert!(matches!(
        handshake_step(Stage::AwaitRoom, password()),
        HandshakeStep::Drop(DropReason::NoRoom)
    ));
    assert!(matches!(
        handshake_step(Stage::AwaitRoom, Ok(None)),
        HandshakeStep::Drop(DropReason::NoRoom)
    ));
    assert!(matches!(
        handshake_step(Stage::AwaitRoom, Err(RecvError::Malformed)),
        HandshakeStep::Fail(RecvError::Malformed)
    ));
}

#[test]
fn a_wrong_password_is_dropped() {
    let frame = seal_msg(&derive_key(b"wrong"), &Msg::Password { enc: vec![] });
    let incoming = open_next(&derive_key(b"right"), frame);
    assert!(matches!(
        handshake_step(Stage::AwaitPassword, incoming),
        HandshakeStep::Drop(DropReason::Unreadable(RecvError::Sealed(_)))
    ));
}

#[test]
fn the_pipe_forwards_until_something_else_happens() {
    let step = pipe_step(PipeEvent::Received { from: Side::First, frame: vec![1, 2] });
    assert!(matches!(step, PipeStep::Forward { to: Side::Second, frame } if frame == vec![1, 2]));
    let step = pipe_step(PipeEvent::Received { from: Side::Second, frame: vec![] });
    assert!(matches!(step, PipeStep::Forward { to: Side::First, frame } if frame.is_empty()));
    assert!(matches!(pipe_step(PipeEvent::Closed { from: Side::First }), PipeStep::Stop));
    assert!(matches!(pipe_step(PipeEvent::ReadFailed { from: Side::Second }), PipeStep::Stop));
    assert!(matches!(pipe_step(PipeEvent::WriteFailed { to: Side::First }), PipeStep::Stop));
}

#[test]
fn a_peer_that_cannot_be_answered_gets_no_place() {
    let mut relay: Relay<u32> = Relay::new("pw", 300 * SECOND);
    assert!(matches!(relay.seat("r", 1, false, 0), Seated::Lost(1)));
    assert_eq!(relay.admission_to("r"), Admission::First);
    wait(relay.seat("r", 2, true, 0));
    assert!(matches!(relay.seat("r", 3, false, 0), Seated::Lost(3)));
    assert!(matches!(
        relay.seat("r", 4, true, 0),
        Seated::Paired { first: 2, second: 4 }
    ));
    assert!(matches!(relay.seat("r", 5, true, 0), Seated::TurnedAway(5)));
    assert_eq!(relay.admission_to("r"), Admission::Full);
}

#[test]
fn what_is_said_about_a_dropped_connection() {
    assert_eq!(DropReason::NoPassword.text("x"), "missing Password handshake, dropping");
    assert_eq!(DropReason::NoRoom.text("x"), "expected RoomJoin, dropping");
    assert_eq!(
        DropReason::Unreadable(RecvError::Malformed).text("why"),
        "decrypt failed (likely --password mismatch with relay): why"
    );
}
