use shamir_mpc::connection::{
    AttemptOutcome, ConnectStep, Connector, ATTEMPT_PAUSE_SECONDS, FAILURE_BACKOFF_SECONDS,
};
use shamir_mpc::protocol::Command;

#[test]
fn pauses_are_three_seconds_and_one() {
    assert_eq!(FAILURE_BACKOFF_SECONDS, 3);
    assert_eq!(ATTEMPT_PAUSE_SECONDS, 1);
}

#[test]
fn peers_are_connected_in_order() {
    let mut c = Connector::new(8080, vec![(2, 8081), (3, 8082)]);
    assert_eq!(c.step(), ConnectStep::Attempt { peer: 2, port: 8081 });
    assert_eq!(
        c.record(true),
        AttemptOutcome::Established { peer: 2, handshake: Command::Hello { port: 8080 } }
    );
    assert_eq!(c.step(), ConnectStep::Attempt { peer: 3, port: 8082 });
    assert_eq!(
        c.record(true),
        AttemptOutcome::Established { peer: 3, handshake: Command::Hello { port: 8080 } }
    );
    assert_eq!(c.step(), ConnectStep::Done);
}

#[test]
fn failed_attempt_is_tried_again_after_four_seconds() {
    let mut c = Connector::new(8080, vec![(2, 8081), (3, 8082)]);
    for _ in 0..10 {
        assert_eq!(c.step(), ConnectStep::Attempt { peer: 2, port: 8081 });
        assert_eq!(c.record(false), AttemptOutcome::Retry { seconds: 4 });
    }
    assert_eq!(c.step(), ConnectStep::Attempt { peer: 2, port: 8081 });
    assert_eq!(
        c.record(true),
        AttemptOutcome::Established { peer: 2, handshake: Command::Hello { port: 8080 } }
    );
    assert_eq!(c.record(false), AttemptOutcome::Retry { seconds: 4 });
    assert_eq!(c.step(), ConnectStep::Attempt { peer: 3, port: 8082 });
}

#[test]
fn nothing_follows_when_all_are_connected() {
    let mut c = Connector::new(8080, Vec::new());
    assert_eq!(c.step(), ConnectStep::Done);
    assert_eq!(c.record(true), AttemptOutcome::Idle);
    assert_eq!(c.record(false), AttemptOutcome::Idle);
    assert_eq!(c.step(), ConnectStep::Done);
}
