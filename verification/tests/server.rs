use bytes::Bytes;
use sider::command::{Command, ExecutionError, InfoSections, Reply};
use sider::connection::exec::complete_exec;
use sider::persistence::{ReplicationMetadata, Role};
use sider::pubsub::Hub;
use sider::replication::admin::{check_arguments, operation, request, AdminError, Operation};
use sider::replication::protocol::Message;
use sider::resp::{Frame, RespLimits};
use sider::server::{
    check_role, replication_start, starting_position, starting_role, Event, Failure, Reaction,
    Start, Supervisor,
};
use sider::ConfigError;

fn recorded(role: Role) -> Option<ReplicationMetadata> {
    Some(ReplicationMetadata {
        role,
        epoch: [7; 16],
    })
}

#[test]
fn a_recorded_primary_stays_one_and_others_go_by_their_upstream() {
    assert_eq!(starting_role(recorded(Role::Primary), true), Role::Primary);
    assert_eq!(starting_role(recorded(Role::Replica), true), Role::Replica);
    assert_eq!(starting_role(None, true), Role::Replica);
    assert_eq!(starting_role(None, false), Role::Primary);
}

#[test]
fn a_recorded_replica_needs_an_upstream() {
    assert!(matches!(
        check_role(recorded(Role::Replica), false),
        Err(ConfigError::InvalidServerLimits { .. })
    ));
    assert!(check_role(recorded(Role::Replica), true).is_ok());
    assert!(check_role(recorded(Role::Primary), false).is_ok());
    assert!(check_role(None, false).is_ok());
}

#[test]
fn the_position_starts_at_what_was_recorded() {
    let known = starting_position(recorded(Role::Replica), 9);
    assert_eq!((known.epoch, known.sequence), ([7; 16], 9));
    let blank = starting_position(None, 3);
    assert_eq!((blank.epoch, blank.sequence), ([0; 16], 3));
}

#[test]
fn replication_starts_by_role_and_record() {
    assert_eq!(replication_start(false, true), Start::Promote);
    assert_eq!(replication_start(false, false), Start::Promote);
    assert_eq!(replication_start(true, false), Start::Install);
    assert_eq!(replication_start(true, true), Start::Follow);
}

#[test]
fn connections_are_served_refused_and_given_up() {
    let mut state = Supervisor::new(1);
    let accepted = |slot, ready| Event::Accepted { slot, ready };
    assert_eq!(state.react(accepted(true, true)), Reaction::Serve);
    assert_eq!(state.connections, 1);
    assert_eq!(state.react(accepted(false, true)), Reaction::Refuse);
    assert_eq!(state.react(accepted(true, false)), Reaction::GiveUp);
    assert_eq!(state.react(Event::ConnectionEnded), Reaction::Wait);
    assert_eq!(state.connections, 0);
}

#[test]
fn a_stopped_server_drains_and_ends_without_failure() {
    let mut state = Supervisor::new(2);
    let accepted = Event::Accepted {
        slot: true,
        ready: true,
    };
    assert_eq!(state.react(accepted), Reaction::Serve);
    assert_eq!(state.react(Event::Stop), Reaction::Drain);
    assert_eq!(state.react(accepted), Reaction::Refuse);
    assert_eq!(state.settle(), Reaction::Wait);
    let ended = Event::WorkerEnded { failed: false };
    assert_eq!(state.react(ended), Reaction::Wait);
    assert_eq!(state.react(ended), Reaction::Wait);
    assert_eq!(state.react(Event::ConnectionEnded), Reaction::End);
    assert_eq!(state.outcome(), Ok(()));
}

#[test]
fn the_first_failure_is_the_one_told() {
    let mut state = Supervisor::new(2);
    let ended = |failed| Event::WorkerEnded { failed };
    assert_eq!(state.react(ended(false)), Reaction::Drain);
    assert_eq!(state.react(ended(true)), Reaction::End);
    assert_eq!(state.outcome(), Err(Failure::WorkerStopped));

    let mut state = Supervisor::new(2);
    assert_eq!(state.react(ended(true)), Reaction::Drain);
    assert_eq!(state.outcome(), Err(Failure::WorkerFailed));

    let mut state = Supervisor::new(1);
    assert_eq!(state.react(Event::AcceptFailed), Reaction::Drain);
    assert_eq!(state.outcome(), Err(Failure::Listener));
}

#[test]
fn a_deadline_aborts_what_is_left() {
    let mut state = Supervisor::new(1);
    assert_eq!(state.react(Event::Stop), Reaction::Drain);
    assert_eq!(state.react(Event::DeadlineReached), Reaction::Abort);
    assert_eq!(state.settle(), Reaction::End);
    assert_eq!(state.outcome(), Err(Failure::ShutdownTimeout));
}

#[test]
fn operators_ask_by_address_and_operation() {
    assert_eq!(check_arguments(3, b"--addr"), Ok(()));
    assert_eq!(check_arguments(2, b"--addr"), Err(AdminError::Arguments));
    assert_eq!(check_arguments(3, b"--port"), Err(AdminError::Arguments));
    assert_eq!(operation(b"--status", false), Ok(Operation::Status));
    assert_eq!(operation(b"--promote", true), Ok(Operation::Promote));
    assert_eq!(operation(b"--promote", false), Err(AdminError::Remote));
    assert_eq!(operation(b"--stop", true), Err(AdminError::Unknown));
    assert_eq!(request(Operation::Status), Message::StatusRequest);
    assert_eq!(request(Operation::Promote), Message::Promote);
    assert_eq!(
        AdminError::Remote.message(),
        "promoção exige endereço de loopback"
    );
}

#[test]
fn diagnoses_name_the_rule_and_never_the_value() {
    let limits = ConfigError::InvalidServerLimits { reason: "rule" };
    assert_eq!(limits.reason(), "rule");
    let resp = ConfigError::InvalidRespLimits { reason: "other" };
    assert_eq!(resp.reason(), "other");
    let number = ConfigError::InvalidInteger {
        name: "SIDER_SHARDS",
        value: "secret".to_string(),
    };
    assert_eq!(number.reason(), "SIDER_SHARDS");
    let text = ConfigError::NonUnicodeValue {
        name: "SIDER_AOF_DIR",
    };
    assert_eq!(text.reason(), "SIDER_AOF_DIR");
    let address = ConfigError::InvalidAddress {
        value: "secret".to_string(),
    };
    assert_eq!(address.reason(), "SIDER_ADDR");
    assert_eq!(ConfigError::NonUnicodeAddress.reason(), "SIDER_ADDR");
}

fn commands() -> Vec<Command> {
    vec![
        Command::Ping(None),
        Command::Publish {
            channel: Bytes::from_static(b"a"),
            message: Bytes::from_static(b"news"),
        },
        Command::Info(InfoSections::all()),
    ]
}

fn texts() -> Vec<Option<Bytes>> {
    vec![None, None, Some(Bytes::from_static(b"# Server\r\n"))]
}

#[test]
fn a_transaction_publishes_and_tells_in_its_order() {
    let mut hub = Hub::new();
    let listener = hub.connect(1, 4).unwrap();
    listener
        .subscribe(&mut hub, vec![Bytes::from_static(b"a")])
        .unwrap();
    let reply = Reply::Array(vec![
        Reply::Pong,
        Reply::Error(ExecutionError::ConnectionOnly),
        Reply::Error(ExecutionError::ConnectionOnly),
    ]);
    let frame = complete_exec(
        &mut hub,
        &commands(),
        &reply,
        &texts(),
        RespLimits::default(),
    );
    assert_eq!(
        frame,
        Frame::Array(Some(vec![
            Frame::Simple(Bytes::from_static(b"PONG")),
            Frame::Integer(1),
            Frame::Bulk(Some(Bytes::from_static(b"# Server\r\n"))),
        ]))
    );
    let message = listener.try_message(&mut hub).unwrap();
    assert_eq!(message.payload, Bytes::from_static(b"news"));
}

#[test]
fn a_refused_transaction_publishes_nothing() {
    let mut hub = Hub::new();
    let listener = hub.connect(1, 4).unwrap();
    listener
        .subscribe(&mut hub, vec![Bytes::from_static(b"a")])
        .unwrap();
    for (reply, expected) in [
        (Reply::NullArray, Frame::Array(None)),
        (
            Reply::Error(ExecutionError::AofRecordLimit),
            Frame::Error(Bytes::from_static(b"ERR AOF record limit exceeded")),
        ),
    ] {
        let frame = complete_exec(
            &mut hub,
            &commands(),
            &reply,
            &texts(),
            RespLimits::default(),
        );
        assert_eq!(frame, expected);
        assert!(listener.try_message(&mut hub).is_none());
    }
}
