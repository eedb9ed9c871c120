use bevy::prelude::Entity;
use bevy_quinn::{
    endpoint_callback, world_event, ConnectionCallback, ConnectionId, EndpointCallback, StreamId,
    WorldEvent,
};
use quinn_proto::VarInt;

#[test]
fn an_endpoint_passes_on_what_its_connections_report() {
    assert!(matches!(
        endpoint_callback(4, ConnectionCallback::SuccessfulConnection(4)),
        Some(EndpointCallback::SuccessfulConnection(4))
    ));
    assert!(matches!(
        endpoint_callback(4, ConnectionCallback::OpenedReceiveStream(StreamId(3))),
        Some(EndpointCallback::OpenedReceiveStream {
            connection_handle: 4,
            stream_id: StreamId(3)
        })
    ));
    assert!(matches!(
        endpoint_callback(4, ConnectionCallback::ClosedReceiveStream(StreamId(3), None)),
        Some(EndpointCallback::ClosedReceiveStream {
            connection_handle: 4,
            stream_id: StreamId(3)
        })
    ));
    assert!(matches!(
        endpoint_callback(
            4,
            ConnectionCallback::ClosedReceiveStream(StreamId(3), Some(VarInt::from_u32(1)))
        ),
        Some(EndpointCallback::ClosedReceiveStream {
            connection_handle: 4,
            stream_id: StreamId(3)
        })
    ));
    assert!(matches!(
        endpoint_callback(4, ConnectionCallback::FinishedReceiveStream(StreamId(3))),
        Some(EndpointCallback::FinishedReceiveStream {
            connection_handle: 4,
            stream_id: StreamId(3)
        })
    ));
    assert!(matches!(
        endpoint_callback(4, ConnectionCallback::OpenedSendStream(StreamId(1))),
        Some(EndpointCallback::OpenedSendStream { connection_handle: 4, stream_id: StreamId(1) })
    ));
    assert!(matches!(
        endpoint_callback(4, ConnectionCallback::ClosedSendStream(StreamId(0), VarInt::from_u32(9))),
        Some(EndpointCallback::ClosedSendStream {
            connection_handle: 4,
            stream_id: StreamId(0),
            error_code
        }) if error_code == VarInt::from_u32(9)
    ));
}

#[test]
fn that_a_connection_is_to_be_removed_is_not_passed_on() {
    assert!(endpoint_callback(4, ConnectionCallback::CloseConnection).is_none());
}

#[test]
fn a_new_connection_is_an_event() {
    let entity = Entity::from_raw(7);
    match world_event(entity, EndpointCallback::SuccessfulConnection(2)) {
        WorldEvent::Connected(event) => {
            assert_eq!(event.endpoint_entity, entity);
            assert_eq!(event.connection, ConnectionId(2));
        }
        _ => unreachable!(),
    }
}

#[test]
fn what_happens_to_receive_streams_is_an_event() {
    let entity = Entity::from_raw(7);
    let connection_handle = 2;
    let stream_id = StreamId(3);
    match world_event(
        entity,
        EndpointCallback::OpenedReceiveStream { connection_handle, stream_id },
    ) {
        WorldEvent::OpenedReceiveStream(event) => {
            assert_eq!(event.endpoint_entity, entity);
            assert_eq!(event.connection, ConnectionId(2));
            assert_eq!(event.stream, stream_id);
        }
        _ => unreachable!(),
    }
    match world_event(
        entity,
        EndpointCallback::ClosedReceiveStream { connection_handle, stream_id },
    ) {
        WorldEvent::ClosedReceiveStream(event) => {
            assert_eq!(event.endpoint_entity, entity);
            assert_eq!(event.connection, ConnectionId(2));
            assert_eq!(event.stream, stream_id);
        }
        _ => unreachable!(),
    }
    match world_event(
        entity,
        EndpointCallback::FinishedReceiveStream { connection_handle, stream_id },
    ) {
        WorldEvent::FinishedReceiveStream(event) => {
            assert_eq!(event.endpoint_entity, entity);
            assert_eq!(event.connection, ConnectionId(2));
            assert_eq!(event.stream, stream_id);
        }
        _ => unreachable!(),
    }
}

#[test]
fn what_happens_to_send_streams_is_an_event() {
    let entity = Entity::from_raw(7);
    let connection_handle = 2;
    let stream_id = StreamId(1);
    match world_event(entity, EndpointCallback::OpenedSendStream { connection_handle, stream_id }) {
        WorldEvent::OpenedSendStream(event) => {
            assert_eq!(event.endpoint_entity, entity);
            assert_eq!(event.connection, ConnectionId(2));
            assert_eq!(event.stream, stream_id);
        }
        _ => unreachable!(),
    }
    let error_code = VarInt::from_u32(6);
    match world_event(
        entity,
        EndpointCallback::ClosedSendStream { connection_handle, stream_id, error_code },
    ) {
        WorldEvent::ClosedSendStream(event) => {
            assert_eq!(event.endpoint_entity, entity);
            assert_eq!(event.connection, ConnectionId(2));
            assert_eq!(event.stream, stream_id);
            assert_eq!(event.error_code, error_code);
        }
        _ => unreachable!(),
    }
}
