//! What happens on the endpoints of a world, as the systems of an application learn of it.

use bevy::prelude::Entity;
use vstd::prelude::*;

use crate::endpoint::EndpointCallback;
use crate::ids::{ConnectionId, StreamId};

verus! {

#[verifier::external_type_specification]
#[verifier::external_body]
pub struct ExEntity(Entity);

/// Fired when a new connection has been successfully opened.
pub struct Connected {
    pub endpoint_entity: Entity,
    pub connection: ConnectionId,
}

/// A receive stream was opened by another endpoint.
///
/// This will not be fired for streams opened by this endpoint.
pub struct OpenedReceiveStream {
    pub endpoint_entity: Entity,
    pub connection: ConnectionId,
    pub stream: StreamId,
}

/// A receive stream was closed by another endpoint.
///
/// This does not mean that the data has been entirely read,
/// just that no more data will be received.
///
/// [`FinishedReceiveStream`] will be fired once all the data has been read.
pub struct ClosedReceiveStream {
    pub endpoint_entity: Entity,
    pub connection: ConnectionId,
    pub stream: StreamId,
}

/// A receive stream's data has been entirely read.
pub struct FinishedReceiveStream {
    pub endpoint_entity: Entity,
    pub connection: ConnectionId,
    pub stream: StreamId,
}

/// A new send stream has been opened by another endpoint.
///
/// This will not be fired for streams opened by this endpoint.
pub struct OpenedSendStream {
    pub endpoint_entity: Entity,
    pub connection: ConnectionId,
    pub stream: StreamId,
}

/// A send stream was closed by another endpoint.
///
/// This will not be fired for streams closed by this endpoint.
pub struct ClosedSendStream {
    pub endpoint_entity: Entity,
    pub connection: ConnectionId,
    pub stream: StreamId,
    pub error_code: quinn_proto::VarInt,
}

/// Any of the events.
pub enum WorldEvent {
    Connected(Connected),
    OpenedReceiveStream(OpenedReceiveStream),
    ClosedReceiveStream(ClosedReceiveStream),
    FinishedReceiveStream(FinishedReceiveStream),
    OpenedSendStream(OpenedSendStream),
    ClosedSendStream(ClosedSendStream),
}

/// The event to be fired when the endpoint of that entity reports something.
pub open spec fn event_of(endpoint_entity: Entity, callback: EndpointCallback) -> WorldEvent {
    match callback {
        EndpointCallback::SuccessfulConnection(handle) => WorldEvent::Connected(
            Connected { endpoint_entity, connection: ConnectionId(handle) },
        ),
        EndpointCallback::OpenedReceiveStream {
            connection_handle,
            stream_id,
        } => WorldEvent::OpenedReceiveStream(
            OpenedReceiveStream {
                endpoint_entity,
                connection: ConnectionId(connection_handle),
                stream: stream_id,
            },
        ),
        EndpointCallback::ClosedReceiveStream {
            connection_handle,
            stream_id,
        } => WorldEvent::ClosedReceiveStream(
            ClosedReceiveStream {
                endpoint_entity,
                connection: ConnectionId(connection_handle),
                stream: stream_id,
            },
        ),
        EndpointCallback::FinishedReceiveStream {
            connection_handle,
            stream_id,
        } => WorldEvent::FinishedReceiveStream(
            FinishedReceiveStream {
                endpoint_entity,
                connection: ConnectionId(connection_handle),
                stream: stream_id,
            },
        ),
        EndpointCallback::OpenedSendStream {
            connection_handle,
            stream_id,
        } => WorldEvent::OpenedSendStream(
            OpenedSendStream {
                endpoint_entity,
                connection: ConnectionId(connection_handle),
                stream: stream_id,
            },
        ),
        EndpointCallback::ClosedSendStream {
            connection_handle,
            stream_id,
            error_code,
        } => WorldEvent::ClosedSendStream(
            ClosedSendStream {
                endpoint_entity,
                connection: ConnectionId(connection_handle),
                stream: stream_id,
                error_code,
            },
        ),
    }
}

/// Whether the event is of the kind of that report, and names the entity of the endpoint, and the
/// connection, the stream and the error code of the report.
pub open spec fn tells(event: WorldEvent, entity: Entity, report: EndpointCallback) -> bool {
    match event {
        WorldEvent::Connected(e) => report is SuccessfulConnection && e.endpoint_entity == entity
            && e.connection.0 == report->SuccessfulConnection_0,
        WorldEvent::OpenedReceiveStream(e) => report is OpenedReceiveStream && e.endpoint_entity
            == entity && e.connection.0 == report->OpenedReceiveStream_connection_handle && e.stream
            == report->OpenedReceiveStream_stream_id,
        WorldEvent::ClosedReceiveStream(e) => report is ClosedReceiveStream && e.endpoint_entity
            == entity && e.connection.0 == report->ClosedReceiveStream_connection_handle && e.stream
            == report->ClosedReceiveStream_stream_id,
        WorldEvent::FinishedReceiveStream(e) => report is FinishedReceiveStream
            && e.endpoint_entity == entity && e.connection.0
            == report->FinishedReceiveStream_connection_handle && e.stream
            == report->FinishedReceiveStream_stream_id,
        WorldEvent::OpenedSendStream(e) => report is OpenedSendStream && e.endpoint_entity == entity
            && e.connection.0 == report->OpenedSendStream_connection_handle && e.stream
            == report->OpenedSendStream_stream_id,
        WorldEvent::ClosedSendStream(e) => report is ClosedSendStream && e.endpoint_entity == entity
            && e.connection.0 == report->ClosedSendStream_connection_handle && e.stream
            == report->ClosedSendStream_stream_id && e.error_code
            == report->ClosedSendStream_error_code,
    }
}

/// The event that is fired has the kind of the report: there are as many kinds of the one as of
/// the other, and none is taken for another.
pub proof fn law_events_are_of_the_kind_of_the_report(entity: Entity, report: EndpointCallback)
    ensures
        ({
            let event = event_of(entity, report);
            &&& event is Connected <==> report is SuccessfulConnection
            &&& event is OpenedReceiveStream <==> report is OpenedReceiveStream
            &&& event is ClosedReceiveStream <==> report is ClosedReceiveStream
            &&& event is FinishedReceiveStream <==> report is FinishedReceiveStream
            &&& event is OpenedSendStream <==> report is OpenedSendStream
            &&& event is ClosedSendStream <==> report is ClosedSendStream
        }),
{
}

/// The event that is fired names what the report is about: the entity is that of the endpoint, and
/// the connection, the stream and the error code are those of the report.
pub proof fn law_events_name_what_the_report_is_about(entity: Entity, report: EndpointCallback)
    ensures
        ({
            let event = event_of(entity, report);
            &&& report matches EndpointCallback::SuccessfulConnection(handle) ==> {
                event == WorldEvent::Connected(
                    Connected { endpoint_entity: entity, connection: ConnectionId(handle) },
                )
            }
            &&& event matches WorldEvent::OpenedReceiveStream(e) ==> e.endpoint_entity == entity
                && report == (EndpointCallback::OpenedReceiveStream {
                connection_handle: e.connection.0,
                stream_id: e.stream,
            })
            &&& event matches WorldEvent::ClosedReceiveStream(e) ==> e.endpoint_entity == entity
                && report == (EndpointCallback::ClosedReceiveStream {
                connection_handle: e.connection.0,
                stream_id: e.stream,
            })
            &&& event matches WorldEvent::FinishedReceiveStream(e) ==> e.endpoint_entity == entity
                && report == (EndpointCallback::FinishedReceiveStream {
                connection_handle: e.connection.0,
                stream_id: e.stream,
            })
            &&& event matches WorldEvent::OpenedSendStream(e) ==> e.endpoint_entity == entity
                && report == (EndpointCallback::OpenedSendStream {
                connection_handle: e.connection.0,
                stream_id: e.stream,
            })
            &&& event matches WorldEvent::ClosedSendStream(e) ==> e.endpoint_entity == entity
                && report == (EndpointCallback::ClosedSendStream {
                connection_handle: e.connection.0,
                stream_id: e.stream,
                error_code: e.error_code,
            })
        }),
{
}

/// An event tells what was reported: different reports, or reports of endpoints of different
/// entities, fire different events.
pub proof fn law_events_tell_reports_apart(
    entity: Entity,
    report: EndpointCallback,
    other_entity: Entity,
    other_report: EndpointCallback,
)
    requires
        event_of(entity, report) == event_of(other_entity, other_report),
    ensures
        entity == other_entity,
        report == other_report,
{
}

/// Makes the event to be fired when the endpoint of that entity reports something.
pub fn world_event(endpoint_entity: Entity, callback: EndpointCallback) -> (r: WorldEvent)
    ensures
        r == event_of(endpoint_entity, callback),
        tells(r, endpoint_entity, callback),
{
    match callback {
        EndpointCallback::SuccessfulConnection(handle) => WorldEvent::Connected(
            Connected { endpoint_entity, connection: ConnectionId(handle) },
        ),
        EndpointCallback::OpenedReceiveStream {
            connection_handle,
            stream_id,
        } => WorldEvent::OpenedReceiveStream(
            OpenedReceiveStream {
                endpoint_entity,
                connection: ConnectionId(connection_handle),
                stream: stream_id,
            },
        ),
        EndpointCallback::ClosedReceiveStream {
            connection_handle,
            stream_id,
        } => WorldEvent::ClosedReceiveStream(
            ClosedReceiveStream {
                endpoint_entity,
                connection: ConnectionId(connection_handle),
                stream: stream_id,
            },
        ),
        EndpointCallback::FinishedReceiveStream {
            connection_handle,
            stream_id,
        } => WorldEvent::FinishedReceiveStream(
            FinishedReceiveStream {
                endpoint_entity,
                connection: ConnectionId(connection_handle),
                stream: stream_id,
            },
        ),
        EndpointCallback::OpenedSendStream {
            connection_handle,
            stream_id,
        } => WorldEvent::OpenedSendStream(
            OpenedSendStream {
                endpoint_entity,
                connection: ConnectionId(connection_handle),
                stream: stream_id,
            },
        ),
        EndpointCallback::ClosedSendStream {
            connection_handle,
            stream_id,
            error_code,
        } => WorldEvent::ClosedSendStream(
            ClosedSendStream {
                endpoint_entity,
                connection: ConnectionId(connection_handle),
                stream: stream_id,
                error_code,
            },
        ),
    }
}

} // verus!
