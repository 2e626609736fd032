//! The data carried by a stream session: records, terminal statuses, and the
//! events a chunked transport can deliver.

use vstd::prelude::*;

verus! {

/// Mathematical model of one record.
#[verifier::ext_equal]
pub struct RecordModel {
    pub index: nat,
    pub timestamp: int,
    pub message: Seq<char>,
}

/// One application data unit: a zero-based index assigned by the emitter, the
/// emission time in seconds since the epoch, and a free-form text message.
pub struct Record {
    pub index: u64,
    pub timestamp: i64,
    pub message: String,
}

impl View for Record {
    type V = RecordModel;

    open spec fn view(&self) -> RecordModel {
        RecordModel {
            index: self.index as nat,
            timestamp: self.timestamp as int,
            message: self.message@,
        }
    }
}

/// Model of a session failure.
pub enum ErrorModel {
    /// Reading the next chunk from the transport itself failed.
    Transport(Seq<char>),
    /// The stream ended while a partial frame was still buffered.
    TruncatedStream,
    /// A complete frame was extracted but its bytes are not valid UTF-8.
    Encoding,
    /// A complete frame was valid text but did not match the record shape.
    Decode,
}

/// Why a session failed; any failure is terminal for the whole session.
pub enum StreamError {
    /// Reading the next chunk from the transport itself failed.
    Transport(String),
    /// The stream ended while a partial frame was still buffered.
    TruncatedStream,
    /// A complete frame was extracted but its bytes are not valid UTF-8.
    Encoding,
    /// A complete frame was valid text but did not match the record shape.
    Decode,
}

impl View for StreamError {
    type V = ErrorModel;

    open spec fn view(&self) -> ErrorModel {
        match self {
            StreamError::Transport(d) => ErrorModel::Transport(d@),
            StreamError::TruncatedStream => ErrorModel::TruncatedStream,
            StreamError::Encoding => ErrorModel::Encoding,
            StreamError::Decode => ErrorModel::Decode,
        }
    }
}

/// Model of a session's terminal-status cell.
pub enum StatusModel {
    Pending,
    Completed,
    Failed(ErrorModel),
}

/// The one-time outcome of a stream session: still running, completed
/// cleanly, or failed with the first error observed.
pub enum StreamStatus {
    Pending,
    Completed,
    Failed(StreamError),
}

impl View for StreamStatus {
    type V = StatusModel;

    open spec fn view(&self) -> StatusModel {
        match self {
            StreamStatus::Pending => StatusModel::Pending,
            StreamStatus::Completed => StatusModel::Completed,
            StreamStatus::Failed(e) => StatusModel::Failed(e@),
        }
    }
}

/// Model of one transport event.
pub enum EventModel {
    Data(Seq<u8>),
    Done,
    Error(Seq<char>),
}

/// One event from the chunked transport, decoded once at the transport
/// boundary: the next run of bytes, a clean end of stream, or a read failure.
pub enum ChunkEvent {
    Data(Vec<u8>),
    Done,
    Error(String),
}

impl View for ChunkEvent {
    type V = EventModel;

    open spec fn view(&self) -> EventModel {
        match self {
            ChunkEvent::Data(b) => EventModel::Data(b@),
            ChunkEvent::Done => EventModel::Done,
            ChunkEvent::Error(d) => EventModel::Error(d@),
        }
    }
}

/// A record model that an executable `Record` can hold.
pub open spec fn wf_record(r: RecordModel) -> bool {
    &&& r.index <= u64::MAX
    &&& i64::MIN <= r.timestamp <= i64::MAX
}

} // verus!
