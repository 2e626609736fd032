//! The stream session: the decoder's state machine.
//!
//! A session owns the partial buffer, the append-only sequence of decoded
//! records (the sink), and the one-time terminal status. Each transport event
//! advances the session by one step: data bytes are appended to the buffer
//! and every complete frame is extracted, checked as UTF-8, parsed, and its
//! record pushed to the sink; end of stream completes the session (or marks
//! it truncated if bytes remain); a read error fails it. Any failure is
//! terminal: later events are ignored.

use vstd::prelude::*;
use vstd::utf8::{valid_utf8, decode_utf8};
use crate::record::{Record, RecordModel, StreamStatus, StatusModel, StreamError, ErrorModel,
    ChunkEvent, EventModel};
use crate::codec::{parse_frame, parse_frame_model, string_from_utf8};
use crate::scan::{frame_split, scan_init, find_frame_end, lemma_frame_end_bounds};

verus! {

/// Model of one session: sink contents, terminal status, partial buffer.
#[verifier::ext_equal]
pub struct SessionModel {
    pub records: Seq<RecordModel>,
    pub status: StatusModel,
    pub buf: Seq<u8>,
}

/// A fresh session: nothing decoded, nothing buffered, no outcome yet.
pub open spec fn init_model() -> SessionModel {
    SessionModel { records: Seq::empty(), status: StatusModel::Pending, buf: Seq::empty() }
}

/// Extracts and handles complete frames from the front of the buffer until
/// none is complete or the session has failed.
pub open spec fn drain(s: SessionModel) -> SessionModel
    decreases s.buf.len(),
    via drain_decreases
{
    if !(s.status is Pending) {
        s
    } else {
        match frame_split(s.buf) {
            None => s,
            Some(k) => {
                let fb = s.buf.take(k as int);
                let rest = s.buf.skip(k as int);
                if !valid_utf8(fb) {
                    SessionModel {
                        status: StatusModel::Failed(ErrorModel::Encoding),
                        buf: rest,
                        ..s
                    }
                } else {
                    match parse_frame_model(decode_utf8(fb)) {
                        None => SessionModel {
                            status: StatusModel::Failed(ErrorModel::Decode),
                            buf: rest,
                            ..s
                        },
                        Some(rm) => drain(
                            SessionModel { records: s.records.push(rm), buf: rest, ..s },
                        ),
                    }
                }
            },
        }
    }
}

#[via_fn]
proof fn drain_decreases(s: SessionModel) {
    lemma_frame_end_bounds(scan_init(), s.buf);
}

/// What one transport event does to a session. Events after the terminal
/// status is set change nothing.
pub open spec fn step_model(s: SessionModel, e: EventModel) -> SessionModel {
    if !(s.status is Pending) {
        s
    } else {
        match e {
            EventModel::Error(d) => SessionModel {
                status: StatusModel::Failed(ErrorModel::Transport(d)),
                ..s
            },
            EventModel::Done => if s.buf.len() == 0 {
                SessionModel { status: StatusModel::Completed, ..s }
            } else {
                SessionModel { status: StatusModel::Failed(ErrorModel::TruncatedStream), ..s }
            },
            EventModel::Data(b) => drain(SessionModel { buf: s.buf + b, ..s }),
        }
    }
}

/// One decoder session over one byte stream.
pub struct Session {
    records: Vec<Record>,
    status: StreamStatus,
    buf: Vec<u8>,
}

impl View for Session {
    type V = SessionModel;

    closed spec fn view(&self) -> SessionModel {
        SessionModel {
            records: self.records@.map_values(|r: Record| r@),
            status: self.status@,
            buf: self.buf@,
        }
    }
}

impl Session {
    /// Opens a fresh session.
    pub fn new() -> (s: Session)
        ensures
            s@ == init_model(),
    {
        let s = Session {
            records: Vec::new(),
            status: StreamStatus::Pending,
            buf: Vec::new(),
        };
        proof {
            assert(s@.records =~= init_model().records);
            assert(s@.buf =~= init_model().buf);
        }
        s
    }

    /// The sink: every record decoded so far, in stream order.
    pub fn records(&self) -> (r: &Vec<Record>)
        ensures
            r@.map_values(|rec: Record| rec@) == self@.records,
    {
        &self.records
    }

    /// The terminal-status cell.
    pub fn status(&self) -> (st: &StreamStatus)
        ensures
            st@ == self@.status,
    {
        &self.status
    }

    /// Advances the session by one transport event.
    pub fn step(&mut self, e: ChunkEvent)
        ensures
            final(self)@ == step_model(old(self)@, e@),
    {
        match &self.status {
            StreamStatus::Pending => {},
            _ => {
                return ;
            },
        }
        match e {
            ChunkEvent::Error(d) => {
                self.status = StreamStatus::Failed(StreamError::Transport(d));
            },
            ChunkEvent::Done => {
                if self.buf.len() == 0 {
                    self.status = StreamStatus::Completed;
                } else {
                    self.status = StreamStatus::Failed(StreamError::TruncatedStream);
                }
            },
            ChunkEvent::Data(mut b) => {
                self.buf.append(&mut b);
                self.drain_frames();
            },
        }
    }

    /// Extracts, checks, and parses every complete frame in the buffer,
    /// pushing each record to the sink, until no frame is complete or the
    /// session has failed.
    fn drain_frames(&mut self)
        requires
            old(self)@.status is Pending,
        ensures
            final(self)@ == drain(old(self)@),
    {
        loop
            invariant
                self@.status is Pending,
                drain(self@) == drain(old(self)@),
            decreases self.buf@.len(),
        {
            let ghost prev = self@;
            let k = match find_frame_end(&self.buf) {
                None => {
                    return ;
                },
                Some(k) => k,
            };
            proof {
                lemma_frame_end_bounds(scan_init(), self.buf@);
            }
            let mut tail = self.buf.split_off(k);
            core::mem::swap(&mut self.buf, &mut tail);
            let fb = tail;
            proof {
                assert(fb@ =~= prev.buf.take(k as int));
                assert(self.buf@ =~= prev.buf.skip(k as int));
            }
            match string_from_utf8(fb) {
                None => {
                    self.status = StreamStatus::Failed(StreamError::Encoding);
                    return ;
                },
                Some(text) => {
                    match parse_frame(text.as_str()) {
                        None => {
                            self.status = StreamStatus::Failed(StreamError::Decode);
                            return ;
                        },
                        Some(rec) => {
                            self.records.push(rec);
                            proof {
                                let rm = parse_frame_model(
                                    decode_utf8(prev.buf.take(k as int)),
                                ).unwrap();
                                assert(self@.records =~= prev.records.push(rm));
                                assert(self@ == SessionModel {
                                    records: prev.records.push(rm),
                                    buf: prev.buf.skip(k as int),
                                    ..prev
                                });
                            }
                        },
                    }
                },
            }
        }
    }
}

} // verus!
