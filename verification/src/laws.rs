//! Session-level laws of the protocol.
//!
//! The central guarantee: what a session's observer sees — the sink contents
//! and the terminal status — depends only on the byte stream, never on how
//! the transport happened to cut it into chunks.

use vstd::prelude::*;
use vstd::utf8::{valid_utf8, decode_utf8};
use crate::record::{EventModel, RecordModel, StatusModel};
use crate::session::{SessionModel, init_model, drain, step_model};
use crate::scan::{frame_split, scan_init, lemma_frame_end_bounds, lemma_frame_end_prefix};
use crate::codec::parse_frame_model;

verus! {

/// The session with `t` appended to its partial buffer.
pub open spec fn add_bytes(s: SessionModel, t: Seq<u8>) -> SessionModel {
    SessionModel { buf: s.buf + t, ..s }
}

/// Two sessions that an observer cannot tell apart: the sink contents and the
/// terminal status agree, and while the session is still pending the buffered
/// bytes agree too.
pub open spec fn observably_eq(a: SessionModel, b: SessionModel) -> bool {
    &&& a.records == b.records
    &&& a.status == b.status
    &&& (a.status is Pending ==> a.buf == b.buf)
}

pub proof fn lemma_observe_trans(a: SessionModel, b: SessionModel, c: SessionModel)
    requires
        observably_eq(a, b),
        observably_eq(b, c),
    ensures
        observably_eq(a, c),
{
}

/// A session is settled when draining it again would change nothing.
pub open spec fn settled(s: SessionModel) -> bool {
    drain(s) == s
}

/// Draining is idempotent: every drained session is settled.
pub proof fn lemma_drain_settled(s: SessionModel)
    ensures
        settled(drain(s)),
    decreases s.buf.len(),
{
    if s.status is Pending {
        match frame_split(s.buf) {
            None => {},
            Some(k) => {
                lemma_frame_end_bounds(scan_init(), s.buf);
                let fb = s.buf.take(k as int);
                let rest = s.buf.skip(k as int);
                if valid_utf8(fb) {
                    match parse_frame_model(decode_utf8(fb)) {
                        None => {},
                        Some(rm) => {
                            lemma_drain_settled(
                                SessionModel { records: s.records.push(rm), buf: rest, ..s },
                            );
                        },
                    }
                }
            },
        }
    }
}

/// Draining with extra bytes appended: while the drain stays pending the
/// extra bytes simply pass through; once it fails they sit untouched behind
/// the failure.
proof fn lemma_drain_append(s: SessionModel, t: Seq<u8>)
    requires
        s.status is Pending,
    ensures
        drain(s).status is Pending ==> drain(add_bytes(s, t)) == drain(add_bytes(drain(s), t)),
        !(drain(s).status is Pending) ==> drain(add_bytes(s, t)) == add_bytes(drain(s), t),
    decreases s.buf.len(),
{
    match frame_split(s.buf) {
        None => {
            assert(drain(s) == s);
        },
        Some(k) => {
            lemma_frame_end_bounds(scan_init(), s.buf);
            lemma_frame_end_prefix(scan_init(), s.buf, t, k);
            let fb = s.buf.take(k as int);
            let rest = s.buf.skip(k as int);
            assert((s.buf + t).take(k as int) =~= fb);
            assert((s.buf + t).skip(k as int) =~= rest + t);
            if !valid_utf8(fb) {
                assert(drain(add_bytes(s, t)) =~= add_bytes(drain(s), t));
            } else {
                match parse_frame_model(decode_utf8(fb)) {
                    None => {
                        assert(drain(add_bytes(s, t)) =~= add_bytes(drain(s), t));
                    },
                    Some(rm) => {
                        let s2 = SessionModel { records: s.records.push(rm), buf: rest, ..s };
                        lemma_drain_append(s2, t);
                        assert(add_bytes(s, t).buf.skip(k as int) =~= s2.buf + t);
                        assert(drain(add_bytes(s, t)) == drain(add_bytes(s2, t)));
                        assert(drain(s) == drain(s2));
                    },
                }
            }
        },
    }
}

/// Feeding one byte run and then another is observably the same as feeding
/// their concatenation in one piece.
pub proof fn lemma_data_join(s: SessionModel, a: Seq<u8>, b: Seq<u8>)
    ensures
        observably_eq(
            step_model(step_model(s, EventModel::Data(a)), EventModel::Data(b)),
            step_model(s, EventModel::Data(a + b)),
        ),
{
    if s.status is Pending {
        let s1 = add_bytes(s, a);
        assert((s.buf + a) + b =~= s.buf + (a + b));
        assert(add_bytes(s1, b) == add_bytes(s, a + b));
        let d = drain(s1);
        lemma_drain_append(s1, b);
        if d.status is Pending {
            assert(step_model(d, EventModel::Data(b)) == drain(add_bytes(d, b)));
        }
    }
}

/// The terminal status is set at most once: after a session has completed or
/// failed, no event of any kind changes it — or anything else — again.
pub proof fn lemma_terminal_is_final(s: SessionModel, e: EventModel)
    requires
        !(s.status is Pending),
    ensures
        step_model(s, e) == s,
{
}

/// Observational equality is preserved by any further event.
pub proof fn lemma_observe_step(a: SessionModel, b: SessionModel, e: EventModel)
    requires
        observably_eq(a, b),
    ensures
        observably_eq(step_model(a, e), step_model(b, e)),
{
    if a.status is Pending {
        assert(a =~= b);
    }
}

/// The session after a whole sequence of transport events.
pub open spec fn run(s: SessionModel, es: Seq<EventModel>) -> SessionModel
    decreases es.len(),
{
    if es.len() == 0 {
        s
    } else {
        run(step_model(s, es[0]), es.drop_first())
    }
}

/// One data event per chunk.
pub open spec fn data_events(cs: Seq<Seq<u8>>) -> Seq<EventModel> {
    cs.map_values(|c: Seq<u8>| EventModel::Data(c))
}

/// The chunks, concatenated back into the raw byte stream.
pub open spec fn concat_bytes(cs: Seq<Seq<u8>>) -> Seq<u8>
    decreases cs.len(),
{
    if cs.len() == 0 {
        Seq::empty()
    } else {
        cs[0] + concat_bytes(cs.drop_first())
    }
}

/// Chunk-boundary invariance: feeding a byte stream chunk by chunk, in any
/// fragmentation whatever, is observably the same as feeding the whole stream
/// as one chunk.
pub proof fn lemma_chunking_irrelevant(s: SessionModel, cs: Seq<Seq<u8>>)
    requires
        settled(s),
    ensures
        observably_eq(
            run(s, data_events(cs)),
            step_model(s, EventModel::Data(concat_bytes(cs))),
        ),
    decreases cs.len(),
{
    if cs.len() == 0 {
        assert(s.buf + Seq::<u8>::empty() =~= s.buf);
        if s.status is Pending {
            assert(add_bytes(s, Seq::<u8>::empty()) =~= s);
        }
    } else {
        let s1 = step_model(s, EventModel::Data(cs[0]));
        assert(data_events(cs).drop_first() =~= data_events(cs.drop_first()));
        assert(data_events(cs)[0] == EventModel::Data(cs[0]));
        if s.status is Pending {
            lemma_drain_settled(add_bytes(s, cs[0]));
        }
        lemma_chunking_irrelevant(s1, cs.drop_first());
        lemma_data_join(s, cs[0], concat_bytes(cs.drop_first()));
        lemma_observe_trans(
            run(s, data_events(cs)),
            step_model(s1, EventModel::Data(concat_bytes(cs.drop_first()))),
            step_model(s, EventModel::Data(concat_bytes(cs))),
        );
    }
}

/// The byte stream an emitter produces for a sequence of records: their
/// frames, back to back, with no separator.
pub open spec fn frames_bytes(rs: Seq<RecordModel>) -> Seq<u8>
    decreases rs.len(),
{
    if rs.len() == 0 {
        Seq::empty()
    } else {
        crate::codec::frame_bytes(rs[0]) + frames_bytes(rs.drop_first())
    }
}

/// Draining a buffer that holds exactly a run of well-formed frames pushes
/// every record, in order, and leaves the buffer empty and the session
/// pending.
proof fn lemma_drain_frames(s: SessionModel, rs: Seq<RecordModel>)
    requires
        s.status is Pending,
        s.buf == frames_bytes(rs),
        forall|i: int| 0 <= i < rs.len() ==> crate::record::wf_record(#[trigger] rs[i]),
    ensures
        (drain(s) == SessionModel { records: s.records + rs, buf: Seq::empty(), ..s }),
    decreases rs.len(),
{
    broadcast use vstd::utf8::encode_utf8_valid_utf8;
    broadcast use vstd::utf8::encode_utf8_decode_utf8;

    if rs.len() == 0 {
        assert(frame_split(Seq::<u8>::empty()) is None);
        assert(s.records + Seq::<RecordModel>::empty() =~= s.records);
        assert(drain(s) =~= SessionModel { records: s.records + rs, buf: Seq::empty(), ..s });
    } else {
        let r0 = rs[0];
        let fb = crate::codec::frame_bytes(r0);
        let rest = frames_bytes(rs.drop_first());
        crate::scan::lemma_frame_scan(r0);
        lemma_frame_end_prefix(scan_init(), fb, rest, fb.len() as nat);
        assert(frame_split(s.buf) == Some(fb.len() as nat));
        assert(s.buf.take(fb.len() as int) =~= fb);
        assert(s.buf.skip(fb.len() as int) =~= rest);
        assert(valid_utf8(fb));
        assert(decode_utf8(fb) == crate::codec::frame_chars(r0));
        crate::codec::lemma_frame_round_trip(r0);
        assert(parse_frame_model(decode_utf8(fb)) == Some(r0));
        let s2 = SessionModel { records: s.records.push(r0), buf: rest, ..s };
        lemma_drain_frames(s2, rs.drop_first());
        assert(s.records.push(r0) + rs.drop_first() =~= s.records + rs);
        assert(drain(s) == drain(s2));
    }
}

/// Ordering and completion: a fresh session fed the emitted byte stream of a
/// record sequence — under any fragmentation into chunks whatever — holds
/// exactly those records, in emission order, in its sink even before the end
/// of the stream is signalled; and the end of the stream then completes the
/// session cleanly.
pub proof fn lemma_stream_decodes(rs: Seq<RecordModel>, cs: Seq<Seq<u8>>)
    requires
        forall|i: int| 0 <= i < rs.len() ==> crate::record::wf_record(#[trigger] rs[i]),
        concat_bytes(cs) == frames_bytes(rs),
    ensures
        run(init_model(), data_events(cs)).records == rs,
        ({
            let end = step_model(run(init_model(), data_events(cs)), EventModel::Done);
            &&& end.records == rs
            &&& end.status is Completed
        }),
{
    assert(frame_split(Seq::<u8>::empty()) is None);
    assert(drain(init_model()) == init_model());
    lemma_chunking_irrelevant(init_model(), cs);
    let loaded = SessionModel { buf: frames_bytes(rs), ..init_model() };
    assert(Seq::<u8>::empty() + frames_bytes(rs) =~= frames_bytes(rs));
    assert(add_bytes(init_model(), concat_bytes(cs)) == loaded);
    lemma_drain_frames(loaded, rs);
    assert(Seq::<RecordModel>::empty() + rs =~= rs);
    let one = step_model(init_model(), EventModel::Data(concat_bytes(cs)));
    assert(one.records == rs && one.status is Pending && one.buf.len() == 0);
    let folded = run(init_model(), data_events(cs));
    assert(folded == one);
}

} // verus!
