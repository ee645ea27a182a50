//! The per-connection state machine. A connection moves strictly forward
//! through Reading, Writing and Flushing, and ends Done or Failed; each
//! transition consumes the prior state and is driven by one I/O event that
//! the surrounding loop reports. No transition performs I/O itself.
use vstd::prelude::*;

use crate::request::{assemble, assemble_spec, AssembledV};
use crate::response::{build_400, dispatch, dispatch_spec, resp_400};

verus! {

/// The most a connection may buffer while a request is still incomplete;
/// beyond it the request is refused rather than buffered further.
pub const MAX_REQUEST_BYTES: usize = 65536;

/// What one attempt to advance a connection concluded: the request/response
/// exchange finished, is still waiting for readiness, or failed.
pub enum ConnectionStatus {
    Complete,
    WouldBlock,
    Error,
}

/// What a read attempt reported.
pub enum ReadEvent {
    /// Bytes arrived.
    Data(Vec<u8>),
    /// The peer closed its write side (a read of zero bytes).
    Eof,
    /// No data available yet.
    WouldBlock,
    /// A read error other than would-block.
    IoError,
}

/// The view of a read event.
pub enum ReadEventV {
    Data(Seq<u8>),
    Eof,
    WouldBlock,
    IoError,
}

impl View for ReadEvent {
    type V = ReadEventV;

    open spec fn view(&self) -> ReadEventV {
        match self {
            ReadEvent::Data(d) => ReadEventV::Data(d@),
            ReadEvent::Eof => ReadEventV::Eof,
            ReadEvent::WouldBlock => ReadEventV::WouldBlock,
            ReadEvent::IoError => ReadEventV::IoError,
        }
    }
}

/// What a write attempt reported. A write of zero bytes while bytes remain
/// means the peer closed its read side.
pub enum WriteEvent {
    Wrote(usize),
    WouldBlock,
    IoError,
}

/// The state of one connection.
pub enum Conn {
    /// Accumulating request bytes.
    Reading { buf: Vec<u8> },
    /// Delivering the materialized response; `written` bytes are confirmed.
    Writing { resp: Vec<u8>, written: usize },
    /// All bytes written; awaiting flush confirmation.
    Flushing,
    /// Finished; to be removed from the table.
    Done,
    /// Errored; to be removed from the table.
    Failed,
}

/// The view of a connection state.
pub enum ConnV {
    Reading { buf: Seq<u8> },
    Writing { resp: Seq<u8>, written: int },
    Flushing,
    Done,
    Failed,
}

impl View for Conn {
    type V = ConnV;

    open spec fn view(&self) -> ConnV {
        match self {
            Conn::Reading { buf } => ConnV::Reading { buf: buf@ },
            Conn::Writing { resp, written } => ConnV::Writing {
                resp: resp@,
                written: *written as int,
            },
            Conn::Flushing => ConnV::Flushing,
            Conn::Done => ConnV::Done,
            Conn::Failed => ConnV::Failed,
        }
    }
}

/// Well-formedness: confirmed progress never exceeds the response length.
pub open spec fn wf(c: ConnV) -> bool {
    match c {
        ConnV::Writing { resp, written } => 0 <= written <= resp.len(),
        _ => true,
    }
}

/// How a Reading connection digests one read event: append the bytes, run
/// the assembler on the whole buffer, and either stay Reading, start
/// Writing the dispatched (or bad-request) response, or fail on a
/// disconnect or error. Events in any other state leave it unchanged.
pub open spec fn step_read_spec(c: ConnV, ev: ReadEventV) -> ConnV {
    match c {
        ConnV::Reading { buf } => match ev {
            ReadEventV::WouldBlock => c,
            ReadEventV::Eof => ConnV::Failed,
            ReadEventV::IoError => ConnV::Failed,
            ReadEventV::Data(d) => {
                let buf2 = buf + d;
                match assemble_spec(buf2) {
                    AssembledV::Ready(h, body) => ConnV::Writing {
                        resp: dispatch_spec(h, body),
                        written: 0,
                    },
                    AssembledV::Malformed => ConnV::Writing { resp: resp_400(), written: 0 },
                    AssembledV::Incomplete => {
                        if buf2.len() > MAX_REQUEST_BYTES as nat {
                            ConnV::Writing { resp: resp_400(), written: 0 }
                        } else {
                            ConnV::Reading { buf: buf2 }
                        }
                    },
                }
            },
        },
        _ => c,
    }
}

/// How a Writing connection digests one write event: would-block keeps it,
/// an error fails it, a zero-byte write means the peer stopped reading and
/// the exchange counts as over, and progress advances `written` — never
/// re-sending confirmed bytes and never rebuilding the response. A report
/// of more progress than remained is treated as an error.
pub open spec fn step_write_spec(c: ConnV, ev: WriteEvent) -> ConnV {
    match c {
        ConnV::Writing { resp, written } => match ev {
            WriteEvent::WouldBlock => c,
            WriteEvent::IoError => ConnV::Failed,
            WriteEvent::Wrote(n) => {
                if n == 0 {
                    ConnV::Done
                } else if written + n < resp.len() {
                    ConnV::Writing { resp, written: written + n }
                } else if written + n == resp.len() {
                    ConnV::Flushing
                } else {
                    ConnV::Failed
                }
            },
        },
        _ => c,
    }
}

/// How a Flushing connection digests the flush confirmation.
pub open spec fn step_flush_spec(c: ConnV, ok: bool) -> ConnV {
    match c {
        ConnV::Flushing => if ok {
            ConnV::Done
        } else {
            ConnV::Failed
        },
        _ => c,
    }
}

/// The status a state reports to the loop.
pub open spec fn status_of(c: ConnV) -> ConnectionStatus {
    match c {
        ConnV::Done => ConnectionStatus::Complete,
        ConnV::Failed => ConnectionStatus::Error,
        _ => ConnectionStatus::WouldBlock,
    }
}

/// The readiness interest a state needs next.
pub enum Interest {
    Read,
    Write,
    Flush,
    Close,
}

/// Which interest each state wants.
pub open spec fn interest_of(c: ConnV) -> Interest {
    match c {
        ConnV::Reading { .. } => Interest::Read,
        ConnV::Writing { .. } => Interest::Write,
        ConnV::Flushing => Interest::Flush,
        ConnV::Done => Interest::Close,
        ConnV::Failed => Interest::Close,
    }
}

/// The unsent suffix of a Writing connection's response.
pub open spec fn pending_of(c: ConnV) -> Seq<u8> {
    match c {
        ConnV::Writing { resp, written } => resp.subrange(written, resp.len() as int),
        _ => Seq::empty(),
    }
}

impl Conn {
    /// A fresh connection with an empty buffer, ready to read.
    pub fn new() -> (c: Conn)
        ensures
            c@ == (ConnV::Reading { buf: Seq::<u8>::empty() }),
            wf(c@),
    {
        let c = Conn::Reading { buf: Vec::new() };
        proof {
            assert(c@->Reading_buf =~= Seq::<u8>::empty());
        }
        c
    }

    /// Reports the status of this state.
    pub fn status(&self) -> (st: ConnectionStatus)
        ensures
            st == status_of(self@),
    {
        match self {
            Conn::Done => ConnectionStatus::Complete,
            Conn::Failed => ConnectionStatus::Error,
            _ => ConnectionStatus::WouldBlock,
        }
    }

    /// Reports the readiness interest this state needs next.
    pub fn interest(&self) -> (r: Interest)
        ensures
            r == interest_of(self@),
    {
        match self {
            Conn::Reading { .. } => Interest::Read,
            Conn::Writing { .. } => Interest::Write,
            Conn::Flushing => Interest::Flush,
            Conn::Done => Interest::Close,
            Conn::Failed => Interest::Close,
        }
    }

    /// Copies the unsent suffix of the response, for the loop to hand to
    /// the writer.
    pub fn pending(&self) -> (r: Vec<u8>)
        ensures
            wf(self@) ==> r@ == pending_of(self@),
    {
        match self {
            Conn::Writing { resp, written } => {
                if *written <= resp.len() {
                    crate::bytes::subvec(resp, *written, resp.len())
                } else {
                    Vec::new()
                }
            },
            _ => {
                let r: Vec<u8> = Vec::new();
                proof {
                    assert(r@ =~= pending_of(self@));
                }
                r
            },
        }
    }

    /// Advances a connection on one read event.
    pub fn on_read_event(self, ev: ReadEvent) -> (r: (Conn, ConnectionStatus))
        requires
            wf(self@),
        ensures
            r.0@ == step_read_spec(self@, ev@),
            wf(r.0@),
            r.1 == status_of(r.0@),
    {
        match self {
            Conn::Reading { mut buf } => match ev {
                ReadEvent::WouldBlock => (Conn::Reading { buf }, ConnectionStatus::WouldBlock),
                ReadEvent::Eof => (Conn::Failed, ConnectionStatus::Error),
                ReadEvent::IoError => (Conn::Failed, ConnectionStatus::Error),
                ReadEvent::Data(mut d) => {
                    buf.append(&mut d);
                    match assemble(&buf) {
                        crate::request::Assembled::Ready(h, body) => {
                            let resp = dispatch(&h, &body);
                            (Conn::Writing { resp, written: 0 }, ConnectionStatus::WouldBlock)
                        },
                        crate::request::Assembled::Malformed => {
                            (
                                Conn::Writing { resp: build_400(), written: 0 },
                                ConnectionStatus::WouldBlock,
                            )
                        },
                        crate::request::Assembled::Incomplete => {
                            if buf.len() > MAX_REQUEST_BYTES {
                                (
                                    Conn::Writing { resp: build_400(), written: 0 },
                                    ConnectionStatus::WouldBlock,
                                )
                            } else {
                                (Conn::Reading { buf }, ConnectionStatus::WouldBlock)
                            }
                        },
                    }
                },
            },
            other => {
                let st = other.status();
                (other, st)
            },
        }
    }

    /// Advances a connection on one write event.
    pub fn on_write_event(self, ev: WriteEvent) -> (r: (Conn, ConnectionStatus))
        requires
            wf(self@),
        ensures
            r.0@ == step_write_spec(self@, ev),
            wf(r.0@),
            r.1 == status_of(r.0@),
    {
        match self {
            Conn::Writing { resp, written } => match ev {
                WriteEvent::WouldBlock => {
                    (Conn::Writing { resp, written }, ConnectionStatus::WouldBlock)
                },
                WriteEvent::IoError => (Conn::Failed, ConnectionStatus::Error),
                WriteEvent::Wrote(n) => {
                    if n == 0 {
                        (Conn::Done, ConnectionStatus::Complete)
                    } else {
                        let rem = resp.len() - written;
                        if n < rem {
                            (
                                Conn::Writing { resp, written: written + n },
                                ConnectionStatus::WouldBlock,
                            )
                        } else if n == rem {
                            (Conn::Flushing, ConnectionStatus::WouldBlock)
                        } else {
                            (Conn::Failed, ConnectionStatus::Error)
                        }
                    }
                },
            },
            other => {
                let st = other.status();
                (other, st)
            },
        }
    }

    /// Advances a connection on the flush confirmation.
    pub fn on_flush_event(self, ok: bool) -> (r: (Conn, ConnectionStatus))
        requires
            wf(self@),
        ensures
            r.0@ == step_flush_spec(self@, ok),
            wf(r.0@),
            r.1 == status_of(r.0@),
    {
        match self {
            Conn::Flushing => {
                if ok {
                    (Conn::Done, ConnectionStatus::Complete)
                } else {
                    (Conn::Failed, ConnectionStatus::Error)
                }
            },
            other => {
                let st = other.status();
                (other, st)
            },
        }
    }
}

} // verus!
