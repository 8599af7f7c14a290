//! The correlation-tag dispatcher and the connection table.
//!
//! Every submission carries a 64-bit tag that the kernel echoes back
//! verbatim. One sentinel value is reserved for "a new connection arrived";
//! every other tag is a direct index into the connection table, chosen dense
//! by the submitter itself, so no hashing or collision handling exists.

use vstd::prelude::*;

verus! {

use crate::page::Page;
use crate::ring::{io_uring_prep_recv, recv_sqe, Cqe, Sqe};

/// The correlation tag reserved for new-connection completions. It is out of
/// range for every valid connection index, so the two cases can never be
/// confused.
pub const NEW_CLIENT: u64 = 0xffff_ffff_ffff_ffff;

/// Receive flag asking the kernel to fill the whole buffer before completing.
pub const MSG_WAITALL: u32 = 0x100;

/// The fixed size of each connection's receive buffer, in bytes.
pub const BUFFER_LEN: u32 = 1024;

/// The largest number of connections the table accepts: connection indices
/// must stay inside the 32-bit descriptor space, far away from the sentinel.
pub const MAX_CONNECTIONS: u64 = 0xffff_fffe;

/// What a completion's correlation tag announces.
#[derive(Clone, Copy, PartialEq, Eq, Structural, Debug)]
pub enum Event {
    /// The completion reports a newly accepted connection, not tied to any
    /// table slot.
    NewConnection,
    /// The completion belongs to the existing connection at this index.
    ConnectionEvent(u64),
}

/// Decodes a correlation tag in the one place where the sentinel comparison
/// lives: the reserved value announces a new incoming connection, every other
/// value is the index of an existing connection.
pub fn decode_tag(tag: u64) -> (r: Event)
    ensures
        tag == NEW_CLIENT ==> r == Event::NewConnection,
        tag != NEW_CLIENT ==> r == Event::ConnectionEvent(tag),
{
    if tag == NEW_CLIENT {
        Event::NewConnection
    } else {
        Event::ConnectionEvent(tag)
    }
}

/// The lifecycle state of one accepted connection.
#[derive(Clone, Copy, PartialEq, Eq, Structural, Debug)]
pub enum ConnState {
    /// A receive may be outstanding; the connection is live.
    Receiving,
    /// The peer shut down in order; the slot stays inert and no further
    /// submission is ever issued for it.
    Disconnected,
}

/// The abstract state of one connection: its descriptor, the contents of its
/// receive buffer, and its lifecycle state.
#[verifier::ext_equal]
pub ghost struct ConnView {
    pub fd: i32,
    pub page: Seq<u8>,
    pub state: ConnState,
}

/// A freshly allocated, zero-filled buffer of `n` bytes, as a sequence.
pub open spec fn zero_page(n: nat) -> Seq<u8> {
    Seq::new(n, |i: int| 0u8)
}

/// Why dispatching a completion is fatal. The current policy treats every
/// result outside the expected set as fatal to the whole process; only an
/// orderly disconnect is local to one connection.
#[derive(Clone, Copy, PartialEq, Eq, Structural, Debug)]
pub enum Fatal {
    /// The completion carries a negative result: the negated error code of
    /// the failed operation.
    OpFailed { tag: u64, res: i32 },
    /// The tag is no sentinel and no valid connection index.
    UnknownTag { tag: u64 },
    /// A live connection's receive completed with neither zero nor the full
    /// buffer length: no partial-read recovery exists.
    UnexpectedLength { tag: u64, res: i32 },
    /// A completion arrived for a connection already disconnected, which
    /// never has an operation outstanding.
    StaleCompletion { tag: u64 },
}

/// The follow-up work one dispatched completion asks the driver to do.
#[derive(Clone, Copy, PartialEq, Eq, Structural, Debug)]
pub enum Action {
    /// Nothing to submit.
    Inert,
    /// Claim a submission slot and fill it with this entry.
    Rearm(Sqe),
}

/// The submission entries an action stands for.
pub open spec fn action_sqes(a: Action) -> Seq<Sqe> {
    match a {
        Action::Inert => Seq::<Sqe>::empty(),
        Action::Rearm(e) => seq![e],
    }
}

/// The one dispatch rule, on the abstract table: what a single completion
/// does to the connections and which submission it provokes.
///
/// A negative result is fatal. A sentinel-tagged completion carries a new
/// connection's descriptor: a slot with a fresh zero-filled buffer is
/// appended and a full-buffer receive tagged with the new index is issued. A
/// completion for an existing connection means: result zero, the peer
/// disconnected and the slot goes inert; the exact buffer length, the next
/// receive is issued on the same buffer under the same tag; anything else is
/// fatal.
pub open spec fn dispatch_one(conns: Seq<ConnView>, cqe: Cqe) -> Result<DispatchStep, Fatal> {
    if cqe.res < 0 {
        Err(Fatal::OpFailed { tag: cqe.user_data, res: cqe.res })
    } else if cqe.user_data == NEW_CLIENT {
        Ok(DispatchStep {
            conns: conns.push(
                ConnView {
                    fd: cqe.res,
                    page: zero_page(BUFFER_LEN as nat),
                    state: ConnState::Receiving,
                },
            ),
            resubmit: seq![recv_sqe(cqe.res, BUFFER_LEN, MSG_WAITALL, conns.len() as u64)],
        })
    } else if cqe.user_data >= conns.len() {
        Err(Fatal::UnknownTag { tag: cqe.user_data })
    } else {
        let cid = cqe.user_data as int;
        let c = conns[cid];
        if cqe.res == 0 {
            Ok(DispatchStep {
                conns: conns.update(cid, ConnView { state: ConnState::Disconnected, ..c }),
                resubmit: Seq::<Sqe>::empty(),
            })
        } else if c.state is Receiving && cqe.res == c.page.len() {
            Ok(DispatchStep {
                conns,
                resubmit: seq![
                    recv_sqe(c.fd, c.page.len() as u32, MSG_WAITALL, cqe.user_data)
                ],
            })
        } else if c.state is Disconnected {
            Err(Fatal::StaleCompletion { tag: cqe.user_data })
        } else {
            Err(Fatal::UnexpectedLength { tag: cqe.user_data, res: cqe.res })
        }
    }
}

/// What one successful dispatch leaves behind: the new table and the
/// submissions to issue.
#[verifier::ext_equal]
pub ghost struct DispatchStep {
    pub conns: Seq<ConnView>,
    pub resubmit: Seq<Sqe>,
}

/// The connection table: per-connection state, indexed directly by the
/// correlation tag. Slots are only ever appended; a disconnected slot stays
/// inert and is never reused.
pub struct ConnTable {
    fds: Vec<i32>,
    pages: Vec<Page>,
    states: Vec<ConnState>,
}

impl View for ConnTable {
    type V = Seq<ConnView>;

    closed spec fn view(&self) -> Seq<ConnView> {
        Seq::new(
            self.fds@.len(),
            |i: int| ConnView { fd: self.fds@[i], page: self.pages@[i]@, state: self.states@[i] },
        )
    }
}

impl ConnTable {
    /// The representation invariant: one descriptor, one buffer and one state
    /// per slot; every buffer has the fixed receive size; and the table stays
    /// inside the index space that tags can address.
    pub closed spec fn wf(&self) -> bool {
        &&& self.fds@.len() == self.pages@.len()
        &&& self.fds@.len() == self.states@.len()
        &&& self.fds@.len() <= MAX_CONNECTIONS
        &&& forall|i: int| 0 <= i < self.pages@.len() ==> (#[trigger] self.pages@[i])@.len()
            == BUFFER_LEN
    }

    /// An empty table.
    pub fn new() -> (r: ConnTable)
        ensures
            r.wf(),
            r@ == Seq::<ConnView>::empty(),
    {
        let t = ConnTable { fds: Vec::new(), pages: Vec::new(), states: Vec::new() };
        proof {
            assert(t@ =~= Seq::<ConnView>::empty());
        }
        t
    }

    /// How many connections the table holds, inert slots included.
    pub fn conn_count(&self) -> (r: usize)
        ensures
            r == self@.len(),
    {
        self.fds.len()
    }

    /// The descriptor of the connection at `cid`.
    pub fn conn_fd(&self, cid: usize) -> (r: i32)
        requires
            cid < self@.len(),
        ensures
            r == self@[cid as int].fd,
    {
        self.fds[cid]
    }

    /// The lifecycle state of the connection at `cid`.
    pub fn conn_state(&self, cid: usize) -> (r: ConnState)
        requires
            self.wf(),
            cid < self@.len(),
        ensures
            r == self@[cid as int].state,
    {
        self.states[cid]
    }

    /// Dispatches one completion against the table, applying exactly the
    /// `dispatch_one` rule: the table is updated and the submission to issue,
    /// if any, is handed back; on a fatal result the table is untouched and
    /// the error says which completion was at fault. The table can refuse
    /// growth only at `MAX_CONNECTIONS`, the edge of the tag-addressable
    /// index space.
    pub fn handle_completion(&mut self, cqe: Cqe) -> (r: Result<Action, Fatal>)
        requires
            old(self).wf(),
            old(self)@.len() < MAX_CONNECTIONS,
        ensures
            final(self).wf(),
            match dispatch_one(old(self)@, cqe) {
                Ok(step) => {
                    &&& r matches Ok(a) && action_sqes(a) == step.resubmit
                    &&& final(self)@ == step.conns
                },
                Err(f) => r == Result::<Action, Fatal>::Err(f) && final(self)@ == old(self)@,
            },
    {
        if cqe.res < 0 {
            return Err(Fatal::OpFailed { tag: cqe.user_data, res: cqe.res });
        }
        match decode_tag(cqe.user_data) {
            Event::NewConnection => {
                let ghost before = *self;
                let cid = self.fds.len();
                self.fds.push(cqe.res);
                self.pages.push(Page::new(BUFFER_LEN as usize));
                self.states.push(ConnState::Receiving);
                let e = io_uring_prep_recv(cqe.res, BUFFER_LEN, MSG_WAITALL, cid as u64);
                proof {
                    let fresh = ConnView {
                        fd: cqe.res,
                        page: zero_page(BUFFER_LEN as nat),
                        state: ConnState::Receiving,
                    };
                    assert(self@ =~= before@.push(fresh));
                }
                Ok(Action::Rearm(e))
            },
            Event::ConnectionEvent(tag) => {
                if tag >= self.fds.len() as u64 {
                    return Err(Fatal::UnknownTag { tag });
                }
                let cid = tag as usize;
                if cqe.res == 0 {
                    let ghost before = *self;
                    self.states[cid] = ConnState::Disconnected;
                    proof {
                        let c = before@[cid as int];
                        assert(self@ =~= before@.update(
                            cid as int,
                            ConnView { state: ConnState::Disconnected, ..c },
                        ));
                    }
                    Ok(Action::Inert)
                } else {
                    let live = match self.states[cid] {
                        ConnState::Receiving => true,
                        ConnState::Disconnected => false,
                    };
                    if live && cqe.res == BUFFER_LEN as i32 {
                        let e = io_uring_prep_recv(
                            self.fds[cid],
                            BUFFER_LEN,
                            MSG_WAITALL,
                            tag,
                        );
                        Ok(Action::Rearm(e))
                    } else if !live {
                        Err(Fatal::StaleCompletion { tag })
                    } else {
                        Err(Fatal::UnexpectedLength { tag, res: cqe.res })
                    }
                }
            },
        }
    }
}

} // verus!
