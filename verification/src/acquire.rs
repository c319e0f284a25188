use vstd::prelude::*;

use crate::single_instance::{
    ack_reply, forward_line, is_ack, message_of, opt_chars, parse_port, port_of_text,
};

verus! {

/// How an attempt to become the primary instance ended.
#[derive(Debug, Clone, Copy, PartialEq, Eq, Structural)]
pub enum Acquired {
    /// This process owns the endpoint, through the listener it bound last.
    Primary,
    /// The new-window request reached the running primary; this process
    /// should exit with success.
    Forwarded,
    /// A primary is running and this launch does not forward to it: it
    /// runs as an independent instance.
    AlreadyRunning,
    /// Another process took the endpoint between this one's bind and its
    /// check.
    LostRace,
    /// The last operation failed; its I/O error is the result.
    Failed,
}

// ---------------------------------------------------------------------------
// Unix: a unix-domain socket at the endpoint path

/// An operation on the endpoint's unix-domain socket.
#[derive(Debug, Clone, Copy, PartialEq, Eq, Structural)]
pub enum SocketAction {
    /// Bind a listener at the endpoint path.
    Bind,
    /// Connect a stream to the endpoint path.
    Connect,
    /// Write the request line to the connected stream and flush it.
    SendRequest,
    /// Remove the stale socket file; whether that works does not matter.
    RemoveStale,
    /// Stop with this outcome.
    Finish(Acquired),
}

/// Which operation's result the socket procedure waits for.
#[derive(Debug, Clone, Copy, PartialEq, Eq, Structural)]
pub enum SocketStage {
    Binding,
    Connecting,
    Sending,
    Removing,
    Rebinding,
    Done(Acquired),
}

/// The next stage and action of the socket procedure, given whether the
/// last operation succeeded. A free endpoint is taken; a live primary gets
/// the request (or, without forwarding, is reported); a dead socket file is
/// removed and the endpoint taken again.
pub open spec fn socket_next(forward: bool, stage: SocketStage, ok: bool) -> (SocketStage, SocketAction) {
    match stage {
        SocketStage::Binding => if ok {
            (SocketStage::Done(Acquired::Primary), SocketAction::Finish(Acquired::Primary))
        } else {
            (SocketStage::Connecting, SocketAction::Connect)
        },
        SocketStage::Connecting => if ok {
            if forward {
                (SocketStage::Sending, SocketAction::SendRequest)
            } else {
                (
                    SocketStage::Done(Acquired::AlreadyRunning),
                    SocketAction::Finish(Acquired::AlreadyRunning),
                )
            }
        } else {
            (SocketStage::Removing, SocketAction::RemoveStale)
        },
        SocketStage::Sending => if ok {
            (SocketStage::Done(Acquired::Forwarded), SocketAction::Finish(Acquired::Forwarded))
        } else {
            (SocketStage::Done(Acquired::Failed), SocketAction::Finish(Acquired::Failed))
        },
        SocketStage::Removing => (SocketStage::Rebinding, SocketAction::Bind),
        SocketStage::Rebinding => if ok {
            (SocketStage::Done(Acquired::Primary), SocketAction::Finish(Acquired::Primary))
        } else {
            (SocketStage::Done(Acquired::Failed), SocketAction::Finish(Acquired::Failed))
        },
        SocketStage::Done(outcome) => (stage, SocketAction::Finish(outcome)),
    }
}

/// How many more results the socket procedure may take before it ends.
pub open spec fn socket_rank(stage: SocketStage) -> nat {
    match stage {
        SocketStage::Binding => 5,
        SocketStage::Connecting => 4,
        SocketStage::Removing => 3,
        SocketStage::Sending => 1,
        SocketStage::Rebinding => 1,
        SocketStage::Done(_) => 0,
    }
}

/// Becoming the primary instance over a unix-domain socket, one operation
/// at a time: the caller performs each action on the endpoint path and
/// hands back whether it succeeded.
pub struct SocketAcquire {
    forward: bool,
    request: String,
    stage: SocketStage,
}

impl SocketAcquire {
    /// Whether a live primary is sent the request.
    pub closed spec fn forwards(&self) -> bool {
        self.forward
    }

    /// The line sent to a live primary.
    pub closed spec fn request_line(&self) -> Seq<char> {
        self.request@
    }

    /// Which result the procedure waits for.
    pub closed spec fn stage(&self) -> SocketStage {
        self.stage
    }

    /// Starts the procedure: with `forward`, a live primary is sent a
    /// new-window request for `directory`; without it, a live primary is
    /// reported and nothing is sent. The first action binds the endpoint.
    pub fn start(forward: bool, directory: Option<&str>) -> (started: (Self, SocketAction))
        ensures
            started.0.forwards() == forward,
            started.0.request_line() == message_of(opt_chars(directory)).push('\n'),
            started.0.stage() == SocketStage::Binding,
            started.1 == SocketAction::Bind,
    {
        (SocketAcquire { forward, request: forward_line(directory), stage: SocketStage::Binding }, SocketAction::Bind)
    }

    /// The line to write for `SendRequest`.
    pub fn request(&self) -> (line: &str)
        ensures
            line@ == self.request_line(),
    {
        self.request.as_str()
    }

    /// Takes whether the last action succeeded and gives the next one.
    pub fn resume(&mut self, succeeded: bool) -> (action: SocketAction)
        ensures
            final(self).forwards() == old(self).forwards(),
            final(self).request_line() == old(self).request_line(),
            (final(self).stage(), action) == socket_next(old(self).forwards(), old(self).stage(), succeeded),
            old(self).stage() !is Done ==> socket_rank(final(self).stage()) < socket_rank(old(self).stage()),
    {
        let (stage, action) = match self.stage {
            SocketStage::Binding => if succeeded {
                (SocketStage::Done(Acquired::Primary), SocketAction::Finish(Acquired::Primary))
            } else {
                (SocketStage::Connecting, SocketAction::Connect)
            },
            SocketStage::Connecting => if succeeded {
                if self.forward {
                    (SocketStage::Sending, SocketAction::SendRequest)
                } else {
                    (
                        SocketStage::Done(Acquired::AlreadyRunning),
                        SocketAction::Finish(Acquired::AlreadyRunning),
                    )
                }
            } else {
                (SocketStage::Removing, SocketAction::RemoveStale)
            },
            SocketStage::Sending => if succeeded {
                (SocketStage::Done(Acquired::Forwarded), SocketAction::Finish(Acquired::Forwarded))
            } else {
                (SocketStage::Done(Acquired::Failed), SocketAction::Finish(Acquired::Failed))
            },
            SocketStage::Removing => (SocketStage::Rebinding, SocketAction::Bind),
            SocketStage::Rebinding => if succeeded {
                (SocketStage::Done(Acquired::Primary), SocketAction::Finish(Acquired::Primary))
            } else {
                (SocketStage::Done(Acquired::Failed), SocketAction::Finish(Acquired::Failed))
            },
            SocketStage::Done(outcome) => (SocketStage::Done(outcome), SocketAction::Finish(outcome)),
        };
        self.stage = stage;
        action
    }
}

// ---------------------------------------------------------------------------
// Windows: a loopback TCP listener whose port is published in a port file

/// An operation on the port file or on loopback TCP.
#[derive(Debug, Clone, Copy, PartialEq, Eq, Structural)]
pub enum PortAction {
    /// Read the port file's contents.
    ReadPortFile,
    /// Connect to `127.0.0.1:port` (with a short timeout) only to learn
    /// whether something listens there.
    Probe(u16),
    /// Connect to `127.0.0.1:port` (with a short timeout) to forward the
    /// request.
    Connect(u16),
    /// Write the request line to the connection and flush it.
    SendRequest,
    /// Read one reply line from the connection (with a read timeout).
    AwaitAck,
    /// Bind a listener to `127.0.0.1` on a port the system picks, and learn
    /// that port.
    BindLoopback,
    /// Write the port's decimal text (`port_text`) into the port file.
    WritePortFile(u16),
    /// Close the listener this process bound.
    ReleaseListener,
    /// Stop with this outcome.
    Finish(Acquired),
}

/// Which forwarding attempt a connection belongs to: the one to the port
/// found at start, or the one to the winner of a lost race.
#[derive(Debug, Clone, Copy, PartialEq, Eq, Structural)]
pub enum Attempt {
    Existing,
    Winner,
}

/// Which result the port procedure waits for.
#[derive(Debug, Clone, Copy, PartialEq, Eq, Structural)]
pub enum PortStage {
    ReadingExisting,
    Probing,
    Connecting(Attempt),
    Sending(Attempt),
    AwaitingAck(Attempt),
    Binding,
    WritingPort(u16),
    Rereading(u16),
    Releasing,
    ReadingWinner,
    Done(Acquired),
}

/// The result of the last operation.
#[derive(Debug)]
pub enum PortReply {
    /// Whether a connect, send, write or close succeeded.
    Outcome(bool),
    /// What a read gave (the port file's contents or a reply line), or
    /// nothing when the read failed.
    Read(Option<String>),
    /// The port of the bound listener, or nothing when binding failed.
    Bound(Option<u16>),
}

/// A reply as plain values.
pub enum PortReplyView {
    Outcome(bool),
    Read(Option<Seq<char>>),
    Bound(Option<u16>),
}

impl View for PortReply {
    type V = PortReplyView;

    open spec fn view(&self) -> PortReplyView {
        match self {
            PortReply::Outcome(ok) => PortReplyView::Outcome(*ok),
            PortReply::Read(text) => PortReplyView::Read(
                match text {
                    Some(t) => Some(t@),
                    None => None,
                },
            ),
            PortReply::Bound(port) => PortReplyView::Bound(*port),
        }
    }
}

/// Whether the reply reports success.
pub open spec fn reply_ok(r: PortReplyView) -> bool {
    r == PortReplyView::Outcome(true)
}

/// The text a reply carries, if any.
pub open spec fn reply_text(r: PortReplyView) -> Option<Seq<char>> {
    match r {
        PortReplyView::Read(t) => t,
        _ => None,
    }
}

/// The port a reply names: the bound port, if any.
pub open spec fn reply_bound(r: PortReplyView) -> Option<u16> {
    match r {
        PortReplyView::Bound(p) => p,
        _ => None,
    }
}

/// The port named by the port file contents in a reply.
pub open spec fn reply_port(r: PortReplyView) -> Option<u16> {
    match reply_text(r) {
        Some(t) => port_of_text(t),
        None => None,
    }
}

/// Giving up on a forwarding attempt: after the first one the endpoint is
/// taken instead; after the one to a race's winner the race is lost.
pub open spec fn port_fallback(a: Attempt) -> (PortStage, PortAction) {
    match a {
        Attempt::Existing => (PortStage::Binding, PortAction::BindLoopback),
        Attempt::Winner => (PortStage::Done(Acquired::LostRace), PortAction::Finish(Acquired::LostRace)),
    }
}

/// Stopping with outcome `o`.
pub open spec fn port_done(o: Acquired) -> (PortStage, PortAction) {
    (PortStage::Done(o), PortAction::Finish(o))
}

/// The next stage and action of the port procedure, given the last reply.
///
/// A port in the port file is tried first: with forwarding, the request is
/// sent there and counts only once the primary acknowledges it; without,
/// a listener there means a primary already runs. Otherwise a listener is
/// bound, its port written to the port file and read back; if the file
/// then names another port, the race is lost, the listener released and,
/// with forwarding, the request sent to the winner.
pub open spec fn port_next(forward: bool, stage: PortStage, r: PortReplyView) -> (PortStage, PortAction) {
    match stage {
        PortStage::ReadingExisting => match reply_port(r) {
            Some(port) => if forward {
                (PortStage::Connecting(Attempt::Existing), PortAction::Connect(port))
            } else {
                (PortStage::Probing, PortAction::Probe(port))
            },
            None => (PortStage::Binding, PortAction::BindLoopback),
        },
        PortStage::Probing => if reply_ok(r) {
            port_done(Acquired::AlreadyRunning)
        } else {
            (PortStage::Binding, PortAction::BindLoopback)
        },
        PortStage::Connecting(a) => if reply_ok(r) {
            (PortStage::Sending(a), PortAction::SendRequest)
        } else {
            port_fallback(a)
        },
        PortStage::Sending(a) => if reply_ok(r) {
            (PortStage::AwaitingAck(a), PortAction::AwaitAck)
        } else {
            port_fallback(a)
        },
        PortStage::AwaitingAck(a) => if reply_text(r) == Some(ack_reply()) {
            port_done(Acquired::Forwarded)
        } else {
            port_fallback(a)
        },
        PortStage::Binding => match reply_bound(r) {
            Some(port) => (PortStage::WritingPort(port), PortAction::WritePortFile(port)),
            None => port_done(Acquired::Failed),
        },
        PortStage::WritingPort(port) => if reply_ok(r) {
            (PortStage::Rereading(port), PortAction::ReadPortFile)
        } else {
            port_done(Acquired::Failed)
        },
        PortStage::Rereading(port) => if reply_port(r) == Some(port) {
            port_done(Acquired::Primary)
        } else {
            (PortStage::Releasing, PortAction::ReleaseListener)
        },
        PortStage::Releasing => if forward {
            (PortStage::ReadingWinner, PortAction::ReadPortFile)
        } else {
            port_done(Acquired::LostRace)
        },
        PortStage::ReadingWinner => match reply_port(r) {
            Some(port) => (PortStage::Connecting(Attempt::Winner), PortAction::Connect(port)),
            None => port_done(Acquired::LostRace),
        },
        PortStage::Done(o) => port_done(o),
    }
}

/// How many more replies the port procedure may take before it ends.
pub open spec fn port_rank(stage: PortStage) -> nat {
    match stage {
        PortStage::ReadingExisting => 12,
        PortStage::Probing => 11,
        PortStage::Connecting(Attempt::Existing) => 11,
        PortStage::Sending(Attempt::Existing) => 10,
        PortStage::AwaitingAck(Attempt::Existing) => 9,
        PortStage::Binding => 8,
        PortStage::WritingPort(_) => 7,
        PortStage::Rereading(_) => 6,
        PortStage::Releasing => 5,
        PortStage::ReadingWinner => 4,
        PortStage::Connecting(Attempt::Winner) => 3,
        PortStage::Sending(Attempt::Winner) => 2,
        PortStage::AwaitingAck(Attempt::Winner) => 1,
        PortStage::Done(_) => 0,
    }
}

/// Becoming the primary instance over loopback TCP and a port file, one
/// operation at a time: the caller performs each action and hands back its
/// result.
pub struct PortAcquire {
    forward: bool,
    request: String,
    stage: PortStage,
}

impl PortAcquire {
    /// Whether a live primary is sent the request.
    pub closed spec fn forwards(&self) -> bool {
        self.forward
    }

    /// The line sent to a live primary.
    pub closed spec fn request_line(&self) -> Seq<char> {
        self.request@
    }

    /// Which result the procedure waits for.
    pub closed spec fn stage(&self) -> PortStage {
        self.stage
    }

    /// Starts the procedure: with `forward`, a live primary is sent a
    /// new-window request for `directory`; without it, a live primary is
    /// reported and nothing is sent. The first action reads the port file.
    pub fn start(forward: bool, directory: Option<&str>) -> (started: (Self, PortAction))
        ensures
            started.0.forwards() == forward,
            started.0.request_line() == message_of(opt_chars(directory)).push('\n'),
            started.0.stage() == PortStage::ReadingExisting,
            started.1 == PortAction::ReadPortFile,
    {
        (
            PortAcquire { forward, request: forward_line(directory), stage: PortStage::ReadingExisting },
            PortAction::ReadPortFile,
        )
    }

    /// The line to write for `SendRequest`.
    pub fn request(&self) -> (line: &str)
        ensures
            line@ == self.request_line(),
    {
        self.request.as_str()
    }

    /// Takes the result of the last action and gives the next one.
    pub fn resume(&mut self, reply: PortReply) -> (action: PortAction)
        ensures
            final(self).forwards() == old(self).forwards(),
            final(self).request_line() == old(self).request_line(),
            (final(self).stage(), action) == port_next(old(self).forwards(), old(self).stage(), reply@),
            old(self).stage() !is Done ==> port_rank(final(self).stage()) < port_rank(old(self).stage()),
    {
        let ok = match &reply {
            PortReply::Outcome(b) => *b,
            _ => false,
        };
        let port: Option<u16> = match &reply {
            PortReply::Read(Some(text)) => parse_port(text.as_str()),
            _ => None,
        };
        let acked = match &reply {
            PortReply::Read(Some(text)) => is_ack(text.as_str()),
            _ => false,
        };
        let bound: Option<u16> = match &reply {
            PortReply::Bound(p) => *p,
            _ => None,
        };
        assert(ok == reply_ok(reply@));
        assert(port == reply_port(reply@));
        assert(acked == (reply_text(reply@) == Some(ack_reply())));
        assert(bound == reply_bound(reply@));
        let (stage, action) = match self.stage {
            PortStage::ReadingExisting => match port {
                Some(p) => if self.forward {
                    (PortStage::Connecting(Attempt::Existing), PortAction::Connect(p))
                } else {
                    (PortStage::Probing, PortAction::Probe(p))
                },
                None => (PortStage::Binding, PortAction::BindLoopback),
            },
            PortStage::Probing => if ok {
                (PortStage::Done(Acquired::AlreadyRunning), PortAction::Finish(Acquired::AlreadyRunning))
            } else {
                (PortStage::Binding, PortAction::BindLoopback)
            },
            PortStage::Connecting(a) => if ok {
                (PortStage::Sending(a), PortAction::SendRequest)
            } else {
                Self::fallback(a)
            },
            PortStage::Sending(a) => if ok {
                (PortStage::AwaitingAck(a), PortAction::AwaitAck)
            } else {
                Self::fallback(a)
            },
            PortStage::AwaitingAck(a) => if acked {
                (PortStage::Done(Acquired::Forwarded), PortAction::Finish(Acquired::Forwarded))
            } else {
                Self::fallback(a)
            },
            PortStage::Binding => match bound {
                Some(p) => (PortStage::WritingPort(p), PortAction::WritePortFile(p)),
                None => (PortStage::Done(Acquired::Failed), PortAction::Finish(Acquired::Failed)),
            },
            PortStage::WritingPort(p) => if ok {
                (PortStage::Rereading(p), PortAction::ReadPortFile)
            } else {
                (PortStage::Done(Acquired::Failed), PortAction::Finish(Acquired::Failed))
            },
            PortStage::Rereading(p) => if port == Some(p) {
                (PortStage::Done(Acquired::Primary), PortAction::Finish(Acquired::Primary))
            } else {
                (PortStage::Releasing, PortAction::ReleaseListener)
            },
            PortStage::Releasing => if self.forward {
                (PortStage::ReadingWinner, PortAction::ReadPortFile)
            } else {
                (PortStage::Done(Acquired::LostRace), PortAction::Finish(Acquired::LostRace))
            },
            PortStage::ReadingWinner => match port {
                Some(p) => (PortStage::Connecting(Attempt::Winner), PortAction::Connect(p)),
                None => (PortStage::Done(Acquired::LostRace), PortAction::Finish(Acquired::LostRace)),
            },
            PortStage::Done(o) => (PortStage::Done(o), PortAction::Finish(o)),
        };
        self.stage = stage;
        action
    }

    fn fallback(a: Attempt) -> (next: (PortStage, PortAction))
        ensures
            next == port_fallback(a),
    {
        match a {
            Attempt::Existing => (PortStage::Binding, PortAction::BindLoopback),
            Attempt::Winner => (PortStage::Done(Acquired::LostRace), PortAction::Finish(Acquired::LostRace)),
        }
    }
}

// ---------------------------------------------------------------------------
// Laws

/// The actions the socket procedure gives, from `stage`, for the results
/// `oks` of its operations.
pub open spec fn socket_run(forward: bool, stage: SocketStage, oks: Seq<bool>) -> Seq<SocketAction>
    decreases oks.len(),
{
    if oks.len() == 0 {
        Seq::empty()
    } else {
        let (next, action) = socket_next(forward, stage, oks[0]);
        seq![action] + socket_run(forward, next, oks.drop_first())
    }
}

/// The actions the port procedure gives, from `stage`, for the replies
/// `replies`.
pub open spec fn port_run(forward: bool, stage: PortStage, replies: Seq<PortReplyView>) -> Seq<PortAction>
    decreases replies.len(),
{
    if replies.len() == 0 {
        Seq::empty()
    } else {
        let (next, action) = port_next(forward, stage, replies[0]);
        seq![action] + port_run(forward, next, replies.drop_first())
    }
}

proof fn lemma_socket_plain(stage: SocketStage, oks: Seq<bool>)
    requires
        stage != SocketStage::Sending,
    ensures
        forall|k: int|
            0 <= k < socket_run(false, stage, oks).len() ==> #[trigger] socket_run(false, stage, oks)[k]
                != SocketAction::SendRequest,
        socket_run(false, stage, oks).len() == oks.len(),
    decreases oks.len(),
{
    if oks.len() > 0 {
        let (next, action) = socket_next(false, stage, oks[0]);
        lemma_socket_plain(next, oks.drop_first());
        let run = socket_run(false, stage, oks);
        assert forall|k: int| 0 <= k < run.len() implies #[trigger] run[k] != SocketAction::SendRequest by {
            if k > 0 {
                assert(run[k] == socket_run(false, next, oks.drop_first())[k - 1]);
            }
        }
    }
}

/// Whether the port procedure is in a stage that only forwarding reaches.
pub open spec fn forwarding_stage(stage: PortStage) -> bool {
    stage is Connecting || stage is Sending || stage is AwaitingAck || stage == PortStage::ReadingWinner
}

/// Whether an action belongs to forwarding a request.
pub open spec fn forwarding_action(action: PortAction) -> bool {
    action is Connect || action == PortAction::SendRequest || action == PortAction::AwaitAck
}

proof fn lemma_port_plain(stage: PortStage, replies: Seq<PortReplyView>)
    requires
        !forwarding_stage(stage),
    ensures
        forall|k: int|
            0 <= k < port_run(false, stage, replies).len() ==> !forwarding_action(
                #[trigger] port_run(false, stage, replies)[k],
            ),
        port_run(false, stage, replies).len() == replies.len(),
    decreases replies.len(),
{
    if replies.len() > 0 {
        let (next, action) = port_next(false, stage, replies[0]);
        lemma_port_plain(next, replies.drop_first());
        let run = port_run(false, stage, replies);
        assert forall|k: int| 0 <= k < run.len() implies !forwarding_action(#[trigger] run[k]) by {
            if k > 0 {
                assert(run[k] == port_run(false, next, replies.drop_first())[k - 1]);
            }
        }
    }
}

/// A plain relaunch never forwards: without forwarding, the socket
/// procedure never sends a request, whatever its operations return.
pub proof fn lemma_socket_plain_relaunch_never_sends(oks: Seq<bool>)
    ensures
        forall|k: int|
            0 <= k < socket_run(false, SocketStage::Binding, oks).len() ==> #[trigger] socket_run(
                false,
                SocketStage::Binding,
                oks,
            )[k] != SocketAction::SendRequest,
{
    lemma_socket_plain(SocketStage::Binding, oks);
}

/// A plain relaunch never forwards: without forwarding, the port
/// procedure never connects to a primary to send it a request, never sends
/// one and never waits for an acknowledgement, whatever the replies.
pub proof fn lemma_port_plain_relaunch_never_sends(replies: Seq<PortReplyView>)
    ensures
        forall|k: int|
            0 <= k < port_run(false, PortStage::ReadingExisting, replies).len() ==> !forwarding_action(
                #[trigger] port_run(false, PortStage::ReadingExisting, replies)[k],
            ),
{
    lemma_port_plain(PortStage::ReadingExisting, replies);
}

/// The socket procedure reports `Forwarded` only once the request was
/// written and flushed, and `Primary` only once a bind succeeded.
pub proof fn lemma_socket_outcomes(forward: bool, stage: SocketStage, ok: bool)
    requires
        stage !is Done,
    ensures
        socket_next(forward, stage, ok).1 == SocketAction::Finish(Acquired::Forwarded) ==> stage
            == SocketStage::Sending && ok,
        socket_next(forward, stage, ok).1 == SocketAction::Finish(Acquired::Primary) ==> (stage
            == SocketStage::Binding || stage == SocketStage::Rebinding) && ok,
{
}

/// The port procedure reports `Forwarded` only when the primary answered
/// the request with `ack` (a stale port file naming an unrelated listener
/// never counts), and `Primary` only when the port file, read back after
/// writing, names the port this process bound.
pub proof fn lemma_port_outcomes(forward: bool, stage: PortStage, r: PortReplyView)
    requires
        stage !is Done,
    ensures
        port_next(forward, stage, r).1 == PortAction::Finish(Acquired::Forwarded) ==> stage is AwaitingAck
            && reply_text(r) == Some(ack_reply()),
        port_next(forward, stage, r).1 == PortAction::Finish(Acquired::Primary) ==> stage is Rereading
            && reply_port(r) == Some(stage->Rereading_0),
{
}

/// Whatever its operations return, the socket procedure ends within five
/// of them.
pub proof fn lemma_socket_finishes(forward: bool, stage: SocketStage, oks: Seq<bool>)
    requires
        oks.len() >= socket_rank(stage),
        oks.len() > 0,
    ensures
        socket_run(forward, stage, oks).last() is Finish,
    decreases oks.len(),
{
    let (next, action) = socket_next(forward, stage, oks[0]);
    let rest = oks.drop_first();
    if rest.len() > 0 {
        if stage is Done {
            assert(next == stage);
        }
        lemma_socket_finishes(forward, next, rest);
        let run = socket_run(forward, stage, oks);
        assert(run =~= seq![action] + socket_run(forward, next, rest));
    } else {
        assert(socket_run(forward, next, rest) =~= Seq::<SocketAction>::empty());
        assert(socket_run(forward, stage, oks) =~= seq![action]);
    }
}

/// Whatever the replies, the port procedure ends within twelve of them.
pub proof fn lemma_port_finishes(forward: bool, stage: PortStage, replies: Seq<PortReplyView>)
    requires
        replies.len() >= port_rank(stage),
        replies.len() > 0,
    ensures
        port_run(forward, stage, replies).last() is Finish,
    decreases replies.len(),
{
    let (next, action) = port_next(forward, stage, replies[0]);
    let rest = replies.drop_first();
    if rest.len() > 0 {
        if stage is Done {
            assert(next == stage);
        }
        lemma_port_finishes(forward, next, rest);
        let run = port_run(forward, stage, replies);
        assert(run =~= seq![action] + port_run(forward, next, rest));
    } else {
        assert(port_run(forward, next, rest) =~= Seq::<PortAction>::empty());
        assert(port_run(forward, stage, replies) =~= seq![action]);
    }
}

/// What the socket procedure does, by the results of its operations, for
/// either value of `forward`: a successful first bind makes this process the
/// primary; otherwise it connects, and a live primary is sent the request
/// (the launch then counts as forwarded exactly when sending succeeds) or,
/// without forwarding, reported as already running; a socket nobody
/// answers on is removed and bound again, making this process the primary
/// exactly when that bind succeeds.
pub proof fn lemma_socket_results(forward: bool, oks: Seq<bool>)
    requires
        oks.len() == 4,
    ensures
        ({
            let run = socket_run(forward, SocketStage::Binding, oks);
            &&& run.len() == 4
            &&& oks[0] ==> run[0] == SocketAction::Finish(Acquired::Primary)
            &&& !oks[0] ==> run[0] == SocketAction::Connect
            &&& !oks[0] && oks[1] && !forward ==> run[1] == SocketAction::Finish(Acquired::AlreadyRunning)
            &&& !oks[0] && oks[1] && forward ==> run[1] == SocketAction::SendRequest && run[2]
                == SocketAction::Finish(
                if oks[2] {
                    Acquired::Forwarded
                } else {
                    Acquired::Failed
                },
            )
            &&& !oks[0] && !oks[1] ==> run[1] == SocketAction::RemoveStale && run[2] == SocketAction::Bind
                && run[3] == SocketAction::Finish(
                if oks[3] {
                    Acquired::Primary
                } else {
                    Acquired::Failed
                },
            )
            &&& run[3] is Finish
            &&& (run[3] == SocketAction::Finish(Acquired::AlreadyRunning) <==> !forward && !oks[0]
                && oks[1])
            &&& (run[3] == SocketAction::Finish(Acquired::Primary) <==> oks[0] || (!oks[1] && oks[3]))
            &&& (run[3] == SocketAction::Finish(Acquired::Forwarded) <==> forward && !oks[0] && oks[1]
                && oks[2])
        }),
{
    let r0 = oks;
    let r1 = r0.drop_first();
    let r2 = r1.drop_first();
    let r3 = r2.drop_first();
    let r4 = r3.drop_first();
    let (s1, a0) = socket_next(forward, SocketStage::Binding, r0[0]);
    let (s2, a1) = socket_next(forward, s1, r1[0]);
    let (s3, a2) = socket_next(forward, s2, r2[0]);
    let (s4, a3) = socket_next(forward, s3, r3[0]);
    assert(socket_run(forward, s4, r4) =~= Seq::<SocketAction>::empty());
    assert(socket_run(forward, s3, r3) =~= seq![a3]);
    assert(socket_run(forward, s2, r2) =~= seq![a2, a3]);
    assert(socket_run(forward, s1, r1) =~= seq![a1, a2, a3]);
    assert(socket_run(forward, SocketStage::Binding, r0) =~= seq![a0, a1, a2, a3]);
}

/// The port procedure, from `stage`, for two replies.
proof fn lemma_port_run2(forward: bool, stage: PortStage, r0: PortReplyView, r1: PortReplyView)
    ensures
        ({
            let (s1, a0) = port_next(forward, stage, r0);
            let (s2, a1) = port_next(forward, s1, r1);
            port_run(forward, stage, seq![r0, r1]) == seq![a0, a1]
        }),
{
    let rs = seq![r0, r1];
    let (s1, a0) = port_next(forward, stage, r0);
    let (s2, a1) = port_next(forward, s1, r1);
    assert(rs.drop_first() =~= seq![r1]);
    assert(rs.drop_first().drop_first() =~= Seq::<PortReplyView>::empty());
    assert(port_run(forward, s2, Seq::<PortReplyView>::empty()) =~= Seq::<PortAction>::empty());
    assert(port_run(forward, s1, seq![r1]) =~= seq![a1]);
    assert(port_run(forward, stage, rs) =~= seq![a0, a1]);
}

/// The port procedure, from `stage`, for three replies.
proof fn lemma_port_run3(
    forward: bool,
    stage: PortStage,
    r0: PortReplyView,
    r1: PortReplyView,
    r2: PortReplyView,
)
    ensures
        ({
            let (s1, a0) = port_next(forward, stage, r0);
            let (s2, a1) = port_next(forward, s1, r1);
            let (s3, a2) = port_next(forward, s2, r2);
            port_run(forward, stage, seq![r0, r1, r2]) == seq![a0, a1, a2]
        }),
{
    let rs = seq![r0, r1, r2];
    let (s1, a0) = port_next(forward, stage, r0);
    lemma_port_run2(forward, s1, r1, r2);
    assert(rs.drop_first() =~= seq![r1, r2]);
    assert(port_run(forward, stage, rs) =~= seq![a0] + port_run(forward, s1, seq![r1, r2]));
}

/// Reading the port file at start: a port it names is tried (connected
/// to, to forward the request, or only probed, without forwarding);
/// otherwise this process takes the endpoint by binding its own listener.
pub proof fn lemma_port_start(forward: bool, r: PortReplyView)
    ensures
        reply_port(r) is None ==> port_next(forward, PortStage::ReadingExisting, r)
            == (PortStage::Binding, PortAction::BindLoopback),
        reply_port(r) matches Some(p) ==> port_next(forward, PortStage::ReadingExisting, r).1 == if forward {
            PortAction::Connect(p)
        } else {
            PortAction::Probe(p)
        },
{
}

/// A forwarding launch whose port file names a port: when the connect,
/// the send or the wait for `ack` fails, it takes the endpoint itself (it
/// binds its own listener next); only an `ack` makes it forwarded.
pub proof fn lemma_port_forward_falls_back(t: PortReplyView, r1: PortReplyView, r2: PortReplyView, r3: PortReplyView)
    requires
        reply_port(t) is Some,
    ensures
        ({
            let p = reply_port(t)->0;
            &&& !reply_ok(r1) ==> port_run(true, PortStage::ReadingExisting, seq![t, r1]) == seq![
                PortAction::Connect(p),
                PortAction::BindLoopback,
            ]
            &&& reply_ok(r1) && !reply_ok(r2) ==> port_run(
                true,
                PortStage::ReadingExisting,
                seq![t, r1, r2],
            ).last() == PortAction::BindLoopback
            &&& reply_ok(r1) && reply_ok(r2) ==> port_run(
                true,
                PortStage::ReadingExisting,
                seq![t, r1, r2],
            ) == seq![PortAction::Connect(p), PortAction::SendRequest, PortAction::AwaitAck]
            &&& reply_ok(r1) && reply_ok(r2) ==> port_next(
                true,
                PortStage::AwaitingAck(Attempt::Existing),
                r3,
            ).1 == if reply_text(r3) == Some(ack_reply()) {
                PortAction::Finish(Acquired::Forwarded)
            } else {
                PortAction::BindLoopback
            }
            &&& port_run(true, PortStage::ReadingExisting, seq![t, r1, r2]).len() == 3
        }),
{
    lemma_port_run2(true, PortStage::ReadingExisting, t, r1);
    lemma_port_run3(true, PortStage::ReadingExisting, t, r1, r2);
}

/// Without forwarding, a listener at the port the port file names means a
/// primary is already running; when nothing listens there, this process
/// takes the endpoint.
pub proof fn lemma_port_plain_probe(t: PortReplyView, r1: PortReplyView)
    requires
        reply_port(t) is Some,
    ensures
        port_run(false, PortStage::ReadingExisting, seq![t, r1]) == seq![
            PortAction::Probe(reply_port(t)->0),
            if reply_ok(r1) {
                PortAction::Finish(Acquired::AlreadyRunning)
            } else {
                PortAction::BindLoopback
            },
        ],
{
    lemma_port_run2(false, PortStage::ReadingExisting, t, r1);
}

/// Taking the endpoint: the bound port is written to the port file, which
/// is read back; this process is the primary exactly when the file then
/// names that port. A failed bind or write fails the procedure; another
/// port in the file means the race was lost and the listener is released.
pub proof fn lemma_port_take_endpoint(forward: bool, b: PortReplyView, w: PortReplyView, x: PortReplyView)
    ensures
        reply_bound(b) is None ==> port_next(forward, PortStage::Binding, b).1 == PortAction::Finish(
            Acquired::Failed,
        ),
        reply_bound(b) matches Some(q) ==> {
            let run = port_run(forward, PortStage::Binding, seq![b, w, x]);
            &&& run[0] == PortAction::WritePortFile(q)
            &&& !reply_ok(w) ==> run[1] == PortAction::Finish(Acquired::Failed)
            &&& reply_ok(w) ==> run[1] == PortAction::ReadPortFile
            &&& reply_ok(w) ==> (run[2] == PortAction::Finish(Acquired::Primary) <==> reply_port(x)
                == Some(q))
            &&& reply_ok(w) && reply_port(x) != Some(q) ==> run[2] == PortAction::ReleaseListener
        },
{
    lemma_port_run3(forward, PortStage::Binding, b, w, x);
}

/// After a lost race and the release of the listener: without forwarding
/// the race is lost; with it, the port file is read for the winner, which
/// is sent the request and must acknowledge it; any failure there loses
/// the race.
pub proof fn lemma_port_lost_race(
    forward: bool,
    rel: PortReplyView,
    t: PortReplyView,
    c: PortReplyView,
    s: PortReplyView,
    a: PortReplyView,
)
    ensures
        port_next(forward, PortStage::Releasing, rel).1 == if forward {
            PortAction::ReadPortFile
        } else {
            PortAction::Finish(Acquired::LostRace)
        },
        reply_port(t) is None ==> port_next(forward, PortStage::ReadingWinner, t).1
            == PortAction::Finish(Acquired::LostRace),
        reply_port(t) matches Some(p) ==> port_next(forward, PortStage::ReadingWinner, t).1
            == PortAction::Connect(p),
        port_next(forward, PortStage::Connecting(Attempt::Winner), c).1 == if reply_ok(c) {
            PortAction::SendRequest
        } else {
            PortAction::Finish(Acquired::LostRace)
        },
        port_next(forward, PortStage::Sending(Attempt::Winner), s).1 == if reply_ok(s) {
            PortAction::AwaitAck
        } else {
            PortAction::Finish(Acquired::LostRace)
        },
        port_next(forward, PortStage::AwaitingAck(Attempt::Winner), a).1 == if reply_text(a) == Some(
            ack_reply(),
        ) {
            PortAction::Finish(Acquired::Forwarded)
        } else {
            PortAction::Finish(Acquired::LostRace)
        },
{
}

/// A forwarding launch whose port file names a port nobody listens on
/// (a primary that exited) becomes the primary when its bind, its write of
/// the port file and the read back succeed.
pub proof fn lemma_port_dead_port_becomes_primary(
    t: PortReplyView,
    c: PortReplyView,
    b: PortReplyView,
    w: PortReplyView,
    x: PortReplyView,
)
    requires
        reply_port(t) is Some,
        !reply_ok(c),
        reply_bound(b) is Some,
        reply_ok(w),
        reply_port(x) == reply_bound(b),
    ensures
        port_run(true, PortStage::ReadingExisting, seq![t, c, b, w, x]) == seq![
            PortAction::Connect(reply_port(t)->0),
            PortAction::BindLoopback,
            PortAction::WritePortFile(reply_bound(b)->0),
            PortAction::ReadPortFile,
            PortAction::Finish(Acquired::Primary),
        ],
{
    let rs = seq![t, c, b, w, x];
    lemma_port_run3(true, PortStage::Binding, b, w, x);
    assert(rs.drop_first() =~= seq![c, b, w, x]);
    assert(rs.drop_first().drop_first() =~= seq![b, w, x]);
    let (s1, a0) = port_next(true, PortStage::ReadingExisting, t);
    let (s2, a1) = port_next(true, s1, c);
    assert(s2 == PortStage::Binding);
    assert(port_run(true, s1, seq![c, b, w, x]) =~= seq![a1] + port_run(true, s2, seq![b, w, x]));
    assert(port_run(true, PortStage::ReadingExisting, rs) =~= seq![a0] + port_run(
        true,
        s1,
        seq![c, b, w, x],
    ));
}

} // verus!
