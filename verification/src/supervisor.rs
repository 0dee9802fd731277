//! Supervised process: the state machine that owns one child engine.
//!
//! The child speaks a stateful protocol that tolerates only one prompt in
//! flight at a time.  This machine serializes concurrent submissions into a
//! strict FIFO, buffers commands submitted before the startup handshake
//! completes, demultiplexes the child's output into per-command fragments,
//! and on process death drains and fails every queued command instead of
//! hanging.  The machine itself is pure: it consumes events (a submission, a
//! read, an end of stream, a timeout) and returns the actions the unverified
//! driver must perform (write a line to the child, deliver a fragment, close
//! a sink, kill the child).

use vstd::prelude::*;

use crate::demux::{is_terminal, stripped, visible_len, Demultiplexer, NL};
use crate::handshake::{handshake_status, Handshake, HandshakeStatus};

verus! {

/// Seconds the startup handshake may take before it is abandoned.
pub const HANDSHAKE_TIMEOUT_SECS: u64 = 120;

/// Why a command or the whole process failed.
#[derive(Clone, Copy, Debug, PartialEq, Eq, Structural)]
pub enum ErrorKind {
    /// The child process could not be created on either backend.
    SpawnFailure,
    /// No readiness marker within the startup timeout.
    HandshakeTimeout,
    /// Error vocabulary on stdout before readiness.
    HandshakeError,
    /// The child's stdout reached end of file.
    StreamClosed,
    /// The prompt could not be written to the child's stdin.
    WriteFailure,
    /// Selection was attempted on an uninitialized pool.
    PoolNotInitialized,
    /// The submission path was closed; the process is shutting down.
    ShutDown,
}

/// Lifecycle of a supervised process.
#[derive(Clone, Copy, Debug, PartialEq, Eq, Structural)]
pub enum Phase {
    /// Spawned, performing the startup handshake; submissions are buffered.
    Starting,
    /// Ready and waiting for a submission.
    Idle,
    /// Exactly one command is in flight.
    Serving,
    /// The child is gone or shut down; no state returns from here.
    Terminated,
}

/// One in-flight request: the prompt and the identity of its output sink.
pub struct Command {
    /// Identifies the sink that receives this command's fragments.
    pub id: u64,
    /// The prompt text as UTF-8 bytes, without the trailing newline.
    pub prompt: Vec<u8>,
}

/// What the unverified driver must do after an event.
pub enum Action {
    /// Write these bytes to the child's stdin and flush; on failure, feed
    /// back a write-failed event.
    Write { id: u64, bytes: Vec<u8> },
    /// Deliver one fragment to the sink of command `id`.
    Emit { id: u64, fragment: Vec<u8> },
    /// Close the sink of command `id`: the command completed.
    Complete { id: u64 },
    /// Fail and close the sink of command `id`; the diagnostic text, when
    /// there is one, is the child's accumulated startup output.
    Fail { id: u64, reason: ErrorKind, diagnostic: Vec<u8> },
    /// Forcibly terminate the child process.
    Kill,
}

/// Ghost image of a command.
#[verifier::ext_equal]
pub struct CmdModel {
    pub id: u64,
    pub prompt: Seq<u8>,
}

/// Ghost image of an action.
#[verifier::ext_equal]
pub enum SpecAction {
    Write { id: u64, bytes: Seq<u8> },
    Emit { id: u64, fragment: Seq<u8> },
    Complete { id: u64 },
    Fail { id: u64, reason: ErrorKind, diagnostic: Seq<u8> },
    Kill,
}

/// The events the machine consumes.
#[verifier::ext_equal]
pub enum EventModel {
    /// A caller submitted a prompt for sink `id`.
    Submit { id: u64, prompt: Seq<u8> },
    /// A read from the child's stdout returned these bytes.
    Stdout { chunk: Seq<u8> },
    /// A read from the child's stdout returned zero bytes: the child died.
    StdoutEof,
    /// The last write action could not be performed.
    WriteFailed,
    /// The startup timeout elapsed without readiness.
    HandshakeTimeout,
    /// The submission path was closed; drain and exit.
    Shutdown,
}

/// Ghost image of the whole machine.
#[verifier::ext_equal]
pub struct SupModel {
    pub phase: Phase,
    /// Startup bytes accumulated during the handshake.
    pub hs: Seq<u8>,
    /// Demultiplexer buffer for the command in flight.
    pub demux_buf: Seq<u8>,
    /// Concatenation of fragments delivered for the command in flight.
    pub delivered: Seq<u8>,
    /// Sink of the command in flight, when serving.
    pub current: Option<u64>,
    /// Commands waiting behind the one in flight, in submission order.
    pub queue: Seq<CmdModel>,
    /// No further submissions are accepted; drain, then kill the child.
    pub closing: bool,
    /// Why the machine terminated, once it has.
    pub fail: ErrorKind,
    /// Diagnostic text of the terminal failure: the child's accumulated
    /// startup output for a handshake failure, empty otherwise.
    pub fail_diag: Seq<u8>,
}

pub open spec fn cmd_model(c: Command) -> CmdModel {
    CmdModel { id: c.id, prompt: c.prompt@ }
}

pub open spec fn action_model(a: Action) -> SpecAction {
    match a {
        Action::Write { id, bytes } => SpecAction::Write { id, bytes: bytes@ },
        Action::Emit { id, fragment } => SpecAction::Emit { id, fragment: fragment@ },
        Action::Complete { id } => SpecAction::Complete { id },
        Action::Fail { id, reason, diagnostic } => SpecAction::Fail {
            id,
            reason,
            diagnostic: diagnostic@,
        },
        Action::Kill => SpecAction::Kill,
    }
}

pub open spec fn actions_model(v: Seq<Action>) -> Seq<SpecAction> {
    v.map_values(|a: Action| action_model(a))
}

/// One failure action per queued command, in queue order.
pub open spec fn fail_each(q: Seq<CmdModel>, reason: ErrorKind, diag: Seq<u8>) -> Seq<SpecAction> {
    q.map_values(|c: CmdModel| SpecAction::Fail { id: c.id, reason, diagnostic: diag })
}

/// The ghost image of an action list grows one action at a time.
pub proof fn lemma_actions_model_push(v: Seq<Action>, a: Action)
    ensures
        actions_model(v.push(a)) =~= actions_model(v).push(action_model(a)),
{
    let l = actions_model(v.push(a));
    let r = actions_model(v).push(action_model(a));
    assert forall|k: int| 0 <= k < l.len() implies l[k] == r[k] by {
        if k < v.len() {
            assert(v.push(a)[k] == v[k]);
        } else {
            assert(v.push(a)[k] == a);
        }
    }
}

/// Failing one more queued command appends one failure action.
pub proof fn lemma_fail_each_take(q: Seq<CmdModel>, reason: ErrorKind, diag: Seq<u8>, i: int)
    requires
        0 <= i < q.len(),
    ensures
        fail_each(q.take(i + 1), reason, diag) =~= fail_each(q.take(i), reason, diag).push(
            SpecAction::Fail { id: q[i].id, reason, diagnostic: diag },
        ),
{
    let l = fail_each(q.take(i + 1), reason, diag);
    let r = fail_each(q.take(i), reason, diag).push(
        SpecAction::Fail { id: q[i].id, reason, diagnostic: diag },
    );
    assert forall|k: int| 0 <= k < l.len() implies l[k] == r[k] by {
        assert(q.take(i + 1)[k] == q[k]);
        if k < i {
            assert(q.take(i)[k] == q[k]);
        }
    }
}

/// The exact bytes written to the child for a prompt: the UTF-8 text plus
/// one trailing newline, nothing else.
pub open spec fn prompt_line(prompt: Seq<u8>) -> Seq<u8> {
    prompt.push(NL)
}

/// A machine that has just begun serving command `c`.
pub open spec fn start_serving(m: SupModel, c: CmdModel, rest: Seq<CmdModel>) -> SupModel {
    SupModel {
        phase: Phase::Serving,
        demux_buf: Seq::empty(),
        delivered: Seq::empty(),
        current: Some(c.id),
        queue: rest,
        ..m
    }
}

/// A machine that has terminated for the given reason.
pub open spec fn terminated(m: SupModel, reason: ErrorKind, diag: Seq<u8>) -> SupModel {
    SupModel {
        phase: Phase::Terminated,
        current: None,
        queue: Seq::empty(),
        fail: reason,
        fail_diag: diag,
        ..m
    }
}

/// What happens when the command in flight reaches a terminal state and the
/// machine moves on: serve the next queued command, or fall idle, or — when
/// the submission path is already closed — kill the child and stop.
pub open spec fn after_current(m: SupModel) -> (SupModel, Seq<SpecAction>) {
    if m.queue.len() > 0 {
        let c = m.queue[0];
        (
            start_serving(m, c, m.queue.drop_first()),
            seq![SpecAction::Write { id: c.id, bytes: prompt_line(c.prompt) }],
        )
    } else if m.closing {
        (terminated(m, ErrorKind::ShutDown, Seq::empty()), seq![SpecAction::Kill])
    } else {
        (SupModel { phase: Phase::Idle, current: None, ..m }, Seq::empty())
    }
}

/// The whole machine dies: the command in flight (if any) fails first, then
/// every queued command in submission order, then the child is killed.
pub open spec fn die(m: SupModel, reason: ErrorKind, diag: Seq<u8>) -> (SupModel, Seq<SpecAction>) {
    let head: Seq<SpecAction> = match m.current {
        Some(id) => seq![SpecAction::Fail { id, reason, diagnostic: diag }],
        None => Seq::empty(),
    };
    (
        terminated(m, reason, diag),
        head + fail_each(m.queue, reason, diag) + seq![SpecAction::Kill],
    )
}

/// The transition function of the supervised process.
pub open spec fn sup_step(m: SupModel, ev: EventModel) -> (SupModel, Seq<SpecAction>) {
    match ev {
        EventModel::Submit { id, prompt } => {
            if m.phase is Terminated {
                (m, seq![SpecAction::Fail { id, reason: m.fail, diagnostic: m.fail_diag }])
            } else if m.closing {
                (
                    m,
                    seq![
                        SpecAction::Fail {
                            id,
                            reason: ErrorKind::ShutDown,
                            diagnostic: Seq::empty(),
                        },
                    ],
                )
            } else if m.phase is Idle {
                let c = CmdModel { id, prompt };
                (
                    start_serving(m, c, Seq::empty()),
                    seq![SpecAction::Write { id, bytes: prompt_line(prompt) }],
                )
            } else {
                // Starting or Serving: buffered behind whatever is ahead.
                (SupModel { queue: m.queue.push(CmdModel { id, prompt }), ..m }, Seq::empty())
            }
        },
        EventModel::Stdout { chunk } => {
            if m.phase is Starting {
                let hs = m.hs + chunk;
                let m1 = SupModel { hs, ..m };
                match handshake_status(hs) {
                    HandshakeStatus::Failed => die(m1, ErrorKind::HandshakeError, hs),
                    HandshakeStatus::Ready => after_current(m1),
                    HandshakeStatus::Waiting => (m1, Seq::empty()),
                }
            } else if m.phase is Serving {
                let s = m.demux_buf + chunk;
                let id = m.current->0;
                if is_terminal(s) {
                    let frag = stripped(s).skip(m.delivered.len() as int);
                    let emit: Seq<SpecAction> = if frag.len() > 0 {
                        seq![SpecAction::Emit { id, fragment: frag }]
                    } else {
                        Seq::empty()
                    };
                    let next = after_current(SupModel { demux_buf: s, delivered: stripped(s), ..m });
                    (next.0, emit + seq![SpecAction::Complete { id }] + next.1)
                } else {
                    let frag = s.take(visible_len(s)).skip(m.delivered.len() as int);
                    let emit: Seq<SpecAction> = if frag.len() > 0 {
                        seq![SpecAction::Emit { id, fragment: frag }]
                    } else {
                        Seq::empty()
                    };
                    (SupModel { demux_buf: s, delivered: s.take(visible_len(s)), ..m }, emit)
                }
            } else {
                // Idle or Terminated: nothing is read for any command.
                (m, Seq::empty())
            }
        },
        EventModel::StdoutEof => {
            if m.phase is Terminated {
                (m, Seq::empty())
            } else if m.phase is Starting {
                // death before readiness is a handshake failure; the startup
                // text is the diagnostic
                die(m, ErrorKind::StreamClosed, m.hs)
            } else {
                die(m, ErrorKind::StreamClosed, Seq::empty())
            }
        },
        EventModel::WriteFailed => {
            if m.phase is Serving {
                // Only the affected command fails; the process lives on.
                let id = m.current->0;
                let next = after_current(m);
                (
                    next.0,
                    seq![
                        SpecAction::Fail {
                            id,
                            reason: ErrorKind::WriteFailure,
                            diagnostic: Seq::empty(),
                        },
                    ] + next.1,
                )
            } else {
                (m, Seq::empty())
            }
        },
        EventModel::HandshakeTimeout => {
            if m.phase is Starting {
                die(m, ErrorKind::HandshakeTimeout, m.hs)
            } else {
                (m, Seq::empty())
            }
        },
        EventModel::Shutdown => {
            if m.phase is Idle {
                (terminated(m, ErrorKind::ShutDown, Seq::empty()), seq![SpecAction::Kill])
            } else if m.phase is Starting || m.phase is Serving {
                // Buffered and in-flight commands are still drained.
                (SupModel { closing: true, ..m }, Seq::empty())
            } else {
                (m, Seq::empty())
            }
        },
    }
}

/// Healthy machine states.
pub open spec fn sup_wf(m: SupModel) -> bool {
    &&& (m.phase is Serving) <==> (m.current is Some)
    &&& (m.phase is Serving) ==> !is_terminal(m.demux_buf) && m.delivered == m.demux_buf.take(
        visible_len(m.demux_buf),
    )
    &&& (m.phase is Starting) ==> handshake_status(m.hs) is Waiting
    &&& (m.phase is Terminated) ==> m.queue.len() == 0
    &&& (m.phase is Idle) ==> m.queue.len() == 0
}

/// An empty demultiplexer buffer is not terminal and has delivered nothing.
pub proof fn lemma_fresh_demux_healthy()
    ensures
        !is_terminal(Seq::<u8>::empty()),
        Seq::<u8>::empty().take(visible_len(Seq::<u8>::empty())) == Seq::<u8>::empty(),
{
    let e = Seq::<u8>::empty();
    assert(forall|i: int| !crate::bytes::match_at(e, crate::demux::nl_marker(), i));
    assert(!crate::bytes::contains_seq(e, crate::demux::nl_marker()));
    assert(visible_len(e) == 0);
    assert(e.take(0) =~= e);
}

/// Every step preserves machine health.
pub proof fn lemma_sup_step_wf(m: SupModel, ev: EventModel)
    requires
        sup_wf(m),
    ensures
        sup_wf(sup_step(m, ev).0),
{
    lemma_fresh_demux_healthy();
    match ev {
        EventModel::Stdout { chunk } => {
            if m.phase is Serving {
                let s = m.demux_buf + chunk;
                if !is_terminal(s) {
                    crate::demux::lemma_visible_len_bounds(s);
                }
            }
        },
        _ => {},
    }
}

/// The machine's initial state, fresh from a spawn: performing the
/// handshake, nothing buffered, nothing in flight.
pub open spec fn initial_model() -> SupModel {
    SupModel {
        phase: Phase::Starting,
        hs: Seq::empty(),
        demux_buf: Seq::empty(),
        delivered: Seq::empty(),
        current: None,
        queue: Seq::empty(),
        closing: false,
        fail: ErrorKind::ShutDown,
        fail_diag: Seq::empty(),
    }
}

/// Appends one failure action per queued command, in queue order, each
/// carrying the diagnostic text.
fn push_fail_all(actions: &mut Vec<Action>, queue: &Vec<Command>, reason: ErrorKind, diag: &Vec<u8>)
    ensures
        actions_model(final(actions)@) == actions_model(old(actions)@) + fail_each(
            queue@.map_values(|c: Command| cmd_model(c)),
            reason,
            diag@,
        ),
{
    let ghost base = actions@;
    let ghost qm = queue@.map_values(|c: Command| cmd_model(c));
    let n = queue.len();
    let mut i: usize = 0;
    while i < n
        invariant
            n == queue@.len(),
            qm == queue@.map_values(|c: Command| cmd_model(c)),
            i <= n,
            actions_model(actions@) == actions_model(base) + fail_each(
                qm.take(i as int),
                reason,
                diag@,
            ),
        decreases n - i,
    {
        let id = queue[i].id;
        let diagnostic = vstd::slice::slice_to_vec(diag.as_slice());
        let ghost prev = actions@;
        actions.push(Action::Fail { id, reason, diagnostic });
        proof {
            lemma_actions_model_push(prev, actions@.last());
            lemma_fail_each_take(qm, reason, diag@, i as int);
            assert(qm[i as int] == cmd_model(queue@[i as int]));
            assert(actions@ =~= prev.push(actions@.last()));
            assert(actions_model(actions@) =~~= actions_model(base) + fail_each(
                qm.take(i + 1),
                reason,
                diag@,
            ));
        }
        i += 1;
    }
    proof {
        assert(qm.take(n as int) =~= qm);
        assert(actions_model(actions@) =~~= actions_model(base) + fail_each(qm, reason, diag@));
    }
}

/// The supervised process state machine.
pub struct Supervisor {
    /// Where the process stands in its lifecycle.
    pub phase: Phase,
    /// Startup scanner, meaningful while starting.
    pub handshake: Handshake,
    /// Output decoder for the command in flight, meaningful while serving.
    pub demux: Demultiplexer,
    /// Sink of the command in flight, while serving.
    pub current: Option<u64>,
    /// Commands waiting behind the one in flight, in submission order.
    pub queue: Vec<Command>,
    /// The submission path was closed; drain, then kill the child.
    pub closing: bool,
    /// Why the machine terminated, once it has.
    pub fail: ErrorKind,
    /// Diagnostic text of the terminal failure, empty when there is none.
    pub fail_diag: Vec<u8>,
}

impl Supervisor {
    /// Ghost image of this machine.
    pub open spec fn model(self) -> SupModel {
        SupModel {
            phase: self.phase,
            hs: self.handshake.buf@,
            demux_buf: self.demux.buf@,
            delivered: self.demux.delivered(),
            current: self.current,
            queue: self.queue@.map_values(|c: Command| cmd_model(c)),
            closing: self.closing,
            fail: self.fail,
            fail_diag: self.fail_diag@,
        }
    }

    /// Healthy machine: the ghost invariant holds and, while serving, the
    /// decoder is live.
    pub open spec fn wf(self) -> bool {
        &&& sup_wf(self.model())
        &&& self.phase is Serving ==> self.demux.wf() && !self.demux.done
    }

    /// A freshly spawned process, about to perform its handshake.
    pub fn new() -> (r: Self)
        ensures
            r.wf(),
            r.model() == initial_model(),
    {
        let r = Supervisor {
            phase: Phase::Starting,
            handshake: Handshake::new(),
            demux: Demultiplexer::new(),
            current: None,
            queue: Vec::new(),
            closing: false,
            fail: ErrorKind::ShutDown,
            fail_diag: Vec::new(),
        };
        proof {
            let e = Seq::<u8>::empty();
            crate::bytes::lemma_lower_seq_len(e);
            assert(forall|i: int| !crate::bytes::match_at(
                crate::bytes::lower_seq(e),
                crate::bytes::lower_seq(crate::handshake::error_word()),
                i,
            ));
            assert(forall|i: int| !crate::bytes::match_at(
                crate::bytes::lower_seq(e),
                crate::bytes::lower_seq(crate::handshake::failed_word()),
                i,
            ));
            assert(forall|i: int| !crate::bytes::match_at(e, crate::demux::marker(), i));
            assert(r.model().queue =~= Seq::<CmdModel>::empty());
            assert(r.model() =~~= initial_model());
        }
        r
    }

    /// Moves on after the command in flight reached a terminal state (or
    /// after readiness): serve the next queued command, or fall idle, or —
    /// when closing — kill the child and stop.
    fn advance_queue(&mut self) -> (actions: Vec<Action>)
        ensures
            final(self).model() == after_current(old(self).model()).0,
            actions_model(actions@) == after_current(old(self).model()).1,
            final(self).phase is Serving ==> final(self).demux.wf() && !final(self).demux.done,
    {
        let ghost m0 = self.model();
        if self.queue.len() > 0 {
            let c = self.queue.remove(0);
            let id = c.id;
            let mut bytes = c.prompt;
            bytes.push(NL);
            self.phase = Phase::Serving;
            self.demux = Demultiplexer::new();
            self.current = Some(id);
            let mut actions: Vec<Action> = Vec::new();
            actions.push(Action::Write { id, bytes });
            proof {
                assert(self.queue@.map_values(|c: Command| cmd_model(c)) =~= m0.queue.drop_first());
                assert(m0.queue[0] == cmd_model(old(self).queue@[0]));
                assert(self.model() =~~= after_current(m0).0);
                assert(actions_model(actions@) =~~= after_current(m0).1);
            }
            actions
        } else if self.closing {
            self.phase = Phase::Terminated;
            self.current = None;
            self.fail = ErrorKind::ShutDown;
            self.fail_diag = Vec::new();
            let mut actions: Vec<Action> = Vec::new();
            actions.push(Action::Kill);
            proof {
                assert(self.queue@.map_values(|c: Command| cmd_model(c)) =~= Seq::<CmdModel>::empty());
                assert(self.model() =~~= after_current(m0).0);
                assert(actions_model(actions@) =~~= after_current(m0).1);
            }
            actions
        } else {
            self.phase = Phase::Idle;
            self.current = None;
            let actions: Vec<Action> = Vec::new();
            proof {
                assert(self.model() =~~= after_current(m0).0);
                assert(actions_model(actions@) =~~= after_current(m0).1);
            }
            actions
        }
    }

    /// Terminates the machine: fails the command in flight, drains and
    /// fails every queued command in order — each failure carrying the
    /// diagnostic text — and kills the child.
    fn die_now(&mut self, reason: ErrorKind, diagnostic: Vec<u8>) -> (actions: Vec<Action>)
        ensures
            final(self).model() == die(old(self).model(), reason, diagnostic@).0,
            actions_model(actions@) == die(old(self).model(), reason, diagnostic@).1,
    {
        let ghost m0 = self.model();
        let mut actions: Vec<Action> = Vec::new();
        match self.current {
            Some(id) => {
                let d = vstd::slice::slice_to_vec(diagnostic.as_slice());
                actions.push(Action::Fail { id, reason, diagnostic: d });
            },
            None => {},
        }
        push_fail_all(&mut actions, &self.queue, reason, &diagnostic);
        let ghost prev = actions@;
        actions.push(Action::Kill);
        proof {
            lemma_actions_model_push(prev, Action::Kill);
        }
        self.queue.clear();
        self.current = None;
        self.phase = Phase::Terminated;
        self.fail = reason;
        self.fail_diag = diagnostic;
        proof {
            assert(self.queue@.map_values(|c: Command| cmd_model(c)) =~= Seq::<CmdModel>::empty());
            assert(self.model() =~~= die(m0, reason, final(self).fail_diag@).0);
            assert(actions_model(actions@) =~~= die(m0, reason, final(self).fail_diag@).1);
        }
        actions
    }
    /// A caller submits a prompt for sink `id`.  Before readiness the
    /// command is buffered; while another command is in flight it queues
    /// behind it; on an idle ready process it is written out at once; on a
    /// terminated process it fails immediately with the terminal cause.
    pub fn submit(&mut self, id: u64, prompt: Vec<u8>) -> (actions: Vec<Action>)
        requires
            old(self).wf(),
        ensures
            final(self).wf(),
            final(self).model() == sup_step(
                old(self).model(),
                EventModel::Submit { id, prompt: prompt@ },
            ).0,
            actions_model(actions@) == sup_step(
                old(self).model(),
                EventModel::Submit { id, prompt: prompt@ },
            ).1,
    {
        let ghost m0 = self.model();
        let ghost ev = EventModel::Submit { id, prompt: prompt@ };
        proof {
            lemma_sup_step_wf(m0, ev);
        }
        let mut actions: Vec<Action> = Vec::new();
        if matches!(self.phase, Phase::Terminated) {
            let diagnostic = vstd::slice::slice_to_vec(self.fail_diag.as_slice());
            actions.push(Action::Fail { id, reason: self.fail, diagnostic });
            proof {
                assert(actions_model(actions@) =~~= sup_step(m0, ev).1);
            }
        } else if self.closing {
            actions.push(Action::Fail { id, reason: ErrorKind::ShutDown, diagnostic: Vec::new() });
            proof {
                assert(actions_model(actions@) =~~= sup_step(m0, ev).1);
            }
        } else if matches!(self.phase, Phase::Idle) {
            let mut bytes = prompt;
            bytes.push(NL);
            self.phase = Phase::Serving;
            self.demux = Demultiplexer::new();
            self.current = Some(id);
            actions.push(Action::Write { id, bytes });
            proof {
                assert(self.model() =~~= sup_step(m0, ev).0);
                assert(actions_model(actions@) =~~= sup_step(m0, ev).1);
            }
        } else {
            self.queue.push(Command { id, prompt });
            proof {
                assert(self.queue@.map_values(|c: Command| cmd_model(c)) =~= m0.queue.push(
                    CmdModel { id, prompt: ev->Submit_prompt },
                ));
                assert(self.model() =~~= sup_step(m0, ev).0);
                assert(actions_model(actions@) =~~= sup_step(m0, ev).1);
            }
        }
        actions
    }

    /// A read from the child's stdout returned `chunk`.  During the
    /// handshake this feeds the startup scanner; while serving it feeds the
    /// demultiplexer; otherwise it is ignored.
    pub fn on_stdout(&mut self, chunk: &[u8]) -> (actions: Vec<Action>)
        requires
            old(self).wf(),
            old(self).handshake.buf@.len() + chunk@.len() <= usize::MAX,
            old(self).demux.buf@.len() + chunk@.len() <= usize::MAX,
        ensures
            final(self).wf(),
            final(self).model() == sup_step(
                old(self).model(),
                EventModel::Stdout { chunk: chunk@ },
            ).0,
            actions_model(actions@) == sup_step(
                old(self).model(),
                EventModel::Stdout { chunk: chunk@ },
            ).1,
    {
        let ghost m0 = self.model();
        let ghost ev = EventModel::Stdout { chunk: chunk@ };
        proof {
            lemma_sup_step_wf(m0, ev);
        }
        if matches!(self.phase, Phase::Starting) {
            let step = self.handshake.on_chunk(chunk);
            let ghost m1 = SupModel { hs: m0.hs + chunk@, ..m0 };
            proof {
                assert(self.model() =~~= m1);
            }
            match step.status {
                HandshakeStatus::Waiting => {
                    let actions: Vec<Action> = Vec::new();
                    proof {
                        assert(actions_model(actions@) =~~= sup_step(m0, ev).1);
                    }
                    actions
                },
                HandshakeStatus::Ready => {
                    let actions = self.advance_queue();
                    proof {
                        assert(self.model() =~~= sup_step(m0, ev).0);
                    }
                    actions
                },
                HandshakeStatus::Failed => {
                    let diagnostic = vstd::slice::slice_to_vec(self.handshake.buf.as_slice());
                    let actions = self.die_now(ErrorKind::HandshakeError, diagnostic);
                    proof {
                        assert(self.model() =~~= sup_step(m0, ev).0);
                    }
                    actions
                },
            }
        } else if matches!(self.phase, Phase::Serving) {
            let d = self.demux.push(chunk);
            let id = self.current.unwrap();
            let ghost s = m0.demux_buf + chunk@;
            let mut actions: Vec<Action> = Vec::new();
            proof {
                assert(self.demux.delivered() =~= m0.delivered + crate::demux::fragment_seq(
                    d.fragment,
                ));
            }
            match d.fragment {
                Some(f) => {
                    proof {
                        assert(f@ =~= self.demux.delivered().skip(m0.delivered.len() as int));
                    }
                    actions.push(Action::Emit { id, fragment: f });
                },
                None => {
                    proof {
                        assert(self.demux.delivered().skip(m0.delivered.len() as int)
                            =~= Seq::<u8>::empty());
                    }
                },
            }
            if d.complete {
                let ghost prev = actions@;
                actions.push(Action::Complete { id });
                proof {
                    lemma_actions_model_push(prev, Action::Complete { id });
                    assert(self.model() =~~= SupModel {
                        demux_buf: s,
                        delivered: stripped(s),
                        ..m0
                    });
                }
                let ghost before_tail = actions@;
                let mut tail = self.advance_queue();
                actions.append(&mut tail);
                proof {
                    assert(actions_model(actions@) =~~= actions_model(before_tail)
                        + after_current(SupModel { demux_buf: s, delivered: stripped(s), ..m0 }).1);
                    assert(self.model() =~~= sup_step(m0, ev).0);
                    assert(actions_model(actions@) =~~= sup_step(m0, ev).1);
                }
            } else {
                proof {
                    assert(self.model() =~~= sup_step(m0, ev).0);
                    assert(actions_model(actions@) =~~= sup_step(m0, ev).1);
                }
            }
            actions
        } else {
            let actions: Vec<Action> = Vec::new();
            proof {
                assert(actions_model(actions@) =~~= sup_step(m0, ev).1);
            }
            actions
        }
    }

    /// A read from the child's stdout returned zero bytes: the child died.
    /// The command in flight and every queued command fail; the child is
    /// reaped.
    pub fn on_stdout_eof(&mut self) -> (actions: Vec<Action>)
        requires
            old(self).wf(),
        ensures
            final(self).wf(),
            final(self).model() == sup_step(old(self).model(), EventModel::StdoutEof).0,
            actions_model(actions@) == sup_step(old(self).model(), EventModel::StdoutEof).1,
    {
        let ghost m0 = self.model();
        proof {
            lemma_sup_step_wf(m0, EventModel::StdoutEof);
        }
        if matches!(self.phase, Phase::Terminated) {
            let actions: Vec<Action> = Vec::new();
            proof {
                assert(actions_model(actions@) =~~= sup_step(m0, EventModel::StdoutEof).1);
            }
            actions
        } else if matches!(self.phase, Phase::Starting) {
            let diagnostic = vstd::slice::slice_to_vec(self.handshake.buf.as_slice());
            self.die_now(ErrorKind::StreamClosed, diagnostic)
        } else {
            self.die_now(ErrorKind::StreamClosed, Vec::new())
        }
    }

    /// The last write action could not be performed: only the affected
    /// command fails; the process is not assumed dead.
    pub fn on_write_failed(&mut self) -> (actions: Vec<Action>)
        requires
            old(self).wf(),
        ensures
            final(self).wf(),
            final(self).model() == sup_step(old(self).model(), EventModel::WriteFailed).0,
            actions_model(actions@) == sup_step(old(self).model(), EventModel::WriteFailed).1,
    {
        let ghost m0 = self.model();
        proof {
            lemma_sup_step_wf(m0, EventModel::WriteFailed);
        }
        if matches!(self.phase, Phase::Serving) {
            let id = self.current.unwrap();
            let mut actions: Vec<Action> = Vec::new();
            actions.push(
                Action::Fail { id, reason: ErrorKind::WriteFailure, diagnostic: Vec::new() },
            );
            let ghost head = actions@;
            let mut tail = self.advance_queue();
            actions.append(&mut tail);
            proof {
                assert(actions_model(actions@) =~~= actions_model(head) + after_current(m0).1);
                assert(actions_model(actions@) =~~= sup_step(m0, EventModel::WriteFailed).1);
            }
            actions
        } else {
            let actions: Vec<Action> = Vec::new();
            proof {
                assert(actions_model(actions@) =~~= sup_step(m0, EventModel::WriteFailed).1);
            }
            actions
        }
    }

    /// The startup timeout elapsed without readiness: the handshake fails.
    pub fn on_handshake_timeout(&mut self) -> (actions: Vec<Action>)
        requires
            old(self).wf(),
        ensures
            final(self).wf(),
            final(self).model() == sup_step(old(self).model(), EventModel::HandshakeTimeout).0,
            actions_model(actions@) == sup_step(old(self).model(), EventModel::HandshakeTimeout).1,
    {
        let ghost m0 = self.model();
        proof {
            lemma_sup_step_wf(m0, EventModel::HandshakeTimeout);
        }
        if matches!(self.phase, Phase::Starting) {
            let diagnostic = vstd::slice::slice_to_vec(self.handshake.buf.as_slice());
            self.die_now(ErrorKind::HandshakeTimeout, diagnostic)
        } else {
            let actions: Vec<Action> = Vec::new();
            proof {
                assert(actions_model(actions@) =~~= sup_step(m0, EventModel::HandshakeTimeout).1);
            }
            actions
        }
    }

    /// The submission path was closed.  An idle process is killed at once;
    /// a starting or serving process drains its remaining work first.
    pub fn on_shutdown(&mut self) -> (actions: Vec<Action>)
        requires
            old(self).wf(),
        ensures
            final(self).wf(),
            final(self).model() == sup_step(old(self).model(), EventModel::Shutdown).0,
            actions_model(actions@) == sup_step(old(self).model(), EventModel::Shutdown).1,
    {
        let ghost m0 = self.model();
        proof {
            lemma_sup_step_wf(m0, EventModel::Shutdown);
        }
        if matches!(self.phase, Phase::Idle) {
            self.phase = Phase::Terminated;
            self.current = None;
            self.fail = ErrorKind::ShutDown;
            self.fail_diag = Vec::new();
            let mut actions: Vec<Action> = Vec::new();
            actions.push(Action::Kill);
            proof {
                assert(self.queue@.map_values(|c: Command| cmd_model(c))
                    =~= Seq::<CmdModel>::empty());
                assert(self.model() =~~= sup_step(m0, EventModel::Shutdown).0);
                assert(actions_model(actions@) =~~= sup_step(m0, EventModel::Shutdown).1);
            }
            actions
        } else if matches!(self.phase, Phase::Starting) || matches!(self.phase, Phase::Serving) {
            self.closing = true;
            let actions: Vec<Action> = Vec::new();
            proof {
                assert(self.model() =~~= sup_step(m0, EventModel::Shutdown).0);
                assert(actions_model(actions@) =~~= sup_step(m0, EventModel::Shutdown).1);
            }
            actions
        } else {
            let actions: Vec<Action> = Vec::new();
            proof {
                assert(actions_model(actions@) =~~= sup_step(m0, EventModel::Shutdown).1);
            }
            actions
        }
    }
}

/// An action that ends command `id`: completion or failure of its sink.
pub open spec fn is_terminal_for(a: SpecAction, id: u64) -> bool {
    ||| (a is Complete && a->Complete_id == id)
    ||| (a is Fail && a->Fail_id == id)
}

/// Death propagation: when the child's stdout reaches end of file while a
/// command is in flight, that command fails, every command queued behind it
/// fails too — in queue order — and the child is killed.  Nothing hangs.
pub proof fn lemma_death_propagation(m: SupModel)
    requires
        sup_wf(m),
        m.phase is Serving,
    ensures
        sup_step(m, EventModel::StdoutEof).0.phase is Terminated,
        sup_step(m, EventModel::StdoutEof).1.len() == m.queue.len() + 2,
        sup_step(m, EventModel::StdoutEof).1[0] == (SpecAction::Fail {
            id: m.current->0,
            reason: ErrorKind::StreamClosed,
            diagnostic: Seq::empty(),
        }),
        forall|k: int|
            0 <= k < m.queue.len() ==> sup_step(m, EventModel::StdoutEof).1[1 + k]
                == (SpecAction::Fail {
                id: m.queue[k].id,
                reason: ErrorKind::StreamClosed,
                diagnostic: Seq::empty(),
            }),
        sup_step(m, EventModel::StdoutEof).1.last() == SpecAction::Kill,
{
    let (m1, acts) = die(m, ErrorKind::StreamClosed, Seq::empty());
    assert forall|k: int| 0 <= k < m.queue.len() implies acts[1 + k] == (SpecAction::Fail {
        id: m.queue[k].id,
        reason: ErrorKind::StreamClosed,
        diagnostic: Seq::empty(),
    }) by {
        assert(fail_each(m.queue, ErrorKind::StreamClosed, Seq::empty())[k] == (SpecAction::Fail {
            id: m.queue[k].id,
            reason: ErrorKind::StreamClosed,
            diagnostic: Seq::empty(),
        }));
    }
}

/// Handshake buffering: a command submitted before readiness is neither
/// dropped nor executed — it is appended to the buffer, behind every earlier
/// submission, and nothing is written to the child.
pub proof fn lemma_handshake_buffering(m: SupModel, id: u64, prompt: Seq<u8>)
    requires
        sup_wf(m),
        m.phase is Starting,
        !m.closing,
    ensures
        sup_step(m, EventModel::Submit { id, prompt }).0.phase is Starting,
        sup_step(m, EventModel::Submit { id, prompt }).0.queue == m.queue.push(
            CmdModel { id, prompt },
        ),
        sup_step(m, EventModel::Submit { id, prompt }).1 == Seq::<SpecAction>::empty(),
{
}

/// Order after readiness: the moment the readiness marker arrives, the
/// oldest buffered command — and it alone — is written to the child, and the
/// rest keep their submission order.
pub proof fn lemma_ready_serves_in_order(m: SupModel, chunk: Seq<u8>)
    requires
        sup_wf(m),
        m.phase is Starting,
        handshake_status(m.hs + chunk) is Ready,
        m.queue.len() > 0,
    ensures
        sup_step(m, EventModel::Stdout { chunk }).0.phase is Serving,
        sup_step(m, EventModel::Stdout { chunk }).0.current == Some(m.queue[0].id),
        sup_step(m, EventModel::Stdout { chunk }).0.queue == m.queue.drop_first(),
        sup_step(m, EventModel::Stdout { chunk }).1 == seq![
            SpecAction::Write { id: m.queue[0].id, bytes: prompt_line(m.queue[0].prompt) },
        ],
{
}

/// FIFO serialization, write side: whatever the event, a write action goes
/// only to the oldest waiting command — or, on an idle process, to the
/// submission that arrived — and that command alone is in flight afterwards.
pub proof fn lemma_write_only_oldest(m: SupModel, ev: EventModel, k: int)
    requires
        sup_wf(m),
        0 <= k < sup_step(m, ev).1.len(),
        sup_step(m, ev).1[k] is Write,
    ensures
        (m.phase is Idle && ev is Submit && sup_step(m, ev).1[k]->Write_id == ev->Submit_id) || (
        m.queue.len() > 0 && sup_step(m, ev).1[k]->Write_id == m.queue[0].id),
        sup_step(m, ev).0.current == Some(sup_step(m, ev).1[k]->Write_id),
{
    let acts = sup_step(m, ev).1;
    match ev {
        EventModel::Submit { id, prompt } => {},
        EventModel::Stdout { chunk } => {
            if m.phase is Starting {
                let hs = m.hs + chunk;
                let m1 = SupModel { hs, ..m };
                if handshake_status(hs) is Failed {
                    lemma_die_no_write(m1, ErrorKind::HandshakeError, hs, k);
                }
            } else if m.phase is Serving {
                let s = m.demux_buf + chunk;
                if is_terminal(s) {
                    let next = after_current(SupModel { demux_buf: s, delivered: stripped(s), ..m });
                    assert(acts[k] == next.1[k - (acts.len() - next.1.len())]);
                }
            }
        },
        EventModel::StdoutEof => {
            if m.phase is Starting {
                lemma_die_no_write(m, ErrorKind::StreamClosed, m.hs, k);
            } else if !(m.phase is Terminated) {
                lemma_die_no_write(m, ErrorKind::StreamClosed, Seq::empty(), k);
            }
        },
        EventModel::WriteFailed => {},
        EventModel::HandshakeTimeout => {
            if m.phase is Starting {
                lemma_die_no_write(m, ErrorKind::HandshakeTimeout, m.hs, k);
            }
        },
        EventModel::Shutdown => {},
    }
}

/// A dying machine writes nothing: it only fails sinks and kills the child.
proof fn lemma_die_no_write(m: SupModel, reason: ErrorKind, diag: Seq<u8>, k: int)
    requires
        0 <= k < die(m, reason, diag).1.len(),
    ensures
        !(die(m, reason, diag).1[k] is Write),
{
    let acts = die(m, reason, diag).1;
    let head: Seq<SpecAction> = match m.current {
        Some(id) => seq![SpecAction::Fail { id, reason, diagnostic: diag }],
        None => Seq::empty(),
    };
    if head.len() <= k < head.len() + m.queue.len() {
        assert(acts[k] == fail_each(m.queue, reason, diag)[k - head.len()]);
    }
}

/// FIFO serialization, order side: while a command is in flight, a write
/// for the next command appears only after the in-flight command's own
/// terminal action, earlier in the very same action list.
pub proof fn lemma_write_after_terminal(m: SupModel, ev: EventModel, k: int)
    requires
        sup_wf(m),
        m.phase is Serving,
        0 <= k < sup_step(m, ev).1.len(),
        sup_step(m, ev).1[k] is Write,
    ensures
        exists|t: int|
            0 <= t < k && is_terminal_for(#[trigger] sup_step(m, ev).1[t], m.current->0),
{
    let acts = sup_step(m, ev).1;
    let id = m.current->0;
    match ev {
        EventModel::Stdout { chunk } => {
            let s = m.demux_buf + chunk;
            if is_terminal(s) {
                let frag = stripped(s).skip(m.delivered.len() as int);
                let emit: Seq<SpecAction> = if frag.len() > 0 {
                    seq![SpecAction::Emit { id, fragment: frag }]
                } else {
                    Seq::empty()
                };
                let c = emit.len() as int;
                assert(acts[c] == SpecAction::Complete { id });
                assert(is_terminal_for(acts[c], id));
                assert(k > c);
            }
        },
        EventModel::StdoutEof => {
            lemma_die_no_write(m, ErrorKind::StreamClosed, Seq::empty(), k);
        },
        EventModel::WriteFailed => {
            assert(acts[0] == (SpecAction::Fail {
                id,
                reason: ErrorKind::WriteFailure,
                diagnostic: Seq::empty(),
            }));
            assert(is_terminal_for(acts[0], id));
            assert(k > 0);
        },
        _ => {},
    }
}

/// The machine run over a whole event trace from the initial state: the
/// final state and every action performed, in order.
pub open spec fn sup_run(evs: Seq<EventModel>) -> (SupModel, Seq<SpecAction>)
    decreases evs.len(),
{
    if evs.len() == 0 {
        (initial_model(), Seq::empty())
    } else {
        let prev = sup_run(evs.drop_last());
        let step = sup_step(prev.0, evs.last());
        (step.0, prev.1 + step.1)
    }
}

/// Some action writes to the child for sink `id`.
pub open spec fn has_write(acts: Seq<SpecAction>, id: u64) -> bool {
    exists|k: int| 0 <= k < acts.len() && (#[trigger] acts[k]) is Write && acts[k]->Write_id == id
}

/// Some action ends the command of sink `id`.
pub open spec fn has_terminal(acts: Seq<SpecAction>, id: u64) -> bool {
    exists|k: int| 0 <= k < acts.len() && is_terminal_for(#[trigger] acts[k], id)
}

/// Sink `id` waits somewhere in the queue.
pub open spec fn in_queue(q: Seq<CmdModel>, id: u64) -> bool {
    exists|qi: int| 0 <= qi < q.len() && (#[trigger] q[qi]).id == id
}

/// Wherever `b` waits in the queue, `a` waits ahead of it.
pub open spec fn ordered_before(q: Seq<CmdModel>, a: u64, b: u64) -> bool {
    forall|qb: int|
        0 <= qb < q.len() && (#[trigger] q[qb]).id == b ==> exists|qa: int|
            0 <= qa < qb && (#[trigger] q[qa]).id == a
}

/// The run invariant behind FIFO serialization, for one pair of sinks `a`
/// submitted before `b`:  before `b` is submitted nothing mentions it, and
/// from `a`'s submission until `a`'s terminal action, `a` stays in the
/// machine ahead of `b` and `b` is never written.
pub open spec fn fifo_inv(
    m: SupModel,
    acts: Seq<SpecAction>,
    a: u64,
    b: u64,
    a_submitted: bool,
    b_submitted: bool,
) -> bool {
    &&& sup_wf(m)
    &&& !b_submitted ==> !has_write(acts, b) && !in_queue(m.queue, b) && m.current != Some(b)
    &&& a_submitted && !has_terminal(acts, a) ==> {
        &&& m.current == Some(a) || in_queue(m.queue, a)
        &&& b_submitted ==> !has_write(acts, b) && m.current != Some(b) && (m.current == Some(a)
            || ordered_before(m.queue, a, b))
    }
}

/// Concatenation facts for searches over action lists.
proof fn lemma_has_write_concat(x: Seq<SpecAction>, y: Seq<SpecAction>, id: u64)
    ensures
        has_write(x + y, id) == (has_write(x, id) || has_write(y, id)),
        has_terminal(x + y, id) == (has_terminal(x, id) || has_terminal(y, id)),
{
    let xy = x + y;
    if has_write(x, id) {
        let k = choose|k: int| 0 <= k < x.len() && (#[trigger] x[k]) is Write && x[k]->Write_id
            == id;
        assert(xy[k] == x[k]);
    }
    if has_write(y, id) {
        let k = choose|k: int| 0 <= k < y.len() && (#[trigger] y[k]) is Write && y[k]->Write_id
            == id;
        assert(xy[x.len() + k] == y[k]);
    }
    if has_write(xy, id) {
        let k = choose|k: int| 0 <= k < xy.len() && (#[trigger] xy[k]) is Write && xy[k]->Write_id
            == id;
        if k < x.len() {
            assert(x[k] == xy[k]);
        } else {
            assert(y[k - x.len()] == xy[k]);
        }
    }
    if has_terminal(x, id) {
        let k = choose|k: int| 0 <= k < x.len() && is_terminal_for(#[trigger] x[k], id);
        assert(is_terminal_for(xy[k], id));
    }
    if has_terminal(y, id) {
        let k = choose|k: int| 0 <= k < y.len() && is_terminal_for(#[trigger] y[k], id);
        assert(is_terminal_for(xy[x.len() + k], id));
    }
    if has_terminal(xy, id) {
        let k = choose|k: int| 0 <= k < xy.len() && is_terminal_for(#[trigger] xy[k], id);
        if k < x.len() {
            assert(is_terminal_for(x[k], id));
        } else {
            assert(is_terminal_for(y[k - x.len()], id));
        }
    }
}

/// A queued command fails — and so reaches a terminal action — when the
/// machine dies.
proof fn lemma_die_terminates_queued(m: SupModel, reason: ErrorKind, diag: Seq<u8>, id: u64)
    requires
        m.current == Some(id) || in_queue(m.queue, id),
    ensures
        has_terminal(die(m, reason, diag).1, id),
{
    let acts = die(m, reason, diag).1;
    let head: Seq<SpecAction> = match m.current {
        Some(c) => seq![SpecAction::Fail { id: c, reason, diagnostic: diag }],
        None => Seq::empty(),
    };
    if m.current == Some(id) {
        assert(is_terminal_for(acts[0], id));
    } else {
        let qi = choose|qi: int| 0 <= qi < m.queue.len() && (#[trigger] m.queue[qi]).id == id;
        assert(fail_each(m.queue, reason, diag)[qi] == (SpecAction::Fail {
            id,
            reason,
            diagnostic: diag,
        }));
        assert(acts[head.len() + qi] == (SpecAction::Fail { id, reason, diagnostic: diag }));
        assert(is_terminal_for(acts[head.len() + qi], id));
    }
}

/// No two submissions in a trace share a sink.
pub open spec fn distinct_submit_ids(evs: Seq<EventModel>) -> bool {
    forall|s: int, t: int|
        0 <= s < t < evs.len() && (#[trigger] evs[s]) is Submit && (#[trigger] evs[t]) is Submit
            ==> evs[s]->Submit_id != evs[t]->Submit_id
}

/// One step preserves the FIFO invariant for the pair `a` before `b`.
proof fn lemma_fifo_step(
    m: SupModel,
    acts: Seq<SpecAction>,
    ev: EventModel,
    a: u64,
    b: u64,
    a_sub: bool,
    b_sub: bool,
    a_sub2: bool,
    b_sub2: bool,
)
    requires
        fifo_inv(m, acts, a, b, a_sub, b_sub),
        a != b,
        b_sub ==> a_sub,
        a_sub2 == (a_sub || (ev is Submit && ev->Submit_id == a)),
        b_sub2 == (b_sub || (ev is Submit && ev->Submit_id == b)),
        ev is Submit && ev->Submit_id == a ==> !a_sub && !b_sub,
        ev is Submit && ev->Submit_id == b ==> a_sub && !b_sub,
    ensures
        fifo_inv(sup_step(m, ev).0, acts + sup_step(m, ev).1, a, b, a_sub2, b_sub2),
{
    lemma_sup_step_wf(m, ev);
    let m2 = sup_step(m, ev).0;
    let step = sup_step(m, ev).1;
    let acts2 = acts + step;
    lemma_has_write_concat(acts, step, a);
    lemma_has_write_concat(acts, step, b);
    match ev {
        EventModel::Submit { id, prompt } => {
            let c = CmdModel { id, prompt };
            if m.phase is Terminated || m.closing {
                // The submission is rejected with one failure; nothing else
                // changes.
                assert(m2 == m);
                assert(step.len() == 1 && step[0] is Fail && step[0]->Fail_id == id);
                if has_write(step, b) {
                    let k = choose|k: int| 0 <= k < step.len() && (#[trigger] step[k]) is Write
                        && step[k]->Write_id == b;
                    assert(false);
                }
                if id == a {
                    assert(is_terminal_for(step[0], a));
                    assert(has_terminal(step, a));
                } else {
                    if has_terminal(step, a) {
                        let k = choose|k: int| 0 <= k < step.len() && is_terminal_for(
                            #[trigger] step[k],
                            a,
                        );
                        assert(false);
                    }
                }
            } else if m.phase is Idle {
                // An idle, healthy machine holds nothing.
                assert(m.queue.len() == 0);
                assert(m.current is None);
                assert(step.len() == 1 && step[0] is Write && step[0]->Write_id == id);
                assert(m2.queue =~= m.queue);
                if has_terminal(step, a) {
                    let k = choose|k: int| 0 <= k < step.len() && is_terminal_for(
                        #[trigger] step[k],
                        a,
                    );
                    assert(false);
                }
                if !b_sub2 {
                    assert(id != b);
                    if has_write(step, b) {
                        let k = choose|k: int| 0 <= k < step.len() && (#[trigger] step[k]) is Write
                            && step[k]->Write_id == b;
                        assert(false);
                    }
                    if in_queue(m2.queue, b) {
                        let qi = choose|qi: int|
                            0 <= qi < m2.queue.len() && (#[trigger] m2.queue[qi]).id == b;
                        assert(false);
                    }
                }
                if a_sub2 && !has_terminal(acts2, a) {
                    if id == a {
                        assert(m2.current == Some(a));
                        assert(!b_sub2);
                    } else {
                        // a would have to wait in the empty machine.
                        assert(a_sub && !has_terminal(acts, a));
                        if in_queue(m.queue, a) {
                            let qi = choose|qi: int|
                                0 <= qi < m.queue.len() && (#[trigger] m.queue[qi]).id == a;
                            assert(false);
                        }
                        assert(false);
                    }
                }
            } else {
                // Starting or Serving: the submission queues up, no actions.
                assert(step =~= Seq::<SpecAction>::empty());
                assert(m2.queue =~= m.queue.push(c));
                if has_write(step, b) {
                    let k = choose|k: int| 0 <= k < step.len() && (#[trigger] step[k]) is Write
                        && step[k]->Write_id == b;
                    assert(false);
                }
                if has_terminal(step, a) {
                    let k = choose|k: int| 0 <= k < step.len() && is_terminal_for(
                        #[trigger] step[k],
                        a,
                    );
                    assert(false);
                }
                if !b_sub2 {
                    assert(id != b);
                    if in_queue(m2.queue, b) {
                        let qi = choose|qi: int|
                            0 <= qi < m2.queue.len() && (#[trigger] m2.queue[qi]).id == b;
                        assert(qi < m.queue.len());
                        assert(m.queue[qi].id == b);
                        assert(in_queue(m.queue, b));
                        assert(false);
                    }
                }
                if a_sub2 && !has_terminal(acts2, a) {
                    if id == a {
                        assert(m2.queue[m.queue.len() as int].id == a);
                        assert(in_queue(m2.queue, a));
                        assert(!b_sub2);
                    } else {
                        assert(a_sub && !has_terminal(acts, a));
                        if in_queue(m.queue, a) {
                            let qi = choose|qi: int|
                                0 <= qi < m.queue.len() && (#[trigger] m.queue[qi]).id == a;
                            assert(m2.queue[qi].id == a);
                            assert(in_queue(m2.queue, a));
                        }
                        if b_sub2 && m2.current != Some(a) {
                            assert forall|qb: int|
                                0 <= qb < m2.queue.len() && (#[trigger] m2.queue[qb]).id == b
                                    implies exists|qa: int|
                                0 <= qa < qb && (#[trigger] m2.queue[qa]).id == a by {
                                if qb < m.queue.len() {
                                    assert(m.queue[qb].id == b);
                                    let qa = choose|qa: int|
                                        0 <= qa < qb && (#[trigger] m.queue[qa]).id == a;
                                    assert(m2.queue[qa].id == a);
                                } else {
                                    // b was pushed just now; a waits in the old
                                    // queue ahead of it.
                                    assert(id == b);
                                    assert(!b_sub && a_sub);
                                    assert(in_queue(m.queue, a));
                                    let qa = choose|qa: int|
                                        0 <= qa < m.queue.len() && (#[trigger] m.queue[qa]).id
                                            == a;
                                    assert(m2.queue[qa].id == a);
                                }
                            }
                        }
                    }
                }
            }
        },
        EventModel::Stdout { chunk } => {
            if m.phase is Starting {
                let hs = m.hs + chunk;
                let m1 = SupModel { hs, ..m };
                match handshake_status(hs) {
                    HandshakeStatus::Failed => {
                        lemma_fifo_step_die(m1, step, ErrorKind::HandshakeError, hs, a, b);
                    },
                    HandshakeStatus::Ready => {
                        assert(m.current is None);
                        let live = a_sub && !has_terminal(acts2, a);
                        lemma_after_current_no_terminal(m1, step, Seq::empty(), a);
                        if live {
                            assert(!has_terminal(acts, a));
                            assert(in_queue(m1.queue, a));
                        }
                        lemma_fifo_step_after_current(m1, step, Seq::empty(), a, b, b_sub, live);
                    },
                    HandshakeStatus::Waiting => {
                        lemma_no_actions_carry(step, a, b);
                    },
                }
            } else if m.phase is Serving {
                let s = m.demux_buf + chunk;
                let cur = m.current->0;
                if is_terminal(s) {
                    let frag = stripped(s).skip(m.delivered.len() as int);
                    let emit: Seq<SpecAction> = if frag.len() > 0 {
                        seq![SpecAction::Emit { id: cur, fragment: frag }]
                    } else {
                        Seq::empty()
                    };
                    let head = emit + seq![SpecAction::Complete { id: cur }];
                    let mid = SupModel { demux_buf: s, delivered: stripped(s), ..m };
                    assert(step =~= head + after_current(mid).1);
                    assert(forall|k: int| 0 <= k < head.len() ==> !((#[trigger] head[k]) is Write));
                    if cur == a {
                        assert(is_terminal_for(head[emit.len() as int], a));
                        assert(step[emit.len() as int] == head[emit.len() as int]);
                        assert(has_terminal(step, a));
                    }
                    let live = a_sub && !has_terminal(acts2, a);
                    if live {
                        assert(cur != a);
                        assert(!has_terminal(acts, a));
                        assert(in_queue(mid.queue, a));
                    }
                    lemma_fifo_step_after_current(mid, step, head, a, b, b_sub, live);
                    lemma_after_current_no_terminal(mid, step, head, a);
                    if !live && a_sub2 && !has_terminal(acts2, a) {
                        assert(false);
                    }
                } else {
                    lemma_no_actions_carry(step, a, b);
                }
            } else {
                lemma_no_actions_carry(step, a, b);
            }
        },
        EventModel::StdoutEof => {
            if m.phase is Terminated {
                lemma_no_actions_carry(step, a, b);
            } else if m.phase is Starting {
                lemma_fifo_step_die(m, step, ErrorKind::StreamClosed, m.hs, a, b);
            } else {
                lemma_fifo_step_die(m, step, ErrorKind::StreamClosed, Seq::empty(), a, b);
            }
        },
        EventModel::WriteFailed => {
            if m.phase is Serving {
                let cur = m.current->0;
                let head = seq![
                    SpecAction::Fail {
                        id: cur,
                        reason: ErrorKind::WriteFailure,
                        diagnostic: Seq::empty(),
                    },
                ];
                assert(step =~= head + after_current(m).1);
                assert(forall|k: int| 0 <= k < head.len() ==> !((#[trigger] head[k]) is Write));
                if cur == a {
                    assert(is_terminal_for(step[0], a));
                    assert(has_terminal(step, a));
                }
                let live = a_sub && !has_terminal(acts2, a);
                if live {
                    assert(cur != a);
                    assert(!has_terminal(acts, a));
                    assert(in_queue(m.queue, a));
                }
                lemma_fifo_step_after_current(m, step, head, a, b, b_sub, live);
                lemma_after_current_no_terminal(m, step, head, a);
            } else {
                lemma_no_actions_carry(step, a, b);
            }
        },
        EventModel::HandshakeTimeout => {
            if m.phase is Starting {
                lemma_fifo_step_die(m, step, ErrorKind::HandshakeTimeout, m.hs, a, b);
            } else {
                lemma_no_actions_carry(step, a, b);
            }
        },
        EventModel::Shutdown => {
            if m.phase is Idle {
                assert(m.queue.len() == 0);
                assert(step =~= seq![SpecAction::Kill]);
                lemma_no_actions_carry(step, a, b);
                if a_sub2 && !has_terminal(acts2, a) {
                    if in_queue(m.queue, a) {
                        let qi = choose|qi: int|
                            0 <= qi < m.queue.len() && (#[trigger] m.queue[qi]).id == a;
                        assert(false);
                    }
                    assert(false);
                }
                if !b_sub2 && in_queue(m2.queue, b) {
                    let qi = choose|qi: int|
                        0 <= qi < m2.queue.len() && (#[trigger] m2.queue[qi]).id == b;
                    assert(false);
                }
            } else {
                lemma_no_actions_carry(step, a, b);
            }
        },
    }
}

/// The actions of moving on never end `a`'s command unless `a` is named in
/// the prefix handed in.
proof fn lemma_after_current_no_terminal(
    m: SupModel,
    step: Seq<SpecAction>,
    head: Seq<SpecAction>,
    a: u64,
)
    requires
        step == head + after_current(m).1,
    ensures
        has_terminal(step, a) ==> has_terminal(head, a),
{
    let tail = after_current(m).1;
    if has_terminal(step, a) {
        let k = choose|k: int| 0 <= k < step.len() && is_terminal_for(#[trigger] step[k], a);
        if k < head.len() {
            assert(step[k] == head[k]);
            assert(is_terminal_for(head[k], a));
        } else {
            assert(step[k] == tail[k - head.len()]);
            assert(!is_terminal_for(tail[k - head.len()], a));
            assert(false);
        }
    }
}

/// The dying step writes nothing, and ends whatever was in the machine.
proof fn lemma_fifo_step_die(
    m: SupModel,
    step: Seq<SpecAction>,
    reason: ErrorKind,
    diag: Seq<u8>,
    a: u64,
    b: u64,
)
    requires
        step == die(m, reason, diag).1,
    ensures
        !has_write(step, b),
        m.current == Some(a) || in_queue(m.queue, a) ==> has_terminal(step, a),
{
    if has_write(step, b) {
        let k = choose|k: int| 0 <= k < step.len() && (#[trigger] step[k]) is Write
            && step[k]->Write_id == b;
        lemma_die_no_write(m, reason, diag, k);
    }
    if m.current == Some(a) || in_queue(m.queue, a) {
        lemma_die_terminates_queued(m, reason, diag, a);
    }
}

/// An action list without writes or terminals for the pair changes nothing
/// in the searches.
proof fn lemma_no_actions_carry(step: Seq<SpecAction>, a: u64, b: u64)
    requires
        forall|k: int| 0 <= k < step.len() ==> !((#[trigger] step[k]) is Write) || step[k]->Write_id != b,
        forall|k: int| 0 <= k < step.len() ==> !is_terminal_for(#[trigger] step[k], a),
    ensures
        !has_write(step, b),
        !has_terminal(step, a),
{
    if has_write(step, b) {
        let k = choose|k: int| 0 <= k < step.len() && (#[trigger] step[k]) is Write
            && step[k]->Write_id == b;
        assert(false);
    }
    if has_terminal(step, a) {
        let k = choose|k: int| 0 <= k < step.len() && is_terminal_for(#[trigger] step[k], a);
        assert(false);
    }
}

/// Moving on to the next command keeps the invariant: the one write goes
/// to the queue head, which cannot be `b` while `a` still waits ahead of
/// it, and `a` either starts serving or keeps its place.
proof fn lemma_fifo_step_after_current(
    m: SupModel,
    step: Seq<SpecAction>,
    head: Seq<SpecAction>,
    a: u64,
    b: u64,
    b_sub: bool,
    live: bool,
)
    requires
        step == head + after_current(m).1,
        forall|k: int| 0 <= k < head.len() ==> !((#[trigger] head[k]) is Write),
        !b_sub ==> !in_queue(m.queue, b),
        live ==> m.current != Some(a) && in_queue(m.queue, a),
        live && b_sub ==> ordered_before(m.queue, a, b),
    ensures
        !b_sub ==> !has_write(step, b) && !in_queue(after_current(m).0.queue, b) && after_current(
            m,
        ).0.current != Some(b),
        live ==> !has_write(step, b) && after_current(m).0.current != Some(b) && (after_current(
            m,
        ).0.current == Some(a) || in_queue(after_current(m).0.queue, a)),
        live && b_sub ==> after_current(m).0.current == Some(a) || ordered_before(
            after_current(m).0.queue,
            a,
            b,
        ),
{
    let (m2, tail) = after_current(m);
    if m.queue.len() > 0 {
        let c = m.queue[0];
        let rest = m.queue.drop_first();
        // The head of the queue is not b: either b is not queued at all, or
        // a waits ahead of it, which index 0 cannot accommodate.
        if !b_sub && c.id == b {
            assert(in_queue(m.queue, b));
            assert(false);
        }
        if live && c.id == b {
            assert(ordered_before(m.queue, a, b));
            let qa = choose|qa: int| 0 <= qa < 0 && (#[trigger] m.queue[qa]).id == a;
            assert(false);
        }
        if !b_sub || live {
            assert(c.id != b);
            if has_write(step, b) {
                let k = choose|k: int| 0 <= k < step.len() && (#[trigger] step[k]) is Write
                    && step[k]->Write_id == b;
                assert(k >= head.len());
                assert(step[k] == tail[k - head.len()]);
                assert(tail.len() == 1);
                assert(tail[0]->Write_id == c.id);
                assert(false);
            }
            assert(m2.current == Some(c.id));
        }
        if !b_sub {
            if in_queue(m2.queue, b) {
                let qi = choose|qi: int| 0 <= qi < rest.len() && (#[trigger] rest[qi]).id == b;
                assert(m.queue[qi + 1].id == b);
                assert(in_queue(m.queue, b));
                assert(false);
            }
        }
        if live {
            let qa = choose|qa: int| 0 <= qa < m.queue.len() && (#[trigger] m.queue[qa]).id == a;
            if qa == 0 {
                assert(m2.current == Some(a));
            } else {
                assert(rest[qa - 1].id == a);
                assert(in_queue(rest, a));
            }
            if b_sub && m2.current != Some(a) {
                assert forall|qb: int|
                    0 <= qb < rest.len() && (#[trigger] rest[qb]).id == b implies exists|qx: int|
                    0 <= qx < qb && (#[trigger] rest[qx]).id == a by {
                    assert(m.queue[qb + 1].id == b);
                    let qx = choose|qx: int| 0 <= qx < qb + 1 && (#[trigger] m.queue[qx]).id == a;
                    assert(qx != 0) by {
                        if qx == 0 {
                            assert(m2.current == Some(a));
                        }
                    }
                    assert(rest[qx - 1].id == a);
                }
            }
        }
    } else {
        // Nothing queued: nothing is written and the queue stays empty.
        if has_write(step, b) {
            let k = choose|k: int| 0 <= k < step.len() && (#[trigger] step[k]) is Write
                && step[k]->Write_id == b;
            if k >= head.len() {
                assert(step[k] == tail[k - head.len()]);
                assert(!(step[k] is Write));
            }
            assert(false);
        }
        if live {
            let qa = choose|qa: int| 0 <= qa < m.queue.len() && (#[trigger] m.queue[qa]).id == a;
            assert(false);
        }
        if in_queue(m2.queue, b) {
            let qi = choose|qi: int| 0 <= qi < m2.queue.len() && (#[trigger] m2.queue[qi]).id
                == b;
            assert(false);
        }
    }
}

/// The freshly spawned machine is healthy: its empty startup text decides
/// nothing yet.
proof fn lemma_initial_wf()
    ensures
        sup_wf(initial_model()),
{
    let e = Seq::<u8>::empty();
    crate::bytes::lemma_lower_seq_len(e);
    assert(forall|i: int| !crate::bytes::match_at(
        crate::bytes::lower_seq(e),
        crate::bytes::lower_seq(crate::handshake::error_word()),
        i,
    ));
    assert(forall|i: int| !crate::bytes::match_at(
        crate::bytes::lower_seq(e),
        crate::bytes::lower_seq(crate::handshake::failed_word()),
        i,
    ));
    assert(forall|i: int| !crate::bytes::match_at(e, crate::demux::marker(), i));
}

/// The FIFO invariant holds along every prefix of a run whose submissions
/// carry pairwise distinct sinks.
proof fn lemma_fifo_run_inv(evs: Seq<EventModel>, i: int, j: int, p: int)
    requires
        distinct_submit_ids(evs),
        0 <= i < j < evs.len(),
        evs[i] is Submit,
        evs[j] is Submit,
        0 <= p <= evs.len(),
    ensures
        fifo_inv(
            sup_run(evs.take(p)).0,
            sup_run(evs.take(p)).1,
            evs[i]->Submit_id,
            evs[j]->Submit_id,
            p > i,
            p > j,
        ),
    decreases p,
{
    let a = evs[i]->Submit_id;
    let b = evs[j]->Submit_id;
    assert(a != b);
    if p == 0 {
        assert(evs.take(0) =~= Seq::<EventModel>::empty());
        lemma_initial_wf();
        let acts0 = sup_run(evs.take(0)).1;
        if has_write(acts0, b) {
            let k = choose|k: int| 0 <= k < acts0.len() && (#[trigger] acts0[k]) is Write
                && acts0[k]->Write_id == b;
            assert(false);
        }
        if in_queue(initial_model().queue, b) {
            let qi = choose|qi: int|
                0 <= qi < initial_model().queue.len() && (#[trigger] initial_model().queue[qi]).id
                    == b;
            assert(false);
        }
    } else {
        lemma_fifo_run_inv(evs, i, j, p - 1);
        let pre = evs.take(p - 1);
        let cur = evs.take(p);
        assert(cur.drop_last() =~= pre);
        assert(cur.last() == evs[p - 1]);
        let ev = evs[p - 1];
        let a_sub = p - 1 > i;
        let b_sub = p - 1 > j;
        if ev is Submit && ev->Submit_id == a && p - 1 != i {
            assert(false);
        }
        if ev is Submit && ev->Submit_id == b && p - 1 != j {
            assert(false);
        }
        lemma_fifo_step(sup_run(pre).0, sup_run(pre).1, ev, a, b, a_sub, b_sub, p > i, p > j);
    }
}

/// On a machine that still owes `a` and has `b` queued behind it, the last
/// step cannot write `b` without first ending `a` in the same action list.
proof fn lemma_fifo_last_step(
    m1: SupModel,
    acts1: Seq<SpecAction>,
    ev: EventModel,
    a: u64,
    b: u64,
    kl: int,
)
    requires
        fifo_inv(m1, acts1, a, b, true, true),
        a != b,
        ev is Submit ==> ev->Submit_id != a && ev->Submit_id != b,
        !has_terminal(acts1, a),
        0 <= kl < sup_step(m1, ev).1.len(),
        sup_step(m1, ev).1[kl] is Write,
        sup_step(m1, ev).1[kl]->Write_id == b,
    ensures
        exists|t: int| 0 <= t < kl && is_terminal_for(#[trigger] sup_step(m1, ev).1[t], a),
{
    let step = sup_step(m1, ev).1;
    assert(has_write(step, b));
    assert(m1.current == Some(a) || in_queue(m1.queue, a));
    match ev {
        EventModel::Submit { id, prompt } => {
            if m1.phase is Terminated || m1.closing {
                assert(step.len() == 1 && step[0] is Fail);
                assert(false);
            } else if m1.phase is Idle {
                assert(step.len() == 1 && step[0]->Write_id == id);
                assert(false);
            } else {
                assert(step =~= Seq::<SpecAction>::empty());
                assert(false);
            }
        },
        EventModel::Stdout { chunk } => {
            if m1.phase is Starting {
                let hs = m1.hs + chunk;
                let mm = SupModel { hs, ..m1 };
                match handshake_status(hs) {
                    HandshakeStatus::Failed => {
                        lemma_die_no_write(mm, ErrorKind::HandshakeError, hs, kl);
                        assert(false);
                    },
                    HandshakeStatus::Ready => {
                        assert(m1.current is None);
                        assert(in_queue(mm.queue, a));
                        lemma_fifo_step_after_current(mm, step, Seq::empty(), a, b, true, true);
                        assert(false);
                    },
                    HandshakeStatus::Waiting => {
                        assert(step =~= Seq::<SpecAction>::empty());
                        assert(false);
                    },
                }
            } else if m1.phase is Serving {
                let s = m1.demux_buf + chunk;
                let cur = m1.current->0;
                if is_terminal(s) {
                    if cur == a {
                        lemma_write_after_terminal(m1, ev, kl);
                    } else {
                        let frag = stripped(s).skip(m1.delivered.len() as int);
                        let emit: Seq<SpecAction> = if frag.len() > 0 {
                            seq![SpecAction::Emit { id: cur, fragment: frag }]
                        } else {
                            Seq::empty()
                        };
                        let head = emit + seq![SpecAction::Complete { id: cur }];
                        let mid = SupModel { demux_buf: s, delivered: stripped(s), ..m1 };
                        assert(step =~= head + after_current(mid).1);
                        assert(forall|k: int|
                            0 <= k < head.len() ==> !((#[trigger] head[k]) is Write));
                        assert(in_queue(mid.queue, a));
                        lemma_fifo_step_after_current(mid, step, head, a, b, true, true);
                        assert(false);
                    }
                } else {
                    let frag = s.take(visible_len(s)).skip(m1.delivered.len() as int);
                    if frag.len() > 0 {
                        assert(step =~= seq![
                            SpecAction::Emit { id: cur, fragment: frag },
                        ]);
                    } else {
                        assert(step =~= Seq::<SpecAction>::empty());
                    }
                    assert(false);
                }
            } else {
                assert(step =~= Seq::<SpecAction>::empty());
                assert(false);
            }
        },
        EventModel::StdoutEof => {
            if m1.phase is Terminated {
                assert(step =~= Seq::<SpecAction>::empty());
                assert(false);
            } else if m1.phase is Starting {
                lemma_die_no_write(m1, ErrorKind::StreamClosed, m1.hs, kl);
                assert(false);
            } else {
                lemma_die_no_write(m1, ErrorKind::StreamClosed, Seq::empty(), kl);
                assert(false);
            }
        },
        EventModel::WriteFailed => {
            if m1.phase is Serving {
                let cur = m1.current->0;
                if cur == a {
                    lemma_write_after_terminal(m1, ev, kl);
                } else {
                    let head = seq![
                        SpecAction::Fail {
                            id: cur,
                            reason: ErrorKind::WriteFailure,
                            diagnostic: Seq::empty(),
                        },
                    ];
                    assert(step =~= head + after_current(m1).1);
                    assert(forall|k: int| 0 <= k < head.len() ==> !((#[trigger] head[k]) is Write));
                    assert(in_queue(m1.queue, a));
                    lemma_fifo_step_after_current(m1, step, head, a, b, true, true);
                    assert(false);
                }
            } else {
                assert(step =~= Seq::<SpecAction>::empty());
                assert(false);
            }
        },
        EventModel::HandshakeTimeout => {
            if m1.phase is Starting {
                lemma_die_no_write(m1, ErrorKind::HandshakeTimeout, m1.hs, kl);
                assert(false);
            } else {
                assert(step =~= Seq::<SpecAction>::empty());
                assert(false);
            }
        },
        EventModel::Shutdown => {
            if m1.phase is Idle {
                assert(step =~= seq![SpecAction::Kill]);
                assert(false);
            } else {
                assert(step =~= Seq::<SpecAction>::empty());
                assert(false);
            }
        },
    }
}

/// FIFO serialization across a whole run: given two submissions A then B to
/// the same supervised process — all submissions carrying pairwise distinct
/// sinks — B's prompt is never written to the child before A's command has
/// reached a terminal state: every write action for B comes after a
/// completion or failure action for A, earlier in the very same run.
pub proof fn lemma_fifo_serialization(evs: Seq<EventModel>, i: int, j: int, k: int)
    requires
        distinct_submit_ids(evs),
        0 <= i < j < evs.len(),
        evs[i] is Submit,
        evs[j] is Submit,
        0 <= k < sup_run(evs).1.len(),
        sup_run(evs).1[k] is Write,
        sup_run(evs).1[k]->Write_id == evs[j]->Submit_id,
    ensures
        exists|t: int|
            0 <= t < k && is_terminal_for(#[trigger] sup_run(evs).1[t], evs[i]->Submit_id),
    decreases evs.len(),
{
    let a = evs[i]->Submit_id;
    let b = evs[j]->Submit_id;
    let n = evs.len() as int;
    let pre = evs.drop_last();
    let m1 = sup_run(pre).0;
    let acts1 = sup_run(pre).1;
    let ev = evs.last();
    let step = sup_step(m1, ev).1;
    let acts = sup_run(evs).1;
    assert(acts == acts1 + step);
    assert(pre =~= evs.take(n - 1));
    if k < acts1.len() {
        assert(acts[k] == acts1[k]);
        if j == n - 1 {
            // b's own submission is the last event; nothing before it may
            // write b.
            lemma_fifo_run_inv(evs, i, j, n - 1);
            assert(has_write(acts1, b));
            assert(false);
        } else {
            assert forall|s: int, t: int|
                0 <= s < t < pre.len() && (#[trigger] pre[s]) is Submit && (
                #[trigger] pre[t]) is Submit implies pre[s]->Submit_id != pre[t]->Submit_id by {
                assert(pre[s] == evs[s] && pre[t] == evs[t]);
            }
            assert(pre[i] == evs[i] && pre[j] == evs[j]);
            lemma_fifo_serialization(pre, i, j, k);
            let t = choose|t: int|
                0 <= t < k && is_terminal_for(#[trigger] sup_run(pre).1[t], pre[i]->Submit_id);
            assert(acts[t] == acts1[t]);
            assert(is_terminal_for(acts[t], a));
        }
    } else {
        let kl = k - acts1.len();
        assert(acts[k] == step[kl]);
        lemma_fifo_run_inv(evs, i, j, n - 1);
        lemma_has_write_concat(acts1, step, a);
        if has_terminal(acts1, a) {
            let t = choose|t: int| 0 <= t < acts1.len() && is_terminal_for(
                #[trigger] acts1[t],
                a,
            );
            assert(acts[t] == acts1[t]);
            assert(is_terminal_for(acts[t], a));
        } else if j == n - 1 {
            // b is being submitted right now; with a still owed, the machine
            // is not idle, so this submission only queues — it writes
            // nothing.
            assert(ev == evs[j]);
            assert(ev is Submit && ev->Submit_id == b);
            assert(m1.current == Some(a) || in_queue(m1.queue, a));
            if m1.phase is Terminated || m1.closing {
                assert(step.len() == 1 && step[0] is Fail);
                assert(false);
            } else if m1.phase is Idle {
                assert(m1.queue.len() == 0);
                assert(m1.current is None);
                if in_queue(m1.queue, a) {
                    let qi = choose|qi: int|
                        0 <= qi < m1.queue.len() && (#[trigger] m1.queue[qi]).id == a;
                    assert(false);
                }
                assert(false);
            } else {
                assert(step =~= Seq::<SpecAction>::empty());
                assert(false);
            }
        } else {
            // a and b were both submitted earlier; the invariant pins the
            // step down.
            if ev is Submit && ev->Submit_id == a {
                assert(false);
            }
            if ev is Submit && ev->Submit_id == b {
                assert(false);
            }
            lemma_fifo_last_step(m1, acts1, ev, a, b, kl);
            let t = choose|t: int| 0 <= t < kl && is_terminal_for(#[trigger] step[t], a);
            assert(acts[acts1.len() + t] == step[t]);
            assert(is_terminal_for(acts[acts1.len() + t], a));
            assert(acts1.len() + t < k);
        }
    }
}

} // verus!
