//! Opening a session: what the client does next at each point of the
//! handshake with a server.
//!
//! The handshake itself is network traffic and a question to the human, so
//! it is run from outside: the caller opens the transport, sends what
//! [`Connect::step`] tells it to send, asks for the password when told to,
//! and hands each answer back as an [`Input`]. The decisions are made here.
//! The certificate is checked before any credential leaves the client: a
//! server that presents another fingerprint than the expected one gets
//! neither the token nor a password.

use vstd::prelude::*;
use crate::address::Address;
use crate::session::{just_opened, Session};

verus! {

/// Why a session could not be opened.
#[derive(Clone, Copy, Debug, PartialEq, Eq, Structural)]
pub enum ConnectError {
    /// The server could not be reached, or the connection broke.
    TransportFailure,
    /// The server presented another certificate than the expected one.
    FingerprintMismatch,
    /// The server accepted neither the token nor the password, or no
    /// password was given.
    AuthRejected,
    /// The server or the caller did something that the handshake has no
    /// place for.
    ProtocolViolation,
}

/// Where a handshake stands.
#[derive(Debug, PartialEq, Eq)]
pub enum Phase {
    /// The transport is being opened.
    Opening,
    /// The cached token was sent, and the server has not answered yet.
    TokenSent,
    /// The human is being asked for the password.
    AskingPassword,
    /// The password was sent, and the server has not answered yet.
    PasswordSent,
    /// The server let the client in as the user `user`; `token` is what
    /// lets it in the next time.
    Established { user: usize, token: String },
    /// The handshake has failed.
    Failed(ConnectError),
}

/// What has happened since the last step.
#[derive(Debug, PartialEq, Eq)]
pub enum Input {
    /// The transport is open, and the server presented a certificate with
    /// this fingerprint.
    Opened { fingerprint: String },
    /// The transport could not be opened, or it broke.
    TransportFailed,
    /// The server accepted the login.
    Accepted { user: usize, token: String },
    /// The server rejected the login.
    Rejected,
    /// The server sent what cannot be read as an answer to a login.
    Malformed,
    /// The human gave a password, or declined to.
    Password(Option<String>),
}

/// What the caller is to do next.
#[derive(Debug, PartialEq, Eq)]
pub enum Step {
    /// Log in with the cached token.
    LoginWithToken(String),
    /// Ask the human for the password.
    AskPassword,
    /// Log in with this password.
    LoginWithPassword(String),
    /// Nothing more: the session is open. The token is to be kept for the
    /// next time.
    Established { user: usize, token: String },
    /// Nothing more: the handshake has failed.
    Failed(ConnectError),
}

/// The mathematical value of a [`Phase`].
pub enum PhaseView {
    Opening,
    TokenSent,
    AskingPassword,
    PasswordSent,
    Established { user: usize, token: Seq<char> },
    Failed(ConnectError),
}

/// The mathematical value of an [`Input`].
pub enum InputView {
    Opened { fingerprint: Seq<char> },
    TransportFailed,
    Accepted { user: usize, token: Seq<char> },
    Rejected,
    Malformed,
    Password(Option<Seq<char>>),
}

/// The mathematical value of a [`Step`].
pub enum StepView {
    LoginWithToken(Seq<char>),
    AskPassword,
    LoginWithPassword(Seq<char>),
    Established { user: usize, token: Seq<char> },
    Failed(ConnectError),
}

/// The value of a string that may be missing.
pub open spec fn text_view(text: Option<String>) -> Option<Seq<char>> {
    match text {
        Some(text) => Some(text@),
        None => None,
    }
}

impl View for Phase {
    type V = PhaseView;

    open spec fn view(&self) -> PhaseView {
        match *self {
            Phase::Opening => PhaseView::Opening,
            Phase::TokenSent => PhaseView::TokenSent,
            Phase::AskingPassword => PhaseView::AskingPassword,
            Phase::PasswordSent => PhaseView::PasswordSent,
            Phase::Established { user, token } => PhaseView::Established { user, token: token@ },
            Phase::Failed(error) => PhaseView::Failed(error),
        }
    }
}

impl View for Input {
    type V = InputView;

    open spec fn view(&self) -> InputView {
        match *self {
            Input::Opened { fingerprint } => InputView::Opened { fingerprint: fingerprint@ },
            Input::TransportFailed => InputView::TransportFailed,
            Input::Accepted { user, token } => InputView::Accepted { user, token: token@ },
            Input::Rejected => InputView::Rejected,
            Input::Malformed => InputView::Malformed,
            Input::Password(password) => InputView::Password(text_view(password)),
        }
    }
}

impl View for Step {
    type V = StepView;

    open spec fn view(&self) -> StepView {
        match *self {
            Step::LoginWithToken(token) => StepView::LoginWithToken(token@),
            Step::AskPassword => StepView::AskPassword,
            Step::LoginWithPassword(password) => StepView::LoginWithPassword(password@),
            Step::Established { user, token } => StepView::Established { user, token: token@ },
            Step::Failed(error) => StepView::Failed(error),
        }
    }
}

/// A handshake in progress: the fingerprint that the server's certificate
/// must have, the token kept from the last login, if any, and the phase.
pub struct Connect {
    expected: String,
    token: Option<String>,
    phase: Phase,
}

/// The mathematical value of a [`Connect`].
pub struct ConnectView {
    pub expected: Seq<char>,
    pub token: Option<Seq<char>>,
    pub phase: PhaseView,
}

impl View for Connect {
    type V = ConnectView;

    closed spec fn view(&self) -> ConnectView {
        ConnectView { expected: self.expected@, token: text_view(self.token), phase: self.phase@ }
    }
}

/// The step that ends a handshake in failure, with the phase it leaves.
pub open spec fn fail(error: ConnectError) -> (PhaseView, StepView) {
    (PhaseView::Failed(error), StepView::Failed(error))
}

/// The step that asks for the password, with the phase it leaves.
pub open spec fn ask() -> (PhaseView, StepView) {
    (PhaseView::AskingPassword, StepView::AskPassword)
}

/// The step that ends a handshake in success, with the phase it leaves.
pub open spec fn let_in(user: usize, token: Seq<char>) -> (PhaseView, StepView) {
    (PhaseView::Established { user, token }, StepView::Established { user, token })
}

/// The phase after `input` and what the caller is to do then.
///
/// A broken transport fails the handshake wherever it stands. The
/// certificate is judged first, when the transport opens. Then the token is
/// tried, if there is one; where it is rejected, or there is none, the
/// password is asked for and tried, and its rejection is final. Every other
/// input has no place and fails the handshake. A handshake that is over
/// stays as it is.
pub open spec fn next(connect: ConnectView, input: InputView) -> (PhaseView, StepView) {
    match connect.phase {
        PhaseView::Established { user, token } => let_in(user, token),
        PhaseView::Failed(error) => fail(error),
        PhaseView::Opening => match input {
            InputView::Opened { fingerprint } => if fingerprint != connect.expected {
                fail(ConnectError::FingerprintMismatch)
            } else {
                match connect.token {
                    Some(token) => (PhaseView::TokenSent, StepView::LoginWithToken(token)),
                    None => ask(),
                }
            },
            InputView::TransportFailed => fail(ConnectError::TransportFailure),
            _ => fail(ConnectError::ProtocolViolation),
        },
        PhaseView::TokenSent => match input {
            InputView::Accepted { user, token } => let_in(user, token),
            InputView::Rejected => ask(),
            InputView::TransportFailed => fail(ConnectError::TransportFailure),
            _ => fail(ConnectError::ProtocolViolation),
        },
        PhaseView::AskingPassword => match input {
            InputView::Password(Some(password)) => (
                PhaseView::PasswordSent,
                StepView::LoginWithPassword(password),
            ),
            InputView::Password(None) => fail(ConnectError::AuthRejected),
            InputView::TransportFailed => fail(ConnectError::TransportFailure),
            _ => fail(ConnectError::ProtocolViolation),
        },
        PhaseView::PasswordSent => match input {
            InputView::Accepted { user, token } => let_in(user, token),
            InputView::Rejected => fail(ConnectError::AuthRejected),
            InputView::TransportFailed => fail(ConnectError::TransportFailure),
            _ => fail(ConnectError::ProtocolViolation),
        },
    }
}

/// The handshake after `input`.
pub open spec fn after(connect: ConnectView, input: InputView) -> ConnectView {
    ConnectView { phase: next(connect, input).0, ..connect }
}

/// The handshake after all of `inputs`, in their order.
pub open spec fn after_all(connect: ConnectView, inputs: Seq<InputView>) -> ConnectView
    decreases inputs.len(),
{
    if inputs.len() == 0 {
        connect
    } else {
        after(after_all(connect, inputs.drop_last()), inputs.last())
    }
}

/// A handshake for a server whose certificate has the fingerprint
/// `expected`, with the token of the last login, before the transport opens.
pub open spec fn begun(expected: Seq<char>, token: Option<Seq<char>>) -> ConnectView {
    ConnectView { expected, token, phase: PhaseView::Opening }
}

/// A handshake that has failed stays failed, whatever comes.
pub proof fn lemma_failed_stays(connect: ConnectView, inputs: Seq<InputView>)
    requires
        connect.phase is Failed,
    ensures
        after_all(connect, inputs) == connect,
    decreases inputs.len(),
{
    if inputs.len() > 0 {
        lemma_failed_stays(connect, inputs.drop_last());
    }
}

/// A handshake that has opened the session stays so, whatever comes.
pub proof fn lemma_established_stays(connect: ConnectView, inputs: Seq<InputView>)
    requires
        connect.phase is Established,
    ensures
        after_all(connect, inputs) == connect,
    decreases inputs.len(),
{
    if inputs.len() > 0 {
        lemma_established_stays(connect, inputs.drop_last());
    }
}

/// Where the server presents a certificate with another fingerprint than
/// the expected one, the handshake fails with `FingerprintMismatch`, with
/// or without a token and whatever the token is worth, and nothing that
/// comes later opens a session.
pub proof fn lemma_mismatch_never_connects(
    expected: Seq<char>,
    token: Option<Seq<char>>,
    presented: Seq<char>,
    later: Seq<InputView>,
)
    requires
        presented != expected,
    ensures
        next(begun(expected, token), InputView::Opened { fingerprint: presented }).1
            == StepView::Failed(ConnectError::FingerprintMismatch),
        after_all(
            begun(expected, token),
            seq![InputView::Opened { fingerprint: presented }] + later,
        ).phase == PhaseView::Failed(ConnectError::FingerprintMismatch),
    decreases later.len(),
{
    let opened = InputView::Opened { fingerprint: presented };
    let start = begun(expected, token);
    let inputs = seq![opened] + later;
    if later.len() == 0 {
        assert(inputs.drop_last() =~= Seq::<InputView>::empty());
        assert(inputs.last() == opened);
        assert(after_all(start, inputs.drop_last()) == start);
    } else {
        lemma_mismatch_never_connects(expected, token, presented, later.drop_last());
        assert(inputs.drop_last() =~= seq![opened] + later.drop_last());
    }
}

impl Connect {
    /// A handshake for a server whose certificate must have the fingerprint
    /// `expected`, with the token kept from the last login, if any. The
    /// caller opens the transport next.
    pub fn new(expected: String, token: Option<String>) -> (connect: Connect)
        ensures
            connect@ == begun(expected@, text_view(token)),
    {
        Connect { expected, token, phase: Phase::Opening }
    }

    /// Where the handshake stands.
    pub fn phase(&self) -> (phase: &Phase)
        ensures
            phase@ == self@.phase,
    {
        &self.phase
    }

    /// Takes what has happened and tells what to do next: see [`next`].
    pub fn step(&mut self, input: Input) -> (step: Step)
        ensures
            final(self)@ == after(old(self)@, input@),
            step@ == next(old(self)@, input@).1,
    {
        let (phase, step) = match &self.phase {
            Phase::Established { user, token } => {
                return Step::Established { user: *user, token: token.clone() };
            },
            Phase::Failed(error) => {
                return Step::Failed(*error);
            },
            Phase::Opening => match input {
                Input::Opened { fingerprint } => {
                    if !(fingerprint == self.expected) {
                        failure(ConnectError::FingerprintMismatch)
                    } else {
                        match &self.token {
                            Some(token) => (Phase::TokenSent, Step::LoginWithToken(token.clone())),
                            None => (Phase::AskingPassword, Step::AskPassword),
                        }
                    }
                },
                Input::TransportFailed => failure(ConnectError::TransportFailure),
                _ => failure(ConnectError::ProtocolViolation),
            },
            Phase::TokenSent => match input {
                Input::Accepted { user, token } => success(user, token),
                Input::Rejected => (Phase::AskingPassword, Step::AskPassword),
                Input::TransportFailed => failure(ConnectError::TransportFailure),
                _ => failure(ConnectError::ProtocolViolation),
            },
            Phase::AskingPassword => match input {
                Input::Password(Some(password)) => (
                    Phase::PasswordSent,
                    Step::LoginWithPassword(password),
                ),
                Input::Password(None) => failure(ConnectError::AuthRejected),
                Input::TransportFailed => failure(ConnectError::TransportFailure),
                _ => failure(ConnectError::ProtocolViolation),
            },
            Phase::PasswordSent => match input {
                Input::Accepted { user, token } => success(user, token),
                Input::Rejected => failure(ConnectError::AuthRejected),
                Input::TransportFailed => failure(ConnectError::TransportFailure),
                _ => failure(ConnectError::ProtocolViolation),
            },
        };
        self.phase = phase;
        step
    }

    /// The session that the handshake has opened with the server at `addr`,
    /// fresh after login; none while the handshake is not over, and none
    /// when it has failed.
    pub fn session(&self, addr: Address, typing_timeout_secs: u64) -> (opened: Option<Session>)
        ensures
            match opened {
                Some(session) => {
                    &&& self@.phase is Established
                    &&& just_opened(session, addr, self@.phase->user, typing_timeout_secs)
                },
                None => !(self@.phase is Established),
            },
    {
        match &self.phase {
            Phase::Established { user, token } => Some(
                Session::new(addr, *user, typing_timeout_secs),
            ),
            _ => None,
        }
    }

    /// How the handshake ended: the error where it failed, nothing where it
    /// has not failed.
    pub fn error(&self) -> (error: Option<ConnectError>)
        ensures
            error == match self@.phase {
                PhaseView::Failed(error) => Some(error),
                _ => None,
            },
    {
        match &self.phase {
            Phase::Failed(error) => Some(*error),
            _ => None,
        }
    }
}

/// The phase and the step of a failure.
fn failure(error: ConnectError) -> (end: (Phase, Step))
    ensures
        (end.0@, end.1@) == fail(error),
{
    (Phase::Failed(error), Step::Failed(error))
}

/// The phase and the step of a login that the server accepted.
fn success(user: usize, token: String) -> (end: (Phase, Step))
    ensures
        (end.0@, end.1@) == let_in(user, token@),
{
    let kept = token.clone();
    (Phase::Established { user, token: kept }, Step::Established { user, token })
}

} // verus!
