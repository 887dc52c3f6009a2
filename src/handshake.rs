use crate::bignum::BigNum;
use crate::codec::{decode, decode_spec, encode, encoded, CodecError};
use crate::group::GroupParams;
use crate::keys::{derive_public_value, derive_session_key, public_value_of, session_key_of};
use vstd::prelude::*;

verus! {

/// Which side of the exchange a handshake plays: the initiator sends its
/// public value first, the responder receives first.
#[derive(Debug, Clone, Copy, PartialEq, Eq, Structural)]
pub enum Role {
    Initiator,
    Responder,
}

#[derive(Debug, Clone, Copy, PartialEq, Eq, Structural)]
pub enum Phase {
    Idle,
    AwaitingPeerValue,
    Complete,
    Failed,
}

/// Why a handshake failed.
#[derive(Debug, Clone, Copy, PartialEq, Eq, Structural)]
pub enum HandshakeError {
    /// The channel reported a transport failure.
    Channel,
    /// The peer's bytes did not decode to a number.
    Codec(CodecError),
    /// The peer's number is not below the modulus.
    InvalidPeerValue,
}

/// What the channel reports back to the handshake.
#[derive(Debug, Clone)]
pub enum Event {
    /// The public value handed out with `Action::Send` was transmitted.
    Sent,
    /// The bytes of one inbound read.
    Received(Vec<u8>),
    /// The channel failed.
    ChannelFailed,
}

/// What the handshake asks of its caller next.
#[derive(Debug, Clone)]
pub enum Action {
    /// Transmit these bytes to the peer.
    Send(Vec<u8>),
    /// Read the peer's public value.
    Receive,
    /// The handshake is complete with this session key.
    Finish(BigNum),
    /// The handshake failed; no session key exists.
    Abort(HandshakeError),
}

pub enum EventView {
    Sent,
    Received(Seq<u8>),
    ChannelFailed,
}

pub enum ActionView {
    Send(Seq<u8>),
    Receive,
    Finish(nat),
    Abort(HandshakeError),
}

impl View for Event {
    type V = EventView;

    open spec fn view(&self) -> EventView {
        match self {
            Event::Sent => EventView::Sent,
            Event::Received(b) => EventView::Received(b@),
            Event::ChannelFailed => EventView::ChannelFailed,
        }
    }
}

impl View for Action {
    type V = ActionView;

    open spec fn view(&self) -> ActionView {
        match self {
            Action::Send(b) => ActionView::Send(b@),
            Action::Receive => ActionView::Receive,
            Action::Finish(k) => ActionView::Finish(k@),
            Action::Abort(e) => ActionView::Abort(*e),
        }
    }
}

/// The abstract state of a handshake: the group `(p, g)`, the private
/// exponent and the public value derived from it, whether the public value
/// was sent, and the peer's bytes once received.
pub struct HandshakeView {
    pub role: Role,
    pub phase: Phase,
    pub p: nat,
    pub g: nat,
    pub private: nat,
    pub public: nat,
    pub sent: bool,
    pub received: Option<Seq<u8>>,
}

/// The session key from the peer's bytes, or the cause of failure.
pub open spec fn finish_spec(p: nat, private: nat, bytes: Seq<u8>) -> Result<nat, HandshakeError> {
    match decode_spec(bytes) {
        Err(e) => Err(HandshakeError::Codec(e)),
        Ok(y) => if y >= p {
            Err(HandshakeError::InvalidPeerValue)
        } else {
            Ok(session_key_of(p, y, private))
        },
    }
}

/// The next action once the events so far are recorded: send the public
/// value when the role's order calls for it, else receive, else finish.
pub open spec fn advance_spec(v: HandshakeView) -> (HandshakeView, ActionView) {
    if !v.sent && (v.role == Role::Initiator || v.received is Some) {
        (v, ActionView::Send(encoded(v.public)))
    } else if v.received is None {
        (v, ActionView::Receive)
    } else {
        match finish_spec(v.p, v.private, v.received->Some_0) {
            Ok(k) => (HandshakeView { phase: Phase::Complete, ..v }, ActionView::Finish(k)),
            Err(e) => (HandshakeView { phase: Phase::Failed, ..v }, ActionView::Abort(e)),
        }
    }
}

/// Records a `Sent` or `Received` event; only the first inbound read counts.
pub open spec fn record_spec(v: HandshakeView, ev: EventView) -> HandshakeView {
    match ev {
        EventView::Sent => HandshakeView { sent: true, ..v },
        EventView::Received(b) => if v.received is None {
            HandshakeView { received: Some(b), ..v }
        } else {
            v
        },
        EventView::ChannelFailed => HandshakeView { phase: Phase::Failed, ..v },
    }
}

/// One single-shot Diffie–Hellman exchange, for either role: exactly one
/// public value sent, one received, one session key derived.
pub struct Handshake {
    role: Role,
    phase: Phase,
    params: GroupParams,
    private: BigNum,
    public: BigNum,
    sent: bool,
    received: Option<Vec<u8>>,
}

impl View for Handshake {
    type V = HandshakeView;

    closed spec fn view(&self) -> HandshakeView {
        HandshakeView {
            role: self.role,
            phase: self.phase,
            p: self.params.modulus@,
            g: self.params.generator@,
            private: self.private@,
            public: self.public@,
            sent: self.sent,
            received: match self.received {
                Some(b) => Some(b@),
                None => None,
            },
        }
    }
}

impl Handshake {
    pub closed spec fn wf(&self) -> bool {
        &&& self.params.wf()
        &&& self.private.wf()
        &&& self.public.wf()
        &&& self.public@ == public_value_of(self.params.modulus@, self.params.generator@, self.private@)
    }

    /// A handshake in the `Idle` phase, with its public value derived.
    pub fn new(role: Role, params: GroupParams, private: BigNum) -> (r: Handshake)
        requires
            params.wf(),
            private.wf(),
        ensures
            r.wf(),
            r@ == (HandshakeView {
                role,
                phase: Phase::Idle,
                p: params.modulus@,
                g: params.generator@,
                private: private@,
                public: public_value_of(params.modulus@, params.generator@, private@),
                sent: false,
                received: None,
            }),
    {
        let public = derive_public_value(&private, &params);
        Handshake { role, phase: Phase::Idle, params, private, public, sent: false, received: None }
    }

    pub fn role(&self) -> (r: Role)
        ensures
            r == self@.role,
    {
        self.role
    }

    pub fn phase(&self) -> (r: Phase)
        ensures
            r == self@.phase,
    {
        self.phase
    }

    /// The public value this side sends.
    pub fn public_value(&self) -> (r: &BigNum)
        requires
            self.wf(),
        ensures
            r.wf(),
            r@ == self@.public,
    {
        &self.public
    }

    fn advance(&mut self) -> (a: Action)
        requires
            old(self).wf(),
            old(self)@.phase == Phase::AwaitingPeerValue,
        ensures
            final(self).wf(),
            (final(self)@, a@) == advance_spec(old(self)@),
            a matches Action::Finish(k) ==> k.wf(),
    {
        if !self.sent && (self.role == Role::Initiator || self.received.is_some()) {
            return Action::Send(encode(&self.public));
        }
        match &self.received {
            None => Action::Receive,
            Some(bytes) => match decode(bytes.as_slice()) {
                Err(e) => {
                    self.phase = Phase::Failed;
                    Action::Abort(HandshakeError::Codec(e))
                },
                Ok(peer) => match derive_session_key(&self.private, &peer, &self.params) {
                    Err(_) => {
                        self.phase = Phase::Failed;
                        Action::Abort(HandshakeError::InvalidPeerValue)
                    },
                    Ok(k) => {
                        self.phase = Phase::Complete;
                        Action::Finish(k)
                    },
                },
            },
        }
    }

    /// Leaves `Idle`: the initiator is asked to send, the responder to receive.
    pub fn start(&mut self) -> (a: Action)
        requires
            old(self).wf(),
            old(self)@.phase == Phase::Idle,
        ensures
            final(self).wf(),
            (final(self)@, a@) == advance_spec(
                HandshakeView { phase: Phase::AwaitingPeerValue, ..old(self)@ },
            ),
            a matches Action::Finish(k) ==> k.wf(),
    {
        self.phase = Phase::AwaitingPeerValue;
        self.advance()
    }

    /// Takes the channel's report and says what to do next. A channel
    /// failure aborts at once; otherwise the event is recorded and the
    /// handshake moves on, ending `Complete` or `Failed` once it holds the
    /// peer's bytes and has sent its own value.
    pub fn on_event(&mut self, event: Event) -> (a: Action)
        requires
            old(self).wf(),
            old(self)@.phase == Phase::AwaitingPeerValue,
        ensures
            final(self).wf(),
            event is ChannelFailed ==> final(self)@ == record_spec(old(self)@, event@) && a@
                == ActionView::Abort(HandshakeError::Channel),
            !(event is ChannelFailed) ==> (final(self)@, a@) == advance_spec(
                record_spec(old(self)@, event@),
            ),
            a matches Action::Finish(k) ==> k.wf(),
    {
        match event {
            Event::ChannelFailed => {
                self.phase = Phase::Failed;
                return Action::Abort(HandshakeError::Channel);
            },
            Event::Sent => {
                self.sent = true;
            },
            Event::Received(bytes) => {
                if self.received.is_none() {
                    self.received = Some(bytes);
                }
            },
        }
        self.advance()
    }
}

} // verus!
