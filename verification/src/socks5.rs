//! The server side of SOCKS5.
//!
//! A session is driven from outside: each step says what to send to the client and what to do
//! after that, and the method that takes the outcome gives the step after it.

use crate::bypass::BypassList;
use crate::handshake::{Handshake, HandshakeStep};
use crate::handshake;
use crate::ipv4;
use crate::pool::IpPool;
use crate::pool;
use crate::text;
use crate::{AuthConfig, AuthView};
use std::time::Instant;
use vstd::prelude::*;

verus! {

pub const SOCKS5_VERSION: u8 = 0x05;
pub const SOCKS5_NO_AUTH: u8 = 0x00;
pub const SOCKS5_USERPASS_AUTH: u8 = 0x02;
pub const SOCKS5_CMD_CONNECT: u8 = 0x01;
pub const SOCKS5_ATYP_IPV4: u8 = 0x01;
pub const SOCKS5_ATYP_DOMAIN: u8 = 0x03;
pub const SOCKS5_REP_SUCCESS: u8 = 0x00;
pub const SOCKS5_REP_FAILURE: u8 = 0x01;
pub const SOCKS5_REP_HOST_UNREACHABLE: u8 = 0x04;

// ---------------------------------------------------------------------------
// Steps
// ---------------------------------------------------------------------------

/// Why a session was closed.
#[derive(Clone, Copy, Debug, PartialEq, Eq, Structural)]
pub enum Socks5Error {
    /// The client does not speak SOCKS5.
    UnsupportedVersion { version: u8 },
    /// The client does not offer to give name and password.
    NoAcceptableMethod,
    /// The client gives name and password in an unknown form.
    UnsupportedAuthVersion { version: u8 },
    /// Name or password are wrong.
    AuthFailed,
    /// The request is not one of SOCKS5.
    InvalidRequestVersion { version: u8 },
    /// The client asks for something else than a connection.
    UnsupportedCommand { command: u8 },
    /// The client gives an address of an unknown kind.
    UnsupportedAddressType { kind: u8 },
    /// The domain is not UTF-8.
    InvalidDomain,
    /// The destination could not be reached directly.
    DirectConnectFailed,
    /// The port has no upstream proxy that can be used.
    NoProxy { port: u16 },
    /// The upstream proxy could not be reached.
    UpstreamConnectFailed,
    /// The upstream proxy did not connect.
    UpstreamHandshakeFailed,
}

/// What to do once the bytes of a step have been sent.
pub enum Socks5Action {
    /// Read that many bytes from the client.
    Read { count: usize },
    /// Decide on the way to the destination.
    Route,
    /// Connect to this address.
    Connect { address: String },
    /// Ask the upstream proxy to connect to the destination.
    Handshake,
    /// Pass all bytes on, both ways.
    Relay,
    /// Close the connection.
    Close { error: Socks5Error },
}

/// What to send to the client, and what to do after that.
pub struct Socks5Step {
    pub send: Vec<u8>,
    pub action: Socks5Action,
}

/// What a [`Socks5Action`] says.
pub enum ActionView {
    Read { count: nat },
    Route,
    Connect { address: Seq<char> },
    Handshake,
    Relay,
    Close { error: Socks5Error },
}

/// What a [`Socks5Step`] says.
pub struct StepView {
    pub send: Seq<u8>,
    pub action: ActionView,
}

impl View for Socks5Action {
    type V = ActionView;

    open spec fn view(&self) -> ActionView {
        match self {
            Socks5Action::Read { count } => ActionView::Read { count: *count as nat },
            Socks5Action::Route => ActionView::Route,
            Socks5Action::Connect { address } => ActionView::Connect { address: address@ },
            Socks5Action::Handshake => ActionView::Handshake,
            Socks5Action::Relay => ActionView::Relay,
            Socks5Action::Close { error } => ActionView::Close { error: *error },
        }
    }
}

impl View for Socks5Step {
    type V = StepView;

    open spec fn view(&self) -> StepView {
        StepView { send: self.send@, action: self.action@ }
    }
}

/// What a session waits for.
#[derive(Clone, Copy, Debug, PartialEq, Eq, Structural)]
pub enum Socks5Stage {
    /// The version and the number of methods.
    Greeting,
    /// The methods that the client offers.
    Methods { count: usize },
    /// The form in which name and password come.
    AuthVersion,
    /// The length of the name.
    UsernameLength,
    /// The name.
    Username { count: usize },
    /// The length of the password.
    PasswordLength,
    /// The password.
    Password { count: usize },
    /// The start of the request.
    Request,
    /// An IPv4 address.
    Ipv4Address,
    /// The length of a domain.
    DomainLength,
    /// A domain.
    Domain { count: usize },
    /// The port.
    Port,
    /// The way to the destination.
    Routing,
    /// The connection to the destination.
    Direct,
    /// The connection to the upstream proxy.
    Upstream,
    /// The end of the exchange with the upstream proxy.
    Handshaking,
    /// Nothing: bytes are passed on.
    Relaying,
    /// Nothing: the session is closed.
    Closed,
}

impl Socks5Stage {
    /// How many bytes from the client this stage needs; `None` where it waits for something else.
    pub open spec fn awaits(self) -> Option<nat> {
        match self {
            Socks5Stage::Greeting => Some(2),
            Socks5Stage::Methods { count } => Some(count as nat),
            Socks5Stage::AuthVersion => Some(1),
            Socks5Stage::UsernameLength => Some(1),
            Socks5Stage::Username { count } => Some(count as nat),
            Socks5Stage::PasswordLength => Some(1),
            Socks5Stage::Password { count } => Some(count as nat),
            Socks5Stage::Request => Some(4),
            Socks5Stage::Ipv4Address => Some(4),
            Socks5Stage::DomainLength => Some(1),
            Socks5Stage::Domain { count } => Some(count as nat),
            Socks5Stage::Port => Some(2),
            _ => None,
        }
    }
}

// ---------------------------------------------------------------------------
// Sessions
// ---------------------------------------------------------------------------

/// The reply to a request. The address in it is all zeros.
pub open spec fn reply(code: u8) -> Seq<u8> {
    seq![SOCKS5_VERSION, code, 0, SOCKS5_ATYP_IPV4, 0, 0, 0, 0, 0, 0]
}

/// The port that two bytes say, the higher one first.
pub open spec fn port_of(bytes: Seq<u8>) -> u16 {
    (bytes[0] * 256 + bytes[1]) as u16
}

/// A client's session on a local port.
pub struct Socks5Session {
    auth: AuthConfig,
    local_port: u16,
    username: Vec<u8>,
    dest_addr: String,
    dest_port: u16,
    stage: Socks5Stage,
}

/// What a [`Socks5Session`] knows.
pub struct SessionView {
    /// Who may use the proxy.
    pub auth: AuthView,
    /// The port that the client came in on.
    pub local_port: u16,
    /// The name that the client gave, as sent.
    pub username: Seq<u8>,
    /// The destination, as far as the client has named it.
    pub dest_addr: Seq<char>,
    pub dest_port: u16,
    pub stage: Socks5Stage,
}

impl View for Socks5Session {
    type V = SessionView;

    closed spec fn view(&self) -> SessionView {
        SessionView {
            auth: self.auth@,
            local_port: self.local_port,
            username: self.username@,
            dest_addr: self.dest_addr@,
            dest_port: self.dest_port,
            stage: self.stage,
        }
    }
}

impl SessionView {
    /// A session in which nothing has been read yet.
    pub open spec fn started(auth: AuthView, local_port: u16) -> SessionView {
        SessionView {
            auth,
            local_port,
            username: Seq::empty(),
            dest_addr: Seq::empty(),
            dest_port: 0,
            stage: Socks5Stage::Greeting,
        }
    }

    /// Sends `send` and reads what `stage` needs.
    pub open spec fn reading(self, stage: Socks5Stage, send: Seq<u8>) -> (SessionView, StepView) {
        (
            SessionView { stage, ..self },
            StepView { send, action: ActionView::Read { count: stage.awaits().unwrap() } },
        )
    }

    /// Sends `send` and goes on with `action`.
    pub open spec fn going_on(self, stage: Socks5Stage, send: Seq<u8>, action: ActionView) -> (
        SessionView,
        StepView,
    ) {
        (SessionView { stage, ..self }, StepView { send, action })
    }

    /// Sends `send` and closes the connection.
    pub open spec fn closing(self, send: Seq<u8>, error: Socks5Error) -> (SessionView, StepView) {
        self.going_on(Socks5Stage::Closed, send, ActionView::Close { error })
    }

    /// What is done when the bytes that the stage needs have come from the client.
    pub open spec fn received(self, bytes: Seq<u8>) -> (SessionView, StepView) {
        let none = Seq::<u8>::empty();
        match self.stage {
            Socks5Stage::Greeting => if bytes[0] == SOCKS5_VERSION {
                self.reading(Socks5Stage::Methods { count: bytes[1] as usize }, none)
            } else {
                self.closing(none, Socks5Error::UnsupportedVersion { version: bytes[0] })
            },
            Socks5Stage::Methods { .. } => if !self.auth.required() {
                self.reading(Socks5Stage::Request, seq![SOCKS5_VERSION, SOCKS5_NO_AUTH])
            } else if bytes.contains(SOCKS5_USERPASS_AUTH) {
                self.reading(Socks5Stage::AuthVersion, seq![SOCKS5_VERSION, SOCKS5_USERPASS_AUTH])
            } else {
                self.closing(seq![SOCKS5_VERSION, 0xFF], Socks5Error::NoAcceptableMethod)
            },
            Socks5Stage::AuthVersion => if bytes[0] == 1 {
                self.reading(Socks5Stage::UsernameLength, none)
            } else {
                self.closing(none, Socks5Error::UnsupportedAuthVersion { version: bytes[0] })
            },
            Socks5Stage::UsernameLength => self.reading(
                Socks5Stage::Username { count: bytes[0] as usize },
                none,
            ),
            Socks5Stage::Username { .. } => (SessionView { username: bytes, ..self }).reading(
                Socks5Stage::PasswordLength,
                none,
            ),
            Socks5Stage::PasswordLength => self.reading(
                Socks5Stage::Password { count: bytes[0] as usize },
                none,
            ),
            Socks5Stage::Password { .. } => if self.auth.accepts(self.username, bytes) {
                self.reading(Socks5Stage::Request, seq![1, 0])
            } else {
                self.closing(seq![1, 1], Socks5Error::AuthFailed)
            },
            Socks5Stage::Request => if bytes[0] != SOCKS5_VERSION {
                self.closing(none, Socks5Error::InvalidRequestVersion { version: bytes[0] })
            } else if bytes[1] != SOCKS5_CMD_CONNECT {
                self.closing(
                    reply(SOCKS5_REP_FAILURE),
                    Socks5Error::UnsupportedCommand { command: bytes[1] },
                )
            } else if bytes[3] == SOCKS5_ATYP_IPV4 {
                self.reading(Socks5Stage::Ipv4Address, none)
            } else if bytes[3] == SOCKS5_ATYP_DOMAIN {
                self.reading(Socks5Stage::DomainLength, none)
            } else {
                self.closing(
                    reply(SOCKS5_REP_FAILURE),
                    Socks5Error::UnsupportedAddressType { kind: bytes[3] },
                )
            },
            Socks5Stage::Ipv4Address => (SessionView {
                dest_addr: ipv4::ipv4_text(bytes),
                ..self
            }).reading(Socks5Stage::Port, none),
            Socks5Stage::DomainLength => self.reading(
                Socks5Stage::Domain { count: bytes[0] as usize },
                none,
            ),
            Socks5Stage::Domain { .. } => if vstd::utf8::valid_utf8(bytes) {
                (SessionView { dest_addr: vstd::utf8::decode_utf8(bytes), ..self }).reading(
                    Socks5Stage::Port,
                    none,
                )
            } else {
                self.closing(none, Socks5Error::InvalidDomain)
            },
            Socks5Stage::Port => (SessionView { dest_port: port_of(bytes), ..self }).going_on(
                Socks5Stage::Routing,
                none,
                ActionView::Route,
            ),
            _ => arbitrary(),
        }
    }

    /// What is done once the destination is known: one that is to be reached directly is
    /// connected to, any other by the upstream proxy of the local port.
    pub open spec fn routed(self, bypass: Set<Seq<char>>, pool: pool::PoolView) -> (
        SessionView,
        StepView,
    ) {
        let none = Seq::<u8>::empty();
        if bypass.contains(self.dest_addr) {
            let address = text::with_port(self.dest_addr, self.dest_port);
            self.going_on(Socks5Stage::Direct, none, ActionView::Connect { address })
        } else {
            match pool.address(self.local_port) {
                Some(address) => self.going_on(
                    Socks5Stage::Upstream,
                    none,
                    ActionView::Connect { address },
                ),
                None => self.closing(
                    reply(SOCKS5_REP_HOST_UNREACHABLE),
                    Socks5Error::NoProxy { port: self.local_port },
                ),
            }
        }
    }

    /// Whether the way to the destination is by the upstream proxy of the local port.
    pub open spec fn goes_upstream(self, bypass: Set<Seq<char>>, pool: pool::PoolView) -> bool {
        !bypass.contains(self.dest_addr) && pool.address(self.local_port) is Some
    }

    /// What is done once it has been tried to connect.
    pub open spec fn connected(self, ok: bool) -> (SessionView, StepView) {
        if self.stage == Socks5Stage::Direct {
            if ok {
                self.going_on(Socks5Stage::Relaying, reply(SOCKS5_REP_SUCCESS), ActionView::Relay)
            } else {
                self.closing(reply(SOCKS5_REP_HOST_UNREACHABLE), Socks5Error::DirectConnectFailed)
            }
        } else {
            if ok {
                self.going_on(Socks5Stage::Handshaking, Seq::empty(), ActionView::Handshake)
            } else {
                self.closing(reply(SOCKS5_REP_HOST_UNREACHABLE), Socks5Error::UpstreamConnectFailed)
            }
        }
    }

    /// What is done once the exchange with the upstream proxy is over.
    pub open spec fn handshaken(self, ok: bool) -> (SessionView, StepView) {
        if ok {
            self.going_on(Socks5Stage::Relaying, reply(SOCKS5_REP_SUCCESS), ActionView::Relay)
        } else {
            self.closing(reply(SOCKS5_REP_HOST_UNREACHABLE), Socks5Error::UpstreamHandshakeFailed)
        }
    }
}

/// Serves SOCKS5 to clients that give the right name and password.
pub struct Socks5Server {
    auth: AuthConfig,
}

impl View for Socks5Server {
    type V = AuthView;

    closed spec fn view(&self) -> AuthView {
        self.auth@
    }
}

impl Socks5Server {
    /// A server for clients that `auth` lets pass.
    pub fn new(auth: AuthConfig) -> (r: Self)
        ensures
            r@ == auth@,
    {
        Socks5Server { auth }
    }

    /// The session of a new client on `local_port`, and its first step.
    pub fn accept(&self, local_port: u16) -> (r: (Socks5Session, Socks5Step))
        ensures
            r.0@ == SessionView::started(self@, local_port),
            (r.0@, r.1@) == r.0@.reading(Socks5Stage::Greeting, Seq::empty()),
    {
        let mut session = Socks5Session {
            auth: self.auth.clone(),
            local_port,
            username: Vec::new(),
            dest_addr: "".to_owned(),
            dest_port: 0,
            stage: Socks5Stage::Greeting,
        };
        proof {
            reveal_strlit("");
            assert(session.dest_addr@ =~= Seq::empty());
            assert(session.username@ =~= Seq::empty());
        }
        let step = session.read(Socks5Stage::Greeting, 2, Vec::new());
        (session, step)
    }
}

impl Socks5Session {
    /// The reply to a request.
    fn reply(code: u8) -> (r: Vec<u8>)
        ensures
            r@ == reply(code),
    {
        let out: Vec<u8> = vec![SOCKS5_VERSION, code, 0, SOCKS5_ATYP_IPV4, 0, 0, 0, 0, 0, 0];
        assert(out@ =~= reply(code));
        out
    }

    fn read(&mut self, stage: Socks5Stage, count: usize, send: Vec<u8>) -> (r: Socks5Step)
        requires
            stage.awaits() == Some(count as nat),
        ensures
            (final(self)@, r@) == old(self)@.reading(stage, send@),
    {
        self.stage = stage;
        Socks5Step { send, action: Socks5Action::Read { count } }
    }

    fn go_on(&mut self, stage: Socks5Stage, send: Vec<u8>, action: Socks5Action) -> (r: Socks5Step)
        ensures
            (final(self)@, r@) == old(self)@.going_on(stage, send@, action@),
    {
        self.stage = stage;
        Socks5Step { send, action }
    }

    fn close(&mut self, send: Vec<u8>, error: Socks5Error) -> (r: Socks5Step)
        ensures
            (final(self)@, r@) == old(self)@.closing(send@, error),
    {
        self.go_on(Socks5Stage::Closed, send, Socks5Action::Close { error })
    }

    /// Whether the client offers to give name and password.
    fn offers_userpass(methods: &Vec<u8>) -> (r: bool)
        ensures
            r == methods@.contains(SOCKS5_USERPASS_AUTH),
    {
        let mut i: usize = 0;
        while i < methods.len()
            invariant
                i <= methods@.len(),
                forall|j: int| 0 <= j < i ==> methods@[j] != SOCKS5_USERPASS_AUTH,
            decreases methods@.len() - i,
        {
            if methods[i] == SOCKS5_USERPASS_AUTH {
                return true;
            }
            i = i + 1;
        }
        false
    }

    /// Whether the client may pass with the name it gave and this password.
    fn accepts(&self, password: Vec<u8>) -> (r: bool)
        ensures
            r == self@.auth.accepts(self@.username, password@),
    {
        let username = Self::text_or_empty(self.username.clone());
        let password = Self::text_or_empty(password);
        text::same_text(username.as_str(), self.auth.username.as_str()) && text::same_text(
            password.as_str(),
            self.auth.password.as_str(),
        )
    }

    fn text_or_empty(bytes: Vec<u8>) -> (r: String)
        ensures
            r@ == text::text_or_empty(bytes@),
    {
        match text::utf8_text(bytes) {
            Some(s) => s,
            None => {
                proof {
                    reveal_strlit("");
                    assert(""@ =~= Seq::empty());
                }
                "".to_owned()
            },
        }
    }

    /// Takes the bytes that were read from the client, as many as the step before said.
    pub fn received(&mut self, bytes: Vec<u8>) -> (r: Socks5Step)
        requires
            old(self)@.stage.awaits() == Some(bytes@.len()),
        ensures
            (final(self)@, r@) == old(self)@.received(bytes@),
    {
        let none: Vec<u8> = Vec::new();
        assert(none@ =~= Seq::empty());
        match self.stage {
            Socks5Stage::Greeting => {
                if bytes[0] != SOCKS5_VERSION {
                    self.close(none, Socks5Error::UnsupportedVersion { version: bytes[0] })
                } else {
                    let count = bytes[1] as usize;
                    self.read(Socks5Stage::Methods { count }, count, none)
                }
            },
            Socks5Stage::Methods { .. } => self.received_methods(&bytes),
            Socks5Stage::AuthVersion => {
                if bytes[0] != 1 {
                    self.close(none, Socks5Error::UnsupportedAuthVersion { version: bytes[0] })
                } else {
                    self.read(Socks5Stage::UsernameLength, 1, none)
                }
            },
            Socks5Stage::UsernameLength => {
                let count = bytes[0] as usize;
                self.read(Socks5Stage::Username { count }, count, none)
            },
            Socks5Stage::Username { .. } => {
                self.username = bytes;
                self.read(Socks5Stage::PasswordLength, 1, none)
            },
            Socks5Stage::PasswordLength => {
                let count = bytes[0] as usize;
                self.read(Socks5Stage::Password { count }, count, none)
            },
            Socks5Stage::Password { .. } => self.received_password(bytes),
            Socks5Stage::Request => self.received_request(&bytes),
            Socks5Stage::Ipv4Address => {
                let octets: [u8; 4] = [bytes[0], bytes[1], bytes[2], bytes[3]];
                assert(octets@ =~= bytes@);
                self.dest_addr = ipv4::format_ipv4(octets);
                self.read(Socks5Stage::Port, 2, none)
            },
            Socks5Stage::DomainLength => {
                let count = bytes[0] as usize;
                self.read(Socks5Stage::Domain { count }, count, none)
            },
            Socks5Stage::Domain { .. } => match text::utf8_text(bytes) {
                Some(domain) => {
                    self.dest_addr = domain;
                    self.read(Socks5Stage::Port, 2, none)
                },
                None => self.close(none, Socks5Error::InvalidDomain),
            },
            _ => {
                self.dest_port = bytes[0] as u16 * 256 + bytes[1] as u16;
                self.go_on(Socks5Stage::Routing, none, Socks5Action::Route)
            },
        }
    }

    /// Chooses a method among those that the client offers.
    fn received_methods(&mut self, bytes: &Vec<u8>) -> (r: Socks5Step)
        requires
            old(self)@.stage is Methods,
        ensures
            (final(self)@, r@) == old(self)@.received(bytes@),
    {
        if self.auth.is_required() {
            if !Self::offers_userpass(bytes) {
                let send: Vec<u8> = vec![SOCKS5_VERSION, 0xFF];
                assert(send@ =~= seq![SOCKS5_VERSION, 0xFF]);
                self.close(send, Socks5Error::NoAcceptableMethod)
            } else {
                let send: Vec<u8> = vec![SOCKS5_VERSION, SOCKS5_USERPASS_AUTH];
                assert(send@ =~= seq![SOCKS5_VERSION, SOCKS5_USERPASS_AUTH]);
                self.read(Socks5Stage::AuthVersion, 1, send)
            }
        } else {
            let send: Vec<u8> = vec![SOCKS5_VERSION, SOCKS5_NO_AUTH];
            assert(send@ =~= seq![SOCKS5_VERSION, SOCKS5_NO_AUTH]);
            self.read(Socks5Stage::Request, 4, send)
        }
    }

    /// Lets the client pass, or not.
    fn received_password(&mut self, bytes: Vec<u8>) -> (r: Socks5Step)
        requires
            old(self)@.stage is Password,
        ensures
            (final(self)@, r@) == old(self)@.received(bytes@),
    {
        if self.accepts(bytes) {
            let send: Vec<u8> = vec![1, 0];
            assert(send@ =~= seq![1u8, 0u8]);
            self.read(Socks5Stage::Request, 4, send)
        } else {
            let send: Vec<u8> = vec![1, 1];
            assert(send@ =~= seq![1u8, 1u8]);
            self.close(send, Socks5Error::AuthFailed)
        }
    }

    /// Takes the start of a request.
    fn received_request(&mut self, bytes: &Vec<u8>) -> (r: Socks5Step)
        requires
            old(self)@.stage is Request,
            bytes@.len() == 4,
        ensures
            (final(self)@, r@) == old(self)@.received(bytes@),
    {
        let none: Vec<u8> = Vec::new();
        assert(none@ =~= Seq::empty());
        if bytes[0] != SOCKS5_VERSION {
            self.close(none, Socks5Error::InvalidRequestVersion { version: bytes[0] })
        } else if bytes[1] != SOCKS5_CMD_CONNECT {
            self.close(
                Self::reply(SOCKS5_REP_FAILURE),
                Socks5Error::UnsupportedCommand { command: bytes[1] },
            )
        } else if bytes[3] == SOCKS5_ATYP_IPV4 {
            self.read(Socks5Stage::Ipv4Address, 4, none)
        } else if bytes[3] == SOCKS5_ATYP_DOMAIN {
            self.read(Socks5Stage::DomainLength, 1, none)
        } else {
            self.close(
                Self::reply(SOCKS5_REP_FAILURE),
                Socks5Error::UnsupportedAddressType { kind: bytes[3] },
            )
        }
    }

    /// Decides on the way to the destination. Where that is the upstream proxy of the local port,
    /// the port counts as used from now on.
    pub fn route(&mut self, bypass: &BypassList, pool: &mut IpPool) -> (r: Socks5Step)
        requires
            old(self)@.stage == Socks5Stage::Routing,
        ensures
            (final(self)@, r@) == old(self)@.routed(bypass@, old(pool)@),
            old(self)@.goes_upstream(bypass@, old(pool)@) ==> exists|now: Instant|
                final(pool)@ == old(pool)@.used(
                    old(self)@.local_port,
                    #[trigger] old(pool)@.entries[old(self)@.local_port].age(now),
                ),
            !old(self)@.goes_upstream(bypass@, old(pool)@) ==> final(pool)@ == old(pool)@,
    {
        let now = Instant::now();
        let age = pool.age_of(self.local_port, &now);
        self.route_at(bypass, pool, age)
    }

    /// Decides on the way to the destination, when the entry of the port is `age` nanoseconds
    /// old. Where the way is by the upstream proxy, the port counts as used at that age.
    pub fn route_at(&mut self, bypass: &BypassList, pool: &mut IpPool, age: u128) -> (r: Socks5Step)
        requires
            old(self)@.stage == Socks5Stage::Routing,
        ensures
            (final(self)@, r@) == old(self)@.routed(bypass@, old(pool)@),
            final(pool)@ == if old(self)@.goes_upstream(bypass@, old(pool)@) {
                old(pool)@.used(old(self)@.local_port, age as nat)
            } else {
                old(pool)@
            },
    {
        let none: Vec<u8> = Vec::new();
        assert(none@ =~= Seq::empty());
        if bypass.contains(self.dest_addr.as_str()) {
            let address = text::join_port(self.dest_addr.as_str(), self.dest_port);
            return self.go_on(Socks5Stage::Direct, none, Socks5Action::Connect { address });
        }
        match pool.get_proxy_address(self.local_port) {
            Some(address) => {
                pool.mark_used_at(self.local_port, age);
                self.go_on(Socks5Stage::Upstream, none, Socks5Action::Connect { address })
            },
            None => self.close(
                Self::reply(SOCKS5_REP_HOST_UNREACHABLE),
                Socks5Error::NoProxy { port: self.local_port },
            ),
        }
    }

    /// Goes on once it has been tried to connect; `ok` tells whether that succeeded.
    pub fn connected(&mut self, ok: bool) -> (r: Socks5Step)
        requires
            old(self)@.stage == Socks5Stage::Direct || old(self)@.stage == Socks5Stage::Upstream,
        ensures
            (final(self)@, r@) == old(self)@.connected(ok),
    {
        if self.stage == Socks5Stage::Direct {
            if ok {
                let send = Self::reply(SOCKS5_REP_SUCCESS);
                self.go_on(Socks5Stage::Relaying, send, Socks5Action::Relay)
            } else {
                let send = Self::reply(SOCKS5_REP_HOST_UNREACHABLE);
                self.close(send, Socks5Error::DirectConnectFailed)
            }
        } else {
            if ok {
                let none: Vec<u8> = Vec::new();
                assert(none@ =~= Seq::empty());
                self.go_on(Socks5Stage::Handshaking, none, Socks5Action::Handshake)
            } else {
                let send = Self::reply(SOCKS5_REP_HOST_UNREACHABLE);
                self.close(send, Socks5Error::UpstreamConnectFailed)
            }
        }
    }

    /// The exchange that asks the upstream proxy to connect to the destination, and its first
    /// step.
    pub fn upstream_handshake(&self, pool: &IpPool) -> (r: (Handshake, HandshakeStep))
        ensures
            r.0@ == handshake::HandshakeView::started(
                self@.dest_addr,
                self@.dest_port,
                pool@.proxy_username,
                pool@.proxy_password,
            ),
            r.1@ == (handshake::HandshakeStepView::Exchange {
                send: handshake::greeting(),
                read: 2,
            }),
    {
        Handshake::start(
            self.dest_addr.as_str(),
            self.dest_port,
            pool.proxy_username(),
            pool.proxy_password(),
        )
    }

    /// Goes on once the exchange with the upstream proxy is over; `ok` tells whether it connected.
    pub fn handshaken(&mut self, ok: bool) -> (r: Socks5Step)
        requires
            old(self)@.stage == Socks5Stage::Handshaking,
        ensures
            (final(self)@, r@) == old(self)@.handshaken(ok),
    {
        if ok {
            let send = Self::reply(SOCKS5_REP_SUCCESS);
            self.go_on(Socks5Stage::Relaying, send, Socks5Action::Relay)
        } else {
            let send = Self::reply(SOCKS5_REP_HOST_UNREACHABLE);
            self.close(send, Socks5Error::UpstreamHandshakeFailed)
        }
    }
}

// ---------------------------------------------------------------------------
// Sessions as a whole
// ---------------------------------------------------------------------------

/// How far a session has come with what its client sent.
pub struct Served {
    pub session: SessionView,
    /// All that was sent to the client.
    pub sent: Seq<u8>,
    /// What is to be done now: read on, if bytes are lacking.
    pub action: ActionView,
    /// The bytes that were not read.
    pub unread: Seq<u8>,
}

impl Socks5Stage {
    /// How many stages of reading may still come.
    pub open spec fn stages_left(self) -> nat {
        match self {
            Socks5Stage::Greeting => 12,
            Socks5Stage::Methods { .. } => 11,
            Socks5Stage::AuthVersion => 10,
            Socks5Stage::UsernameLength => 9,
            Socks5Stage::Username { .. } => 8,
            Socks5Stage::PasswordLength => 7,
            Socks5Stage::Password { .. } => 6,
            Socks5Stage::Request => 5,
            Socks5Stage::Ipv4Address => 4,
            Socks5Stage::DomainLength => 4,
            Socks5Stage::Domain { .. } => 3,
            Socks5Stage::Port => 2,
            _ => 1,
        }
    }
}

impl SessionView {
    /// What comes of doing `step`, and of the steps after it as long as they only read, when
    /// `input` is all that the client sends.
    #[verifier::opaque]
    pub open spec fn run(self, step: StepView, input: Seq<u8>) -> Served
        decreases self.stage.stages_left(),
    {
        match self.stage.awaits() {
            Some(count) => if step.action is Read && count <= input.len() {
                let (after, next) = self.received(input.take(count as int));
                let later = after.run(next, input.skip(count as int));
                Served { sent: step.send + later.sent, ..later }
            } else {
                Served { session: self, sent: step.send, action: step.action, unread: input }
            },
            None => Served { session: self, sent: step.send, action: step.action, unread: input },
        }
    }

    /// What comes of a new session.
    pub open spec fn served(auth: AuthView, local_port: u16, input: Seq<u8>) -> Served {
        let (session, step) = SessionView::started(auth, local_port).reading(
            Socks5Stage::Greeting,
            Seq::empty(),
        );
        session.run(step, input)
    }
}

/// Each step reads as many bytes as the stage that follows it needs, and a stage that needs bytes
/// gets them read.
pub proof fn law_session_reads_what_it_awaits(session: SessionView, bytes: Seq<u8>)
    requires
        session.stage.awaits() == Some(bytes.len()),
    ensures
        session.received(bytes).1.action is Read <==> session.received(
            bytes,
        ).0.stage.awaits() is Some,
        session.received(bytes).1.action matches ActionView::Read { count } ==> session.received(
            bytes,
        ).0.stage.awaits() == Some(count),
{
}

/// One step that reads.
proof fn lemma_read(session: SessionView, send: Seq<u8>, bytes: Seq<u8>, rest: Seq<u8>)
    requires
        session.stage.awaits() == Some(bytes.len()),
    ensures
        ({
            let (after, next) = session.received(bytes);
            let later = after.run(next, rest);
            session.run(session.reading(session.stage, send).1, bytes + rest) == (Served {
                sent: send + later.sent,
                ..later
            })
        }),
{
    reveal(SessionView::run);
    assert((bytes + rest).take(bytes.len() as int) =~= bytes);
    assert((bytes + rest).skip(bytes.len() as int) =~= rest);
}

/// A step after which nothing is read.
proof fn lemma_read_no_more(session: SessionView, step: StepView, input: Seq<u8>)
    requires
        session.stage.awaits() is None,
    ensures
        session.run(step, input) == (Served {
            session,
            sent: step.send,
            action: step.action,
            unread: input,
        }),
{
    reveal(SessionView::run);
}

/// A request that is whole is understood.
proof fn lemma_request(
    session: SessionView,
    send: Seq<u8>,
    addr: Seq<char>,
    port: u16,
    rest: Seq<u8>,
)
    requires
        session.stage == Socks5Stage::Request,
        vstd::utf8::encode_utf8(addr).len() <= 255,
    ensures
        session.run(
            session.reading(Socks5Stage::Request, send).1,
            handshake::connect_request(addr, port) + rest,
        ) == (Served {
            session: SessionView {
                dest_addr: addr,
                dest_port: port,
                stage: Socks5Stage::Routing,
                ..session
            },
            sent: send,
            action: ActionView::Route,
            unread: rest,
        }),
{
    let none = Seq::<u8>::empty();
    let input = handshake::connect_request(addr, port) + rest;
    let last = handshake::port_bytes(port);
    let s1 = SessionView { dest_addr: addr, stage: Socks5Stage::Port, ..session };
    lemma_read(s1, none, last, rest);
    lemma_read_no_more(s1.received(last).0, s1.received(last).1, rest);
    assert(none + none =~= none);
    match ipv4::ipv4_of(addr) {
        Some(octets) => {
            let s2 = SessionView { stage: Socks5Stage::Ipv4Address, ..session };
            lemma_read(s2, none, octets, last + rest);
            let head = seq![SOCKS5_VERSION, SOCKS5_CMD_CONNECT, 0, SOCKS5_ATYP_IPV4];
            lemma_read(session, send, head, octets + (last + rest));
            assert(input =~= head + (octets + (last + rest)));
        },
        None => {
            let domain = vstd::utf8::encode_utf8(addr);
            let count = seq![domain.len() as u8];
            let s2 = SessionView {
                stage: Socks5Stage::Domain { count: domain.len() as usize },
                ..session
            };
            let s3 = SessionView { stage: Socks5Stage::DomainLength, ..session };
            text::law_utf8_reads_back(addr);
            lemma_read(s2, none, domain, last + rest);
            lemma_read(s3, none, count, domain + (last + rest));
            let head = seq![SOCKS5_VERSION, SOCKS5_CMD_CONNECT, 0, SOCKS5_ATYP_DOMAIN];
            lemma_read(session, send, head, count + (domain + (last + rest)));
            assert(input =~= head + (count + (domain + (last + rest))));
        },
    }
    assert(send + none =~= send);
}

/// Where no authentication is required, a client that offers any methods and asks for a
/// destination is told to go without, and the session goes on to that destination. An IPv4 address
/// and a domain of up to 255 bytes arrive as they were written.
pub proof fn law_open_server_understands_requests(
    auth: AuthView,
    local_port: u16,
    methods: Seq<u8>,
    addr: Seq<char>,
    port: u16,
    rest: Seq<u8>,
)
    requires
        !auth.required(),
        methods.len() <= 255,
        vstd::utf8::encode_utf8(addr).len() <= 255,
    ensures
        SessionView::served(
            auth,
            local_port,
            seq![SOCKS5_VERSION, methods.len() as u8] + methods + handshake::connect_request(
                addr,
                port,
            ) + rest,
        ) == (Served {
            session: SessionView {
                dest_addr: addr,
                dest_port: port,
                stage: Socks5Stage::Routing,
                ..SessionView::started(auth, local_port)
            },
            sent: seq![SOCKS5_VERSION, SOCKS5_NO_AUTH],
            action: ActionView::Route,
            unread: rest,
        }),
{
    let none = Seq::<u8>::empty();
    let request = handshake::connect_request(addr, port);
    let greeting = seq![SOCKS5_VERSION, methods.len() as u8];
    let s0 = SessionView::started(auth, local_port);
    let s1 = SessionView { stage: Socks5Stage::Methods { count: methods.len() as usize }, ..s0 };
    let s2 = SessionView { stage: Socks5Stage::Request, ..s0 };
    let chosen = seq![SOCKS5_VERSION, SOCKS5_NO_AUTH];
    lemma_request(s2, chosen, addr, port, rest);
    lemma_read(s1, none, methods, request + rest);
    lemma_read(s0, none, greeting, methods + (request + rest));
    assert(greeting + methods + request + rest =~= greeting + (methods + (request + rest)));
    assert(none + (none + chosen) =~= chosen);
}

/// Where authentication is required, a client that offers to give name and password, gives the
/// right ones and asks for a destination is let pass, and the session goes on to that destination.
pub proof fn law_guarded_server_lets_known_clients_pass(
    auth: AuthView,
    local_port: u16,
    methods: Seq<u8>,
    addr: Seq<char>,
    port: u16,
    rest: Seq<u8>,
)
    requires
        auth.required(),
        vstd::utf8::encode_utf8(auth.username).len() <= 255,
        vstd::utf8::encode_utf8(auth.password).len() <= 255,
        methods.len() <= 255,
        methods.contains(SOCKS5_USERPASS_AUTH),
        vstd::utf8::encode_utf8(addr).len() <= 255,
    ensures
        SessionView::served(
            auth,
            local_port,
            seq![SOCKS5_VERSION, methods.len() as u8] + methods + handshake::auth_request(
                auth.username,
                auth.password,
            ) + handshake::connect_request(addr, port) + rest,
        ) == (Served {
            session: SessionView {
                username: vstd::utf8::encode_utf8(auth.username),
                dest_addr: addr,
                dest_port: port,
                stage: Socks5Stage::Routing,
                ..SessionView::started(auth, local_port)
            },
            sent: seq![SOCKS5_VERSION, SOCKS5_USERPASS_AUTH, 1, 0],
            action: ActionView::Route,
            unread: rest,
        }),
{
    let none = Seq::<u8>::empty();
    let name = vstd::utf8::encode_utf8(auth.username);
    let password = vstd::utf8::encode_utf8(auth.password);
    let credentials = handshake::auth_request(auth.username, auth.password);
    let request = handshake::connect_request(addr, port);
    let input = seq![SOCKS5_VERSION, methods.len() as u8] + methods + credentials + request + rest;
    text::law_utf8_reads_back(auth.username);
    text::law_utf8_reads_back(auth.password);
    let after_password = request + rest;
    let after_password_length = password + after_password;
    let after_name = seq![password.len() as u8] + after_password_length;
    let after_name_length = name + after_name;
    let after_version = seq![name.len() as u8] + after_name_length;
    let after_methods = seq![1u8] + after_version;
    let after_greeting = methods + after_methods;
    assert(input =~= seq![SOCKS5_VERSION, methods.len() as u8] + after_greeting);
    let s0 = SessionView::started(auth, local_port);
    let s1 = SessionView { stage: Socks5Stage::Methods { count: methods.len() as usize }, ..s0 };
    let s2 = SessionView { stage: Socks5Stage::AuthVersion, ..s0 };
    let s3 = SessionView { stage: Socks5Stage::UsernameLength, ..s0 };
    let s4 = SessionView { stage: Socks5Stage::Username { count: name.len() as usize }, ..s0 };
    let s5 = SessionView { username: name, stage: Socks5Stage::PasswordLength, ..s0 };
    let s6 = SessionView {
        username: name,
        stage: Socks5Stage::Password { count: password.len() as usize },
        ..s0
    };
    let s7 = SessionView { username: name, stage: Socks5Stage::Request, ..s0 };
    let chosen = seq![SOCKS5_VERSION, SOCKS5_USERPASS_AUTH];
    let passed = seq![1u8, 0u8];
    lemma_request(s7, passed, addr, port, rest);
    lemma_read(s6, none, password, after_password);
    lemma_read(s5, none, seq![password.len() as u8], after_password_length);
    lemma_read(s4, none, name, after_name);
    lemma_read(s3, none, seq![name.len() as u8], after_name_length);
    lemma_read(s2, chosen, seq![1u8], after_version);
    lemma_read(s1, none, methods, after_methods);
    lemma_read(s0, none, seq![SOCKS5_VERSION, methods.len() as u8], after_greeting);
    assert(none + (none + (chosen + (none + (none + (none + (none + passed)))))) =~= seq![
        SOCKS5_VERSION,
        SOCKS5_USERPASS_AUTH,
        1,
        0,
    ]);
}

/// The greeting of a client that offers `methods`, and the name and the password that it gives.
pub open spec fn introduction(methods: Seq<u8>, name: Seq<u8>, password: Seq<u8>) -> Seq<u8> {
    seq![SOCKS5_VERSION, methods.len() as u8] + methods + seq![1u8, name.len() as u8] + name + seq![
        password.len() as u8,
    ] + password
}

/// A session that comes through a stage of reading has got the bytes for it.
proof fn lemma_comes_through(session: SessionView, send: Seq<u8>, input: Seq<u8>) -> (r: (
    Seq<u8>,
    Seq<u8>,
))
    requires
        session.stage.awaits() is Some,
        session.run(session.reading(session.stage, send).1, input).action is Route,
    ensures
        session.stage.awaits() == Some(r.0.len()),
        input == r.0 + r.1,
        session.received(r.0).1.action is Close ==> false,
        session.received(r.0).0.run(session.received(r.0).1, r.1).action is Route,
{
    reveal(SessionView::run);
    let count = session.stage.awaits().unwrap() as int;
    let bytes = input.take(count);
    let rest = input.skip(count);
    assert(input =~= bytes + rest);
    if session.received(bytes).1.action is Close {
        assert(session.received(bytes).0.stage == Socks5Stage::Closed);
    }
    (bytes, rest)
}

/// A session that comes through authentication has got the right name and password.
proof fn lemma_credentials(session: SessionView, send: Seq<u8>, input: Seq<u8>) -> (r: (
    Seq<u8>,
    Seq<u8>,
    Seq<u8>,
))
    requires
        session.stage == Socks5Stage::AuthVersion,
        session.run(session.reading(session.stage, send).1, input).action is Route,
    ensures
        session.auth.accepts(r.0, r.1),
        r.0.len() <= 255,
        r.1.len() <= 255,
        input == seq![1u8, r.0.len() as u8] + r.0 + seq![r.1.len() as u8] + r.1 + r.2,
{
    let none = Seq::<u8>::empty();
    let (version, r2) = lemma_comes_through(session, send, input);
    let s3 = SessionView { stage: Socks5Stage::UsernameLength, ..session };
    let (name_length, r3) = lemma_comes_through(s3, none, r2);
    let s4 = SessionView {
        stage: Socks5Stage::Username { count: name_length[0] as usize },
        ..session
    };
    let (name, r4) = lemma_comes_through(s4, none, r3);
    let s5 = SessionView { username: name, stage: Socks5Stage::PasswordLength, ..session };
    let (password_length, r5) = lemma_comes_through(s5, none, r4);
    let s6 = SessionView {
        username: name,
        stage: Socks5Stage::Password { count: password_length[0] as usize },
        ..session
    };
    let (password, r6) = lemma_comes_through(s6, none, r5);
    assert(input =~= seq![1u8, name.len() as u8] + name + seq![password.len() as u8] + password
        + r6);
    (name, password, r6)
}

/// Where authentication is required, no client is let through to any destination that has not
/// offered to give name and password and then given the right ones.
pub proof fn law_no_way_in_without_credentials(auth: AuthView, local_port: u16, input: Seq<u8>)
    requires
        auth.required(),
        SessionView::served(auth, local_port, input).action is Route,
    ensures
        exists|methods: Seq<u8>, name: Seq<u8>, password: Seq<u8>|
            {
                &&& #[trigger] introduction(methods, name, password).is_prefix_of(input)
                &&& methods.len() <= 255 && name.len() <= 255 && password.len() <= 255
                &&& methods.contains(SOCKS5_USERPASS_AUTH)
                &&& auth.accepts(name, password)
                &&& name == vstd::utf8::encode_utf8(auth.username)
                &&& password == vstd::utf8::encode_utf8(auth.password) || auth.password.len()
                    == 0 && !vstd::utf8::valid_utf8(password)
            },
{
    let none = Seq::<u8>::empty();
    let s0 = SessionView::started(auth, local_port);
    let (greeting, r0) = lemma_comes_through(s0, none, input);
    let s1 = s0.received(greeting).0;
    let (methods, r1) = lemma_comes_through(s1, none, r0);
    let s2 = s1.received(methods).0;
    let (name, password, r2) = lemma_credentials(s2, s1.received(methods).1.send, r1);
    assert(input =~= introduction(methods, name, password) + r2);
    crate::law_right_credentials_pass(auth, name, password);
    assert(introduction(methods, name, password).is_prefix_of(input));
}

/// Every request that is refused for what it asks is answered with a failure: another command
/// than to connect, or an address of an unknown kind. The connection is closed then.
pub proof fn law_refused_requests_are_answered(session: SessionView, request: Seq<u8>)
    requires
        session.stage == Socks5Stage::Request,
        request.len() == 4,
        request[0] == SOCKS5_VERSION,
        request[1] != SOCKS5_CMD_CONNECT || (request[3] != SOCKS5_ATYP_IPV4 && request[3]
            != SOCKS5_ATYP_DOMAIN),
    ensures
        session.received(request).1.send == reply(SOCKS5_REP_FAILURE),
        session.received(request).1.action is Close,
{
}

/// A request that is whole gets one reply, whichever way it takes and whatever comes of it: that
/// the host is unreachable when the session is closed, success when bytes begin to be passed on,
/// and none before.
pub proof fn law_whole_request_gets_one_reply(
    session: SessionView,
    bypass: Set<Seq<char>>,
    pool: pool::PoolView,
    connects: bool,
    shakes_hands: bool,
)
    requires
        session.stage == Socks5Stage::Routing,
    ensures
        ({
            let (s1, step1) = session.routed(bypass, pool);
            let (s2, step2) = s1.connected(connects);
            let (s3, step3) = s2.handshaken(shakes_hands);
            let direct = bypass.contains(session.dest_addr);
            let upstream = session.goes_upstream(bypass, pool);
            if !direct && !upstream {
                &&& step1.send == reply(SOCKS5_REP_HOST_UNREACHABLE)
                &&& step1.action is Close
            } else {
                &&& step1.send == Seq::<u8>::empty()
                &&& step1.action is Connect
                &&& if !connects {
                    &&& step2.send == reply(SOCKS5_REP_HOST_UNREACHABLE)
                    &&& step2.action is Close
                } else if direct {
                    &&& step2.send == reply(SOCKS5_REP_SUCCESS)
                    &&& step2.action is Relay
                } else {
                    &&& step2.send == Seq::<u8>::empty()
                    &&& step2.action is Handshake
                    &&& if shakes_hands {
                        &&& step3.send == reply(SOCKS5_REP_SUCCESS)
                        &&& step3.action is Relay
                    } else {
                        &&& step3.send == reply(SOCKS5_REP_HOST_UNREACHABLE)
                        &&& step3.action is Close
                    }
                }
            }
        }),
{
}

/// A destination on the bypass list is connected to as it stands, whatever the pool holds.
pub proof fn law_bypassed_destination_is_reached_directly(
    session: SessionView,
    bypass: Set<Seq<char>>,
    pool: pool::PoolView,
)
    requires
        bypass.contains(session.dest_addr),
    ensures
        session.routed(bypass, pool).1.action == (ActionView::Connect {
            address: text::with_port(session.dest_addr, session.dest_port),
        }),
        !session.goes_upstream(bypass, pool),
{
}

/// What routing a session does to the pool takes no upstream proxy out: every port hands out what
/// it did before, and the reserve is what it was.
pub proof fn law_session_takes_no_proxy_out(
    session: SessionView,
    pool: pool::PoolView,
    age: nat,
    port: u16,
)
    ensures
        pool.used(session.local_port, age).address(port) == pool.address(port),
        pool.used(session.local_port, age).reserve == pool.reserve,
{
}

/// What the two sides of the protocol here write, the other side reads. Where no authentication
/// is required, a server that has read all that a client sends goes on to the client's
/// destination, and the client that reads what the server has sent and its reply of success is
/// connected.
pub proof fn law_client_and_open_server_agree(
    auth: AuthView,
    local_port: u16,
    addr: Seq<char>,
    port: u16,
    username: Seq<char>,
    password: Seq<char>,
)
    requires
        !auth.required(),
        vstd::utf8::encode_utf8(addr).len() <= 255,
    ensures
        ({
            let client = handshake::HandshakeView::started(addr, port, username, password);
            let sent = handshake::greeting() + handshake::connect_request(addr, port);
            let served = SessionView::served(auth, local_port, sent);
            &&& served.action is Route
            &&& served.session.dest_addr == addr
            &&& served.session.dest_port == port
            &&& served.unread == Seq::<u8>::empty()
            &&& client.outcome(served.sent + reply(SOCKS5_REP_SUCCESS)) == (handshake::Outcome {
                sent,
                last: handshake::HandshakeStepView::Established,
                unread: Seq::empty(),
            })
        }),
{
    let none = Seq::<u8>::empty();
    let methods = seq![SOCKS5_NO_AUTH, SOCKS5_USERPASS_AUTH];
    let request = handshake::connect_request(addr, port);
    law_open_server_understands_requests(auth, local_port, methods, addr, port, none);
    assert(seq![SOCKS5_VERSION, methods.len() as u8] + methods + request + none
        =~= handshake::greeting() + request);
    let chosen = seq![SOCKS5_VERSION, SOCKS5_NO_AUTH];
    handshake::law_handshake_without_authentication(
        addr,
        port,
        username,
        password,
        reply(SOCKS5_REP_SUCCESS),
        none,
    );
    assert(chosen + reply(SOCKS5_REP_SUCCESS) + none =~= chosen + reply(SOCKS5_REP_SUCCESS));
}

/// The same where authentication is required and the client has the right name and password.
pub proof fn law_client_and_guarded_server_agree(
    auth: AuthView,
    local_port: u16,
    addr: Seq<char>,
    port: u16,
)
    requires
        auth.required(),
        vstd::utf8::encode_utf8(auth.username).len() <= 255,
        vstd::utf8::encode_utf8(auth.password).len() <= 255,
        vstd::utf8::encode_utf8(addr).len() <= 255,
    ensures
        ({
            let client = handshake::HandshakeView::started(
                addr,
                port,
                auth.username,
                auth.password,
            );
            let sent = handshake::greeting() + handshake::auth_request(
                auth.username,
                auth.password,
            ) + handshake::connect_request(addr, port);
            let served = SessionView::served(auth, local_port, sent);
            &&& served.action is Route
            &&& served.session.dest_addr == addr
            &&& served.session.dest_port == port
            &&& served.unread == Seq::<u8>::empty()
            &&& client.outcome(served.sent + reply(SOCKS5_REP_SUCCESS)) == (handshake::Outcome {
                sent,
                last: handshake::HandshakeStepView::Established,
                unread: Seq::empty(),
            })
        }),
{
    let none = Seq::<u8>::empty();
    let methods = seq![SOCKS5_NO_AUTH, SOCKS5_USERPASS_AUTH];
    assert(methods[1] == SOCKS5_USERPASS_AUTH);
    let credentials = handshake::auth_request(auth.username, auth.password);
    let request = handshake::connect_request(addr, port);
    law_guarded_server_lets_known_clients_pass(auth, local_port, methods, addr, port, none);
    assert(seq![SOCKS5_VERSION, methods.len() as u8] + methods + credentials + request + none
        =~= handshake::greeting() + credentials + request);
    handshake::law_handshake_with_authentication(
        addr,
        port,
        auth.username,
        auth.password,
        reply(SOCKS5_REP_SUCCESS),
        none,
    );
    assert(seq![SOCKS5_VERSION, SOCKS5_USERPASS_AUTH] + seq![1u8, 0u8] + reply(SOCKS5_REP_SUCCESS)
        + none =~= seq![SOCKS5_VERSION, SOCKS5_USERPASS_AUTH, 1, 0] + reply(SOCKS5_REP_SUCCESS));
}

/// The bytes of a reply, and the port that two bytes say.
pub proof fn law_replies_on_the_wire(code: u8, high: u8, low: u8)
    ensures
        reply(code) == seq![5u8, code, 0u8, 1u8, 0u8, 0u8, 0u8, 0u8, 0u8, 0u8],
        port_of(seq![high, low]) == high * 256 + low,
{
}

/// The byte of a request that is set aside does not matter: two requests that differ in it alone
/// are treated alike.
pub proof fn law_reserved_byte_does_not_matter(
    session: SessionView,
    kind: u8,
    reserved: u8,
    other: u8,
)
    requires
        session.stage == Socks5Stage::Request,
    ensures
        session.received(seq![5u8, 1u8, reserved, kind]) == session.received(
            seq![5u8, 1u8, other, kind],
        ),
{
}

/// A client that does not keep to the protocol is turned away, with the answer that its stage
/// knows, or none, and with the reason.
pub proof fn law_strangers_are_turned_away(session: SessionView, bytes: Seq<u8>)
    requires
        session.stage.awaits() == Some(bytes.len()),
    ensures
        ({
            let (after, step) = session.received(bytes);
            let none = Seq::<u8>::empty();
            &&& session.stage is Greeting && bytes[0] != 5 ==> step == (StepView {
                send: none,
                action: ActionView::Close {
                    error: Socks5Error::UnsupportedVersion { version: bytes[0] },
                },
            })
            &&& session.stage is Methods && session.auth.username.len() > 0 && !bytes.contains(2)
                ==> step == (StepView {
                send: seq![5u8, 255u8],
                action: ActionView::Close { error: Socks5Error::NoAcceptableMethod },
            })
            &&& session.stage is AuthVersion && bytes[0] != 1 ==> step == (StepView {
                send: none,
                action: ActionView::Close {
                    error: Socks5Error::UnsupportedAuthVersion { version: bytes[0] },
                },
            })
            &&& session.stage is Password && session.auth.username.len() > 0 && (session.username
                != vstd::utf8::encode_utf8(session.auth.username) || vstd::utf8::valid_utf8(bytes)
                && bytes != vstd::utf8::encode_utf8(session.auth.password)) ==> step == (StepView {
                send: seq![1u8, 1u8],
                action: ActionView::Close { error: Socks5Error::AuthFailed },
            })
            &&& session.stage is Request && bytes[0] != 5 ==> step == (StepView {
                send: none,
                action: ActionView::Close {
                    error: Socks5Error::InvalidRequestVersion { version: bytes[0] },
                },
            })
            &&& session.stage is Request && bytes[0] == 5 && bytes[1] != 1 ==> step == (StepView {
                send: reply(1),
                action: ActionView::Close {
                    error: Socks5Error::UnsupportedCommand { command: bytes[1] },
                },
            })
            &&& session.stage is Request && bytes[0] == 5 && bytes[1] == 1 && bytes[3] != 1
                && bytes[3] != 3 ==> step == (StepView {
                send: reply(1),
                action: ActionView::Close {
                    error: Socks5Error::UnsupportedAddressType { kind: bytes[3] },
                },
            })
            &&& session.stage is Domain && !vstd::utf8::valid_utf8(bytes) ==> step == (StepView {
                send: none,
                action: ActionView::Close { error: Socks5Error::InvalidDomain },
            })
            &&& step.action is Close ==> after.stage is Closed
        }),
{
    crate::law_right_credentials_pass(session.auth, session.username, bytes);
}

/// The destination is taken as it was sent: a domain as the text that its bytes encode, also where
/// it looks like an address, and an IPv4 address as its text. Only the port is read after it.
pub proof fn law_destination_is_taken_as_sent(
    session: SessionView,
    domain: Seq<char>,
    octets: Seq<u8>,
    high: u8,
    low: u8,
)
    requires
        octets.len() == 4,
    ensures
        ({
            let named = (SessionView {
                stage: Socks5Stage::Domain {
                    count: vstd::utf8::encode_utf8(domain).len() as usize,
                },
                ..session
            }).received(vstd::utf8::encode_utf8(domain));
            let numbered = (SessionView { stage: Socks5Stage::Ipv4Address, ..session }).received(
                octets,
            );
            let ported = (SessionView { stage: Socks5Stage::Port, ..session }).received(
                seq![high, low],
            );
            let read = StepView { send: Seq::empty(), action: ActionView::Read { count: 2 } };
            &&& named == (
                SessionView { dest_addr: domain, stage: Socks5Stage::Port, ..session },
                read,
            )
            &&& numbered == (
                SessionView {
                    dest_addr: ipv4::ipv4_text(octets),
                    stage: Socks5Stage::Port,
                    ..session
                },
                read,
            )
            &&& ported.0.dest_addr == session.dest_addr
            &&& ported.0.dest_port == high * 256 + low
            &&& ported.0.local_port == session.local_port
            &&& ported.1 == (StepView { send: Seq::empty(), action: ActionView::Route })
        }),
{
    text::law_utf8_reads_back(domain);
}

/// A client that offers to give name and password, or need not, is asked for what comes next.
pub proof fn law_method_is_chosen_by_need(session: SessionView, methods: Seq<u8>)
    requires
        session.stage == (Socks5Stage::Methods { count: methods.len() as usize }),
    ensures
        ({
            let (after, step) = session.received(methods);
            &&& session.auth.username.len() == 0 ==> step.send == seq![5u8, 0u8] && step.action
                == (ActionView::Read { count: 4 }) && after == (SessionView {
                stage: Socks5Stage::Request,
                ..session
            })
            &&& session.auth.username.len() > 0 && methods.contains(2) ==> step.send == seq![
                5u8,
                2u8,
            ] && step.action == (ActionView::Read { count: 1 }) && after == (SessionView {
                stage: Socks5Stage::AuthVersion,
                ..session
            })
        }),
{
}

/// Routing goes by the destination and the own port alone. A destination on the bypass list is
/// connected to as host and port; any other by the address that the port which the client came in
/// on hands out, and by no other; where it hands out none, the client is told so.
pub proof fn law_route_goes_by_the_own_port(
    session: SessionView,
    bypass: Set<Seq<char>>,
    pool: pool::PoolView,
    other: pool::PoolView,
)
    ensures
        ({
            let (after, step) = session.routed(bypass, pool);
            let none = Seq::<u8>::empty();
            &&& bypass.contains(session.dest_addr) ==> {
                &&& after == (SessionView { stage: Socks5Stage::Direct, ..session })
                &&& step.send == none
                &&& step.action == (ActionView::Connect {
                    address: text::with_port(session.dest_addr, session.dest_port),
                })
            }
            &&& !bypass.contains(session.dest_addr) ==> match pool.address(session.local_port) {
                Some(address) => {
                    &&& after == (SessionView { stage: Socks5Stage::Upstream, ..session })
                    &&& step.send == none
                    &&& step.action == (ActionView::Connect { address })
                },
                None => {
                    &&& after == (SessionView { stage: Socks5Stage::Closed, ..session })
                    &&& step.send == reply(4)
                    &&& step.action == (ActionView::Close {
                        error: Socks5Error::NoProxy { port: session.local_port },
                    })
                },
            }
            &&& session.goes_upstream(bypass, pool) <==> after.stage is Upstream
            &&& other.address(session.local_port) == pool.address(session.local_port)
                ==> session.routed(bypass, other) == (after, step)
        }),
{
}

/// What ends a session after its request is told apart, and nothing that the client said changes
/// on the way.
pub proof fn law_failures_are_told_apart(session: SessionView, ok: bool)
    ensures
        ({
            let (after, step) = session.connected(ok);
            &&& session.stage is Direct ==> {
                &&& ok ==> after == (SessionView { stage: Socks5Stage::Relaying, ..session })
                    && step == (StepView { send: reply(0), action: ActionView::Relay })
                &&& !ok ==> after == (SessionView { stage: Socks5Stage::Closed, ..session })
                    && step == (StepView {
                    send: reply(4),
                    action: ActionView::Close { error: Socks5Error::DirectConnectFailed },
                })
            }
            &&& session.stage is Upstream ==> {
                &&& ok ==> after == (SessionView { stage: Socks5Stage::Handshaking, ..session })
                    && step == (StepView { send: Seq::empty(), action: ActionView::Handshake })
                &&& !ok ==> after == (SessionView { stage: Socks5Stage::Closed, ..session })
                    && step == (StepView {
                    send: reply(4),
                    action: ActionView::Close { error: Socks5Error::UpstreamConnectFailed },
                })
            }
        }),
        ({
            let (after, step) = session.handshaken(ok);
            &&& ok ==> after == (SessionView { stage: Socks5Stage::Relaying, ..session }) && step
                == (StepView { send: reply(0), action: ActionView::Relay })
            &&& !ok ==> after == (SessionView { stage: Socks5Stage::Closed, ..session }) && step
                == (StepView {
                send: reply(4),
                action: ActionView::Close { error: Socks5Error::UpstreamHandshakeFailed },
            })
        }),
{
}

} // verus!
