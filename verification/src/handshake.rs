//! The client side of SOCKS5: how an upstream proxy is asked to connect.

use crate::ipv4;
use crate::socks5::{
    SOCKS5_ATYP_DOMAIN, SOCKS5_ATYP_IPV4, SOCKS5_CMD_CONNECT, SOCKS5_NO_AUTH, SOCKS5_REP_SUCCESS,
    SOCKS5_USERPASS_AUTH, SOCKS5_VERSION,
};
use vstd::prelude::*;

verus! {

// ---------------------------------------------------------------------------
// What is sent
// ---------------------------------------------------------------------------

/// The greeting, which offers to go without authentication and to give name and password.
pub open spec fn greeting() -> Seq<u8> {
    seq![SOCKS5_VERSION, 2, SOCKS5_NO_AUTH, SOCKS5_USERPASS_AUTH]
}

/// Bytes behind their count. The count is one byte: of a longer text only its lowest eight bits
/// are sent.
pub open spec fn counted(bytes: Seq<u8>) -> Seq<u8> {
    seq![(bytes.len() % 256) as u8] + bytes
}

/// Name and password, as UTF-8.
pub open spec fn auth_request(username: Seq<char>, password: Seq<char>) -> Seq<u8> {
    seq![1u8] + counted(vstd::utf8::encode_utf8(username)) + counted(
        vstd::utf8::encode_utf8(password),
    )
}

/// An address behind the byte that says of which kind it is: IPv4 where it is written so, else a
/// domain.
pub open spec fn address_bytes(addr: Seq<char>) -> Seq<u8> {
    match ipv4::ipv4_of(addr) {
        Some(octets) => seq![SOCKS5_ATYP_IPV4] + octets,
        None => seq![SOCKS5_ATYP_DOMAIN] + counted(vstd::utf8::encode_utf8(addr)),
    }
}

/// A port, higher byte first.
pub open spec fn port_bytes(port: u16) -> Seq<u8> {
    seq![(port / 256) as u8, (port % 256) as u8]
}

/// The request to connect to `addr` and `port`.
pub open spec fn connect_request(addr: Seq<char>, port: u16) -> Seq<u8> {
    seq![SOCKS5_VERSION, SOCKS5_CMD_CONNECT, 0] + address_bytes(addr) + port_bytes(port)
}

/// Adds a text to `out`, as UTF-8 and behind its count.
fn push_counted(out: &mut Vec<u8>, s: &str)
    ensures
        final(out)@ == old(out)@ + counted(vstd::utf8::encode_utf8(s@)),
{
    let mut bytes = vstd::slice::slice_to_vec(s.as_bytes());
    let ghost sent = bytes@;
    out.push((bytes.len() % 256) as u8);
    out.append(&mut bytes);
    assert(out@ =~= old(out)@ + counted(sent));
}

/// What [`auth_request`] says.
fn build_auth_request(username: &str, password: &str) -> (r: Vec<u8>)
    ensures
        r@ == auth_request(username@, password@),
{
    let mut out: Vec<u8> = vec![1];
    push_counted(&mut out, username);
    push_counted(&mut out, password);
    assert(out@ =~= auth_request(username@, password@));
    out
}

/// What [`connect_request`] says.
fn build_connect_request(addr: &str, port: u16) -> (r: Vec<u8>)
    ensures
        r@ == connect_request(addr@, port),
{
    let mut out: Vec<u8> = vec![SOCKS5_VERSION, SOCKS5_CMD_CONNECT, 0];
    match ipv4::parse_ipv4(addr) {
        Some(octets) => {
            out.push(SOCKS5_ATYP_IPV4);
            out.push(octets[0]);
            out.push(octets[1]);
            out.push(octets[2]);
            out.push(octets[3]);
        },
        None => {
            out.push(SOCKS5_ATYP_DOMAIN);
            push_counted(&mut out, addr);
        },
    }
    assert(out@ =~= seq![SOCKS5_VERSION, SOCKS5_CMD_CONNECT, 0] + address_bytes(addr@));
    out.push((port / 256) as u8);
    out.push((port % 256) as u8);
    assert(out@ =~= connect_request(addr@, port));
    out
}

// ---------------------------------------------------------------------------
// The exchange
// ---------------------------------------------------------------------------

/// Why an upstream proxy did not connect.
#[derive(Clone, Copy, Debug, PartialEq, Eq, Structural)]
pub enum HandshakeError {
    /// It does not speak SOCKS5.
    VersionMismatch,
    /// It wants name and password, and there are none.
    NoCredentials,
    /// It did not take name and password.
    AuthRejected { status: u8 },
    /// It chose a method that was not offered.
    UnsupportedMethod { method: u8 },
    /// It could not connect.
    ConnectFailed { reply: u8 },
    /// It answered with an address of an unknown kind.
    UnsupportedBoundAddress,
}

/// What the next bytes from the upstream proxy are.
#[derive(Clone, Copy, Debug, PartialEq, Eq, Structural)]
pub enum HandshakeStage {
    /// The method that it chose.
    Method,
    /// Its answer to name and password.
    Auth,
    /// The start of its answer to the request.
    Connect,
    /// The count of a domain.
    BoundLength,
    /// The address that the answer ends with, and a port.
    BoundAddress { length: usize },
    /// There are none: the exchange is over.
    Over,
}

/// What to do next.
pub enum HandshakeStep {
    /// Send these bytes, then read that many.
    Exchange { send: Vec<u8>, read: usize },
    /// Nothing: the upstream proxy is connected.
    Established,
    /// Nothing: the upstream proxy is of no use.
    Failed { error: HandshakeError },
}

/// What a [`HandshakeStep`] says.
pub enum HandshakeStepView {
    Exchange { send: Seq<u8>, read: nat },
    Established,
    Failed { error: HandshakeError },
}

impl View for HandshakeStep {
    type V = HandshakeStepView;

    open spec fn view(&self) -> HandshakeStepView {
        match self {
            HandshakeStep::Exchange { send, read } => HandshakeStepView::Exchange {
                send: send@,
                read: *read as nat,
            },
            HandshakeStep::Established => HandshakeStepView::Established,
            HandshakeStep::Failed { error } => HandshakeStepView::Failed { error: *error },
        }
    }
}

/// An exchange with an upstream proxy under way.
pub struct Handshake {
    dest_addr: String,
    dest_port: u16,
    username: String,
    password: String,
    stage: HandshakeStage,
}

/// What is asked of the upstream proxy.
pub struct HandshakeView {
    pub dest_addr: Seq<char>,
    pub dest_port: u16,
    pub username: Seq<char>,
    pub password: Seq<char>,
    pub stage: HandshakeStage,
}

impl View for Handshake {
    type V = HandshakeView;

    closed spec fn view(&self) -> HandshakeView {
        HandshakeView {
            dest_addr: self.dest_addr@,
            dest_port: self.dest_port,
            username: self.username@,
            password: self.password@,
            stage: self.stage,
        }
    }
}

impl HandshakeStage {
    /// How many bytes this stage needs; `None` once the exchange is over.
    pub open spec fn awaits(self) -> Option<nat> {
        match self {
            HandshakeStage::Method => Some(2),
            HandshakeStage::Auth => Some(2),
            HandshakeStage::Connect => Some(4),
            HandshakeStage::BoundLength => Some(1),
            HandshakeStage::BoundAddress { length } => Some(length as nat),
            HandshakeStage::Over => None,
        }
    }
}

impl HandshakeView {
    /// The exchange at its start.
    pub open spec fn started(
        dest_addr: Seq<char>,
        dest_port: u16,
        username: Seq<char>,
        password: Seq<char>,
    ) -> HandshakeView {
        HandshakeView { dest_addr, dest_port, username, password, stage: HandshakeStage::Method }
    }

    /// Goes on to `stage`, sends `send` and reads what that stage needs.
    pub open spec fn exchange(self, stage: HandshakeStage, send: Seq<u8>) -> (
        HandshakeView,
        HandshakeStepView,
    ) {
        (
            HandshakeView { stage, ..self },
            HandshakeStepView::Exchange { send, read: stage.awaits().unwrap() },
        )
    }

    /// Ends the exchange.
    pub open spec fn ended(self, step: HandshakeStepView) -> (HandshakeView, HandshakeStepView) {
        (HandshakeView { stage: HandshakeStage::Over, ..self }, step)
    }

    pub open spec fn failed(self, error: HandshakeError) -> (HandshakeView, HandshakeStepView) {
        self.ended(HandshakeStepView::Failed { error })
    }

    /// Asks the upstream proxy to connect.
    pub open spec fn request(self) -> (HandshakeView, HandshakeStepView) {
        self.exchange(HandshakeStage::Connect, connect_request(self.dest_addr, self.dest_port))
    }

    /// What is done when the bytes that the stage needs have come.
    pub open spec fn next(self, bytes: Seq<u8>) -> (HandshakeView, HandshakeStepView) {
        match self.stage {
            HandshakeStage::Method => if bytes[0] != SOCKS5_VERSION {
                self.failed(HandshakeError::VersionMismatch)
            } else if bytes[1] == SOCKS5_NO_AUTH {
                self.request()
            } else if bytes[1] != SOCKS5_USERPASS_AUTH {
                self.failed(HandshakeError::UnsupportedMethod { method: bytes[1] })
            } else if self.username.len() == 0 {
                self.failed(HandshakeError::NoCredentials)
            } else {
                self.exchange(HandshakeStage::Auth, auth_request(self.username, self.password))
            },
            HandshakeStage::Auth => if bytes == seq![1u8, 0u8] {
                self.request()
            } else {
                self.failed(HandshakeError::AuthRejected { status: bytes[1] })
            },
            HandshakeStage::Connect => if bytes[1] != SOCKS5_REP_SUCCESS {
                self.failed(HandshakeError::ConnectFailed { reply: bytes[1] })
            } else if bytes[3] == SOCKS5_ATYP_IPV4 {
                self.exchange(HandshakeStage::BoundAddress { length: 6 }, Seq::empty())
            } else if bytes[3] == SOCKS5_ATYP_DOMAIN {
                self.exchange(HandshakeStage::BoundLength, Seq::empty())
            } else {
                self.failed(HandshakeError::UnsupportedBoundAddress)
            },
            HandshakeStage::BoundLength => self.exchange(
                HandshakeStage::BoundAddress { length: (bytes[0] + 2) as usize },
                Seq::empty(),
            ),
            HandshakeStage::BoundAddress { .. } => self.ended(HandshakeStepView::Established),
            HandshakeStage::Over => arbitrary(),
        }
    }
}

impl Handshake {
    /// Starts to ask an upstream proxy to connect to `dest_addr` and `dest_port`.
    pub fn start(dest_addr: &str, dest_port: u16, username: &str, password: &str) -> (r: (
        Handshake,
        HandshakeStep,
    ))
        ensures
            r.0@ == HandshakeView::started(dest_addr@, dest_port, username@, password@),
            r.1@ == (HandshakeStepView::Exchange { send: greeting(), read: 2 }),
    {
        let send: Vec<u8> = vec![SOCKS5_VERSION, 2, SOCKS5_NO_AUTH, SOCKS5_USERPASS_AUTH];
        assert(send@ =~= greeting());
        (
            Handshake {
                dest_addr: dest_addr.to_owned(),
                dest_port,
                username: username.to_owned(),
                password: password.to_owned(),
                stage: HandshakeStage::Method,
            },
            HandshakeStep::Exchange { send, read: 2 },
        )
    }

    /// Ends the exchange for want of use.
    fn fail(&mut self, error: HandshakeError) -> (r: HandshakeStep)
        ensures
            (final(self)@, r@) == old(self)@.failed(error),
    {
        self.stage = HandshakeStage::Over;
        HandshakeStep::Failed { error }
    }

    /// Asks the upstream proxy to connect.
    fn request(&mut self) -> (r: HandshakeStep)
        ensures
            (final(self)@, r@) == old(self)@.request(),
    {
        self.stage = HandshakeStage::Connect;
        let send = build_connect_request(self.dest_addr.as_str(), self.dest_port);
        HandshakeStep::Exchange { send, read: 4 }
    }

    /// Reads on, without sending anything.
    fn read_on(&mut self, stage: HandshakeStage, read: usize) -> (r: HandshakeStep)
        requires
            stage.awaits() == Some(read as nat),
        ensures
            (final(self)@, r@) == old(self)@.exchange(stage, Seq::empty()),
    {
        self.stage = stage;
        let send: Vec<u8> = Vec::new();
        assert(send@ =~= Seq::empty());
        HandshakeStep::Exchange { send, read }
    }

    /// Takes the bytes that were read, as many as the step before said.
    pub fn next(&mut self, bytes: &Vec<u8>) -> (r: HandshakeStep)
        requires
            old(self)@.stage.awaits() == Some(bytes@.len()),
        ensures
            (final(self)@, r@) == old(self)@.next(bytes@),
    {
        match self.stage {
            HandshakeStage::Method => {
                if bytes[0] != SOCKS5_VERSION {
                    self.fail(HandshakeError::VersionMismatch)
                } else if bytes[1] == SOCKS5_USERPASS_AUTH {
                    if self.username.as_str().is_empty() {
                        self.fail(HandshakeError::NoCredentials)
                    } else {
                        self.stage = HandshakeStage::Auth;
                        let send = build_auth_request(
                            self.username.as_str(),
                            self.password.as_str(),
                        );
                        HandshakeStep::Exchange { send, read: 2 }
                    }
                } else if bytes[1] != SOCKS5_NO_AUTH {
                    self.fail(HandshakeError::UnsupportedMethod { method: bytes[1] })
                } else {
                    self.request()
                }
            },
            HandshakeStage::Auth => {
                assert(bytes@ =~= seq![bytes@[0], bytes@[1]]);
                if bytes[0] != 1 || bytes[1] != 0 {
                    self.fail(HandshakeError::AuthRejected { status: bytes[1] })
                } else {
                    self.request()
                }
            },
            HandshakeStage::Connect => {
                if bytes[1] != SOCKS5_REP_SUCCESS {
                    self.fail(HandshakeError::ConnectFailed { reply: bytes[1] })
                } else if bytes[3] == SOCKS5_ATYP_IPV4 {
                    self.read_on(HandshakeStage::BoundAddress { length: 6 }, 6)
                } else if bytes[3] == SOCKS5_ATYP_DOMAIN {
                    self.read_on(HandshakeStage::BoundLength, 1)
                } else {
                    self.fail(HandshakeError::UnsupportedBoundAddress)
                }
            },
            HandshakeStage::BoundLength => {
                let length = bytes[0] as usize + 2;
                self.read_on(HandshakeStage::BoundAddress { length }, length)
            },
            _ => {
                self.stage = HandshakeStage::Over;
                HandshakeStep::Established
            },
        }
    }
}

// ---------------------------------------------------------------------------
// The exchange as a whole
// ---------------------------------------------------------------------------

/// How far an exchange has come.
pub struct Outcome {
    /// All that was sent.
    pub sent: Seq<u8>,
    /// The last step: the end of the exchange, or the one for which bytes are lacking.
    pub last: HandshakeStepView,
    /// The bytes that were not read.
    pub unread: Seq<u8>,
}

impl HandshakeView {
    /// What comes of doing `step` and the steps after it, when `replies` is all that the upstream
    /// proxy sends.
    pub open spec fn run(self, step: HandshakeStepView, replies: Seq<u8>) -> Outcome
        decreases replies.len(),
    {
        match step {
            HandshakeStepView::Exchange { send, read } => if 0 < read <= replies.len() {
                let (after, step) = self.next(replies.take(read as int));
                let later = after.run(step, replies.skip(read as int));
                Outcome { sent: send + later.sent, ..later }
            } else {
                Outcome { sent: send, last: step, unread: replies }
            },
            _ => Outcome { sent: Seq::empty(), last: step, unread: replies },
        }
    }

    /// What comes of the exchange from its start.
    pub open spec fn outcome(self, replies: Seq<u8>) -> Outcome {
        self.run(HandshakeStepView::Exchange { send: greeting(), read: 2 }, replies)
    }
}

/// Each step reads as many bytes as the stage that follows it needs, and the exchange is over when
/// a step reads none.
pub proof fn law_handshake_reads_what_it_awaits(h: HandshakeView, bytes: Seq<u8>)
    requires
        h.stage.awaits() == Some(bytes.len()),
    ensures
        h.next(bytes).1 is Exchange <==> h.next(bytes).0.stage.awaits() is Some,
        h.next(bytes).1 matches HandshakeStepView::Exchange { read, .. } ==> h.next(
            bytes,
        ).0.stage.awaits() == Some(read),
{
}

/// Whether `answer` is a whole answer to a request, and grants it.
pub open spec fn is_granted(answer: Seq<u8>) -> bool {
    &&& answer.len() >= 4
    &&& answer[1] == SOCKS5_REP_SUCCESS
    &&& {
        ||| answer[3] == SOCKS5_ATYP_IPV4 && answer.len() == 10
        ||| answer[3] == SOCKS5_ATYP_DOMAIN && answer.len() >= 5 && answer.len() == 7 + answer[4]
    }
}

/// Where the answer to a request grants it, the upstream proxy is connected, and no byte behind
/// the answer is read.
proof fn lemma_granted(h: HandshakeView, answer: Seq<u8>, rest: Seq<u8>)
    requires
        is_granted(answer),
    ensures
        h.request().0.run(h.request().1, answer + rest) == (Outcome {
            sent: connect_request(h.dest_addr, h.dest_port),
            last: HandshakeStepView::Established,
            unread: rest,
        }),
{
    reveal_with_fuel(HandshakeView::run, 5);
    let sent = connect_request(h.dest_addr, h.dest_port);
    let all = answer + rest;
    let (h1, s1) = h.request();
    let head = all.take(4);
    let after_head = all.skip(4);
    assert(head =~= answer.take(4));
    if answer[3] == SOCKS5_ATYP_IPV4 {
        assert(after_head.skip(6) =~= rest);
    } else {
        let after_length = after_head.skip(1);
        assert(after_head.take(1)[0] == answer[4]);
        assert(after_length.skip(answer[4] + 2) =~= rest);
    }
    assert(sent + (Seq::<u8>::empty() + (Seq::<u8>::empty() + Seq::<u8>::empty())) =~= sent);
    assert(sent + (Seq::<u8>::empty() + Seq::<u8>::empty()) =~= sent);
}

/// An upstream proxy that asks for no authentication and grants the request is connected, having
/// been sent the greeting and the request. What it sends after its answer is left to be read.
pub proof fn law_handshake_without_authentication(
    dest_addr: Seq<char>,
    dest_port: u16,
    username: Seq<char>,
    password: Seq<char>,
    answer: Seq<u8>,
    rest: Seq<u8>,
)
    requires
        is_granted(answer),
    ensures
        HandshakeView::started(dest_addr, dest_port, username, password).outcome(
            seq![SOCKS5_VERSION, SOCKS5_NO_AUTH] + answer + rest,
        ) == (Outcome {
            sent: greeting() + connect_request(dest_addr, dest_port),
            last: HandshakeStepView::Established,
            unread: rest,
        }),
{
    let h = HandshakeView::started(dest_addr, dest_port, username, password);
    let replies = seq![SOCKS5_VERSION, SOCKS5_NO_AUTH] + answer + rest;
    assert(replies.skip(2) =~= answer + rest);
    lemma_granted(h, answer, rest);
}

/// An upstream proxy that asks for name and password, takes them and grants the request is
/// connected, having been sent the greeting, name and password, and the request.
pub proof fn law_handshake_with_authentication(
    dest_addr: Seq<char>,
    dest_port: u16,
    username: Seq<char>,
    password: Seq<char>,
    answer: Seq<u8>,
    rest: Seq<u8>,
)
    requires
        is_granted(answer),
        username.len() > 0,
    ensures
        HandshakeView::started(dest_addr, dest_port, username, password).outcome(
            seq![SOCKS5_VERSION, SOCKS5_USERPASS_AUTH] + seq![1u8, 0u8] + answer + rest,
        ) == (Outcome {
            sent: greeting() + auth_request(username, password) + connect_request(
                dest_addr,
                dest_port,
            ),
            last: HandshakeStepView::Established,
            unread: rest,
        }),
{
    reveal_with_fuel(HandshakeView::run, 3);
    let h = HandshakeView::started(dest_addr, dest_port, username, password);
    let replies = seq![SOCKS5_VERSION, SOCKS5_USERPASS_AUTH] + seq![1u8, 0u8] + answer + rest;
    assert(replies.skip(2).take(2) =~= seq![1u8, 0u8]);
    assert(replies.skip(2).skip(2) =~= answer + rest);
    lemma_granted(h, answer, rest);
    let request = connect_request(dest_addr, dest_port);
    assert(greeting() + (auth_request(username, password) + request) =~= greeting()
        + auth_request(username, password) + request);
}

/// An upstream proxy counts as connected only where it speaks SOCKS5, chose to go without
/// authentication or took name and password, and said that the request succeeded.
pub proof fn law_handshake_trusts_only_success(
    dest_addr: Seq<char>,
    dest_port: u16,
    username: Seq<char>,
    password: Seq<char>,
    replies: Seq<u8>,
)
    requires
        HandshakeView::started(dest_addr, dest_port, username, password).outcome(replies).last
            is Established,
    ensures
        replies.len() >= 6,
        replies[0] == SOCKS5_VERSION,
        replies[1] == SOCKS5_NO_AUTH && replies[3] == SOCKS5_REP_SUCCESS || {
            &&& replies[1] == SOCKS5_USERPASS_AUTH
            &&& replies.len() >= 8
            &&& replies[2] == 1 && replies[3] == 0
            &&& replies[5] == SOCKS5_REP_SUCCESS
        },
{
    reveal_with_fuel(HandshakeView::run, 6);
}

/// Name and password are sent only to an upstream proxy that asks for them: whatever it replies
/// otherwise, nothing is sent but the greeting and the request.
pub proof fn law_handshake_keeps_credentials_until_asked(
    dest_addr: Seq<char>,
    dest_port: u16,
    username: Seq<char>,
    password: Seq<char>,
    replies: Seq<u8>,
)
    requires
        replies.len() < 2 || replies[1] != SOCKS5_USERPASS_AUTH,
    ensures
        ({
            let sent = HandshakeView::started(dest_addr, dest_port, username, password).outcome(
                replies,
            ).sent;
            sent == greeting() || sent == greeting() + connect_request(dest_addr, dest_port)
        }),
{
    reveal_with_fuel(HandshakeView::run, 6);
    let request = connect_request(dest_addr, dest_port);
    let none = Seq::<u8>::empty();
    assert(greeting() + none =~= greeting());
    assert(request + none =~= request);
    assert(none + none =~= none);
}

/// The bytes of a request to connect: version 5, command 1 and a zero; 1 and the four octets of
/// an IPv4 address, or 3, a count and the bytes of any other name; the port, higher byte first.
pub proof fn law_connect_request_on_the_wire(addr: Seq<char>, port: u16, octets: Seq<u8>)
    ensures
        ({
            let r = connect_request(addr, port);
            let n = r.len() as int;
            let name = vstd::utf8::encode_utf8(addr);
            let is_ipv4 = exists|o: Seq<u8>| o.len() == 4 && addr == #[trigger] ipv4::ipv4_text(o);
            &&& r[0] == 5 && r[1] == 1 && r[2] == 0
            &&& r[n - 2] * 256 + r[n - 1] == port
            &&& octets.len() == 4 && addr == ipv4::ipv4_text(octets) ==> {
                n == 10 && r[3] == 1 && r.subrange(4, 8) == octets
            }
            &&& !is_ipv4 ==> {
                &&& n == name.len() + 7
                &&& r[3] == 3
                &&& r[4] == name.len() % 256
                &&& r.subrange(5, n - 2) == name
            }
        }),
{
    let r = connect_request(addr, port);
    let n = r.len() as int;
    if octets.len() == 4 && addr == ipv4::ipv4_text(octets) {
        ipv4::law_ipv4_reads_back(octets);
        assert(r.subrange(4, 8) =~= octets);
    }
    match ipv4::ipv4_of(addr) {
        Some(o) => {
            assert(addr == ipv4::ipv4_text(o));
            assert(o.len() == 4);
        },
        None => {
            assert(r.subrange(5, n - 2) =~= vstd::utf8::encode_utf8(addr));
        },
    }
}

/// The bytes that give name and password: 1, then each behind its count. Both are offered, and
/// going without, in a greeting of four bytes.
pub proof fn law_credentials_on_the_wire(username: Seq<char>, password: Seq<char>)
    ensures
        greeting() == seq![5u8, 2u8, 0u8, 2u8],
        ({
            let r = auth_request(username, password);
            let name = vstd::utf8::encode_utf8(username);
            let secret = vstd::utf8::encode_utf8(password);
            let n = name.len() as int;
            &&& r.len() == n + secret.len() + 3
            &&& r[0] == 1
            &&& r[1] == name.len() % 256
            &&& r.subrange(2, n + 2) == name
            &&& r[n + 2] == secret.len() % 256
            &&& r.skip(n + 3) == secret
        }),
{
    let r = auth_request(username, password);
    let name = vstd::utf8::encode_utf8(username);
    let secret = vstd::utf8::encode_utf8(password);
    let n = name.len() as int;
    assert(r.subrange(2, n + 2) =~= name);
    assert(r.skip(n + 3) =~= secret);
}

/// Each way in which an upstream proxy fails to let through is told apart, and ends the exchange
/// there: nothing more is sent and nothing more is read.
pub proof fn law_handshake_fails_for_a_reason(
    dest_addr: Seq<char>,
    dest_port: u16,
    username: Seq<char>,
    password: Seq<char>,
    a: u8,
    b: u8,
    rest: Seq<u8>,
)
    ensures
        ({
            let h = HandshakeView::started(dest_addr, dest_port, username, password);
            let first = h.outcome(seq![a, b] + rest);
            let second = h.outcome(seq![5u8, 2u8] + seq![a, b] + rest);
            &&& a != 5 ==> first == (Outcome {
                sent: greeting(),
                last: HandshakeStepView::Failed { error: HandshakeError::VersionMismatch },
                unread: rest,
            })
            &&& a == 5 && b != 0 && b != 2 ==> first == (Outcome {
                sent: greeting(),
                last: HandshakeStepView::Failed {
                    error: HandshakeError::UnsupportedMethod { method: b },
                },
                unread: rest,
            })
            &&& a == 5 && b == 2 && username.len() == 0 ==> first == (Outcome {
                sent: greeting(),
                last: HandshakeStepView::Failed { error: HandshakeError::NoCredentials },
                unread: rest,
            })
            &&& username.len() > 0 && !(a == 1 && b == 0) ==> second == (Outcome {
                sent: greeting() + auth_request(username, password),
                last: HandshakeStepView::Failed {
                    error: HandshakeError::AuthRejected { status: b },
                },
                unread: rest,
            })
        }),
{
    reveal_with_fuel(HandshakeView::run, 4);
    let none = Seq::<u8>::empty();
    let first = seq![a, b] + rest;
    let second = seq![5u8, 2u8] + seq![a, b] + rest;
    assert(first.take(2) =~= seq![a, b]);
    assert(first.skip(2) =~= rest);
    assert(second.skip(2).take(2) =~= seq![a, b]);
    assert(second.skip(2).skip(2) =~= rest);
    assert(greeting() + none =~= greeting());
    assert(auth_request(username, password) + none =~= auth_request(username, password));
    assert(seq![a, b][0] == a && seq![a, b][1] == b);
    assert(seq![1u8, 0u8][0] == 1 && seq![1u8, 0u8][1] == 0);
}

/// An upstream proxy that does not grant the request, or answers with an address of an unknown
/// kind, is of no use, with or without authentication before.
pub proof fn law_refused_request_is_a_failure(
    dest_addr: Seq<char>,
    dest_port: u16,
    username: Seq<char>,
    password: Seq<char>,
    answer: Seq<u8>,
    rest: Seq<u8>,
)
    requires
        answer.len() == 4,
        answer[1] != 0 || (answer[3] != 1 && answer[3] != 3),
    ensures
        ({
            let h = HandshakeView::started(dest_addr, dest_port, username, password);
            let request = connect_request(dest_addr, dest_port);
            let error = if answer[1] != 0 {
                HandshakeError::ConnectFailed { reply: answer[1] }
            } else {
                HandshakeError::UnsupportedBoundAddress
            };
            &&& h.outcome(seq![5u8, 0u8] + answer + rest) == (Outcome {
                sent: greeting() + request,
                last: HandshakeStepView::Failed { error },
                unread: rest,
            })
            &&& username.len() > 0 ==> h.outcome(
                seq![5u8, 2u8] + seq![1u8, 0u8] + answer + rest,
            ) == (Outcome {
                sent: greeting() + auth_request(username, password) + request,
                last: HandshakeStepView::Failed { error },
                unread: rest,
            })
        }),
{
    reveal_with_fuel(HandshakeView::run, 5);
    let none = Seq::<u8>::empty();
    let request = connect_request(dest_addr, dest_port);
    let credentials = auth_request(username, password);
    let first = seq![5u8, 0u8] + answer + rest;
    let second = seq![5u8, 2u8] + seq![1u8, 0u8] + answer + rest;
    assert(first.take(2) =~= seq![5u8, 0u8]);
    assert(first.skip(2).take(4) =~= answer);
    assert(first.skip(2).skip(4) =~= rest);
    assert(second.take(2) =~= seq![5u8, 2u8]);
    assert(second.skip(2).take(2) =~= seq![1u8, 0u8]);
    assert(second.skip(2).skip(2).take(4) =~= answer);
    assert(second.skip(2).skip(2).skip(4) =~= rest);
    assert(request + none =~= request);
    assert(greeting() + (credentials + request) =~= greeting() + credentials + request);
}

/// A whole answer that grants a request is four bytes, of which the second is zero, an address and
/// a port of two bytes. Where the fourth is 1 the address has four bytes; where it is 3, it is a
/// count and that many bytes. What the other bytes say does not matter.
pub proof fn law_answer_holds_an_address_and_a_port(
    version: u8,
    reserved: u8,
    kind: u8,
    address: Seq<u8>,
    port: Seq<u8>,
)
    requires
        port.len() == 2,
    ensures
        ({
            let answer = seq![version, 0u8, reserved, kind] + address + port;
            is_granted(answer) <==> {
                ||| kind == 1 && address.len() == 4
                ||| kind == 3 && address.len() > 0 && address.len() == 1 + address[0]
            }
        }),
        is_granted(seq![version, 0u8, reserved, 3u8] + seq![0u8] + port),
{
    let answer = seq![version, 0u8, reserved, kind] + address + port;
    assert(answer.len() == 6 + address.len());
    assert(answer[1] == 0 && answer[3] == kind);
    if address.len() > 0 {
        assert(answer[4] == address[0]);
    }
    let short = seq![version, 0u8, reserved, 3u8] + seq![0u8] + port;
    assert(short.len() == 7 && short[1] == 0 && short[3] == 3 && short[4] == 0);
}

} // verus!
