//! The HTTP proxy: tunnels (`CONNECT`) and plain requests.
//!
//! A session is driven from outside: each step says what to send to the client and what to do
//! after that, and the method that takes the outcome gives the step after it.

use crate::bypass::BypassList;
use crate::handshake::{Handshake, HandshakeStep};
use crate::handshake;
use crate::pool::IpPool;
use crate::pool;
use crate::text;
use std::time::Instant;
use vstd::prelude::*;

verus! {

/// Why a session was closed.
#[derive(Clone, Copy, Debug, PartialEq, Eq, Structural)]
pub enum HttpError {
    /// The request line is empty.
    EmptyRequestLine,
    /// The request line does not name a method and a target.
    MalformedRequestLine,
    /// The destination could not be reached directly.
    DirectConnectFailed,
    /// The port has no upstream proxy that can be used.
    NoProxy { port: u16 },
    /// The upstream proxy could not be reached.
    UpstreamConnectFailed,
    /// The upstream proxy did not connect.
    UpstreamHandshakeFailed,
}

// ---------------------------------------------------------------------------
// Targets
// ---------------------------------------------------------------------------

/// The host and the port in a target, without its scheme and without what follows the first
/// slash. The port stands behind the last colon; `default_port` stands in for one that is not
/// there or is no port.
pub open spec fn host_port(target: Seq<char>, default_port: u16) -> (Seq<char>, u16) {
    let bare = text::strip_all(text::strip_all(target, "http://"@), "https://"@);
    let authority = text::before_char(bare, '/');
    let colon = text::last_of(authority, ':');
    if colon < 0 {
        (authority, default_port)
    } else {
        (
            authority.take(colon),
            match text::unsigned_value(authority.skip(colon + 1), u16::MAX as nat) {
                Some(port) => port as u16,
                None => default_port,
            },
        )
    }
}

/// The host and the port in `s`. It always succeeds.
pub fn parse_host_port(s: &str, default_port: u16) -> (r: Result<(String, u16), HttpError>)
    ensures
        r matches Ok(parts) && (parts.0@, parts.1) == host_port(s@, default_port),
{
    let v = text::chars_of(s);
    let from = text::skip_all(&v, 0, &text::chars_of("http://"));
    let from = text::skip_all(&v, from, &text::chars_of("https://"));
    let to = text::index_of(&v, from, '/');
    let ghost bare = v@.skip(from as int);
    let ghost authority = v@.subrange(from as int, to as int);
    proof {
        assert(v@.skip(0) =~= v@);
        assert(bare.take(to - from) =~= authority);
    }
    match text::last_index_of(&v, from, to, ':') {
        Some(colon) => {
            proof {
                assert(authority.take(colon - from) =~= v@.subrange(from as int, colon as int));
                assert(authority.skip(colon + 1 - from) =~= v@.subrange(colon + 1, to as int));
            }
            let port = match text::parse_unsigned(&v, colon + 1, to, u16::MAX as u64) {
                Some(port) => port as u16,
                None => default_port,
            };
            Ok((text::slice_text(s, from, colon), port))
        },
        None => Ok((text::slice_text(s, from, to), default_port)),
    }
}

/// The path in a target: from the first slash after `//` on, or a slash alone where none follows.
/// A target without `//` is a path already.
pub open spec fn path_of(target: Seq<char>) -> Seq<char> {
    match text::find(target, "//"@) {
        Some(at) => {
            let rest = target.skip((at + 2) as int);
            let slash = text::first_of(rest, '/') as int;
            if slash < rest.len() {
                rest.skip(slash)
            } else {
                "/"@
            }
        },
        None => target,
    }
}

/// The path in a target.
fn request_path(target: &str) -> (r: String)
    ensures
        r@ == path_of(target@),
{
    let v = text::chars_of(target);
    let double = text::chars_of("//");
    match text::find_text(&v, &double) {
        Some(at) => {
            proof {
                reveal_strlit("//");
                text::lemma_find_fits(v@, "//"@);
                assert(at + 2 <= v.len());
            }
            let slash = text::index_of(&v, at + 2, '/');
            assert(v@.skip(at + 2).skip(slash - at - 2) =~= target@.subrange(
                slash as int,
                v@.len() as int,
            ));
            if slash < v.len() {
                text::slice_text(target, slash, v.len())
            } else {
                "/".to_owned()
            }
        },
        None => target.to_owned(),
    }
}

// ---------------------------------------------------------------------------
// Requests
// ---------------------------------------------------------------------------

/// Lines one after the other.
pub open spec fn joined(lines: Seq<Seq<char>>) -> Seq<char>
    decreases lines.len(),
{
    if lines.len() == 0 {
        Seq::empty()
    } else {
        joined(lines.drop_last()) + lines.last()
    }
}

/// A plain request as it is passed on: with the path in place of the target, and with the header
/// lines as they came.
pub open spec fn request_text(
    method: Seq<char>,
    target: Seq<char>,
    headers: Seq<Seq<char>>,
) -> Seq<char> {
    method + " "@ + path_of(target) + " HTTP/1.1\r\n"@ + joined(headers) + "\r\n"@
}

/// What [`request_text`] says.
fn build_request(method: &str, target: &str, headers: &Vec<String>) -> (r: String)
    ensures
        r@ == request_text(method@, target@, text::texts(headers@)),
{
    let mut out = method.to_owned();
    out.append(" ");
    out.append(request_path(target).as_str());
    out.append(" HTTP/1.1\r\n");
    let ghost head = out@;
    let ghost lines = text::texts(headers@);
    let mut i: usize = 0;
    assert(head + joined(lines.take(0)) =~= head);
    while i < headers.len()
        invariant
            i <= headers@.len(),
            lines == text::texts(headers@),
            out@ == head + joined(lines.take(i as int)),
        decreases headers@.len() - i,
    {
        out.append(headers[i].as_str());
        proof {
            let next = lines.take(i + 1);
            assert(next.drop_last() =~= lines.take(i as int));
            assert(next.last() == headers@[i as int]@);
            assert(out@ =~= head + joined(next));
        }
        i = i + 1;
    }
    assert(lines.take(headers@.len() as int) =~= lines);
    out.append("\r\n");
    out
}

/// A line without the line breaks at its end.
pub open spec fn unbroken(line: Seq<char>) -> Seq<char> {
    text::strip_all_end(line, "\r\n"@)
}

/// The length of the body after a header line, when it was `before` until then: the line may
/// state it. What is stated but is no length counts as none.
pub open spec fn content_length(line: Seq<char>, before: usize) -> usize {
    let name = "Content-Length:"@;
    if name.is_prefix_of(line) {
        match text::unsigned_value(text::trim(line.skip(name.len() as int)), usize::MAX as nat) {
            Some(length) => length as usize,
            None => 0,
        }
    } else {
        before
    }
}

/// What [`content_length`] says.
fn stated_length(line: &str, before: usize) -> (r: usize)
    ensures
        r == content_length(line@, before),
{
    let v = text::chars_of(line);
    let name = text::chars_of("Content-Length:");
    assert(v@.skip(0) =~= v@);
    if !text::starts_at(&v, 0, &name) {
        return before;
    }
    let value = text::slice_text(line, name.len(), v.len());
    assert(value@ =~= v@.skip(name@.len() as int));
    let digits = text::chars_of(text::trimmed(value.as_str()).as_str());
    assert(digits@.subrange(0, digits@.len() as int) =~= digits@);
    match text::parse_unsigned(&digits, 0, digits.len(), usize::MAX as u64) {
        Some(length) => length as usize,
        None => 0,
    }
}

// ---------------------------------------------------------------------------
// Steps
// ---------------------------------------------------------------------------

/// What to do once the bytes of a step have been sent.
pub enum HttpAction {
    /// Read a line from the client, with its line break; an empty one where there is no more.
    ReadLine,
    /// Read that many bytes from the client.
    ReadBody { count: usize },
    /// Decide on the way to the destination.
    Route,
    /// Connect to this address.
    Connect { address: String },
    /// Ask the upstream proxy to connect to the destination.
    Handshake,
    /// Pass all bytes on, both ways.
    Relay,
    /// Send the request on, then pass on to the client all that comes back.
    Forward { request: Vec<u8> },
    /// Mark the upstream proxy of `port` as unavailable, then close the connection.
    GiveUp { port: u16, error: HttpError },
    /// Close the connection.
    Close { error: HttpError },
}

/// What to send to the client, and what to do after that.
pub struct HttpStep {
    pub send: Vec<u8>,
    /// Whether the session ends at once where the bytes cannot be sent.
    pub insist: bool,
    pub action: HttpAction,
}

/// What an [`HttpAction`] says.
pub enum ActionView {
    ReadLine,
    ReadBody { count: nat },
    Route,
    Connect { address: Seq<char> },
    Handshake,
    Relay,
    Forward { request: Seq<u8> },
    GiveUp { port: u16, error: HttpError },
    Close { error: HttpError },
}

/// What an [`HttpStep`] says.
pub struct StepView {
    pub send: Seq<u8>,
    pub insist: bool,
    pub action: ActionView,
}

impl View for HttpAction {
    type V = ActionView;

    open spec fn view(&self) -> ActionView {
        match self {
            HttpAction::ReadLine => ActionView::ReadLine,
            HttpAction::ReadBody { count } => ActionView::ReadBody { count: *count as nat },
            HttpAction::Route => ActionView::Route,
            HttpAction::Connect { address } => ActionView::Connect { address: address@ },
            HttpAction::Handshake => ActionView::Handshake,
            HttpAction::Relay => ActionView::Relay,
            HttpAction::Forward { request } => ActionView::Forward { request: request@ },
            HttpAction::GiveUp { port, error } => ActionView::GiveUp {
                port: *port,
                error: *error,
            },
            HttpAction::Close { error } => ActionView::Close { error: *error },
        }
    }
}

impl View for HttpStep {
    type V = StepView;

    open spec fn view(&self) -> StepView {
        StepView { send: self.send@, insist: self.insist, action: self.action@ }
    }
}

/// What a session waits for.
#[derive(Clone, Copy, Debug, PartialEq, Eq, Structural)]
pub enum HttpStage {
    /// The request line.
    RequestLine,
    /// A header line, or the end of the headers.
    Headers,
    /// The body.
    Body,
    /// The way to the destination.
    Routing,
    /// The connection to the destination.
    Direct,
    /// The connection to the upstream proxy.
    Upstream,
    /// The end of the exchange with the upstream proxy.
    Handshaking,
    /// Nothing: bytes are passed on, or the session is closed.
    Over,
}

// ---------------------------------------------------------------------------
// Sessions
// ---------------------------------------------------------------------------

/// The answer where the destination cannot be reached.
pub open spec fn bad_gateway() -> Seq<u8> {
    vstd::utf8::encode_utf8("HTTP/1.1 502 Bad Gateway\r\n\r\n"@)
}

/// The answer where a tunnel stands.
pub open spec fn connection_established() -> Seq<u8> {
    vstd::utf8::encode_utf8("HTTP/1.1 200 Connection Established\r\n\r\n"@)
}

/// A client's session beside the SOCKS5 port `socks_port`.
pub struct HttpSession {
    socks_port: u16,
    method: String,
    target: String,
    headers: Vec<String>,
    content_length: usize,
    body: Vec<u8>,
    stage: HttpStage,
}

/// What an [`HttpSession`] knows.
pub struct SessionView {
    /// The port whose upstream proxy is used.
    pub socks_port: u16,
    pub method: Seq<char>,
    pub target: Seq<char>,
    /// The header lines so far, as they came.
    pub headers: Seq<Seq<char>>,
    /// The length of the body, as far as it was stated.
    pub content_length: usize,
    pub body: Seq<u8>,
    pub stage: HttpStage,
}

impl View for HttpSession {
    type V = SessionView;

    closed spec fn view(&self) -> SessionView {
        SessionView {
            socks_port: self.socks_port,
            method: self.method@,
            target: self.target@,
            headers: text::texts(self.headers@),
            content_length: self.content_length,
            body: self.body@,
            stage: self.stage,
        }
    }
}

impl SessionView {
    /// A session in which nothing has been read yet.
    pub open spec fn started(socks_port: u16) -> SessionView {
        SessionView {
            socks_port,
            method: Seq::empty(),
            target: Seq::empty(),
            headers: Seq::empty(),
            content_length: 0,
            body: Seq::empty(),
            stage: HttpStage::RequestLine,
        }
    }

    /// Whether the client asks for a tunnel.
    pub open spec fn tunnel(self) -> bool {
        text::same_ignoring_case(self.method, "CONNECT"@)
    }

    /// The destination: host and port. The default port is that of HTTPS for a tunnel, else that
    /// of HTTP.
    pub open spec fn destination(self) -> (Seq<char>, u16) {
        host_port(
            self.target,
            if self.tunnel() {
                443
            } else {
                80
            },
        )
    }

    /// Sends `send` and goes on with `action`. For a tunnel it does not matter whether the bytes
    /// could be sent.
    pub open spec fn going_on(self, stage: HttpStage, send: Seq<u8>, action: ActionView) -> (
        SessionView,
        StepView,
    ) {
        (SessionView { stage, ..self }, StepView { send, insist: !self.tunnel(), action })
    }

    /// Answers that the destination cannot be reached, and gives up the upstream proxy of the
    /// port.
    pub open spec fn giving_up(self, error: HttpError) -> (SessionView, StepView) {
        self.going_on(
            HttpStage::Over,
            bad_gateway(),
            ActionView::GiveUp { port: self.socks_port, error },
        )
    }

    /// What is done when a line has come from the client. The headers of a request for a tunnel
    /// are read and dropped.
    pub open spec fn received_line(self, line: Seq<char>) -> (SessionView, StepView) {
        let none = Seq::<u8>::empty();
        let bare = unbroken(line);
        let words = text::words(bare);
        if self.stage == HttpStage::RequestLine {
            if bare.len() == 0 {
                let error = HttpError::EmptyRequestLine;
                self.going_on(HttpStage::Over, none, ActionView::Close { error })
            } else if words.len() < 2 {
                let error = HttpError::MalformedRequestLine;
                self.going_on(HttpStage::Over, none, ActionView::Close { error })
            } else {
                (SessionView { method: words[0], target: words[1], ..self }).going_on(
                    HttpStage::Headers,
                    none,
                    ActionView::ReadLine,
                )
            }
        } else if bare.len() > 0 {
            if self.tunnel() {
                self.going_on(HttpStage::Headers, none, ActionView::ReadLine)
            } else {
                (SessionView {
                    headers: self.headers.push(line),
                    content_length: content_length(bare, self.content_length),
                    ..self
                }).going_on(HttpStage::Headers, none, ActionView::ReadLine)
            }
        } else if self.content_length > 0 {
            self.going_on(
                HttpStage::Body,
                none,
                ActionView::ReadBody { count: self.content_length as nat },
            )
        } else {
            self.going_on(HttpStage::Routing, none, ActionView::Route)
        }
    }

    /// What is done when the body has come.
    pub open spec fn received_body(self, body: Seq<u8>) -> (SessionView, StepView) {
        (SessionView { body, ..self }).going_on(
            HttpStage::Routing,
            Seq::empty(),
            ActionView::Route,
        )
    }

    /// What is done once the request is known: a destination that is to be reached directly is
    /// connected to, any other by the upstream proxy of the port.
    pub open spec fn routed(self, bypass: Set<Seq<char>>, pool: pool::PoolView) -> (
        SessionView,
        StepView,
    ) {
        let none = Seq::<u8>::empty();
        let (host, port) = self.destination();
        if bypass.contains(host) {
            let address = text::with_port(host, port);
            self.going_on(HttpStage::Direct, none, ActionView::Connect { address })
        } else {
            match pool.address(self.socks_port) {
                Some(address) => self.going_on(
                    HttpStage::Upstream,
                    none,
                    ActionView::Connect { address },
                ),
                None => {
                    let error = HttpError::NoProxy { port: self.socks_port };
                    self.giving_up(error)
                },
            }
        }
    }

    /// Whether the way to the destination is by the upstream proxy of the port.
    pub open spec fn goes_upstream(self, bypass: Set<Seq<char>>, pool: pool::PoolView) -> bool {
        !bypass.contains(self.destination().0) && pool.address(self.socks_port) is Some
    }

    /// What is done once it has been tried to connect.
    pub open spec fn connected(self, ok: bool) -> (SessionView, StepView) {
        if self.stage == HttpStage::Direct {
            if ok {
                self.passing_on()
            } else {
                let error = HttpError::DirectConnectFailed;
                self.going_on(HttpStage::Over, bad_gateway(), ActionView::Close { error })
            }
        } else {
            if ok {
                self.going_on(HttpStage::Handshaking, Seq::empty(), ActionView::Handshake)
            } else {
                let error = HttpError::UpstreamConnectFailed;
                self.giving_up(error)
            }
        }
    }

    /// What is done once the exchange with the upstream proxy is over.
    pub open spec fn handshaken(self, ok: bool) -> (SessionView, StepView) {
        if ok {
            self.passing_on()
        } else {
            let error = HttpError::UpstreamHandshakeFailed;
            self.going_on(HttpStage::Over, Seq::empty(), ActionView::Close { error })
        }
    }

    /// What is done once the destination is connected: the client of a tunnel is told so, any
    /// other request is sent on.
    pub open spec fn passing_on(self) -> (SessionView, StepView) {
        if self.tunnel() {
            self.going_on(HttpStage::Over, connection_established(), ActionView::Relay)
        } else {
            let request = vstd::utf8::encode_utf8(
                request_text(self.method, self.target, self.headers),
            ) + self.body;
            self.going_on(HttpStage::Over, Seq::empty(), ActionView::Forward { request })
        }
    }
}

/// Serves HTTP beside a SOCKS5 port, with the upstream proxy of that port.
pub struct HttpProxyServer {
    socks_port: u16,
}

impl View for HttpProxyServer {
    type V = u16;

    closed spec fn view(&self) -> u16 {
        self.socks_port
    }
}

impl HttpProxyServer {
    /// A server beside the SOCKS5 port `socks_port`.
    pub fn new(socks_port: u16) -> (r: Self)
        ensures
            r@ == socks_port,
    {
        HttpProxyServer { socks_port }
    }

    /// The session of a new client, and its first step.
    pub fn accept(&self) -> (r: (HttpSession, HttpStep))
        ensures
            r.0@ == SessionView::started(self@),
            (r.0@, r.1@) == r.0@.going_on(
                HttpStage::RequestLine,
                Seq::empty(),
                ActionView::ReadLine,
            ),
    {
        let mut session = HttpSession {
            socks_port: self.socks_port,
            method: "".to_owned(),
            target: "".to_owned(),
            headers: Vec::new(),
            content_length: 0,
            body: Vec::new(),
            stage: HttpStage::RequestLine,
        };
        proof {
            reveal_strlit("");
            assert(session.method@ =~= Seq::empty());
            assert(session.target@ =~= Seq::empty());
            assert(text::texts(session.headers@) =~= Seq::empty());
            assert(session.body@ =~= Seq::empty());
        }
        let step = session.go_on(HttpStage::RequestLine, Vec::new(), HttpAction::ReadLine);
        (session, step)
    }
}

impl HttpSession {
    /// Whether the client asks for a tunnel.
    fn tunnel(&self) -> (r: bool)
        ensures
            r == self@.tunnel(),
    {
        text::eq_ignore_ascii_case(self.method.as_str(), "CONNECT")
    }

    /// The destination: host and port.
    fn destination(&self) -> (r: (String, u16))
        ensures
            (r.0@, r.1) == self@.destination(),
    {
        let default_port: u16 = if self.tunnel() {
            443
        } else {
            80
        };
        match parse_host_port(self.target.as_str(), default_port) {
            Ok(destination) => destination,
            Err(_) => ("".to_owned(), default_port),
        }
    }

    fn go_on(&mut self, stage: HttpStage, send: Vec<u8>, action: HttpAction) -> (r: HttpStep)
        ensures
            (final(self)@, r@) == old(self)@.going_on(stage, send@, action@),
    {
        self.stage = stage;
        HttpStep { send, insist: !self.tunnel(), action }
    }

    /// Goes on without sending anything.
    fn quietly(&mut self, stage: HttpStage, action: HttpAction) -> (r: HttpStep)
        ensures
            (final(self)@, r@) == old(self)@.going_on(stage, Seq::empty(), action@),
    {
        let none: Vec<u8> = Vec::new();
        assert(none@ =~= Seq::empty());
        self.go_on(stage, none, action)
    }

    /// Answers that the destination cannot be reached, and gives up the upstream proxy.
    fn give_up(&mut self, error: HttpError) -> (r: HttpStep)
        ensures
            (final(self)@, r@) == old(self)@.giving_up(error),
    {
        let port = self.socks_port;
        self.go_on(HttpStage::Over, Self::bad_gateway(), HttpAction::GiveUp { port, error })
    }

    /// The answer where the destination cannot be reached.
    fn bad_gateway() -> (r: Vec<u8>)
        ensures
            r@ == bad_gateway(),
    {
        vstd::slice::slice_to_vec("HTTP/1.1 502 Bad Gateway\r\n\r\n".as_bytes())
    }

    /// Takes a line that was read from the client, with its line break.
    pub fn received_line(&mut self, line: String) -> (r: HttpStep)
        requires
            old(self)@.stage == HttpStage::RequestLine || old(self)@.stage == HttpStage::Headers,
        ensures
            (final(self)@, r@) == old(self)@.received_line(line@),
    {
        let bare = text::trimmed_end_matches(line.as_str(), "\r\n");
        let empty = bare.as_str().is_empty();
        if self.stage == HttpStage::RequestLine {
            if empty {
                let error = HttpError::EmptyRequestLine;
                return self.quietly(HttpStage::Over, HttpAction::Close { error });
            }
            let words = text::split_words(bare.as_str());
            if words.len() < 2 {
                let error = HttpError::MalformedRequestLine;
                return self.quietly(HttpStage::Over, HttpAction::Close { error });
            }
            self.method = words[0].clone();
            self.target = words[1].clone();
            self.quietly(HttpStage::Headers, HttpAction::ReadLine)
        } else if !empty {
            if !self.tunnel() {
                self.content_length = stated_length(bare.as_str(), self.content_length);
                self.headers.push(line);
                assert(text::texts(self.headers@) =~= old(self)@.headers.push(line@));
            }
            self.quietly(HttpStage::Headers, HttpAction::ReadLine)
        } else if self.content_length > 0 {
            let count = self.content_length;
            self.quietly(HttpStage::Body, HttpAction::ReadBody { count })
        } else {
            self.quietly(HttpStage::Routing, HttpAction::Route)
        }
    }

    /// Takes the body of the request, of the length that was stated.
    pub fn received_body(&mut self, body: Vec<u8>) -> (r: HttpStep)
        requires
            old(self)@.stage == HttpStage::Body,
            old(self)@.content_length == body@.len(),
        ensures
            (final(self)@, r@) == old(self)@.received_body(body@),
    {
        self.body = body;
        self.quietly(HttpStage::Routing, HttpAction::Route)
    }

    /// Decides on the way to the destination. Where that is the upstream proxy of the port, the
    /// port counts as used from now on.
    pub fn route(&mut self, bypass: &BypassList, pool: &mut IpPool) -> (r: HttpStep)
        requires
            old(self)@.stage == HttpStage::Routing,
        ensures
            (final(self)@, r@) == old(self)@.routed(bypass@, old(pool)@),
            old(self)@.goes_upstream(bypass@, old(pool)@) ==> exists|now: Instant|
                final(pool)@ == old(pool)@.used(
                    old(self)@.socks_port,
                    #[trigger] old(pool)@.entries[old(self)@.socks_port].age(now),
                ),
            !old(self)@.goes_upstream(bypass@, old(pool)@) ==> final(pool)@ == old(pool)@,
    {
        let now = Instant::now();
        let age = pool.age_of(self.socks_port, &now);
        self.route_at(bypass, pool, age)
    }

    /// Decides on the way to the destination, when the entry of the port is `age` nanoseconds
    /// old. Where the way is by the upstream proxy, the port counts as used at that age.
    pub fn route_at(&mut self, bypass: &BypassList, pool: &mut IpPool, age: u128) -> (r: HttpStep)
        requires
            old(self)@.stage == HttpStage::Routing,
        ensures
            (final(self)@, r@) == old(self)@.routed(bypass@, old(pool)@),
            final(pool)@ == if old(self)@.goes_upstream(bypass@, old(pool)@) {
                old(pool)@.used(old(self)@.socks_port, age as nat)
            } else {
                old(pool)@
            },
    {
        let (host, port) = self.destination();
        if bypass.contains(host.as_str()) {
            let address = text::join_port(host.as_str(), port);
            return self.quietly(HttpStage::Direct, HttpAction::Connect { address });
        }
        match pool.get_proxy_address(self.socks_port) {
            Some(address) => {
                pool.mark_used_at(self.socks_port, age);
                self.quietly(HttpStage::Upstream, HttpAction::Connect { address })
            },
            None => {
                let error = HttpError::NoProxy { port: self.socks_port };
                self.give_up(error)
            },
        }
    }

    /// Goes on once it has been tried to connect; `ok` tells whether that succeeded.
    pub fn connected(&mut self, ok: bool) -> (r: HttpStep)
        requires
            old(self)@.stage == HttpStage::Direct || old(self)@.stage == HttpStage::Upstream,
        ensures
            (final(self)@, r@) == old(self)@.connected(ok),
    {
        if self.stage == HttpStage::Direct {
            if ok {
                self.pass_on()
            } else {
                let error = HttpError::DirectConnectFailed;
                self.go_on(HttpStage::Over, Self::bad_gateway(), HttpAction::Close { error })
            }
        } else {
            if ok {
                self.quietly(HttpStage::Handshaking, HttpAction::Handshake)
            } else {
                let error = HttpError::UpstreamConnectFailed;
                self.give_up(error)
            }
        }
    }

    /// The exchange that asks the upstream proxy to connect to the destination, and its first
    /// step.
    pub fn socks5_handshake(&self, pool: &IpPool) -> (r: (Handshake, HandshakeStep))
        ensures
            r.0@ == handshake::HandshakeView::started(
                self@.destination().0,
                self@.destination().1,
                pool@.proxy_username,
                pool@.proxy_password,
            ),
            r.1@ == (handshake::HandshakeStepView::Exchange {
                send: handshake::greeting(),
                read: 2,
            }),
    {
        let (host, port) = self.destination();
        Handshake::start(host.as_str(), port, pool.proxy_username(), pool.proxy_password())
    }

    /// Goes on once the exchange with the upstream proxy is over; `ok` tells whether it connected.
    pub fn handshaken(&mut self, ok: bool) -> (r: HttpStep)
        requires
            old(self)@.stage == HttpStage::Handshaking,
        ensures
            (final(self)@, r@) == old(self)@.handshaken(ok),
    {
        if ok {
            self.pass_on()
        } else {
            let error = HttpError::UpstreamHandshakeFailed;
            self.quietly(HttpStage::Over, HttpAction::Close { error })
        }
    }

    /// Goes on once the destination is connected.
    fn pass_on(&mut self) -> (r: HttpStep)
        ensures
            (final(self)@, r@) == old(self)@.passing_on(),
    {
        if self.tunnel() {
            let send = vstd::slice::slice_to_vec(
                "HTTP/1.1 200 Connection Established\r\n\r\n".as_bytes(),
            );
            self.go_on(HttpStage::Over, send, HttpAction::Relay)
        } else {
            let head = build_request(self.method.as_str(), self.target.as_str(), &self.headers);
            let mut request = vstd::slice::slice_to_vec(head.as_str().as_bytes());
            let mut body = self.body.clone();
            request.append(&mut body);
            self.quietly(HttpStage::Over, HttpAction::Forward { request })
        }
    }
}

// ---------------------------------------------------------------------------
// Laws
// ---------------------------------------------------------------------------

/// A target that does not start with a scheme is left as it is, and a scheme before it does not
/// matter.
proof fn lemma_scheme(bare: Seq<char>, default_port: u16)
    requires
        !"http://"@.is_prefix_of(bare),
        !"https://"@.is_prefix_of(bare),
    ensures
        host_port("http://"@ + bare, default_port) == host_port(bare, default_port),
        host_port("https://"@ + bare, default_port) == host_port(bare, default_port),
        text::strip_all(text::strip_all(bare, "http://"@), "https://"@) == bare,
{
    let http = "http://"@;
    let https = "https://"@;
    reveal_strlit("http://");
    reveal_strlit("https://");
    assert((http + bare).skip(http.len() as int) =~= bare);
    assert((https + bare).skip(https.len() as int) =~= bare);
    assert((http + bare).subrange(0, http.len() as int) =~= http);
    assert((https + bare).subrange(0, https.len() as int) =~= https);
    assert((https + bare)[4] == 's');
    assert(http[4] == ':');
    assert(!http.is_prefix_of(https + bare)) by {
        if http.is_prefix_of(https + bare) {
            assert((https + bare).subrange(0, http.len() as int)[4] == 's');
        }
    }
    reveal_with_fuel(text::strip_all, 2);
}

/// What stands before the first slash of a text holds no slash and no more.
proof fn lemma_before_slash(authority: Seq<char>, rest: Seq<char>)
    requires
        !authority.contains('/'),
        rest.len() == 0 || rest[0] == '/',
    ensures
        text::before_char(authority + rest, '/') == authority,
{
    let s = authority + rest;
    let p = text::equals('/');
    assert forall|j: int| 0 <= j < authority.len() implies !p(#[trigger] s[j]) by {
        assert(authority[j] == s[j]);
        assert(authority.contains(authority[j]));
    }
    text::lemma_first_where(s, p, authority.len() as int);
    assert(s.take(authority.len() as int) =~= authority);
}

/// A text that starts with a scheme has a colon right before its first slash.
proof fn lemma_no_scheme(authority: Seq<char>, rest: Seq<char>)
    requires
        !authority.contains('/'),
        rest.len() == 0 || rest[0] == '/',
        authority.len() == 0 || authority.last() != ':',
    ensures
        !"http://"@.is_prefix_of(authority + rest),
        !"https://"@.is_prefix_of(authority + rest),
{
    let s = authority + rest;
    reveal_strlit("http://");
    reveal_strlit("https://");
    assert forall|j: int| 0 <= j < authority.len() implies #[trigger] s[j] != '/' by {
        assert(authority[j] == s[j]);
        assert(authority.contains(authority[j]));
    }
    if "http://"@.is_prefix_of(s) {
        assert forall|j: int| 0 <= j < 7 implies s[j] == #[trigger] "http://"@[j] by {
            assert(s.subrange(0, 7)[j] == s[j]);
        }
        assert(s[5] == "http://"@[5]);
        assert(s[4] == "http://"@[4] && s[3] == "http://"@[3] && s[2] == "http://"@[2]);
        assert(s[1] == "http://"@[1] && s[0] == "http://"@[0]);
        assert(authority.len() == 5);
    }
    if "https://"@.is_prefix_of(s) {
        assert forall|j: int| 0 <= j < 8 implies s[j] == #[trigger] "https://"@[j] by {
            assert(s.subrange(0, 8)[j] == s[j]);
        }
        assert(s[6] == "https://"@[6]);
        assert(s[5] == "https://"@[5] && s[4] == "https://"@[4] && s[3] == "https://"@[3]);
        assert(s[2] == "https://"@[2] && s[1] == "https://"@[1] && s[0] == "https://"@[0]);
        assert(authority.len() == 6);
    }
}

/// A target that names a host and a port is taken to mean these, with or without a scheme and
/// whatever follows them. The host may hold colons.
pub proof fn law_target_names_host_and_port(
    host: Seq<char>,
    port: u16,
    rest: Seq<char>,
    default_port: u16,
)
    requires
        !host.contains('/'),
        rest.len() == 0 || rest[0] == '/',
    ensures
        host_port(text::with_port(host, port) + rest, default_port) == (host, port),
        host_port("http://"@ + (text::with_port(host, port) + rest), default_port) == (host, port),
        host_port("https://"@ + (text::with_port(host, port) + rest), default_port) == (host, port),
{
    let digits = text::decimal(port as nat);
    let authority = text::with_port(host, port);
    let bare = authority + rest;
    text::lemma_decimal(port as nat);
    text::law_decimal_reads_back(port as nat, u16::MAX as nat);
    assert(authority.last() == digits.last());
    assert(text::is_digit(digits[digits.len() - 1]));
    assert(!authority.contains('/')) by {
        if authority.contains('/') {
            let i = choose|i: int| 0 <= i < authority.len() && authority[i] == '/';
            if i < host.len() {
                assert(host[i] == '/');
            } else if i > host.len() {
                assert(text::is_digit(digits[i - host.len() - 1]));
            }
        }
    }
    lemma_no_scheme(authority, rest);
    lemma_scheme(bare, default_port);
    lemma_before_slash(authority, rest);
    let p = text::equals(':');
    assert forall|j: int| host.len() < j < authority.len() implies !p(#[trigger] authority[j]) by {
        assert(authority[j] == digits[j - host.len() - 1]);
        assert(text::is_digit(digits[j - host.len() - 1]));
    }
    text::lemma_last_where(authority, p, host.len() as int);
    assert(authority.take(host.len() as int) =~= host);
    assert(authority.skip((host.len() + 1) as int) =~= digits);
}

/// A target that names a host alone is taken to mean the default port, with or without a scheme
/// and whatever follows the host.
pub proof fn law_target_without_port_means_the_default(
    host: Seq<char>,
    rest: Seq<char>,
    default_port: u16,
)
    requires
        !host.contains('/'),
        !host.contains(':'),
        rest.len() == 0 || rest[0] == '/',
    ensures
        host_port(host + rest, default_port) == (host, default_port),
        host_port("http://"@ + (host + rest), default_port) == (host, default_port),
        host_port("https://"@ + (host + rest), default_port) == (host, default_port),
{
    if host.len() > 0 {
        assert(host.contains(host.last()));
    }
    lemma_no_scheme(host, rest);
    lemma_scheme(host + rest, default_port);
    lemma_before_slash(host, rest);
    let p = text::equals(':');
    assert forall|j: int| -1 < j < host.len() implies !p(#[trigger] host[j]) by {
        assert(host.contains(host[j]));
    }
    text::lemma_last_where(host, p, -1);
}

/// Where what follows the last colon is no port, the target is taken to mean the default port,
/// with or without a scheme and whatever follows. A target whose colon ends it but for two slashes
/// may be read as a scheme itself: `http:` before `//` names no host.
pub proof fn law_target_with_bad_port_means_the_default(
    host: Seq<char>,
    tail: Seq<char>,
    rest: Seq<char>,
    default_port: u16,
)
    requires
        !host.contains('/'),
        !tail.contains('/'),
        !tail.contains(':'),
        text::unsigned_value(tail, u16::MAX as nat) is None,
        rest.len() == 0 || rest[0] == '/',
        tail.len() == 0 ==> !"http://"@.is_prefix_of(host + seq![':'] + tail + rest)
            && !"https://"@.is_prefix_of(host + seq![':'] + tail + rest),
    ensures
        host_port(host + seq![':'] + tail + rest, default_port) == (host, default_port),
        host_port("http://"@ + (host + seq![':'] + tail + rest), default_port) == (
            host,
            default_port,
        ),
        host_port("https://"@ + (host + seq![':'] + tail + rest), default_port) == (
            host,
            default_port,
        ),
{
    let authority = host + seq![':'] + tail;
    let bare = authority + rest;
    assert(!authority.contains('/')) by {
        if authority.contains('/') {
            let i = choose|i: int| 0 <= i < authority.len() && authority[i] == '/';
            if i < host.len() {
                assert(host[i] == '/');
            } else if i > host.len() {
                assert(tail[i - host.len() - 1] == '/');
            }
        }
    }
    if tail.len() > 0 {
        assert(authority.last() == tail.last());
        assert(tail.contains(tail.last()));
        lemma_no_scheme(authority, rest);
    }
    lemma_scheme(bare, default_port);
    lemma_before_slash(authority, rest);
    let p = text::equals(':');
    assert forall|j: int| host.len() < j < authority.len() implies !p(#[trigger] authority[j]) by {
        assert(authority[j] == tail[j - host.len() - 1]);
        assert(tail.contains(tail[j - host.len() - 1]));
    }
    text::lemma_last_where(authority, p, host.len() as int);
    assert(authority.take(host.len() as int) =~= host);
    assert(authority.skip((host.len() + 1) as int) =~= tail);
}

/// Of a target that is a whole URL, the path is what follows the host: what the server of that
/// host is asked for. Where nothing follows, it is the root.
pub proof fn law_path_follows_the_host(host: Seq<char>, path: Seq<char>)
    requires
        !host.contains('/'),
        path.len() == 0 || path[0] == '/',
    ensures
        path_of("http://"@ + host + path) == if path.len() == 0 {
            "/"@
        } else {
            path
        },
{
    reveal_strlit("http://");
    reveal_strlit("//");
    let target = "http://"@ + host + path;
    assert(target.skip(5).subrange(0, 2) =~= "//"@);
    assert forall|j: int| 0 <= j < 5 implies !"//"@.is_prefix_of(#[trigger] target.skip(j)) by {
        if "//"@.is_prefix_of(target.skip(j)) {
            assert(target.skip(j).subrange(0, 2)[0] == target[j]);
            assert(target[j] == "http://"@[j]);
        }
    }
    text::lemma_find(target, "//"@, 5);
    let rest = target.skip(7);
    assert(rest =~= host + path);
    let p = text::equals('/');
    assert forall|j: int| 0 <= j < host.len() implies !p(#[trigger] rest[j]) by {
        assert(host.contains(host[j]));
    }
    text::lemma_first_where(rest, p, host.len() as int);
    assert(rest.skip(host.len() as int) =~= path);
}

/// A header line that states a length in decimal is taken at its word.
pub proof fn law_stated_length_is_taken(length: usize, before: usize)
    ensures
        content_length("Content-Length:"@ + seq![' '] + text::decimal(length as nat), before)
            == length,
{
    let name = "Content-Length:"@;
    let digits = text::decimal(length as nat);
    let line = name + seq![' '] + digits;
    let value = seq![' '] + digits;
    assert(line.subrange(0, name.len() as int) =~= name);
    assert(line.skip(name.len() as int) =~= value);
    text::lemma_decimal(length as nat);
    text::law_decimal_reads_back(length as nat, usize::MAX as nat);
    let q = |c: char| !text::is_white_space(c);
    assert(text::is_digit(digits[0]));
    assert(text::is_digit(digits[digits.len() - 1]));
    assert(value[1] == digits[0]);
    assert(!q(value[0]));
    assert(q(value[1]));
    text::lemma_first_where(value, q, 1);
    assert(value.skip(1) =~= digits);
    text::lemma_last_where(digits, q, digits.len() - 1);
    assert(digits.take(digits.len() as int) =~= digits);
}

/// A request line made of a method, a target and the version is understood so.
pub proof fn law_request_line_is_understood(
    socks_port: u16,
    method: Seq<char>,
    target: Seq<char>,
)
    requires
        text::is_word(method),
        text::is_word(target),
    ensures
        ({
            let line = method + seq![' '] + target + " HTTP/1.1\r\n"@;
            let (session, step) = SessionView::started(socks_port).received_line(line);
            &&& session.method == method
            &&& session.target == target
            &&& session.stage == HttpStage::Headers
            &&& step.action is ReadLine
        }),
{
    reveal_strlit(" HTTP/1.1\r\n");
    reveal_strlit("\r\n");
    let end = " HTTP/1.1\r\n"@;
    let version = end.subrange(1, 9);
    let line = method + seq![' '] + target + end;
    let bare = line.take(line.len() - 2);
    assert(end.subrange(9, 11) =~= "\r\n"@);
    assert(line.subrange(line.len() - 2, line.len() as int) =~= "\r\n"@);
    assert(bare.last() == end[8]);
    assert(!"\r\n"@.is_suffix_of(bare)) by {
        if "\r\n"@.is_suffix_of(bare) {
            assert(bare.subrange(bare.len() - 2, bare.len() as int)[1] == bare.last());
        }
    }
    reveal_with_fuel(text::strip_all_end, 2);
    assert(unbroken(line) == bare);
    let after_target = seq![' '] + version;
    let after_method = seq![' '] + (target + after_target);
    assert(bare =~= method + after_method);
    text::lemma_first_word(method, after_method);
    text::lemma_space_before_words(' ', target + after_target);
    text::lemma_first_word(target, after_target);
    assert(text::words(bare)[0] == method);
    assert(text::words(bare)[1] == target);
}

impl SessionView {
    /// The session after these lines.
    pub open spec fn after_lines(self, lines: Seq<Seq<char>>) -> SessionView
        decreases lines.len(),
    {
        if lines.len() == 0 {
            self
        } else {
            self.after_lines(lines.drop_last()).received_line(lines.last()).0
        }
    }
}

/// Whether none of the lines is blank: the end of the headers is not among them.
pub open spec fn none_blank(lines: Seq<Seq<char>>) -> bool {
    forall|i: int| 0 <= i < lines.len() ==> unbroken(#[trigger] lines[i]).len() > 0
}

/// The header lines of a plain request are kept as they came, all of them and in order. Those of
/// a request for a tunnel are dropped. Neither method nor target changes on the way.
pub proof fn law_header_lines_are_kept(session: SessionView, lines: Seq<Seq<char>>)
    requires
        session.stage == HttpStage::Headers,
        none_blank(lines),
    ensures
        session.after_lines(lines) == (SessionView {
            headers: if session.tunnel() {
                session.headers
            } else {
                session.headers + lines
            },
            content_length: session.after_lines(lines).content_length,
            ..session
        }),
    decreases lines.len(),
{
    if lines.len() == 0 {
        assert(session.headers + lines =~= session.headers);
    } else {
        let init = lines.drop_last();
        assert forall|i: int| 0 <= i < init.len() implies unbroken(#[trigger] init[i]).len()
            > 0 by {
            assert(init[i] == lines[i]);
        }
        law_header_lines_are_kept(session, init);
        assert(unbroken(lines[lines.len() - 1]).len() > 0);
        assert((session.headers + init).push(lines.last()) =~= session.headers + lines);
    }
}

/// A plain request is passed on with its own method and header lines, and with its body.
pub proof fn law_plain_request_is_passed_on(
    socks_port: u16,
    line: Seq<char>,
    headers: Seq<Seq<char>>,
    blank: Seq<char>,
    body: Seq<u8>,
)
    requires
        text::words(unbroken(line)).len() >= 2,
        !text::same_ignoring_case(text::words(unbroken(line))[0], "CONNECT"@),
        none_blank(headers),
        unbroken(blank).len() == 0,
    ensures
        ({
            let (s1, step1) = SessionView::started(socks_port).received_line(line);
            let (s2, step2) = s1.after_lines(headers).received_line(blank);
            let s3 = if step2.action is ReadBody {
                s2.received_body(body).0
            } else {
                s2
            };
            let sent_body = if step2.action is ReadBody {
                body
            } else {
                Seq::empty()
            };
            let words = text::words(unbroken(line));
            &&& step1.action is ReadLine
            &&& step2.action matches ActionView::ReadBody { count } ==> count == s2.content_length
            &&& step2.action is ReadBody <==> s2.content_length > 0
            &&& s3.stage == HttpStage::Routing
            &&& s3.passing_on().1.action == (ActionView::Forward {
                request: vstd::utf8::encode_utf8(request_text(words[0], words[1], headers))
                    + sent_body,
            })
        }),
{
    let s1 = SessionView::started(socks_port).received_line(line).0;
    assert(unbroken(line).len() > 0) by {
        if unbroken(line).len() == 0 {
            let empty = unbroken(line);
            assert(text::trim_start(empty).len() == 0) by {
                text::lemma_first_where_holds(empty, |c: char| !text::is_white_space(c));
            }
        }
    }
    law_header_lines_are_kept(s1, headers);
    assert(Seq::<Seq<char>>::empty() + headers =~= headers);
}

/// A request that is known gets one answer, whichever way it takes and whatever comes of it. The
/// destination that cannot be reached is answered with a bad gateway, and where it is the upstream
/// proxy that is missing or not reached, the port is given up; an upstream proxy that does not
/// connect ends the session without an answer. For a tunnel the client is told that it stands.
pub proof fn law_known_request_gets_one_answer(
    session: SessionView,
    bypass: Set<Seq<char>>,
    pool: pool::PoolView,
    connects: bool,
    shakes_hands: bool,
)
    requires
        session.stage == HttpStage::Routing,
    ensures
        ({
            let (s1, step1) = session.routed(bypass, pool);
            let (s2, step2) = s1.connected(connects);
            let (s3, step3) = s2.handshaken(shakes_hands);
            let direct = bypass.contains(session.destination().0);
            let upstream = session.goes_upstream(bypass, pool);
            if !direct && !upstream {
                &&& step1.send == bad_gateway()
                &&& step1.action matches ActionView::GiveUp { port, .. }
                &&& port == session.socks_port
            } else {
                &&& step1.send == Seq::<u8>::empty()
                &&& step1.action is Connect
                &&& if !connects {
                    &&& step2.send == bad_gateway()
                    &&& step2.action is GiveUp <==> upstream
                    &&& step2.action matches ActionView::GiveUp { port, .. } ==> port
                        == session.socks_port
                    &&& step2.action is Close <==> direct
                } else if direct {
                    &&& step2.send == session.passing_on().1.send
                    &&& step2.action == session.passing_on().1.action
                } else {
                    &&& step2.send == Seq::<u8>::empty()
                    &&& step2.action is Handshake
                    &&& if shakes_hands {
                        &&& step3.send == session.passing_on().1.send
                        &&& step3.action == session.passing_on().1.action
                    } else {
                        &&& step3.send == Seq::<u8>::empty()
                        &&& step3.action is Close
                    }
                }
            }
        }),
        session.passing_on().1.send == if session.tunnel() {
            connection_established()
        } else {
            Seq::<u8>::empty()
        },
{
}

/// A scheme before a target makes no difference, however often it stands there; after `https`
/// that holds unless `http` follows.
pub proof fn law_scheme_makes_no_difference(target: Seq<char>, default_port: u16)
    ensures
        host_port("http://"@ + target, default_port) == host_port(target, default_port),
        !"http://"@.is_prefix_of(target) ==> host_port("https://"@ + target, default_port)
            == host_port(target, default_port),
{
    let http = "http://"@;
    let https = "https://"@;
    reveal_strlit("http://");
    reveal_strlit("https://");
    text::law_stripping_takes_the_prefix_alone(target, http);
    text::law_stripping_takes_the_prefix_alone(target, https);
    text::law_stripping_takes_the_prefix_alone(https + target, http);
    assert(!http.is_prefix_of(https + target)) by {
        if http.is_prefix_of(https + target) {
            assert((https + target).subrange(0, http.len() as int)[4] == 's');
        }
    }
}

/// The destination of a session is the host and the port that its target names, for a tunnel as
/// for a plain request. Only where the target names no port is it 443 for a tunnel, or else 80.
/// Where the host is on the bypass list, that host and that port are connected to.
pub proof fn law_destination_is_what_the_target_names(
    session: SessionView,
    host: Seq<char>,
    port: u16,
    rest: Seq<char>,
    bypass: Set<Seq<char>>,
    pool: pool::PoolView,
)
    requires
        !host.contains('/'),
        rest.len() == 0 || rest[0] == '/',
    ensures
        ({
            let named = text::with_port(host, port) + rest;
            let bare = host + rest;
            &&& session.target == named || session.target == "http://"@ + named || session.target
                == "https://"@ + named ==> {
                &&& session.destination() == (host, port)
                &&& bypass.contains(host) ==> session.routed(bypass, pool).1.action == (
                ActionView::Connect { address: text::with_port(host, port) })
            }
            &&& !host.contains(':') && (session.target == bare || session.target == "http://"@
                + bare || session.target == "https://"@ + bare) ==> {
                &&& session.tunnel() ==> session.destination() == (host, 443u16)
                &&& !session.tunnel() ==> session.destination() == (host, 80u16)
            }
        }),
{
    law_target_names_host_and_port(host, port, rest, 443);
    law_target_names_host_and_port(host, port, rest, 80);
    if !host.contains(':') {
        law_target_without_port_means_the_default(host, rest, 443);
        law_target_without_port_means_the_default(host, rest, 80);
    }
}

/// A tunnel is asked for by the word CONNECT, in letters of either case, and by no other.
pub proof fn law_connect_asks_for_a_tunnel(session: SessionView)
    ensures
        session.tunnel() <==> session.method.len() == 7 && forall|i: int|
            0 <= i < 7 ==> #[trigger] session.method[i] == seq![
                'C',
                'O',
                'N',
                'N',
                'E',
                'C',
                'T',
            ][i] || session.method[i] == seq!['c', 'o', 'n', 'n', 'e', 'c', 't'][i],
{
    reveal_strlit("CONNECT");
    let m = session.method;
    let word = "CONNECT"@;
    let large = seq!['C', 'O', 'N', 'N', 'E', 'C', 'T'];
    let small = seq!['c', 'o', 'n', 'n', 'e', 'c', 't'];
    assert(word =~= large);
    text::law_case_is_all_that_may_differ(m, word);
    assert forall|i: int| 0 <= i < 7 implies 'A' <= large[i] <= 'Z' && #[trigger] small[i] as int
        == large[i] as int + 32 by {}
    if session.tunnel() {
        assert forall|i: int| 0 <= i < 7 implies #[trigger] m[i] == large[i] || m[i]
            == small[i] by {
            assert(small[i] as int == large[i] as int + 32);
            assert(word[i] == large[i]);
        }
    }
    if m.len() == 7 && forall|i: int|
        0 <= i < 7 ==> #[trigger] m[i] == large[i] || m[i] == small[i] {
        assert forall|i: int| 0 <= i < m.len() implies {
            ||| #[trigger] m[i] == word[i]
            ||| 'A' <= m[i] <= 'Z' && word[i] as int == m[i] as int + 32
            ||| 'A' <= word[i] <= 'Z' && m[i] as int == word[i] as int + 32
        } by {
            assert(small[i] as int == large[i] as int + 32);
        }
    }
}

/// Line breaks at the end of a line go, however many there are; a line that does not end with one
/// stays as it is.
pub proof fn law_line_breaks_are_dropped(line: Seq<char>)
    ensures
        unbroken(line + "\r\n"@) == unbroken(line),
        !"\r\n"@.is_suffix_of(line) ==> unbroken(line) == line,
        unbroken(Seq::<char>::empty()).len() == 0,
{
    reveal_strlit("\r\n");
    text::law_stripping_takes_the_suffix_alone(line, "\r\n"@);
    text::law_stripping_takes_the_suffix_alone(Seq::empty(), "\r\n"@);
}

/// The first two words of the request line are the method and the target; a line without any text
/// is empty, and one with fewer words is malformed. Nothing is sent in any case.
pub proof fn law_request_line_needs_two_words(socks_port: u16, line: Seq<char>)
    ensures
        ({
            let bare = unbroken(line);
            let words = text::words(bare);
            let (after, step) = SessionView::started(socks_port).received_line(line);
            &&& step.send.len() == 0
            &&& bare.len() == 0 ==> step.action == (ActionView::Close {
                error: HttpError::EmptyRequestLine,
            })
            &&& bare.len() > 0 && words.len() < 2 ==> step.action == (ActionView::Close {
                error: HttpError::MalformedRequestLine,
            })
            &&& bare.len() > 0 && words.len() >= 2 ==> {
                &&& step.action is ReadLine
                &&& after.method == words[0]
                &&& after.target == words[1]
                &&& after.socks_port == socks_port
                &&& after.headers.len() == 0
                &&& after.content_length == 0
                &&& after.body.len() == 0
            }
        }),
{
}

/// A header line that does not state a length leaves the length of the body as it was; one that
/// does sets it, white space round the number or not, whatever it was before. What is stated but
/// is no number counts as zero.
pub proof fn law_only_a_stated_length_counts(
    session: SessionView,
    line: Seq<char>,
    before: Seq<char>,
    stated: Seq<char>,
    after: Seq<char>,
)
    requires
        session.stage == HttpStage::Headers,
        !session.tunnel(),
        unbroken(line).len() > 0,
        text::all_white_space(before),
        text::all_white_space(after),
        stated.len() > 0 ==> !text::is_white_space(stated[0]) && !text::is_white_space(
            stated.last(),
        ),
    ensures
        ({
            let length = session.received_line(line).0.content_length;
            &&& !"Content-Length:"@.is_prefix_of(unbroken(line)) ==> length
                == session.content_length
            &&& unbroken(line) == "Content-Length:"@ + (before + stated + after) ==> match
                text::unsigned_value(stated, usize::MAX as nat) {
                Some(n) => length == n,
                None => length == 0,
            }
        }),
{
    let name = "Content-Length:"@;
    let value = before + stated + after;
    text::law_trimming_leaves_the_text(before, stated, after);
    assert((name + value).subrange(0, name.len() as int) =~= name);
    assert((name + value).skip(name.len() as int) =~= value);
}

/// Whether none of the lines states a length.
pub open spec fn none_states_a_length(lines: Seq<Seq<char>>) -> bool {
    forall|i: int|
        0 <= i < lines.len() ==> !"Content-Length:"@.is_prefix_of(unbroken(#[trigger] lines[i]))
}

proof fn lemma_length_stays(session: SessionView, lines: Seq<Seq<char>>)
    requires
        session.stage == HttpStage::Headers,
        none_blank(lines),
        none_states_a_length(lines),
    ensures
        session.after_lines(lines).content_length == session.content_length,
        session.after_lines(lines).stage == HttpStage::Headers,
        session.after_lines(lines).tunnel() == session.tunnel(),
    decreases lines.len(),
{
    law_header_lines_are_kept(session, lines);
    if lines.len() > 0 {
        let init = lines.drop_last();
        assert forall|i: int| 0 <= i < init.len() implies unbroken(#[trigger] init[i]).len() > 0
            && !"Content-Length:"@.is_prefix_of(unbroken(init[i])) by {
            assert(init[i] == lines[i]);
        }
        lemma_length_stays(session, init);
        let last = lines[lines.len() - 1];
        assert(unbroken(last).len() > 0);
        assert(!"Content-Length:"@.is_prefix_of(unbroken(last)));
    }
}

proof fn lemma_lines_in_two_parts(session: SessionView, a: Seq<Seq<char>>, b: Seq<Seq<char>>)
    ensures
        session.after_lines(a + b) == session.after_lines(a).after_lines(b),
    decreases b.len(),
{
    if b.len() == 0 {
        assert(a + b =~= a);
    } else {
        assert((a + b).drop_last() =~= a + b.drop_last());
        assert((a + b).last() == b.last());
        lemma_lines_in_two_parts(session, a, b.drop_last());
    }
}

/// The last header line that states a length decides how much of a body is read, whatever header
/// lines come before and after it.
pub proof fn law_last_stated_length_decides(
    session: SessionView,
    front: Seq<Seq<char>>,
    line: Seq<char>,
    back: Seq<Seq<char>>,
    blank: Seq<char>,
    length: usize,
    before: Seq<char>,
    after: Seq<char>,
)
    requires
        session.stage == HttpStage::Headers,
        !session.tunnel(),
        none_blank(front),
        none_blank(back),
        none_states_a_length(back),
        text::all_white_space(before),
        text::all_white_space(after),
        unbroken(line) == "Content-Length:"@ + (before + text::decimal(length as nat) + after),
        unbroken(blank).len() == 0,
    ensures
        ({
            let step = session.after_lines(front + seq![line] + back).received_line(blank).1;
            &&& length > 0 ==> step.action == (ActionView::ReadBody { count: length as nat })
            &&& length == 0 ==> step.action is Route
        }),
{
    let digits = text::decimal(length as nat);
    let s1 = session.after_lines(front);
    law_header_lines_are_kept(session, front);
    reveal_strlit("Content-Length:");
    assert(unbroken(line).len() > 0);
    text::lemma_decimal(length as nat);
    text::law_decimal_reads_back(length as nat, usize::MAX as nat);
    assert(text::is_digit(digits[0]));
    assert(text::is_digit(digits[digits.len() - 1]));
    law_only_a_stated_length_counts(s1, line, before, digits, after);
    let one = seq![line];
    assert(one.drop_last() =~= Seq::empty());
    assert(one.last() == line);
    assert(s1.after_lines(one.drop_last()) == s1);
    let s2 = s1.after_lines(one);
    assert(s2 == s1.received_line(line).0);
    lemma_lines_in_two_parts(session, front, one);
    lemma_lines_in_two_parts(session, front + one, back);
    lemma_length_stays(s2, back);
}

/// A request for a tunnel is read up to the blank line, whatever its headers say, and then decided
/// on; nothing of them is kept, and no body is read.
pub proof fn law_tunnel_request_is_read(
    socks_port: u16,
    line: Seq<char>,
    headers: Seq<Seq<char>>,
    blank: Seq<char>,
)
    requires
        text::words(unbroken(line)).len() >= 2,
        text::same_ignoring_case(text::words(unbroken(line))[0], "CONNECT"@),
        none_blank(headers),
        unbroken(blank).len() == 0,
    ensures
        ({
            let s1 = SessionView::started(socks_port).received_line(line).0;
            let (s2, step2) = s1.after_lines(headers).received_line(blank);
            &&& step2.action is Route
            &&& step2.send.len() == 0
            &&& s2.stage == HttpStage::Routing
            &&& s2.target == text::words(unbroken(line))[1]
            &&& s2.socks_port == socks_port
            &&& s2.tunnel()
        }),
{
    let s1 = SessionView::started(socks_port).received_line(line).0;
    assert(unbroken(line).len() > 0) by {
        if unbroken(line).len() == 0 {
            let empty = unbroken(line);
            assert(text::trim_start(empty).len() == 0) by {
                text::lemma_first_where_holds(empty, |c: char| !text::is_white_space(c));
            }
        }
    }
    law_header_lines_are_kept(s1, headers);
    lemma_tunnel_has_no_body(s1, headers);
}

proof fn lemma_tunnel_has_no_body(session: SessionView, lines: Seq<Seq<char>>)
    requires
        session.stage == HttpStage::Headers,
        session.tunnel(),
        none_blank(lines),
    ensures
        session.after_lines(lines).content_length == session.content_length,
    decreases lines.len(),
{
    if lines.len() > 0 {
        let init = lines.drop_last();
        assert forall|i: int| 0 <= i < init.len() implies unbroken(#[trigger] init[i]).len()
            > 0 by {
            assert(init[i] == lines[i]);
        }
        lemma_tunnel_has_no_body(session, init);
        law_header_lines_are_kept(session, init);
        assert(unbroken(lines[lines.len() - 1]).len() > 0);
    }
}

/// A request is passed on as its method, its path and the version, its header lines one after the
/// other as they came, and a line break: one more header line stands right before that break, and
/// changes nothing else.
pub proof fn law_request_is_passed_on_line_by_line(
    method: Seq<char>,
    target: Seq<char>,
    headers: Seq<Seq<char>>,
    line: Seq<char>,
)
    ensures
        request_text(method, target, Seq::empty()) == method + seq![' '] + path_of(target) + seq![
            ' ',
            'H',
            'T',
            'T',
            'P',
            '/',
            '1',
            '.',
            '1',
            '\r',
            '\n',
            '\r',
            '\n',
        ],
        ({
            let before = request_text(method, target, headers);
            let after = request_text(method, target, headers.push(line));
            &&& before.len() >= 2
            &&& after == before.take(before.len() - 2) + line + seq!['\r', '\n']
        }),
{
    reveal_strlit(" ");
    reveal_strlit("\r\n");
    reveal_strlit(" HTTP/1.1\r\n");
    let none = Seq::<Seq<char>>::empty();
    assert(request_text(method, target, none) =~= method + seq![' '] + path_of(target) + seq![
        ' ',
        'H',
        'T',
        'T',
        'P',
        '/',
        '1',
        '.',
        '1',
        '\r',
        '\n',
        '\r',
        '\n',
    ]);
    assert(headers.push(line).drop_last() =~= headers);
    let before = request_text(method, target, headers);
    let after = request_text(method, target, headers.push(line));
    let head = method + " "@ + path_of(target) + " HTTP/1.1\r\n"@;
    assert(before.take(before.len() - 2) =~= head + joined(headers));
    assert(after =~= head + joined(headers) + line + seq!['\r', '\n']);
}

/// The path of a target starts at the first slash after its first two slashes in a row; where none
/// follows it is one slash. A target without two slashes in a row is its own path.
pub proof fn law_path_starts_after_the_host(target: Seq<char>, double: int, slash: int)
    ensures
        (forall|i: int|
            0 <= i < target.len() - 1 ==> !(#[trigger] target[i] == '/' && target[i + 1] == '/'))
            ==> path_of(target) == target,
        0 <= double < target.len() - 1 && target[double] == '/' && target[double + 1] == '/' && (
        forall|i: int|
            0 <= i < double ==> !(#[trigger] target[i] == '/' && target[i + 1] == '/')) ==> {
            &&& double + 2 <= slash < target.len() && target[slash] == '/' && (forall|i: int|
                double + 2 <= i < slash ==> #[trigger] target[i] != '/') ==> path_of(target)
                == target.skip(slash)
            &&& (forall|i: int| double + 2 <= i < target.len() ==> #[trigger] target[i] != '/')
                ==> path_of(target) == seq!['/']
        },
{
    reveal_strlit("//");
    reveal_strlit("/");
    let pattern = "//"@;
    let p = text::equals('/');
    assert forall|j: int| 0 <= j <= target.len() && pattern.is_prefix_of(
        #[trigger] target.skip(j),
    ) implies j < target.len() - 1 && target[j] == '/' && target[j + 1] == '/' by {
        let tail = target.skip(j);
        assert(tail.subrange(0, 2)[0] == tail[0]);
        assert(tail.subrange(0, 2)[1] == tail[1]);
        assert(tail[0] == target[j]);
        assert(tail[1] == target[j + 1]);
    }
    if forall|i: int|
        0 <= i < target.len() - 1 ==> !(#[trigger] target[i] == '/' && target[i + 1] == '/') {
        text::lemma_find_none(target, pattern);
    }
    if 0 <= double < target.len() - 1 && target[double] == '/' && target[double + 1] == '/' && (
    forall|i: int| 0 <= i < double ==> !(#[trigger] target[i] == '/' && target[i + 1] == '/')) {
        assert(target.skip(double).subrange(0, 2) =~= pattern);
        text::lemma_find(target, pattern, double);
        let rest = target.skip(double + 2);
        if double + 2 <= slash < target.len() && target[slash] == '/' && (forall|i: int|
            double + 2 <= i < slash ==> #[trigger] target[i] != '/') {
            assert forall|j: int| 0 <= j < slash - double - 2 implies !p(#[trigger] rest[j]) by {
                assert(rest[j] == target[double + 2 + j]);
            }
            assert(rest[slash - double - 2] == target[slash]);
            text::lemma_first_where(rest, p, slash - double - 2);
            assert(rest.skip(slash - double - 2) =~= target.skip(slash));
        }
        if forall|i: int| double + 2 <= i < target.len() ==> #[trigger] target[i] != '/' {
            assert forall|j: int| 0 <= j < rest.len() implies !p(#[trigger] rest[j]) by {
                assert(rest[j] == target[double + 2 + j]);
            }
            text::lemma_first_where(rest, p, rest.len() as int);
            assert("/"@ =~= seq!['/']);
        }
    }
}

/// Routing goes by the destination and the own port alone: a host on the bypass list is connected
/// to as host and port, any other by the address that the port hands out, and by no other; where
/// it hands out none, the request is answered with a bad gateway and the port is given up.
pub proof fn law_route_goes_by_the_own_port(
    session: SessionView,
    bypass: Set<Seq<char>>,
    pool: pool::PoolView,
    other: pool::PoolView,
)
    ensures
        ({
            let (after, step) = session.routed(bypass, pool);
            let (host, port) = session.destination();
            let none = Seq::<u8>::empty();
            &&& step.insist == !session.tunnel()
            &&& bypass.contains(host) ==> {
                &&& after == (SessionView { stage: HttpStage::Direct, ..session })
                &&& step.send == none
                &&& step.action == (ActionView::Connect { address: text::with_port(host, port) })
            }
            &&& !bypass.contains(host) ==> match pool.address(session.socks_port) {
                Some(address) => {
                    &&& after == (SessionView { stage: HttpStage::Upstream, ..session })
                    &&& step.send == none
                    &&& step.action == (ActionView::Connect { address })
                },
                None => {
                    &&& after == (SessionView { stage: HttpStage::Over, ..session })
                    &&& step.send == bad_gateway()
                    &&& step.action == (ActionView::GiveUp {
                        port: session.socks_port,
                        error: HttpError::NoProxy { port: session.socks_port },
                    })
                },
            }
            &&& session.goes_upstream(bypass, pool) <==> after.stage is Upstream
            &&& other.address(session.socks_port) == pool.address(session.socks_port)
                ==> session.routed(bypass, other) == (after, step)
        }),
{
}

/// What ends a session after its request is told apart, and nothing that the client said changes
/// on the way. What is passed on is the whole request with its body, or for a tunnel all bytes
/// once the client has been told that it stands.
pub proof fn law_failures_are_told_apart(session: SessionView, ok: bool)
    ensures
        ({
            let (after, step) = session.connected(ok);
            &&& step.insist == !session.tunnel()
            &&& session.stage is Direct && !ok ==> after == (SessionView {
                stage: HttpStage::Over,
                ..session
            }) && step.send == bad_gateway() && step.action == (ActionView::Close {
                error: HttpError::DirectConnectFailed,
            })
            &&& session.stage is Upstream && !ok ==> after == (SessionView {
                stage: HttpStage::Over,
                ..session
            }) && step.send == bad_gateway() && step.action == (ActionView::GiveUp {
                port: session.socks_port,
                error: HttpError::UpstreamConnectFailed,
            })
            &&& session.stage is Upstream && ok ==> after == (SessionView {
                stage: HttpStage::Handshaking,
                ..session
            }) && step.send.len() == 0 && step.action is Handshake
            &&& session.stage is Direct && ok ==> (after, step) == session.handshaken(true)
        }),
        ({
            let (after, step) = session.handshaken(ok);
            &&& step.insist == !session.tunnel()
            &&& after == (SessionView { stage: HttpStage::Over, ..session })
            &&& !ok ==> step.send.len() == 0 && step.action == (ActionView::Close {
                error: HttpError::UpstreamHandshakeFailed,
            })
            &&& ok && session.tunnel() ==> step.send == connection_established() && step.action
                is Relay
            &&& ok && !session.tunnel() ==> step.send.len() == 0 && step.action == (
            ActionView::Forward {
                request: vstd::utf8::encode_utf8(
                    request_text(session.method, session.target, session.headers),
                ) + session.body,
            })
        }),
{
}

/// The body that was read is the body of the request, and changes nothing else of it.
pub proof fn law_body_is_kept(session: SessionView, body: Seq<u8>)
    ensures
        session.received_body(body).0 == (SessionView {
            body,
            stage: HttpStage::Routing,
            ..session
        }),
        session.received_body(body).1.action is Route,
        session.received_body(body).1.send.len() == 0,
{
}

/// What clients are told of a destination that cannot be reached, and of a tunnel that stands.
pub proof fn law_answers_in_words()
    ensures
        text::text_or_empty(bad_gateway()) == "HTTP/1.1 502 Bad Gateway\r\n\r\n"@,
        text::text_or_empty(connection_established())
            == "HTTP/1.1 200 Connection Established\r\n\r\n"@,
{
    text::law_utf8_reads_back("HTTP/1.1 502 Bad Gateway\r\n\r\n"@);
    text::law_utf8_reads_back("HTTP/1.1 200 Connection Established\r\n\r\n"@);
}

} // verus!
