//! A SOCKS5 and HTTP proxy that spreads its ports over a rotating pool of upstream proxies.

use vstd::prelude::*;

pub mod admin;
pub mod bypass;
pub mod handshake;
pub mod http;
pub mod ipv4;
pub mod pool;
pub mod rotation;
pub mod socks5;
pub mod text;

pub use crate::bypass::BypassList;

verus! {

/// The user name and the password that a client has to give.
pub struct AuthConfig {
    pub username: String,
    pub password: String,
}

/// What an [`AuthConfig`] says.
pub struct AuthView {
    pub username: Seq<char>,
    pub password: Seq<char>,
}

impl View for AuthConfig {
    type V = AuthView;

    open spec fn view(&self) -> AuthView {
        AuthView { username: self.username@, password: self.password@ }
    }
}

impl AuthView {
    /// Whether clients have to give their name and password.
    pub open spec fn required(self) -> bool {
        self.username.len() > 0
    }

    /// Whether a client may pass with this name and this password, as sent.
    pub open spec fn accepts(self, username: Seq<u8>, password: Seq<u8>) -> bool {
        &&& text::text_or_empty(username) == self.username
        &&& text::text_or_empty(password) == self.password
    }
}

impl Clone for AuthConfig {
    fn clone(&self) -> (r: Self)
        ensures
            r@ == self@,
    {
        AuthConfig { username: self.username.clone(), password: self.password.clone() }
    }
}

impl AuthConfig {
    /// Whether clients have to give their name and password: where a user name is set.
    pub fn is_required(&self) -> (r: bool)
        ensures
            r == self@.required(),
    {
        !self.username.as_str().is_empty()
    }
}

/// The port on which HTTP is served beside SOCKS5 on `socks_port`: a thousand above it, if there
/// is such a port.
pub fn http_port(socks_port: u16) -> (r: Option<u16>)
    ensures
        r == if socks_port + 1000 <= u16::MAX {
            Some((socks_port + 1000) as u16)
        } else {
            None
        },
{
    socks_port.checked_add(1000)
}

/// Clients have to give name and password exactly where a name is set. They pass with the very
/// bytes of both, as UTF-8; where no password is set, bytes that are no text pass for one too.
pub proof fn law_right_credentials_pass(auth: AuthView, name: Seq<u8>, password: Seq<u8>)
    ensures
        auth.required() <==> auth.username.len() > 0,
        auth.accepts(
            vstd::utf8::encode_utf8(auth.username),
            vstd::utf8::encode_utf8(auth.password),
        ),
        auth.required() && auth.accepts(name, password) ==> {
            &&& name == vstd::utf8::encode_utf8(auth.username)
            &&& password == vstd::utf8::encode_utf8(auth.password) || auth.password.len() == 0
                && !vstd::utf8::valid_utf8(password)
        },
        auth.password.len() == 0 && !vstd::utf8::valid_utf8(password) ==> auth.accepts(
            vstd::utf8::encode_utf8(auth.username),
            password,
        ),
{
    text::law_utf8_reads_back(auth.username);
    text::law_utf8_reads_back(auth.password);
    if vstd::utf8::valid_utf8(name) {
        vstd::utf8::decode_utf8_encode_utf8(name);
    }
    if vstd::utf8::valid_utf8(password) {
        vstd::utf8::decode_utf8_encode_utf8(password);
    }
    if !vstd::utf8::valid_utf8(password) && auth.password.len() == 0 {
        assert(auth.password =~= Seq::empty());
    }
}

} // verus!
