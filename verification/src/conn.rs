//! Connections: the options that tell them apart.
use vstd::prelude::*;

use crate::json::{Json, JsonV};
use crate::text;

verus! {

// ---------------------------------------------------------------------------
// Options
// ---------------------------------------------------------------------------

/// What a connection is made of. Calls with equal keys share a connection.
#[derive(Debug)]
pub struct ConnKey {
    pub url: String,
    pub host: String,
    pub port: u16,
    pub database: String,
    pub username: String,
    pub password: String,
    pub encrypt: String,
    pub trust: bool,
}

/// The model of a key.
pub struct ConnKeyV {
    pub url: Seq<char>,
    pub host: Seq<char>,
    pub port: u16,
    pub database: Seq<char>,
    pub username: Seq<char>,
    pub password: Seq<char>,
    pub encrypt: Seq<char>,
    pub trust: bool,
}

impl ConnKey {
    /// An equal key.
    pub fn copy(&self) -> (r: ConnKey)
        ensures
            r@ == self@,
    {
        ConnKey {
            url: self.url.clone(),
            host: self.host.clone(),
            port: self.port,
            database: self.database.clone(),
            username: self.username.clone(),
            password: self.password.clone(),
            encrypt: self.encrypt.clone(),
            trust: self.trust,
        }
    }
}

impl View for ConnKey {
    type V = ConnKeyV;

    open spec fn view(&self) -> ConnKeyV {
        ConnKeyV {
            url: self.url@,
            host: self.host@,
            port: self.port,
            database: self.database@,
            username: self.username@,
            password: self.password@,
            encrypt: self.encrypt@,
            trust: self.trust,
        }
    }
}

/// The text of an option, or a default where the option is missing or is no string.
pub open spec fn text_or(opts: JsonV, name: Seq<char>, default: Seq<char>) -> Seq<char> {
    match opts.text_field(name) {
        Some(s) => s,
        None => default,
    }
}

/// The port: the option modulo 65536, or 1433 where the option is missing or is no integer
/// from 0 on.
pub open spec fn port_or_default(opts: JsonV) -> u16 {
    match opts.field("port"@) {
        Some(JsonV::Int(i)) => if i >= 0 {
            (i % 0x1_0000) as u16
        } else {
            1433
        },
        _ => 1433,
    }
}

/// Whether the server's certificate is trusted as it is: `true` says so, and so does 1.
pub open spec fn trusts(opts: JsonV) -> bool {
    match opts.field("trust_cert"@) {
        Some(JsonV::Bool(b)) => b,
        Some(JsonV::Int(i)) => i == 1,
        _ => false,
    }
}

/// The key that the options of a call give.
pub open spec fn key_for(opts: JsonV) -> ConnKeyV {
    ConnKeyV {
        url: text_or(opts, "url"@, ""@),
        host: text_or(opts, "host"@, "127.0.0.1"@),
        port: port_or_default(opts),
        database: text_or(opts, "database"@, ""@),
        username: text_or(opts, "username"@, ""@),
        password: text_or(opts, "password"@, ""@),
        encrypt: text_or(opts, "encrypt"@, "required"@),
        trust: trusts(opts),
    }
}

/// The text of an option, or a default.
fn option_text(opts: &Json, name: &str, default: &str) -> (r: String)
    ensures
        r@ == text_or(opts.model(), name@, default@),
{
    match opts.get_str(name) {
        Some(s) => s,
        None => default.to_string(),
    }
}

/// The low 16 bits of a port number.
fn low_port(u: u64) -> (r: u16)
    ensures
        r == u as int % 0x1_0000,
{
    assert(u as u16 == u % 0x1_0000) by (bit_vector);
    u as u16
}

/// The key that the options of a call give.
pub fn conn_key(opts: &Json) -> (r: ConnKey)
    ensures
        r@ == key_for(opts.model()),
{
    let port: u16 = match opts.get("port") {
        Some(Json::Unsigned(u)) => low_port(u),
        Some(Json::Signed(i)) => if i >= 0 {
            low_port(i as u64)
        } else {
            1433
        },
        _ => 1433,
    };
    let trust: bool = match opts.get("trust_cert") {
        Some(Json::Bool(b)) => b,
        Some(Json::Unsigned(u)) => u == 1,
        Some(Json::Signed(i)) => i == 1,
        _ => false,
    };
    ConnKey {
        url: option_text(opts, "url", ""),
        host: option_text(opts, "host", "127.0.0.1"),
        port,
        database: option_text(opts, "database", ""),
        username: option_text(opts, "username", ""),
        password: option_text(opts, "password", ""),
        encrypt: option_text(opts, "encrypt", "required"),
        trust,
    }
}

/// Whether two keys are equal.
pub fn same_key(a: &ConnKey, b: &ConnKey) -> (r: bool)
    ensures
        r == (a@ == b@),
{
    text::same_text(&a.url, &b.url) && text::same_text(&a.host, &b.host) && a.port == b.port
        && text::same_text(&a.database, &b.database) && text::same_text(&a.username, &b.username)
        && text::same_text(&a.password, &b.password) && text::same_text(&a.encrypt, &b.encrypt)
        && a.trust == b.trust
}

/// Calls share a connection if they agree in the options that make one: whatever else the
/// calls hold does not matter.
pub proof fn law_key_depends_on_options(a: JsonV, b: JsonV)
    requires
        a.field("url"@) == b.field("url"@),
        a.field("host"@) == b.field("host"@),
        a.field("port"@) == b.field("port"@),
        a.field("database"@) == b.field("database"@),
        a.field("username"@) == b.field("username"@),
        a.field("password"@) == b.field("password"@),
        a.field("encrypt"@) == b.field("encrypt"@),
        a.field("trust_cert"@) == b.field("trust_cert"@),
    ensures
        key_for(a) == key_for(b),
{
}

} // verus!
