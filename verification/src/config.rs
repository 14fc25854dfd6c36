//! The configuration of a connection.
use vstd::prelude::*;

use crate::conn::{ConnKey, ConnKeyV};
use crate::failure::Failure;
use crate::lexing;
use crate::text;

verus! {

// ---------------------------------------------------------------------------
// The model
// ---------------------------------------------------------------------------

/// How much of a connection is encrypted.
#[derive(Clone, Copy, Debug, PartialEq, Eq, Structural)]
pub enum Encryption {
    Off,
    On,
    NotSupported,
    Required,
}

/// Which certificates of a server are accepted.
pub enum Trust {
    /// Those that the system accepts.
    System,
    /// All.
    All,
    /// Those that the system or the authority in a file accepts.
    Authority(Seq<char>),
}

/// How a client proves who it is.
pub enum Auth {
    Nothing,
    SqlServer { user: Seq<char>, password: Seq<char> },
    Token(Seq<char>),
}

/// The settings of a configuration.
pub struct Settings {
    pub host: Option<Seq<char>>,
    pub port: Option<u16>,
    pub database: Option<Seq<char>>,
    pub instance: Option<Seq<char>>,
    pub application: Option<Seq<char>>,
    pub encryption: Encryption,
    pub trust: Trust,
    pub auth: Auth,
    pub readonly: bool,
}

/// The settings of a new configuration.
pub open spec fn fresh_settings() -> Settings {
    Settings {
        host: None,
        port: None,
        database: None,
        instance: None,
        application: None,
        encryption: Encryption::Required,
        trust: Trust::System,
        auth: Auth::Nothing,
        readonly: false,
    }
}

// ---------------------------------------------------------------------------
// tiberius
// ---------------------------------------------------------------------------

/// `tiberius::Config`: a configuration of the outside crate.
#[verifier::external_type_specification]
#[verifier::external_body]
pub struct ExConfig(tiberius::Config);

/// `tiberius::error::Error`: an error of the outside crate.
#[verifier::external_type_specification]
#[verifier::external_body]
pub struct ExTdsError(tiberius::error::Error);

/// The settings that a `tiberius::Config` holds.
pub uninterp spec fn settings(c: tiberius::Config) -> Settings;

/// The settings that an ADO connection string stands for, or the text of the error that says
/// why it stands for none.
pub uninterp spec fn ado_settings(url: Seq<char>) -> Result<Settings, Seq<char>>;

/// `tiberius::Config::new`, in a build with TLS: nothing is set, and encryption is required.
pub assume_specification[ tiberius::Config::new ]() -> (r: tiberius::Config)
    ensures
        settings(r) == fresh_settings(),
;

/// `port` of `tiberius::Config`: sets the port and nothing else.
pub assume_specification[ tiberius::Config::port ](c: &mut tiberius::Config, port: u16)
    ensures
        settings(*final(c)) == (Settings { port: Some(port), ..settings(*old(c)) }),
;

/// `trust_cert` of `tiberius::Config`: accepts every certificate and changes nothing else. It
/// would panic after an authority has been set.
pub assume_specification[ tiberius::Config::trust_cert ](c: &mut tiberius::Config)
    requires
        !(settings(*old(c)).trust is Authority),
    ensures
        settings(*final(c)) == (Settings { trust: Trust::All, ..settings(*old(c)) }),
;

/// `host` of `tiberius::Config`: sets the host and nothing else.
#[verifier::external_body]
fn set_host(c: &mut tiberius::Config, host: &str)
    ensures
        settings(*final(c)) == (Settings { host: Some(host@), ..settings(*old(c)) }),
{
    c.host(host)
}

/// `database` of `tiberius::Config`: sets the database and nothing else.
#[verifier::external_body]
fn set_database(c: &mut tiberius::Config, database: &str)
    ensures
        settings(*final(c)) == (Settings { database: Some(database@), ..settings(*old(c)) }),
{
    c.database(database)
}

/// `authentication` of `tiberius::Config`, with what `AuthMethod::sql_server` makes of a user
/// and a password: sets how the client proves who it is and nothing else.
#[verifier::external_body]
fn set_login(c: &mut tiberius::Config, user: &str, password: &str)
    ensures
        settings(*final(c)) == (Settings {
            auth: Auth::SqlServer { user: user@, password: password@ },
            ..settings(*old(c))
        }),
{
    c.authentication(tiberius::AuthMethod::sql_server(user, password))
}

/// `encryption` of `tiberius::Config`: sets the level of encryption and nothing else.
#[verifier::external_body]
fn set_encryption(c: &mut tiberius::Config, level: Encryption)
    ensures
        settings(*final(c)) == (Settings { encryption: level, ..settings(*old(c)) }),
{
    c.encryption(match level {
        Encryption::Off => tiberius::EncryptionLevel::Off,
        Encryption::On => tiberius::EncryptionLevel::On,
        Encryption::NotSupported => tiberius::EncryptionLevel::NotSupported,
        Encryption::Required => tiberius::EncryptionLevel::Required,
    })
}

/// A name or a value as it is compared: without quotes, braces, line ends and white space around
/// it, and ASCII letters in lower case.
pub open spec fn plain(s: Seq<char>) -> Seq<char> {
    text::trim(lexing::bare(s)).map_values(|c: char| text::ascii_lower(c))
}

/// Whether a piece of a connection string may set every certificate to be accepted.
pub open spec fn trusts_all(piece: Seq<char>) -> bool {
    match lexing::split_free(piece, '=') {
        Some(kv) => plain(kv.0) == "trustservercertificate"@ && (plain(kv.1) == "true"@ || plain(
            kv.1,
        ) == "yes"@),
        None => false,
    }
}

/// Whether a piece has printable ASCII characters alone, none of them a quote or a brace.
pub open spec fn clear(piece: Seq<char>) -> bool {
    forall|i: int|
        0 <= i < piece.len() ==> ' ' <= #[trigger] piece[i] <= '~' && !lexing::is_mark(piece[i])
}

/// Whether a piece of a connection string is sure to say whether every certificate is accepted.
pub open spec fn decides_trust(piece: Seq<char>) -> bool {
    clear(piece) && match lexing::split_free(piece, '=') {
        Some(kv) => plain(kv.0) == "trustservercertificate"@,
        None => false,
    }
}

/// Whether the pieces may set every certificate to be accepted: the last that speaks of it
/// decides.
pub open spec fn may_trust_all(pieces: Seq<Seq<char>>) -> bool
    decreases pieces.len(),
{
    if pieces.len() == 0 {
        false
    } else if trusts_all(pieces.last()) {
        true
    } else if decides_trust(pieces.last()) {
        false
    } else {
        may_trust_all(pieces.drop_last())
    }
}

/// Whether a piece of a connection string may name an authority.
pub open spec fn names_authority(piece: Seq<char>) -> bool {
    match lexing::split_free(piece, '=') {
        Some(kv) => plain(kv.0) == "trustservercertificateca"@,
        None => false,
    }
}

/// Whether a connection string may set both options on the server's certificate, which exclude
/// each other.
pub open spec fn both_trust_options(url: Seq<char>) -> bool {
    let pieces = lexing::pieces(url);
    &&& text::all_ascii(url)
    &&& lexing::closed(url)
    &&& may_trust_all(pieces)
    &&& exists|i: int| 0 <= i < pieces.len() && names_authority(#[trigger] pieces[i])
}

/// `tiberius::Config::from_ado_string`: reads a connection string. The settings, or the error
/// and with it the text of the error, are a function of the string alone. The function panics
/// where `TrustServerCertificate` is `true` or `yes` and `TrustServerCertificateCA` is set too,
/// so that such strings are left out. It divides a string as [`lexing::pieces`] does, drops the
/// marks of quoted sections and line ends, lets the last of several options with one name count,
/// and refuses characters that are not ASCII and sections that are not closed.
#[verifier::external_body]
fn read_ado(url: &str) -> (r: Result<tiberius::Config, tiberius::error::Error>)
    requires
        !both_trust_options(url@),
    ensures
        match r {
            Ok(c) => ado_settings(url@) == Ok::<Settings, Seq<char>>(settings(c)),
            Err(e) => ado_settings(url@) is Err && forall|s: String|
                vstd::string::to_string_from_display_ensures(&e, s) ==> s@ == ado_settings(
                    url@,
                )->Err_0,
        },
{
    tiberius::Config::from_ado_string(url)
}

// ---------------------------------------------------------------------------
// The configuration of a connection
// ---------------------------------------------------------------------------

/// The level of encryption that an option names. Everything but `off` and `not_supported`
/// means that encryption is required.
pub open spec fn encryption_of(name: Seq<char>) -> Encryption {
    if name == "off"@ {
        Encryption::Off
    } else if name == "not_supported"@ {
        Encryption::NotSupported
    } else {
        Encryption::Required
    }
}

/// The settings of a connection without a connection string.
pub open spec fn settings_for(key: ConnKeyV) -> Settings {
    Settings {
        host: Some(key.host),
        port: Some(key.port),
        database: if key.database.len() == 0 {
            None
        } else {
            Some(key.database)
        },
        encryption: encryption_of(key.encrypt),
        trust: if key.trust {
            Trust::All
        } else {
            Trust::System
        },
        auth: Auth::SqlServer { user: key.username, password: key.password },
        ..fresh_settings()
    }
}

/// The level of encryption that an option names.
pub fn encryption_level(name: &str) -> (r: Encryption)
    ensures
        r == encryption_of(name@),
{
    if text::same_text(name, "off") {
        Encryption::Off
    } else if text::same_text(name, "not_supported") {
        Encryption::NotSupported
    } else {
        Encryption::Required
    }
}

/// The configuration that the options other than the connection string give.
pub fn config_from_options(key: &ConnKey) -> (r: tiberius::Config)
    ensures
        settings(r) == settings_for(key@),
{
    let mut config = tiberius::Config::new();
    set_host(&mut config, &key.host);
    config.port(key.port);
    if !key.database.as_str().is_empty() {
        set_database(&mut config, &key.database);
    }
    set_login(&mut config, &key.username, &key.password);
    set_encryption(&mut config, encryption_level(&key.encrypt));
    if key.trust {
        config.trust_cert();
    }
    config
}

/// The configuration that was read from a connection string, or the failure that says why there
/// is none.
pub fn config_from_reading(read: Result<tiberius::Config, tiberius::error::Error>) -> (r: Result<
    tiberius::Config,
    Failure,
>)
    ensures
        match read {
            Ok(config) => r matches Ok(c) && c == config,
            Err(e) => r matches Err(Failure::ParseUrl(cause))
                && vstd::string::to_string_from_display_ensures(&e, cause),
        },
{
    match read {
        Ok(config) => Ok(config),
        Err(e) => Err(Failure::ParseUrl(e.to_string())),
    }
}

/// The configuration of the connection: what its connection string says, if it has one, and
/// otherwise what the other options say.
pub fn config_for(key: &ConnKey) -> (r: Result<tiberius::Config, Failure>)
    requires
        !both_trust_options(key.url@),
    ensures
        key.url@.len() == 0 ==> r is Ok && settings(r->Ok_0) == settings_for(key@),
        key.url@.len() > 0 ==> match ado_settings(key.url@) {
            Ok(s) => r is Ok && settings(r->Ok_0) == s,
            Err(e) => r matches Err(Failure::ParseUrl(cause)) && cause@ == e,
        },
{
    if !key.url.as_str().is_empty() {
        config_from_reading(read_ado(&key.url))
    } else {
        Ok(config_from_options(key))
    }
}

/// A name or a value as it is compared.
fn plain_text(s: &Vec<char>) -> (r: String)
    ensures
        r@ == plain(s@),
{
    let t = text::trim_chars(&lexing::bare_chars(s));
    let mut out = String::new();
    for i in 0..t.len()
        invariant
            out@ == t@.take(i as int).map_values(|c: char| text::ascii_lower(c)),
    {
        let ghost before = out@;
        let c = t[i];
        let lower = if 'A' <= c && c <= 'Z' {
            (c as u8 + 32) as char
        } else {
            c
        };
        assert(lower == text::ascii_lower(c));
        out.push(lower);
        assert(out@ =~= t@.take(i + 1).map_values(|c: char| text::ascii_lower(c)));
    }
    assert(t@.take(t@.len() as int) =~= t@);
    out
}

/// Whether a piece has printable ASCII characters alone, none of them a quote or a brace.
fn is_clear(piece: &Vec<char>) -> (r: bool)
    ensures
        r == clear(piece@),
{
    for i in 0..piece.len()
        invariant
            forall|j: int|
                0 <= j < i ==> ' ' <= #[trigger] piece@[j] <= '~' && !lexing::is_mark(piece@[j]),
    {
        let c = piece[i];
        if c < ' ' || c > '~' || c == '"' || c == '\'' || c == '{' || c == '}' {
            assert(!(' ' <= piece@[i as int] <= '~') || lexing::is_mark(piece@[i as int]));
            return false;
        }
    }
    true
}

/// Whether every character is ASCII.
fn is_ascii(s: &Vec<char>) -> (r: bool)
    ensures
        r == text::all_ascii(s@),
{
    for i in 0..s.len()
        invariant
            forall|j: int| 0 <= j < i ==> #[trigger] s@[j] < '\u{80}',
    {
        if s[i] >= '\u{80}' {
            assert(!(s@[i as int] < '\u{80}'));
            return false;
        }
    }
    true
}

/// Whether a connection string may set both options on the server's certificate. The caller of
/// [`config_for`] rules that out.
pub fn sets_both_trust_options(url: &str) -> (r: bool)
    ensures
        r == both_trust_options(url@),
{
    let chars = text::chars_of(url);
    let pieces = lexing::pieces_chars(&chars);
    let ghost all = text::texts(pieces@);
    let mut trusted = false;
    let mut authority = false;
    for i in 0..pieces.len()
        invariant
            all == text::texts(pieces@),
            trusted == may_trust_all(all.take(i as int)),
            authority == (exists|j: int| 0 <= j < i && names_authority(#[trigger] all[j])),
    {
        assert(all[i as int] == pieces@[i as int]@);
        assert(all.take(i + 1).drop_last() =~= all.take(i as int));
        assert(all.take(i + 1).last() == all[i as int]);
        if let Some((k, v)) = lexing::split_free_chars(&pieces[i], '=') {
            let name = plain_text(&k);
            if text::same_text(&name, "trustservercertificate") {
                let value = plain_text(&v);
                if text::same_text(&value, "true") || text::same_text(&value, "yes") {
                    trusted = true;
                } else if is_clear(&pieces[i]) {
                    trusted = false;
                }
            }
            if text::same_text(&name, "trustservercertificateca") {
                assert(names_authority(all[i as int]));
                authority = true;
            }
        }
    }
    assert(all.take(pieces@.len() as int) =~= all);
    trusted && authority && is_ascii(&chars) && lexing::is_closed(&chars)
}

} // verus!
