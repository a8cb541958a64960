//! System Config: the Daemon's own settings, read once at startup from one TOML file.
//!
//! The file's shape is read outside; here its values are checked, and every value that is not
//! acceptable is pointed at. A path is kept as it is written. An address is the text that was read
//! as an IP address and port.

use vstd::prelude::*;
use crate::diagnostics::ceiling;
use crate::diagnostics::seek;
use crate::text::chars_of;
use crate::text::decimal;
use crate::text::push_decimal;
use crate::text::quote;
use crate::text::quoted;
use crate::text::same;
use crate::text::signed_decimal;
use crate::text::signed_decimal_text;

verus! {

/// The environment variable that names the System Config file when no flag does.
pub const ENV_VAR: &'static str = "HEXPUT_CONFIG";

/// The command-line flag that names the System Config file.
pub const FLAG: &'static str = "--config";

/// The default System Config path when neither the flag nor the environment variable names one.
pub const DEFAULT_PATH: &'static str = "/etc/hexput/config.toml";

/// How many seconds a Session outlives its last Connection when the file does not say.
pub const DEFAULT_SESSION_TTL: u64 = 300;

/// The least severe event that the Daemon emits.
#[derive(Debug, Clone, Copy, PartialEq, Eq, Hash, Structural)]
pub enum LogLevel {
    Error,
    Warn,
    Info,
    Debug,
    Trace,
}

/// Every level, most severe first.
pub open spec fn log_levels() -> Seq<LogLevel> {
    seq![LogLevel::Error, LogLevel::Warn, LogLevel::Info, LogLevel::Debug, LogLevel::Trace]
}

impl LogLevel {
    /// The level as it is written in the file.
    pub open spec fn spelling(self) -> Seq<char> {
        match self {
            LogLevel::Error => "error"@,
            LogLevel::Warn => "warn"@,
            LogLevel::Info => "info"@,
            LogLevel::Debug => "debug"@,
            LogLevel::Trace => "trace"@,
        }
    }

    /// The level as it is written in the file.
    pub fn as_str(self) -> (r: &'static str)
        ensures
            r@ == self.spelling(),
    {
        match self {
            LogLevel::Error => "error",
            LogLevel::Warn => "warn",
            LogLevel::Info => "info",
            LogLevel::Debug => "debug",
            LogLevel::Trace => "trace",
        }
    }

    /// Every level, most severe first.
    pub fn all() -> (r: Vec<LogLevel>)
        ensures
            r@ == log_levels(),
    {
        let r = vec![LogLevel::Error, LogLevel::Warn, LogLevel::Info, LogLevel::Debug, LogLevel::Trace];
        r
    }
}

/// The level that a text spells.
pub open spec fn level_of(text: Seq<char>) -> Option<LogLevel> {
    if text == "error"@ {
        Some(LogLevel::Error)
    } else if text == "warn"@ {
        Some(LogLevel::Warn)
    } else if text == "info"@ {
        Some(LogLevel::Info)
    } else if text == "debug"@ {
        Some(LogLevel::Debug)
    } else if text == "trace"@ {
        Some(LogLevel::Trace)
    } else {
        None
    }
}

/// Which source supplied the System Config path.
#[derive(Debug, Clone, Copy, PartialEq, Eq, Hash, Structural)]
pub enum ConfigSource {
    /// The command-line flag.
    Flag,
    /// The environment variable.
    Env,
    /// The fixed default path.
    Default,
}

impl ConfigSource {
    /// A short name, for log fields.
    pub fn as_str(self) -> (r: &'static str)
        ensures
            r@ == match self {
                ConfigSource::Flag => "flag"@,
                ConfigSource::Env => "env"@,
                ConfigSource::Default => "default"@,
            },
    {
        match self {
            ConfigSource::Flag => "flag",
            ConfigSource::Env => "env",
            ConfigSource::Default => "default",
        }
    }

    /// The source for a human.
    pub open spec fn spelling(self) -> Seq<char> {
        match self {
            ConfigSource::Flag => "the --config flag"@,
            ConfigSource::Env => "the HEXPUT_CONFIG environment variable"@,
            ConfigSource::Default => "the default path"@,
        }
    }

    /// The source for a human.
    pub fn to_text(self) -> (r: String)
        ensures
            r@ == self.spelling(),
    {
        match self {
            ConfigSource::Flag => "the --config flag".to_owned(),
            ConfigSource::Env => "the HEXPUT_CONFIG environment variable".to_owned(),
            ConfigSource::Default => "the default path".to_owned(),
        }
    }
}

/// Choose the file: the flag's, otherwise the environment variable's unless it is empty, otherwise
/// the default. The first source that is there is the only one.
pub fn choose_path<P>(flag: Option<P>, env: Option<P>, env_is_empty: bool, default_path: P) -> (r: (P, ConfigSource))
    ensures
        match (flag, env) {
            (Some(path), _) => r == (path, ConfigSource::Flag),
            (None, Some(path)) => r == (if env_is_empty {
                (default_path, ConfigSource::Default)
            } else {
                (path, ConfigSource::Env)
            }),
            (None, None) => r == (default_path, ConfigSource::Default),
        },
{
    match flag {
        Some(path) => (path, ConfigSource::Flag),
        None => match env {
            Some(path) => {
                if env_is_empty {
                    (default_path, ConfigSource::Default)
                } else {
                    (path, ConfigSource::Env)
                }
            },
            None => (default_path, ConfigSource::Default),
        },
    }
}

/// A position in the file, counted from one. The column counts characters.
#[derive(Debug, Clone, Copy, PartialEq, Eq, Structural)]
pub struct Location {
    pub line: usize,
    pub column: usize,
}

/// The line of character `k`.
pub open spec fn line_of(text: Seq<char>, k: int) -> int
    decreases k,
{
    if k <= 0 {
        1
    } else if text[k - 1] == '\n' {
        line_of(text, k - 1) + 1
    } else {
        line_of(text, k - 1)
    }
}

/// The column of character `k`.
pub open spec fn column_of(text: Seq<char>, k: int) -> int
    decreases k,
{
    if k <= 0 || text[k - 1] == '\n' {
        1
    } else {
        column_of(text, k - 1) + 1
    }
}

/// Where the character at byte `offset` is; the end of the text when it is shorter.
pub open spec fn located(text: Seq<char>, offset: usize) -> Location {
    let k = ceiling(text, offset as int, 0);
    Location { line: line_of(text, k) as usize, column: column_of(text, k) as usize }
}

/// The line and column of byte `offset`.
pub fn locate(text: &str, offset: usize) -> (r: Location)
    requires
        text@.len() < usize::MAX,
    ensures
        r == located(text@, offset),
        r.line == line_of(text@, ceiling(text@, offset as int, 0)),
        r.column == column_of(text@, ceiling(text@, offset as int, 0)),
{
    let chars = chars_of(text);
    let (end, _) = seek(&chars, offset);
    let mut line: usize = 1;
    let mut column: usize = 1;
    let mut k: usize = 0;
    while k < end
        invariant
            k <= end <= chars@.len(),
            chars@ == text@,
            text@.len() < usize::MAX,
            line == line_of(text@, k as int),
            column == column_of(text@, k as int),
            1 <= line <= k + 1,
            1 <= column <= k + 1,
        decreases end - k,
    {
        if chars[k] == '\n' {
            line = line + 1;
            column = 1;
        } else {
            column = column + 1;
        }
        k = k + 1;
    }
    Location { line, column }
}

/// A value of the file, with the byte at which it starts.
#[derive(Debug, Clone)]
pub struct Placed<T> {
    pub value: T,
    pub offset: usize,
}

/// An address of the file, with whether its text is an IP address and port.
#[derive(Debug, Clone)]
pub struct RawBind {
    pub text: Placed<String>,
    pub readable: bool,
}

/// The file as it is written.
#[derive(Debug)]
pub struct RawFile {
    pub log_level: Option<Placed<String>>,
    pub session_ttl_secs: Option<Placed<i64>>,
    pub transport: Option<RawTransports>,
}

/// The transports as they are written.
#[derive(Debug)]
pub struct RawTransports {
    pub uds: Option<RawUds>,
    pub tcp: Option<RawTcp>,
    pub websocket: Option<Placed<RawWebSocket>>,
}

#[derive(Debug)]
pub struct RawUds {
    pub path: Placed<String>,
}

#[derive(Debug)]
pub struct RawTcp {
    pub bind: RawBind,
    pub tls_cert: Placed<String>,
    pub tls_key: Placed<String>,
}

#[derive(Debug)]
pub struct RawWebSocket {
    pub bind: RawBind,
    pub tls_cert: Option<Placed<String>>,
    pub tls_key: Option<Placed<String>>,
}

/// A certificate and a private key.
#[derive(Debug, Clone)]
#[non_exhaustive]
pub struct Tls {
    /// The certificate chain file.
    pub cert: String,
    /// The private key file.
    pub key: String,
}

/// A Unix Domain Socket.
#[derive(Debug, Clone)]
#[non_exhaustive]
pub struct UdsTransport {
    /// The socket file's path.
    pub path: String,
}

/// TCP, always with TLS.
#[derive(Debug, Clone)]
#[non_exhaustive]
pub struct TcpTransport {
    /// The address and port to listen on.
    pub bind: String,
    /// The certificate and key.
    pub tls: Tls,
}

/// WebSocket, with or without TLS.
#[derive(Debug, Clone)]
#[non_exhaustive]
pub struct WebSocketTransport {
    /// The address and port to listen on.
    pub bind: String,
    /// The certificate and key, when the listener uses TLS.
    pub tls: Option<Tls>,
}

/// The configured transports.
#[derive(Debug, Clone)]
#[non_exhaustive]
pub struct Transports {
    pub uds: Option<UdsTransport>,
    pub tcp: Option<TcpTransport>,
    pub websocket: Option<WebSocketTransport>,
}

/// The Daemon's settings.
#[derive(Debug, Clone)]
#[non_exhaustive]
pub struct SystemConfig {
    /// Where the Daemon listens. At least one transport is there.
    pub transports: Transports,
    /// The least severe event that the Daemon emits.
    pub log_level: LogLevel,
    /// How many seconds a Session outlives its last Connection. Never zero.
    pub session_ttl: u64,
}

/// What a certificate and a key are.
#[verifier::ext_equal]
pub ghost struct TlsView {
    pub cert: Seq<char>,
    pub key: Seq<char>,
}

/// What the settings are.
#[verifier::ext_equal]
pub ghost struct ConfigView {
    pub uds: Option<Seq<char>>,
    pub tcp: Option<(Seq<char>, TlsView)>,
    pub websocket: Option<(Seq<char>, Option<TlsView>)>,
    pub log_level: LogLevel,
    pub session_ttl: u64,
}

impl View for Tls {
    type V = TlsView;

    open spec fn view(&self) -> TlsView {
        TlsView { cert: self.cert@, key: self.key@ }
    }
}

pub open spec fn uds_view(uds: Option<UdsTransport>) -> Option<Seq<char>> {
    match uds {
        Some(uds) => Some(uds.path@),
        None => None,
    }
}

pub open spec fn tcp_view(tcp: Option<TcpTransport>) -> Option<(Seq<char>, TlsView)> {
    match tcp {
        Some(tcp) => Some((tcp.bind@, tcp.tls@)),
        None => None,
    }
}

pub open spec fn tls_view(tls: Option<Tls>) -> Option<TlsView> {
    match tls {
        Some(tls) => Some(tls@),
        None => None,
    }
}

pub open spec fn websocket_view(websocket: Option<WebSocketTransport>) -> Option<(Seq<char>, Option<TlsView>)> {
    match websocket {
        Some(websocket) => Some((websocket.bind@, tls_view(websocket.tls))),
        None => None,
    }
}

impl View for SystemConfig {
    type V = ConfigView;

    open spec fn view(&self) -> ConfigView {
        ConfigView {
            uds: uds_view(self.transports.uds),
            tcp: tcp_view(self.transports.tcp),
            websocket: websocket_view(self.transports.websocket),
            log_level: self.log_level,
            session_ttl: self.session_ttl,
        }
    }
}

/// What is wrong with the System Config file.
#[derive(Debug)]
#[non_exhaustive]
pub enum Problem {
    /// No file is at the path.
    NotFound,
    /// The file could not be read: why.
    Unreadable(String),
    /// The file's shape is wrong.
    Parse { location: Option<Location>, message: String },
    /// A value is not acceptable. `field` is the dotted key.
    InvalidValue { field: String, location: Option<Location>, message: String },
    /// The file configures no transport.
    NoTransport,
}

/// What a [`Problem`] says.
#[verifier::ext_equal]
pub ghost enum ProblemView {
    NotFound,
    Unreadable(Seq<char>),
    Parse { location: Option<Location>, message: Seq<char> },
    InvalidValue { field: Seq<char>, location: Option<Location>, message: Seq<char> },
    NoTransport,
}

impl View for Problem {
    type V = ProblemView;

    open spec fn view(&self) -> ProblemView {
        match *self {
            Problem::NotFound => ProblemView::NotFound,
            Problem::Unreadable(error) => ProblemView::Unreadable(error@),
            Problem::Parse { location, message } => ProblemView::Parse { location, message: message@ },
            Problem::InvalidValue { field, location, message } => ProblemView::InvalidValue {
                field: field@,
                location,
                message: message@,
            },
            Problem::NoTransport => ProblemView::NoTransport,
        }
    }
}

/// A value that is not acceptable.
pub open spec fn invalid_value(text: Seq<char>, field: Seq<char>, offset: usize, message: Seq<char>) -> ProblemView {
    ProblemView::InvalidValue { field, location: Some(located(text, offset)), message }
}

/// The level that the file asks for.
pub open spec fn checked_level(text: Seq<char>, level: Option<Placed<String>>) -> Result<LogLevel, ProblemView> {
    match level {
        None => Ok(LogLevel::Info),
        Some(level) => match level_of(level.value@) {
            Some(found) => Ok(found),
            None => Err(
                invalid_value(
                    text,
                    "log_level"@,
                    level.offset,
                    "expected one of error, warn, info, debug, trace, got "@ + quoted(level.value@),
                ),
            ),
        },
    }
}

/// The seconds that the file asks for.
pub open spec fn checked_ttl(text: Seq<char>, ttl: Option<Placed<i64>>) -> Result<u64, ProblemView> {
    match ttl {
        None => Ok(DEFAULT_SESSION_TTL),
        Some(ttl) => if ttl.value > 0 {
            Ok(ttl.value as u64)
        } else {
            Err(
                invalid_value(
                    text,
                    "session_ttl_secs"@,
                    ttl.offset,
                    "expected a whole number of seconds, at least 1, got "@ + signed_decimal(ttl.value as int),
                ),
            )
        },
    }
}

/// A path of the file.
pub open spec fn checked_path(text: Seq<char>, field: Seq<char>, path: Placed<String>) -> Result<Seq<char>, ProblemView> {
    if path.value@.len() == 0 {
        Err(invalid_value(text, field, path.offset, "expected a file path, got \"\""@))
    } else {
        Ok(path.value@)
    }
}

/// An address of the file.
pub open spec fn checked_bind(text: Seq<char>, field: Seq<char>, bind: RawBind) -> Result<Seq<char>, ProblemView> {
    if bind.readable {
        Ok(bind.text.value@)
    } else {
        Err(
            invalid_value(
                text,
                field,
                bind.text.offset,
                "expected an IP address and port such as \"127.0.0.1:7400\" or \"[::1]:7400\", got "@ + quoted(
                    bind.text.value@,
                ),
            ),
        )
    }
}

/// The Unix Domain Socket that the file asks for.
pub open spec fn checked_uds(text: Seq<char>, uds: Option<RawUds>) -> Result<Option<Seq<char>>, ProblemView> {
    match uds {
        None => Ok(None),
        Some(uds) => match checked_path(text, "transport.uds.path"@, uds.path) {
            Ok(path) => Ok(Some(path)),
            Err(problem) => Err(problem),
        },
    }
}

/// The TCP listener that the file asks for.
pub open spec fn checked_tcp(text: Seq<char>, tcp: Option<RawTcp>) -> Result<Option<(Seq<char>, TlsView)>, ProblemView> {
    match tcp {
        None => Ok(None),
        Some(tcp) => match checked_bind(text, "transport.tcp.bind"@, tcp.bind) {
            Err(problem) => Err(problem),
            Ok(bind) => match checked_path(text, "transport.tcp.tls_cert"@, tcp.tls_cert) {
                Err(problem) => Err(problem),
                Ok(cert) => match checked_path(text, "transport.tcp.tls_key"@, tcp.tls_key) {
                    Err(problem) => Err(problem),
                    Ok(key) => Ok(Some((bind, TlsView { cert, key }))),
                },
            },
        },
    }
}

/// What is said of a WebSocket section with one of the two TLS files.
pub open spec fn half_pair(text: Seq<char>, table: usize, given: Seq<char>, missing: Seq<char>) -> ProblemView {
    invalid_value(
        text,
        "transport.websocket"@,
        table,
        "tls_cert and tls_key must be given together or not at all; `"@ + given + "` is set but `"@ + missing
            + "` is missing"@,
    )
}

/// The WebSocket listener's TLS files.
pub open spec fn checked_pair(
    text: Seq<char>,
    table: usize,
    cert: Option<Placed<String>>,
    key: Option<Placed<String>>,
) -> Result<Option<TlsView>, ProblemView> {
    match (cert, key) {
        (None, None) => Ok(None),
        (Some(cert), Some(key)) => match checked_path(text, "transport.websocket.tls_cert"@, cert) {
            Err(problem) => Err(problem),
            Ok(cert) => match checked_path(text, "transport.websocket.tls_key"@, key) {
                Err(problem) => Err(problem),
                Ok(key) => Ok(Some(TlsView { cert, key })),
            },
        },
        (Some(_), None) => Err(half_pair(text, table, "tls_cert"@, "tls_key"@)),
        (None, Some(_)) => Err(half_pair(text, table, "tls_key"@, "tls_cert"@)),
    }
}

/// The WebSocket listener that the file asks for.
pub open spec fn checked_websocket(text: Seq<char>, websocket: Option<Placed<RawWebSocket>>) -> Result<
    Option<(Seq<char>, Option<TlsView>)>,
    ProblemView,
> {
    match websocket {
        None => Ok(None),
        Some(websocket) => match checked_pair(
            text,
            websocket.offset,
            websocket.value.tls_cert,
            websocket.value.tls_key,
        ) {
            Err(problem) => Err(problem),
            Ok(tls) => match checked_bind(text, "transport.websocket.bind"@, websocket.value.bind) {
                Err(problem) => Err(problem),
                Ok(bind) => Ok(Some((bind, tls))),
            },
        },
    }
}

/// The settings that the file asks for, or the first thing that is wrong with it.
pub open spec fn checked_file(text: Seq<char>, raw: RawFile) -> Result<ConfigView, ProblemView> {
    match checked_level(text, raw.log_level) {
        Err(problem) => Err(problem),
        Ok(log_level) => match checked_ttl(text, raw.session_ttl_secs) {
            Err(problem) => Err(problem),
            Ok(session_ttl) => match raw.transport {
                None => Err(ProblemView::NoTransport),
                Some(transports) => if transports.uds is None && transports.tcp is None && transports.websocket is None {
                    Err(ProblemView::NoTransport)
                } else {
                    match checked_uds(text, transports.uds) {
                        Err(problem) => Err(problem),
                        Ok(uds) => match checked_tcp(text, transports.tcp) {
                            Err(problem) => Err(problem),
                            Ok(tcp) => match checked_websocket(text, transports.websocket) {
                                Err(problem) => Err(problem),
                                Ok(websocket) => Ok(ConfigView { uds, tcp, websocket, log_level, session_ttl }),
                            },
                        },
                    }
                },
            },
        },
    }
}

/// Turns the file as it is written into settings, pointing at every value that is not acceptable.
pub struct Validator<'t> {
    pub text: &'t str,
}

impl<'t> Validator<'t> {
    fn invalid(&self, field: &str, offset: usize, message: String) -> (r: Problem)
        requires
            self.text@.len() < usize::MAX,
        ensures
            r@ == invalid_value(self.text@, field@, offset, message@),
    {
        Problem::InvalidValue { field: field.to_owned(), location: Some(locate(self.text, offset)), message }
    }

    /// The log level.
    pub fn log_level(&self, level: &Option<Placed<String>>) -> (r: Result<LogLevel, Problem>)
        requires
            self.text@.len() < usize::MAX,
        ensures
            match (r, checked_level(self.text@, *level)) {
                (Ok(found), Ok(wanted)) => found == wanted,
                (Err(problem), Err(wanted)) => problem@ == wanted,
                _ => false,
            },
    {
        let level = match level {
            None => {
                return Ok(LogLevel::Info);
            },
            Some(level) => level,
        };
        let text = level.value.as_str();
        if same(text, "error") {
            Ok(LogLevel::Error)
        } else if same(text, "warn") {
            Ok(LogLevel::Warn)
        } else if same(text, "info") {
            Ok(LogLevel::Info)
        } else if same(text, "debug") {
            Ok(LogLevel::Debug)
        } else if same(text, "trace") {
            Ok(LogLevel::Trace)
        } else {
            let mut message = "expected one of error, warn, info, debug, trace, got ".to_owned();
            message.append(quote(text).as_str());
            Err(self.invalid("log_level", level.offset, message))
        }
    }

    /// The seconds that a Session outlives its last Connection.
    pub fn session_ttl(&self, ttl: &Option<Placed<i64>>) -> (r: Result<u64, Problem>)
        requires
            self.text@.len() < usize::MAX,
        ensures
            match (r, checked_ttl(self.text@, *ttl)) {
                (Ok(found), Ok(wanted)) => found == wanted,
                (Err(problem), Err(wanted)) => problem@ == wanted,
                _ => false,
            },
    {
        match ttl {
            None => Ok(DEFAULT_SESSION_TTL),
            Some(ttl) => {
                if ttl.value > 0 {
                    return Ok(ttl.value as u64);
                }
                let mut message = "expected a whole number of seconds, at least 1, got ".to_owned();
                message.append(signed_decimal_text(ttl.value).as_str());
                Err(self.invalid("session_ttl_secs", ttl.offset, message))
            },
        }
    }

    fn path(&self, field: &str, path: &Placed<String>) -> (r: Result<String, Problem>)
        requires
            self.text@.len() < usize::MAX,
        ensures
            match (r, checked_path(self.text@, field@, *path)) {
                (Ok(found), Ok(wanted)) => found@ == wanted,
                (Err(problem), Err(wanted)) => problem@ == wanted,
                _ => false,
            },
    {
        if path.value.as_str().unicode_len() == 0 {
            return Err(self.invalid(field, path.offset, "expected a file path, got \"\"".to_owned()));
        }
        Ok(path.value.as_str().to_owned())
    }

    fn bind(&self, field: &str, bind: &RawBind) -> (r: Result<String, Problem>)
        requires
            self.text@.len() < usize::MAX,
        ensures
            match (r, checked_bind(self.text@, field@, *bind)) {
                (Ok(found), Ok(wanted)) => found@ == wanted,
                (Err(problem), Err(wanted)) => problem@ == wanted,
                _ => false,
            },
    {
        if bind.readable {
            return Ok(bind.text.value.as_str().to_owned());
        }
        let mut message =
            "expected an IP address and port such as \"127.0.0.1:7400\" or \"[::1]:7400\", got ".to_owned();
        message.append(quote(bind.text.value.as_str()).as_str());
        Err(self.invalid(field, bind.text.offset, message))
    }

    fn half_tls_pair(&self, table: usize, given: &str, missing: &str) -> (r: Problem)
        requires
            self.text@.len() < usize::MAX,
        ensures
            r@ == half_pair(self.text@, table, given@, missing@),
    {
        let mut message = "tls_cert and tls_key must be given together or not at all; `".to_owned();
        message.append(given);
        message.append("` is set but `");
        message.append(missing);
        message.append("` is missing");
        self.invalid("transport.websocket", table, message)
    }

    fn uds(&self, uds: &Option<RawUds>) -> (r: Result<Option<UdsTransport>, Problem>)
        requires
            self.text@.len() < usize::MAX,
        ensures
            match (r, checked_uds(self.text@, *uds)) {
                (Ok(found), Ok(wanted)) => uds_view(found) == wanted,
                (Err(problem), Err(wanted)) => problem@ == wanted,
                _ => false,
            },
    {
        match uds {
            None => Ok(None),
            Some(uds) => match self.path("transport.uds.path", &uds.path) {
                Ok(path) => Ok(Some(UdsTransport { path })),
                Err(problem) => Err(problem),
            },
        }
    }

    fn tcp(&self, tcp: &Option<RawTcp>) -> (r: Result<Option<TcpTransport>, Problem>)
        requires
            self.text@.len() < usize::MAX,
        ensures
            match (r, checked_tcp(self.text@, *tcp)) {
                (Ok(found), Ok(wanted)) => tcp_view(found) == wanted,
                (Err(problem), Err(wanted)) => problem@ == wanted,
                _ => false,
            },
    {
        match tcp {
            None => Ok(None),
            Some(tcp) => {
                let bind = self.bind("transport.tcp.bind", &tcp.bind)?;
                let cert = self.path("transport.tcp.tls_cert", &tcp.tls_cert)?;
                let key = self.path("transport.tcp.tls_key", &tcp.tls_key)?;
                Ok(Some(TcpTransport { bind, tls: Tls { cert, key } }))
            },
        }
    }

    /// The WebSocket listener.
    pub fn websocket(&self, websocket: &Option<Placed<RawWebSocket>>) -> (r: Result<Option<WebSocketTransport>, Problem>)
        requires
            self.text@.len() < usize::MAX,
        ensures
            match (r, checked_websocket(self.text@, *websocket)) {
                (Ok(found), Ok(wanted)) => websocket_view(found) == wanted,
                (Err(problem), Err(wanted)) => problem@ == wanted,
                _ => false,
            },
    {
        let table = match websocket {
            None => {
                return Ok(None);
            },
            Some(table) => table,
        };
        let tls = match (&table.value.tls_cert, &table.value.tls_key) {
            (None, None) => None,
            (Some(cert), Some(key)) => {
                let cert = self.path("transport.websocket.tls_cert", cert)?;
                let key = self.path("transport.websocket.tls_key", key)?;
                Some(Tls { cert, key })
            },
            (Some(_), None) => {
                return Err(self.half_tls_pair(table.offset, "tls_cert", "tls_key"));
            },
            (None, Some(_)) => {
                return Err(self.half_tls_pair(table.offset, "tls_key", "tls_cert"));
            },
        };
        let bind = self.bind("transport.websocket.bind", &table.value.bind)?;
        Ok(Some(WebSocketTransport { bind, tls }))
    }

    /// The settings.
    pub fn system_config(&self, raw: &RawFile) -> (r: Result<SystemConfig, Problem>)
        requires
            self.text@.len() < usize::MAX,
        ensures
            match (r, checked_file(self.text@, *raw)) {
                (Ok(config), Ok(wanted)) => config@ == wanted,
                (Err(problem), Err(wanted)) => problem@ == wanted,
                _ => false,
            },
    {
        let log_level = self.log_level(&raw.log_level)?;
        let session_ttl = self.session_ttl(&raw.session_ttl_secs)?;
        let transports = match &raw.transport {
            None => {
                return Err(Problem::NoTransport);
            },
            Some(transports) => transports,
        };
        if transports.uds.is_none() && transports.tcp.is_none() && transports.websocket.is_none() {
            return Err(Problem::NoTransport);
        }
        let uds = self.uds(&transports.uds)?;
        let tcp = self.tcp(&transports.tcp)?;
        let websocket = self.websocket(&transports.websocket)?;
        Ok(SystemConfig { transports: Transports { uds, tcp, websocket }, log_level, session_ttl })
    }
}

/// What a rejected shape of the file is: the reader's message without white space at its end, and
/// where it points.
pub open spec fn rejected(text: Seq<char>, offset: Option<usize>, message: Seq<char>) -> ProblemView {
    ProblemView::Parse {
        location: match offset {
            Some(offset) => Some(located(text, offset)),
            None => None,
        },
        message: message.take(crate::numeral::trim_to(message, message.len() as int, 0)),
    }
}

/// The problem of a file whose shape was rejected at byte `offset`.
pub fn reject(text: &str, offset: Option<usize>, message: &str) -> (r: Problem)
    requires
        text@.len() < usize::MAX,
    ensures
        r@ == rejected(text@, offset, message@),
{
    let location = match offset {
        Some(offset) => Some(locate(text, offset)),
        None => None,
    };
    Problem::Parse { location, message: crate::numeral::trim_end(message) }
}

/// Settings that were loaded, with where they came from.
#[derive(Debug)]
#[non_exhaustive]
pub struct Loaded {
    pub config: SystemConfig,
    /// The file's path, as its source gave it.
    pub path: String,
    /// Which source supplied the path.
    pub source: ConfigSource,
}

/// Why the System Config could not be loaded.
#[derive(Debug)]
#[non_exhaustive]
pub struct ConfigError {
    /// The file's path, as its source gave it.
    pub path: String,
    /// Which source supplied the path.
    pub source: ConfigSource,
    /// What went wrong.
    pub problem: Problem,
}

/// The settings with where they came from, or the problem with where it came from.
pub fn resolve(path: String, source: ConfigSource, parsed: Result<SystemConfig, Problem>) -> (r: Result<
    Loaded,
    ConfigError,
>)
    ensures
        match parsed {
            Ok(config) => r == Ok::<Loaded, ConfigError>(Loaded { config, path, source }),
            Err(problem) => r == Err::<Loaded, ConfigError>(ConfigError { path, source, problem }),
        },
{
    match parsed {
        Ok(config) => Ok(Loaded { config, path, source }),
        Err(problem) => Err(ConfigError { path, source, problem }),
    }
}

/// A path with a position in it.
pub open spec fn placed_path(path: Seq<char>, location: Option<Location>) -> Seq<char> {
    match location {
        Some(location) => path + ":"@ + decimal(location.line as nat) + ":"@ + decimal(location.column as nat),
        None => path,
    }
}

fn path_with(path: &str, location: Option<Location>) -> (r: String)
    ensures
        r@ == placed_path(path@, location),
{
    let mut text = path.to_owned();
    if let Some(location) = location {
        text.append(":");
        push_decimal(&mut text, location.line as u64);
        text.append(":");
        push_decimal(&mut text, location.column as u64);
    }
    text
}

impl ConfigError {
    /// The error as text.
    pub open spec fn spelling(self) -> Seq<char> {
        let path = self.path@;
        match self.problem {
            Problem::NotFound => if self.source == ConfigSource::Default {
                path
                    + ": no System Config file at the default path; pass --config <path> or set HEXPUT_CONFIG to use another file"@
            } else {
                path + ": System Config file not found (named by "@ + self.source.spelling() + ")"@
            },
            Problem::Unreadable(error) => path + ": cannot read System Config file (named by "@
                + self.source.spelling() + "): "@ + error@,
            Problem::Parse { location, message } => placed_path(path, location) + ": "@ + message@,
            Problem::InvalidValue { field, location, message } => placed_path(path, location)
                + ": invalid value for `"@ + field@ + "`: "@ + message@,
            Problem::NoTransport => path
                + ": no transport configured; at least one of [transport.uds], [transport.tcp] or [transport.websocket] is required"@,
        }
    }

    /// The error as text.
    pub fn to_text(&self) -> (r: String)
        ensures
            r@ == self.spelling(),
    {
        match &self.problem {
            Problem::NotFound => {
                let mut text = self.path.as_str().to_owned();
                if self.source == ConfigSource::Default {
                    text.append(
                        ": no System Config file at the default path; pass --config <path> or set HEXPUT_CONFIG to use another file",
                    );
                } else {
                    text.append(": System Config file not found (named by ");
                    text.append(self.source.to_text().as_str());
                    text.append(")");
                }
                text
            },
            Problem::Unreadable(error) => {
                let mut text = self.path.as_str().to_owned();
                text.append(": cannot read System Config file (named by ");
                text.append(self.source.to_text().as_str());
                text.append("): ");
                text.append(error.as_str());
                text
            },
            Problem::Parse { location, message } => {
                let mut text = path_with(self.path.as_str(), *location);
                text.append(": ");
                text.append(message.as_str());
                text
            },
            Problem::InvalidValue { field, location, message } => {
                let mut text = path_with(self.path.as_str(), *location);
                text.append(": invalid value for `");
                text.append(field.as_str());
                text.append("`: ");
                text.append(message.as_str());
                text
            },
            Problem::NoTransport => {
                let mut text = self.path.as_str().to_owned();
                text.append(
                    ": no transport configured; at least one of [transport.uds], [transport.tcp] or [transport.websocket] is required",
                );
                text
            },
        }
    }
}

/// Accepted settings have a transport, keep a Session for at least a second, and name every file.
pub proof fn law_accepted_settings(text: Seq<char>, raw: RawFile)
    requires
        checked_file(text, raw) is Ok,
    ensures
        checked_file(text, raw)->Ok_0.uds is Some || checked_file(text, raw)->Ok_0.tcp is Some || checked_file(
            text,
            raw,
        )->Ok_0.websocket is Some,
        checked_file(text, raw)->Ok_0.session_ttl >= 1,
        checked_file(text, raw)->Ok_0.uds matches Some(path) ==> path.len() > 0,
        checked_file(text, raw)->Ok_0.tcp matches Some(tcp) ==> tcp.1.cert.len() > 0 && tcp.1.key.len() > 0,
        checked_file(text, raw)->Ok_0.websocket matches Some(websocket) ==> (websocket.1 matches Some(tls) ==> tls.cert.len()
            > 0 && tls.key.len() > 0),
{
}

/// A level reads back from its spelling.
pub proof fn law_log_level_text(level: LogLevel)
    ensures
        level_of(level.spelling()) == Some(level),
{
    reveal_strlit("error");
    reveal_strlit("warn");
    reveal_strlit("info");
    reveal_strlit("debug");
    reveal_strlit("trace");
    let text = level.spelling();
    assert(text.len() > 2);
    assert("error"@[0] != "warn"@[0] && "error"@[0] != "info"@[0] && "error"@[0] != "debug"@[0] && "error"@[0]
        != "trace"@[0]);
    assert("warn"@[0] != "info"@[0] && "warn"@[0] != "debug"@[0] && "warn"@[0] != "trace"@[0]);
    assert("info"@[0] != "debug"@[0] && "info"@[0] != "trace"@[0]);
    assert("debug"@[0] != "trace"@[0]);
}

/// A position in a text grows with the text before it: a line feed starts the next line, and every
/// other character moves one column on.
pub proof fn law_positions(text: Seq<char>, k: int)
    requires
        0 <= k < text.len(),
    ensures
        line_of(text, 0) == 1 && column_of(text, 0) == 1,
        text[k] == '\n' ==> line_of(text, k + 1) == line_of(text, k) + 1 && column_of(text, k + 1) == 1,
        text[k] != '\n' ==> line_of(text, k + 1) == line_of(text, k) && column_of(text, k + 1) == column_of(text, k) + 1,
{
}

/// Accepted settings are those that the file has. A transport is there when the file has its table, and each
/// of its texts is the one that the table has under that key; the log level is the one whose name the file has,
/// and what the file does not say is `info` and 300 seconds.
pub proof fn law_settings_are_those_of_the_file(text: Seq<char>, raw: RawFile, config: SystemConfig)
    requires
        checked_file(text, raw) == Ok::<ConfigView, ProblemView>(config@),
    ensures
        raw.transport is Some,
        config.transports.uds is Some == raw.transport->0.uds is Some,
        config.transports.tcp is Some == raw.transport->0.tcp is Some,
        config.transports.websocket is Some == raw.transport->0.websocket is Some,
        config.transports.uds is Some ==> config.transports.uds->0.path@ == raw.transport->0.uds->0.path.value@,
        config.transports.tcp is Some ==> {
            &&& config.transports.tcp->0.bind@ == raw.transport->0.tcp->0.bind.text.value@
            &&& config.transports.tcp->0.tls.cert@ == raw.transport->0.tcp->0.tls_cert.value@
            &&& config.transports.tcp->0.tls.key@ == raw.transport->0.tcp->0.tls_key.value@
        },
        config.transports.websocket is Some ==> {
            let table = raw.transport->0.websocket->0.value;
            &&& config.transports.websocket->0.bind@ == table.bind.text.value@
            &&& config.transports.websocket->0.tls is Some == table.tls_cert is Some
            &&& config.transports.websocket->0.tls is Some == table.tls_key is Some
            &&& config.transports.websocket->0.tls is Some ==> config.transports.websocket->0.tls->0.cert@
                == table.tls_cert->0.value@ && config.transports.websocket->0.tls->0.key@ == table.tls_key->0.value@
        },
        raw.log_level is None ==> config.log_level == LogLevel::Info,
        raw.log_level matches Some(level) ==> {
            &&& config.log_level == LogLevel::Error <==> level.value@ == "error"@
            &&& config.log_level == LogLevel::Warn <==> level.value@ == "warn"@
            &&& config.log_level == LogLevel::Info <==> level.value@ == "info"@
            &&& config.log_level == LogLevel::Debug <==> level.value@ == "debug"@
            &&& config.log_level == LogLevel::Trace <==> level.value@ == "trace"@
        },
        raw.session_ttl_secs is None ==> config.session_ttl == 300,
        raw.session_ttl_secs matches Some(ttl) ==> config.session_ttl == ttl.value,
{
    lemma_level_names();
}

proof fn lemma_level_names()
    ensures
        "error"@ != "warn"@ && "error"@ != "info"@ && "error"@ != "debug"@ && "error"@ != "trace"@,
        "warn"@ != "info"@ && "warn"@ != "debug"@ && "warn"@ != "trace"@,
        "info"@ != "debug"@ && "info"@ != "trace"@,
        "debug"@ != "trace"@,
{
    reveal_strlit("error");
    reveal_strlit("warn");
    reveal_strlit("info");
    reveal_strlit("debug");
    reveal_strlit("trace");
    assert("error"@[0] == 'e' && "warn"@[0] == 'w' && "info"@[0] == 'i' && "debug"@[0] == 'd' && "trace"@[0] == 't');
}

/// A file is accepted when, and only when, its level is one of the five names, its seconds are at least one, it
/// has a transport, every path that it has is there, every address can be read, and a WebSocket has both TLS
/// files or neither.
pub proof fn law_which_files_are_accepted(text: Seq<char>, raw: RawFile)
    ensures
        checked_file(text, raw) is Ok <==> {
            &&& raw.log_level matches Some(level) ==> level.value@ == "error"@ || level.value@ == "warn"@ || level.value@
                == "info"@ || level.value@ == "debug"@ || level.value@ == "trace"@
            &&& raw.session_ttl_secs matches Some(ttl) ==> ttl.value >= 1
            &&& raw.transport is Some
            &&& raw.transport->0.uds is Some || raw.transport->0.tcp is Some || raw.transport->0.websocket is Some
            &&& raw.transport->0.uds matches Some(uds) ==> uds.path.value@.len() > 0
            &&& raw.transport->0.tcp matches Some(tcp) ==> tcp.bind.readable && tcp.tls_cert.value@.len() > 0
                && tcp.tls_key.value@.len() > 0
            &&& raw.transport->0.websocket matches Some(table) ==> table.value.bind.readable && (table.value.tls_cert is Some
                == table.value.tls_key is Some) && (table.value.tls_cert matches Some(cert) ==> cert.value@.len() > 0) && (
            table.value.tls_key matches Some(key) ==> key.value@.len() > 0)
        },
{
}

/// What a file is rejected for is pointed at: the key that is named is the one whose value is not acceptable,
/// and the position is where that value starts.
pub proof fn law_problems_point_at_their_value(text: Seq<char>, raw: RawFile, field: Seq<char>, place: Location, message: Seq<char>)
    requires
        checked_file(text, raw) == Err::<ConfigView, ProblemView>(
            ProblemView::InvalidValue { field, location: Some(place), message },
        ),
    ensures
        ({
            ||| field == "log_level"@ && (raw.log_level matches Some(level) && place == located(text, level.offset))
            ||| field == "session_ttl_secs"@ && (raw.session_ttl_secs matches Some(ttl) && ttl.value < 1 && place == located(
                text,
                ttl.offset,
            ))
            ||| field == "transport.uds.path"@ && raw.transport->0.uds->0.path.value@.len() == 0 && place == located(
                text,
                raw.transport->0.uds->0.path.offset,
            )
            ||| field == "transport.tcp.bind"@ && !raw.transport->0.tcp->0.bind.readable && place == located(
                text,
                raw.transport->0.tcp->0.bind.text.offset,
            )
            ||| field == "transport.tcp.tls_cert"@ && raw.transport->0.tcp->0.tls_cert.value@.len() == 0 && place == located(
                text,
                raw.transport->0.tcp->0.tls_cert.offset,
            )
            ||| field == "transport.tcp.tls_key"@ && raw.transport->0.tcp->0.tls_key.value@.len() == 0 && place == located(
                text,
                raw.transport->0.tcp->0.tls_key.offset,
            )
            ||| field == "transport.websocket"@ && raw.transport->0.websocket->0.value.tls_cert is Some
                != raw.transport->0.websocket->0.value.tls_key is Some && place == located(
                text,
                raw.transport->0.websocket->0.offset,
            )
            ||| field == "transport.websocket.tls_cert"@ && raw.transport->0.websocket->0.value.tls_cert->0.value@.len() == 0
                && place == located(text, raw.transport->0.websocket->0.value.tls_cert->0.offset)
            ||| field == "transport.websocket.tls_key"@ && raw.transport->0.websocket->0.value.tls_key->0.value@.len() == 0
                && place == located(text, raw.transport->0.websocket->0.value.tls_key->0.offset)
            ||| field == "transport.websocket.bind"@ && !raw.transport->0.websocket->0.value.bind.readable && place == located(
                text,
                raw.transport->0.websocket->0.value.bind.text.offset,
            )
        }),
{
}

/// Settings are missing a transport only where the file has none, and no other problem is without a position.
pub proof fn law_no_transport(text: Seq<char>, raw: RawFile)
    ensures
        checked_file(text, raw) matches Err(problem) ==> {
            ||| problem is InvalidValue && problem->InvalidValue_location is Some
            ||| problem is NoTransport && (raw.transport matches Some(all) ==> all.uds is None && all.tcp is None
                && all.websocket is None)
        },
{
}

/// The line of a character is one more than the number of line feeds before it, and its column is how far it
/// lies behind the last of them, or behind the start of the text.
pub proof fn law_located(text: Seq<char>, k: int, start: int)
    requires
        0 <= start <= k <= text.len(),
        start == 0 || text[start - 1] == '\n',
        forall|i: int| start <= i < k ==> #[trigger] text[i] != '\n',
    ensures
        column_of(text, k) == k - start + 1,
        line_of(text, k) == line_of(text, start),
        start > 0 ==> line_of(text, start) == line_of(text, start - 1) + 1,
        line_of(text, 0) == 1,
    decreases k - start,
{
    if start < k {
        law_located(text, k - 1, start);
    }
}

/// The flag's file goes before the environment's, and the environment's, unless it is empty, before the default.
pub proof fn law_one_source(
    flag: Option<String>,
    env: Option<String>,
    env_is_empty: bool,
    default_path: String,
    chosen: (String, ConfigSource),
)
    requires
        call_ensures(choose_path::<String>, (flag, env, env_is_empty, default_path), chosen),
    ensures
        chosen.1 == ConfigSource::Flag <==> flag is Some,
        chosen.1 == ConfigSource::Env <==> flag is None && env is Some && !env_is_empty,
        flag is Some ==> chosen.0 == flag->0,
        chosen.1 == ConfigSource::Env ==> chosen.0 == env->0,
        chosen.1 == ConfigSource::Default ==> chosen.0 == default_path,
{
}

} // verus!
