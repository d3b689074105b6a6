//! Error types of the application, their stable numeric codes, and a small
//! ordered key/value context used for structured logging.
use std::path::PathBuf;
use std::time::{Duration, SystemTime};
use vstd::prelude::*;
use crate::keyed::str_eq;
use crate::text::{decimal, decimal_string};

verus! {

/// `std::path::PathBuf`, carried opaquely in error values.
#[verifier::external_type_specification]
#[verifier::external_body]
pub struct ExPathBuf(PathBuf);

/// `std::time::SystemTime`, carried opaquely.
#[verifier::external_type_specification]
#[verifier::external_body]
pub struct ExSystemTime(SystemTime);

/// `std::io::Error`, carried opaquely.
#[verifier::external_type_specification]
#[verifier::external_body]
pub struct ExIoError(std::io::Error);

/// `toml::de::Error`, carried opaquely.
#[verifier::external_type_specification]
#[verifier::external_body]
pub struct ExTomlDeError(toml::de::Error);

/// `serde_json::Error`, carried opaquely.
#[verifier::external_type_specification]
#[verifier::external_body]
pub struct ExJsonError(serde_json::Error);

/// Top-level application error.
pub enum QMKError {
    Config(ConfigError),
    Device(DeviceError),
    Platform(PlatformError),
    WindowMonitor(WindowMonitorError),
    CommandExecution { command: String, reason: String },
    Validation(ValidationError),
    RetryExhausted { attempts: u32, cause: String },
    Timeout { timeout: String },
    CircuitBreakerOpen { failures: u32 },
    Degradation { component: String, reason: String },
    InsufficientPermissions { operation: String, required: String },
    MutexLockFailed { component: String },
    ThreadCommunication { reason: String },
    Io(std::io::Error),
    TomlParse(toml::de::Error),
    JsonSerialization(serde_json::Error),
}

/// Configuration-specific errors.
pub enum ConfigError {
    ParseError { file: String },
    NotFound { path: PathBuf },
    InvalidValue { field: String, value: String },
    MissingField { field: String },
}

/// Device communication errors.
pub enum DeviceError {
    DeviceNotFound { vid: u16, pid: u16 },
    PermissionDenied { device: String },
    Disconnected,
    InvalidResponse { reason: String },
    Timeout { duration_ms: u64 },
}

/// Platform-specific errors.
pub enum PlatformError {
    HyprlandConnection { reason: String },
    X11Connection { display: String },
    WindowsService { code: u32 },
    MacOSCoreFoundation { code: i32 },
    UnsupportedPlatform { platform: String },
}

/// Window monitoring errors.
pub enum WindowMonitorError {
    StartFailed { reason: String },
    UnexpectedStop { reason: String },
    InvalidWindowInfo { reason: String },
    EventListener { reason: String },
}

/// Input validation errors.
pub enum ValidationError {
    InvalidField { field: String, reason: String },
    InvalidPathSequence { path: String, sequence: String },
    InvalidStringBytes { value: String, pos: usize },
    OutOfRange { field: String, value: i64, min: i64, max: i64 },
    StringTooLong { max: usize },
    EmptyValue { field: String },
}

/// Command execution errors.
pub enum CommandError {
    InvalidArgs { args: String },
    SecurityViolation { reason: String },
    ExecutionFailed { reason: String },
    OutputTooLarge { size: usize },
    InvalidPath { path: String },
    Timeout { timeout: String },
}

/// Retry mechanism errors, generic over the error of the retried operation.
pub enum RetryError<E> {
    Exhausted(E),
    RetryExhausted { cause: E, attempts: u32 },
    Timeout { timeout: Duration },
    OperationFailed { cause: E },
    CircuitBreakerOpen { failures: u32 },
}

/// A validation error that points at a path-traversal or byte-injection
/// attempt.
pub open spec fn validation_is_security_related(e: ValidationError) -> bool {
    e is InvalidPathSequence || e is InvalidStringBytes
}

impl ValidationError {
    /// Whether this error indicates a security concern.
    pub fn is_security_related(&self) -> (r: bool)
        ensures
            r == validation_is_security_related(*self),
    {
        match self {
            ValidationError::InvalidPathSequence { .. } => true,
            ValidationError::InvalidStringBytes { .. } => true,
            _ => false,
        }
    }
}

/// An application error that indicates a security concern.
pub open spec fn qmk_error_is_security_related(e: QMKError) -> bool {
    match e {
        QMKError::CommandExecution { .. } => true,
        QMKError::Validation(v) => validation_is_security_related(v),
        QMKError::InsufficientPermissions { .. } => true,
        _ => false,
    }
}

/// Stable numeric code of each error category.
pub open spec fn qmk_error_code(e: QMKError) -> u32 {
    match e {
        QMKError::Config(_) => 1000,
        QMKError::Device(_) => 2000,
        QMKError::Platform(_) => 3000,
        QMKError::WindowMonitor(_) => 4000,
        QMKError::CommandExecution { .. } => 5000,
        QMKError::Validation(_) => 6000,
        QMKError::RetryExhausted { .. } => 7000,
        QMKError::Timeout { .. } => 8000,
        QMKError::CircuitBreakerOpen { .. } => 9000,
        QMKError::Degradation { .. } => 9500,
        QMKError::InsufficientPermissions { .. } => 9600,
        QMKError::MutexLockFailed { .. } => 9700,
        QMKError::ThreadCommunication { .. } => 9800,
        QMKError::Io(_) => 9900,
        QMKError::TomlParse(_) => 10001,
        QMKError::JsonSerialization(_) => 10002,
    }
}

/// `"true"` or `"false"`.
pub open spec fn bool_text(b: bool) -> Seq<char> {
    if b {
        seq!['t', 'r', 'u', 'e']
    } else {
        seq!['f', 'a', 'l', 's', 'e']
    }
}

fn bool_string(b: bool) -> (r: String)
    ensures
        r@ == bool_text(b),
{
    let mut s = String::new();
    if b {
        crate::text::push_char(&mut s, 't');
        crate::text::push_char(&mut s, 'r');
        crate::text::push_char(&mut s, 'u');
        crate::text::push_char(&mut s, 'e');
    } else {
        crate::text::push_char(&mut s, 'f');
        crate::text::push_char(&mut s, 'a');
        crate::text::push_char(&mut s, 'l');
        crate::text::push_char(&mut s, 's');
        crate::text::push_char(&mut s, 'e');
    }
    assert(s@ =~= bool_text(b));
    s
}

/// The current wall-clock time, `SystemTime::now()`. Nothing is promised of
/// the value.
#[verifier::external_body]
fn system_time_now() -> SystemTime {
    SystemTime::now()
}

/// What `SystemTime::duration_since(UNIX_EPOCH)` returns for a time, as an
/// `Option` (`None` for a time before the epoch); a function of the time
/// alone.
pub uninterp spec fn since_epoch(t: SystemTime) -> Option<Duration>;

/// What `Duration::as_secs` returns for a duration (its whole seconds); a
/// function of the duration alone.
pub uninterp spec fn whole_secs(d: Duration) -> u64;

/// `SystemTime::duration_since(UNIX_EPOCH)`, `None` for a time before the
/// epoch; its result is named [`since_epoch`].
#[verifier::external_body]
fn duration_since_unix_epoch(time: &SystemTime) -> (r: Option<Duration>)
    ensures
        r == since_epoch(*time),
{
    match time.duration_since(std::time::UNIX_EPOCH) {
        Ok(d) => Some(d),
        Err(_) => None,
    }
}

/// `Duration::as_secs`; its result is named [`whole_secs`].
#[verifier::external_body]
fn duration_whole_secs(d: &Duration) -> (r: u64)
    ensures
        r == whole_secs(*d),
{
    d.as_secs()
}

/// The context with `"timestamp"` set to the whole seconds of `time` since
/// the Unix epoch, or `c` unchanged for a time before the epoch.
pub open spec fn with_time(c: Map<Seq<char>, Seq<char>>, time: SystemTime) -> Map<Seq<char>, Seq<char>> {
    match since_epoch(time) {
        Some(d) => c.insert(timestamp_key(), decimal(whole_secs(d) as nat)),
        None => c,
    }
}

impl QMKError {
    /// Whether this error indicates a security concern: command execution,
    /// path-sequence or string-byte validation failures, and insufficient
    /// permissions.
    pub fn is_security_related(&self) -> (r: bool)
        ensures
            r == qmk_error_is_security_related(*self),
    {
        match self {
            QMKError::CommandExecution { .. } => true,
            QMKError::Validation(v) => v.is_security_related(),
            QMKError::InsufficientPermissions { .. } => true,
            _ => false,
        }
    }

    /// Stable numeric code of the error's category.
    pub fn get_error_code(&self) -> (r: u32)
        ensures
            r == qmk_error_code(*self),
    {
        match self {
            QMKError::Config(_) => 1000,
            QMKError::Device(_) => 2000,
            QMKError::Platform(_) => 3000,
            QMKError::WindowMonitor(_) => 4000,
            QMKError::CommandExecution { .. } => 5000,
            QMKError::Validation(_) => 6000,
            QMKError::RetryExhausted { .. } => 7000,
            QMKError::Timeout { .. } => 8000,
            QMKError::CircuitBreakerOpen { .. } => 9000,
            QMKError::Degradation { .. } => 9500,
            QMKError::InsufficientPermissions { .. } => 9600,
            QMKError::MutexLockFailed { .. } => 9700,
            QMKError::ThreadCommunication { .. } => 9800,
            QMKError::Io(_) => 9900,
            QMKError::TomlParse(_) => 10001,
            QMKError::JsonSerialization(_) => 10002,
        }
    }

    /// Structured-logging context of this error: its code, whether it is
    /// security related, the error type name, and the current Unix time.
    pub fn context_info(&self) -> (c: ErrorContext)
        ensures
            c@.contains_key(error_code_key()),
            c@[error_code_key()] == decimal(qmk_error_code(*self) as nat),
            c@.contains_key(security_related_key()),
            c@[security_related_key()] == bool_text(qmk_error_is_security_related(*self)),
            c@.contains_key(error_type_key()),
            c@[error_type_key()] == qmk_error_type_text(),
            c@.dom().subset_of(
                set![error_code_key(), security_related_key(), error_type_key(), timestamp_key()],
            ),
            exists|t: SystemTime| c@ == #[trigger] with_time(context_fields(*self), t),
    {
        let code = decimal_string(self.get_error_code() as u64);
        let sec = bool_string(self.is_security_related());
        let ctx = ErrorContext::new().add("error_code", code.as_str());
        let ctx = ctx.add("security_related", sec.as_str());
        let ctx = ctx.add("error_type", "qmkonnect::core::errors::QMKError");
        let now = system_time_now();
        let r = ctx.timestamp(now);
        proof {
            reveal_strlit("error_code");
            reveal_strlit("security_related");
            reveal_strlit("error_type");
            reveal_strlit("qmkonnect::core::errors::QMKError");
            assert("error_code"@ =~= error_code_key());
            assert("security_related"@ =~= security_related_key());
            assert("error_type"@ =~= error_type_key());
            assert(error_code_key() != security_related_key());
            assert(error_code_key() != error_type_key());
            assert(security_related_key() != error_type_key());
            assert(error_code_key() != timestamp_key());
            assert(security_related_key() != timestamp_key());
            assert(error_type_key() != timestamp_key());
            let base = ctx@;
            assert(base.dom() =~= set![error_code_key(), security_related_key(), error_type_key()]);
            assert(base =~= context_fields(*self));
            if let Some(d) = since_epoch(now) {
                assert(r@.dom() =~= base.dom().insert(timestamp_key()));
            }
            assert(r@ == with_time(context_fields(*self), now));
        }
        r
    }
}

/// The context fields of an error other than its timestamp: the code, the
/// security flag and the type name.
pub open spec fn context_fields(e: QMKError) -> Map<Seq<char>, Seq<char>> {
    Map::<Seq<char>, Seq<char>>::empty().insert(error_code_key(), decimal(qmk_error_code(e) as nat)).insert(
        security_related_key(),
        bool_text(qmk_error_is_security_related(e)),
    ).insert(error_type_key(), qmk_error_type_text())
}

pub open spec fn error_code_key() -> Seq<char> {
    seq!['e', 'r', 'r', 'o', 'r', '_', 'c', 'o', 'd', 'e']
}

pub open spec fn security_related_key() -> Seq<char> {
    seq!['s', 'e', 'c', 'u', 'r', 'i', 't', 'y', '_', 'r', 'e', 'l', 'a', 't', 'e', 'd']
}

pub open spec fn error_type_key() -> Seq<char> {
    seq!['e', 'r', 'r', 'o', 'r', '_', 't', 'y', 'p', 'e']
}

/// The `error_type` name of [`QMKError`] in logging contexts: the
/// application's full path of its error type.
pub open spec fn qmk_error_type_text() -> Seq<char> {
    "qmkonnect::core::errors::QMKError"@
}

pub open spec fn timestamp_key() -> Seq<char> {
    seq!['t', 'i', 'm', 'e', 's', 't', 'a', 'm', 'p']
}

/// The map described by a sequence of key/value entries, later entries
/// winning over earlier ones with the same key.
pub open spec fn entries_map(s: Seq<(Seq<char>, Seq<char>)>) -> Map<Seq<char>, Seq<char>>
    decreases s.len(),
{
    if s.len() == 0 {
        Map::empty()
    } else {
        entries_map(s.drop_last()).insert(s.last().0, s.last().1)
    }
}

/// No key occurs twice.
pub open spec fn keys_unique(s: Seq<(Seq<char>, Seq<char>)>) -> bool {
    forall|i: int, j: int| 0 <= i < j < s.len() ==> s[i].0 != s[j].0
}

proof fn lemma_entries_map_lookup(s: Seq<(Seq<char>, Seq<char>)>, i: int)
    requires
        keys_unique(s),
        0 <= i < s.len(),
    ensures
        entries_map(s).contains_key(s[i].0),
        entries_map(s)[s[i].0] == s[i].1,
    decreases s.len(),
{
    if i < s.len() - 1 {
        assert(keys_unique(s.drop_last()));
        lemma_entries_map_lookup(s.drop_last(), i);
        assert(s.drop_last()[i] == s[i]);
    }
}

proof fn lemma_entries_map_absent(s: Seq<(Seq<char>, Seq<char>)>, k: Seq<char>)
    requires
        forall|i: int| 0 <= i < s.len() ==> s[i].0 != k,
    ensures
        !entries_map(s).contains_key(k),
    decreases s.len(),
{
    if s.len() > 0 {
        lemma_entries_map_absent(s.drop_last(), k);
    }
}

proof fn lemma_entries_map_update(s: Seq<(Seq<char>, Seq<char>)>, i: int, v: Seq<char>)
    requires
        keys_unique(s),
        0 <= i < s.len(),
    ensures
        entries_map(s.update(i, (s[i].0, v))) == entries_map(s).insert(s[i].0, v),
        keys_unique(s.update(i, (s[i].0, v))),
{
    let t = s.update(i, (s[i].0, v));
    assert(keys_unique(t));
    let m1 = entries_map(t);
    let m2 = entries_map(s).insert(s[i].0, v);
    assert forall|k: Seq<char>| #[trigger] m1.contains_key(k) <==> m2.contains_key(k) by {
        if exists|j: int| 0 <= j < s.len() && s[j].0 == k {
            let j = choose|j: int| 0 <= j < s.len() && s[j].0 == k;
            lemma_entries_map_lookup(t, j);
            lemma_entries_map_lookup(s, j);
        } else {
            lemma_entries_map_absent(t, k);
            lemma_entries_map_absent(s, k);
        }
    }
    assert forall|k: Seq<char>| m1.contains_key(k) implies #[trigger] m1[k] == m2[k] by {
        let j = choose|j: int| 0 <= j < s.len() && s[j].0 == k;
        if !(0 <= j < s.len() && s[j].0 == k) {
            lemma_entries_map_absent(t, k);
        }
        lemma_entries_map_lookup(t, j);
        lemma_entries_map_lookup(s, j);
    }
    assert(m1 =~= m2);
}

/// The entries of a vector of string pairs, as character sequences.
pub open spec fn entries_of(v: Seq<(String, String)>) -> Seq<(Seq<char>, Seq<char>)> {
    v.map_values(|e: (String, String)| (e.0@, e.1@))
}

/// Ordered key/value context for structured logging; each key occurs once.
#[derive(Debug)]
pub struct ErrorContext {
    data: Vec<(String, String)>,
}

impl ErrorContext {
    /// The entries as character sequences, in insertion order.
    pub closed spec fn entries(&self) -> Seq<(Seq<char>, Seq<char>)> {
        entries_of(self.data@)
    }

    #[verifier::type_invariant]
    closed spec fn inv(&self) -> bool {
        keys_unique(self.entries())
    }
}

impl View for ErrorContext {
    type V = Map<Seq<char>, Seq<char>>;

    closed spec fn view(&self) -> Map<Seq<char>, Seq<char>> {
        entries_map(self.entries())
    }
}

impl ErrorContext {
    /// An empty context.
    pub fn new() -> (c: Self)
        ensures
            c@ == Map::<Seq<char>, Seq<char>>::empty(),
    {
        let c = ErrorContext { data: Vec::new() };
        assert(c.entries() =~= Seq::<(Seq<char>, Seq<char>)>::empty());
        c
    }

    fn find(&self, key: &str) -> (r: Option<usize>)
        ensures
            match r {
                Some(i) => i < self.entries().len() && self.entries()[i as int].0 == key@,
                None => forall|i: int| 0 <= i < self.entries().len() ==> self.entries()[i].0 != key@,
            },
    {
        let mut i: usize = 0;
        while i < self.data.len()
            invariant
                i <= self.data.len(),
                self.entries().len() == self.data.len(),
                forall|j: int| 0 <= j < i ==> self.entries()[j].0 != key@,
            decreases self.data.len() - i,
        {
            assert(self.entries()[i as int].0 == self.data[i as int].0@);
            if str_eq(self.data[i].0.as_str(), key) {
                return Some(i);
            }
            i += 1;
        }
        None
    }

    /// The context with `key` set to `value`, replacing any earlier value.
    pub fn add(self, key: &str, value: &str) -> (c: Self)
        ensures
            c@ == self@.insert(key@, value@),
    {
        proof {
            use_type_invariant(&self);
        }
        let found = self.find(key);
        let ghost old_entries = self.entries();
        let mut data = self.data;
        match found {
            Some(i) => {
                data.set(i, (key.to_owned(), value.to_owned()));
                proof {
                    assert(entries_of(data@) =~= old_entries.update(i as int, (old_entries[i as int].0, value@)));
                    lemma_entries_map_update(old_entries, i as int, value@);
                }
                ErrorContext { data }
            },
            None => {
                data.push((key.to_owned(), value.to_owned()));
                proof {
                    assert(entries_of(data@) =~= old_entries.push((key@, value@)));
                    assert(entries_of(data@).drop_last() =~= old_entries);
                    assert(keys_unique(entries_of(data@)));
                }
                ErrorContext { data }
            },
        }
    }

    /// The context with `"timestamp"` set to the seconds of `time` since the
    /// Unix epoch; unchanged for a time before the epoch.
    pub fn timestamp(self, time: SystemTime) -> (c: Self)
        ensures
            c@ == with_time(self@, time),
    {
        match duration_since_unix_epoch(&time) {
            Some(d) => {
                let secs = duration_whole_secs(&d);
                self.with_timestamp_secs(Some(secs))
            },
            None => self,
        }
    }

    /// The context with `"timestamp"` set to `secs` in decimal, or unchanged
    /// when `secs` is `None`.
    pub fn with_timestamp_secs(self, secs: Option<u64>) -> (c: Self)
        ensures
            c@ == match secs {
                Some(s) => self@.insert(timestamp_key(), decimal(s as nat)),
                None => self@,
            },
    {
        match secs {
            Some(s) => {
                let text = decimal_string(s);
                proof {
                    reveal_strlit("timestamp");
                    assert("timestamp"@ =~= timestamp_key());
                }
                self.add("timestamp", text.as_str())
            },
            None => self,
        }
    }

    /// The value stored under `key`.
    pub fn get(&self, key: &str) -> (r: Option<&str>)
        ensures
            match r {
                Some(v) => self@.contains_key(key@) && v@ == self@[key@],
                None => !self@.contains_key(key@),
            },
    {
        proof {
            use_type_invariant(self);
        }
        match self.find(key) {
            Some(i) => {
                proof {
                    lemma_entries_map_lookup(self.entries(), i as int);
                }
                Some(self.data[i].1.as_str())
            },
            None => {
                proof {
                    lemma_entries_map_absent(self.entries(), key@);
                }
                None
            },
        }
    }

    /// Whether a value is stored under `key`.
    pub fn contains_key(&self, key: &str) -> (r: bool)
        ensures
            r == self@.contains_key(key@),
    {
        proof {
            use_type_invariant(self);
        }
        match self.find(key) {
            Some(i) => {
                proof {
                    lemma_entries_map_lookup(self.entries(), i as int);
                }
                true
            },
            None => {
                proof {
                    lemma_entries_map_absent(self.entries(), key@);
                }
                false
            },
        }
    }

    /// Every key/value pair, each key once.
    pub fn iter(&self) -> (r: Vec<(&str, &str)>)
        ensures
            r.len() == self.entries().len(),
            forall|i: int|
                0 <= i < r.len() ==> (#[trigger] r[i]).0@ == self.entries()[i].0 && r[i].1@
                    == self.entries()[i].1,
            forall|i: int|
                0 <= i < r.len() ==> self@.contains_key((#[trigger] r[i]).0@) && self@[r[i].0@]
                    == r[i].1@,
            forall|k: Seq<char>|
                #[trigger] self@.contains_key(k) ==> exists|i: int|
                    0 <= i < r.len() && (#[trigger] r[i]).0@ == k,
            forall|i: int, j: int| 0 <= i < j < r.len() ==> r[i].0@ != r[j].0@,
    {
        proof {
            use_type_invariant(self);
        }
        let mut out: Vec<(&str, &str)> = Vec::new();
        let mut i: usize = 0;
        while i < self.data.len()
            invariant
                i <= self.data.len(),
                out.len() == i,
                self.entries().len() == self.data.len(),
                forall|j: int|
                    0 <= j < i ==> (#[trigger] out[j]).0@ == self.entries()[j].0 && out[j].1@
                        == self.entries()[j].1,
            decreases self.data.len() - i,
        {
            out.push((self.data[i].0.as_str(), self.data[i].1.as_str()));
            i += 1;
        }
        proof {
            let e = self.entries();
            assert forall|i: int| 0 <= i < out.len() implies self@.contains_key(
                (#[trigger] out[i]).0@,
            ) && self@[out[i].0@] == out[i].1@ by {
                lemma_entries_map_lookup(e, i);
            }
            assert forall|k: Seq<char>| #[trigger] self@.contains_key(k) implies exists|i: int|
                0 <= i < out.len() && (#[trigger] out[i]).0@ == k by {
                if forall|i: int| 0 <= i < e.len() ==> e[i].0 != k {
                    lemma_entries_map_absent(e, k);
                } else {
                    let i = choose|i: int| !(0 <= i < e.len() ==> e[i].0 != k);
                    assert(out[i].0@ == k);
                }
            }
        }
        out
    }
}

impl Clone for ErrorContext {
    fn clone(&self) -> (c: Self)
        ensures
            c@ == self@,
            c.entries() == self.entries(),
    {
        proof {
            use_type_invariant(self);
        }
        let mut data: Vec<(String, String)> = Vec::new();
        let mut i: usize = 0;
        while i < self.data.len()
            invariant
                i <= self.data.len(),
                entries_of(data@) =~= self.entries().take(i as int),
                self.entries() == entries_of(self.data@),
            decreases self.data.len() - i,
        {
            let k = self.data[i].0.clone();
            let v = self.data[i].1.clone();
            let ghost before = data@;
            data.push((k, v));
            proof {
                assert(data@ == before.push((k, v)));
                assert(entries_of(data@) =~= entries_of(before).push((k@, v@)));
                assert(self.entries()[i as int] == (self.data@[i as int].0@, self.data@[i as int].1@));
                assert(self.entries().take(i + 1) =~= self.entries().take(i as int).push(
                    self.entries()[i as int],
                ));
            }
            i += 1;
        }
        proof {
            assert(self.entries().take(self.data.len() as int) =~= self.entries());
        }
        ErrorContext { data }
    }
}

impl Default for ErrorContext {
    fn default() -> (c: Self)
        ensures
            c@ == Map::<Seq<char>, Seq<char>>::empty(),
    {
        Self::new()
    }
}

/// A value added under a key is what a lookup of that key finds, and every
/// other key keeps its value.
pub proof fn law_context_add_then_get(c: Map<Seq<char>, Seq<char>>, key: Seq<char>, value: Seq<char>, other: Seq<char>)
    requires
        other != key,
    ensures
        c.insert(key, value).contains_key(key),
        c.insert(key, value)[key] == value,
        c.insert(key, value).contains_key(other) == c.contains_key(other),
        c.contains_key(other) ==> c.insert(key, value)[other] == c[other],
{
}

} // verus!
