//! The orchestrator's logger, as pure decisions: the explicit
//! initialize-once state, the severity order, the choice of line
//! format and color per severity, and the parsing of a severity name.
//! Writing the chosen line to the console is the caller's side.

use vstd::prelude::*;

use crate::doc::bytes_eq;

verus! {

/// The five severities the orchestrator logs at, most severe first.
#[derive(Clone, Copy, Debug, PartialEq, Eq, Structural)]
pub enum LogLevel {
    Error,
    Warn,
    Info,
    Debug,
    Trace,
}

/// Why logger initialization can fail.
#[derive(Clone, Copy, Debug, PartialEq, Eq, Structural)]
pub enum LoggerError {
    /// A logger was installed already; the state is unchanged.
    AlreadyInitialized,
}

/// The console color a log line is rendered in.
#[derive(Clone, Copy, Debug, PartialEq, Eq, Structural)]
pub enum LogColor {
    Red,
    Yellow,
    Plain,
    Blue,
    Purple,
}

/// How verbose a severity is: `Error` least, `Trace` most.
pub open spec fn level_rank(l: LogLevel) -> int {
    match l {
        LogLevel::Error => 1,
        LogLevel::Warn => 2,
        LogLevel::Info => 3,
        LogLevel::Debug => 4,
        LogLevel::Trace => 5,
    }
}

/// Explicit process-wide logger state: a maximum severity once one
/// is installed, nothing before.
pub struct LoggerState {
    pub level: Option<LogLevel>,
}

impl LoggerState {
    /// The state before any initialization.
    pub fn new() -> (r: LoggerState)
        ensures
            r.level == Option::None::<LogLevel>,
    {
        LoggerState { level: Option::None }
    }

    /// Whether a logger has been installed.
    pub open spec fn initialized(&self) -> bool {
        self.level.is_some()
    }
}

/// The console logger.
pub struct LyssaLogger {}

impl LyssaLogger {
    /// A fresh logger value.
    pub fn new() -> (r: LyssaLogger) {
        LyssaLogger {}
    }

    /// Installs this logger at the given maximum severity.
    /// Initialization happens at most once: the first call succeeds
    /// and records the severity; every later call changes nothing and
    /// reports failure.
    pub fn init(self, level: LogLevel, state: &mut LoggerState) -> (r: Result<(), LoggerError>)
        ensures
            old(state).initialized() ==> r == Result::<(), LoggerError>::Err(
                LoggerError::AlreadyInitialized,
            ) && *final(state) == *old(state),
            !old(state).initialized() ==> r == Result::<(), LoggerError>::Ok(())
                && final(state).level == Option::Some(level),
    {
        match state.level {
            Option::Some(_) => Result::Err(LoggerError::AlreadyInitialized),
            Option::None => {
                state.level = Option::Some(level);
                Result::Ok(())
            },
        }
    }

    /// Whether a record at `level` is handled at all: every severity
    /// up to the most verbose is.
    pub fn enabled(&self, level: LogLevel) -> (r: bool)
        ensures
            r == (level_rank(level) <= level_rank(LogLevel::Trace)),
    {
        let rank: u8 = match level {
            LogLevel::Error => 1,
            LogLevel::Warn => 2,
            LogLevel::Info => 3,
            LogLevel::Debug => 4,
            LogLevel::Trace => 5,
        };
        rank <= 5
    }
}

/// The rendering rule for one record: whether the verbose line format
/// (with source file and line) is used, and in which color the line
/// is printed.
pub fn style_of(level: LogLevel) -> (r: (bool, LogColor))
    ensures
        r == match level {
            LogLevel::Error => (true, LogColor::Red),
            LogLevel::Warn => (false, LogColor::Yellow),
            LogLevel::Info => (false, LogColor::Plain),
            LogLevel::Debug => (true, LogColor::Blue),
            LogLevel::Trace => (true, LogColor::Purple),
        },
{
    match level {
        LogLevel::Error => (true, LogColor::Red),
        LogLevel::Warn => (false, LogColor::Yellow),
        LogLevel::Info => (false, LogColor::Plain),
        LogLevel::Debug => (true, LogColor::Blue),
        LogLevel::Trace => (true, LogColor::Purple),
    }
}

/// The severity name `trace`.
pub open spec fn trace_name() -> Seq<u8> {
    seq![116u8, 114u8, 97u8, 99u8, 101u8]
}

/// The severity name `debug`.
pub open spec fn debug_name() -> Seq<u8> {
    seq![100u8, 101u8, 98u8, 117u8, 103u8]
}

/// The severity name `info`.
pub open spec fn info_name() -> Seq<u8> {
    seq![105u8, 110u8, 102u8, 111u8]
}

/// The severity name `warn`.
pub open spec fn warn_name() -> Seq<u8> {
    seq![119u8, 97u8, 114u8, 110u8]
}

/// The severity name `error`.
pub open spec fn error_name() -> Seq<u8> {
    seq![101u8, 114u8, 114u8, 111u8, 114u8]
}

/// The exec bytes of `trace`.
pub fn trace_name_bytes() -> (r: Vec<u8>)
    ensures
        r@ == trace_name(),
{
    let mut v: Vec<u8> = Vec::new();
    v.push(116);
    v.push(114);
    v.push(97);
    v.push(99);
    v.push(101);
    proof {
        assert(v@ =~= trace_name());
    }
    v
}

/// The exec bytes of `debug`.
pub fn debug_name_bytes() -> (r: Vec<u8>)
    ensures
        r@ == debug_name(),
{
    let mut v: Vec<u8> = Vec::new();
    v.push(100);
    v.push(101);
    v.push(98);
    v.push(117);
    v.push(103);
    proof {
        assert(v@ =~= debug_name());
    }
    v
}

/// The exec bytes of `info`.
pub fn info_name_bytes() -> (r: Vec<u8>)
    ensures
        r@ == info_name(),
{
    let mut v: Vec<u8> = Vec::new();
    v.push(105);
    v.push(110);
    v.push(102);
    v.push(111);
    proof {
        assert(v@ =~= info_name());
    }
    v
}

/// The exec bytes of `warn`.
pub fn warn_name_bytes() -> (r: Vec<u8>)
    ensures
        r@ == warn_name(),
{
    let mut v: Vec<u8> = Vec::new();
    v.push(119);
    v.push(97);
    v.push(114);
    v.push(110);
    proof {
        assert(v@ =~= warn_name());
    }
    v
}

/// The exec bytes of `error`.
pub fn error_name_bytes() -> (r: Vec<u8>)
    ensures
        r@ == error_name(),
{
    let mut v: Vec<u8> = Vec::new();
    v.push(101);
    v.push(114);
    v.push(114);
    v.push(111);
    v.push(114);
    proof {
        assert(v@ =~= error_name());
    }
    v
}

/// The severity a command-line name selects: `trace`, `debug`,
/// `info`, `warn` or `error`, and `Info` for anything else.
pub fn level_filter_of(s: &Vec<u8>) -> (r: LogLevel)
    ensures
        r == if s@ == trace_name() {
            LogLevel::Trace
        } else if s@ == debug_name() {
            LogLevel::Debug
        } else if s@ == info_name() {
            LogLevel::Info
        } else if s@ == warn_name() {
            LogLevel::Warn
        } else if s@ == error_name() {
            LogLevel::Error
        } else {
            LogLevel::Info
        },
{
    if bytes_eq(s, &trace_name_bytes()) {
        LogLevel::Trace
    } else if bytes_eq(s, &debug_name_bytes()) {
        LogLevel::Debug
    } else if bytes_eq(s, &info_name_bytes()) {
        LogLevel::Info
    } else if bytes_eq(s, &warn_name_bytes()) {
        LogLevel::Warn
    } else if bytes_eq(s, &error_name_bytes()) {
        LogLevel::Error
    } else {
        LogLevel::Info
    }
}

} // verus!
