//! Server configuration from environment variables.
use crate::bytes::bytes_equal;
use crate::server::MAX_CONNECTIONS;
use crate::text::lemma_encode_injective;
use vstd::prelude::*;
use vstd::slice::slice_subrange;
use vstd::utf8::encode_utf8;

verus! {

/// The socket path by default.
pub const DEFAULT_SOCKET_PATH: &'static str = "/tmp/kvr.sock";

/// The bound on the number of entries by default.
pub const DEFAULT_MAX_ENTRIES: usize = 100_000;

/// The number of seconds between two sweeps by default.
pub const DEFAULT_SWEEP_INTERVAL_SECS: u64 = 30;

/// An environment variable as the system gives it.
#[derive(Debug)]
pub enum RawVar {
    /// It is not set.
    Unset,
    /// It is set to something that is not valid UTF-8.
    NotUnicode,
    /// It is set to this text.
    Text(String),
}

/// What a [`RawVar`] means.
pub enum RawVarView {
    Unset,
    NotUnicode,
    Text(Seq<char>),
}

impl View for RawVar {
    type V = RawVarView;

    open spec fn view(&self) -> RawVarView {
        match *self {
            RawVar::Unset => RawVarView::Unset,
            RawVar::NotUnicode => RawVarView::NotUnicode,
            RawVar::Text(text) => RawVarView::Text(text@),
        }
    }
}

/// The variables that the server reads.
#[derive(Debug)]
pub struct RawVars {
    pub socket_path: RawVar,
    pub tcp_addr: RawVar,
    pub max_entries: RawVar,
    pub max_connections: RawVar,
    pub sweep_interval_secs: RawVar,
    pub snapshot_path: RawVar,
    pub snapshot_on_shutdown: RawVar,
    pub snapshot_interval_secs: RawVar,
}

/// What is wrong with the value of a variable.
#[derive(Debug, Clone, Copy, PartialEq, Eq, Structural)]
pub enum Problem {
    /// It is not valid UTF-8.
    NotUnicode,
    /// It holds something that is not a decimal digit.
    InvalidDigit,
    /// It is a number that is too large.
    TooLarge,
    /// It is neither `true` nor `false`.
    NotBool,
    /// It is 0 where that makes no sense.
    Zero,
}

/// A variable whose value is parsed.
#[derive(Debug, Clone, Copy, PartialEq, Eq, Structural)]
pub enum Setting {
    MaxConnections,
    MaxEntries,
    SweepIntervalSecs,
    SnapshotOnShutdown,
    SnapshotIntervalSecs,
}

/// Why the server refuses to start: a variable, and what is wrong with its value.
#[derive(Debug, Clone, Copy, PartialEq, Eq, Structural)]
pub struct ConfigError {
    pub setting: Setting,
    pub problem: Problem,
}

/// The configuration of the server.
#[derive(Debug)]
pub struct Config {
    pub socket_path: String,
    pub tcp_addr: Option<String>,
    pub max_entries: usize,
    pub max_connections: usize,
    pub sweep_interval_secs: u64,
    pub snapshot_path: Option<String>,
    pub snapshot_on_shutdown: bool,
    pub snapshot_interval_secs: u64,
}

/// Whether a byte is a decimal digit.
pub open spec fn is_digit(byte: u8) -> bool {
    0x30 <= byte <= 0x39
}

/// The number that decimal digits stand for after `high`, or the first thing that is wrong with
/// them: a byte that is not a digit, or a number beyond `max`.
pub open spec fn number_after(high: nat, digits: Seq<u8>, max: nat) -> Result<nat, Problem>
    decreases digits.len(),
{
    if digits.len() == 0 {
        Ok(high)
    } else if !is_digit(digits[0]) {
        Err(Problem::InvalidDigit)
    } else if high * 10 + (digits[0] - 0x30) > max {
        Err(Problem::TooLarge)
    } else {
        number_after((high * 10 + (digits[0] - 0x30)) as nat, digits.drop_first(), max)
    }
}

/// The digits of a number: all of it but for a leading `+` that something follows.
pub open spec fn digits_of(text: Seq<u8>) -> Seq<u8> {
    if text.len() > 1 && text[0] == 0x2B {
        text.drop_first()
    } else {
        text
    }
}

/// The number that a variable gives: the default where it is not set or empty.
pub open spec fn number_of(var: RawVarView, default: nat, max: nat) -> Result<nat, Problem> {
    match var {
        RawVarView::Unset => Ok(default),
        RawVarView::NotUnicode => Err(Problem::NotUnicode),
        RawVarView::Text(text) => if text.len() == 0 {
            Ok(default)
        } else {
            number_after(0, digits_of(encode_utf8(text)), max)
        },
    }
}

/// The truth value that a variable gives: the default where it is not set or empty.
pub open spec fn bool_of(var: RawVarView, default: bool) -> Result<bool, Problem> {
    match var {
        RawVarView::Unset => Ok(default),
        RawVarView::NotUnicode => Err(Problem::NotUnicode),
        RawVarView::Text(text) => if text.len() == 0 {
            Ok(default)
        } else if text == "true"@ {
            Ok(true)
        } else if text == "false"@ {
            Ok(false)
        } else {
            Err(Problem::NotBool)
        },
    }
}

/// The text that a variable gives, if any.
pub open spec fn text_of(var: RawVarView) -> Option<Seq<char>> {
    match var {
        RawVarView::Text(text) => Some(text),
        _ => None,
    }
}

/// The text of an optional string.
pub open spec fn text_view(text: Option<String>) -> Option<Seq<char>> {
    match text {
        Some(text) => Some(text@),
        None => None,
    }
}

/// What is wrong with the variables, if anything: the first of them that cannot be used.
pub open spec fn first_problem(vars: RawVars) -> Option<ConfigError> {
    let max = usize::MAX as nat;
    if let Err(problem) = number_of(vars.max_connections@, MAX_CONNECTIONS as nat, max) {
        Some(ConfigError { setting: Setting::MaxConnections, problem })
    } else if number_of(vars.max_connections@, MAX_CONNECTIONS as nat, max) == Ok::<nat, Problem>(
        0,
    ) {
        Some(ConfigError { setting: Setting::MaxConnections, problem: Problem::Zero })
    } else if let Err(problem) = number_of(vars.max_entries@, DEFAULT_MAX_ENTRIES as nat, max) {
        Some(ConfigError { setting: Setting::MaxEntries, problem })
    } else if let Err(problem) = number_of(
        vars.sweep_interval_secs@,
        DEFAULT_SWEEP_INTERVAL_SECS as nat,
        u64::MAX as nat,
    ) {
        Some(ConfigError { setting: Setting::SweepIntervalSecs, problem })
    } else if let Err(problem) = bool_of(vars.snapshot_on_shutdown@, true) {
        Some(ConfigError { setting: Setting::SnapshotOnShutdown, problem })
    } else if let Err(problem) = number_of(vars.snapshot_interval_secs@, 0, u64::MAX as nat) {
        Some(ConfigError { setting: Setting::SnapshotIntervalSecs, problem })
    } else {
        None
    }
}

/// Reads decimal digits.
fn parse_digits(digits: &[u8], max: u64) -> (number: Result<u64, Problem>)
    ensures
        match number {
            Ok(n) => number_after(0, digits@, max as nat) == Ok::<nat, Problem>(n as nat),
            Err(e) => number_after(0, digits@, max as nat) == Err::<nat, Problem>(e),
        },
{
    let mut n: u64 = 0;
    let mut i: usize = 0;
    assert(digits@.skip(0) =~= digits@);
    while i < digits.len()
        invariant
            i <= digits@.len(),
            n <= max,
            number_after(0, digits@, max as nat) == number_after(
                n as nat,
                digits@.skip(i as int),
                max as nat,
            ),
        decreases digits@.len() - i,
    {
        let byte: u8 = digits[i];
        proof {
            assert(digits@.skip(i as int)[0] == byte);
            assert(digits@.skip(i as int).drop_first() =~= digits@.skip(i + 1));
        }
        if byte < 0x30 || byte > 0x39 {
            return Err(Problem::InvalidDigit);
        }
        let digit: u64 = (byte - 0x30) as u64;
        if n > max / 10 || digit > max - n * 10 {
            return Err(Problem::TooLarge);
        }
        n = n * 10 + digit;
        i += 1;
    }
    Ok(n)
}

/// Reads a number from a variable.
fn parse_number(var: &RawVar, default: u64, max: u64) -> (number: Result<u64, Problem>)
    requires
        default <= max,
    ensures
        match number {
            Ok(n) => number_of(var@, default as nat, max as nat) == Ok::<nat, Problem>(n as nat)
                && n <= max,
            Err(e) => number_of(var@, default as nat, max as nat) == Err::<nat, Problem>(e),
        },
{
    match var {
        RawVar::Unset => Ok(default),
        RawVar::NotUnicode => Err(Problem::NotUnicode),
        RawVar::Text(text) => {
            if text.as_str().is_empty() {
                return Ok(default);
            }
            let bytes = text.as_str().as_bytes();
            let number = if bytes.len() > 1 && bytes[0] == 0x2B {
                assert(bytes@.subrange(1, bytes@.len() as int) =~= bytes@.drop_first());
                parse_digits(slice_subrange(bytes, 1, bytes.len()), max)
            } else {
                parse_digits(bytes, max)
            };
            proof {
                lemma_number_bound(0, digits_of(bytes@), max as nat);
            }
            number
        },
    }
}

/// A number that is read is within its bound.
proof fn lemma_number_bound(high: nat, digits: Seq<u8>, max: nat)
    requires
        high <= max,
    ensures
        number_after(high, digits, max) matches Ok(n) ==> n <= max,
    decreases digits.len(),
{
    if digits.len() > 0 && is_digit(digits[0]) && high * 10 + (digits[0] - 0x30) <= max {
        lemma_number_bound((high * 10 + (digits[0] - 0x30)) as nat, digits.drop_first(), max);
    }
}

/// Whether two texts are equal.
fn same_text(a: &str, b: &str) -> (yes: bool)
    ensures
        yes == (a@ == b@),
{
    proof {
        if encode_utf8(a@) == encode_utf8(b@) {
            lemma_encode_injective(a@, b@);
        }
    }
    bytes_equal(a.as_bytes(), b.as_bytes())
}

/// Reads a truth value from a variable.
fn parse_bool(var: &RawVar, default: bool) -> (value: Result<bool, Problem>)
    ensures
        value == bool_of(var@, default),
{
    match var {
        RawVar::Unset => Ok(default),
        RawVar::NotUnicode => Err(Problem::NotUnicode),
        RawVar::Text(text) => {
            if text.as_str().is_empty() {
                Ok(default)
            } else if same_text(text.as_str(), "true") {
                Ok(true)
            } else if same_text(text.as_str(), "false") {
                Ok(false)
            } else {
                Err(Problem::NotBool)
            }
        },
    }
}

/// The text of a variable, if it has any.
fn take_text(var: RawVar) -> (text: Option<String>)
    ensures
        text_view(text) == text_of(var@),
{
    match var {
        RawVar::Text(text) => Some(text),
        _ => None,
    }
}

impl Config {
    /// Reads the configuration. A number or truth value that is set but malformed is an error,
    /// never silently replaced by its default; one that is not set or empty gets its default. The
    /// texts are taken as they are: the socket path has a default, and an empty snapshot path is
    /// none.
    pub fn from_vars(vars: RawVars) -> (config: Result<Config, ConfigError>)
        ensures
            match config {
                Ok(config) => {
                    &&& first_problem(vars) is None
                    &&& config.socket_path@ == match text_of(vars.socket_path@) {
                        Some(path) => path,
                        None => DEFAULT_SOCKET_PATH@,
                    }
                    &&& text_view(config.tcp_addr) == text_of(vars.tcp_addr@)
                    &&& number_of(
                        vars.max_entries@,
                        DEFAULT_MAX_ENTRIES as nat,
                        usize::MAX as nat,
                    ) == Ok::<nat, Problem>(config.max_entries as nat)
                    &&& number_of(
                        vars.max_connections@,
                        MAX_CONNECTIONS as nat,
                        usize::MAX as nat,
                    ) == Ok::<nat, Problem>(config.max_connections as nat)
                    &&& config.max_connections > 0
                    &&& number_of(
                        vars.sweep_interval_secs@,
                        DEFAULT_SWEEP_INTERVAL_SECS as nat,
                        u64::MAX as nat,
                    ) == Ok::<nat, Problem>(config.sweep_interval_secs as nat)
                    &&& text_view(config.snapshot_path) == match text_of(vars.snapshot_path@) {
                        Some(path) => if path.len() == 0 {
                            None
                        } else {
                            Some(path)
                        },
                        None => None,
                    }
                    &&& bool_of(vars.snapshot_on_shutdown@, true) == Ok::<bool, Problem>(
                        config.snapshot_on_shutdown,
                    )
                    &&& number_of(vars.snapshot_interval_secs@, 0, u64::MAX as nat) == Ok::<
                        nat,
                        Problem,
                    >(config.snapshot_interval_secs as nat)
                },
                Err(e) => first_problem(vars) == Some(e),
            },
    {
        let max: u64 = usize::MAX as u64;
        let max_connections = match parse_number(
            &vars.max_connections,
            MAX_CONNECTIONS as u64,
            max,
        ) {
            Ok(n) => n as usize,
            Err(problem) => {
                return Err(ConfigError { setting: Setting::MaxConnections, problem });
            },
        };
        if max_connections == 0 {
            return Err(
                ConfigError { setting: Setting::MaxConnections, problem: Problem::Zero },
            );
        }
        let max_entries = match parse_number(&vars.max_entries, DEFAULT_MAX_ENTRIES as u64, max) {
            Ok(n) => n as usize,
            Err(problem) => {
                return Err(ConfigError { setting: Setting::MaxEntries, problem });
            },
        };
        let sweep_interval_secs = match parse_number(
            &vars.sweep_interval_secs,
            DEFAULT_SWEEP_INTERVAL_SECS,
            u64::MAX,
        ) {
            Ok(n) => n,
            Err(problem) => {
                return Err(ConfigError { setting: Setting::SweepIntervalSecs, problem });
            },
        };
        let snapshot_on_shutdown = match parse_bool(&vars.snapshot_on_shutdown, true) {
            Ok(yes) => yes,
            Err(problem) => {
                return Err(ConfigError { setting: Setting::SnapshotOnShutdown, problem });
            },
        };
        let snapshot_interval_secs = match parse_number(
            &vars.snapshot_interval_secs,
            0,
            u64::MAX,
        ) {
            Ok(n) => n,
            Err(problem) => {
                return Err(ConfigError { setting: Setting::SnapshotIntervalSecs, problem });
            },
        };
        let socket_path = match take_text(vars.socket_path) {
            Some(path) => path,
            None => DEFAULT_SOCKET_PATH.to_owned(),
        };
        let snapshot_path = match take_text(vars.snapshot_path) {
            Some(path) => if path.as_str().is_empty() {
                None
            } else {
                Some(path)
            },
            None => None,
        };
        Ok(
            Config {
                socket_path,
                tcp_addr: take_text(vars.tcp_addr),
                max_entries,
                max_connections,
                sweep_interval_secs,
                snapshot_path,
                snapshot_on_shutdown,
                snapshot_interval_secs,
            },
        )
    }
}

} // verus!
