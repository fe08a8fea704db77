//! What the configuration says, character by character, and what the server and its clock do, said in
//! numbers.
use crate::clock::timestamp;
use crate::config::{
    bool_of, digits_of, first_problem, number_after, number_of, text_of, text_view, Config, ConfigError,
    Problem, RawVar, RawVarView, RawVars, Setting, DEFAULT_MAX_ENTRIES, DEFAULT_SOCKET_PATH,
    DEFAULT_SWEEP_INTERVAL_SECS,
};
use crate::protocol::{MAX_FRAME_SIZE, MGET_LIMIT_CAP, SCAN_LIMIT_CAP};
use crate::server::{
    farewell, law_runs_every_interval, left_after, next_accept, next_action, permits_after,
    ping_exit_code, plan_bind, AcceptAction, AcceptEvent, BindPlan, ConnSemaphore, PathState,
    PeriodicTask, Permit, PermitEvent, ReadFailure, TaskAction, ACCEPT_POLL_MS, MAX_CONNECTIONS,
    READ_TIMEOUT_SECS,
};
use crate::store::{shard_of, PER_SHARD_CAPACITY, SHARDS};
use crate::text::lemma_encode_concat;
use std::collections::hash_map::DefaultHasher;
use vstd::prelude::*;
use vstd::std_specs::hash::DefaultHasherAdditionalSpecFns;
use vstd::utf8::{
    char_is_scalar, encode_scalar, encode_utf8, is_ascii_chars, is_ascii_chars_encode_utf8,
    leading_byte_width_2, leading_byte_width_3, leading_byte_width_4,
};

verus! {

/// The limits and the defaults.
pub proof fn law_numbers()
    ensures
        MAX_FRAME_SIZE == 1_048_576,
        SCAN_LIMIT_CAP == 1024,
        MGET_LIMIT_CAP == 256,
        MAX_CONNECTIONS == 256,
        READ_TIMEOUT_SECS == 30,
        ACCEPT_POLL_MS == 100,
        DEFAULT_MAX_ENTRIES == 100_000,
        DEFAULT_SWEEP_INTERVAL_SECS == 30,
        DEFAULT_SOCKET_PATH@ == "/tmp/kvr.sock"@,
        SHARDS == 16,
        PER_SHARD_CAPACITY == 8192,
{
}

/// The shard of a key is the remainder of its hash by 16.
pub proof fn law_shard(key: Seq<char>)
    ensures
        shard_of(key) == DefaultHasher::spec_finish(seq![encode_utf8(key), seq![0xFFu8]]) % 16,
{
    let hash = DefaultHasher::spec_finish(seq![encode_utf8(key), seq![0xFFu8]]);
    assert((hash as usize) & 15 == hash % 16) by (bit_vector);
}

/// A reading of the clock stands for itself below 2^64 milliseconds, and for the same as one that is
/// 2^64 milliseconds earlier beyond. A clock before the epoch reads as 0.
pub proof fn law_timestamp(ms: u128)
    ensures
        timestamp(None) == 0,
        ms < 0x1_0000_0000_0000_0000 ==> timestamp(Some(ms)) == ms,
        ms >= 0x1_0000_0000_0000_0000 ==> timestamp(Some(ms)) == timestamp(
            Some((ms - 0x1_0000_0000_0000_0000) as u128),
        ),
{
}

/// A task stops where the server is shutting down. Else it runs where no second is left, and has its
/// interval before it then, and it sleeps for one of the seconds that are left where there are any.
pub proof fn law_task(interval: nat, remaining: nat)
    ensures
        next_action(interval, remaining, true) == (TaskAction::Stop, remaining),
        next_action(interval, 0, false) == (TaskAction::Run, interval),
        next_action(interval, remaining + 1, false) == (TaskAction::SleepSecond, remaining),
{
}

/// What variables mean: the same text, or that there is none.
pub proof fn law_variables(var: RawVar, text: Option<String>)
    ensures
        match var {
            RawVar::Unset => var@ == RawVarView::Unset && text_of(var@) is None,
            RawVar::NotUnicode => var@ == RawVarView::NotUnicode && text_of(var@) is None,
            RawVar::Text(t) => var@ == RawVarView::Text(t@) && text_of(var@) == Some(t@),
        },
        match text {
            Some(t) => text_view(text) == Some(t@),
            None => text_view(text) is None,
        },
{
}

/// What a truth value may be: `true` or `false`, and the default where it is not set or empty.
pub proof fn law_truth_values(text: Seq<char>, default: bool)
    ensures
        bool_of(RawVarView::Unset, default) == Ok::<bool, Problem>(default),
        bool_of(RawVarView::NotUnicode, default) == Err::<bool, Problem>(Problem::NotUnicode),
        text.len() == 0 ==> bool_of(RawVarView::Text(text), default) == Ok::<bool, Problem>(default),
        bool_of(RawVarView::Text("true"@), default) == Ok::<bool, Problem>(true),
        bool_of(RawVarView::Text("false"@), default) == Ok::<bool, Problem>(false),
        text.len() > 0 && text != "true"@ && text != "false"@ ==> bool_of(
            RawVarView::Text(text),
            default,
        ) == Err::<bool, Problem>(Problem::NotBool),
{
    reveal_strlit("true");
    reveal_strlit("false");
    assert("true"@[0] != "false"@[0]);
}

/// What a variable with one character gives for a number, and one that is not set or empty.
pub proof fn law_number_of_one_char(c: char, default: nat, max: nat)
    ensures
        ({
            let number = number_of(RawVarView::Text(seq![c]), default, max);
            let digit = '0' <= c && c <= '9';
            &&& digit && c as int - 0x30 <= max ==> number == Ok::<nat, Problem>(
                (c as int - 0x30) as nat,
            )
            &&& digit && c as int - 0x30 > max ==> number == Err::<nat, Problem>(Problem::TooLarge)
            &&& !digit ==> number == Err::<nat, Problem>(Problem::InvalidDigit)
            &&& number_of(RawVarView::Unset, default, max) == Ok::<nat, Problem>(default)
            &&& number_of(RawVarView::Text(seq![]), default, max) == Ok::<nat, Problem>(default)
            &&& number_of(RawVarView::NotUnicode, default, max) == Err::<nat, Problem>(
                Problem::NotUnicode,
            )
        }),
{
    let b = encode_utf8(seq![c]);
    lemma_char(c);
    lemma_next_char(0, c, max);
    assert(digits_of(b) == b);
}

/// What one more character does to a number: a digit makes it ten times as large and adds itself,
/// unless that is beyond the largest number, and anything else is no digit. What was wrong before is
/// still wrong.
pub proof fn law_number_of_one_more_char(text: Seq<char>, c: char, default: nat, max: nat)
    requires
        text.len() > 0,
        text != seq!['+'],
    ensures
        ({
            let number = number_of(RawVarView::Text(text.push(c)), default, max);
            let digit = '0' <= c && c <= '9';
            match number_of(RawVarView::Text(text), default, max) {
                Ok(n) => {
                    let m = n * 10 + (c as int - 0x30);
                    &&& digit && m <= max ==> number == Ok::<nat, Problem>(m as nat)
                    &&& digit && m > max ==> number == Err::<nat, Problem>(Problem::TooLarge)
                    &&& !digit ==> number == Err::<nat, Problem>(Problem::InvalidDigit)
                },
                Err(e) => number == Err::<nat, Problem>(e),
            }
        }),
{
    let a = encode_utf8(text);
    let b = encode_utf8(seq![c]);
    assert(text.push(c) =~= text + seq![c]);
    lemma_encode_concat(text, seq![c]);
    lemma_char(c);
    lemma_first_byte(text);
    if text[0] == '+' {
        assert(text.len() > 1) by {
            if text.len() == 1 {
                assert(text =~= seq!['+']);
            }
        }
        lemma_first_byte(text.drop_first());
        assert(a.len() > 1);
        assert((a + b).drop_first() =~= a.drop_first() + b);
    }
    assert(digits_of(a + b) == digits_of(a) + b);
    lemma_digits_append(0, digits_of(a), b, max);
    if let Ok(n) = number_after(0, digits_of(a), max) {
        lemma_next_char(n, c, max);
    }
}

/// A sign before a number does not count, and two are one too many.
pub proof fn law_number_with_sign(text: Seq<char>, default: nat, max: nat)
    requires
        text.len() > 0,
    ensures
        text[0] != '+' ==> number_of(RawVarView::Text(seq!['+'] + text), default, max)
            == number_of(RawVarView::Text(text), default, max),
        text[0] == '+' ==> number_of(RawVarView::Text(seq!['+'] + text), default, max) == Err::<
            nat,
            Problem,
        >(Problem::InvalidDigit),
{
    let signed = seq!['+'] + text;
    lemma_encode_concat(seq!['+'], text);
    lemma_char('+');
    lemma_first_byte(text);
    let (a, b) = (encode_utf8(signed), encode_utf8(text));
    assert(a == seq![0x2Bu8] + b);
    assert(a.drop_first() =~= b);
}

/// The bytes of one character: itself where it is ASCII, and none that is where it is not.
proof fn lemma_char(c: char)
    ensures
        encode_utf8(seq![c]).len() > 0,
        (c as int) < 0x80 ==> encode_utf8(seq![c]) == seq![c as u8] && c as u8 == c as int,
        (c as int) >= 0x80 ==> encode_utf8(seq![c])[0] >= 0x80,
        encode_utf8(seq![c]) == encode_scalar(c as u32),
{
    let s = seq![c];
    let u = c as u32;
    char_is_scalar(c);
    assert(s[0] == c);
    assert(encode_utf8(s.drop_first()).len() == 0);
    assert(encode_utf8(s) =~= encode_scalar(u));
    if u < 0x80 {
        assert(is_ascii_chars(s));
        is_ascii_chars_encode_utf8(s);
        assert(encode_utf8(s)[0] == s[0] as u8);
        assert(encode_utf8(s) =~= seq![c as u8]);
    } else {
        assert(leading_byte_width_2(u) >= 0x80 && leading_byte_width_3(u) >= 0x80
            && leading_byte_width_4(u) >= 0x80) by (bit_vector);
    }
}

/// The first byte of a text is a plus sign exactly where its first character is.
proof fn lemma_first_byte(text: Seq<char>)
    requires
        text.len() > 0,
    ensures
        encode_utf8(text).len() > 0,
        encode_utf8(text)[0] == 0x2B <==> text[0] == '+',
        encode_utf8(text).len() >= 1 + encode_utf8(text.drop_first()).len(),
{
    lemma_char(text[0]);
    assert(encode_utf8(text)[0] == encode_scalar(text[0] as u32)[0]);
}

/// Digits that follow others are read after them.
proof fn lemma_digits_append(high: nat, a: Seq<u8>, b: Seq<u8>, max: nat)
    ensures
        number_after(high, a + b, max) == match number_after(high, a, max) {
            Ok(n) => number_after(n, b, max),
            Err(e) => Err(e),
        },
    decreases a.len(),
{
    if a.len() == 0 {
        assert(a + b =~= b);
    } else {
        assert((a + b)[0] == a[0]);
        assert((a + b).drop_first() =~= a.drop_first() + b);
        if 0x30 <= a[0] <= 0x39 {
            lemma_digits_append((high * 10 + (a[0] - 0x30)) as nat, a.drop_first(), b, max);
        }
    }
}

/// What the bytes of one character do to a number.
proof fn lemma_next_char(n: nat, c: char, max: nat)
    ensures
        ({
            let number = number_after(n, encode_utf8(seq![c]), max);
            let digit = '0' <= c && c <= '9';
            let m = n * 10 + (c as int - 0x30);
            &&& digit && m <= max ==> number == Ok::<nat, Problem>(m as nat)
            &&& digit && m > max ==> number == Err::<nat, Problem>(Problem::TooLarge)
            &&& !digit ==> number == Err::<nat, Problem>(Problem::InvalidDigit)
        }),
{
    let b = encode_utf8(seq![c]);
    lemma_char(c);
    if '0' <= c && c <= '9' {
        let m = (n * 10 + (c as int - 0x30)) as nat;
        assert(b[0] == c as int);
        assert(b.drop_first().len() == 0);
        assert(number_after(m, b.drop_first(), max) == Ok::<nat, Problem>(m));
    }
}

/// When the configuration is refused: for the first of these that holds. The number of connections
/// (256 by default) is malformed or 0; the bound on the entries (100,000), the seconds between sweeps
/// (30), the choice to save at shutdown (true) or the seconds between saves (0) is malformed.
pub proof fn law_refused_configuration(vars: RawVars)
    ensures
        ({
            let connections = number_of(vars.max_connections@, 256, usize::MAX as nat);
            let entries = number_of(vars.max_entries@, 100_000, usize::MAX as nat);
            let sweep = number_of(vars.sweep_interval_secs@, 30, 0xFFFF_FFFF_FFFF_FFFF);
            let save = bool_of(vars.snapshot_on_shutdown@, true);
            let interval = number_of(vars.snapshot_interval_secs@, 0, 0xFFFF_FFFF_FFFF_FFFF);
            match first_problem(vars) {
                None => {
                    &&& connections is Ok && connections->Ok_0 > 0
                    &&& entries is Ok
                    &&& sweep is Ok
                    &&& save is Ok
                    &&& interval is Ok
                },
                Some(ConfigError { setting, problem }) => match setting {
                    Setting::MaxConnections => if connections is Ok {
                        connections->Ok_0 == 0 && problem == Problem::Zero
                    } else {
                        connections->Err_0 == problem
                    },
                    Setting::MaxEntries => {
                        &&& connections is Ok && connections->Ok_0 > 0
                        &&& entries is Err && entries->Err_0 == problem
                    },
                    Setting::SweepIntervalSecs => {
                        &&& connections is Ok && connections->Ok_0 > 0
                        &&& entries is Ok
                        &&& sweep is Err && sweep->Err_0 == problem
                    },
                    Setting::SnapshotOnShutdown => {
                        &&& connections is Ok && connections->Ok_0 > 0
                        &&& entries is Ok
                        &&& sweep is Ok
                        &&& save is Err && save->Err_0 == problem
                    },
                    Setting::SnapshotIntervalSecs => {
                        &&& connections is Ok && connections->Ok_0 > 0
                        &&& entries is Ok
                        &&& sweep is Ok
                        &&& save is Ok
                        &&& interval is Err && interval->Err_0 == problem
                    },
                },
            }
        }),
{
}

/// A call of [`Config::from_vars`]: it succeeds exactly where nothing is refused, and then gives the
/// numbers and the truth value that the variables give, or their defaults; the socket path as it is,
/// `/tmp/kvr.sock` where there is none; the address as it is; and the snapshot path, unless that is
/// empty.
pub proof fn law_call_configuration(vars: RawVars, config: Result<Config, ConfigError>)
    requires
        call_ensures(Config::from_vars, (vars,), config),
    ensures
        match config {
            Err(e) => first_problem(vars) == Some(e),
            Ok(config) => {
                &&& first_problem(vars) is None
                &&& number_of(vars.max_entries@, 100_000, usize::MAX as nat) == Ok::<nat, Problem>(
                    config.max_entries as nat,
                )
                &&& number_of(vars.max_connections@, 256, usize::MAX as nat) == Ok::<nat, Problem>(
                    config.max_connections as nat,
                )
                &&& config.max_connections > 0
                &&& number_of(vars.sweep_interval_secs@, 30, 0xFFFF_FFFF_FFFF_FFFF) == Ok::<
                    nat,
                    Problem,
                >(config.sweep_interval_secs as nat)
                &&& number_of(vars.snapshot_interval_secs@, 0, 0xFFFF_FFFF_FFFF_FFFF) == Ok::<
                    nat,
                    Problem,
                >(config.snapshot_interval_secs as nat)
                &&& bool_of(vars.snapshot_on_shutdown@, true) == Ok::<bool, Problem>(
                    config.snapshot_on_shutdown,
                )
                &&& match vars.socket_path {
                    RawVar::Text(path) => config.socket_path@ == path@,
                    _ => config.socket_path@ == "/tmp/kvr.sock"@,
                }
                &&& match vars.tcp_addr {
                    RawVar::Text(addr) => config.tcp_addr is Some && config.tcp_addr->0@ == addr@,
                    _ => config.tcp_addr is None,
                }
                &&& match vars.snapshot_path {
                    RawVar::Text(path) => if path@.len() == 0 {
                        config.snapshot_path is None
                    } else {
                        config.snapshot_path is Some && config.snapshot_path->0@ == path@
                    },
                    _ => config.snapshot_path is None,
                }
            },
        },
{
}

/// Calls of [`ConnSemaphore::acquire_or_shutdown`] and [`ConnSemaphore::release`]: a server that is
/// shutting down grants nothing; else a permit is granted exactly where one is left, and is one less
/// then. A permit that is given back is one more.
pub proof fn law_call_permits(
    asking: &mut ConnSemaphore,
    shutdown: bool,
    permit: Permit,
    releasing: &mut ConnSemaphore,
)
    requires
        call_ensures(ConnSemaphore::acquire_or_shutdown, (asking, shutdown), permit),
        call_ensures(ConnSemaphore::release, (releasing,), ()),
    ensures
        permit == Permit::ShuttingDown <==> shutdown,
        permit == Permit::Granted <==> !shutdown && old(asking).free() > 0,
        permit == Permit::Wait <==> !shutdown && old(asking).free() == 0,
        permit == Permit::Granted ==> final(asking).free() + 1 == old(asking).free(),
        permit != Permit::Granted ==> final(asking).free() == old(asking).free(),
        final(releasing).free() == old(releasing).free() + 1,
{
}

/// Calls of [`ConnSemaphore::new`], [`ConnSemaphore::acquire_or_shutdown`] and
/// [`ConnSemaphore::release`] do to the permits that are left what the events they stand for do.
pub proof fn law_permits_follow_calls(
    max: usize,
    new: ConnSemaphore,
    events: Seq<PermitEvent>,
    asking: &mut ConnSemaphore,
    shutdown: bool,
    permit: Permit,
    releasing: &mut ConnSemaphore,
)
    requires
        call_ensures(ConnSemaphore::new, (max,), new),
        call_ensures(ConnSemaphore::acquire_or_shutdown, (asking, shutdown), permit),
        call_ensures(ConnSemaphore::release, (releasing,), ()),
    ensures
        permits_after(max as nat, seq![]) == (new.free() as int, 0int),
        ({
            let (free, held) = permits_after(max as nat, events);
            let asked = permits_after(max as nat, events.push(PermitEvent::Asked { shutdown }));
            let given = permits_after(max as nat, events.push(PermitEvent::Released));
            &&& old(asking).free() == free ==> asked.0 == final(asking).free()
            &&& old(asking).free() == free ==> asked.1 == held + (if permit == Permit::Granted {
                1int
            } else {
                0
            })
            &&& old(releasing).free() == free ==> given == (final(releasing).free() as int, held - 1)
        }),
{
    assert(events.push(PermitEvent::Asked { shutdown }).drop_last() =~= events);
    assert(events.push(PermitEvent::Released).drop_last() =~= events);
}

/// A call of [`next_accept`]: each action is what exactly one event asks for, but for the end, which
/// is what a shutdown asks for wherever it is seen.
pub proof fn law_call_next_accept(event: AcceptEvent, action: AcceptAction)
    requires
        call_ensures(next_accept, (event,), action),
    ensures
        action == AcceptAction::Stop <==> event == (AcceptEvent::Polled { shutdown: true })
            || event == (AcceptEvent::Asked { permit: Permit::ShuttingDown }),
        action == AcceptAction::Accept <==> event == (AcceptEvent::Polled { shutdown: false }),
        action == AcceptAction::AskPermit <==> event == AcceptEvent::Connected,
        action == AcceptAction::AwaitPermit <==> event == (AcceptEvent::Asked {
            permit: Permit::Wait,
        }),
        action == AcceptAction::Spawn <==> event == (AcceptEvent::Asked { permit: Permit::Granted }),
        action == (AcceptAction::Pause { report: false }) <==> event == AcceptEvent::WouldBlock,
        action == (AcceptAction::Pause { report: true }) <==> event == AcceptEvent::Failed,
        action == AcceptAction::Poll <==> event == (AcceptEvent::Spawned { ok: true }),
        action == AcceptAction::ReportSpawn <==> event == (AcceptEvent::Spawned { ok: false }),
{
}

/// Calls of [`plan_bind`], [`farewell`] and [`ping_exit_code`]: a socket is removed exactly where
/// nobody answers on it, and another server's socket or another kind of file is refused; only a
/// client that neither went away nor was silent is sent anything, which is 0xFF; and a server is
/// healthy exactly where it answers 0x10 and nothing more.
pub proof fn law_call_decisions(
    found: PathState,
    plan: BindPlan,
    failure: ReadFailure,
    reply: Option<Vec<u8>>,
    response: Option<&[u8]>,
    code: i32,
)
    requires
        call_ensures(plan_bind, (found,), plan),
        call_ensures(farewell, (failure,), reply),
        call_ensures(ping_exit_code, (response,), code),
    ensures
        plan == BindPlan::Bind <==> found == PathState::Missing,
        plan == BindPlan::RemoveAndBind <==> found == (PathState::Socket { live: false }),
        plan == BindPlan::RefuseLive <==> found == (PathState::Socket { live: true }),
        plan == BindPlan::RefuseNotSocket <==> found == PathState::NotSocket,
        reply is Some <==> failure == ReadFailure::Other,
        reply is Some ==> reply->0@ == seq![0xFFu8],
        code == 0 || code == 1,
        code == 0 <==> response is Some && response->0@ == seq![0x10u8],
{
}

/// Calls of [`PeriodicTask::start`] and [`PeriodicTask::next`]: a task with the interval 0 is not
/// started; another has its interval before it. It stops where the server is shutting down; else it
/// runs where no second is left, and has its interval before it then, and sleeps for one of the
/// seconds that are left where there are any.
pub proof fn law_call_task(
    interval_secs: u64,
    started: Option<PeriodicTask>,
    task: &mut PeriodicTask,
    shutdown: bool,
    action: TaskAction,
)
    requires
        call_ensures(PeriodicTask::start, (interval_secs,), started),
        call_ensures(PeriodicTask::next, (task, shutdown), action),
    ensures
        started is None <==> interval_secs == 0,
        started is Some ==> started->0.interval() == interval_secs && started->0.remaining()
            == interval_secs,
        action == TaskAction::Stop <==> shutdown,
        action == TaskAction::Run <==> !shutdown && old(task).remaining() == 0,
        action == TaskAction::SleepSecond <==> !shutdown && old(task).remaining() > 0,
        action == TaskAction::Stop ==> final(task).remaining() == old(task).remaining(),
        action == TaskAction::Run ==> final(task).remaining() == old(task).interval(),
        action == TaskAction::SleepSecond ==> final(task).remaining() + 1
            == old(task).remaining(),
        final(task).interval() == old(task).interval(),
{
}

/// Calls of [`PeriodicTask::next`] with no shutdown leave the seconds that are left as its actions do
/// one after the other.
pub proof fn law_task_follows_calls(
    interval_secs: u64,
    started: Option<PeriodicTask>,
    task: &mut PeriodicTask,
    n: nat,
    action: TaskAction,
)
    requires
        call_ensures(PeriodicTask::start, (interval_secs,), started),
        call_ensures(PeriodicTask::next, (task, false), action),
    ensures
        started is Some ==> started->0.remaining() == left_after(interval_secs as nat, 0),
        old(task).interval() == interval_secs && old(task).remaining() == left_after(
            interval_secs as nat,
            n,
        ) ==> {
            &&& final(task).remaining() == left_after(interval_secs as nat, n + 1)
            &&& action == TaskAction::Run <==> n % (interval_secs as nat + 1) == interval_secs
        },
{
    law_runs_every_interval(interval_secs as nat, n);
}

} // verus!
