//! Build self-test: running the game with `-quicktest` and judging the
//! result by its log.

use vstd::prelude::*;
use crate::log_analysis::parser::{lines_of, lines_view, log_issues, log_parses, parse_log, parse_ok, text_lines};
use crate::log_analysis::{issue_view, LogIssue, Severity};
use crate::text::{chars_of, contains, has_prefix, is_ascii_digit, occurs, starts_with};

verus! {

/// How a test run ended.
#[derive(Clone, Copy, PartialEq, Eq, Debug, Structural)]
pub enum Verdict {
    /// The game loaded and the log has no errors.
    Passed,
    /// The game loaded, but the log has errors.
    LoadedWithErrors,
    /// The game exited by itself before it began loading.
    Crashed { code: Option<i32> },
    /// The game's processes vanished in the middle of loading mods.
    DiedWhileLoading,
    /// The run took longer than allowed.
    TimedOut,
    /// The user stopped the run.
    Cancelled,
}

impl Verdict {
    pub fn is_success(&self) -> (r: bool)
        ensures
            r == (*self is Passed),
    {
        matches!(self, Verdict::Passed)
    }
}

} // verus!

verus! {

/// How long the log must stay quiet before loading counts as finished.
pub const DEFAULT_SETTLE_MS: u64 = 25_000;
/// How long a run may take at most.
pub const DEFAULT_TIMEOUT_MS: u64 = 600_000;

/// Settings of a test run.
#[derive(Clone, Debug)]
pub struct Config {
    /// The folder of ModsConfig.xml, where the tested build goes.
    pub config_dir: String,
    /// Where the game writes its log. It must lie inside the prefix: under
    /// umu the game runs in a container with its own `/tmp`.
    pub log_file: String,
    /// Quiet time that counts as loaded, in milliseconds.
    pub settle_ms: u64,
    /// Limit on the whole run, in milliseconds.
    pub timeout_ms: u64,
    /// How to finish off the wine/Proton chain: (prefix, path of the exe).
    /// Without it the game outlives its wrapper process.
    pub cleanup: Option<(String, String)>,
}

impl Config {
    pub fn new(config_dir: String, log_file: String) -> (r: Config)
        ensures
            r.config_dir@ == config_dir@,
            r.log_file@ == log_file@,
            r.settle_ms == DEFAULT_SETTLE_MS,
            r.timeout_ms == DEFAULT_TIMEOUT_MS,
            r.cleanup is None,
    {
        Config { config_dir, log_file, settle_ms: DEFAULT_SETTLE_MS, timeout_ms: DEFAULT_TIMEOUT_MS, cleanup: None }
    }
}

/// Where a run stands.
#[derive(Clone, Copy, PartialEq, Eq, Debug, Structural)]
pub enum Phase {
    /// The process runs, there is no log yet.
    Starting,
    /// The log grows.
    Loading { lines: usize },
    /// The log is quiet; waiting for confirmation.
    Settling { lines: usize, quiet_ms: u64 },
    Done(Verdict),
}

/// How far a run got.
#[derive(Clone, Copy, PartialEq, Eq, Debug, Structural)]
pub enum Progress {
    /// The game has not announced itself yet.
    NotStarted,
    /// The core started; mods are loading.
    Started,
    /// Loading finished: Unity changed the scene.
    Loaded,
}

/// The line with the game's version: `RimWorld ` and a digit.
pub open spec fn announces_version(line: Seq<char>) -> bool {
    has_prefix(line, "RimWorld "@) && line.len() > 9 && is_ascii_digit(line[9])
}

/// The line of unloading assets on a change of scene: in `-quicktest` it
/// comes on the way from the loading screen into the generated map.
pub open spec fn unloads_assets(line: Seq<char>) -> bool {
    occurs(line, "unused Assets to reduce memory usage"@)
}

/// Progress over the lines from the first on, given whether the version
/// line came already. The version line comes before the mods load, so it
/// alone is not enough; the unloading after it is.
pub open spec fn progress_from(ls: Seq<Seq<char>>, started: bool) -> Progress
    decreases ls.len(),
{
    if ls.len() == 0 {
        if started { Progress::Started } else { Progress::NotStarted }
    } else {
        let s2 = started || announces_version(ls[0]);
        if s2 && unloads_assets(ls[0]) {
            Progress::Loaded
        } else {
            progress_from(ls.drop_first(), s2)
        }
    }
}

pub open spec fn progress_of(log: Seq<char>) -> Progress {
    progress_from(lines_of(log), false)
}

/// How far the run got, by its log.
pub fn progress(log: &str) -> (r: Progress)
    ensures
        r == progress_of(log@),
{
    let lines = text_lines(log);
    let ghost lv = lines_view(lines@);
    let prefix = chars_of("RimWorld ");
    let marker = chars_of("unused Assets to reduce memory usage");
    proof {
        reveal_strlit("RimWorld ");
    }
    let mut started = false;
    assert(lv.skip(0) == lv);
    for k in 0..lines.len()
        invariant
            lv == lines_view(lines@),
            lv == lines_of(log@),
            prefix@ == "RimWorld "@,
            prefix@.len() == 9,
            marker@ == "unused Assets to reduce memory usage"@,
            progress_of(log@) == progress_from(lv.skip(k as int), started),
    {
        let line = &lines[k];
        assert(lv.skip(k as int)[0] == line@);
        assert(lv.skip(k as int).drop_first() == lv.skip(k + 1));
        if starts_with(line, &prefix) && line.len() > 9 && '0' <= line[9] && line[9] <= '9' {
            started = true;
        }
        if started && contains(line, &marker) {
            return Progress::Loaded;
        }
    }
    assert(lv.skip(lines@.len() as int) == Seq::<Seq<char>>::empty());
    if started {
        Progress::Started
    } else {
        Progress::NotStarted
    }
}

/// The log has an error.
pub open spec fn has_error(log: Seq<char>) -> bool {
    exists|k: int| 0 <= k < log_issues(log).len() && (#[trigger] log_issues(log)[k]).0 == Severity::Error
}

/// The verdict on a run that loaded, by the errors in its log.
fn verdict_from_log(log: &str) -> (r: Verdict)
    requires
        parse_ok(log@),
    ensures
        r == (if has_error(log@) { Verdict::LoadedWithErrors } else { Verdict::Passed }),
{
    let issues = parse_log(log);
    let ghost iv = issues@.map_values(|i: LogIssue| issue_view(i));
    for k in 0..issues.len()
        invariant
            iv == issues@.map_values(|i: LogIssue| issue_view(i)),
            iv == log_issues(log@),
            forall|t: int| 0 <= t < k ==> (#[trigger] iv[t]).0 != Severity::Error,
    {
        assert(iv[k as int].0 == issues@[k as int].severity);
        if issues[k].severity == Severity::Error {
            return Verdict::LoadedWithErrors;
        }
    }
    Verdict::Passed
}

/// Whether a poll of a run in `current` reads a verdict from the log:
/// the run is not done, loading finished, and either the game is gone or
/// the log has been quiet long enough within the time limit.
pub open spec fn reads_verdict(current: Phase, log: Seq<char>, gone: bool, elapsed_ms: u64, quiet_ms: u64, config: Config) -> bool {
    !(current is Done) && progress_of(log) == Progress::Loaded && (gone || (elapsed_ms < config.timeout_ms
        && quiet_ms >= config.settle_ms))
}

/// The verdict read from a loaded log.
pub open spec fn log_verdict(log: Seq<char>) -> Verdict {
    if has_error(log) { Verdict::LoadedWithErrors } else { Verdict::Passed }
}

/// What one poll of a run decides, and whether the game must be stopped.
///
/// `gone`: the wrapper exited and no process of the run is alive; the
/// wrapper exiting alone means nothing, since umu-run exits with 0 while
/// the game starts on. Quiet counts only once loading finished: otherwise a
/// pause in the middle of loading mods would pass for success.
pub open spec fn next_phase_spec(
    current: Phase,
    log: Seq<char>,
    gone: bool,
    exit_code: Option<i32>,
    elapsed_ms: u64,
    quiet_ms: u64,
    config: Config,
) -> (Phase, bool) {
    let lines = lines_of(log).len();
    if current is Done {
        (current, false)
    } else if gone {
        (Phase::Done(match progress_of(log) {
            Progress::Loaded => log_verdict(log),
            Progress::Started => Verdict::DiedWhileLoading,
            Progress::NotStarted => Verdict::Crashed { code: exit_code },
        }), false)
    } else if elapsed_ms >= config.timeout_ms {
        (Phase::Done(Verdict::TimedOut), true)
    } else {
        match progress_of(log) {
            Progress::Loaded => if quiet_ms >= config.settle_ms {
                (Phase::Done(log_verdict(log)), true)
            } else {
                (Phase::Settling { lines: lines as usize, quiet_ms }, false)
            },
            Progress::NotStarted => if lines == 0 { (Phase::Starting, false) } else { (Phase::Loading { lines: lines as usize }, false) },
            Progress::Started => (Phase::Loading { lines: lines as usize }, false),
        }
    }
}

/// One poll of a run: the next phase, and whether the game must be
/// stopped now.
pub fn next_phase(
    current: &Phase,
    log: &str,
    gone: bool,
    exit_code: Option<i32>,
    elapsed_ms: u64,
    quiet_ms: u64,
    config: &Config,
) -> (r: (Phase, bool))
    requires
        reads_verdict(*current, log@, gone, elapsed_ms, quiet_ms, *config) ==> parse_ok(log@),
    ensures
        r == next_phase_spec(*current, log@, gone, exit_code, elapsed_ms, quiet_ms, *config),
{
    if let Phase::Done(_) = current {
        return (*current, false);
    }
    let lines = text_lines(log);
    let count = lines.len();
    if gone {
        let verdict = match progress(log) {
            Progress::Loaded => verdict_from_log(log),
            Progress::Started => Verdict::DiedWhileLoading,
            Progress::NotStarted => Verdict::Crashed { code: exit_code },
        };
        return (Phase::Done(verdict), false);
    }
    if elapsed_ms >= config.timeout_ms {
        return (Phase::Done(Verdict::TimedOut), true);
    }
    match progress(log) {
        Progress::Loaded => {
            if quiet_ms >= config.settle_ms {
                (Phase::Done(verdict_from_log(log)), true)
            } else {
                (Phase::Settling { lines: count, quiet_ms }, false)
            }
        },
        Progress::NotStarted => {
            if count == 0 {
                (Phase::Starting, false)
            } else {
                (Phase::Loading { lines: count }, false)
            }
        },
        Progress::Started => (Phase::Loading { lines: count }, false),
    }
}

/// A run whose verdict is read from its loaded log passes exactly when no
/// entry of the log is an error: warnings alone do not fail it, and a
/// single error entry does.
pub proof fn law_only_errors_fail_a_run(
    current: Phase,
    log: Seq<char>,
    gone: bool,
    exit_code: Option<i32>,
    elapsed_ms: u64,
    quiet_ms: u64,
    config: Config,
)
    requires
        reads_verdict(current, log, gone, elapsed_ms, quiet_ms, config),
    ensures
        (forall|k: int| 0 <= k < log_issues(log).len() ==> (#[trigger] log_issues(log)[k]).0 == Severity::Warning)
            ==> next_phase_spec(current, log, gone, exit_code, elapsed_ms, quiet_ms, config).0 == Phase::Done(Verdict::Passed),
        (exists|k: int| 0 <= k < log_issues(log).len() && (#[trigger] log_issues(log)[k]).0 == Severity::Error)
            ==> next_phase_spec(current, log, gone, exit_code, elapsed_ms, quiet_ms, config).0 == Phase::Done(Verdict::LoadedWithErrors),
{
    if forall|k: int| 0 <= k < log_issues(log).len() ==> (#[trigger] log_issues(log)[k]).0 == Severity::Warning {
        if has_error(log) {
            let k = choose|k: int| 0 <= k < log_issues(log).len() && (#[trigger] log_issues(log)[k]).0 == Severity::Error;
            assert(log_issues(log)[k].0 == Severity::Warning);
        }
    }
}

} // verus!

verus! {

/// A finished run stays finished: polling it again changes nothing and
/// stops nothing.
pub proof fn law_done_is_final(
    v: Verdict,
    log: Seq<char>,
    gone: bool,
    exit_code: Option<i32>,
    elapsed_ms: u64,
    quiet_ms: u64,
    config: Config,
)
    ensures
        next_phase_spec(Phase::Done(v), log, gone, exit_code, elapsed_ms, quiet_ms, config) == (Phase::Done(v), false),
{
}

/// A run passes only once the game finished loading: neither quiet, nor
/// the version line, nor the game exiting makes a pass on its own.
pub proof fn law_pass_needs_loading(
    current: Phase,
    log: Seq<char>,
    gone: bool,
    exit_code: Option<i32>,
    elapsed_ms: u64,
    quiet_ms: u64,
    config: Config,
)
    requires
        !(current is Done),
        next_phase_spec(current, log, gone, exit_code, elapsed_ms, quiet_ms, config).0 == Phase::Done(Verdict::Passed),
    ensures
        progress_of(log) == Progress::Loaded,
        !has_error(log),
{
}

/// [`next_phase`] where the verdict can be read: `None` when the run is
/// over and its log cannot be grouped (an entry's title or first frame has
/// a character across the 160-byte cut).
pub fn try_next_phase(
    current: &Phase,
    log: &str,
    gone: bool,
    exit_code: Option<i32>,
    elapsed_ms: u64,
    quiet_ms: u64,
    config: &Config,
) -> (r: Option<(Phase, bool)>)
    ensures
        r is None <==> (reads_verdict(*current, log@, gone, elapsed_ms, quiet_ms, *config) && !parse_ok(log@)),
        r matches Some(x) ==> x == next_phase_spec(*current, log@, gone, exit_code, elapsed_ms, quiet_ms, *config),
{
    let done = match current {
        Phase::Done(_) => true,
        _ => false,
    };
    let loaded = match progress(log) {
        Progress::Loaded => true,
        _ => false,
    };
    let reads = !done && loaded && (gone || (elapsed_ms < config.timeout_ms && quiet_ms >= config.settle_ms));
    if reads && !log_parses(log) {
        return None;
    }
    Some(next_phase(current, log, gone, exit_code, elapsed_ms, quiet_ms, config))
}

} // verus!
