//! Building the command that launches RimWorld.
//!
//! There are many ways to run the game on Linux and they do not mix: the
//! native build, Proton through umu, plain wine, Steam. One user easily
//! has several, with different prefixes. So the launch is described by a
//! configurable profile rather than hard-coded. [`plan`] only builds the
//! command and runs nothing.

use vstd::prelude::*;
use super::paths::{executable_in, find_executable, kind_of, Executable, GameFiles};
use crate::text::{concat, split_words, trim, trim_str, words};

verus! {

#[derive(Clone, Copy, PartialEq, Eq, Debug, Default, Structural)]
pub enum Runner {
    /// Decide from the installation: a native build directly, Windows
    /// through umu.
    #[default]
    Auto,
    /// The game's native binary.
    Native,
    /// Proton through umu-run (outside Steam).
    Umu,
    /// Plain wine.
    Wine,
    /// Through the Steam client.
    Steam,
    /// Any command, such as a launch script of one's own.
    Custom,
}

impl Runner {
    /// The name shown in the settings.
    pub fn label(self) -> (r: &'static str)
        ensures
            r@ == (match self {
                Runner::Auto => "Автоматически"@,
                Runner::Native => "Нативный запуск"@,
                Runner::Umu => "Proton (umu-run)"@,
                Runner::Wine => "Wine"@,
                Runner::Steam => "Через Steam"@,
                Runner::Custom => "Своя команда"@,
            }),
    {
        match self {
            Runner::Auto => "Автоматически",
            Runner::Native => "Нативный запуск",
            Runner::Umu => "Proton (umu-run)",
            Runner::Wine => "Wine",
            Runner::Steam => "Через Steam",
            Runner::Custom => "Своя команда",
        }
    }
}

#[derive(Clone, Debug, Default)]
pub struct LaunchSettings {
    pub runner: Runner,
    /// WINEPREFIX / STEAM_COMPAT_DATA_PATH. Empty: find one.
    pub prefix: String,
    /// PROTONPATH: "GE-Proton" or the full path of a version.
    pub proton: String,
    /// The command for [`Runner::Custom`].
    pub custom_command: String,
    /// More arguments for the game, separated by spaces.
    pub extra_args: String,
}

/// What the launch is for.
#[derive(Clone, Debug)]
pub enum Mode {
    /// An ordinary launch.
    Play,
    /// A self-test run: the game starts, generates a map and writes its
    /// log where we expect it.
    QuickTest { log_file: String },
}

/// A command ready to run.
#[derive(Clone, Debug, PartialEq, Eq)]
pub struct Plan {
    pub program: String,
    pub args: Vec<String>,
    pub env: Vec<(String, String)>,
    pub cwd: String,
}

/// Why a launch cannot be planned.
#[derive(Clone, Debug)]
pub enum LaunchError {
    /// No game (RimWorldWin64.exe or RimWorldLinux) in this folder.
    GameNotFound(String),
    /// A program the launch needs is missing.
    MissingProgram(String),
    /// A Windows build needs a prefix and none is set or found.
    NoPrefix,
    /// The custom command is empty.
    NoCustomCommand,
    /// The Steam client hands back neither the game's exit code nor a way
    /// to stop it on a timeout.
    SteamCannotTest,
}

/// Which launch programs are on PATH.
#[derive(Clone, Copy, Debug, Default)]
pub struct Programs {
    pub umu_run: bool,
    pub wine: bool,
    pub steam: bool,
}

/// A plan as values: program, arguments, environment, working folder.
pub type PlanView = (Seq<char>, Seq<Seq<char>>, Seq<(Seq<char>, Seq<char>)>, Seq<char>);

pub open spec fn plan_view(p: Plan) -> PlanView {
    (p.program@, p.args.deep_view(), p.env@.map_values(|e: (String, String)| (e.0@, e.1@)), p.cwd@)
}

/// An error as values: which one (in declaration order) and its text.
pub open spec fn error_view(e: LaunchError) -> (int, Seq<char>) {
    match e {
        LaunchError::GameNotFound(p) => (0, p@),
        LaunchError::MissingProgram(p) => (1, p@),
        LaunchError::NoPrefix => (2, Seq::empty()),
        LaunchError::NoCustomCommand => (3, Seq::empty()),
        LaunchError::SteamCannotTest => (4, Seq::empty()),
    }
}

/// Slashes turned into backslashes.
pub open spec fn backslashes() -> spec_fn(char) -> char {
    |c: char| if c == '/' { '\\' } else { c }
}

/// A path as a process inside the prefix sees it: wine maps the root to
/// drive `Z:`.
pub open spec fn wine_path(p: Seq<char>) -> Seq<char> {
    if p.len() > 0 && p[0] == '/' {
        "Z:"@ + p.map_values(backslashes())
    } else {
        p
    }
}

/// The game's own arguments: the self-test flags and log, then the extra
/// arguments.
pub open spec fn game_args_spec(extra: Seq<char>, log: Option<Seq<char>>, windows_side: bool) -> Seq<Seq<char>> {
    let head = match log {
        Some(l) => seq!["-quicktest"@, "-logfile"@, if windows_side { wine_path(l) } else { l }],
        None => Seq::empty(),
    };
    head + words(extra)
}

/// The prefix to use: the configured one, else the one found.
pub open spec fn prefix_for(configured: Seq<char>, found: Option<Seq<char>>) -> Option<Seq<char>> {
    if trim(configured).len() > 0 { Some(trim(configured)) } else { found }
}

pub open spec fn proton_for(proton: Seq<char>) -> Seq<char> {
    if trim(proton).len() == 0 { "GE-Proton"@ } else { trim(proton) }
}

pub open spec fn log_of(mode: Mode) -> Option<Seq<char>> {
    match mode {
        Mode::Play => None,
        Mode::QuickTest { log_file } => Some(log_file@),
    }
}

/// What `Auto` becomes for an executable of kind `kind`.
pub open spec fn runner_for(requested: Runner, compat: bool) -> Runner {
    if requested != Runner::Auto { requested } else if compat { Runner::Umu } else { Runner::Native }
}

/// The launch [`plan`] builds.
pub open spec fn launch_plan(
    game: Seq<char>,
    files: GameFiles,
    s: LaunchSettings,
    mode: Mode,
    progs: Programs,
    found: Option<Seq<char>>,
    host_is_windows: bool,
) -> Result<PlanView, (int, Seq<char>)> {
    match executable_in(game, files) {
        None => Err((0, game)),
        Some((kind, exe)) => {
            let compat = kind == 1 && !host_is_windows;
            let runner = runner_for(s.runner, compat);
            if runner == Runner::Steam && log_of(mode).is_some() {
                Err((4, Seq::empty()))
            } else {
                let windows_side = compat && runner != Runner::Native;
                let gargs = game_args_spec(s.extra_args@, log_of(mode), windows_side);
                match runner {
                    Runner::Native | Runner::Auto => Ok((exe, gargs, Seq::empty(), game)),
                    Runner::Umu => if !progs.umu_run {
                        Err((1, "umu-run"@))
                    } else {
                        match prefix_for(s.prefix@, found) {
                            None => Err((2, Seq::empty())),
                            Some(p) => Ok((
                                "umu-run"@,
                                seq![exe] + gargs,
                                seq![("WINEPREFIX"@, p), ("GAMEID"@, "umu-294100"@), ("PROTONPATH"@, proton_for(s.proton@))],
                                game,
                            )),
                        }
                    },
                    Runner::Wine => if !progs.wine {
                        Err((1, "wine"@))
                    } else {
                        match prefix_for(s.prefix@, found) {
                            None => Err((2, Seq::empty())),
                            Some(p) => Ok(("wine"@, seq![exe] + gargs, seq![("WINEPREFIX"@, p)], game)),
                        }
                    },
                    Runner::Steam => if !progs.steam {
                        Err((1, "steam"@))
                    } else {
                        Ok(("steam"@, seq!["-applaunch"@, "294100"@] + gargs, Seq::empty(), game))
                    },
                    Runner::Custom => {
                        let ws = words(s.custom_command@);
                        if ws.len() == 0 {
                            Err((3, Seq::empty()))
                        } else {
                            Ok((ws[0], ws.drop_first() + gargs, Seq::empty(), game))
                        }
                    },
                }
            }
        },
    }
}

/// The path a process inside a wine prefix understands: wine maps the root
/// to drive `Z:`. Without it the game under Proton would take `/tmp/x.log`
/// as a path inside `drive_c` and write its log elsewhere.
pub fn to_wine_path(path: &str) -> (r: String)
    ensures
        r@ == wine_path(path@),
{
    let cs = crate::text::chars_of(path);
    if cs.len() > 0 && cs[0] == '/' {
        let mut out: Vec<char> = Vec::new();
        out.push('Z');
        out.push(':');
        let ghost head = out@;
        for i in 0..cs.len()
            invariant
                head == seq!['Z', ':'],
                out@ == head + cs@.take(i as int).map_values(backslashes()),
        {
            let c = cs[i];
            out.push(if c == '/' { '\\' } else { c });
            assert(cs@.take(i + 1).map_values(backslashes())
                =~= cs@.take(i as int).map_values(backslashes()).push(if c == '/' { '\\' } else { c }));
        }
        proof {
            assert(cs@.take(cs.len() as int) == cs@);
            reveal_strlit("Z:");
            assert(head =~= "Z:"@);
        }
        crate::text::string_of(&out)
    } else {
        String::from_str(path)
    }
}

fn string(s: &str) -> (r: String)
    ensures
        r@ == s@,
{
    String::from_str(s)
}

/// The game's own arguments.
fn game_args(settings: &LaunchSettings, mode: &Mode, windows_side: bool) -> (r: Vec<String>)
    ensures
        r.deep_view() == game_args_spec(settings.extra_args@, log_of(*mode), windows_side),
{
    let mut args: Vec<String> = Vec::new();
    match mode {
        Mode::QuickTest { log_file } => {
            args.push(string("-quicktest"));
            args.push(string("-logfile"));
            args.push(if windows_side { to_wine_path(log_file.as_str()) } else { string(log_file.as_str()) });
        },
        Mode::Play => {},
    }
    let ghost head = args.deep_view();
    let extra = split_words(settings.extra_args.as_str());
    for i in 0..extra.len()
        invariant
            args.deep_view() == head + extra.deep_view().take(i as int),
    {
        let ghost before = args.deep_view();
        args.push(string(extra[i].as_str()));
        assert(args.deep_view() =~= before.push(extra[i as int]@));
        assert(extra.deep_view().take(i + 1) =~= extra.deep_view().take(i as int).push(extra[i as int]@));
    }
    proof {
        assert(extra.deep_view().take(extra.len() as int) == extra.deep_view());
        let h = match log_of(*mode) {
            Some(l) => seq!["-quicktest"@, "-logfile"@, if windows_side { wine_path(l) } else { l }],
            None => Seq::<Seq<char>>::empty(),
        };
        assert(head =~= h);
    }
    args
}

/// Appends `tail` to `args`.
fn extend(args: &mut Vec<String>, tail: Vec<String>)
    ensures
        final(args).deep_view() == old(args).deep_view() + tail.deep_view(),
{
    let ghost head = args.deep_view();
    for i in 0..tail.len()
        invariant
            args.deep_view() == head + tail.deep_view().take(i as int),
    {
        let ghost before = args.deep_view();
        args.push(string(tail[i].as_str()));
        assert(args.deep_view() =~= before.push(tail[i as int]@));
        assert(tail.deep_view().take(i + 1) =~= tail.deep_view().take(i as int).push(tail[i as int]@));
    }
    assert(tail.deep_view().take(tail.len() as int) == tail.deep_view());
}

/// The prefix to use: the configured one, else the one found.
fn require_prefix(settings: &LaunchSettings, found: &Option<String>) -> (r: Result<String, LaunchError>)
    ensures
        match r {
            Ok(p) => prefix_for(settings.prefix@, match found { Some(f) => Some(f@), None => None }) == Some(p@),
            Err(e) => prefix_for(settings.prefix@, match found { Some(f) => Some(f@), None => None }).is_none()
                && error_view(e) == (2int, Seq::<char>::empty()),
        },
{
    let configured = trim_str(settings.prefix.as_str());
    if !configured.as_str().is_empty() {
        return Ok(configured);
    }
    match found {
        Some(f) => Ok(string(f.as_str())),
        None => Err(LaunchError::NoPrefix),
    }
}

/// Builds the launch command. What is found on disk is handed
/// in: what the game folder holds, which programs are on PATH, and the
/// first prefix found with RimWorld's data, and whether the host is Windows.
pub fn plan(
    game_path: &str,
    files: &GameFiles,
    settings: &LaunchSettings,
    mode: &Mode,
    programs: &Programs,
    found_prefix: Option<String>,
    host_is_windows: bool,
) -> (r: Result<Plan, LaunchError>)
    ensures
        match r {
            Ok(p) => launch_plan(game_path@, *files, *settings, *mode, *programs,
                match found_prefix { Some(f) => Some(f@), None => None }, host_is_windows) == Ok::<PlanView, (int, Seq<char>)>(plan_view(p)),
            Err(e) => launch_plan(game_path@, *files, *settings, *mode, *programs,
                match found_prefix { Some(f) => Some(f@), None => None }, host_is_windows) == Err::<PlanView, (int, Seq<char>)>(error_view(e)),
        },
{
    let ghost fv = match &found_prefix { Some(f) => Some(f@), None => None };
    let ghost lp = launch_plan(game_path@, *files, *settings, *mode, *programs, fv, host_is_windows);
    let exe = match find_executable(game_path, files) {
        Some(e) => e,
        None => {
            return Err(LaunchError::GameNotFound(string(game_path)));
        },
    };
    let windows_build = exe.needs_compat_layer(host_is_windows);
    let runner = if settings.runner != Runner::Auto {
        settings.runner
    } else if windows_build {
        Runner::Umu
    } else {
        Runner::Native
    };
    let quick = match mode {
        Mode::QuickTest { .. } => true,
        Mode::Play => false,
    };
    if runner == Runner::Steam && quick {
        return Err(LaunchError::SteamCannotTest);
    }
    let windows_side = windows_build && runner != Runner::Native;
    let gargs = game_args(settings, mode, windows_side);
    let cwd = string(game_path);
    let exe_path = string(exe.path());
    proof {
        assert((kind_of(exe) == 1 && !host_is_windows) <==> windows_build);
    }
    match runner {
        Runner::Native | Runner::Auto => {
            let p = Plan { program: exe_path, args: gargs, env: Vec::new(), cwd };
            proof {
                assert(plan_view(p).2 =~= Seq::<(Seq<char>, Seq<char>)>::empty());
            }
            assert(lp == Ok::<PlanView, (int, Seq<char>)>(plan_view(p)));
            Ok(p)
        },
        Runner::Umu => {
            if !programs.umu_run {
                return Err(LaunchError::MissingProgram(string("umu-run")));
            }
            let prefix = match require_prefix(settings, &found_prefix) {
                Ok(p) => p,
                Err(e) => {
                    return Err(e);
                },
            };
            let proton_t = trim_str(settings.proton.as_str());
            let proton = if proton_t.as_str().is_empty() { string("GE-Proton") } else { proton_t };
            let mut env: Vec<(String, String)> = Vec::new();
            env.push((string("WINEPREFIX"), prefix));
            env.push((string("GAMEID"), string("umu-294100")));
            env.push((string("PROTONPATH"), proton));
            let mut args: Vec<String> = Vec::new();
            args.push(exe_path);
            extend(&mut args, gargs);
            let p = Plan { program: string("umu-run"), args, env, cwd };
            proof {
                assert(plan_view(p).1 =~= seq![exe.path_v()] + game_args_spec(settings.extra_args@, log_of(*mode), windows_side));
                assert(plan_view(p).2 =~= seq![("WINEPREFIX"@, prefix_for(settings.prefix@, fv).unwrap()), ("GAMEID"@, "umu-294100"@), ("PROTONPATH"@, proton_for(settings.proton@))]);
                assert(runner_for(settings.runner, windows_build) == Runner::Umu);
                assert(executable_in(game_path@, *files) == Some((kind_of(exe), exe.path_v())));
                assert(plan_view(p).0 == "umu-run"@);
                assert(plan_view(p).3 == game_path@);
            }
            assert(lp == Ok::<PlanView, (int, Seq<char>)>(plan_view(p)));
            Ok(p)
        },
        Runner::Wine => {
            if !programs.wine {
                return Err(LaunchError::MissingProgram(string("wine")));
            }
            let prefix = match require_prefix(settings, &found_prefix) {
                Ok(p) => p,
                Err(e) => {
                    return Err(e);
                },
            };
            let mut env: Vec<(String, String)> = Vec::new();
            env.push((string("WINEPREFIX"), prefix));
            let mut args: Vec<String> = Vec::new();
            args.push(exe_path);
            extend(&mut args, gargs);
            let p = Plan { program: string("wine"), args, env, cwd };
            proof {
                assert(plan_view(p).1 =~= seq![exe.path_v()] + game_args_spec(settings.extra_args@, log_of(*mode), windows_side));
                assert(plan_view(p).2 =~= seq![("WINEPREFIX"@, prefix_for(settings.prefix@, match found_prefix { Some(f) => Some(f@), None => None }).unwrap())]);
            }
            assert(lp == Ok::<PlanView, (int, Seq<char>)>(plan_view(p)));
            Ok(p)
        },
        Runner::Steam => {
            if !programs.steam {
                return Err(LaunchError::MissingProgram(string("steam")));
            }
            let mut args: Vec<String> = Vec::new();
            args.push(string("-applaunch"));
            args.push(string("294100"));
            let ghost a0 = args.deep_view();
            extend(&mut args, gargs);
            let p = Plan { program: string("steam"), args, env: Vec::new(), cwd };
            proof {
                assert(a0 =~= seq!["-applaunch"@, "294100"@]);
                assert(plan_view(p).2 =~= Seq::<(Seq<char>, Seq<char>)>::empty());
            }
            assert(lp == Ok::<PlanView, (int, Seq<char>)>(plan_view(p)));
            Ok(p)
        },
        Runner::Custom => {
            let parts = split_words(settings.custom_command.as_str());
            if parts.len() == 0 {
                return Err(LaunchError::NoCustomCommand);
            }
            let program = string(parts[0].as_str());
            let mut args: Vec<String> = Vec::new();
            assert(args.deep_view() =~= parts.deep_view().subrange(1, 1));
            for i in 1..parts.len()
                invariant
                    args.deep_view() == parts.deep_view().subrange(1, i as int),
                    1 <= parts.len(),
            {
                let ghost before = args.deep_view();
                args.push(string(parts[i].as_str()));
                assert(args.deep_view() =~= parts.deep_view().subrange(1, i + 1));
            }
            extend(&mut args, gargs);
            let p = Plan { program, args, env: Vec::new(), cwd };
            proof {
                assert(parts.deep_view().subrange(1, parts.len() as int) =~= parts.deep_view().drop_first());
                assert(plan_view(p).2 =~= Seq::<(Seq<char>, Seq<char>)>::empty());
            }
            assert(lp == Ok::<PlanView, (int, Seq<char>)>(plan_view(p)));
            Ok(p)
        },
    }
}

impl Plan {
    /// The command as text, to show to the user and to log: the
    /// environment as `KEY=value ` pairs, the program, then the arguments
    /// separated by spaces.
    pub fn display(&self) -> (r: String)
        ensures
            r@ == env_text(plan_view(*self).2) + self.program@ + " "@ + spaced(self.args.deep_view()),
    {
        let mut out = String::new();
        for i in 0..self.env.len()
            invariant
                out@ == env_text(plan_view(*self).2.take(i as int)),
        {
            let (k, v) = (&self.env[i].0, &self.env[i].1);
            let ghost before = out@;
            out.append(k.as_str());
            out.append("=");
            out.append(v.as_str());
            out.append(" ");
            proof {
                let e = plan_view(*self).2;
                assert(e.take(i + 1).drop_last() =~= e.take(i as int));
                assert(e.take(i + 1).last() == (k@, v@));
            }
        }
        proof {
            assert(plan_view(*self).2.take(self.env.len() as int) =~= plan_view(*self).2);
        }
        out.append(self.program.as_str());
        out.append(" ");
        for i in 0..self.args.len()
            invariant
                out@ == env_text(plan_view(*self).2) + self.program@ + " "@ + spaced(self.args.deep_view().take(i as int)),
        {
            proof {
                let a = self.args.deep_view();
                assert(a.take(i + 1).drop_last() =~= a.take(i as int));
                assert(a.take(i + 1).last() == self.args[i as int]@);
            }
            if i > 0 {
                out.append(" ");
            }
            out.append(self.args[i].as_str());
            proof {
                let a = self.args.deep_view();
                if i > 0 {
                    assert(a.take(i as int).len() > 0);
                }
            }
        }
        proof {
            assert(self.args.deep_view().take(self.args.len() as int) =~= self.args.deep_view());
        }
        out
    }
}

/// `KEY=value ` for each variable.
pub open spec fn env_text(env: Seq<(Seq<char>, Seq<char>)>) -> Seq<char>
    decreases env.len(),
{
    if env.len() == 0 {
        Seq::empty()
    } else {
        env_text(env.drop_last()) + env.last().0 + "="@ + env.last().1 + " "@
    }
}

/// Words joined by single spaces.
pub open spec fn spaced(ws: Seq<Seq<char>>) -> Seq<char>
    decreases ws.len(),
{
    if ws.len() == 0 {
        Seq::empty()
    } else if ws.len() == 1 {
        ws[0]
    } else {
        spaced(ws.drop_last()) + " "@ + ws.last()
    }
}

/// A self-test of a Windows build on a host that is not Windows, run by
/// anything but the native runner (the `Auto` default included), is told
/// to write its log where wine puts it: the command ends with
/// `-quicktest -logfile`, the log's path under `Z:` with backslashes, and
/// the extra arguments.
pub proof fn law_windows_log_path_is_translated(
    game: Seq<char>,
    files: GameFiles,
    s: LaunchSettings,
    log_file: Seq<char>,
    mode: Mode,
    progs: Programs,
    found: Option<Seq<char>>,
)
    requires
        executable_in(game, files) matches Some((kind, exe)) && kind == 1,
        s.runner != Runner::Native,
        log_of(mode) == Some(log_file),
    ensures
        launch_plan(game, files, s, mode, progs, found, false) matches Ok(p) ==> {
            let tail = seq!["-quicktest"@, "-logfile"@, wine_path(log_file)] + words(s.extra_args@);
            &&& p.1.len() >= tail.len()
            &&& p.1.skip(p.1.len() - tail.len()) == tail
        },
{
    if let Ok(p) = launch_plan(game, files, s, mode, progs, found, false) {
        let tail = seq!["-quicktest"@, "-logfile"@, wine_path(log_file)] + words(s.extra_args@);
        let runner = runner_for(s.runner, true);
        assert(runner != Runner::Native);
        let g = game_args_spec(s.extra_args@, log_of(mode), true);
        assert(g == tail);
        if runner == Runner::Custom {
            let ws = words(s.custom_command@);
            assert(p.1 == ws.drop_first() + g);
            assert(p.1.skip(p.1.len() - tail.len()) =~= tail);
        } else if runner == Runner::Steam {
            assert(false);
        } else {
            assert(p.1.skip(p.1.len() - tail.len()) =~= tail);
        }
    }
}

/// A self-test run directly (the native runner, a build that is not a
/// Windows one, or a Windows host) is told its log path as it is: the
/// command ends with `-quicktest -logfile`, the path, and the extra
/// arguments.
pub proof fn law_direct_log_path_is_kept(
    game: Seq<char>,
    files: GameFiles,
    s: LaunchSettings,
    log_file: Seq<char>,
    mode: Mode,
    progs: Programs,
    found: Option<Seq<char>>,
    host_is_windows: bool,
)
    requires
        executable_in(game, files) matches Some((kind, exe)) && (kind != 1 || host_is_windows || s.runner == Runner::Native),
        log_of(mode) == Some(log_file),
    ensures
        launch_plan(game, files, s, mode, progs, found, host_is_windows) matches Ok(p) ==> {
            let tail = seq!["-quicktest"@, "-logfile"@, log_file] + words(s.extra_args@);
            &&& p.1.len() >= tail.len()
            &&& p.1.skip(p.1.len() - tail.len()) == tail
        },
{
    if let Ok(p) = launch_plan(game, files, s, mode, progs, found, host_is_windows) {
        let tail = seq!["-quicktest"@, "-logfile"@, log_file] + words(s.extra_args@);
        let (kind, exe) = executable_in(game, files).unwrap();
        let compat = kind == 1 && !host_is_windows;
        let runner = runner_for(s.runner, compat);
        let g = game_args_spec(s.extra_args@, log_of(mode), compat && runner != Runner::Native);
        assert(g == tail);
        if runner == Runner::Custom {
            let ws = words(s.custom_command@);
            assert(p.1 == ws.drop_first() + g);
        }
        assert(p.1.skip(p.1.len() - tail.len()) =~= tail);
    }
}

} // verus!
