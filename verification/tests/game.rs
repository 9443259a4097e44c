use rust_rim::game::launch::{plan, to_wine_path, LaunchError, LaunchSettings, Mode, Plan, Programs, Runner};
use rust_rim::game::paths::{config_dir, find_executable, player_log, Executable, GameFiles};
use rust_rim::game::teardown::{belongs_to, find_targets, ProcInfo};

const PREFIX: &str = "/home/user/prefixes/rimworld";
const EXE: &str = "/games/RimWorld/RimWorldWin64.exe";

fn env(vars: &[&str]) -> Vec<u8> {
    vars.join("\0").into_bytes()
}

#[test]
fn matches_wine_process_by_prefix_in_environment() {
    let environ = env(&["WINEPREFIX=/home/user/prefixes/rimworld", "HOME=/home/user"]);
    assert!(belongs_to(&environ, b"wineserver\0", PREFIX, EXE));
}

#[test]
fn matches_wrapper_by_exe_in_command_line() {
    let cmdline = b"umu-run\0/games/RimWorld/RimWorldWin64.exe\0".as_slice();
    assert!(belongs_to(b"", cmdline, PREFIX, EXE));
}

#[test]
fn does_not_match_another_prefix() {
    let environ = env(&["WINEPREFIX=/home/user/prefixes/otherGame"]);
    assert!(!belongs_to(&environ, b"wineserver\0", PREFIX, EXE));
}

#[test]
fn does_not_match_unrelated_process() {
    let environ = env(&["HOME=/home/user", "PATH=/usr/bin"]);
    assert!(!belongs_to(&environ, b"firefox\0", PREFIX, EXE));
}

#[test]
fn empty_targets_match_nothing() {
    let environ = env(&["WINEPREFIX=/whatever"]);
    assert!(!belongs_to(&environ, b"anything\0", "", ""));
}

#[test]
fn prefix_as_part_of_a_longer_path_still_matches() {
    let environ = env(&["STEAM_COMPAT_DATA_PATH=/home/user/prefixes/rimworld/pfx"]);
    assert!(belongs_to(&environ, b"proton\0", PREFIX, EXE));
}

#[test]
fn wine_path_translation() {
    assert_eq!(to_wine_path("/tmp/a b/c.log"), "Z:\\tmp\\a b\\c.log");
    assert_eq!(to_wine_path("relative.log"), "relative.log");
}

#[test]
fn exe_found_in_environment_only_still_matches() {
    let environ = env(&["GAME=/games/RimWorld/RimWorldWin64.exe"]);
    assert!(belongs_to(&environ, b"something\0", "", EXE));
}

#[test]
fn targets_are_our_processes_but_not_ourselves() {
    let prefix = "/home/user/prefixes/rimworld";
    let exe = "/games/RimWorld/RimWorldWin64.exe";
    let procs = vec![
        ProcInfo { pid: 10, environ: b"WINEPREFIX=/home/user/prefixes/rimworld".to_vec(), cmdline: b"wineserver".to_vec() },
        ProcInfo { pid: 11, environ: b"HOME=/home/user".to_vec(), cmdline: b"firefox".to_vec() },
        ProcInfo { pid: 12, environ: Vec::new(), cmdline: b"umu-run\0/games/RimWorld/RimWorldWin64.exe".to_vec() },
        ProcInfo { pid: 13, environ: b"WINEPREFIX=/home/user/prefixes/rimworld".to_vec(), cmdline: Vec::new() },
    ];
    assert_eq!(find_targets(&procs, 13, prefix, exe), vec![10, 12]);
    assert!(find_targets(&procs, 13, "", "").is_empty());
}

const GAME: &str = "/games/rimworld";

fn native_files() -> GameFiles {
    GameFiles { linux_binary: true, linux_data: true, ..Default::default() }
}

fn windows_files() -> GameFiles {
    GameFiles { windows_exe: true, windows_data: true, ..Default::default() }
}

fn all_programs() -> Programs {
    Programs { umu_run: true, wine: true, steam: true }
}

fn settings(runner: Runner) -> LaunchSettings {
    LaunchSettings { runner, prefix: "/prefixes/rimworld".to_string(), ..Default::default() }
}

fn env_of(plan: &Plan, key: &str) -> Option<String> {
    plan.env.iter().find(|(k, _)| k == key).map(|(_, v)| v.clone())
}

#[test]
fn native_build_runs_directly() {
    let plan = plan(GAME, &native_files(), &settings(Runner::Auto), &Mode::Play, &all_programs(), None, false).unwrap();
    assert_eq!(plan.program, "/games/rimworld/RimWorldLinux");
    assert!(plan.env.is_empty(), "нативному запуску префикс не нужен");
    assert_eq!(plan.cwd, GAME);
}

#[test]
fn windows_build_defaults_to_umu() {
    let plan = plan(GAME, &windows_files(), &settings(Runner::Auto), &Mode::Play, &all_programs(), None, false).unwrap();
    assert_eq!(plan.program, "umu-run");
    assert_eq!(plan.args[0], "/games/rimworld/RimWorldWin64.exe");
    assert_eq!(env_of(&plan, "GAMEID").as_deref(), Some("umu-294100"));
    assert_eq!(env_of(&plan, "WINEPREFIX").as_deref(), Some("/prefixes/rimworld"));
    assert_eq!(env_of(&plan, "PROTONPATH").as_deref(), Some("GE-Proton"));
}

#[test]
fn windows_build_on_windows_host_runs_directly() {
    let plan = plan(GAME, &windows_files(), &settings(Runner::Auto), &Mode::Play, &all_programs(), None, true).unwrap();
    assert_eq!(plan.program, "/games/rimworld/RimWorldWin64.exe");
    assert!(plan.env.is_empty());
    assert!(!Executable::Windows("x.exe".to_string()).needs_compat_layer(true));
    assert!(!Executable::Native("x".to_string()).needs_compat_layer(false));
}

#[test]
fn explicit_proton_version_wins() {
    let mut s = settings(Runner::Umu);
    s.proton = "/opt/GE-Proton10-34".to_string();
    let plan = plan(GAME, &windows_files(), &s, &Mode::Play, &all_programs(), None, false).unwrap();
    assert_eq!(env_of(&plan, "PROTONPATH").as_deref(), Some("/opt/GE-Proton10-34"));
}

#[test]
fn quicktest_adds_flags_and_log() {
    let mode = Mode::QuickTest { log_file: "/tmp/rustrim/test.log".to_string() };
    let plan = plan(GAME, &native_files(), &settings(Runner::Native), &mode, &all_programs(), None, false).unwrap();
    assert!(plan.args.contains(&"-quicktest".to_string()), "{:?}", plan.args);
    let at = plan.args.iter().position(|a| a == "-logfile").expect("нет -logfile");
    assert_eq!(plan.args[at + 1], "/tmp/rustrim/test.log");
}

#[test]
fn log_path_for_windows_side_is_translated() {
    let mode = Mode::QuickTest { log_file: "/tmp/x.log".to_string() };
    let plan = plan(GAME, &windows_files(), &settings(Runner::Wine), &mode, &all_programs(), None, false).unwrap();
    let at = plan.args.iter().position(|a| a == "-logfile").unwrap();
    assert_eq!(plan.args[at + 1], "Z:\\tmp\\x.log");
}

#[test]
fn extra_args_are_appended() {
    let mut s = settings(Runner::Native);
    s.extra_args = "-popupwindow -force-glcore".to_string();
    let plan = plan(GAME, &native_files(), &s, &Mode::Play, &all_programs(), None, false).unwrap();
    assert_eq!(plan.args, ["-popupwindow", "-force-glcore"]);
}

#[test]
fn steam_cannot_run_the_test() {
    let mode = Mode::QuickTest { log_file: "/tmp/x.log".to_string() };
    let err = plan(GAME, &native_files(), &settings(Runner::Steam), &mode, &all_programs(), None, false);
    assert!(matches!(err, Err(LaunchError::SteamCannotTest)), "{err:?}");
}

#[test]
fn custom_command_is_split_into_program_and_args() {
    let mut s = settings(Runner::Custom);
    s.custom_command = "gamescope -f -- umu-run".to_string();
    s.extra_args = "-popupwindow".to_string();
    let plan = plan(GAME, &native_files(), &s, &Mode::Play, &all_programs(), None, false).unwrap();
    assert_eq!(plan.program, "gamescope");
    assert_eq!(plan.args, ["-f", "--", "umu-run", "-popupwindow"]);
}

#[test]
fn missing_game_is_reported() {
    let err = plan(GAME, &GameFiles::default(), &settings(Runner::Auto), &Mode::Play, &all_programs(), None, false);
    assert!(matches!(err, Err(LaunchError::GameNotFound(_))), "{err:?}");
}

#[test]
fn missing_program_and_prefix_are_reported() {
    let err = plan(GAME, &windows_files(), &settings(Runner::Auto), &Mode::Play, &Programs::default(), None, false);
    assert!(matches!(err, Err(LaunchError::MissingProgram(ref p)) if p == "umu-run"), "{err:?}");
    let mut s = settings(Runner::Wine);
    s.prefix = String::new();
    let err = plan(GAME, &windows_files(), &s, &Mode::Play, &all_programs(), None, false);
    assert!(matches!(err, Err(LaunchError::NoPrefix)), "{err:?}");
    let found = plan(GAME, &windows_files(), &s, &Mode::Play, &all_programs(), Some("/found/pfx".to_string()), false).unwrap();
    assert_eq!(env_of(&found, "WINEPREFIX").as_deref(), Some("/found/pfx"));
}

#[test]
fn detects_native_build() {
    assert_eq!(
        find_executable("/t/game", &native_files()),
        Some(Executable::Native("/t/game/RimWorldLinux".to_string()))
    );
}

#[test]
fn wrapper_script_without_data_is_not_native() {
    let files = GameFiles { linux_binary: true, windows_exe: true, windows_data: true, ..Default::default() };
    let found = find_executable("/t/game", &files);
    assert_eq!(found, Some(Executable::Windows("/t/game/RimWorldWin64.exe".to_string())));
    assert!(found.unwrap().needs_compat_layer(false));
}

#[test]
fn exe_without_data_folder_is_not_detected() {
    let files = GameFiles { windows_exe: true, ..Default::default() };
    assert_eq!(find_executable("/t/game", &files), None);
}

#[test]
fn empty_folder_yields_nothing() {
    assert_eq!(find_executable("/t/game", &GameFiles::default()), None);
}

#[test]
fn config_and_log_hang_off_data_dir() {
    let data = "/home/u/.config/unity3d/Ludeon Studios/RimWorld by Ludeon Studios";
    assert!(config_dir(data).ends_with("/Config"));
    assert!(player_log(data).ends_with("/Player.log"));
}
