use rust_rim::log_analysis::attribution::{attribute, ModIndex};
use rust_rim::log_analysis::parser::{log_parses, parse_log, try_parse_log};
use rust_rim::log_analysis::{analyze, try_analyze, LogIssue, Severity};
use rust_rim::mod_data::db::ModDb;
use rust_rim::mod_data::mod_entry::{ModEntry, ModSource};
use rust_rim::mod_data::mod_id::ModId;
use rust_rim::mod_data::profile::Profile;

const LOG: &str = "Some info line
Exception in Verse.Root.Update: System.NullReferenceException: Object reference not set
  at Verse.Thing.Tick () [0x00000] in <abc>:0
  at MyMod.Patch.Postfix (Verse.Thing __instance) [0x00001] in <def>:0
(Filename: C:\\buildslave\\x.cpp Line: 0)

Exception in Verse.Root.Update: System.NullReferenceException: Object reference not set
  at Verse.Thing.Tick () [0x00000] in <abc>:0
Warning: something odd 123
Could not find translation key \"X\"
";

fn entry(package_id: &str, name: &str, path: &str) -> ModEntry {
    ModEntry {
        name: name.to_string(),
        package_id: ModId::new(package_id),
        version: String::new(),
        author: String::new(),
        supported_versions: Vec::new(),
        path: path.to_string(),
        source: ModSource::Local,
        dependencies: Vec::new(),
        dependency_sources: Vec::new(),
        load_after: Vec::new(),
        load_before: Vec::new(),
        incompatible_with: Vec::new(),
        description: String::new(),
        preview_path: None,
    }
}

fn index() -> ModIndex {
    let db = ModDb::build(vec![
        entry("author.mymod", "My Mod Framework", "/games/RimWorld/Mods/MyModFolder"),
        entry("author.coolmod", "Cool", "/games/RimWorld/Mods/CoolMod"),
    ]);
    let mut profile = Profile::new();
    profile.activate(ModId::new("author.mymod"));
    ModIndex::build_with_dlls(&db, &profile, &[vec!["MyMod".to_string()], vec!["System".to_string()]])
}

fn issue(title: &str, text: &str, frames: &[&str]) -> LogIssue {
    LogIssue {
        severity: Severity::Error,
        title: title.to_string(),
        full_text: text.to_string(),
        count: 1,
        frames: frames.iter().map(|f| f.to_string()).collect(),
        suspects: Vec::new(),
        harmony_hint: None,
    }
}

#[test]
fn identical_entries_are_counted_once() {
    let issues = parse_log(LOG);
    assert_eq!(issues.len(), 2);
    assert_eq!(issues[0].severity, Severity::Error);
    assert_eq!(issues[0].title, "Exception in Verse.Root.Update: System.NullReferenceException: Object reference not set");
    assert_eq!(issues[0].count, 2);
    assert_eq!(
        issues[0].frames,
        vec![
            "Verse.Thing.Tick () [0x00000] in <abc>:0".to_string(),
            "MyMod.Patch.Postfix (Verse.Thing __instance) [0x00001] in <def>:0".to_string(),
        ],
    );
    assert!(issues[0].full_text.ends_with("in <def>:0"));
    assert_eq!(issues[1].severity, Severity::Warning);
    assert_eq!(issues[1].title, "Warning: something odd 123");
}

#[test]
fn translation_noise_is_left_out_with_its_stack() {
    let log = "Failed to resolve text for key\nSystem.ArgumentNullException: boom\n  at Verse.X ()\n";
    assert!(parse_log(log).is_empty());
}

#[test]
fn statistics_with_no_errors_are_no_error() {
    assert!(parse_log("Loaded with 0 errors\n").is_empty());
    assert_eq!(parse_log("Error while loading: bad\n").len(), 1);
}

#[test]
fn numbers_do_not_split_a_group() {
    let log = "Error in tick 100\nError in tick 200\n";
    let issues = parse_log(log);
    assert_eq!(issues.len(), 1);
    assert_eq!(issues[0].count, 2);
    assert_eq!(issues[0].title, "Error in tick 100");
}

#[test]
fn an_exception_line_continues_the_entry_above() {
    let log = "Error while resolving\nSystem.NullReferenceException: gone\n";
    let issues = parse_log(log);
    assert_eq!(issues.len(), 1);
    assert_eq!(issues[0].full_text, "Error while resolving\nSystem.NullReferenceException: gone");
}

#[test]
fn a_character_across_the_cut_is_reported_not_panicked_on() {
    let mut title = "Error ".to_string();
    title.push_str(&"x".repeat(153));
    title.push('é');
    title.push_str(" tail");
    assert!(!log_parses(&title));
    assert!(try_parse_log(&title).is_none());
    assert!(log_parses("Error short\n"));
}

#[test]
fn frames_point_at_the_dll_owner() {
    let ix = index();
    let mut it = issue("Boom", "Boom", &["MyMod.Patch.Postfix (Verse.Thing __instance) [0x00001] in <def>:0"]);
    attribute(&mut it, &ix);
    assert_eq!(it.suspects.len(), 1);
    assert_eq!(it.suspects[0].package_id, "author.mymod");
    assert_eq!(it.suspects[0].score, 4);
    assert!(it.suspects[0].is_active);
    assert_eq!(it.suspects[0].evidence, vec!["стек: MyMod.Patch.Postfix".to_string()]);
}

#[test]
fn a_path_into_a_mod_folder_is_the_strongest_signal() {
    let ix = index();
    let mut it = issue(
        "Could not load texture",
        "Could not load texture at /games/RimWorld/Mods/CoolMod/Textures/a.png (author.mymod)",
        &[],
    );
    attribute(&mut it, &ix);
    assert_eq!(it.suspects.len(), 2);
    assert_eq!(it.suspects[0].package_id, "author.coolmod");
    assert_eq!(it.suspects[0].score, 5);
    assert_eq!(it.suspects[0].evidence, vec!["путь: …mods/coolmod/…".to_string()]);
    assert_eq!(it.suspects[1].package_id, "author.mymod");
    assert_eq!(it.suspects[1].score, 3);
    assert!(it.suspects[1].is_active);
    assert!(!it.suspects[0].is_active);
}

#[test]
fn a_harmony_patch_without_culprit_names_the_patched_method() {
    let ix = index();
    let mut it = issue(
        "Exception ticking",
        "Exception ticking",
        &["(wrapper dynamic-method) Verse.Pawn.Verse.Pawn.SpawnSetup_Patch2 (Verse.Pawn,bool)"],
    );
    attribute(&mut it, &ix);
    assert!(it.suspects.is_empty());
    assert_eq!(it.harmony_hint.as_deref(), Some("Verse.Pawn.SpawnSetup"));
}

#[test]
fn the_report_puts_errors_first_then_the_most_frequent() {
    let ix = index();
    let log = "Warning: w\nError: once\nError: twice\nError: twice\n";
    let issues = analyze(log, &ix);
    assert_eq!(issues.len(), 3);
    assert_eq!(issues[0].title, "Error: twice");
    assert_eq!(issues[0].count, 2);
    assert_eq!(issues[1].title, "Error: once");
    assert_eq!(issues[2].severity, Severity::Warning);
}

#[test]
fn checked_analysis_agrees_and_refuses_a_cut_character() {
    let ix = index();
    let log = "Warning: w\nError: once\nError: twice\nError: twice\n";
    let checked = try_analyze(log, &ix).expect("a log that groups");
    let plain = analyze(log, &ix);
    assert_eq!(checked.len(), plain.len());
    assert_eq!(checked[0].title, plain[0].title);
    let mut title = "Error ".to_string();
    title.push_str(&"x".repeat(153));
    title.push('é');
    assert!(try_analyze(&title, &ix).is_none());
    assert!(ix.is_wf());
}
