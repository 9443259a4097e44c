use rust_rim::actions::{add_missing_dependencies, apply, deactivate_all, ensure_core_active, navigate, Action, Effect, Keys};
use rust_rim::mod_data::db::ModDb;
use rust_rim::mod_data::mod_entry::{ModEntry, ModSource};
use rust_rim::mod_data::mod_id::ModId;
use rust_rim::mod_data::profile::Profile;
use rust_rim::sorting::{sort_active_mods, CommunityRules, ModRule};
use rust_rim::tags::Tags;

fn id(s: &str) -> ModId {
    ModId::new(s)
}

fn entry(package_id: &str, name: &str, source: ModSource) -> ModEntry {
    ModEntry {
        name: name.to_string(),
        package_id: ModId::new(package_id),
        version: String::new(),
        author: String::new(),
        supported_versions: Vec::new(),
        path: format!("/mods/{package_id}"),
        source,
        dependencies: Vec::new(),
        dependency_sources: Vec::new(),
        load_after: Vec::new(),
        load_before: Vec::new(),
        incompatible_with: Vec::new(),
        description: String::new(),
        preview_path: None,
    }
}

fn profile(ids: &[&str]) -> Profile {
    let mut p = Profile::new();
    for i in ids {
        p.activate(id(i));
    }
    p
}

fn order(p: &Profile) -> Vec<String> {
    p.order().iter().map(|m| m.as_str().to_string()).collect()
}

fn db() -> ModDb {
    let mut a = entry("a.mod", "Alpha", ModSource::Local);
    a.load_after = vec![id("b.mod")];
    ModDb::build(vec![
        entry("ludeon.rimworld", "Core", ModSource::Core),
        entry("ludeon.rimworld.biotech", "Biotech", ModSource::DLC("Biotech".to_string())),
        entry("ludeon.rimworld.royalty", "Royalty", ModSource::DLC("Royalty".to_string())),
        entry("brrainz.harmony", "Harmony", ModSource::Local),
        entry("b.mod", "Bravo", ModSource::Local),
        a,
        entry("c.mod", "Charlie", ModSource::Local),
    ])
}

#[test]
fn tiers_then_dependencies_then_names() {
    let db = db();
    let mut p = profile(&["a.mod", "c.mod", "ludeon.rimworld.biotech", "ludeon.rimworld", "brrainz.harmony", "b.mod", "ludeon.rimworld.royalty"]);
    sort_active_mods(&mut p, &db, None);
    assert_eq!(
        order(&p),
        ["brrainz.harmony", "ludeon.rimworld", "ludeon.rimworld.royalty", "ludeon.rimworld.biotech", "b.mod", "a.mod", "c.mod"],
    );
}

#[test]
fn mods_the_database_does_not_know_go_last() {
    let db = db();
    let mut p = profile(&["ghost.mod", "c.mod", "b.mod"]);
    sort_active_mods(&mut p, &db, None);
    assert_eq!(order(&p), ["b.mod", "c.mod", "ghost.mod"]);
}

#[test]
fn community_rules_add_edges_and_tiers() {
    let db = db();
    let rules = CommunityRules::from_raw(
        7,
        vec![
            ("C.Mod".to_string(), ModRule { load_before: vec!["B.MOD".to_string()], load_after: Vec::new(), load_top: false, load_bottom: false }),
            ("a.mod".to_string(), ModRule { load_before: Vec::new(), load_after: Vec::new(), load_top: false, load_bottom: true }),
        ],
    );
    let mut p = profile(&["a.mod", "b.mod", "c.mod"]);
    sort_active_mods(&mut p, &db, Some(&rules));
    assert_eq!(order(&p), ["c.mod", "b.mod", "a.mod"]);
    assert_eq!(rules.timestamp, 7);
}

#[test]
fn a_cycle_keeps_its_mods_in_priority_order() {
    let mut x = entry("x.mod", "Xray", ModSource::Local);
    x.load_after = vec![id("y.mod")];
    let mut y = entry("y.mod", "Yankee", ModSource::Local);
    y.load_after = vec![id("x.mod")];
    let db = ModDb::build(vec![x, y, entry("z.mod", "Zulu", ModSource::Local)]);
    let mut p = profile(&["y.mod", "z.mod", "x.mod"]);
    sort_active_mods(&mut p, &db, None);
    assert_eq!(order(&p), ["z.mod", "x.mod", "y.mod"]);
}

#[test]
fn missing_dependencies_are_switched_on_transitively() {
    let mut a = entry("a.mod", "A", ModSource::Local);
    a.dependencies = vec![id("b.mod")];
    let mut b = entry("b.mod", "B", ModSource::Local);
    b.dependencies = vec![id("c.mod")];
    let mut d = entry("d.mod", "D", ModSource::Local);
    d.dependencies = vec![id("zzz.missing")];
    let db = ModDb::build(vec![a, b, entry("c.mod", "C", ModSource::Local), d]);
    let mut p = profile(&["a.mod", "d.mod"]);
    let added = add_missing_dependencies(&mut p, &db);
    assert_eq!(added, 2);
    assert_eq!(order(&p), ["a.mod", "d.mod", "b.mod", "c.mod"]);
    assert_eq!(add_missing_dependencies(&mut p, &db), 0);
}

#[test]
fn core_is_put_first_when_switched_off() {
    let db = db();
    let mut p = profile(&["b.mod"]);
    ensure_core_active(&mut p, &db);
    assert_eq!(order(&p), ["ludeon.rimworld", "b.mod"]);
    ensure_core_active(&mut p, &db);
    assert_eq!(order(&p), ["ludeon.rimworld", "b.mod"]);
}

#[test]
fn actions_change_the_build_as_asked() {
    let db = db();
    let mut tags = Tags::new();
    let mut p = profile(&["ludeon.rimworld", "a.mod", "b.mod"]);

    assert!(matches!(apply(&mut p, &mut tags, &db, Action::Deactivate(id("ludeon.rimworld")), &[]), Effect::BuildChanged));
    assert_eq!(order(&p), ["ludeon.rimworld", "a.mod", "b.mod"]);

    apply(&mut p, &mut tags, &db, Action::Activate(id("not.installed")), &[]);
    assert_eq!(order(&p), ["ludeon.rimworld", "a.mod", "b.mod"]);

    let shown = vec![id("a.mod"), id("b.mod")];
    apply(&mut p, &mut tags, &db, Action::DragDrop { id: id("c.mod"), to_active: true, to_pos: 1 }, &shown);
    assert_eq!(order(&p), ["ludeon.rimworld", "a.mod", "c.mod", "b.mod"]);

    apply(&mut p, &mut tags, &db, Action::DragDrop { id: id("a.mod"), to_active: false, to_pos: 0 }, &shown);
    assert_eq!(order(&p), ["ludeon.rimworld", "c.mod", "b.mod"]);

    match apply(&mut p, &mut tags, &db, Action::OpenFolder(id("b.mod")), &[]) {
        Effect::OpenFolder(path) => assert_eq!(path, "/mods/b.mod"),
        _ => panic!("expected a folder to open"),
    }
}

fn keys(up: bool, down: bool, enter: bool, ctrl: bool) -> Keys {
    Keys { up, down, enter, ctrl }
}

fn name_of(a: &Option<Action>) -> Option<(String, String)> {
    match a {
        Some(Action::MoveUp(i)) => Some(("up".to_string(), i.as_str().to_string())),
        Some(Action::MoveDown(i)) => Some(("down".to_string(), i.as_str().to_string())),
        Some(Action::Activate(i)) => Some(("on".to_string(), i.as_str().to_string())),
        Some(Action::Deactivate(i)) => Some(("off".to_string(), i.as_str().to_string())),
        Some(_) => Some(("other".to_string(), String::new())),
        None => None,
    }
}

#[test]
fn arrows_move_the_selection_within_its_list() {
    let db = db();
    let p = profile(&["ludeon.rimworld", "b.mod", "a.mod"]);
    let active = vec![id("ludeon.rimworld"), id("b.mod"), id("a.mod")];
    let inactive = vec![id("c.mod")];
    // Nothing selected: an arrow selects the first inactive mod.
    let (sel, act) = navigate(&p, &db, &None, &active, &inactive, keys(false, true, false, false));
    assert_eq!(sel.map(|m| m.as_str().to_string()), Some("c.mod".to_string()));
    assert!(act.is_none());
    // Down from the middle, up at the top stays.
    let (sel, _) = navigate(&p, &db, &Some(id("b.mod")), &active, &inactive, keys(false, true, false, false));
    assert_eq!(sel.map(|m| m.as_str().to_string()), Some("a.mod".to_string()));
    let (sel, _) = navigate(&p, &db, &Some(id("a.mod")), &active, &inactive, keys(false, true, false, false));
    assert_eq!(sel.map(|m| m.as_str().to_string()), Some("a.mod".to_string()));
    let (sel, _) = navigate(&p, &db, &Some(id("ludeon.rimworld")), &active, &inactive, keys(true, false, false, false));
    assert_eq!(sel.map(|m| m.as_str().to_string()), Some("ludeon.rimworld".to_string()));
}

#[test]
fn ctrl_arrows_and_enter_become_actions() {
    let db = db();
    let p = profile(&["ludeon.rimworld", "b.mod"]);
    let active = vec![id("ludeon.rimworld"), id("b.mod")];
    let inactive = vec![id("c.mod")];
    let (_, act) = navigate(&p, &db, &Some(id("b.mod")), &active, &inactive, keys(true, false, false, true));
    assert_eq!(name_of(&act), Some(("up".to_string(), "b.mod".to_string())));
    let (_, act) = navigate(&p, &db, &Some(id("b.mod")), &active, &inactive, keys(false, false, true, false));
    assert_eq!(name_of(&act), Some(("off".to_string(), "b.mod".to_string())));
    let (_, act) = navigate(&p, &db, &Some(id("c.mod")), &active, &inactive, keys(false, false, true, false));
    assert_eq!(name_of(&act), Some(("on".to_string(), "c.mod".to_string())));
    // Core is never switched off from the keyboard.
    let (sel, act) = navigate(&p, &db, &Some(id("ludeon.rimworld")), &active, &inactive, keys(false, false, true, false));
    assert!(act.is_none());
    assert_eq!(sel.map(|m| m.as_str().to_string()), Some("ludeon.rimworld".to_string()));
}

#[test]
fn deactivating_all_keeps_core() {
    let db = db();
    let mut p = profile(&["brrainz.harmony", "ludeon.rimworld", "ludeon.rimworld.royalty", "a.mod"]);
    deactivate_all(&mut p, &db);
    assert_eq!(order(&p), vec!["ludeon.rimworld".to_string()]);
}
