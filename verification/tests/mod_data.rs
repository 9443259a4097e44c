use rust_rim::mod_data::db::ModDb;
use rust_rim::mod_data::mod_entry::{ModEntry, ModSource};
use rust_rim::mod_data::mod_id::ModId;
use rust_rim::mod_data::parser::{
    mod_list_text, mods_config_text, parse_about_xml, parse_mods_config, read_mods_config_extras, workshop_id_from_url,
};
use rust_rim::mod_data::profile::Profile;
use rust_rim::mod_data::scanner::{dlc_source, entry_from_about, is_preview_name, order_dlc_folders, source_for_folder};

fn id(s: &str) -> ModId {
    ModId::new(s)
}

fn profile(ids: &[&str]) -> Profile {
    let mut p = Profile::new();
    for i in ids {
        p.activate(id(i));
    }
    p
}

fn entry(package_id: &str, path: &str, source: ModSource) -> ModEntry {
    ModEntry {
        name: package_id.to_string(),
        package_id: ModId::new(package_id),
        version: String::new(),
        author: String::new(),
        supported_versions: Vec::new(),
        path: path.to_string(),
        source,
        dependencies: Vec::new(),
        dependency_sources: Vec::new(),
        load_after: Vec::new(),
        load_before: Vec::new(),
        incompatible_with: Vec::new(),
        description: String::new(),
        preview_path: None,
    }
}

// ── ModId ──────────────────────────────────────────────────────────────────

#[test]
fn normalizes_case_and_whitespace() {
    assert_eq!(ModId::new("  Brrainz.Harmony ").as_str(), "brrainz.harmony");
    assert_eq!(ModId::new("Brrainz.Harmony"), ModId::new("brrainz.harmony"));
}

#[test]
fn from_normalized_repairs_bad_input() {
    assert_eq!(ModId::from_normalized("Foo.Bar".into()).as_str(), "foo.bar");
    assert_eq!(ModId::from_normalized("foo.bar".into()).as_str(), "foo.bar");
}

#[test]
fn looks_up_by_str() {
    let mut map = std::collections::HashMap::new();
    map.insert(ModId::new("a.b"), 1);
    assert_eq!(map.get("a.b"), Some(&1));
}

// ── ModDb ──────────────────────────────────────────────────────────────────

#[test]
fn first_copy_wins_and_rest_become_duplicates() {
    let db = ModDb::build(vec![
        entry("a.mod", "/mods/a", ModSource::Local),
        entry("a.mod", "/steamcmd/a", ModSource::Local),
        entry("a.mod", "/other/a", ModSource::Local),
        entry("b.mod", "/mods/b", ModSource::Local),
    ]);

    assert_eq!(db.len(), 2);
    assert_eq!(db.get(&ModId::new("a.mod")).unwrap().path, "/mods/a");

    let dupes = db.duplicates();
    assert_eq!(dupes.len(), 1);
    assert_eq!(dupes[0].kept, "/mods/a");
    assert_eq!(dupes[0].discarded, vec!["/steamcmd/a".to_string(), "/other/a".to_string()]);
}

#[test]
fn resolves_by_package_id_and_workshop_id() {
    let db = ModDb::build(vec![entry("a.mod", "/mods/12345", ModSource::Workshop(12345))]);

    assert_eq!(db.resolve("A.Mod"), Some(ModId::new("a.mod")));
    assert_eq!(db.resolve("12345"), Some(ModId::new("a.mod")));
    assert_eq!(db.resolve("nope"), None);
}

#[test]
fn entries_without_package_id_are_skipped() {
    let db = ModDb::build(vec![entry("", "/mods/broken", ModSource::Local)]);
    assert!(db.is_empty());
}

#[test]
fn resolve_trims_a_workshop_number_and_ignores_unknown_ids() {
    let db = ModDb::build(vec![entry("a.mod", "/mods/7", ModSource::Workshop(7))]);
    assert_eq!(db.resolve("  7 "), Some(ModId::new("a.mod")));
    assert_eq!(db.resolve("8"), None);
}

#[test]
fn duplicates_of_several_mods_are_grouped_per_mod() {
    let db = ModDb::build(vec![
        entry("b.mod", "/mods/b", ModSource::Local),
        entry("a.mod", "/mods/a", ModSource::Local),
        entry("b.mod", "/other/b", ModSource::Local),
        entry("a.mod", "/other/a", ModSource::Local),
    ]);
    let dupes = db.duplicates();
    assert_eq!(dupes.len(), 2);
    let mut seen: Vec<String> = dupes.iter().map(|g| g.id.as_str().to_string()).collect();
    seen.sort();
    assert_eq!(seen, vec!["a.mod".to_string(), "b.mod".to_string()]);
}

// ── Workshop links ─────────────────────────────────────────────────────────

#[test]
fn reads_every_workshop_url_form_seen_in_the_wild() {
    assert_eq!(workshop_id_from_url("steam://url/CommunityFilePage/2009463077"), Some(2009463077));
    assert_eq!(
        workshop_id_from_url("https://steamcommunity.com/sharedfiles/filedetails/?id=2009463077"),
        Some(2009463077),
    );
    assert_eq!(
        workshop_id_from_url("https://steamcommunity.com/workshop/filedetails/?id=2009463077"),
        Some(2009463077),
    );
    assert_eq!(
        workshop_id_from_url("https:/steamcommunity.com/sharedfiles/filedetails/?id=2009463077"),
        Some(2009463077),
    );
}

#[test]
fn store_pages_are_not_workshop_items() {
    assert_eq!(workshop_id_from_url("https://store.steampowered.com/app/1149640"), None);
    assert_eq!(workshop_id_from_url("https://store.steampowered.com/app/1826140/RimWorld__Biotech/"), None);
}

#[test]
fn junk_urls_yield_nothing() {
    assert_eq!(workshop_id_from_url("steam://url/CommunityFilePage/xxxxxxxxxx"), None);
    assert_eq!(workshop_id_from_url(""), None);
    assert_eq!(workshop_id_from_url("https://github.com/author/mod"), None);
    assert_eq!(workshop_id_from_url("https://steamcommunity.com/sharedfiles/"), None);
    assert_eq!(workshop_id_from_url("steam://url/CommunityFilePage/0"), None);
}

// ── Profile ────────────────────────────────────────────────────────────────

#[test]
fn activate_is_idempotent() {
    let mut p = profile(&["a", "b"]);
    p.activate(id("a"));
    assert_eq!(p.order(), &[id("a"), id("b")]);
}

#[test]
fn deactivate_removes_from_order() {
    let mut p = profile(&["a", "b", "c"]);
    p.deactivate(&id("b"));
    assert_eq!(p.order(), &[id("a"), id("c")]);
    assert!(!p.is_active(&id("b")));
}

#[test]
fn move_to_reorders_without_changing_membership() {
    let mut p = profile(&["a", "b", "c"]);
    p.move_to(&id("c"), 0);
    assert_eq!(p.order(), &[id("c"), id("a"), id("b")]);

    p.move_to(&id("c"), 99);
    assert_eq!(p.order(), &[id("a"), id("b"), id("c")]);
}

#[test]
fn move_up_down_at_edges_is_noop() {
    let mut p = profile(&["a", "b"]);
    p.move_up(&id("a"));
    p.move_down(&id("b"));
    assert_eq!(p.order(), &[id("a"), id("b")]);
}

#[test]
fn moving_inactive_mod_does_nothing() {
    let mut p = profile(&["a"]);
    p.move_to(&id("ghost"), 0);
    p.move_up(&id("ghost"));
    assert_eq!(p.order(), &[id("a")]);
}

#[test]
fn activate_at_inserts_at_position() {
    let mut p = profile(&["a", "b"]);
    p.activate_at(id("c"), 1);
    assert_eq!(p.order(), &[id("a"), id("c"), id("b")]);
}

#[test]
fn activate_at_on_active_mod_moves_it() {
    let mut p = profile(&["a", "b", "c"]);
    p.activate_at(id("c"), 0);
    assert_eq!(p.order(), &[id("c"), id("a"), id("b")]);
    assert_eq!(p.len(), 3);
}

#[test]
fn deactivating_what_was_activated_restores_the_build() {
    let mut p = profile(&["a", "b"]);
    p.activate(id("c"));
    p.deactivate(&id("c"));
    assert_eq!(p.order(), &[id("a"), id("b")]);
}

#[test]
fn move_down_undoes_move_up() {
    let mut p = profile(&["a", "b", "c"]);
    p.move_up(&id("c"));
    assert_eq!(p.order(), &[id("a"), id("c"), id("b")]);
    p.move_down(&id("c"));
    assert_eq!(p.order(), &[id("a"), id("b"), id("c")]);
}

#[test]
fn from_raw_ids_resolves_and_drops_unknown_and_repeated_lines() {
    let db = ModDb::build(vec![
        entry("a.mod", "/mods/a", ModSource::Local),
        entry("b.mod", "/mods/555", ModSource::Workshop(555)),
    ]);
    let raw = vec!["A.Mod".to_string(), "555".to_string(), "nope".to_string(), "a.mod".to_string()];
    let p = Profile::from_raw_ids(&raw, &db);
    assert_eq!(p.order(), &[id("a.mod"), id("b.mod")]);
}

#[test]
fn retain_keeps_only_what_is_asked_in_order() {
    let mut p = profile(&["a", "b", "c", "d"]);
    p.retain(|m| m.as_str() != "b" && m.as_str() != "d");
    assert_eq!(p.order(), &[id("a"), id("c")]);
}

#[test]
fn dependency_and_its_source_are_read_together() {
    let content = r#"<?xml version="1.0" encoding="utf-8"?>
<ModMetaData>
  <name>Test</name>
  <packageId>author.test</packageId>
  <modDependencies>
    <li>
      <packageId>brrainz.harmony</packageId>
      <displayName>Harmony</displayName>
      <steamWorkshopUrl>steam://url/CommunityFilePage/2009463077</steamWorkshopUrl>
    </li>
    <li>
      <packageId>some.mod.without.link</packageId>
      <displayName>No Link</displayName>
    </li>
  </modDependencies>
</ModMetaData>
"#;
    let data = parse_about_xml(content).unwrap();
    assert_eq!(data.dependencies, vec!["brrainz.harmony".to_string(), "some.mod.without.link".to_string()]);
    assert_eq!(data.dependency_sources, vec![("brrainz.harmony".to_string(), 2009463077u64)]);
}

#[test]
fn about_fields_entities_and_authors() {
    let content = r#"<ModMetaData>
  <name>Cats &amp; Dogs</name>
  <packageId> Author.Cats </packageId>
  <modVersion>2.1</modVersion>
  <authors><li>Ann</li><li>Bob</li></authors>
  <description><![CDATA[Line <b>one</b>]]></description>
  <supportedVersions><li>1.4</li><li>1.5</li></supportedVersions>
  <loadAfter><li>a.one</li></loadAfter>
  <forceLoadAfter><li>a.two</li></forceLoadAfter>
  <loadBefore><li>b.one</li></loadBefore>
  <incompatibleWith><li>c.one</li></incompatibleWith>
  <empty/>
  <!-- a comment -->
  <other>&#1080;&unknown;</other>
</ModMetaData>"#;
    let data = parse_about_xml(content).unwrap();
    assert_eq!(data.name, "Cats & Dogs");
    assert_eq!(data.package_id, "Author.Cats");
    assert_eq!(data.version, "2.1");
    assert_eq!(data.author, "Ann, Bob");
    assert_eq!(data.description, "Line <b>one</b>");
    assert_eq!(data.supported_versions, vec!["1.4".to_string(), "1.5".to_string()]);
    assert_eq!(data.load_after, vec!["a.one".to_string(), "a.two".to_string()]);
    assert_eq!(data.load_before, vec!["b.one".to_string()]);
    assert_eq!(data.incompatible_with, vec!["c.one".to_string()]);
    assert!(data.dependencies.is_empty());
}

#[test]
fn version_wins_over_mod_version() {
    let data = parse_about_xml("<ModMetaData><version>1</version><modVersion>2</modVersion></ModMetaData>").unwrap();
    assert_eq!(data.version, "1");
}

#[test]
fn broken_xml_is_an_error() {
    assert!(parse_about_xml("<ModMetaData><name>x</oops></ModMetaData>").is_err());
    assert!(parse_mods_config("<ModsConfigData><activeMods></x>").is_err());
}

#[test]
fn reads_the_active_mods_in_order() {
    let content = "<ModsConfigData><version>1.5.4104 rev435</version>\
        <activeMods><li>ludeon.rimworld</li><li> brrainz.harmony </li><li></li></activeMods>\
        <knownExpansions><li>ludeon.rimworld.royalty</li></knownExpansions></ModsConfigData>";
    assert_eq!(
        parse_mods_config(content).unwrap(),
        vec!["ludeon.rimworld".to_string(), "brrainz.harmony".to_string()]
    );
    let (version, known) = read_mods_config_extras(Some(content));
    assert_eq!(version, "1.5.4104 rev435");
    assert_eq!(known, vec!["ludeon.rimworld.royalty".to_string()]);
}

#[test]
fn extras_default_when_missing() {
    assert_eq!(read_mods_config_extras(None), ("1.0.0".to_string(), Vec::new()));
    assert_eq!(read_mods_config_extras(Some("<ModsConfigData/>")), ("1.0.0".to_string(), Vec::new()));
}

#[test]
fn writes_mods_config_and_mod_lists() {
    let ids = vec!["ludeon.rimworld".to_string(), "a.b".to_string()];
    assert_eq!(
        mod_list_text(&ids),
        "<?xml version=\"1.0\" encoding=\"utf-8\"?>\n<ModsConfigData>\n\t<version>1.0</version>\n\t<activeMods>\n\
         \t\t<li>ludeon.rimworld</li>\n\t\t<li>a.b</li>\n\t</activeMods>\n</ModsConfigData>\n"
    );
    assert_eq!(
        mods_config_text("1.5", &ids, &["x.y".to_string()]),
        "<?xml version=\"1.0\" encoding=\"utf-8\"?>\n<ModsConfigData>\n\t<version>1.5</version>\n\t<activeMods>\n\
         \t\t<li>ludeon.rimworld</li>\n\t\t<li>a.b</li>\n\t</activeMods>\n\t<knownExpansions>\n\t\t<li>x.y</li>\n\
         \t</knownExpansions>\n</ModsConfigData>\n"
    );
    assert_eq!(
        mods_config_text("1.5", &[], &[]),
        "<?xml version=\"1.0\" encoding=\"utf-8\"?>\n<ModsConfigData>\n\t<version>1.5</version>\n\t<activeMods>\n\
         \t</activeMods>\n</ModsConfigData>\n"
    );
    // What is written reads back.
    let written = mods_config_text("1.5", &ids, &["x.y".to_string()]);
    assert_eq!(parse_mods_config(&written).unwrap(), ids);
    assert_eq!(read_mods_config_extras(Some(&written)), ("1.5".to_string(), vec!["x.y".to_string()]));
}

#[test]
fn folder_names_tell_the_source() {
    assert_eq!(source_for_folder("2009463077"), ModSource::Workshop(2009463077));
    assert_eq!(source_for_folder("my_mod"), ModSource::Local);
    assert_eq!(source_for_folder(""), ModSource::Local);
    assert_eq!(source_for_folder("99999999999999999999999"), ModSource::Local);
    assert_eq!(dlc_source("Core"), ModSource::Core);
    assert_eq!(dlc_source("Royalty"), ModSource::DLC("Royalty".to_string()));
}

#[test]
fn preview_images_are_found_in_any_case() {
    assert!(is_preview_name("Preview.png"));
    assert!(is_preview_name("PREVIEW.JPEG"));
    assert!(is_preview_name("preview.webp"));
    assert!(!is_preview_name("preview.bmp"));
    assert!(!is_preview_name("About.xml"));
}

#[test]
fn dlc_folders_list_core_first_then_by_name() {
    let names = vec!["Royalty".to_string(), "Biotech".to_string(), "Core".to_string(), "Anomaly".to_string()];
    assert_eq!(order_dlc_folders(names), vec!["Core", "Anomaly", "Biotech", "Royalty"]);
}

#[test]
fn an_entry_is_made_from_about_xml() {
    let data = parse_about_xml(
        "<ModMetaData><packageId>Author.Mod</packageId><modDependencies><li><packageId>Brrainz.Harmony</packageId>\
         <steamWorkshopUrl>steam://url/CommunityFilePage/2009463077</steamWorkshopUrl></li></modDependencies>\
         <loadAfter><li>Other.Mod</li></loadAfter></ModMetaData>",
    )
    .unwrap();
    let e = entry_from_about(data, "/mods/123".to_string(), "123", source_for_folder("123"), None);
    assert_eq!(e.name, "123");
    assert_eq!(e.package_id, ModId::new("author.mod"));
    assert_eq!(e.dependencies, vec![ModId::new("brrainz.harmony")]);
    assert_eq!(e.dependency_sources, vec![(ModId::new("brrainz.harmony"), 2009463077)]);
    assert_eq!(e.load_after, vec![ModId::new("other.mod")]);
    assert_eq!(e.source, ModSource::Workshop(123));
}

#[test]
fn normalizing_twice_changes_nothing() {
    let once = ModId::new("  Brrainz.Harmony ");
    let twice = ModId::new(once.as_str());
    assert_eq!(once.as_str(), "brrainz.harmony");
    assert_eq!(twice.as_str(), once.as_str());
}
