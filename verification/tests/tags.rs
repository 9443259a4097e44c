use rust_rim::mod_data::mod_id::ModId;
use rust_rim::tags::{palette, Stored, Tag, Tags, PALETTE_LEN};

fn mod_id(s: &str) -> ModId {
    ModId::new(s)
}

fn names_of(t: &Tags, m: &ModId) -> Vec<String> {
    t.tags_of(m).iter().map(|(_, tag)| tag.name.clone()).collect()
}

#[test]
fn create_is_idempotent_and_case_insensitive() {
    let mut t = Tags::new();
    let a = t.create("Фреймворк").unwrap();
    let b = t.create("фреймворк").unwrap();
    assert_eq!(a, b);
    assert_eq!(t.all().len(), 1);
    assert_eq!(t.create("   ").map(|_| ()), None);
}

#[test]
fn new_tags_cycle_through_palette() {
    let mut t = Tags::new();
    for i in 0..PALETTE_LEN + 1 {
        t.create(&format!("t{i}")).unwrap();
    }
    assert_eq!(t.all()[0].color, palette(0));
    assert_eq!(t.all()[PALETTE_LEN].color, palette(0));
}

#[test]
fn toggle_adds_and_removes() {
    let mut t = Tags::new();
    let tag = t.create("VFE").unwrap();
    let m = mod_id("a.mod");

    t.toggle(&m, tag);
    assert!(t.has(&m, tag));
    t.toggle(&m, tag);
    assert!(!t.has(&m, tag));
    assert!(t.stripe_color(&m).is_none());
}

#[test]
fn stripe_color_follows_first_tag() {
    let mut t = Tags::new();
    let a = t.create("a").unwrap();
    let b = t.create("b").unwrap();
    let m = mod_id("x.mod");
    t.toggle(&m, b);
    t.toggle(&m, a);
    assert_eq!(t.stripe_color(&m), Some(t.get(b).unwrap().color));
}

#[test]
fn delete_shifts_remaining_assignments() {
    let mut t = Tags::new();
    let a = t.create("a").unwrap();
    let b = t.create("b").unwrap();
    let c = t.create("c").unwrap();
    let m = mod_id("x.mod");
    t.toggle(&m, a);
    t.toggle(&m, c);

    t.delete(b);

    assert_eq!(t.all().len(), 2);
    assert_eq!(names_of(&t, &m), ["a", "c"]);
}

#[test]
fn delete_removes_tag_from_mods() {
    let mut t = Tags::new();
    let a = t.create("a").unwrap();
    let m = mod_id("x.mod");
    t.toggle(&m, a);
    t.delete(a);
    assert!(t.tags_of(&m).is_empty());
    assert_eq!(t.usage(a), 0);
}

#[test]
fn rename_rejects_duplicates_and_empty() {
    let mut t = Tags::new();
    let a = t.create("a").unwrap();
    t.create("b").unwrap();

    assert!(!t.rename(a, "B"), "a name in use must be refused");
    assert!(!t.rename(a, "  "), "an empty name must be refused");
    assert!(t.rename(a, "A"), "changing the case of its own name is allowed");
    assert_eq!(t.all()[0].name, "A");
}

#[test]
fn round_trips_through_storage() {
    let mut t = Tags::new();
    let a = t.create("фреймворк").unwrap();
    let b = t.create("мусор").unwrap();
    t.set_color(b, [1, 2, 3]);
    let m = mod_id("Some.Mod");
    t.toggle(&m, a);
    t.toggle(&m, b);

    let restored = Tags::from_stored(t.to_stored());

    assert_eq!(restored.all().len(), 2);
    assert_eq!(restored.get(b).unwrap().color, [1, 2, 3]);
    assert_eq!(names_of(&restored, &m), ["фреймворк", "мусор"]);
}

#[test]
fn unknown_tag_names_in_file_are_ignored() {
    let stored = Stored {
        tags: vec![Tag { name: "есть".into(), color: [0, 0, 0] }],
        assigned: vec![("a.mod".to_string(), vec!["есть".to_string(), "нет такого".to_string()])],
    };
    let t = Tags::from_stored(stored);
    assert_eq!(names_of(&t, &mod_id("a.mod")), ["есть"]);
}

#[test]
fn toggling_twice_restores_the_tags_of_a_mod() {
    let mut t = Tags::new();
    let a = t.create("a").unwrap();
    let b = t.create("b").unwrap();
    let m = mod_id("x.mod");
    t.toggle(&m, a);
    t.toggle(&m, b);
    t.toggle(&m, a);
    t.toggle(&m, a);
    let mut names = names_of(&t, &m);
    names.sort();
    assert_eq!(names, ["a", "b"]);
}

#[test]
fn usage_counts_the_mods_with_a_tag() {
    let mut t = Tags::new();
    let a = t.create("a").unwrap();
    t.toggle(&mod_id("x.mod"), a);
    t.toggle(&mod_id("y.mod"), a);
    assert_eq!(t.usage(a), 2);
    assert_eq!(t.find("A"), Some(a));
}
