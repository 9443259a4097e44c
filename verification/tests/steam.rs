use rust_rim::settings::{AppSettings, SettingsTab};
use rust_rim::steam::steamcmd::{
    final_events, is_installed, output_events, parse_downloading_id, parse_error_id, parse_success_id, split_ansi_lines,
    split_chunks, steam_content_path, steamcmd_args, steamcmd_dir, steamcmd_executable, DownloadEvent, Gather,
};
use rust_rim::steam::workshop_api::{
    child_ids, collection_request_body, details_request_body, render_context, collection_from_details, collection_items, collections_page_url, has_next_page, thumb_url, url_encode, workshop_items,
    workshop_page_url, BrowseData, BrowseResult, FileDetail, SortOrder,
};

#[test]
fn steamcmd_paths_hang_off_the_base() {
    assert_eq!(steamcmd_dir("/data"), "/data/steamcmd");
    assert_eq!(steamcmd_executable("/data/"), "/data/steamcmd/steamcmd.sh");
    assert_eq!(steam_content_path("/data"), "/data/steam/steamapps/workshop/content/294100");
}

#[test]
fn nixos_uses_the_system_steamcmd() {
    assert!(is_installed(true, true, false));
    assert!(!is_installed(true, false, true));
    assert!(is_installed(false, false, true));
}

#[test]
fn ansi_codes_and_carriage_returns_are_cleaned() {
    let raw = "\x1b[0mUpdate state (0x61) downloading, progress: 10.5\r\x1b[1;32mSuccess. Downloaded item 42 to \"/x\"\r  \r";
    assert_eq!(
        split_ansi_lines(raw),
        vec!["Update state (0x61) downloading, progress: 10.5".to_string(), "Success. Downloaded item 42 to \"/x\"".to_string()],
    );
    assert_eq!(split_ansi_lines("a\x1bb"), vec!["ab".to_string()]);
}

#[test]
fn item_ids_are_read_after_their_prefix() {
    assert_eq!(parse_downloading_id("Downloading item 2009463077 ..."), Some(2009463077));
    assert_eq!(parse_success_id("Success. Downloaded item 12 to /x"), Some(12));
    assert_eq!(parse_error_id("ERROR! Download item 7 failed (Failure)."), Some(7));
    assert_eq!(parse_error_id("ERROR! Download item failed"), None);
    assert_eq!(parse_success_id("Success. Downloaded item 99999999999999999999999"), None);
}

#[test]
fn ids_are_dealt_round_robin() {
    assert_eq!(split_chunks(vec![1, 2, 3, 4, 5], 2), vec![vec![1, 3, 5], vec![2, 4]]);
    assert_eq!(split_chunks(vec![1, 2], 4), vec![vec![1], vec![2]]);
}

#[test]
fn steamcmd_is_told_each_item() {
    assert_eq!(
        steamcmd_args("C:\\steam", &[5, 6], true),
        [
            "+force_install_dir", "C:/steam", "+login", "anonymous",
            "+workshop_download_item", "294100", "5", "validate",
            "+workshop_download_item", "294100", "6", "validate", "+quit",
        ],
    );
    assert_eq!(steamcmd_args("/s", &[], false), ["+force_install_dir", "/s", "+login", "anonymous", "+quit"]);
}

#[test]
fn output_lines_become_events_and_failures_are_noted_once() {
    let mut failed = vec![7];
    let events = output_events("ERROR! Download item 7 failed\rDownloading item 8", &mut failed);
    assert_eq!(failed, vec![7]);
    assert_eq!(events.len(), 4);
    assert!(matches!(events[1], DownloadEvent::ItemFailed(7)));
    assert!(matches!(events[3], DownloadEvent::ItemStarted(8)));
}

#[test]
fn a_failed_run_without_named_items_fails_them_all() {
    let events = final_events(false, Some(-1), Vec::new(), &[3, 4]);
    assert_eq!(events.len(), 2);
    match &events[0] {
        DownloadEvent::Log(s) => assert_eq!(s, "✕ SteamCMD завершился с ошибкой (код -1)"),
        _ => panic!("expected a log line"),
    }
    assert!(matches!(&events[1], DownloadEvent::Finished { failed } if failed == &vec![3, 4]));
    let events = final_events(true, Some(0), vec![9], &[3, 9]);
    assert!(matches!(&events[0], DownloadEvent::Finished { failed } if failed == &vec![9]));
}

#[test]
fn parallel_downloads_finish_once() {
    let mut g = Gather::new(2);
    let (pass, done) = g.on_event(DownloadEvent::ItemDone(1));
    assert!(matches!(pass, Some(DownloadEvent::ItemDone(1))));
    assert!(!done);
    let (pass, done) = g.on_event(DownloadEvent::Finished { failed: vec![5] });
    assert!(pass.is_none() && !done);
    let (pass, done) = g.on_event(DownloadEvent::Finished { failed: vec![6] });
    assert!(done);
    assert!(matches!(pass, Some(DownloadEvent::Finished { failed }) if failed == vec![5, 6]));
    assert!(g.on_close().is_none());
}

#[test]
fn queries_are_encoded_byte_by_byte() {
    assert_eq!(url_encode("a b&c"), "a+b%26c");
    assert_eq!(url_encode("ё-_.~"), "%D1%91-_.~");
}

#[test]
fn thumbnails_are_asked_of_the_cdn() {
    assert_eq!(thumb_url(""), "");
    assert_eq!(thumb_url("https://x/p.png"), "https://x/p.png?imw=256&imh=256&ima=fit&impolicy=Letterbox");
    assert_eq!(thumb_url("https://x/p.png?a=1"), "https://x/p.png?a=1&imw=256&imh=256&ima=fit&impolicy=Letterbox");
}

#[test]
fn page_addresses() {
    assert_eq!(
        workshop_page_url("vanilla expanded", 2, SortOrder::Latest),
        "https://steamcommunity.com/workshop/browse/?appid=294100&searchtext=vanilla+expanded&section=readytouseitems&browsesort=mostrecent&p=2",
    );
    assert_eq!(
        collections_page_url("", 1, SortOrder::Trending),
        "https://steamcommunity.com/workshop/browse/?appid=294100&section=collections&browsesort=trend&p=1",
    );
    assert_eq!(SortOrder::MostSubscribed.as_param(), "totaluniquesubscriptions");
    assert_eq!(SortOrder::RecentlyUpdated.label(), "Обновлённые");
    assert_eq!(SortOrder::all().len(), 4);
}

fn result(id: &str, title: Option<&str>, creator: Option<&str>) -> BrowseResult {
    BrowseResult {
        publishedfileid: Some(id.to_string()),
        title: title.map(str::to_string),
        creator: creator.map(str::to_string),
        preview_url: Some("https://p/1.jpg".to_string()),
    }
}

#[test]
fn listing_results_become_items() {
    let data = BrowseData {
        results: Some(vec![result("10", Some("Ten"), Some("u1")), result("x", Some("Bad"), None), result("11", None, Some("u2"))]),
        authors: vec![("u1".to_string(), "Old".to_string()), ("u1".to_string(), "Alice".to_string())],
        current_page: Some(1),
        total_pages: Some(3),
    };
    let items = workshop_items(&data);
    assert_eq!(items.len(), 2);
    assert_eq!(items[0].id, 10);
    assert_eq!(items[0].title, "Ten");
    assert_eq!(items[0].author, "Alice");
    assert_eq!(items[0].preview_url, "https://p/1.jpg?imw=256&imh=256&ima=fit&impolicy=Letterbox");
    assert_eq!(items[1].title, "");
    assert_eq!(items[1].author, "");
    assert_eq!(collection_items(&data).len(), 2);
    assert!(has_next_page(&data));
    let last = BrowseData { results: None, authors: Vec::new(), current_page: None, total_pages: None };
    assert!(!has_next_page(&last));
    assert!(workshop_items(&last).is_empty());
}

#[test]
fn a_collection_takes_its_title_from_its_own_entry() {
    let details = vec![
        FileDetail { publishedfileid: Some("100".to_string()), title: Some("My Pack".to_string()), preview_url: None },
        FileDetail { publishedfileid: Some("5".to_string()), title: Some("Mod".to_string()), preview_url: None },
        FileDetail { publishedfileid: None, title: Some("?".to_string()), preview_url: None },
    ];
    let (title, items) = collection_from_details(100, &details);
    assert_eq!(title, "My Pack");
    assert_eq!(items.len(), 1);
    assert_eq!(items[0].id, 5);
    let (title, _) = collection_from_details(1, &[].to_vec());
    assert_eq!(title, "Collection");
}

#[test]
fn default_settings_and_required_paths() {
    let mut s = AppSettings::default();
    assert!(s.dark_theme && s.use_community_rules && !s.sort_on_load);
    assert_eq!(s.steamcmd_max_processes, 2);
    assert_eq!(s.active_tab, SettingsTab::Paths);
    assert!(!s.has_required_paths());
    s.game_path = "/g".to_string();
    s.local_mods_path = "/m".to_string();
    assert!(s.has_required_paths());
    assert_eq!(s.steamcmd_path_in(Some("/data".to_string())), "/data/steamcmd_data");
    assert_eq!(s.steamcmd_path_in(None), "");
    s.steamcmd_path = "/own".to_string();
    assert_eq!(s.effective_steamcmd_path(), "/own");
}

#[test]
fn collection_requests_are_numbered_forms() {
    assert_eq!(collection_request_body(42), "collectioncount=1&publishedfileids[0]=42");
    assert_eq!(
        details_request_body(42, &[7, 9]),
        "itemcount=3&publishedfileids[0]=42&publishedfileids[1]=7&publishedfileids[2]=9"
    );
    assert_eq!(details_request_body(42, &[]), "itemcount=1&publishedfileids[0]=42");
}

#[test]
fn child_ids_keep_numeric_strings_only() {
    let children = vec![Some("12".to_string()), None, Some("x".to_string()), Some("+3".to_string())];
    assert_eq!(child_ids(&children), vec![12, 3]);
}

#[test]
fn render_context_is_found_after_its_marker() {
    let html = "<script>window.SSR.renderContext=JSON.parse(\"{}\");</script>";
    assert_eq!(render_context(html).as_deref(), Some("\"{}\");</script>"));
    assert_eq!(render_context("<html></html>"), None);
}

#[test]
fn a_set_path_is_used_as_it_is() {
    let mut s = AppSettings::default();
    s.steamcmd_path = "\u{3000}/opt/steamcmd\u{85}".to_string();
    assert_eq!(s.effective_steamcmd_path(), "\u{3000}/opt/steamcmd\u{85}");
}

#[test]
fn unicode_whitespace_is_trimmed() {
    assert_eq!(rust_rim::text::trim_str("\u{3000}\t x \u{85}\u{2029}"), "x");
    assert_eq!(rust_rim::text::trim_str("\u{200B}x"), "\u{200B}x");
}
