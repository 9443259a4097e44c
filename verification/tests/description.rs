use rust_rim::description::{to_markdown, to_markdown_with, Options, MAX_LABEL};

fn with_images(raw: &str) -> String {
    to_markdown_with(raw, Options { inline_images: true })
}

#[test]
fn keeps_single_newlines_as_line_breaks() {
    assert_eq!(to_markdown("первая\nвторая"), "первая  \nвторая");
}

#[test]
fn collapses_runs_of_blank_lines() {
    assert_eq!(to_markdown("а\n\n\n\nб"), "а\n\nб");
}

#[test]
fn converts_unity_tags() {
    assert_eq!(to_markdown("<b>жирный</b> и <i>курсив</i>"), "**жирный** и *курсив*");
    assert_eq!(to_markdown("<color=#ff0000>красный</color>"), "красный");
    assert_eq!(to_markdown("<size=20>крупный</size>"), "крупный");
}

#[test]
fn keeps_non_tag_angle_brackets() {
    assert_eq!(to_markdown("если x < y и y > z"), "если x < y и y > z");
}

#[test]
fn converts_bbcode_inline() {
    assert_eq!(to_markdown("[b]жирный[/b]"), "**жирный**");
    assert_eq!(to_markdown("[i]курсив[/i]"), "*курсив*");
    assert_eq!(to_markdown("[strike]зачёркнуто[/strike]"), "~~зачёркнуто~~");
}

#[test]
fn converts_headings() {
    assert_eq!(to_markdown("[h1]Заголовок[/h1]"), "# Заголовок");
    assert_eq!(to_markdown("[h2]Раздел[/h2]"), "## Раздел");
    assert_eq!(to_markdown("текст[h3]Мелкий[/h3]ещё"), "текст\n\n### Мелкий\n\nещё");
}

#[test]
fn converts_links() {
    assert_eq!(to_markdown("[url=https://example.com]сайт[/url]"), "[сайт](https://example.com)");
    assert_eq!(to_markdown("[url]https://example.com[/url]"), "[https://example.com](https://example.com)");
}

#[test]
fn drops_unsafe_link_schemes() {
    assert_eq!(to_markdown("[url=javascript:alert(1)]клик[/url]"), "клик");
    assert_eq!(to_markdown("[url=steam://run/294100]запуск[/url]"), "запуск");
}

#[test]
fn images_become_links_not_requests() {
    assert_eq!(to_markdown("[img]https://cdn.example/a.png[/img]"), "[🖼 изображение](https://cdn.example/a.png)");
    assert_eq!(to_markdown("[img]file:///etc/passwd[/img]"), "");
}

#[test]
fn inline_images_are_opt_in() {
    let raw = "[img]https://cdn.example/a.png[/img]";
    assert_eq!(to_markdown(raw), "[🖼 изображение](https://cdn.example/a.png)");
    assert_eq!(with_images(raw), "![](https://cdn.example/a.png)");
}

#[test]
fn inline_image_inside_link_stays_flat() {
    let md = with_images("[url=https://discord.gg/x][img]https://cdn.example/a.png[/img][/url]");
    assert_eq!(md, "[🖼 изображение](https://discord.gg/x)");
}

#[test]
fn inline_images_force_table_to_lines() {
    let md = with_images(
        "[table][tr][td][img]https://cdn.example/a.png[/img][/td]\
         [td][img]https://cdn.example/b.png[/img][/td][/tr][/table]",
    );
    assert!(!md.contains('|'), "{md}");
    assert!(md.contains("![](https://cdn.example/a.png)"), "{md}");
}

#[test]
fn converts_lists() {
    assert_eq!(to_markdown("[list][*]раз[*]два[/list]"), "- раз\n- два");
    assert_eq!(to_markdown("[olist][*]раз[*]два[/olist]"), "1. раз\n2. два");
}

#[test]
fn converts_tables() {
    let md = to_markdown("[table][tr][th]имя[/th][th]цена[/th][/tr][tr][td]хлеб[/td][td]5[/td][/tr][/table]");
    assert_eq!(md, "| имя | цена |\n| --- | --- |\n| хлеб | 5 |");
}

#[test]
fn wide_table_falls_back_to_lines() {
    let md = to_markdown(
        "[table][tr][td]довольно длинная ячейка с текстом[/td]\
         [td]и вторая такая же длинная ячейка[/td][/tr][/table]",
    );
    assert!(!md.contains('|'), "широкая таблица не должна остаться таблицей: {md}");
    assert!(md.contains(" · "), "{md}");
}

#[test]
fn many_columns_fall_back_to_lines() {
    let md = to_markdown("[table][tr][td]a[/td][td]b[/td][td]c[/td][td]d[/td][/tr][/table]");
    assert_eq!(md, "a · b · c · d");
}

#[test]
fn narrow_table_stays_a_table() {
    let md = to_markdown("[table][tr][th]имя[/th][th]цена[/th][/tr][tr][td]хлеб[/td][td]5[/td][/tr][/table]");
    assert!(md.starts_with("| имя"), "{md}");
}

#[test]
fn table_cells_escape_pipes() {
    let md = to_markdown("[table][tr][td]a|b[/td][/tr][/table]");
    assert!(md.contains("a\\|b"), "{md}");
}

#[test]
fn nested_markup_inside_blocks() {
    assert_eq!(to_markdown("[list][*][b]жир[/b][/list]"), "- **жир**");
    assert_eq!(to_markdown("[h2][b]Заголовок[/b][/h2]"), "## **Заголовок**");
}

#[test]
fn code_block_keeps_newlines_verbatim() {
    let md = to_markdown("[code]строка1\nстрока2[/code]");
    assert_eq!(md, "```\nстрока1\nстрока2\n```");
    assert!(!md.contains("  \n"));
}

#[test]
fn noparse_keeps_markup_literal() {
    assert_eq!(to_markdown("[noparse][b]не тег[/b][/noparse]"), "[b]не тег[/b]");
}

#[test]
fn quote_and_spoiler_become_blockquotes() {
    assert_eq!(to_markdown("[quote]цитата[/quote]"), "> цитата");
    assert!(to_markdown("[spoiler]секрет[/spoiler]").starts_with("> 🔒"));
}

#[test]
fn unclosed_tag_is_left_alone() {
    assert_eq!(to_markdown("[b]без закрытия"), "[b]без закрытия");
    assert_eq!(to_markdown("текст [WIP] ещё"), "текст [WIP] ещё");
}

#[test]
fn literal_backslash_n_becomes_line_break() {
    assert_eq!(to_markdown("Mod Version: 1.8\\n\\n\\nRemove overhead"), "Mod Version: 1.8\n\nRemove overhead");
    assert_eq!(to_markdown("a\\tb"), "a\tb");
}

#[test]
fn image_inside_link_does_not_nest() {
    let md = to_markdown("[url=https://discord.gg/h5TY6DA][img]https://img.litet.net/logos/Discord.png[/img][/url]");
    assert_eq!(md, "[🖼 изображение](https://discord.gg/h5TY6DA)");
    assert_eq!(md.matches("](").count(), 1, "ссылка должна быть ровно одна: {md}");
    assert!(!md.contains("[["), "вложенной ссылки быть не должно: {md}");
}

#[test]
fn long_url_label_is_shortened() {
    let md = to_markdown("[url]https://steamcommunity.com/sharedfiles/filedetails/?id=788610933&very=long[/url]");
    let label = md.split_once("](").unwrap().0.trim_start_matches('[');
    assert!(label.chars().count() <= MAX_LABEL, "подпись длиной {}: {label}", label.chars().count());
    assert!(label.ends_with('…'));
    assert!(md.contains("id=788610933&very=long"), "{md}");
}

#[test]
fn badge_table_rows_stay_narrow() {
    let md = to_markdown(
        "[table][tr]\
         [td][url=https://discord.gg/h5TY6DA][img]https://img.litet.net/logos/Discord.png[/img][/url][/td]\
         [td][url=https://github.com/emipa606/Bridges][img]https://img.litet.net/logos/GitHub.png[/img][/url][/td]\
         [/tr][/table]",
    );
    let widest = md.lines().map(|l| l.chars().count()).max().unwrap_or(0);
    assert!(widest < 120, "строка таблицы слишком широкая ({widest}): {md}");
    assert!(!md.contains("img.litet.net"), "URL картинки не должен попадать в текст: {md}");
}

#[test]
fn plain_text_passes_through() {
    assert_eq!(to_markdown("обычное описание мода"), "обычное описание мода");
    assert_eq!(to_markdown(""), "");
}

#[test]
fn horizontal_rule() {
    assert_eq!(to_markdown("до[hr]после"), "до\n\n---\n\nпосле");
}

// ── Further cases ───────────────────────────────────────────────────────────

#[test]
fn default_options_keep_images_as_links() {
    assert!(!Options::default().inline_images);
    assert_eq!(Options::default(), Options { inline_images: false });
}

#[test]
fn tag_names_ignore_case() {
    assert_eq!(to_markdown("[B]жирный[/B]"), "**жирный**");
    assert_eq!(to_markdown("<B>x</B>"), "**x**");
    assert_eq!(to_markdown("[URL=HTTPS://example.com]x[/url]"), "[x](HTTPS://example.com)");
}

#[test]
fn unknown_tags_stay_text() {
    assert_eq!(to_markdown("[foo]bar[/foo]"), "[foo]bar[/foo]");
    assert_eq!(to_markdown("<foo>"), "<foo>");
}

#[test]
fn underline_becomes_emphasis() {
    assert_eq!(to_markdown("[u]x[/u]"), "*x*");
    assert_eq!(to_markdown("[s]x[/s]"), "~~x~~");
}

#[test]
fn line_breaks_from_unity_and_list_markers() {
    assert_eq!(to_markdown("a<br>b"), "a  \nb");
    assert_eq!(to_markdown("[*]one"), "- one");
}

#[test]
fn empty_list_items_keep_their_numbers() {
    assert_eq!(to_markdown("[olist][*]раз[*][*]три[/olist]"), "1. раз\n3. три");
}

#[test]
fn quoted_argument_and_image_argument() {
    assert_eq!(to_markdown("[url=\"https://a.b\"]x[/url]"), "[x](https://a.b)");
    assert_eq!(to_markdown("[img=https://a.b/c.png]ignored[/img]"), "[🖼 изображение](https://a.b/c.png)");
}

#[test]
fn multi_line_quote_keeps_each_line_quoted() {
    assert_eq!(to_markdown("[quote]a\nb[/quote]"), "> a\n> b");
}

#[test]
fn block_lines_get_no_hard_break() {
    assert_eq!(to_markdown("- a\nb"), "- a\nb");
    assert_eq!(to_markdown("12. a\nb"), "12. a\nb");
    assert_eq!(to_markdown("x. a\nb"), "x. a  \nb");
}

#[test]
fn short_link_label_is_kept() {
    let md = to_markdown("[url]https://a.b/c[/url]");
    assert_eq!(md, "[https://a.b/c](https://a.b/c)");
}
