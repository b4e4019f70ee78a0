use dirtable::{
    active_columns, collect_records, column_width, column_widths, fit_columns, frame, layout,
    line_string, make_record, mime_label, pad, render, render_listing, to_title, Cell, Column,
    Config, Entry, Record,
};

fn entry(name: &str, is_dir: bool, size: u64) -> Entry {
    Entry {
        name: name.to_string(),
        path: format!("/tmp/dir/{}", name),
        is_dir,
        size,
    }
}

fn cfg(show_size: bool, show_types: bool) -> Config {
    Config { show_size, show_types }
}

fn sample() -> Vec<Entry> {
    vec![entry("readme.txt", false, 10), entry("src", true, 0)]
}

#[test]
fn title_capitalizes_each_word() {
    assert_eq!(to_title("size"), "Size");
    assert_eq!(to_title("hello world"), "Hello World");
    assert_eq!(to_title("  two   spaces\there "), "Two Spaces Here");
    assert_eq!(to_title(""), "");
    assert_eq!(to_title("   "), "");
    assert_eq!(to_title("Already Up"), "Already Up");
}

#[test]
fn title_uses_unicode_uppercase() {
    assert_eq!(to_title("ßtraße"), "SStraße");
    assert_eq!(to_title("élan vital"), "Élan Vital");
}

#[test]
fn title_is_idempotent() {
    for s in ["name", "a b  c", " mixed Case words ", "x", "", "élan ßtraße"] {
        let once = to_title(s);
        assert_eq!(to_title(&once), once);
    }
}

#[test]
fn columns_follow_flags_in_key_order() {
    assert_eq!(active_columns(&cfg(false, false)), vec![Column::Name]);
    assert_eq!(active_columns(&cfg(true, false)), vec![Column::Name, Column::Size]);
    assert_eq!(active_columns(&cfg(false, true)), vec![Column::Name, Column::Type]);
    assert_eq!(
        active_columns(&cfg(true, true)),
        vec![Column::Name, Column::Size, Column::Type]
    );
    assert_eq!(Column::Type.key(), "type");
}

#[test]
fn mime_label_takes_subtype_then_main_type() {
    assert_eq!(mime_label(Some("text/plain")), "plain");
    assert_eq!(mime_label(Some("image/svg+xml")), "svg+xml");
    assert_eq!(mime_label(Some("text")), "text");
    assert_eq!(mime_label(Some("a/b/c")), "b");
    assert_eq!(mime_label(Some("a/")), "");
    assert_eq!(mime_label(None), "");
}

#[test]
fn records_hold_formatted_values() {
    let recs = collect_records(&sample(), &cfg(true, true));
    assert_eq!(recs.len(), 2);
    assert_eq!(recs[0].name.text, "readme.txt");
    assert!(!recs[0].name.emphasize);
    assert_eq!(recs[0].size.as_ref().unwrap().text, "10 B");
    assert_eq!(recs[0].file_type.as_ref().unwrap().text, "plain");
    assert_eq!(recs[1].name.text, "src");
    assert!(recs[1].name.emphasize);
    assert!(recs[1].size.as_ref().unwrap().emphasize);
    assert_eq!(recs[1].file_type.as_ref().unwrap().text, "/");
    assert!(recs[1].file_type.as_ref().unwrap().emphasize);
}

#[test]
fn records_format_large_sizes() {
    let recs = collect_records(&vec![entry("big.bin", false, 1500)], &cfg(true, false));
    assert_eq!(recs[0].size.as_ref().unwrap().text, "1.50 kB");
    assert!(recs[0].file_type.is_none());
}

#[test]
fn unknown_extension_has_empty_type() {
    let recs = collect_records(&vec![entry("noext", false, 1)], &cfg(false, true));
    assert_eq!(recs[0].file_type.as_ref().unwrap().text, "");
    assert!(recs[0].size.is_none());
}

#[test]
fn make_record_uses_given_values() {
    let e = entry("a.png", false, 5);
    let r = make_record(&e, &cfg(true, true), "5 B".to_string(), Some("image/png"));
    assert_eq!(r.name.text, "a.png");
    assert_eq!(r.size.as_ref().unwrap().text, "5 B");
    assert_eq!(r.file_type.as_ref().unwrap().text, "png");
    let r2 = make_record(&e, &cfg(false, false), "5 B".to_string(), None);
    assert!(r2.size.is_none() && r2.file_type.is_none());
}

#[test]
fn readme_and_src_with_size() {
    let text = render_listing(&sample(), &cfg(true, false), None);
    let expected = format!(
        "| Name       | Size |\n{}\n| readme.txt | 10 B |\n| src        | 0 B  |\n",
        "=".repeat(21)
    );
    assert_eq!(text, expected);
    let recs = collect_records(&sample(), &cfg(true, false));
    assert!(recs[1].name.emphasize && recs[1].size.as_ref().unwrap().emphasize);
    assert!(!recs[0].name.emphasize && !recs[0].size.as_ref().unwrap().emphasize);
}

#[test]
fn empty_directory_gives_header_and_separator() {
    for (s, t) in [(false, false), (true, false), (false, true), (true, true)] {
        let text = render_listing(&vec![], &cfg(s, t), None);
        let lines: Vec<&str> = text.lines().collect();
        assert_eq!(lines.len(), 2);
        assert!(lines[1].chars().all(|c| c == '='));
        assert_eq!(lines[1].len(), lines[0].len());
    }
    assert_eq!(
        render_listing(&vec![], &cfg(true, true), None),
        format!("| Name | Size | Type |\n{}\n", "=".repeat(22))
    );
}

#[test]
fn rows_count_and_cells_match_header() {
    let entries = vec![
        entry("a.txt", false, 1),
        entry("bb", true, 2),
        entry("ccc.png", false, 3_000_000),
    ];
    let text = render_listing(&entries, &cfg(true, true), None);
    let lines: Vec<&str> = text.lines().collect();
    assert_eq!(lines.len(), entries.len() + 2);
    let bars = lines[0].matches('|').count();
    assert_eq!(bars, 4);
    for l in lines.iter().skip(2) {
        assert_eq!(l.matches('|').count(), bars);
        assert_eq!(l.len(), lines[0].len());
    }
    assert_eq!(lines[1].len(), lines[0].len());
}

#[test]
fn values_fit_their_column_width() {
    let recs = collect_records(&sample(), &cfg(true, true));
    let cols = active_columns(&cfg(true, true));
    let ws = column_widths(&recs, &cols);
    assert_eq!(ws, vec![10, 4, 5]);
    for r in &recs {
        assert!(r.name.text.chars().count() <= ws[0]);
        assert!(r.size.as_ref().unwrap().text.chars().count() <= ws[1]);
        assert!(r.file_type.as_ref().unwrap().text.chars().count() <= ws[2]);
    }
    assert_eq!(column_width(&recs, Column::Type), 5);
    assert_eq!(column_width(&vec![], Column::Name), 4);
}

#[test]
fn column_order_ignores_entry_order() {
    let mut entries = sample();
    entries.push(entry("zeta.rs", false, 123));
    let a = render_listing(&entries, &cfg(true, true), None);
    entries.reverse();
    let b = render_listing(&entries, &cfg(true, true), None);
    let la: Vec<&str> = a.lines().collect();
    let lb: Vec<&str> = b.lines().collect();
    assert_eq!(la[0], lb[0]);
    assert_eq!(la[1], lb[1]);
    assert!(la[0].starts_with("| Name"));
    assert!(la[0].find("Size").unwrap() < la[0].find("Type").unwrap());
}

#[test]
fn pad_fills_with_spaces() {
    assert_eq!(pad("ab", 5), "ab   ");
    assert_eq!(pad("abc", 3), "abc");
    assert_eq!(pad("", 2), "  ");
}

#[test]
fn frame_adds_borders() {
    let cells = vec![
        Cell { text: "x ".to_string(), emphasize: true },
        Cell { text: "y".to_string(), emphasize: false },
    ];
    let pieces = frame(&cells);
    let texts: Vec<&str> = pieces.iter().map(|p| p.text.as_str()).collect();
    assert_eq!(texts, vec!["| ", "x ", " ", "| ", "y", " ", "|"]);
    assert!(pieces[1].emphasize);
    assert!(!pieces[0].emphasize);
    assert_eq!(line_string(&cells), "| x  | y |\n");
}

#[test]
fn layout_and_text_agree() {
    let recs = collect_records(&sample(), &cfg(false, true));
    let cols = active_columns(&cfg(false, true));
    let t = layout(&recs, &cols);
    assert_eq!(t.rows.len(), 2);
    assert_eq!(t.header[1].text, "Type ");
    assert_eq!(t.rows[0][1].text, "plain");
    assert_eq!(t.rows[1][1].text, "/    ");
    assert_eq!(t.rule, "=".repeat(22));
    assert_eq!(t.to_text(), render(&recs, &cols));
    assert_eq!(
        t.to_text(),
        format!("| Name       | Type  |\n{}\n| readme.txt | plain |\n| src        | /     |\n", "=".repeat(22))
    );
}

#[test]
fn narrow_terminal_drops_type_then_size() {
    let recs: Vec<Record> = collect_records(&sample(), &cfg(true, true));
    let cols = active_columns(&cfg(true, true));
    // full width 1 + 13 + 7 + 8 = 29
    assert_eq!(fit_columns(&recs, &cols, None).len(), 3);
    assert_eq!(fit_columns(&recs, &cols, Some(29)).len(), 3);
    assert_eq!(fit_columns(&recs, &cols, Some(28)), vec![Column::Name, Column::Size]);
    assert_eq!(fit_columns(&recs, &cols, Some(21)), vec![Column::Name, Column::Size]);
    assert_eq!(fit_columns(&recs, &cols, Some(20)), vec![Column::Name]);
    assert_eq!(fit_columns(&recs, &cols, Some(0)), vec![Column::Name]);
    let text = render_listing(&sample(), &cfg(true, true), Some(20));
    assert_eq!(
        text,
        format!("| Name       |\n{}\n| readme.txt |\n| src        |\n", "=".repeat(14))
    );
}

#[test]
fn whitespace_test_matches_std_on_every_char() {
    for u in 0u32..=0x10FFFF {
        if let Some(c) = char::from_u32(u) {
            assert_eq!(dirtable::title::is_whitespace(c), c.is_whitespace(), "{:?}", c);
        }
    }
}
