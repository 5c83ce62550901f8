use nisabo::export::{
    export_file_name, export_note, format_note_as_md, format_time, sanitize, TIME_PATTERN,
};
use nisabo::font::FontManager;
use nisabo::models::Note;
use nisabo::archive::{JournalMode, Pragmas, Synchronous, TempStore};
use nisabo::schema::{pragma_statements, SCHEMA};
use nisabo::search::{contains, fold};
use nisabo::session::{display_name, io_labels, should_autosave, should_save, IoOperation, SidebarTab};
use nisabo::text::{chars_of, join, lines, push_decimal, same_text, string_of};
use nisabo::utils::result;

fn strings(v: &[&str]) -> Vec<String> {
    v.iter().map(|s| s.to_string()).collect()
}

#[test]
fn lines_are_split_as_std_splits_them() {
    for s in ["", "\n", "a", "a\n", "a\nb", "a\r\nb\r\n", "a\rb", "a\r", "\n\n", "x\n\ny", "\r\n"] {
        let expected: Vec<String> = s.lines().map(|l| l.to_string()).collect();
        assert_eq!(lines(s), expected);
    }
}

#[test]
fn join_puts_a_line_feed_between_lines() {
    assert_eq!(join(&strings(&[])), "");
    assert_eq!(join(&strings(&["a"])), "a");
    assert_eq!(join(&strings(&["a", "", "b"])), "a\n\nb");
}

#[test]
fn chars_and_strings_round_trip() {
    let v = chars_of("héllo");
    assert_eq!(v, vec!['h', 'é', 'l', 'l', 'o']);
    assert_eq!(string_of(&v), "héllo");
}

#[test]
fn decimal_digits() {
    let mut out = vec!['#'];
    push_decimal(&mut out, 0);
    push_decimal(&mut out, 7);
    push_decimal(&mut out, 1230);
    push_decimal(&mut out, u64::MAX);
    assert_eq!(string_of(&out), "#07123018446744073709551615");
}

#[test]
fn same_text_compares_by_characters() {
    assert!(same_text("abc", "abc"));
    assert!(!same_text("abc", "abd"));
    assert!(!same_text("abc", "ab"));
    assert!(same_text("", ""));
}

#[test]
fn fold_lowers_ascii_capitals_only() {
    assert_eq!(string_of(&fold("Hello, WORLD! Ärger 42")), "hello, world! Ärger 42");
}

#[test]
fn contains_finds_a_text_anywhere() {
    let hay = chars_of("hello world");
    assert!(contains(&hay, &chars_of("")));
    assert!(contains(&hay, &chars_of("hello")));
    assert!(contains(&hay, &chars_of("o w")));
    assert!(contains(&hay, &chars_of("world")));
    assert!(contains(&hay, &chars_of("hello world")));
    assert!(!contains(&hay, &chars_of("worlds")));
    assert!(!contains(&hay, &chars_of("hello world!")));
    assert!(contains(&chars_of(""), &chars_of("")));
}

#[test]
fn sanitize_makes_a_file_name() {
    assert_eq!(sanitize("my note/draft 2"), "my_note_draft_2");
    assert_eq!(sanitize("café ☕ menu"), "caf__menu");
    assert_eq!(sanitize(""), "");
    let long = "x".repeat(150);
    assert_eq!(sanitize(&long), "x".repeat(100));
    let exact = "y".repeat(100);
    assert_eq!(sanitize(&exact), exact);
    let mixed = format!("{}é{}", "a".repeat(99), "b".repeat(5));
    assert_eq!(sanitize(&mixed), format!("{}b", "a".repeat(99)));
}

#[test]
fn times_print_in_utc() {
    assert_eq!(format_time(0), "1970-01-01 00:00:00");
    assert_eq!(format_time(1431648000), "2015-05-15 00:00:00");
    assert_eq!(format_time(1700000000), "2023-11-14 22:13:20");
    assert_eq!(format_time(-1), "1969-12-31 23:59:59");
    assert_eq!(format_time(i64::MAX), "NA");
    assert_eq!(TIME_PATTERN, "%Y-%m-%d %H:%M:%S");
}

fn sample() -> Note {
    Note {
        id: 4,
        name: "Plan".to_string(),
        content: Some("# Plan\n\nDo *it*.".to_string()),
        created_at: 0,
        updated_at: 1431648000,
        deleted_at: None,
    }
}

#[test]
fn note_as_markdown() {
    assert_eq!(
        format_note_as_md(&sample()),
        "---\ntitle: \"Plan\"\n\ndate: 1970-01-01 00:00:00\n\nupdated: 2015-05-15 00:00:00\n\n\
         deleted: NA\n\ndraft: false\n\n---\n\n# Plan\n\nDo *it*.\n"
    );
    let gone = Note { content: None, deleted_at: Some(1431648000), ..sample() };
    assert_eq!(
        format_note_as_md(&gone),
        "---\ntitle: \"Plan\"\n\ndate: 1970-01-01 00:00:00\n\nupdated: 2015-05-15 00:00:00\n\n\
         deleted: 2015-05-15 00:00:00\n\ndraft: false\n\n---\n\n\n"
    );
}

#[test]
fn note_as_html() {
    let note = Note { name: "T".to_string(), content: Some("Do *it*.".to_string()), ..sample() };
    let html = export_note(&note, "html");
    assert!(html.contains("<p>Do <em>it</em>.</p>"));
    assert!(html.starts_with("<hr />"));
    assert_ne!(html, format_note_as_md(&note));
    assert_eq!(export_note(&note, "md"), format_note_as_md(&note));
    assert_eq!(export_note(&note, "HTML"), format_note_as_md(&note));
}

#[test]
fn export_file_names() {
    assert_eq!(export_file_name("my note", 0, "md"), "my_note_0.md");
    assert_eq!(export_file_name("a/b", 12, "html"), "a_b_12.html");
}

#[test]
fn font_manager_starts_with_two_fonts() {
    let fm = FontManager::new(vec![1, 2, 3]);
    assert_eq!(fm.current_font, "Default");
    assert_eq!(fm.list_fonts(), &strings(&["Default", "DejaVuSans"]));
    assert_eq!(fm.get_font("DejaVuSans"), Some(&vec![1, 2, 3]));
    assert_eq!(fm.get_font("Default"), None);
}

#[test]
fn font_manager_adds_each_found_font_once() {
    let mut fm = FontManager::new(Vec::new());
    fm.load_available_fonts(&strings(&["Fira", "DejaVuSans", "Fira", "Noto"]));
    assert_eq!(fm.list_fonts(), &strings(&["Default", "DejaVuSans", "Fira", "Noto"]));
    fm.load_available_fonts(&strings(&["Noto"]));
    assert_eq!(fm.list_fonts().len(), 4);
}

#[test]
fn font_manager_keeps_files_that_were_read() {
    let mut fm = FontManager::new(vec![9]);
    assert_eq!(fm.get_font("Fira"), None);
    fm.keep_font("Fira", vec![4, 5]);
    assert_eq!(fm.get_font("Fira"), Some(&vec![4, 5]));
    assert_eq!(fm.list_fonts(), &strings(&["Default", "DejaVuSans", "Fira"]));
    fm.keep_font("Fira", vec![6]);
    assert_eq!(fm.get_font("Fira"), Some(&vec![4, 5]));
    assert_eq!(fm.list_fonts().len(), 3);
    assert_eq!(fm.get_font("DejaVuSans"), Some(&vec![9]));
}

#[test]
fn status_text_of_an_outcome() {
    let ok: Result<(), String> = Ok(());
    assert_eq!(result(ok, "Error deleting note"), "");
    let failed: Result<(), String> = Err("disk full".to_string());
    assert_eq!(result(failed, "Error deleting note"), "Error deleting note: disk full");
    let numbered: Result<(), i32> = Err(7);
    assert_eq!(result(numbered, "code"), "code: 7");
}

#[test]
fn labels_of_bulk_operations() {
    assert_eq!(
        io_labels(Some(IoOperation::Import)),
        ("Importing notes..", "Import in progress. Please wait..", "Import failed")
    );
    assert_eq!(
        io_labels(Some(IoOperation::Export)),
        ("Exporting notes..", "Export in progress. Please wait..", "Export failed")
    );
    assert_eq!(io_labels(None), ("", "", ""));
    assert_eq!(SidebarTab::default(), SidebarTab::Notes);
}

#[test]
fn saving_decisions() {
    assert!(should_save("a", "b"));
    assert!(!should_save("a", "a"));
    assert!(should_autosave(Some(1), None, "a", "b"));
    assert!(should_autosave(Some(1), Some(true), "a", "b"));
    assert!(!should_autosave(Some(1), Some(false), "a", "b"));
    assert!(!should_autosave(None, Some(true), "a", "b"));
    assert!(!should_autosave(Some(1), Some(true), "a", "a"));
    assert_eq!(display_name("n", true, "a", "b"), "* n");
    assert_eq!(display_name("n", false, "a", "b"), "n");
    assert_eq!(display_name("n", true, "a", "a"), "n");
}

#[test]
fn pragma_statements_of_the_settings() {
    let p = Pragmas {
        journal_mode: JournalMode::Wal,
        synchronous: Synchronous::Normal,
        cache_size: 10000,
        temp_store: TempStore::Memory,
        case_sensitive_like: false,
        foreign_keys: true,
    };
    assert_eq!(
        pragma_statements(p),
        "PRAGMA journal_mode = WAL;\nPRAGMA synchronous = NORMAL;\nPRAGMA cache_size = 10000;\n\
         PRAGMA temp_store = MEMORY;\nPRAGMA case_sensitive_like = OFF;\n\
         PRAGMA foreign_keys = ON;\n"
    );
    let q = Pragmas {
        journal_mode: JournalMode::Delete,
        synchronous: Synchronous::Full,
        cache_size: i64::MIN,
        temp_store: TempStore::Default,
        case_sensitive_like: true,
        foreign_keys: false,
    };
    assert_eq!(
        pragma_statements(q),
        "PRAGMA journal_mode = DELETE;\nPRAGMA synchronous = FULL;\n\
         PRAGMA cache_size = -9223372036854775808;\nPRAGMA temp_store = DEFAULT;\n\
         PRAGMA case_sensitive_like = ON;\nPRAGMA foreign_keys = OFF;\n"
    );
}

#[test]
fn schema_names_the_three_tables_and_the_index() {
    let parts =
        ["note (", "note_link (", "note_diff (", "note_fts USING fts5", "note_ai", "note_au", "note_ad"];
    for name in parts {
        assert!(SCHEMA.contains(name));
    }
}
