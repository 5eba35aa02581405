use rustynotes::notefile::{FileOperations, ScanEntry};

fn entry(name: &str, size: u64, mtime: u64, content: &str) -> ScanEntry {
    ScanEntry {
        name: name.to_string(),
        size,
        mtime,
        content: content.to_string(),
    }
}

#[test]
fn encode_then_decode_round_trips_body_and_tags() {
    let tags = vec!["work".to_string(), "rust".to_string()];
    let body = "hello\nworld\n";
    let raw = FileOperations::encode_note(body, &tags);
    let (decoded_body, decoded_tags) = FileOperations::decode_note(&raw);
    assert_eq!(decoded_body, body);
    assert_eq!(decoded_tags, tags);
}

#[test]
fn encode_with_one_tag_round_trips() {
    let tags = vec!["solo".to_string()];
    let raw = FileOperations::encode_note("x", &tags);
    assert_eq!(raw, "---\ntags: solo\n---\nx");
    let (body, decoded) = FileOperations::decode_note(&raw);
    assert_eq!(body, "x");
    assert_eq!(decoded, tags);
}

#[test]
fn empty_tag_set_writes_no_frontmatter_at_all() {
    let raw = FileOperations::encode_note("just a body\n", &Vec::new());
    assert_eq!(raw, "just a body\n");
    assert!(!raw.starts_with("---"));
}

#[test]
fn file_without_frontmatter_loads_tagless() {
    let (body, tags) = FileOperations::decode_note("plain text\nmore\n");
    assert_eq!(body, "plain text\nmore\n");
    assert!(tags.is_empty());
}

#[test]
fn frontmatter_without_tag_line_is_left_in_the_body() {
    let raw = "---\ntitle: nope\n---\nbody";
    let (body, tags) = FileOperations::decode_note(raw);
    assert_eq!(body, raw);
    assert!(tags.is_empty());
}

#[test]
fn immediately_closed_marker_is_not_frontmatter() {
    let raw = "---\n---\nrest";
    let (body, tags) = FileOperations::decode_note(raw);
    assert_eq!(body, raw);
    assert!(tags.is_empty());
}

#[test]
fn unterminated_frontmatter_is_body() {
    let raw = "---\ntags: a, b\nno end marker";
    let (body, tags) = FileOperations::decode_note(raw);
    assert_eq!(body, raw);
    assert!(tags.is_empty());
}

#[test]
fn decode_parses_the_comma_space_separated_tag_line() {
    let raw = "---\ntags: alpha, beta, gamma\n---\nB";
    let (body, tags) = FileOperations::decode_note(raw);
    assert_eq!(body, "B");
    assert_eq!(tags, vec!["alpha", "beta", "gamma"]);
}

#[test]
fn format_renders_headings_lists_requests_and_blanks() {
    let content = "****Section\ncontent\n- item\nGET /x\n\nplain\n";
    let formatted = FileOperations::format_content(content);
    assert_eq!(
        formatted,
        "\n****Section\n===========\ncontent\n  - item\n  > GET /x\n\nplain\n"
    );
}

#[test]
fn format_separates_consecutive_sections_with_a_blank_line() {
    let formatted = FileOperations::format_content("****A\n****B");
    assert_eq!(formatted, "\n****A\n=====\n\n\n****B\n=====\n");
}

#[test]
fn format_quotes_http_and_post_lines() {
    let formatted = FileOperations::format_content("HTTP/1.1 200 OK\nPOST /submit");
    assert_eq!(formatted, "  > HTTP/1.1 200 OK\n  > POST /submit\n");
}

#[test]
fn format_of_empty_content_is_empty() {
    assert_eq!(FileOperations::format_content(""), "");
}

#[test]
fn load_name_gains_the_extension_only_when_missing() {
    assert_eq!(FileOperations::resolve_load_name("ideas"), "ideas.md");
    assert_eq!(FileOperations::resolve_load_name("ideas.md"), "ideas.md");
}

#[test]
fn explicit_save_name_always_gains_the_extension() {
    assert_eq!(FileOperations::resolve_explicit_name("my_note"), "my_note.md");
}

#[test]
fn auto_file_name_is_timestamped() {
    let name = FileOperations::auto_file_name();
    assert!(name.starts_with("note_"));
    assert!(name.ends_with(".md"));
    assert!(name.len() >= "note_".len() + 15 + ".md".len());
}

#[test]
fn find_notes_by_tag_matches_without_case() {
    let entries = vec![
        entry("a.md", 1, 1, "---\ntags: Work, fun\n---\nA"),
        entry("b.md", 1, 2, "---\ntags: play\n---\nB"),
        entry("c.txt", 1, 3, "---\ntags: work\n---\nC"),
        entry("d.md", 1, 4, "no tags here"),
    ];
    let found = FileOperations::find_notes_by_tag(&entries, "WORK");
    assert_eq!(found, vec!["a.md"]);
}

#[test]
fn get_all_tags_counts_session_tags_and_every_note_file() {
    let entries = vec![
        entry("a.md", 1, 1, "---\ntags: a, b\n---\nA"),
        entry("skip.txt", 1, 2, "---\ntags: a\n---\nX"),
        entry("b.md", 1, 3, "---\ntags: b\n---\nB"),
    ];
    let current = vec!["a".to_string()];
    let counts = FileOperations::get_all_tags(&entries, &current);
    assert_eq!(counts.len(), 2);
    assert_eq!(counts[0].0, "a");
    assert_eq!(counts[0].1, 2);
    assert_eq!(counts[1].0, "b");
    assert_eq!(counts[1].1, 2);
}

#[test]
fn list_saved_notes_sorts_newest_first_and_skips_other_files() {
    let entries = vec![
        entry("old.md", 1, 100, "body"),
        entry("ignored.txt", 1, 999, "body"),
        entry("new.md", 1, 300, "---\ntags: t\n---\nbody"),
        entry("mid.md", 1, 200, "body"),
    ];
    let listed = FileOperations::list_saved_notes(&entries);
    let names: Vec<&str> = listed.iter().map(|l| l.name.as_str()).collect();
    assert_eq!(names, vec!["new.md", "mid.md", "old.md"]);
    assert_eq!(listed[0].tags, vec!["t"]);
    assert_eq!(listed[0].mtime, 300);
}
