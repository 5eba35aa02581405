use rustynotes::commands::Command;
use rustynotes::editor::Editor;
use rustynotes::notefile::ScanEntry;
use rustynotes::stats::{render_size_x, FileMeta, StatsCalculator};

fn entry(name: &str, size: u64, mtime: u64, content: &str) -> ScanEntry {
    ScanEntry {
        name: name.to_string(),
        size,
        mtime,
        content: content.to_string(),
    }
}

#[test]
fn sizes_render_in_bytes_kib_and_mib() {
    assert_eq!(render_size_x(0), "0B");
    assert_eq!(render_size_x(500), "500B");
    assert_eq!(render_size_x(1023), "1023B");
    assert_eq!(render_size_x(1024), "1.0KB");
    assert_eq!(render_size_x(1536), "1.5KB");
    assert_eq!(render_size_x(10240), "10.0KB");
    assert_eq!(render_size_x(1048576), "1.0MB");
    assert_eq!(render_size_x(1572864), "1.5MB");
}

#[test]
fn the_largest_size_still_renders() {
    assert_eq!(render_size_x(u64::MAX), "17592186044416.0MB");
    assert_eq!(render_size_x(1048575), "1024.0KB");
}

#[test]
fn directory_totals_saturate_rather_than_wrap() {
    let entries = vec![
        entry("a.md", u64::MAX, 1, "x"),
        entry("b.md", u64::MAX, 2, "y"),
    ];
    let stats =
        StatsCalculator::calculate_note_stats("", &None, &entries, &Vec::new(), &None);
    assert_eq!(stats.total_size, "17592186044416.0MB");
    assert_eq!(stats.total_notes, 2);
}

#[test]
fn counts_cover_lines_words_and_characters() {
    let stats = StatsCalculator::calculate_note_stats(
        "hello world\nsecond line\n",
        &None,
        &Vec::new(),
        &Vec::new(),
        &None,
    );
    assert_eq!(stats.lines, 2);
    assert_eq!(stats.words, 4);
    assert_eq!(stats.chars, 24);
    assert_eq!(stats.size_bytes, 24);
    assert_eq!(stats.last_modified, "not saved yet");
    assert_eq!(stats.total_notes, 1);
}

#[test]
fn an_empty_unsaved_session_counts_no_note() {
    let stats = StatsCalculator::calculate_note_stats("", &None, &Vec::new(), &Vec::new(), &None);
    assert_eq!(stats.lines, 0);
    assert_eq!(stats.words, 0);
    assert_eq!(stats.total_notes, 0);
}

#[test]
fn the_backing_file_is_counted_once_not_twice() {
    let entries = vec![
        entry("mine.md", 100, 1, "---\ntags: a\n---\nme"),
        entry("other.md", 50, 2, "---\ntags: b\n---\nyou"),
    ];
    let meta = Some(FileMeta {
        size: 100,
        modified_label: "2024-01-01 10:00".to_string(),
    });
    let stats = StatsCalculator::calculate_note_stats(
        "me\n",
        &Some("mine.md".to_string()),
        &entries,
        &vec!["a".to_string()],
        &meta,
    );
    assert_eq!(stats.total_notes, 2);
    assert_eq!(stats.size_bytes, 100);
    assert_eq!(stats.total_size, "150B");
    assert_eq!(stats.last_modified, "2024-01-01 10:00");
    // the backing file's own on-disk tags are skipped; the session's count
    assert_eq!(stats.top_tags, vec![("a".to_string(), 1), ("b".to_string(), 1)]);
}

#[test]
fn top_tags_keep_first_encountered_order_on_ties() {
    let entries = vec![
        entry("one.md", 1, 1, "---\ntags: beta, alpha\n---\nx"),
        entry("two.md", 1, 2, "---\ntags: alpha, beta, gamma\n---\ny"),
    ];
    let stats =
        StatsCalculator::calculate_note_stats("", &None, &entries, &Vec::new(), &None);
    assert_eq!(
        stats.top_tags,
        vec![("beta".to_string(), 2), ("alpha".to_string(), 2)]
    );
}

#[test]
fn stats_are_computed_once_until_a_mutation() {
    let mut ed = Editor::new();
    ed.execute_command(Command::Write("hello world".to_string()));
    let entries = vec![entry("a.md", 10, 5, "---\ntags: x\n---\nbody")];
    assert!(ed.stats_dirty);
    ed.update_stats(&entries, &None);
    assert!(!ed.stats_dirty);
    let first_total = ed.stats_cache.as_ref().unwrap().total_notes;
    assert_eq!(first_total, 2);

    // a second request without any mutation must not rescan: even a very
    // different scan input leaves the cached snapshot untouched
    ed.update_stats(&Vec::new(), &None);
    assert_eq!(ed.stats_cache.as_ref().unwrap().total_notes, first_total);

    // any mutation forces exactly one recomputation on the next request
    ed.execute_command(Command::Write("more".to_string()));
    assert!(ed.stats_dirty);
    assert!(ed.stats_cache.is_none());
    ed.update_stats(&Vec::new(), &None);
    assert!(!ed.stats_dirty);
    assert_eq!(ed.stats_cache.as_ref().unwrap().total_notes, 1);
}

#[test]
fn every_kind_of_mutation_marks_the_cache_stale() {
    let no_entries: Vec<ScanEntry> = Vec::new();
    let mut ed = Editor::new();

    ed.update_stats(&no_entries, &None);
    ed.execute_command(Command::Write("w".to_string()));
    assert!(ed.stats_dirty);

    ed.update_stats(&no_entries, &None);
    ed.execute_command(Command::Tag("t".to_string()));
    assert!(ed.stats_dirty);

    ed.update_stats(&no_entries, &None);
    ed.execute_command(Command::MultiLine);
    ed.execute_command(Command::Write("block".to_string()));
    ed.execute_command(Command::MultiLine);
    assert!(ed.stats_dirty);

    ed.update_stats(&no_entries, &None);
    ed.execute_command(Command::Edit);
    ed.execute_command(Command::EditSave);
    assert!(ed.stats_dirty);

    ed.update_stats(&no_entries, &None);
    ed.execute_command(Command::NewNote(true));
    assert!(ed.stats_dirty);

    ed.update_stats(&no_entries, &None);
    ed.apply_loaded("x.md".to_string(), "body");
    assert!(ed.stats_dirty);
}

#[test]
fn display_lines_render_the_snapshot() {
    let mut ed = Editor::new();
    ed.execute_command(Command::Write("hello world".to_string()));
    ed.execute_command(Command::Tag("x".to_string()));
    let lines = ed.display_stats(&Vec::new(), &None);
    assert_eq!(lines[0], "Current Note: [not saved]");
    assert_eq!(lines[1], "lines: 1");
    assert_eq!(lines[2], "words: 2");
    assert_eq!(lines[3], "characters: 12");
    assert_eq!(lines[4], "size: 12B");
    assert_eq!(lines[5], "all-time notes: 1");
    assert_eq!(lines[6], "last modified: not saved yet");
    assert_eq!(lines[7], "total size: 12B");
    assert_eq!(lines[8], "most used tags: x (1)");
    assert_eq!(lines.len(), 9);
}

#[test]
fn display_omits_the_tag_line_when_no_tag_was_seen() {
    let mut ed = Editor::new();
    ed.execute_command(Command::Write("plain".to_string()));
    let lines = ed.display_stats(&Vec::new(), &None);
    assert_eq!(lines.len(), 8);
}

#[test]
fn invalidate_clears_the_cache_and_marks_it_stale() {
    let mut ed = Editor::new();
    ed.update_stats(&Vec::new(), &None);
    assert!(ed.stats_cache.is_some());
    ed.invalidate_stats_cache();
    assert!(ed.stats_cache.is_none());
    assert!(ed.stats_dirty);
}
