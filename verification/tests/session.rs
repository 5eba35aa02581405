use rustynotes::commands::Command;
use rustynotes::editor::{Editor, Effect, Mode};

fn write(ed: &mut Editor, text: &str) -> Effect {
    ed.execute_command(Command::Write(text.to_string()))
}

#[test]
fn a_fresh_session_is_empty_and_clean() {
    let ed = Editor::new();
    assert_eq!(ed.content, "");
    assert!(!ed.modified);
    assert!(matches!(ed.mode, Mode::Normal));
    assert!(ed.current_file.is_none());
    assert!(ed.current_tags.is_empty());
    assert!(ed.stats_cache.is_none());
    assert!(ed.stats_dirty);
}

#[test]
fn writing_appends_a_newline_terminated_line() {
    let mut ed = Editor::new();
    assert!(matches!(write(&mut ed, "hello"), Effect::Appended));
    assert_eq!(ed.content, "hello\n");
    assert!(ed.modified);
    assert!(ed.stats_dirty);
}

#[test]
fn an_empty_write_changes_nothing() {
    let mut ed = Editor::new();
    assert!(matches!(write(&mut ed, ""), Effect::Ignored));
    assert_eq!(ed.content, "");
    assert!(!ed.modified);
}

#[test]
fn multi_line_round_trip_appends_the_block() {
    let mut ed = Editor::new();
    assert!(matches!(ed.execute_command(Command::MultiLine), Effect::EnteredMultiLine));
    assert!(matches!(ed.mode, Mode::MultiLine(_)));
    assert!(matches!(write(&mut ed, "a"), Effect::BlockLine));
    assert!(matches!(write(&mut ed, "b"), Effect::BlockLine));
    assert_eq!(ed.content, "");
    assert!(!ed.modified);
    assert!(matches!(
        ed.execute_command(Command::MultiLine),
        Effect::CommittedMultiLine(2)
    ));
    assert!(matches!(ed.mode, Mode::Normal));
    assert!(ed.content.ends_with("a\nb\n"));
    assert_eq!(ed.content, "a\nb\n");
    assert!(ed.modified);
}

#[test]
fn line_edit_replaces_one_line_and_commits() {
    let mut ed = Editor::new();
    write(&mut ed, "x");
    write(&mut ed, "y");
    write(&mut ed, "z");
    ed.execute_command(Command::Edit);
    assert!(matches!(&ed.mode, Mode::LineEdit(buf) if buf == &vec!["x", "y", "z"]));
    assert!(matches!(
        ed.execute_command(Command::EditLine(2)),
        Effect::EditPrompt(2, seed) if seed == "y"
    ));
    assert!(ed.edit_line(2, "Y".to_string()));
    assert!(matches!(ed.execute_command(Command::EditSave), Effect::EditSaved));
    assert_eq!(ed.content, "x\nY\nz");
    assert!(matches!(ed.mode, Mode::Normal));
}

#[test]
fn an_out_of_range_line_edit_is_a_reported_no_op() {
    let mut ed = Editor::new();
    write(&mut ed, "x");
    write(&mut ed, "y");
    write(&mut ed, "z");
    ed.execute_command(Command::Edit);
    assert!(matches!(ed.execute_command(Command::EditLine(5)), Effect::InvalidLine));
    assert!(!ed.edit_line(5, "Q".to_string()));
    assert!(!ed.edit_line(0, "Q".to_string()));
    assert!(matches!(&ed.mode, Mode::LineEdit(buf) if buf == &vec!["x", "y", "z"]));
    ed.execute_command(Command::EditSave);
    assert_eq!(ed.content, "x\ny\nz");
}

#[test]
fn cancelling_edits_leaves_the_body_untouched() {
    let mut ed = Editor::new();
    write(&mut ed, "keep me");
    ed.execute_command(Command::Edit);
    assert!(ed.edit_line(1, "lose me".to_string()));
    assert!(matches!(ed.execute_command(Command::EditCancel), Effect::EditCancelled));
    assert_eq!(ed.content, "keep me\n");
    assert!(matches!(ed.mode, Mode::Normal));
}

#[test]
fn edit_commands_outside_edit_mode_say_so() {
    let mut ed = Editor::new();
    assert!(matches!(ed.execute_command(Command::EditLine(1)), Effect::NotInEditMode));
    assert!(matches!(ed.execute_command(Command::EditSave), Effect::Ignored));
    assert!(matches!(ed.execute_command(Command::EditCancel), Effect::Ignored));
}

#[test]
fn multi_line_capture_cannot_begin_during_a_line_edit() {
    let mut ed = Editor::new();
    write(&mut ed, "x");
    ed.execute_command(Command::Edit);
    assert!(matches!(ed.execute_command(Command::MultiLine), Effect::EditInProgress));
    assert!(matches!(ed.mode, Mode::LineEdit(_)));
}

#[test]
fn tags_are_stored_lowercased() {
    let mut ed = Editor::new();
    assert!(matches!(
        ed.execute_command(Command::Tag("Work".to_string())),
        Effect::TagAdded(t) if t == "work"
    ));
    assert_eq!(ed.current_tags, vec!["work"]);
    assert!(ed.modified);
}

#[test]
fn a_duplicate_tag_leaves_tags_and_modified_unchanged() {
    let mut ed = Editor::new();
    ed.current_tags = vec!["work".to_string()];
    ed.modified = false;
    assert!(matches!(
        ed.execute_command(Command::Tag("WORK".to_string())),
        Effect::TagExists(t) if t == "work"
    ));
    assert_eq!(ed.current_tags, vec!["work"]);
    assert!(!ed.modified);
}

#[test]
fn new_note_is_refused_on_unsaved_changes_unless_forced() {
    let mut ed = Editor::new();
    write(&mut ed, "precious");
    ed.execute_command(Command::Tag("keep".to_string()));
    assert!(matches!(
        ed.execute_command(Command::NewNote(false)),
        Effect::NewNoteRefused
    ));
    assert_eq!(ed.content, "precious\n");
    assert_eq!(ed.current_tags, vec!["keep"]);
    assert!(matches!(
        ed.execute_command(Command::NewNote(true)),
        Effect::NewNoteStarted
    ));
    assert_eq!(ed.content, "");
    assert!(ed.current_tags.is_empty());
    assert!(ed.current_file.is_none());
    assert!(!ed.modified);
}

#[test]
fn new_note_on_a_clean_session_clears_without_force() {
    let mut ed = Editor::new();
    ed.current_file = Some("old.md".to_string());
    assert!(matches!(
        ed.execute_command(Command::NewNote(false)),
        Effect::NewNoteStarted
    ));
    assert!(ed.current_file.is_none());
}

#[test]
fn explicit_save_writes_formatted_body_behind_frontmatter() {
    let mut ed = Editor::new();
    write(&mut ed, "hi");
    ed.execute_command(Command::Tag("t".to_string()));
    match ed.execute_command(Command::Save(Some("my_note".to_string()))) {
        Effect::WriteFile(name, data) => {
            assert_eq!(name, "my_note.md");
            assert_eq!(data, "---\ntags: t\n---\nhi\n");
        }
        _ => panic!("expected a file write"),
    }
    assert!(ed.modified);
    ed.confirm_saved("my_note.md".to_string());
    assert!(!ed.modified);
    assert_eq!(ed.current_file.as_deref(), Some("my_note.md"));
    assert!(ed.stats_dirty);
}

#[test]
fn plain_save_without_changes_has_nothing_to_do() {
    let mut ed = Editor::new();
    assert!(matches!(
        ed.execute_command(Command::Save(None)),
        Effect::NothingToSave
    ));
}

#[test]
fn plain_save_of_a_fresh_note_invents_a_timestamped_name() {
    let mut ed = Editor::new();
    write(&mut ed, "body");
    match ed.execute_command(Command::Save(None)) {
        Effect::WriteFile(name, data) => {
            assert!(name.starts_with("note_"));
            assert!(name.ends_with(".md"));
            assert_eq!(data, "body\n");
        }
        _ => panic!("expected a file write"),
    }
}

#[test]
fn plain_save_of_a_backed_note_reuses_its_file() {
    let mut ed = Editor::new();
    write(&mut ed, "body");
    ed.confirm_saved("kept.md".to_string());
    write(&mut ed, "more");
    match ed.execute_command(Command::Save(None)) {
        Effect::WriteFile(name, data) => {
            assert_eq!(name, "kept.md");
            assert_eq!(data, "body\nmore\n");
        }
        _ => panic!("expected a file write"),
    }
}

#[test]
fn load_is_refused_while_changes_are_unsaved() {
    let mut ed = Editor::new();
    write(&mut ed, "unsaved");
    assert!(matches!(
        ed.execute_command(Command::Load("other".to_string())),
        Effect::LoadRefused
    ));
    assert_eq!(ed.content, "unsaved\n");
}

#[test]
fn load_resolves_the_name_and_applies_the_decoded_file() {
    let mut ed = Editor::new();
    match ed.execute_command(Command::Load("ideas".to_string())) {
        Effect::ReadFile(name) => assert_eq!(name, "ideas.md"),
        _ => panic!("expected a file read"),
    }
    ed.apply_loaded("ideas.md".to_string(), "---\ntags: a, b\n---\nBody");
    assert_eq!(ed.content, "Body");
    assert_eq!(ed.current_tags, vec!["a", "b"]);
    assert_eq!(ed.current_file.as_deref(), Some("ideas.md"));
    assert!(!ed.modified);
    assert!(ed.stats_dirty);
}

#[test]
fn search_reports_one_based_matching_lines() {
    let mut ed = Editor::new();
    write(&mut ed, "alpha");
    write(&mut ed, "beta");
    write(&mut ed, "alphabet");
    match ed.execute_command(Command::Search("alpha".to_string())) {
        Effect::SearchResults(hits) => {
            assert_eq!(hits.len(), 2);
            assert_eq!(hits[0], (1, "alpha".to_string()));
            assert_eq!(hits[1], (3, "alphabet".to_string()));
        }
        _ => panic!("expected search results"),
    }
}

#[test]
fn search_without_matches_is_empty() {
    let mut ed = Editor::new();
    write(&mut ed, "nothing here");
    match ed.execute_command(Command::Search("absent".to_string())) {
        Effect::SearchResults(hits) => assert!(hits.is_empty()),
        _ => panic!("expected search results"),
    }
}

#[test]
fn quit_on_a_clean_session_just_quits() {
    let mut ed = Editor::new();
    assert!(matches!(ed.execute_command(Command::Quit), Effect::Quit));
}

#[test]
fn quit_with_changes_saves_first() {
    let mut ed = Editor::new();
    write(&mut ed, "save me");
    ed.confirm_saved("mine.md".to_string());
    write(&mut ed, "again");
    match ed.execute_command(Command::Quit) {
        Effect::QuitSaving(name, data) => {
            assert_eq!(name, "mine.md");
            assert_eq!(data, "save me\nagain\n");
        }
        _ => panic!("expected a saving quit"),
    }
}

#[test]
fn invalid_commands_echo_their_text() {
    let mut ed = Editor::new();
    assert!(matches!(
        ed.execute_command(Command::Invalid(":wat".to_string())),
        Effect::Rejected(t) if t == ":wat"
    ));
}

#[test]
fn display_commands_leave_the_state_alone() {
    let mut ed = Editor::new();
    write(&mut ed, "text");
    let before = ed.content.clone();
    assert!(matches!(ed.execute_command(Command::List), Effect::ShowNote));
    assert!(matches!(ed.execute_command(Command::Help), Effect::ShowHelp));
    assert!(matches!(ed.execute_command(Command::Stats), Effect::NeedStats));
    assert!(matches!(ed.execute_command(Command::ListTags), Effect::ListTagsQuery));
    assert!(matches!(ed.execute_command(Command::ListFiles), Effect::ListFilesQuery));
    assert!(matches!(
        ed.execute_command(Command::ListByTag("x".to_string())),
        Effect::TaggedQuery(t) if t == "x"
    ));
    assert_eq!(ed.content, before);
}
