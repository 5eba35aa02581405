use rustynotes::commands::{Command, CommandParser};

#[test]
fn tag_without_name_is_invalid() {
    assert!(matches!(
        CommandParser::parse(":tag", false, false),
        Command::Invalid(r) if r == "tag name required"
    ));
}

#[test]
fn tag_with_name_keeps_its_case() {
    assert!(matches!(
        CommandParser::parse(":tag Work", false, false),
        Command::Tag(t) if t == "Work"
    ));
}

#[test]
fn save_in_edit_mode_is_edit_commit() {
    assert!(matches!(CommandParser::parse(":save", false, true), Command::EditSave));
}

#[test]
fn cancel_in_edit_mode_is_edit_discard() {
    assert!(matches!(CommandParser::parse(":cancel", false, true), Command::EditCancel));
}

#[test]
fn save_outside_edit_mode_is_generic_save_without_name() {
    assert!(matches!(CommandParser::parse(":save", false, false), Command::Save(None)));
}

#[test]
fn save_with_words_joins_them_with_underscores() {
    assert!(matches!(
        CommandParser::parse(":save my great note", false, false),
        Command::Save(Some(n)) if n == "my_great_note"
    ));
}

#[test]
fn cancel_outside_edit_mode_is_invalid() {
    assert!(matches!(
        CommandParser::parse(":cancel", false, false),
        Command::Invalid(r) if r == ":cancel"
    ));
}

#[test]
fn search_joins_terms_with_single_spaces() {
    assert!(matches!(
        CommandParser::parse(":search foo   bar", false, false),
        Command::Search(t) if t == "foo bar"
    ));
}

#[test]
fn search_without_terms_is_invalid() {
    assert!(matches!(
        CommandParser::parse(":search", false, false),
        Command::Invalid(r) if r == "search term required"
    ));
}

#[test]
fn line_with_number_selects_that_line() {
    assert!(matches!(CommandParser::parse(":line 5", false, true), Command::EditLine(5)));
}

#[test]
fn line_with_garbage_is_invalid() {
    assert!(matches!(
        CommandParser::parse(":line five", false, true),
        Command::Invalid(r) if r == "invalid line number"
    ));
}

#[test]
fn line_with_overflowing_number_is_invalid() {
    assert!(matches!(
        CommandParser::parse(":line 99999999999999999999999999", false, true),
        Command::Invalid(r) if r == "invalid line number"
    ));
}

#[test]
fn line_without_number_is_invalid() {
    assert!(matches!(
        CommandParser::parse(":line", false, true),
        Command::Invalid(r) if r == "line number required.."
    ));
}

#[test]
fn plain_text_is_a_write_after_trimming() {
    assert!(matches!(
        CommandParser::parse("  hello there  ", false, false),
        Command::Write(t) if t == "hello there"
    ));
}

#[test]
fn unknown_command_is_invalid_with_its_own_text() {
    assert!(matches!(
        CommandParser::parse(":frobnicate now", false, false),
        Command::Invalid(r) if r == ":frobnicate now"
    ));
}

#[test]
fn multi_line_mode_captures_everything_but_its_toggle() {
    assert!(matches!(CommandParser::parse(":ml", true, false), Command::MultiLine));
    assert!(matches!(
        CommandParser::parse(":save", true, false),
        Command::Write(t) if t == ":save"
    ));
    assert!(matches!(
        CommandParser::parse(":tag x", true, false),
        Command::Write(t) if t == ":tag x"
    ));
}

#[test]
fn aliases_resolve_to_their_commands() {
    assert!(matches!(CommandParser::parse(":h", false, false), Command::Help));
    assert!(matches!(CommandParser::parse(":help", false, false), Command::Help));
    assert!(matches!(CommandParser::parse(":q", false, false), Command::Quit));
    assert!(matches!(CommandParser::parse(":quit", false, false), Command::Quit));
    assert!(matches!(CommandParser::parse(":l", false, false), Command::List));
    assert!(matches!(CommandParser::parse(":list", false, false), Command::List));
    assert!(matches!(CommandParser::parse(":ls", false, false), Command::ListFiles));
    assert!(matches!(CommandParser::parse(":files", false, false), Command::ListFiles));
    assert!(matches!(CommandParser::parse(":ml", false, false), Command::MultiLine));
    assert!(matches!(CommandParser::parse(":edit", false, false), Command::Edit));
    assert!(matches!(CommandParser::parse(":stats", false, false), Command::Stats));
    assert!(matches!(CommandParser::parse(":tags", false, false), Command::ListTags));
}

#[test]
fn new_note_has_a_plain_and_a_forcing_form() {
    assert!(matches!(CommandParser::parse(":n", false, false), Command::NewNote(false)));
    assert!(matches!(CommandParser::parse(":n!", false, false), Command::NewNote(true)));
}

#[test]
fn tagged_and_load_require_one_argument() {
    assert!(matches!(
        CommandParser::parse(":tagged work", false, false),
        Command::ListByTag(t) if t == "work"
    ));
    assert!(matches!(
        CommandParser::parse(":tagged", false, false),
        Command::Invalid(r) if r == "tag name required"
    ));
    assert!(matches!(
        CommandParser::parse(":load ideas", false, false),
        Command::Load(n) if n == "ideas"
    ));
    assert!(matches!(
        CommandParser::parse(":load", false, false),
        Command::Invalid(r) if r == "filename required"
    ));
}

#[test]
fn extra_tokens_after_a_bare_command_are_ignored() {
    assert!(matches!(CommandParser::parse(":help me please", false, false), Command::Help));
    assert!(matches!(CommandParser::parse(":stats verbose", false, false), Command::Stats));
}

#[test]
fn empty_input_is_an_empty_write() {
    assert!(matches!(CommandParser::parse("", false, false), Command::Write(t) if t.is_empty()));
    assert!(matches!(CommandParser::parse("   ", false, false), Command::Write(t) if t.is_empty()));
}

#[test]
fn lone_prefix_is_invalid() {
    assert!(matches!(CommandParser::parse(":", false, false), Command::Invalid(r) if r == ":"));
}
