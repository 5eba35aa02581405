//! The command grammar: one raw input line, interpreted against the current
//! session mode, becomes exactly one `Command` value.

use vstd::prelude::*;

use crate::text::{
    chars_eq_str, chars_to_string, copy_range, join_chars_from, join_with, parse_usize,
    parse_usize_spec, str_chars, tokenize, tokens, trim_chars, trim_spec,
};

verus! {

/// One parsed command, ready for the editor session to execute.
pub enum Command {
    Write(String),
    Search(String),
    List,
    MultiLine,
    Edit,
    EditLine(usize),
    EditSave,
    EditCancel,
    Save(Option<String>),
    Load(String),
    ListFiles,
    NewNote(bool),
    Tag(String),
    ListTags,
    ListByTag(String),
    Stats,
    Help,
    Quit,
    Invalid(String),
}

/// The mathematical shape of a command: payload strings as sequences.
pub enum CmdModel {
    Write(Seq<char>),
    Search(Seq<char>),
    List,
    MultiLine,
    Edit,
    EditLine(int),
    EditSave,
    EditCancel,
    Save(Option<Seq<char>>),
    Load(Seq<char>),
    ListFiles,
    NewNote(bool),
    Tag(Seq<char>),
    ListTags,
    ListByTag(Seq<char>),
    Stats,
    Help,
    Quit,
    Invalid(Seq<char>),
}

impl View for Command {
    type V = CmdModel;

    open spec fn view(&self) -> CmdModel {
        match self {
            Command::Write(s) => CmdModel::Write(s@),
            Command::Search(s) => CmdModel::Search(s@),
            Command::List => CmdModel::List,
            Command::MultiLine => CmdModel::MultiLine,
            Command::Edit => CmdModel::Edit,
            Command::EditLine(n) => CmdModel::EditLine(*n as int),
            Command::EditSave => CmdModel::EditSave,
            Command::EditCancel => CmdModel::EditCancel,
            Command::Save(opt) => CmdModel::Save(
                match opt {
                    Option::Some(s) => Option::Some(s@),
                    Option::None => Option::None,
                },
            ),
            Command::Load(s) => CmdModel::Load(s@),
            Command::ListFiles => CmdModel::ListFiles,
            Command::NewNote(force) => CmdModel::NewNote(*force),
            Command::Tag(s) => CmdModel::Tag(s@),
            Command::ListTags => CmdModel::ListTags,
            Command::ListByTag(s) => CmdModel::ListByTag(s@),
            Command::Stats => CmdModel::Stats,
            Command::Help => CmdModel::Help,
            Command::Quit => CmdModel::Quit,
            Command::Invalid(s) => CmdModel::Invalid(s@),
        }
    }
}

/// What `parse` returns for a given line and mode flags.
///
/// In multi-line mode only the toggle token is a command; everything else is
/// captured verbatim (after trimming). Otherwise a line not starting with the
/// prefix is a write; a prefixed line is split into whitespace tokens and the
/// first token selects the command. The `save` and `cancel` tokens resolve to
/// the edit-mode commands exactly when the session is in line-edit mode.
pub open spec fn parse_model(input: Seq<char>, in_multi_line: bool, edit_mode: bool) -> CmdModel {
    let t = trim_spec(input);
    if in_multi_line {
        if t == ":ml"@ {
            CmdModel::MultiLine
        } else {
            CmdModel::Write(t)
        }
    } else if t.len() > 0 && t[0] == ':' {
        let parts = tokens(t.skip(1));
        if parts.len() == 0 {
            CmdModel::Invalid(t)
        } else {
            let w = parts[0];
            if w == "h"@ || w == "help"@ {
                CmdModel::Help
            } else if w == "q"@ || w == "quit"@ {
                CmdModel::Quit
            } else if w == "l"@ || w == "list"@ {
                CmdModel::List
            } else if w == "ls"@ || w == "files"@ {
                CmdModel::ListFiles
            } else if w == "edit"@ {
                CmdModel::Edit
            } else if w == "line"@ {
                if parts.len() > 1 {
                    match parse_usize_spec(parts[1]) {
                        Option::Some(n) => CmdModel::EditLine(n),
                        Option::None => CmdModel::Invalid("invalid line number"@),
                    }
                } else {
                    CmdModel::Invalid("line number required.."@)
                }
            } else if w == "save"@ && edit_mode {
                CmdModel::EditSave
            } else if w == "cancel"@ && edit_mode {
                CmdModel::EditCancel
            } else if w == "ml"@ {
                CmdModel::MultiLine
            } else if w == "n"@ {
                CmdModel::NewNote(false)
            } else if w == "n!"@ {
                CmdModel::NewNote(true)
            } else if w == "stats"@ {
                CmdModel::Stats
            } else if w == "tag"@ {
                if parts.len() > 1 {
                    CmdModel::Tag(parts[1])
                } else {
                    CmdModel::Invalid("tag name required"@)
                }
            } else if w == "tags"@ {
                CmdModel::ListTags
            } else if w == "tagged"@ {
                if parts.len() > 1 {
                    CmdModel::ListByTag(parts[1])
                } else {
                    CmdModel::Invalid("tag name required"@)
                }
            } else if w == "search"@ {
                if parts.len() > 1 {
                    CmdModel::Search(join_with(parts.skip(1), " "@))
                } else {
                    CmdModel::Invalid("search term required"@)
                }
            } else if w == "save"@ {
                if parts.len() > 1 {
                    CmdModel::Save(Option::Some(join_with(parts.skip(1), "_"@)))
                } else {
                    CmdModel::Save(Option::None)
                }
            } else if w == "load"@ {
                if parts.len() > 1 {
                    CmdModel::Load(parts[1])
                } else {
                    CmdModel::Invalid("filename required"@)
                }
            } else {
                CmdModel::Invalid(t)
            }
        }
    } else {
        CmdModel::Write(t)
    }
}

/// The command parser. Pure and total: every line maps to a command, and
/// invalid input maps to `Command::Invalid` with its reason.
pub struct CommandParser;

impl CommandParser {
    /// Parses one raw input line against the current mode flags.
    pub fn parse(input: &str, in_multi_line: bool, edit_mode: bool) -> (c: Command)
        ensures
            c@ == parse_model(input@, in_multi_line, edit_mode),
    {
        let chars = str_chars(input);
        let t = trim_chars(&chars);
        if in_multi_line {
            if chars_eq_str(&t, ":ml") {
                return Command::MultiLine;
            }
            return Command::Write(chars_to_string(&t));
        }
        if t.len() == 0 || t[0] != ':' {
            return Command::Write(chars_to_string(&t));
        }
        let rest = copy_range(&t, 1, t.len());
        proof {
            assert(rest@ =~= trim_spec(input@).skip(1));
        }
        let parts = tokenize(&rest);
        let ghost pm = tokens(trim_spec(input@).skip(1));
        proof {
            assert(parts.deep_view() == pm);
            assert(parts@.len() == pm.len());
        }
        if parts.len() == 0 {
            return Command::Invalid(chars_to_string(&t));
        }
        let w = &parts[0];
        proof {
            assert(w@ =~~= pm[0]);
        }
        if chars_eq_str(w, "h") || chars_eq_str(w, "help") {
            return Command::Help;
        }
        if chars_eq_str(w, "q") || chars_eq_str(w, "quit") {
            return Command::Quit;
        }
        if chars_eq_str(w, "l") || chars_eq_str(w, "list") {
            return Command::List;
        }
        if chars_eq_str(w, "ls") || chars_eq_str(w, "files") {
            return Command::ListFiles;
        }
        if chars_eq_str(w, "edit") {
            return Command::Edit;
        }
        if chars_eq_str(w, "line") {
            if parts.len() > 1 {
                proof {
                    assert(parts@[1]@ =~~= pm[1]);
                }
                return match parse_usize(&parts[1]) {
                    Option::Some(n) => Command::EditLine(n),
                    Option::None => Command::Invalid(String::from_str("invalid line number")),
                };
            }
            return Command::Invalid(String::from_str("line number required.."));
        }
        if edit_mode && chars_eq_str(w, "save") {
            return Command::EditSave;
        }
        if edit_mode && chars_eq_str(w, "cancel") {
            return Command::EditCancel;
        }
        if chars_eq_str(w, "ml") {
            return Command::MultiLine;
        }
        if chars_eq_str(w, "n") {
            return Command::NewNote(false);
        }
        if chars_eq_str(w, "n!") {
            return Command::NewNote(true);
        }
        if chars_eq_str(w, "stats") {
            return Command::Stats;
        }
        if chars_eq_str(w, "tag") {
            if parts.len() > 1 {
                proof {
                    assert(parts@[1]@ =~~= pm[1]);
                }
                return Command::Tag(chars_to_string(&parts[1]));
            }
            return Command::Invalid(String::from_str("tag name required"));
        }
        if chars_eq_str(w, "tags") {
            return Command::ListTags;
        }
        if chars_eq_str(w, "tagged") {
            if parts.len() > 1 {
                proof {
                    assert(parts@[1]@ =~~= pm[1]);
                }
                return Command::ListByTag(chars_to_string(&parts[1]));
            }
            return Command::Invalid(String::from_str("tag name required"));
        }
        if chars_eq_str(w, "search") {
            if parts.len() > 1 {
                return Command::Search(join_chars_from(&parts, 1, " "));
            }
            return Command::Invalid(String::from_str("search term required"));
        }
        if chars_eq_str(w, "save") {
            if parts.len() > 1 {
                return Command::Save(Option::Some(join_chars_from(&parts, 1, "_")));
            }
            return Command::Save(Option::None);
        }
        if chars_eq_str(w, "load") {
            if parts.len() > 1 {
                proof {
                    assert(parts@[1]@ =~~= pm[1]);
                }
                return Command::Load(chars_to_string(&parts[1]));
            }
            return Command::Invalid(String::from_str("filename required"));
        }
        Command::Invalid(chars_to_string(&t))
    }
}

} // verus!
