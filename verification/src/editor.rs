//! The editor session: one mutable aggregate -- buffer, tags, mode, dirty
//! flags, statistics cache -- and the state machine that interprets parsed
//! commands against it. Every transition is a pure function of the old
//! state and the command; work that needs the file system is handed back
//! to the caller as an effect, and its outcome is applied through the
//! `confirm_saved` and `apply_loaded` methods.

use vstd::pervasive::VecAdditionalExecFns;
use vstd::prelude::*;

use crate::commands::{CmdModel, Command};
use crate::notefile::{
    auto_name_spec, counts_view, decode_note_spec, encode_note_spec, explicit_name_spec,
    format_content_spec, load_name_spec, FileOperations, ScanEntry,
};
use crate::stats::{render_size, render_size_x, stats_spec, FileMeta, NoteStats, StatsModel};
use crate::text::{
    append_dec, contains_in, contains_sub, dec_str, join_strings, join_with, lines_of, lower_seq,
    lowercase, split_lines, str_chars,
};

verus! {

/// The input mode: plain line entry, multi-line capture with its pending
/// block, or line editing with its buffer snapshot. Exactly one at a time.
pub enum Mode {
    Normal,
    MultiLine(String),
    LineEdit(Vec<String>),
}

/// The mathematical shape of a mode.
#[verifier::ext_equal]
pub enum ModeModel {
    Normal,
    MultiLine(Seq<char>),
    LineEdit(Seq<Seq<char>>),
}

impl View for Mode {
    type V = ModeModel;

    open spec fn view(&self) -> ModeModel {
        match self {
            Mode::Normal => ModeModel::Normal,
            Mode::MultiLine(b) => ModeModel::MultiLine(b@),
            Mode::LineEdit(buf) => ModeModel::LineEdit(buf.deep_view()),
        }
    }
}

/// The editor session state.
pub struct Editor {
    pub content: String,
    pub modified: bool,
    pub mode: Mode,
    pub current_file: Option<String>,
    pub current_tags: Vec<String>,
    pub stats_cache: Option<NoteStats>,
    pub stats_dirty: bool,
}

/// The mathematical shape of a session.
#[verifier::ext_equal]
pub struct Session {
    pub content: Seq<char>,
    pub modified: bool,
    pub mode: ModeModel,
    pub current_file: Option<Seq<char>>,
    pub tags: Seq<Seq<char>>,
    pub cache: Option<StatsModel>,
    pub stats_dirty: bool,
}

impl View for Editor {
    type V = Session;

    open spec fn view(&self) -> Session {
        Session {
            content: self.content@,
            modified: self.modified,
            mode: self.mode@,
            current_file: self.current_file.deep_view(),
            tags: self.current_tags.deep_view(),
            cache: self.stats_cache.deep_view(),
            stats_dirty: self.stats_dirty,
        }
    }
}

/// What the caller must do, or show, after one command is executed. File
/// reads and writes never happen inside the session: they are handed out
/// here, and their outcomes handed back through `confirm_saved` and
/// `apply_loaded`.
pub enum Effect {
    /// A line was appended to the note body.
    Appended,
    /// An empty write: nothing happened.
    Ignored,
    /// A line was captured into the pending multi-line block.
    BlockLine,
    /// Multi-line capture began.
    EnteredMultiLine,
    /// The pending block was committed; how many lines it held.
    CommittedMultiLine(usize),
    /// Line-edit mode began over a snapshot of the body.
    EnteredEdit,
    /// The caller should collect a replacement for this one-based line,
    /// seeded with its current text, and hand it to `edit_line`.
    EditPrompt(usize, String),
    /// The requested line is outside the edit buffer.
    InvalidLine,
    /// A line-edit command arrived outside line-edit mode.
    NotInEditMode,
    /// Multi-line capture cannot begin during a line edit.
    EditInProgress,
    /// Line edits were committed to the body.
    EditSaved,
    /// Line edits were discarded.
    EditCancelled,
    /// The matching lines, one-based, for a search.
    SearchResults(Vec<(usize, String)>),
    /// The caller should show the current note.
    ShowNote,
    /// The caller should refresh statistics (see `update_stats`) and show
    /// the cached snapshot.
    NeedStats,
    /// The caller should write this file, then call `confirm_saved`.
    WriteFile(String, String),
    /// Nothing to save: the note is unmodified.
    NothingToSave,
    /// The caller should read this file and hand it to `apply_loaded`,
    /// or report that it does not exist.
    ReadFile(String),
    /// A load was refused: the note has unsaved changes.
    LoadRefused,
    /// A new note was refused: the note has unsaved changes.
    NewNoteRefused,
    /// The note was cleared for a fresh start.
    NewNoteStarted,
    /// This tag was added, already lowercased.
    TagAdded(String),
    /// This tag was already present.
    TagExists(String),
    /// The caller should scan the directory and show all tags.
    ListTagsQuery,
    /// The caller should scan the directory for notes with this tag.
    TaggedQuery(String),
    /// The caller should scan the directory and list the saved notes.
    ListFilesQuery,
    /// The caller should show the command help.
    ShowHelp,
    /// The caller should write this file, then call `confirm_saved`, then
    /// end the session.
    QuitSaving(String, String),
    /// The caller should end the session.
    Quit,
    /// The input was not a command; its text, for the error message.
    Rejected(String),
}

/// The mathematical shape of an effect.
#[verifier::ext_equal]
pub enum EffectModel {
    Appended,
    Ignored,
    BlockLine,
    EnteredMultiLine,
    CommittedMultiLine(int),
    EnteredEdit,
    EditPrompt(int, Seq<char>),
    InvalidLine,
    NotInEditMode,
    EditInProgress,
    EditSaved,
    EditCancelled,
    SearchResults(Seq<(int, Seq<char>)>),
    ShowNote,
    NeedStats,
    WriteFile(Seq<char>, Seq<char>),
    NothingToSave,
    ReadFile(Seq<char>),
    LoadRefused,
    NewNoteRefused,
    NewNoteStarted,
    TagAdded(Seq<char>),
    TagExists(Seq<char>),
    ListTagsQuery,
    TaggedQuery(Seq<char>),
    ListFilesQuery,
    ShowHelp,
    QuitSaving(Seq<char>, Seq<char>),
    Quit,
    Rejected(Seq<char>),
}

/// The view of a vector of search hits.
pub open spec fn hits_view(v: Seq<(usize, String)>) -> Seq<(int, Seq<char>)> {
    v.map(|i: int, p: (usize, String)| (p.0 as int, p.1@))
}

impl View for Effect {
    type V = EffectModel;

    open spec fn view(&self) -> EffectModel {
        match self {
            Effect::Appended => EffectModel::Appended,
            Effect::Ignored => EffectModel::Ignored,
            Effect::BlockLine => EffectModel::BlockLine,
            Effect::EnteredMultiLine => EffectModel::EnteredMultiLine,
            Effect::CommittedMultiLine(n) => EffectModel::CommittedMultiLine(*n as int),
            Effect::EnteredEdit => EffectModel::EnteredEdit,
            Effect::EditPrompt(n, s) => EffectModel::EditPrompt(*n as int, s@),
            Effect::InvalidLine => EffectModel::InvalidLine,
            Effect::NotInEditMode => EffectModel::NotInEditMode,
            Effect::EditInProgress => EffectModel::EditInProgress,
            Effect::EditSaved => EffectModel::EditSaved,
            Effect::EditCancelled => EffectModel::EditCancelled,
            Effect::SearchResults(v) => EffectModel::SearchResults(hits_view(v@)),
            Effect::ShowNote => EffectModel::ShowNote,
            Effect::NeedStats => EffectModel::NeedStats,
            Effect::WriteFile(n, d) => EffectModel::WriteFile(n@, d@),
            Effect::NothingToSave => EffectModel::NothingToSave,
            Effect::ReadFile(n) => EffectModel::ReadFile(n@),
            Effect::LoadRefused => EffectModel::LoadRefused,
            Effect::NewNoteRefused => EffectModel::NewNoteRefused,
            Effect::NewNoteStarted => EffectModel::NewNoteStarted,
            Effect::TagAdded(t) => EffectModel::TagAdded(t@),
            Effect::TagExists(t) => EffectModel::TagExists(t@),
            Effect::ListTagsQuery => EffectModel::ListTagsQuery,
            Effect::TaggedQuery(t) => EffectModel::TaggedQuery(t@),
            Effect::ListFilesQuery => EffectModel::ListFilesQuery,
            Effect::ShowHelp => EffectModel::ShowHelp,
            Effect::QuitSaving(n, d) => EffectModel::QuitSaving(n@, d@),
            Effect::Quit => EffectModel::Quit,
            Effect::Rejected(s) => EffectModel::Rejected(s@),
        }
    }
}

/// The matching lines for a search, each with its one-based line number,
/// counted from `base`.
pub open spec fn search_hits(lines: Seq<Seq<char>>, term: Seq<char>, base: int) -> Seq<
    (int, Seq<char>),
>
    decreases lines.len(),
{
    if lines.len() == 0 {
        Seq::empty()
    } else {
        (if contains_sub(lines[0], term) {
            seq![(base, lines[0])]
        } else {
            Seq::empty()
        }) + search_hits(lines.drop_first(), term, base + 1)
    }
}

/// The file name and file text that saving the session would write.
pub open spec fn save_payload_spec(s: Session) -> Seq<char> {
    encode_note_spec(format_content_spec(s.content), s.tags)
}

/// The file name a plain save writes to: the backing file if the note has
/// one, else a fresh timestamped name.
pub open spec fn save_name_spec(s: Session, stamp: Seq<char>) -> Seq<char> {
    match s.current_file {
        Option::Some(f) => f,
        Option::None => auto_name_spec(stamp),
    }
}

/// The state after one command. Commands whose work needs the file system
/// leave the state unchanged here; the outcome is applied by
/// `confirm_saved` or `apply_loaded` once the caller has done the work.
pub open spec fn step(s: Session, c: CmdModel) -> Session {
    match c {
        CmdModel::Write(t) => match s.mode {
            ModeModel::MultiLine(b) => Session {
                mode: ModeModel::MultiLine(b + t + "\n"@),
                ..s
            },
            _ => {
                if t.len() > 0 {
                    Session {
                        content: s.content + t + "\n"@,
                        modified: true,
                        cache: Option::None,
                        stats_dirty: true,
                        ..s
                    }
                } else {
                    s
                }
            },
        },
        CmdModel::Edit => Session { mode: ModeModel::LineEdit(lines_of(s.content)), ..s },
        CmdModel::EditSave => match s.mode {
            ModeModel::LineEdit(buf) => Session {
                content: join_with(buf, "\n"@),
                modified: true,
                mode: ModeModel::Normal,
                cache: Option::None,
                stats_dirty: true,
                ..s
            },
            _ => s,
        },
        CmdModel::EditCancel => match s.mode {
            ModeModel::LineEdit(_) => Session { mode: ModeModel::Normal, ..s },
            _ => s,
        },
        CmdModel::MultiLine => match s.mode {
            ModeModel::MultiLine(b) => Session {
                content: s.content + b,
                modified: true,
                mode: ModeModel::Normal,
                cache: Option::None,
                stats_dirty: true,
                ..s
            },
            ModeModel::Normal => Session { mode: ModeModel::MultiLine(Seq::empty()), ..s },
            ModeModel::LineEdit(_) => s,
        },
        CmdModel::NewNote(force) => {
            if s.modified && !force {
                s
            } else {
                Session {
                    content: Seq::empty(),
                    tags: Seq::empty(),
                    current_file: Option::None,
                    modified: false,
                    cache: Option::None,
                    stats_dirty: true,
                    ..s
                }
            }
        },
        CmdModel::Tag(t) => {
            if s.tags.contains(lower_seq(t)) {
                s
            } else {
                Session {
                    tags: s.tags.push(lower_seq(t)),
                    modified: true,
                    cache: Option::None,
                    stats_dirty: true,
                    ..s
                }
            }
        },
        _ => s,
    }
}

/// The effect of one command on the given state. The timestamp parameter
/// names the stamp an automatically named save would carry; commands that
/// never save ignore it.
pub open spec fn step_effect(s: Session, c: CmdModel, stamp: Seq<char>) -> EffectModel {
    match c {
        CmdModel::Write(t) => match s.mode {
            ModeModel::MultiLine(_) => EffectModel::BlockLine,
            _ => {
                if t.len() > 0 {
                    EffectModel::Appended
                } else {
                    EffectModel::Ignored
                }
            },
        },
        CmdModel::Edit => EffectModel::EnteredEdit,
        CmdModel::EditLine(n) => match s.mode {
            ModeModel::LineEdit(buf) => {
                if 1 <= n <= buf.len() {
                    EffectModel::EditPrompt(n, buf[n - 1])
                } else {
                    EffectModel::InvalidLine
                }
            },
            _ => EffectModel::NotInEditMode,
        },
        CmdModel::EditSave => match s.mode {
            ModeModel::LineEdit(_) => EffectModel::EditSaved,
            _ => EffectModel::Ignored,
        },
        CmdModel::EditCancel => match s.mode {
            ModeModel::LineEdit(_) => EffectModel::EditCancelled,
            _ => EffectModel::Ignored,
        },
        CmdModel::MultiLine => match s.mode {
            ModeModel::MultiLine(b) => EffectModel::CommittedMultiLine(lines_of(b).len() as int),
            ModeModel::Normal => EffectModel::EnteredMultiLine,
            ModeModel::LineEdit(_) => EffectModel::EditInProgress,
        },
        CmdModel::Search(term) => EffectModel::SearchResults(
            search_hits(lines_of(s.content), term, 1),
        ),
        CmdModel::List => EffectModel::ShowNote,
        CmdModel::Stats => EffectModel::NeedStats,
        CmdModel::Save(opt) => match opt {
            Option::Some(name) => EffectModel::WriteFile(
                explicit_name_spec(name),
                save_payload_spec(s),
            ),
            Option::None => {
                if !s.modified {
                    EffectModel::NothingToSave
                } else {
                    EffectModel::WriteFile(save_name_spec(s, stamp), save_payload_spec(s))
                }
            },
        },
        CmdModel::Load(name) => {
            if s.modified {
                EffectModel::LoadRefused
            } else {
                EffectModel::ReadFile(load_name_spec(name))
            }
        },
        CmdModel::NewNote(force) => {
            if s.modified && !force {
                EffectModel::NewNoteRefused
            } else {
                EffectModel::NewNoteStarted
            }
        },
        CmdModel::Tag(t) => {
            if s.tags.contains(lower_seq(t)) {
                EffectModel::TagExists(lower_seq(t))
            } else {
                EffectModel::TagAdded(lower_seq(t))
            }
        },
        CmdModel::ListTags => EffectModel::ListTagsQuery,
        CmdModel::ListByTag(t) => EffectModel::TaggedQuery(t),
        CmdModel::ListFiles => EffectModel::ListFilesQuery,
        CmdModel::Help => EffectModel::ShowHelp,
        CmdModel::Quit => {
            if s.modified {
                EffectModel::QuitSaving(save_name_spec(s, stamp), save_payload_spec(s))
            } else {
                EffectModel::Quit
            }
        },
        CmdModel::Invalid(t) => EffectModel::Rejected(t),
    }
}

/// A copy of the edit buffer, line for line.
fn clone_lines(v: &Vec<String>) -> (r: Vec<String>)
    ensures
        r.deep_view() == v.deep_view(),
        r@.len() == v@.len(),
{
    let mut r: Vec<String> = Vec::new();
    let mut i: usize = 0;
    proof {
        assert(r.deep_view() =~~= v.deep_view().take(0));
    }
    while i < v.len()
        invariant
            i <= v@.len(),
            v.deep_view().len() == v@.len(),
            r@.len() == i,
            r.deep_view() =~~= v.deep_view().take(i as int),
        decreases v@.len() - i,
    {
        let ghost pre = r.deep_view();
        let line = v[i].clone();
        let ghost lv = line@;
        r.push(line);
        proof {
            assert(lv =~~= v.deep_view()[i as int]);
            assert(r.deep_view() =~~= pre + seq![lv]);
            assert(pre + seq![lv] =~~= v.deep_view().take(i + 1));
        }
        i = i + 1;
    }
    proof {
        assert(v.deep_view().take(v@.len() as int) =~~= v.deep_view());
    }
    r
}

/// The matching lines of a body, each with its one-based line number.
fn search_in_content(content: &str, term: &str) -> (r: Vec<(usize, String)>)
    ensures
        hits_view(r@) == search_hits(lines_of(content@), term@, 1),
{
    let lines = split_lines(content);
    let ghost ldv = lines.deep_view();
    let mut acc: Vec<(usize, String)> = Vec::new();
    let mut i: usize = 0;
    proof {
        assert(ldv.skip(0) =~= ldv);
        assert(hits_view(acc@) =~= Seq::<(int, Seq<char>)>::empty());
        assert(Seq::<(int, Seq<char>)>::empty() + search_hits(ldv, term@, 1) =~= search_hits(
            ldv,
            term@,
            1,
        ));
    }
    while i < lines.len()
        invariant
            ldv == lines.deep_view(),
            ldv.len() == lines@.len(),
            i <= lines@.len(),
            hits_view(acc@) + search_hits(ldv.skip(i as int), term@, i + 1) == search_hits(
                ldv,
                term@,
                1,
            ),
        decreases lines@.len() - i,
    {
        let ghost lm = ldv[i as int];
        proof {
            assert(lm =~~= lines@[i as int]@);
            assert(ldv.skip(i as int)[0] == lm);
            assert(ldv.skip(i as int).drop_first() =~= ldv.skip(i + 1));
        }
        let lv = str_chars(lines[i].as_str());
        if contains_in(&lv, term) {
            let ghost pre = hits_view(acc@);
            let hit = (i + 1, lines[i].clone());
            let ghost hitv = (hit.0 as int, hit.1@);
            acc.push(hit);
            proof {
                assert(hits_view(acc@) =~= pre + seq![hitv]);
                assert(hitv == (i + 1 as int, lm));
                assert((pre + seq![(i + 1 as int, lm)]) + search_hits(ldv.skip(i + 1), term@, i + 2)
                    =~= pre + (seq![(i + 1 as int, lm)] + search_hits(ldv.skip(i + 1), term@, i + 2)));
            }
        } else {
            proof {
                assert(Seq::<(int, Seq<char>)>::empty() + search_hits(ldv.skip(i + 1), term@, i + 2)
                    =~= search_hits(ldv.skip(i + 1), term@, i + 2));
            }
        }
        i = i + 1;
    }
    proof {
        assert(ldv.skip(lines@.len() as int) =~= Seq::<Seq<char>>::empty());
        assert(hits_view(acc@) + Seq::<(int, Seq<char>)>::empty() =~= hits_view(acc@));
    }
    acc
}

impl Editor {
    /// A fresh session: empty note, no tags, no backing file, normal mode,
    /// statistics not yet computed.
    pub fn new() -> (r: Editor)
        ensures
            r@ == (Session {
                content: Seq::<char>::empty(),
                modified: false,
                mode: ModeModel::Normal,
                current_file: Option::None,
                tags: Seq::empty(),
                cache: Option::None,
                stats_dirty: true,
            }),
    {
        let r = Editor {
            content: String::new(),
            modified: false,
            mode: Mode::Normal,
            current_file: Option::None,
            current_tags: Vec::new(),
            stats_cache: Option::None,
            stats_dirty: true,
        };
        proof {
            assert(r.current_tags.deep_view() =~= Seq::<Seq<char>>::empty());
        }
        r
    }

    /// Whether the session is capturing a multi-line block.
    pub fn in_multi_line(&self) -> (r: bool)
        ensures
            r == (self@.mode is MultiLine),
    {
        match &self.mode {
            Mode::MultiLine(_) => true,
            _ => false,
        }
    }

    /// Whether the session is editing lines.
    pub fn edit_mode(&self) -> (r: bool)
        ensures
            r == (self@.mode is LineEdit),
    {
        match &self.mode {
            Mode::LineEdit(_) => true,
            _ => false,
        }
    }

    /// Drops the cached statistics snapshot and marks it stale.
    pub fn invalidate_stats_cache(&mut self)
        ensures
            final(self)@ == (Session {
                cache: Option::None,
                stats_dirty: true,
                ..old(self)@
            }),
    {
        self.stats_cache = Option::None;
        self.stats_dirty = true;
    }

    /// Lowercases the tag and appends it unless already present; reports
    /// whether it was added. Mutating the tag set marks statistics stale.
    pub fn add_tag(&mut self, tag: &str) -> (r: bool)
        ensures
            final(self)@ == step(old(self)@, CmdModel::Tag(tag@)),
            r == !old(self)@.tags.contains(lower_seq(tag@)),
    {
        let lt = lowercase(tag);
        let ghost tdv = self.current_tags.deep_view();
        let n = self.current_tags.len();
        let mut i: usize = 0;
        while i < n
            invariant
                n == self.current_tags@.len(),
                tdv == self.current_tags.deep_view(),
                tdv.len() == n,
                i <= n,
                lt@ == lower_seq(tag@),
                forall|q: int| 0 <= q < i ==> tdv[q] != lt@,
            decreases n - i,
        {
            proof {
                assert(tdv[i as int] =~~= self.current_tags@[i as int]@);
            }
            if self.current_tags[i].eq(&lt) {
                proof {
                    assert(tdv.contains(lt@));
                }
                return false;
            }
            i = i + 1;
        }
        proof {
            assert(!tdv.contains(lt@));
        }
        let ghost pre = self.current_tags.deep_view();
        let ghost ltv = lt@;
        self.current_tags.push(lt);
        self.modified = true;
        self.stats_cache = Option::None;
        self.stats_dirty = true;
        proof {
            assert(self.current_tags.deep_view() =~~= pre.push(ltv));
            assert(final(self)@ =~= step(old(self)@, CmdModel::Tag(tag@)));
        }
        true
    }

    /// Snapshots the body into the line-edit buffer and enters line-edit
    /// mode; the body itself is untouched until a commit.
    pub fn enter_edit_mode(&mut self)
        ensures
            final(self)@ == step(old(self)@, CmdModel::Edit),
    {
        let buf = split_lines(self.content.as_str());
        self.mode = Mode::LineEdit(buf);
        proof {
            assert(final(self)@ =~= step(old(self)@, CmdModel::Edit));
        }
    }

    /// Replaces one line of the edit buffer (one-based), handing back
    /// whether the line existed. Outside line-edit mode, or out of range,
    /// nothing changes.
    pub fn edit_line(&mut self, line_num: usize, replacement: String) -> (r: bool)
        ensures
            final(self)@ == replace_line_spec(old(self)@, line_num as int, replacement@),
            r == (old(self)@.mode matches ModeModel::LineEdit(buf) && 1 <= line_num
                <= buf.len()),
    {
        match &self.mode {
            Mode::LineEdit(buf) => {
                if line_num == 0 || line_num > buf.len() {
                    proof {
                        assert(final(self)@ =~= replace_line_spec(
                            old(self)@,
                            line_num as int,
                            replacement@,
                        ));
                    }
                    return false;
                }
                let mut nb = clone_lines(buf);
                let ghost predv = nb.deep_view();
                let ghost rv = replacement@;
                nb.set(line_num - 1, replacement);
                proof {
                    assert(nb.deep_view() =~~= predv.update(line_num - 1, rv));
                }
                self.mode = Mode::LineEdit(nb);
                proof {
                    assert(final(self)@ =~= replace_line_spec(
                        old(self)@,
                        line_num as int,
                        rv,
                    ));
                }
                true
            },
            _ => {
                proof {
                    assert(final(self)@ =~= replace_line_spec(
                        old(self)@,
                        line_num as int,
                        replacement@,
                    ));
                }
                false
            },
        }
    }

    /// Commits the edit buffer: the body becomes the buffer's lines joined
    /// with newlines, and the session returns to normal mode.
    pub fn save_edits(&mut self)
        ensures
            final(self)@ == step(old(self)@, CmdModel::EditSave),
    {
        match &self.mode {
            Mode::LineEdit(buf) => {
                let joined = join_strings(buf, "\n");
                self.content = joined;
                self.modified = true;
                self.mode = Mode::Normal;
                self.stats_cache = Option::None;
                self.stats_dirty = true;
                proof {
                    assert(final(self)@ =~= step(old(self)@, CmdModel::EditSave));
                }
            },
            _ => {
                proof {
                    assert(final(self)@ =~= step(old(self)@, CmdModel::EditSave));
                }
            },
        }
    }

    /// Discards the edit buffer and returns to normal mode; the body is
    /// untouched.
    pub fn cancel_edits(&mut self)
        ensures
            final(self)@ == step(old(self)@, CmdModel::EditCancel),
    {
        match &self.mode {
            Mode::LineEdit(_) => {
                self.mode = Mode::Normal;
            },
            _ => {},
        }
        proof {
            assert(final(self)@ =~= step(old(self)@, CmdModel::EditCancel));
        }
    }

    /// Records that the handed-out file write succeeded: the note is now
    /// backed by that file and clean, and statistics are stale.
    pub fn confirm_saved(&mut self, name: String)
        ensures
            final(self)@ == (Session {
                current_file: Option::Some(name@),
                modified: false,
                cache: Option::None,
                stats_dirty: true,
                ..old(self)@
            }),
    {
        self.current_file = Option::Some(name);
        self.modified = false;
        self.stats_cache = Option::None;
        self.stats_dirty = true;
    }

    /// Applies a loaded file: the body and tags are decoded from its raw
    /// text, the note is backed by that file and clean, statistics stale.
    pub fn apply_loaded(&mut self, name: String, raw: &str)
        ensures
            final(self)@ == (Session {
                content: decode_note_spec(raw@).0,
                tags: decode_note_spec(raw@).1,
                current_file: Option::Some(name@),
                modified: false,
                cache: Option::None,
                stats_dirty: true,
                ..old(self)@
            }),
    {
        let decoded = FileOperations::decode_note(raw);
        self.content = decoded.0;
        self.current_tags = decoded.1;
        self.current_file = Option::Some(name);
        self.modified = false;
        self.stats_cache = Option::None;
        self.stats_dirty = true;
    }

    /// Recomputes the statistics snapshot, but only when a mutation has
    /// made the cache stale: a fresh cache is returned as it is, with no
    /// recomputation. The caller hands in the directory scan and the
    /// backing file's metadata.
    pub fn update_stats(&mut self, entries: &Vec<ScanEntry>, current_meta: &Option<FileMeta>)
        requires
            entries@.len() < usize::MAX,
        ensures
            final(self)@ == (Session {
                cache: final(self)@.cache,
                stats_dirty: false,
                ..old(self)@
            }),
            old(self)@.stats_dirty ==> final(self)@.cache == Option::Some(
                stats_spec(
                    old(self)@.content,
                    old(self)@.current_file,
                    entries.deep_view(),
                    old(self)@.tags,
                    current_meta.deep_view(),
                ),
            ),
            !old(self)@.stats_dirty ==> final(self)@.cache == old(self)@.cache,
    {
        if self.stats_dirty {
            let snap = crate::stats::StatsCalculator::calculate_note_stats(
                self.content.as_str(),
                &self.current_file,
                entries,
                &self.current_tags,
                current_meta,
            );
            self.stats_cache = Option::Some(snap);
            self.stats_dirty = false;
        }
        proof {
            assert(final(self)@ =~= (Session {
                cache: final(self)@.cache,
                stats_dirty: false,
                ..old(self)@
            }));
        }
    }
}

/// The state after one line of the edit buffer is replaced: in line-edit
/// mode with the line in range, that line changes; otherwise nothing does.
pub open spec fn replace_line_spec(s: Session, n: int, repl: Seq<char>) -> Session {
    match s.mode {
        ModeModel::LineEdit(buf) => {
            if 1 <= n <= buf.len() {
                Session { mode: ModeModel::LineEdit(buf.update(n - 1, repl)), ..s }
            } else {
                s
            }
        },
        _ => s,
    }
}

impl Editor {
    /// The file text that saving the session would write: the formatted
    /// body behind the tag frontmatter.
    fn save_payload(&self) -> (r: String)
        ensures
            r@ == save_payload_spec(self@),
    {
        let formatted = FileOperations::format_content(self.content.as_str());
        FileOperations::encode_note(formatted.as_str(), &self.current_tags)
    }

    /// Executes one parsed command: the state advances by `step`, and the
    /// returned effect -- `step_effect` of the old state -- says what the
    /// caller must now do or show. The timestamp in the effect's contract
    /// is the one an automatically named save drew from the clock.
    pub fn execute_command(&mut self, command: Command) -> (eff: Effect)
        ensures
            final(self)@ == step(old(self)@, command@),
            exists|stamp: Seq<char>| eff@ == step_effect(old(self)@, command@, stamp),
    {
        let ghost s0 = self@;
        let ghost c = command@;
        let ghost mut st: Seq<char> = Seq::empty();
        let eff: Effect = match command {
            Command::Write(text) => {
                let block: Option<String> = match &self.mode {
                    Mode::MultiLine(b) => Option::Some(b.clone()),
                    _ => Option::None,
                };
                match block {
                    Option::Some(mut nb) => {
                        nb.append(text.as_str());
                        nb.append("\n");
                        self.mode = Mode::MultiLine(nb);
                        let e = Effect::BlockLine;
                        proof {
                            assert(self@ =~= step(s0, c));
                            assert(e@ == step_effect(s0, c, st));
                        }
                        e
                    },
                    Option::None => {
                        if !text.as_str().is_empty() {
                            self.content.append(text.as_str());
                            self.content.append("\n");
                            self.modified = true;
                            self.stats_cache = Option::None;
                            self.stats_dirty = true;
                            let e = Effect::Appended;
                            proof {
                                assert(self@ =~= step(s0, c));
                                assert(e@ == step_effect(s0, c, st));
                            }
                            e
                        } else {
                            let e = Effect::Ignored;
                            proof {
                                assert(self@ =~= step(s0, c));
                                assert(e@ == step_effect(s0, c, st));
                            }
                            e
                        }
                    },
                }
            },
            Command::Edit => {
                self.enter_edit_mode();
                let e = Effect::EnteredEdit;
                proof {
                    assert(e@ == step_effect(s0, c, st));
                }
                e
            },
            Command::EditLine(n) => {
                let e: Effect = match &self.mode {
                    Mode::LineEdit(buf) => {
                        if n >= 1 && n <= buf.len() {
                            let seed = buf[n - 1].clone();
                            proof {
                                assert(seed@ =~~= buf.deep_view()[n - 1]);
                            }
                            Effect::EditPrompt(n, seed)
                        } else {
                            Effect::InvalidLine
                        }
                    },
                    _ => Effect::NotInEditMode,
                };
                proof {
                    assert(self@ =~= step(s0, c));
                    assert(e@ == step_effect(s0, c, st));
                }
                e
            },
            Command::EditSave => {
                let was = self.edit_mode();
                self.save_edits();
                let e = if was {
                    Effect::EditSaved
                } else {
                    Effect::Ignored
                };
                proof {
                    assert(e@ == step_effect(s0, c, st));
                }
                e
            },
            Command::EditCancel => {
                let was = self.edit_mode();
                self.cancel_edits();
                let e = if was {
                    Effect::EditCancelled
                } else {
                    Effect::Ignored
                };
                proof {
                    assert(e@ == step_effect(s0, c, st));
                }
                e
            },
            Command::MultiLine => {
                let block: Option<String> = match &self.mode {
                    Mode::MultiLine(b) => Option::Some(b.clone()),
                    _ => Option::None,
                };
                match block {
                    Option::Some(b) => {
                        let lines = split_lines(b.as_str());
                        let count = lines.len();
                        self.content.append(b.as_str());
                        self.modified = true;
                        self.mode = Mode::Normal;
                        self.stats_cache = Option::None;
                        self.stats_dirty = true;
                        let e = Effect::CommittedMultiLine(count);
                        proof {
                            assert(lines.deep_view().len() == lines@.len());
                            assert(self@ =~= step(s0, c));
                            assert(e@ == step_effect(s0, c, st));
                        }
                        e
                    },
                    Option::None => {
                        if self.edit_mode() {
                            let e = Effect::EditInProgress;
                            proof {
                                assert(self@ =~= step(s0, c));
                                assert(e@ == step_effect(s0, c, st));
                            }
                            e
                        } else {
                            self.mode = Mode::MultiLine(String::new());
                            let e = Effect::EnteredMultiLine;
                            proof {
                                assert(self@ =~= step(s0, c));
                                assert(e@ == step_effect(s0, c, st));
                            }
                            e
                        }
                    },
                }
            },
            Command::Search(term) => {
                let hits = search_in_content(self.content.as_str(), term.as_str());
                let e = Effect::SearchResults(hits);
                proof {
                    assert(e@ == step_effect(s0, c, st));
                }
                e
            },
            Command::List => Effect::ShowNote,
            Command::Stats => Effect::NeedStats,
            Command::Save(name_opt) => {
                match name_opt {
                    Option::Some(name) => {
                        let fname = FileOperations::resolve_explicit_name(name.as_str());
                        let data = self.save_payload();
                        let e = Effect::WriteFile(fname, data);
                        proof {
                            assert(e@ == step_effect(s0, c, st));
                        }
                        e
                    },
                    Option::None => {
                        if !self.modified {
                            let e = Effect::NothingToSave;
                            proof {
                                assert(e@ == step_effect(s0, c, st));
                            }
                            e
                        } else {
                            let fname: String = match &self.current_file {
                                Option::Some(f) => f.clone(),
                                Option::None => FileOperations::auto_file_name(),
                            };
                            proof {
                                if s0.current_file is None {
                                    st = choose|t: Seq<char>|
                                        fname@ == auto_name_spec(t) && t.len() >= 15;
                                }
                            }
                            let data = self.save_payload();
                            let e = Effect::WriteFile(fname, data);
                            proof {
                                assert(e@ == step_effect(s0, c, st));
                            }
                            e
                        }
                    },
                }
            },
            Command::Load(name) => {
                let e: Effect = if self.modified {
                    Effect::LoadRefused
                } else {
                    Effect::ReadFile(FileOperations::resolve_load_name(name.as_str()))
                };
                proof {
                    assert(e@ == step_effect(s0, c, st));
                }
                e
            },
            Command::NewNote(force) => {
                if self.modified && !force {
                    let e = Effect::NewNoteRefused;
                    proof {
                        assert(self@ =~= step(s0, c));
                        assert(e@ == step_effect(s0, c, st));
                    }
                    e
                } else {
                    self.content = String::new();
                    self.current_tags = Vec::new();
                    self.current_file = Option::None;
                    self.modified = false;
                    self.stats_cache = Option::None;
                    self.stats_dirty = true;
                    let e = Effect::NewNoteStarted;
                    proof {
                        assert(self.current_tags.deep_view() =~= Seq::<Seq<char>>::empty());
                        assert(self@ =~= step(s0, c));
                        assert(e@ == step_effect(s0, c, st));
                    }
                    e
                }
            },
            Command::Tag(tag) => {
                let lt = lowercase(tag.as_str());
                let added = self.add_tag(tag.as_str());
                let e = if added {
                    Effect::TagAdded(lt)
                } else {
                    Effect::TagExists(lt)
                };
                proof {
                    assert(e@ == step_effect(s0, c, st));
                }
                e
            },
            Command::ListTags => Effect::ListTagsQuery,
            Command::ListByTag(tag) => Effect::TaggedQuery(tag),
            Command::ListFiles => Effect::ListFilesQuery,
            Command::Help => Effect::ShowHelp,
            Command::Quit => {
                if self.modified {
                    let fname: String = match &self.current_file {
                        Option::Some(f) => f.clone(),
                        Option::None => FileOperations::auto_file_name(),
                    };
                    proof {
                        if s0.current_file is None {
                            st = choose|t: Seq<char>| fname@ == auto_name_spec(t) && t.len() >= 15;
                        }
                    }
                    let data = self.save_payload();
                    let e = Effect::QuitSaving(fname, data);
                    proof {
                        assert(e@ == step_effect(s0, c, st));
                    }
                    e
                } else {
                    let e = Effect::Quit;
                    proof {
                        assert(e@ == step_effect(s0, c, st));
                    }
                    e
                }
            },
            Command::Invalid(text) => Effect::Rejected(text),
        };
        proof {
            assert(final(self)@ =~= step(s0, c));
            assert(eff@ == step_effect(s0, c, st));
        }
        eff
    }
}

/// One tag with its count, as the statistics display shows it.
pub open spec fn pair_render(p: (Seq<char>, int)) -> Seq<char> {
    p.0 + " ("@ + dec_str(p.1) + ")"@
}

/// The most-used tags, each with its count, comma-separated.
pub open spec fn tags_line(tt: Seq<(Seq<char>, int)>) -> Seq<char>
    decreases tt.len(),
{
    if tt.len() == 0 {
        Seq::empty()
    } else if tt.len() == 1 {
        pair_render(tt[0])
    } else {
        tags_line(tt.drop_last()) + ", "@ + pair_render(tt.last())
    }
}

/// The lines a statistics display shows for a snapshot: the note's name or
/// a placeholder, its counts and sizes, the directory totals, and -- when
/// any tag was seen -- the most used tags.
pub open spec fn stat_lines_spec(m: StatsModel, cf: Option<Seq<char>>) -> Seq<Seq<char>> {
    let base = seq![
        "Current Note: "@ + (match cf {
            Option::Some(f) => f,
            Option::None => "[not saved]"@,
        }),
        "lines: "@ + dec_str(m.lines),
        "words: "@ + dec_str(m.words),
        "characters: "@ + dec_str(m.chars),
        "size: "@ + render_size(m.size_bytes),
        "all-time notes: "@ + dec_str(m.total_notes),
        "last modified: "@ + m.last_modified,
        "total size: "@ + m.total_size,
    ];
    if m.top_tags.len() > 0 {
        base.push("most used tags: "@ + tags_line(m.top_tags))
    } else {
        base
    }
}

impl Editor {
    /// Refreshes the statistics (recomputing only when stale, see
    /// `update_stats`) and renders the snapshot's display lines.
    pub fn display_stats(&mut self, entries: &Vec<ScanEntry>, current_meta: &Option<FileMeta>)
        -> (r: Vec<String>)
        requires
            entries@.len() < usize::MAX,
        ensures
            final(self)@ == (Session {
                cache: final(self)@.cache,
                stats_dirty: false,
                ..old(self)@
            }),
            old(self)@.stats_dirty ==> final(self)@.cache == Option::Some(
                stats_spec(
                    old(self)@.content,
                    old(self)@.current_file,
                    entries.deep_view(),
                    old(self)@.tags,
                    current_meta.deep_view(),
                ),
            ),
            !old(self)@.stats_dirty ==> final(self)@.cache == old(self)@.cache,
            match final(self)@.cache {
                Option::Some(m) => r.deep_view() == stat_lines_spec(m, old(self)@.current_file),
                Option::None => r.deep_view() == Seq::<Seq<char>>::empty(),
            },
    {
        self.update_stats(entries, current_meta);
        let mut out: Vec<String> = Vec::new();
        match &self.stats_cache {
            Option::None => {
                proof {
                    assert(out.deep_view() =~~= Seq::<Seq<char>>::empty());
                }
                out
            },
            Option::Some(stats) => {
                let ghost m = stats@;
                let ghost cf = self.current_file.deep_view();
                let mut l0 = String::from_str("Current Note: ");
                match &self.current_file {
                    Option::Some(f) => l0.append(f.as_str()),
                    Option::None => l0.append("[not saved]"),
                }
                let ghost l0v = l0@;
                out.push(l0);
                let mut l1 = String::from_str("lines: ");
                append_dec(&mut l1, stats.lines as u64);
                let ghost l1v = l1@;
                out.push(l1);
                let mut l2 = String::from_str("words: ");
                append_dec(&mut l2, stats.words as u64);
                let ghost l2v = l2@;
                out.push(l2);
                let mut l3 = String::from_str("characters: ");
                append_dec(&mut l3, stats.chars as u64);
                let ghost l3v = l3@;
                out.push(l3);
                let mut l4 = String::from_str("size: ");
                let sz = render_size_x(stats.size_bytes);
                l4.append(sz.as_str());
                let ghost l4v = l4@;
                out.push(l4);
                let mut l5 = String::from_str("all-time notes: ");
                append_dec(&mut l5, stats.total_notes as u64);
                let ghost l5v = l5@;
                out.push(l5);
                let mut l6 = String::from_str("last modified: ");
                l6.append(stats.last_modified.as_str());
                let ghost l6v = l6@;
                out.push(l6);
                let mut l7 = String::from_str("total size: ");
                l7.append(stats.total_size.as_str());
                let ghost l7v = l7@;
                out.push(l7);
                proof {
                    assert(out.deep_view() =~~= seq![l0v, l1v, l2v, l3v, l4v, l5v, l6v, l7v]);
                }
                if stats.top_tags.len() > 0 {
                    let tt = &stats.top_tags;
                    let ghost ttv = counts_view(tt@);
                    let mut line = String::from_str("most used tags: ");
                    let mut i: usize = 0;
                    proof {
                        assert(ttv.take(0) =~= Seq::<(Seq<char>, int)>::empty());
                        assert(line@ =~= "most used tags: "@ + tags_line(ttv.take(0)));
                    }
                    while i < tt.len()
                        invariant
                            ttv == counts_view(tt@),
                            ttv.len() == tt@.len(),
                            i <= tt@.len(),
                            line@ == "most used tags: "@ + tags_line(ttv.take(i as int)),
                        decreases tt@.len() - i,
                    {
                        if i > 0 {
                            line.append(", ");
                        }
                        line.append(tt[i].0.as_str());
                        line.append(" (");
                        append_dec(&mut line, tt[i].1 as u64);
                        line.append(")");
                        proof {
                            assert(ttv[i as int] == (tt@[i as int].0@, tt@[i as int].1 as int));
                            let cur = ttv.take(i + 1);
                            assert(cur.drop_last() =~= ttv.take(i as int));
                            assert(cur.last() == ttv[i as int]);
                            if i == 0 {
                                assert(tags_line(cur) == pair_render(ttv[0]));
                            }
                            assert(line@ =~= "most used tags: "@ + tags_line(ttv.take(i + 1)));
                        }
                        i = i + 1;
                    }
                    proof {
                        assert(ttv.take(tt@.len() as int) =~= ttv);
                    }
                    let ghost linev = line@;
                    out.push(line);
                    proof {
                        assert(out.deep_view() =~~= seq![l0v, l1v, l2v, l3v, l4v, l5v, l6v, l7v].push(
                            linev,
                        ));
                        assert(out.deep_view() =~~= stat_lines_spec(m, cf));
                    }
                } else {
                    proof {
                        assert(out.deep_view() =~~= stat_lines_spec(m, cf));
                    }
                }
                out
            },
        }
    }
}

/// Any command that changes the note body or the tag set marks the
/// statistics cache stale, so the next statistics request recomputes.
pub proof fn lemma_mutation_invalidates(s: Session, c: CmdModel)
    ensures
        step(s, c).content != s.content || step(s, c).tags != s.tags ==> step(s, c).stats_dirty,
{
}

/// Entering multi-line capture, writing lines, and closing the capture
/// appends exactly the captured lines, newline-terminated, to the body,
/// and returns the session to normal mode with the change marked unsaved.
pub proof fn lemma_multi_line_round_trip(s0: Session, a: Seq<char>, b: Seq<char>)
    requires
        s0.mode is Normal,
    ensures
        ({
            let s4 = step(
                step(step(step(s0, CmdModel::MultiLine), CmdModel::Write(a)), CmdModel::Write(b)),
                CmdModel::MultiLine,
            );
            &&& s4.mode is Normal
            &&& s4.content == s0.content + a + "\n"@ + b + "\n"@
            &&& s4.modified
            &&& s4.stats_dirty
        }),
{
    let s1 = step(s0, CmdModel::MultiLine);
    let s2 = step(s1, CmdModel::Write(a));
    let s3 = step(s2, CmdModel::Write(b));
    let s4 = step(s3, CmdModel::MultiLine);
    assert(s1.mode == ModeModel::MultiLine(Seq::<char>::empty()));
    assert(s2.mode == ModeModel::MultiLine(Seq::<char>::empty() + a + "\n"@));
    assert(s4.content =~= s0.content + a + "\n"@ + b + "\n"@);
}

/// Replacing an in-range line and committing the edit yields the buffer
/// with that one line changed, joined by newlines; an out-of-range line
/// number changes nothing at all.
pub proof fn lemma_line_edit_commit(s0: Session, buf: Seq<Seq<char>>, n: int, repl: Seq<char>)
    requires
        s0.mode == ModeModel::LineEdit(buf),
    ensures
        1 <= n <= buf.len() ==> ({
            let s2 = step(replace_line_spec(s0, n, repl), CmdModel::EditSave);
            &&& s2.content == join_with(buf.update(n - 1, repl), "\n"@)
            &&& s2.mode is Normal
            &&& s2.modified
        }),
        !(1 <= n <= buf.len()) ==> replace_line_spec(s0, n, repl) == s0,
{
}

/// Adding a tag that is already present, compared case-insensitively,
/// changes nothing: not the tags, not the dirty flag, nothing.
pub proof fn lemma_duplicate_tag(s: Session, t: Seq<char>)
    requires
        s.tags.contains(lower_seq(t)),
    ensures
        step(s, CmdModel::Tag(t)) == s,
{
}

/// A plain new-note on an unsaved session is refused outright, while a
/// forced new-note always clears the body, tags and backing file.
pub proof fn lemma_new_note(s: Session, force: bool)
    ensures
        s.modified && !force ==> step(s, CmdModel::NewNote(force)) == s,
        force ==> ({
            let s1 = step(s, CmdModel::NewNote(force));
            &&& s1.content =~= Seq::<char>::empty()
            &&& s1.tags =~= Seq::<Seq<char>>::empty()
            &&& s1.current_file is None
            &&& !s1.modified
        }),
{
}

} // verus!
