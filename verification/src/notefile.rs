//! The note persistence format: a note is a body with an optional tag
//! frontmatter block, rendered to and recovered from a single text file.
//! Also the pre-save content formatter and note file name resolution.

use vstd::multiset::Multiset;
use vstd::prelude::*;

use crate::text::{
    chars_to_string, contains_sub, copy_range, ends_with_in, ends_with_spec, equals_line, find_from,
    find_in, join_strings, join_with, lemma_find_from_bounds, lemma_find_from_some, lines_of, lower_seq, lowercase, match_at, repeat_char, split_by, split_in,
    split_lines, starts_with_in, starts_with_spec, str_chars,
};

verus! {

/// The on-disk rendering of a note: a frontmatter block naming the tags,
/// present exactly when the tag list is non-empty, followed by the body.
pub open spec fn encode_note_spec(body: Seq<char>, tags: Seq<Seq<char>>) -> Seq<char> {
    if tags.len() == 0 {
        body
    } else {
        "---\ntags: "@ + join_with(tags, ", "@) + "\n---\n"@ + body
    }
}

/// The body and tags recovered from a file's raw text. A file that does not
/// begin with a well-formed frontmatter block is a tag-less body, returned
/// unchanged; in particular a block whose end marker closes it before any
/// metadata could stand is treated as no frontmatter at all.
pub open spec fn decode_note_spec(raw: Seq<char>) -> (Seq<char>, Seq<Seq<char>>) {
    if starts_with_spec(raw, "---\n"@) {
        match find_from(raw, "\n---\n"@, 0) {
            Option::Some(end) => {
                if end >= 4 {
                    let meta = raw.subrange(4, end);
                    if starts_with_spec(meta, "tags: "@) {
                        (raw.skip(end + 5), split_by(meta.skip(6), ", "@))
                    } else {
                        (raw, Seq::empty())
                    }
                } else {
                    (raw, Seq::empty())
                }
            },
            Option::None => (raw, Seq::empty()),
        }
    } else {
        (raw, Seq::empty())
    }
}

/// File operations on notes: rendering, recovery, and the pure parts of
/// directory listings. Reading and writing the files themselves is the
/// caller's business.
pub struct FileOperations;

impl FileOperations {
    /// Renders a note to its file text: frontmatter iff tags are non-empty.
    pub fn encode_note(content: &str, tags: &Vec<String>) -> (r: String)
        ensures
            r@ == encode_note_spec(content@, tags.deep_view()),
    {
        if tags.len() == 0 {
            return content.to_owned();
        }
        let mut out = String::from_str("---\ntags: ");
        let joined = join_strings(tags, ", ");
        out.append(joined.as_str());
        out.append("\n---\n");
        out.append(content);
        proof {
            assert(out@ =~= encode_note_spec(content@, tags.deep_view()));
        }
        out
    }

    /// Recovers body and tags from a file's raw text.
    pub fn decode_note(raw: &str) -> (r: (String, Vec<String>))
        ensures
            r.0@ == decode_note_spec(raw@).0,
            r.1.deep_view() == decode_note_spec(raw@).1,
    {
        let chars = str_chars(raw);
        if !starts_with_in(&chars, "---\n") {
            let r = (raw.to_owned(), Vec::<String>::new());
            proof {
                assert(r.1.deep_view() =~= Seq::<Seq<char>>::empty());
            }
            return r;
        }
        let found = find_in(&chars, "\n---\n", 0);
        match found {
            Option::None => {
                let r = (raw.to_owned(), Vec::<String>::new());
                proof {
                    assert(r.1.deep_view() =~= Seq::<Seq<char>>::empty());
                }
                r
            },
            Option::Some(end) => {
                proof {
                    lemma_find_from_bounds(raw@, "\n---\n"@, 0);
                    reveal_strlit("\n---\n");
                    reveal_strlit("tags: ");
                    reveal_strlit(", ");
                    assert(end + 5 <= raw@.len());
                }
                if end < 4 {
                    let r = (raw.to_owned(), Vec::<String>::new());
                    proof {
                        assert(r.1.deep_view() =~= Seq::<Seq<char>>::empty());
                    }
                    return r;
                }
                let meta = copy_range(&chars, 4, end);
                if !starts_with_in(&meta, "tags: ") {
                    let r = (raw.to_owned(), Vec::<String>::new());
                    proof {
                        assert(r.1.deep_view() =~= Seq::<Seq<char>>::empty());
                    }
                    return r;
                }
                let tag_str = copy_range(&meta, 6, meta.len());
                proof {
                    assert(tag_str@ =~= raw@.subrange(4, end as int).skip(6));
                    assert(", "@.len() == 2);
                }
                let parts = split_in(&tag_str, ", ");
                let mut tags: Vec<String> = Vec::new();
                let mut i: usize = 0;
                while i < parts.len()
                    invariant
                        i <= parts@.len(),
                        parts.deep_view().len() == parts@.len(),
                        tags.deep_view() =~= parts.deep_view().take(i as int),
                    decreases parts@.len() - i,
                {
                    let t = chars_to_string(&parts[i]);
                    proof {
                        assert(parts.deep_view()[i as int] =~~= parts@[i as int]@);
                    }
                    let ghost pre = tags.deep_view();
                    let ghost tv = t@;
                    tags.push(t);
                    proof {
                        assert(tags.deep_view() =~~= pre + seq![tv]);
                        assert(pre + seq![tv] =~= parts.deep_view().take(i + 1));
                    }
                    i = i + 1;
                }
                proof {
                    assert(parts.deep_view().take(parts@.len() as int) =~= parts.deep_view());
                }
                let clen = chars.len();
                proof {
                    assert(end + 5 <= clen);
                }
                let body_chars = copy_range(&chars, end + 5, clen);
                let body = chars_to_string(&body_chars);
                proof {
                    assert(body@ =~= raw@.skip(end + 5));
                }
                (body, tags)
            },
        }
    }
}

/// Splitting always yields at least one piece.
proof fn lemma_split_nonempty(s: Seq<char>, sep: Seq<char>)
    ensures
        split_by(s, sep).len() >= 1,
{
}

/// Unfolds a join at the front: with two or more parts, the join is the
/// first part, the separator, and the join of the rest.
proof fn lemma_join_front(parts: Seq<Seq<char>>, sep: Seq<char>)
    requires
        parts.len() >= 2,
    ensures
        join_with(parts, sep) == parts[0] + sep + join_with(parts.drop_first(), sep),
    decreases parts.len(),
{
    if parts.len() == 2 {
        assert(parts.drop_last().len() == 1);
        assert(parts.drop_last()[0] == parts[0]);
        assert(parts.drop_first().len() == 1);
        assert(parts.drop_first()[0] == parts[1]);
        assert(join_with(parts, sep) == join_with(parts.drop_last(), sep) + sep + parts.last());
        assert(join_with(parts, sep) =~= parts[0] + sep + join_with(parts.drop_first(), sep));
    } else {
        let dl = parts.drop_last();
        lemma_join_front(dl, sep);
        assert(dl[0] == parts[0]);
        let df = parts.drop_first();
        assert(df.len() >= 2);
        assert(join_with(df, sep) == join_with(df.drop_last(), sep) + sep + df.last());
        assert(df.drop_last() =~= dl.drop_first());
        assert(df.last() == parts.last());
        assert((dl[0] + sep + join_with(dl.drop_first(), sep)) + sep + parts.last() =~= parts[0]
            + sep + (join_with(dl.drop_first(), sep) + sep + parts.last()));
    }
}

/// A join of parts free of a character, with a separator free of it,
/// is itself free of it.
proof fn lemma_join_no_char(parts: Seq<Seq<char>>, sep: Seq<char>, c: char)
    requires
        forall|i: int| 0 <= i < parts.len() ==> !(#[trigger] parts[i]).contains(c),
        !sep.contains(c),
    ensures
        !join_with(parts, sep).contains(c),
    decreases parts.len(),
{
    if parts.len() == 0 {
    } else if parts.len() == 1 {
        assert(join_with(parts, sep) == parts[0]);
    } else {
        let dl = parts.drop_last();
        assert(forall|i: int| 0 <= i < dl.len() ==> dl[i] == parts[i]);
        lemma_join_no_char(dl, sep, c);
        let j = join_with(dl, sep) + sep + parts.last();
        assert(join_with(parts, sep) == j);
        assert(parts.last() == parts[parts.len() - 1]);
        assert forall|k: int| 0 <= k < j.len() implies j[k] != c by {
            let a = join_with(dl, sep);
            if k < a.len() {
                assert(j[k] == a[k]);
                assert(!a.contains(c));
            } else if k < a.len() + sep.len() {
                assert(j[k] == sep[k - a.len()]);
            } else {
                assert(j[k] == parts.last()[k - a.len() - sep.len()]);
                assert(!parts[parts.len() - 1].contains(c));
            }
        }
    }
}

/// Splitting a join on its separator recovers the parts, provided no part
/// contains the separator and the separator's two characters differ.
proof fn lemma_split_join(parts: Seq<Seq<char>>, sep: Seq<char>)
    requires
        sep.len() == 2,
        sep[0] != sep[1],
        parts.len() >= 1,
        forall|i: int| 0 <= i < parts.len() ==> !contains_sub(#[trigger] parts[i], sep),
    ensures
        split_by(join_with(parts, sep), sep) == parts,
    decreases parts.len(),
{
    if parts.len() == 1 {
        let j = join_with(parts, sep);
        assert(j == parts[0]);
        assert(find_from(parts[0], sep, 0) is None);
        assert(split_by(j, sep) =~= seq![parts[0]]);
        assert(seq![parts[0]] =~= parts);
    } else {
        lemma_join_front(parts, sep);
        let t0 = parts[0];
        let rest = parts.drop_first();
        let r = join_with(rest, sep);
        let j = t0 + sep + r;
        assert(join_with(parts, sep) =~= j);
        let x = t0.len() as int;
        assert(match_at(j, sep, x)) by {
            assert(j.subrange(x, x + 2) =~= sep) by {
                assert(j[x] == sep[0]);
                assert(j[x + 1] == sep[1]);
            }
        }
        assert forall|q: int| 0 <= q < x implies !match_at(j, sep, q) by {
            if match_at(j, sep, q) {
                if q + 2 <= x {
                    assert(match_at(t0, sep, q)) by {
                        assert(t0.subrange(q, q + 2) =~= j.subrange(q, q + 2)) by {
                            assert(t0[q] == j[q]);
                            assert(t0[q + 1] == j[q + 1]);
                            assert(j.subrange(q, q + 2)[0] == j[q]);
                            assert(j.subrange(q, q + 2)[1] == j[q + 1]);
                            assert(t0.subrange(q, q + 2)[0] == t0[q]);
                            assert(t0.subrange(q, q + 2)[1] == t0[q + 1]);
                        }
                    }
                    lemma_find_from_bounds(t0, sep, 0);
                    assert(!contains_sub(t0, sep));
                    assert(false);
                } else {
                    assert(q == x - 1);
                    assert(j.subrange(q, q + 2)[1] == j[q + 1]);
                    assert(j[x] == sep[0]);
                    assert(sep[1] == sep[0]);
                    assert(false);
                }
            }
        }
        lemma_find_from_some(j, sep, 0, x);
        assert(split_by(j, sep) == seq![j.take(x)] + split_by(j.skip(x + 2), sep));
        assert(j.take(x) =~= t0);
        assert(j.skip(x + 2) =~= r);
        assert(forall|i: int| 0 <= i < rest.len() ==> rest[i] == parts[i + 1]);
        lemma_split_join(rest, sep);
        assert(seq![t0] + rest =~= parts);
    }
}

/// A tag free of newlines and of the tag separator survives the trip to
/// disk: what `decode_note_spec` recovers from `encode_note_spec` is the
/// body and the tags, exactly and in order. A body that itself reads as a
/// frontmatter block round-trips only when saved with at least one tag.
pub proof fn lemma_note_round_trip(body: Seq<char>, tags: Seq<Seq<char>>)
    requires
        forall|i: int| 0 <= i < tags.len() ==> !contains_sub(#[trigger] tags[i], ", "@),
        forall|i: int| 0 <= i < tags.len() ==> !(#[trigger] tags[i]).contains('\n'),
        tags.len() == 0 ==> decode_note_spec(body).1.len() == 0,
    ensures
        decode_note_spec(encode_note_spec(body, tags)).0 == body,
        decode_note_spec(encode_note_spec(body, tags)).1 == tags,
{
    reveal_strlit("---\ntags: ");
    reveal_strlit("\n---\n");
    reveal_strlit("---\n");
    reveal_strlit("tags: ");
    reveal_strlit(", ");
    if tags.len() == 0 {
        let raw = encode_note_spec(body, tags);
        assert(raw == body);
        if starts_with_spec(raw, "---\n"@) {
            if let Option::Some(end) = find_from(raw, "\n---\n"@, 0) {
                if end >= 4 {
                    let meta = raw.subrange(4, end);
                    if starts_with_spec(meta, "tags: "@) {
                        lemma_split_nonempty(meta.skip(6), ", "@);
                        assert(false);
                    }
                }
            }
        }
    } else {
        let h = "---\ntags: "@;
        let m = "\n---\n"@;
        let jn = join_with(tags, ", "@);
        assert(!", "@.contains('\n')) by {
            assert(", "@.len() == 2);
            assert(", "@[0] == ',');
            assert(", "@[1] == ' ');
        }
        lemma_join_no_char(tags, ", "@, '\n');
        let raw = h + jn + m + body;
        assert(encode_note_spec(body, tags) == raw);
        assert(h.len() == 10);
        assert(m.len() == 5);
        let x = 10 + jn.len() as int;
        assert forall|q: int| 0 <= q < 10 implies raw[q] == h[q] by {}
        assert forall|q: int| 10 <= q < x implies raw[q] == jn[q - 10] by {}
        assert forall|q: int| x <= q < x + 5 implies raw[q] == m[q - x] by {}
        assert forall|q: int| x + 5 <= q < raw.len() implies raw[q] == body[q - x - 5] by {}
        assert(starts_with_spec(raw, "---\n"@)) by {
            assert(raw.subrange(0, 4) =~= "---\n"@) by {
                assert(raw[0] == '-' && raw[1] == '-' && raw[2] == '-' && raw[3] == '\n');
            }
        }
        assert(match_at(raw, m, x)) by {
            assert(raw.subrange(x, x + 5) =~= m);
        }
        assert forall|q: int| 0 <= q < x implies !match_at(raw, m, q) by {
            if match_at(raw, m, q) {
                assert(raw.subrange(q, q + 5)[0] == raw[q]);
                assert(raw[q] == '\n');
                if q == 3 {
                    assert(raw.subrange(q, q + 5)[1] == raw[4]);
                    assert(raw[4] == 't');
                    assert(m[1] == '-');
                    assert(false);
                } else if q < 10 {
                    assert(raw[q] == h[q]);
                    assert(false);
                } else {
                    assert(raw[q] == jn[q - 10]);
                    assert(!jn.contains('\n'));
                    assert(false);
                }
            }
        }
        lemma_find_from_some(raw, m, 0, x);
        assert(find_from(raw, "\n---\n"@, 0) == Some(x));
        let meta = raw.subrange(4, x);
        assert(meta =~= "tags: "@ + jn) by {
            assert forall|q: int| 0 <= q < meta.len() implies meta[q] == ("tags: "@ + jn)[q] by {
                assert(meta[q] == raw[4 + q]);
                if q < 6 {
                    assert(h[4 + q] == "tags: "@[q]);
                }
            }
        }
        assert(starts_with_spec(meta, "tags: "@)) by {
            assert(meta.subrange(0, 6) =~= "tags: "@);
        }
        assert(meta.skip(6) =~= jn);
        assert(", "@[0] != ", "@[1]);
        lemma_split_join(tags, ", "@);
        assert(raw.skip(x + 5) =~= body);
    }
}

/// A note saved with an empty tag set is written with no frontmatter block
/// at all: its file text is exactly the body.
pub proof fn lemma_empty_tags_no_frontmatter(body: Seq<char>, tags: Seq<Seq<char>>)
    requires
        tags.len() == 0,
    ensures
        encode_note_spec(body, tags) == body,
{
}

/// One formatted line of the pre-save renderer: section headings gain an
/// underline (and a separating blank line when a section is already open),
/// list items are indented, request lines are quoted, other lines pass
/// through; every line ends with a newline.
pub open spec fn format_line(line: Seq<char>, in_section: bool) -> Seq<char> {
    if starts_with_spec(line, "****"@) {
        (if in_section {
            "\n"@
        } else {
            Seq::empty()
        }) + "\n"@ + line + "\n"@ + repeat_char('=', line.len() as int) + "\n"@
    } else if starts_with_spec(line, "- "@) {
        "  "@ + line + "\n"@
    } else if starts_with_spec(line, "HTTP/"@) || starts_with_spec(line, "GET "@)
        || starts_with_spec(line, "POST "@) {
        "  > "@ + line + "\n"@
    } else if line.len() == 0 {
        "\n"@
    } else {
        line + "\n"@
    }
}

/// Whether a section is open after this line.
pub open spec fn enters_section(line: Seq<char>, in_section: bool) -> bool {
    starts_with_spec(line, "****"@) || in_section
}

/// The formatted rendering of a sequence of lines.
pub open spec fn format_lines_spec(lines: Seq<Seq<char>>, in_section: bool) -> Seq<char>
    decreases lines.len(),
{
    if lines.len() == 0 {
        Seq::empty()
    } else {
        format_line(lines[0], in_section) + format_lines_spec(
            lines.drop_first(),
            enters_section(lines[0], in_section),
        )
    }
}

/// The formatted rendering of a whole body, line by line.
pub open spec fn format_content_spec(content: Seq<char>) -> Seq<char> {
    format_lines_spec(lines_of(content), false)
}

/// Resolves the name given to a load: the note extension is appended
/// unless already present.
pub open spec fn load_name_spec(name: Seq<char>) -> Seq<char> {
    if ends_with_spec(name, ".md"@) {
        name
    } else {
        name + ".md"@
    }
}

/// The file name of an explicitly named save.
pub open spec fn explicit_name_spec(name: Seq<char>) -> Seq<char> {
    name + ".md"@
}

/// The file name of an automatically named save, from a timestamp.
pub open spec fn auto_name_spec(stamp: Seq<char>) -> Seq<char> {
    "note_"@ + stamp + ".md"@
}

/// Whether a directory entry name is a note file's.
pub open spec fn is_md_name(name: Seq<char>) -> bool {
    name.len() > 3 && ends_with_spec(name, ".md"@)
}

/// Relies on `chrono::Local::now` and `chrono::DateTime::format` with
/// `%Y%m%d_%H%M%S`: the current local time as at least four year digits,
/// month, day, an underscore, and six time digits -- never under 15
/// characters. The value depends on the clock, so nothing more is assumed.
#[verifier::external_body]
fn now_stamp() -> (r: String)
    ensures
        r@.len() >= 15,
{
    chrono::Local::now().format("%Y%m%d_%H%M%S").to_string()
}

/// One entry of a notes-directory scan, as plain values: the file's name,
/// its byte size, its modification time in seconds, and its raw text.
pub struct ScanEntry {
    pub name: String,
    pub size: u64,
    pub mtime: u64,
    pub content: String,
}

/// The mathematical shape of a scan entry.
pub struct EntryModel {
    pub name: Seq<char>,
    pub size: u64,
    pub mtime: u64,
    pub content: Seq<char>,
}

impl View for ScanEntry {
    type V = EntryModel;

    open spec fn view(&self) -> EntryModel {
        EntryModel {
            name: self.name@,
            size: self.size,
            mtime: self.mtime,
            content: self.content@,
        }
    }
}

impl DeepView for ScanEntry {
    type V = EntryModel;

    open spec fn deep_view(&self) -> EntryModel {
        self.view()
    }
}

/// One row of a directory listing: a note's name, modification time, tags.
pub struct NoteListing {
    pub name: String,
    pub mtime: u64,
    pub tags: Vec<String>,
}

/// The mathematical shape of a listing row.
pub struct ListingModel {
    pub name: Seq<char>,
    pub mtime: u64,
    pub tags: Seq<Seq<char>>,
}

impl View for NoteListing {
    type V = ListingModel;

    open spec fn view(&self) -> ListingModel {
        ListingModel { name: self.name@, mtime: self.mtime, tags: self.tags.deep_view() }
    }
}

impl DeepView for NoteListing {
    type V = ListingModel;

    open spec fn deep_view(&self) -> ListingModel {
        self.view()
    }
}

/// The tags a scanned file carries.
pub open spec fn entry_tags(e: EntryModel) -> Seq<Seq<char>> {
    decode_note_spec(e.content).1
}

/// Whether a scanned file is a note carrying `q`, compared without case.
pub open spec fn entry_matches_tag(e: EntryModel, q: Seq<char>) -> bool {
    is_md_name(e.name) && exists|i: int|
        0 <= i < entry_tags(e).len() && lower_seq(#[trigger] entry_tags(e)[i]) == lower_seq(q)
}

/// The names of the notes carrying `q`, in scan order.
pub open spec fn find_by_tag_spec(es: Seq<EntryModel>, q: Seq<char>) -> Seq<Seq<char>>
    decreases es.len(),
{
    if es.len() == 0 {
        Seq::empty()
    } else {
        (if entry_matches_tag(es[0], q) {
            seq![es[0].name]
        } else {
            Seq::empty()
        }) + find_by_tag_spec(es.drop_first(), q)
    }
}

/// The index of the first pair in `m` whose key is `t`, or -1.
pub open spec fn key_index(m: Seq<(Seq<char>, int)>, t: Seq<char>) -> int
    decreases m.len(),
{
    if m.len() == 0 {
        -1
    } else if m[0].0 == t {
        0
    } else {
        let r = key_index(m.drop_first(), t);
        if r < 0 {
            -1
        } else {
            1 + r
        }
    }
}

proof fn lemma_key_index_at(m: Seq<(Seq<char>, int)>, t: Seq<char>, i: int)
    requires
        0 <= i < m.len(),
        m[i].0 == t,
        forall|j: int| 0 <= j < i ==> m[j].0 != t,
    ensures
        key_index(m, t) == i,
    decreases i,
{
    if i > 0 {
        lemma_key_index_at(m.drop_first(), t, i - 1);
    }
}

proof fn lemma_key_index_none(m: Seq<(Seq<char>, int)>, t: Seq<char>)
    requires
        forall|j: int| 0 <= j < m.len() ==> m[j].0 != t,
    ensures
        key_index(m, t) == -1,
    decreases m.len(),
{
    if m.len() > 0 {
        lemma_key_index_none(m.drop_first(), t);
    }
}

/// One tag counted: an existing key's count grows by one (counts cap at the
/// machine word, which no real tally reaches), a new key is appended with
/// count one -- so keys keep first-encountered order.
pub open spec fn bump(m: Seq<(Seq<char>, int)>, t: Seq<char>) -> Seq<(Seq<char>, int)> {
    let i = key_index(m, t);
    if i < 0 {
        m.push((t, 1))
    } else {
        m.update(
            i,
            (m[i].0, if m[i].1 < usize::MAX {
                m[i].1 + 1
            } else {
                m[i].1
            }),
        )
    }
}

/// A whole tag list counted, in order.
pub open spec fn bump_all(m: Seq<(Seq<char>, int)>, ts: Seq<Seq<char>>) -> Seq<(Seq<char>, int)>
    decreases ts.len(),
{
    if ts.len() == 0 {
        m
    } else {
        bump_all(bump(m, ts[0]), ts.drop_first())
    }
}

/// All scanned note files' tags counted, in scan order.
pub open spec fn entry_counts(m: Seq<(Seq<char>, int)>, es: Seq<EntryModel>) -> Seq<
    (Seq<char>, int),
>
    decreases es.len(),
{
    if es.len() == 0 {
        m
    } else {
        entry_counts(
            if is_md_name(es[0].name) {
                bump_all(m, entry_tags(es[0]))
            } else {
                m
            },
            es.drop_first(),
        )
    }
}

/// The frequency table over the session's tags and every scanned note's
/// tags: keys in first-encountered order, session tags first.
pub open spec fn all_tag_counts(current: Seq<Seq<char>>, es: Seq<EntryModel>) -> Seq<
    (Seq<char>, int),
> {
    entry_counts(bump_all(Seq::empty(), current), es)
}

/// The view of an executable frequency table.
pub open spec fn counts_view(v: Seq<(String, usize)>) -> Seq<(Seq<char>, int)> {
    v.map(|i: int, p: (String, usize)| (p.0@, p.1 as int))
}

/// Counts one tag into an executable frequency table.
pub(crate) fn bump_in(out: &mut Vec<(String, usize)>, t: &String)
    ensures
        counts_view(final(out)@) == bump(counts_view(old(out)@), t@),
{
    let ghost m = counts_view(out@);
    let n = out.len();
    let mut j: usize = 0;
    while j < n
        invariant
            n == out@.len(),
            m == counts_view(out@),
            m == counts_view(old(out)@),
            m.len() == n,
            j <= n,
            forall|q: int| 0 <= q < j ==> m[q].0 != t@,
        decreases n - j,
    {
        proof {
            assert(m[j as int] == (out@[j as int].0@, out@[j as int].1 as int));
        }
        if out[j].0.eq(t) {
            let ghost pre = out@;
            let pair = out.remove(j);
            let c = if pair.1 < usize::MAX {
                pair.1 + 1
            } else {
                pair.1
            };
            let ghost p0 = pair.0@;
            out.insert(j, (pair.0, c));
            proof {
                lemma_key_index_at(m, t@, j as int);
                assert(out@ =~= pre.update(j as int, (out@[j as int].0, c)));
                assert(out@[j as int].0@ == p0);
                assert(counts_view(out@) =~= bump(m, t@)) by {
                    assert forall|q: int| 0 <= q < out@.len() implies counts_view(out@)[q] == bump(
                        m,
                        t@,
                    )[q] by {
                        assert(counts_view(out@)[q] == (out@[q].0@, out@[q].1 as int));
                        assert(bump(m, t@)[q] == m.update(
                            j as int,
                            (m[j as int].0, if m[j as int].1 < usize::MAX {
                                m[j as int].1 + 1
                            } else {
                                m[j as int].1
                            }),
                        )[q]);
                        if q != j as int {
                            assert(out@[q] == pre[q]);
                            assert(m[q] == (pre[q].0@, pre[q].1 as int));
                        }
                    }
                }
            }
            return ;
        }
        j = j + 1;
    }
    proof {
        lemma_key_index_none(m, t@);
    }
    let ghost pre = out@;
    out.push((t.clone(), 1));
    proof {
        assert(counts_view(out@) =~= bump(m, t@));
    }
}

impl FileOperations {
    /// Formats a body for saving: headings underlined, list items indented,
    /// request lines quoted, blank lines kept.
    pub fn format_content(content: &str) -> (r: String)
        ensures
            r@ == format_content_spec(content@),
    {
        let lines = split_lines(content);
        let ghost ldv = lines.deep_view();
        let mut out = String::new();
        let mut in_section: bool = false;
        let mut i: usize = 0;
        proof {
            assert(ldv.skip(0) =~= ldv);
            assert(Seq::<char>::empty() + format_lines_spec(ldv, false) =~= format_lines_spec(
                ldv,
                false,
            ));
        }
        while i < lines.len()
            invariant
                ldv == lines.deep_view(),
                ldv.len() == lines@.len(),
                i <= lines@.len(),
                out@ + format_lines_spec(ldv.skip(i as int), in_section) == format_lines_spec(
                    ldv,
                    false,
                ),
            decreases lines@.len() - i,
        {
            proof {
                assert(ldv.skip(i as int)[0] == ldv[i as int]);
                assert(ldv.skip(i as int).drop_first() =~= ldv.skip(i + 1));
                assert(ldv[i as int] =~~= lines@[i as int]@);
            }
            let ghost pre = out@;
            let ghost line = ldv[i as int];
            let ghost sec = in_section;
            let lv = str_chars(lines[i].as_str());
            if starts_with_in(&lv, "****") {
                if in_section {
                    out.append("\n");
                }
                out.append("\n");
                out.append(lines[i].as_str());
                out.append("\n");
                let eq = equals_line(lv.len());
                let eqs = chars_to_string(&eq);
                out.append(eqs.as_str());
                out.append("\n");
                in_section = true;
                proof {
                    assert(out@ =~= pre + format_line(line, sec));
                }
            } else if starts_with_in(&lv, "- ") {
                out.append("  ");
                out.append(lines[i].as_str());
                out.append("\n");
                proof {
                    assert(out@ =~= pre + format_line(line, sec));
                }
            } else if starts_with_in(&lv, "HTTP/") || starts_with_in(&lv, "GET ")
                || starts_with_in(&lv, "POST ") {
                out.append("  > ");
                out.append(lines[i].as_str());
                out.append("\n");
                proof {
                    assert(out@ =~= pre + format_line(line, sec));
                }
            } else if lv.len() == 0 {
                out.append("\n");
                proof {
                    assert(out@ =~= pre + format_line(line, sec));
                }
            } else {
                out.append(lines[i].as_str());
                out.append("\n");
                proof {
                    assert(out@ =~= pre + format_line(line, sec));
                }
            }
            proof {
                assert(in_section == enters_section(line, sec));
                assert(pre + (format_line(line, sec) + format_lines_spec(
                    ldv.skip(i + 1),
                    in_section,
                )) =~= (pre + format_line(line, sec)) + format_lines_spec(
                    ldv.skip(i + 1),
                    in_section,
                ));
            }
            i = i + 1;
        }
        proof {
            assert(ldv.skip(lines@.len() as int) =~= Seq::<Seq<char>>::empty());
            assert(out@ + Seq::<char>::empty() =~= out@);
        }
        out
    }

    /// Resolves a user-given note name to its file name for loading.
    pub fn resolve_load_name(name: &str) -> (r: String)
        ensures
            r@ == load_name_spec(name@),
    {
        let chars = str_chars(name);
        if ends_with_in(&chars, ".md") {
            name.to_owned()
        } else {
            let mut out = name.to_owned();
            out.append(".md");
            out
        }
    }

    /// The file name of an explicitly named save.
    pub fn resolve_explicit_name(name: &str) -> (r: String)
        ensures
            r@ == explicit_name_spec(name@),
    {
        let mut out = name.to_owned();
        out.append(".md");
        out
    }

    /// The file name of an automatically named save: a timestamped name.
    pub fn auto_file_name() -> (r: String)
        ensures
            exists|stamp: Seq<char>| r@ == auto_name_spec(stamp) && stamp.len() >= 15,
    {
        let stamp = now_stamp();
        let mut out = String::from_str("note_");
        out.append(stamp.as_str());
        out.append(".md");
        proof {
            assert(out@ == auto_name_spec(stamp@) && stamp@.len() >= 15);
        }
        out
    }

    /// Whether a directory entry name is a note file's.
    pub fn md_name(name: &str) -> (r: bool)
        ensures
            r == is_md_name(name@),
    {
        let chars = str_chars(name);
        chars.len() > 3 && ends_with_in(&chars, ".md")
    }

    /// The names of the scanned notes carrying `tag`, compared without case.
    pub fn find_notes_by_tag(entries: &Vec<ScanEntry>, tag: &str) -> (r: Vec<String>)
        ensures
            r.deep_view() == find_by_tag_spec(entries.deep_view(), tag@),
    {
        let q_low = lowercase(tag);
        let ghost edv = entries.deep_view();
        let mut acc: Vec<String> = Vec::new();
        let mut i: usize = 0;
        proof {
            assert(edv.skip(0) =~= edv);
            assert(acc.deep_view() =~~= Seq::<Seq<char>>::empty());
            assert(Seq::<Seq<char>>::empty() + find_by_tag_spec(edv, tag@) =~= find_by_tag_spec(
                edv,
                tag@,
            ));
        }
        while i < entries.len()
            invariant
                edv == entries.deep_view(),
                edv.len() == entries@.len(),
                i <= entries@.len(),
                q_low@ == lower_seq(tag@),
                acc.deep_view() + find_by_tag_spec(edv.skip(i as int), tag@) == find_by_tag_spec(
                    edv,
                    tag@,
                ),
            decreases entries@.len() - i,
        {
            let e = &entries[i];
            let ghost em = edv[i as int];
            proof {
                assert(em == entries@[i as int]@);
                assert(edv.skip(i as int)[0] == em);
                assert(edv.skip(i as int).drop_first() =~= edv.skip(i + 1));
            }
            let mut matched: bool = false;
            if FileOperations::md_name(e.name.as_str()) {
                let decoded = FileOperations::decode_note(e.content.as_str());
                let tags = decoded.1;
                let ghost tdv = tags.deep_view();
                let mut k: usize = 0;
                while k < tags.len()
                    invariant
                        tdv == tags.deep_view(),
                        tdv.len() == tags@.len(),
                        k <= tags@.len(),
                        q_low@ == lower_seq(tag@),
                        !matched ==> forall|q: int| 0 <= q < k ==> lower_seq(#[trigger] tdv[q])
                            != lower_seq(tag@),
                        matched ==> exists|q: int|
                            0 <= q < tdv.len() && lower_seq(#[trigger] tdv[q]) == lower_seq(tag@),
                    decreases tags@.len() - k,
                {
                    proof {
                        assert(tdv[k as int] =~~= tags@[k as int]@);
                    }
                    let t_low = lowercase(tags[k].as_str());
                    if t_low.eq(&q_low) {
                        matched = true;
                        proof {
                            assert(lower_seq(tdv[k as int]) == lower_seq(tag@));
                        }
                    }
                    k = k + 1;
                }
                proof {
                    assert(tdv == entry_tags(em));
                }
            }
            proof {
                assert(matched == entry_matches_tag(em, tag@));
            }
            if matched {
                let ghost pre = acc.deep_view();
                let name = e.name.clone();
                let ghost namev = name@;
                acc.push(name);
                proof {
                    assert(acc.deep_view() =~~= pre + seq![namev]);
                    assert(namev == em.name);
                    assert((pre + seq![em.name]) + find_by_tag_spec(edv.skip(i + 1), tag@) =~= pre
                        + (seq![em.name] + find_by_tag_spec(edv.skip(i + 1), tag@)));
                }
            } else {
                proof {
                    assert(Seq::<Seq<char>>::empty() + find_by_tag_spec(edv.skip(i + 1), tag@)
                        =~= find_by_tag_spec(edv.skip(i + 1), tag@));
                }
            }
            i = i + 1;
        }
        proof {
            assert(edv.skip(entries@.len() as int) =~= Seq::<EntryModel>::empty());
            assert(acc.deep_view() + Seq::<Seq<char>>::empty() =~= acc.deep_view());
        }
        acc
    }

    /// The tag frequency table over the session's tags and every scanned
    /// note's tags, keys in first-encountered order.
    pub fn get_all_tags(entries: &Vec<ScanEntry>, current_tags: &Vec<String>) -> (r: Vec<
        (String, usize),
    >)
        ensures
            counts_view(r@) == all_tag_counts(current_tags.deep_view(), entries.deep_view()),
    {
        let mut out: Vec<(String, usize)> = Vec::new();
        let ghost cdv = current_tags.deep_view();
        let ghost base = bump_all(Seq::empty(), cdv);
        let mut i: usize = 0;
        proof {
            assert(counts_view(out@) =~= Seq::<(Seq<char>, int)>::empty());
            assert(cdv.skip(0) =~= cdv);
        }
        while i < current_tags.len()
            invariant
                cdv == current_tags.deep_view(),
                cdv.len() == current_tags@.len(),
                i <= current_tags@.len(),
                bump_all(counts_view(out@), cdv.skip(i as int)) == base,
            decreases current_tags@.len() - i,
        {
            proof {
                assert(cdv.skip(i as int)[0] =~~= current_tags@[i as int]@);
                assert(cdv.skip(i as int).drop_first() =~= cdv.skip(i + 1));
            }
            bump_in(&mut out, &current_tags[i]);
            i = i + 1;
        }
        proof {
            assert(cdv.skip(current_tags@.len() as int) =~= Seq::<Seq<char>>::empty());
        }
        let ghost edv = entries.deep_view();
        let mut j: usize = 0;
        proof {
            assert(edv.skip(0) =~= edv);
        }
        while j < entries.len()
            invariant
                edv == entries.deep_view(),
                edv.len() == entries@.len(),
                j <= entries@.len(),
                entry_counts(counts_view(out@), edv.skip(j as int)) == entry_counts(base, edv),
            decreases entries@.len() - j,
        {
            let e = &entries[j];
            let ghost em = edv[j as int];
            proof {
                assert(em == entries@[j as int]@);
                assert(edv.skip(j as int)[0] == em);
                assert(edv.skip(j as int).drop_first() =~= edv.skip(j + 1));
            }
            if FileOperations::md_name(e.name.as_str()) {
                let decoded = FileOperations::decode_note(e.content.as_str());
                let tags = decoded.1;
                let ghost tdv = tags.deep_view();
                let ghost mid = bump_all(counts_view(out@), tdv);
                proof {
                    assert(tdv == entry_tags(em));
                    assert(tdv.skip(0) =~= tdv);
                }
                let mut k: usize = 0;
                while k < tags.len()
                    invariant
                        tdv == tags.deep_view(),
                        tdv.len() == tags@.len(),
                        k <= tags@.len(),
                        bump_all(counts_view(out@), tdv.skip(k as int)) == mid,
                    decreases tags@.len() - k,
                {
                    proof {
                        assert(tdv.skip(k as int)[0] =~~= tags@[k as int]@);
                        assert(tdv.skip(k as int).drop_first() =~= tdv.skip(k + 1));
                    }
                    bump_in(&mut out, &tags[k]);
                    k = k + 1;
                }
                proof {
                    assert(tdv.skip(tags@.len() as int) =~= Seq::<Seq<char>>::empty());
                }
            }
            j = j + 1;
        }
        proof {
            assert(edv.skip(entries@.len() as int) =~= Seq::<EntryModel>::empty());
        }
        out
    }
}

/// The listing rows of the scanned notes, in scan order.
pub open spec fn listings_of(es: Seq<EntryModel>) -> Seq<ListingModel>
    decreases es.len(),
{
    if es.len() == 0 {
        Seq::empty()
    } else {
        (if is_md_name(es[0].name) {
            seq![
                ListingModel {
                    name: es[0].name,
                    mtime: es[0].mtime,
                    tags: entry_tags(es[0]),
                },
            ]
        } else {
            Seq::empty()
        }) + listings_of(es.drop_first())
    }
}

/// Sorts listing rows by modification time, newest first. The rows are
/// rearranged and nothing else: the multiset of rows is unchanged.
fn sort_listings_desc(rows: Vec<NoteListing>) -> (r: Vec<NoteListing>)
    ensures
        r.deep_view().to_multiset() == rows.deep_view().to_multiset(),
        forall|a: int, b: int| 0 <= a <= b < r@.len() ==> r@[a].mtime >= r@[b].mtime,
{
    broadcast use vstd::seq_lib::group_to_multiset_ensures;

    let ghost orig = rows.deep_view().to_multiset();
    let mut src = rows;
    let mut out: Vec<NoteListing> = Vec::new();
    proof {
        assert(out.deep_view().to_multiset().add(src.deep_view().to_multiset()) =~= orig);
    }
    while src.len() > 0
        invariant
            out.deep_view().to_multiset().add(src.deep_view().to_multiset()) == orig,
            out.deep_view().len() == out@.len(),
            src.deep_view().len() == src@.len(),
            forall|a: int, b: int| 0 <= a <= b < out@.len() ==> out@[a].mtime >= out@[b].mtime,
            forall|a: int, b: int|
                0 <= a < out@.len() && 0 <= b < src@.len() ==> out@[a].mtime >= src@[b].mtime,
        decreases src@.len(),
    {
        let n = src.len();
        let mut best: usize = 0;
        let mut k: usize = 1;
        while k < n
            invariant
                n == src@.len(),
                best < k <= n,
                forall|q: int| 0 <= q < k ==> src@[best as int].mtime >= src@[q].mtime,
            decreases n - k,
        {
            if src[k].mtime > src[best].mtime {
                best = k;
            }
            k = k + 1;
        }
        let ghost presrc = src.deep_view();
        let ghost preout = out.deep_view();
        let x = src.remove(best);
        let ghost xv = x.deep_view();
        proof {
            broadcast use vstd::seq_lib::group_to_multiset_ensures;

            assert(src.deep_view() =~~= presrc.remove(best as int));
            assert(xv == presrc[best as int]);
            assert(presrc.remove(best as int).to_multiset() =~= presrc.to_multiset().remove(xv));
        }
        out.push(x);
        proof {
            broadcast use vstd::seq_lib::group_to_multiset_ensures;

            assert(out.deep_view() =~~= preout.push(xv));
            assert(preout.push(xv).to_multiset() =~= preout.to_multiset().insert(xv));
            assert(out.deep_view().to_multiset().add(src.deep_view().to_multiset()) =~= orig);
            assert(forall|b: int|
                0 <= b < src@.len() ==> out@[out@.len() - 1].mtime >= src@[b].mtime);
        }
    }
    proof {
        assert(src.deep_view().to_multiset() =~= Multiset::<ListingModel>::empty());
        assert(out.deep_view().to_multiset() =~= orig);
    }
    out
}

impl FileOperations {
    /// The scanned notes as listing rows -- name, modification time, tags --
    /// newest first.
    pub fn list_saved_notes(entries: &Vec<ScanEntry>) -> (r: Vec<NoteListing>)
        ensures
            r.deep_view().to_multiset() == listings_of(entries.deep_view()).to_multiset(),
            forall|a: int, b: int| 0 <= a <= b < r@.len() ==> r@[a].mtime >= r@[b].mtime,
    {
        let ghost edv = entries.deep_view();
        let mut rows: Vec<NoteListing> = Vec::new();
        let mut i: usize = 0;
        proof {
            assert(edv.skip(0) =~= edv);
            assert(rows.deep_view() =~~= Seq::<ListingModel>::empty());
            assert(Seq::<ListingModel>::empty() + listings_of(edv) =~= listings_of(edv));
        }
        while i < entries.len()
            invariant
                edv == entries.deep_view(),
                edv.len() == entries@.len(),
                i <= entries@.len(),
                rows.deep_view() + listings_of(edv.skip(i as int)) == listings_of(edv),
            decreases entries@.len() - i,
        {
            let e = &entries[i];
            let ghost em = edv[i as int];
            proof {
                assert(em == entries@[i as int]@);
                assert(edv.skip(i as int)[0] == em);
                assert(edv.skip(i as int).drop_first() =~= edv.skip(i + 1));
            }
            if FileOperations::md_name(e.name.as_str()) {
                let decoded = FileOperations::decode_note(e.content.as_str());
                let row = NoteListing { name: e.name.clone(), mtime: e.mtime, tags: decoded.1 };
                let ghost pre = rows.deep_view();
                let ghost rowv = row.deep_view();
                proof {
                    assert(rowv == ListingModel { name: em.name, mtime: em.mtime, tags: entry_tags(em) });
                }
                rows.push(row);
                proof {
                    assert(rows.deep_view() =~~= pre + seq![rowv]);
                    assert((pre + seq![rowv]) + listings_of(edv.skip(i + 1)) =~= pre + (seq![rowv]
                        + listings_of(edv.skip(i + 1))));
                }
            } else {
                proof {
                    assert(Seq::<ListingModel>::empty() + listings_of(edv.skip(i + 1))
                        =~= listings_of(edv.skip(i + 1)));
                }
            }
            i = i + 1;
        }
        proof {
            assert(edv.skip(entries@.len() as int) =~= Seq::<EntryModel>::empty());
            assert(rows.deep_view() + Seq::<ListingModel>::empty() =~= rows.deep_view());
        }
        sort_listings_desc(rows)
    }
}

} // verus!
