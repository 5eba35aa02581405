//! The statistics engine: a point-in-time snapshot of the current note and
//! the whole notes directory, computed from plain scan values.

use vstd::prelude::*;
use vstd::utf8::encode_utf8;

use crate::notefile::{bump_all, counts_view, entry_tags, is_md_name, EntryModel, ScanEntry};
use crate::text::{
    append_dec, dec_str, lines_of, split_lines, str_chars, tokenize, tokens,
};

verus! {

/// A statistics snapshot: counts of the current note, size and age of its
/// backing file, and directory-wide totals with the two most used tags.
pub struct NoteStats {
    pub lines: usize,
    pub words: usize,
    pub chars: usize,
    pub size_bytes: u64,
    pub last_modified: String,
    pub total_notes: usize,
    pub total_size: String,
    pub top_tags: Vec<(String, usize)>,
}

/// The mathematical shape of a snapshot.
pub struct StatsModel {
    pub lines: int,
    pub words: int,
    pub chars: int,
    pub size_bytes: int,
    pub last_modified: Seq<char>,
    pub total_notes: int,
    pub total_size: Seq<char>,
    pub top_tags: Seq<(Seq<char>, int)>,
}

impl View for NoteStats {
    type V = StatsModel;

    open spec fn view(&self) -> StatsModel {
        StatsModel {
            lines: self.lines as int,
            words: self.words as int,
            chars: self.chars as int,
            size_bytes: self.size_bytes as int,
            last_modified: self.last_modified@,
            total_notes: self.total_notes as int,
            total_size: self.total_size@,
            top_tags: counts_view(self.top_tags@),
        }
    }
}

impl DeepView for NoteStats {
    type V = StatsModel;

    open spec fn deep_view(&self) -> StatsModel {
        self.view()
    }
}

/// The backing file's metadata, where the caller could read it: the byte
/// size and a rendered modification time.
pub struct FileMeta {
    pub size: u64,
    pub modified_label: String,
}

/// The mathematical shape of backing-file metadata.
pub struct MetaModel {
    pub size: u64,
    pub label: Seq<char>,
}

impl View for FileMeta {
    type V = MetaModel;

    open spec fn view(&self) -> MetaModel {
        MetaModel { size: self.size, label: self.modified_label@ }
    }
}

impl DeepView for FileMeta {
    type V = MetaModel;

    open spec fn deep_view(&self) -> MetaModel {
        self.view()
    }
}

/// Whether a scanned file counts toward directory totals: a note file other
/// than the current note's own backing file.
pub open spec fn counted(e: EntryModel, current: Option<Seq<char>>) -> bool {
    is_md_name(e.name) && match current {
        Option::Some(c) => e.name != c,
        Option::None => true,
    }
}

/// How many scanned files count toward the directory totals.
pub open spec fn dir_count(es: Seq<EntryModel>, current: Option<Seq<char>>) -> int
    decreases es.len(),
{
    if es.len() == 0 {
        0
    } else {
        (if counted(es[0], current) {
            1int
        } else {
            0int
        }) + dir_count(es.drop_first(), current)
    }
}

/// The byte total of the scanned files that count.
pub open spec fn dir_size(es: Seq<EntryModel>, current: Option<Seq<char>>) -> int
    decreases es.len(),
{
    if es.len() == 0 {
        0
    } else {
        (if counted(es[0], current) {
            es[0].size as int
        } else {
            0int
        }) + dir_size(es.drop_first(), current)
    }
}

proof fn lemma_dir_size_nonneg(es: Seq<EntryModel>, current: Option<Seq<char>>)
    ensures
        dir_size(es, current) >= 0,
    decreases es.len(),
{
    if es.len() > 0 {
        lemma_dir_size_nonneg(es.drop_first(), current);
    }
}

proof fn lemma_dir_count_bound(es: Seq<EntryModel>, current: Option<Seq<char>>)
    ensures
        0 <= dir_count(es, current) <= es.len(),
    decreases es.len(),
{
    if es.len() > 0 {
        lemma_dir_count_bound(es.drop_first(), current);
    }
}

/// The tag table the snapshot reduces: the session's own tags, then the
/// tags of every counted file, in scan order.
pub open spec fn stats_entry_counts(
    m: Seq<(Seq<char>, int)>,
    es: Seq<EntryModel>,
    current: Option<Seq<char>>,
) -> Seq<(Seq<char>, int)>
    decreases es.len(),
{
    if es.len() == 0 {
        m
    } else {
        stats_entry_counts(
            if counted(es[0], current) {
                bump_all(m, entry_tags(es[0]))
            } else {
                m
            },
            es.drop_first(),
            current,
        )
    }
}

/// The full tag table a snapshot is reduced from.
pub open spec fn stats_tag_counts(
    ctags: Seq<Seq<char>>,
    es: Seq<EntryModel>,
    current: Option<Seq<char>>,
) -> Seq<(Seq<char>, int)> {
    stats_entry_counts(bump_all(Seq::empty(), ctags), es, current)
}

/// The index of the first entry with the greatest count.
pub open spec fn arg_best(m: Seq<(Seq<char>, int)>) -> int
    decreases m.len(),
{
    if m.len() <= 1 {
        0
    } else {
        let r = 1 + arg_best(m.drop_first());
        if m[0].1 >= m[r].1 {
            0
        } else {
            r
        }
    }
}

proof fn lemma_arg_best(m: Seq<(Seq<char>, int)>)
    requires
        m.len() > 0,
    ensures
        0 <= arg_best(m) < m.len(),
        forall|q: int| 0 <= q < m.len() ==> m[arg_best(m)].1 >= (#[trigger] m[q]).1,
        forall|q: int| 0 <= q < arg_best(m) ==> (#[trigger] m[q]).1 < m[arg_best(m)].1,
    decreases m.len(),
{
    if m.len() > 1 {
        let d = m.drop_first();
        lemma_arg_best(d);
        let r = 1 + arg_best(d);
        assert(forall|q: int| 0 <= q < d.len() ==> d[q] == m[q + 1]);
        assert(m[r] == d[arg_best(d)]);
        assert forall|q: int| 0 <= q < m.len() implies m[arg_best(m)].1 >= (#[trigger] m[q]).1 by {
            if q > 0 {
                assert(d[q - 1] == m[q]);
                assert(d[arg_best(d)].1 >= d[q - 1].1);
            }
        }
        assert forall|q: int| 0 <= q < arg_best(m) implies (#[trigger] m[q]).1 < m[arg_best(
            m,
        )].1 by {
            if q > 0 {
                assert(d[q - 1] == m[q]);
                assert(d[q - 1].1 < d[arg_best(d)].1);
            }
        }
    }
}

/// The top two tags by count, ties broken by first-encountered order: the
/// first maximum, then the first maximum of what remains.
pub open spec fn top_tags_spec(m: Seq<(Seq<char>, int)>) -> Seq<(Seq<char>, int)> {
    if m.len() == 0 {
        Seq::empty()
    } else if m.len() == 1 {
        m
    } else {
        let i = arg_best(m);
        let rest = m.remove(i);
        seq![m[i], rest[arg_best(rest)]]
    }
}

/// The rendering of a byte total: plain bytes below one KiB, otherwise
/// KiB or MiB to one decimal, rounded half up.
pub open spec fn render_size(n: int) -> Seq<char> {
    if n < 1024 {
        dec_str(n) + "B"@
    } else if n < 1048576 {
        let tenths = (n * 10 + 512) / 1024;
        dec_str(tenths / 10) + "."@ + dec_str(tenths % 10) + "KB"@
    } else {
        let tenths = (n * 10 + 524288) / 1048576;
        dec_str(tenths / 10) + "."@ + dec_str(tenths % 10) + "MB"@
    }
}

/// The byte length of a body held in memory, as the machine reports it.
pub open spec fn byte_len_of(s: Seq<char>) -> int {
    encode_utf8(s).len() as usize as int
}

/// The snapshot of a session over a directory scan. The directory byte
/// total saturates at the machine's largest 64-bit value.
pub open spec fn stats_spec(
    content: Seq<char>,
    current: Option<Seq<char>>,
    es: Seq<EntryModel>,
    ctags: Seq<Seq<char>>,
    meta: Option<MetaModel>,
) -> StatsModel {
    let sb = match meta {
        Option::Some(mm) => mm.size as int,
        Option::None => byte_len_of(content),
    };
    let total = if sb + dir_size(es, current) <= u64::MAX {
        sb + dir_size(es, current)
    } else {
        u64::MAX as int
    };
    StatsModel {
        lines: lines_of(content).len() as int,
        words: tokens(content).len() as int,
        chars: content.len() as int,
        size_bytes: sb,
        last_modified: match meta {
            Option::Some(mm) => mm.label,
            Option::None => "not saved yet"@,
        },
        total_notes: dir_count(es, current) + (if content.len() > 0 || current is Some {
            1int
        } else {
            0int
        }),
        total_size: render_size(total),
        top_tags: top_tags_spec(stats_tag_counts(ctags, es, current)),
    }
}

/// Renders a byte count per `render_size`.
pub fn render_size_x(n: u64) -> (r: String)
    ensures
        r@ == render_size(n as int),
{
    let mut out = String::new();
    if n < 1024 {
        append_dec(&mut out, n);
        out.append("B");
        proof {
            assert(out@ =~= render_size(n as int));
        }
    } else if n < 1048576 {
        let tenths = (n * 10 + 512) / 1024;
        append_dec(&mut out, tenths / 10);
        out.append(".");
        append_dec(&mut out, tenths % 10);
        out.append("KB");
        proof {
            assert(out@ =~= render_size(n as int));
        }
    } else {
        let wide = ((n as u128) * 10 + 524288) / 1048576;
        let tenths = wide as u64;
        proof {
            assert(wide == ((n as int) * 10 + 524288) / 1048576);
            assert(wide <= 0xffff_ffff_ffff_ffffu128) by {
                assert((n as int) * 10 + 524288 <= u64::MAX as int * 10 + 524288);
            }
            assert(tenths as int == ((n as int) * 10 + 524288) / 1048576);
        }
        append_dec(&mut out, tenths / 10);
        out.append(".");
        append_dec(&mut out, tenths % 10);
        out.append("MB");
        proof {
            assert(out@ =~= render_size(n as int));
        }
    }
    out
}

/// Reduces a frequency table to its top two entries.
fn top_tags_x(m: Vec<(String, usize)>) -> (r: Vec<(String, usize)>)
    ensures
        counts_view(r@) == top_tags_spec(counts_view(m@)),
{
    let ghost mv = counts_view(m@);
    let n = m.len();
    if n <= 1 {
        return m;
    }
    let mut best: usize = 0;
    let mut k: usize = 1;
    while k < n
        invariant
            mv == counts_view(m@),
            mv.len() == n,
            n == m@.len(),
            best < k <= n,
            forall|q: int| 0 <= q < k ==> mv[best as int].1 >= (#[trigger] mv[q]).1,
            forall|q: int| 0 <= q < best ==> (#[trigger] mv[q]).1 < mv[best as int].1,
        decreases n - k,
    {
        proof {
            assert(mv[k as int] == (m@[k as int].0@, m@[k as int].1 as int));
            assert(mv[best as int] == (m@[best as int].0@, m@[best as int].1 as int));
        }
        if m[k].1 > m[best].1 {
            best = k;
        }
        k = k + 1;
    }
    proof {
        lemma_arg_best(mv);
        let ab = arg_best(mv);
        if ab < best as int {
            assert(mv[ab].1 < mv[best as int].1);
            assert(false);
        }
        if (best as int) < ab {
            assert(mv[best as int].1 < mv[ab].1);
            assert(false);
        }
        assert(best as int == ab);
    }
    let mut src = m;
    let x1 = src.remove(best);
    let ghost rest = counts_view(src@);
    proof {
        assert(rest =~= mv.remove(best as int));
    }
    let rn = src.len();
    let mut b2: usize = 0;
    let mut t: usize = 1;
    while t < rn
        invariant
            rest == counts_view(src@),
            rest.len() == rn,
            rn == src@.len(),
            rn >= 1,
            b2 < t <= rn,
            forall|q: int| 0 <= q < t ==> rest[b2 as int].1 >= (#[trigger] rest[q]).1,
            forall|q: int| 0 <= q < b2 ==> (#[trigger] rest[q]).1 < rest[b2 as int].1,
        decreases rn - t,
    {
        proof {
            assert(rest[t as int] == (src@[t as int].0@, src@[t as int].1 as int));
            assert(rest[b2 as int] == (src@[b2 as int].0@, src@[b2 as int].1 as int));
        }
        if src[t].1 > src[b2].1 {
            b2 = t;
        }
        t = t + 1;
    }
    proof {
        lemma_arg_best(rest);
        let ab = arg_best(rest);
        if ab < b2 as int {
            assert(rest[ab].1 < rest[b2 as int].1);
            assert(false);
        }
        if (b2 as int) < ab {
            assert(rest[b2 as int].1 < rest[ab].1);
            assert(false);
        }
        assert(b2 as int == ab);
        assert(rest[b2 as int] == (src@[b2 as int].0@, src@[b2 as int].1 as int));
    }
    let x2 = (src[b2].0.clone(), src[b2].1);
    let mut out: Vec<(String, usize)> = Vec::new();
    let ghost x1v = (x1.0@, x1.1 as int);
    let ghost x2v = (x2.0@, x2.1 as int);
    out.push(x1);
    out.push(x2);
    proof {
        assert(x1v == mv[arg_best(mv)]);
        assert(x2v == rest[arg_best(rest)]);
        assert(counts_view(out@) =~= seq![x1v, x2v]);
        assert(counts_view(out@) =~= top_tags_spec(mv));
    }
    out
}

/// The statistics calculator: one snapshot from plain scan values.
pub struct StatsCalculator;

impl StatsCalculator {
    /// Computes a snapshot of the current note and the scanned directory.
    /// The scan is handed in as plain values: one entry per directory file,
    /// and the backing file's metadata where the caller could read it.
    pub fn calculate_note_stats(
        content: &str,
        current_file: &Option<String>,
        entries: &Vec<ScanEntry>,
        current_tags: &Vec<String>,
        current_meta: &Option<FileMeta>,
    ) -> (r: NoteStats)
        requires
            entries@.len() < usize::MAX,
        ensures
            r@ == stats_spec(
                content@,
                current_file.deep_view(),
                entries.deep_view(),
                current_tags.deep_view(),
                current_meta.deep_view(),
            ),
    {
        let ghost cur = current_file.deep_view();
        let ghost edv = entries.deep_view();
        let ghost spec_result = stats_spec(
            content@,
            cur,
            edv,
            current_tags.deep_view(),
            current_meta.deep_view(),
        );
        let chars_v = str_chars(content);
        let lines_v = split_lines(content);
        let words_v = tokenize(&chars_v);
        let lines = lines_v.len();
        let words = words_v.len();
        let chars = content.unicode_len();
        proof {
            assert(lines_v.deep_view().len() == lines_v@.len());
            assert(words_v.deep_view().len() == words_v@.len());
        }
        let size_bytes: u64;
        let last_modified: String;
        match current_meta {
            Option::Some(meta) => {
                size_bytes = meta.size;
                last_modified = meta.modified_label.clone();
            },
            Option::None => {
                size_bytes = content.len() as u64;
                last_modified = String::from_str("not saved yet");
            },
        }
        let ghost sb = size_bytes as int;
        proof {
            assert(sb == match current_meta.deep_view() {
                Option::Some(mm) => mm.size as int,
                Option::None => byte_len_of(content@),
            });
        }
        let mut table: Vec<(String, usize)> = Vec::new();
        let ghost cdv = current_tags.deep_view();
        let ghost base = bump_all(Seq::empty(), cdv);
        let mut i: usize = 0;
        proof {
            assert(counts_view(table@) =~= Seq::<(Seq<char>, int)>::empty());
            assert(cdv.skip(0) =~= cdv);
        }
        while i < current_tags.len()
            invariant
                cdv == current_tags.deep_view(),
                cdv.len() == current_tags@.len(),
                i <= current_tags@.len(),
                bump_all(counts_view(table@), cdv.skip(i as int)) == base,
            decreases current_tags@.len() - i,
        {
            proof {
                assert(cdv.skip(i as int)[0] =~~= current_tags@[i as int]@);
                assert(cdv.skip(i as int).drop_first() =~= cdv.skip(i + 1));
            }
            crate::notefile::bump_in(&mut table, &current_tags[i]);
            i = i + 1;
        }
        proof {
            assert(cdv.skip(current_tags@.len() as int) =~= Seq::<Seq<char>>::empty());
        }
        let mut total_notes: usize = 0;
        let mut total_size: u64 = size_bytes;
        let en = entries.len();
        let mut j: usize = 0;
        proof {
            assert(edv.skip(0) =~= edv);
        }
        while j < en
            invariant
                edv == entries.deep_view(),
                edv.len() == en,
                en == entries@.len(),
                en < usize::MAX,
                j <= en,
                cur == current_file.deep_view(),
                total_notes <= j,
                total_notes + dir_count(edv.skip(j as int), cur) == dir_count(edv, cur),
                (if total_size + dir_size(edv.skip(j as int), cur) <= u64::MAX {
                    total_size + dir_size(edv.skip(j as int), cur)
                } else {
                    u64::MAX as int
                }) == (if sb + dir_size(edv, cur) <= u64::MAX {
                    sb + dir_size(edv, cur)
                } else {
                    u64::MAX as int
                }),
                stats_entry_counts(counts_view(table@), edv.skip(j as int), cur)
                    == stats_entry_counts(base, edv, cur),
            decreases en - j,
        {
            let e = &entries[j];
            let ghost em = edv[j as int];
            proof {
                assert(em == entries@[j as int]@);
                assert(edv.skip(j as int)[0] == em);
                assert(edv.skip(j as int).drop_first() =~= edv.skip(j + 1));
                lemma_dir_size_nonneg(edv.skip(j + 1), cur);
            }
            let mut is_counted = crate::notefile::FileOperations::md_name(e.name.as_str());
            if is_counted {
                match current_file {
                    Option::Some(c) => {
                        if e.name.eq(c) {
                            is_counted = false;
                        }
                    },
                    Option::None => {},
                }
            }
            proof {
                assert(is_counted == counted(em, cur));
            }
            if is_counted {
                total_notes = total_notes + 1;
                match total_size.checked_add(e.size) {
                    Option::Some(v) => {
                        total_size = v;
                    },
                    Option::None => {
                        total_size = u64::MAX;
                    },
                }
                let decoded = crate::notefile::FileOperations::decode_note(e.content.as_str());
                let tags = decoded.1;
                let ghost tdv = tags.deep_view();
                let ghost mid = bump_all(counts_view(table@), tdv);
                proof {
                    assert(tdv == entry_tags(em));
                    assert(tdv.skip(0) =~= tdv);
                }
                let mut k: usize = 0;
                while k < tags.len()
                    invariant
                        tdv == tags.deep_view(),
                        tdv.len() == tags@.len(),
                        k <= tags@.len(),
                        bump_all(counts_view(table@), tdv.skip(k as int)) == mid,
                    decreases tags@.len() - k,
                {
                    proof {
                        assert(tdv.skip(k as int)[0] =~~= tags@[k as int]@);
                        assert(tdv.skip(k as int).drop_first() =~= tdv.skip(k + 1));
                    }
                    crate::notefile::bump_in(&mut table, &tags[k]);
                    k = k + 1;
                }
                proof {
                    assert(tdv.skip(tags@.len() as int) =~= Seq::<Seq<char>>::empty());
                }
            }
            j = j + 1;
        }
        proof {
            assert(edv.skip(en as int) =~= Seq::<EntryModel>::empty());
            lemma_dir_count_bound(edv, cur);
        }
        if !content.is_empty() || current_file.is_some() {
            total_notes = total_notes + 1;
        }
        let total_size_str = render_size_x(total_size);
        let top = top_tags_x(table);
        let r = NoteStats {
            lines,
            words,
            chars,
            size_bytes,
            last_modified,
            total_notes,
            total_size: total_size_str,
            top_tags: top,
        };
        proof {
            assert(r@ == spec_result);
        }
        r
    }
}

} // verus!
