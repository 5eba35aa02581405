//! Character-sequence utilities shared by the parser, the note codec and
//! the statistics engine: trimming, tokenizing, searching, joining and
//! splitting, decimal rendering.

use vstd::prelude::*;

verus! {

/// Whether a character counts as whitespace for trimming and tokenizing.
pub open spec fn is_space(c: char) -> bool {
    c == ' ' || c == '\t' || c == '\n' || c == '\r'
}

/// Executable test matching `is_space`.
pub fn space_char(c: char) -> (r: bool)
    ensures
        r == is_space(c),
{
    c == ' ' || c == '\t' || c == '\n' || c == '\r'
}

/// The characters of a string slice, as a vector.
pub fn str_chars(s: &str) -> (r: Vec<char>)
    ensures
        r@ == s@,
{
    let n = s.unicode_len();
    let mut r: Vec<char> = Vec::new();
    let mut i: usize = 0;
    while i < n
        invariant
            n == s@.len(),
            i <= n,
            r@ == s@.take(i as int),
        decreases n - i,
    {
        r.push(s.get_char(i));
        i = i + 1;
        proof {
            assert(s@.take(i as int) =~= s@.take(i - 1).push(s@[i - 1]));
        }
    }
    proof {
        assert(s@.take(n as int) =~= s@);
    }
    r
}

/// Relies on `core::iter::Iterator::collect` for `String`: collecting the
/// characters of a vector yields the string of exactly those characters.
#[verifier::external_body]
pub fn chars_to_string(v: &Vec<char>) -> (r: String)
    ensures
        r@ == v@,
{
    v.iter().collect()
}

/// Character-for-character equality of a vector and a string slice.
pub fn chars_eq_str(v: &Vec<char>, s: &str) -> (r: bool)
    ensures
        r == (v@ == s@),
{
    let n = s.unicode_len();
    if v.len() != n {
        proof {
            assert(v@ != s@) by {
                assert(v@.len() != s@.len());
            }
        }
        return false;
    }
    let mut i: usize = 0;
    while i < n
        invariant
            n == s@.len(),
            v@.len() == n,
            i <= n,
            forall|j: int| 0 <= j < i ==> v@[j] == s@[j],
        decreases n - i,
    {
        if v[i] != s.get_char(i) {
            return false;
        }
        i = i + 1;
    }
    proof {
        assert(v@ =~= s@);
    }
    true
}

/// True when `pat` occurs in `s` starting at position `j`.
pub open spec fn match_at(s: Seq<char>, pat: Seq<char>, j: int) -> bool {
    0 <= j && j + pat.len() <= s.len() && s.subrange(j, j + pat.len()) == pat
}

/// The position of the first occurrence of `pat` in `s` at or after `i`.
pub open spec fn find_from(s: Seq<char>, pat: Seq<char>, i: int) -> Option<int>
    decreases s.len() - i + 1,
{
    if i < 0 || i + pat.len() > s.len() {
        None
    } else if s.subrange(i, i + pat.len()) == pat {
        Some(i)
    } else {
        find_from(s, pat, i + 1)
    }
}

/// A match at `k` with no earlier match pins down `find_from`.
pub proof fn lemma_find_from_some(s: Seq<char>, pat: Seq<char>, i: int, k: int)
    requires
        0 <= i <= k,
        match_at(s, pat, k),
        forall|j: int| i <= j < k ==> !match_at(s, pat, j),
    ensures
        find_from(s, pat, i) == Some(k),
    decreases k - i,
{
    if i < k {
        assert(!match_at(s, pat, i));
        lemma_find_from_some(s, pat, i + 1, k);
    }
}

/// No match anywhere at or after `i` means `find_from` reports none.
proof fn lemma_find_from_none(s: Seq<char>, pat: Seq<char>, i: int)
    requires
        0 <= i,
        forall|j: int| i <= j ==> !match_at(s, pat, j),
    ensures
        find_from(s, pat, i) is None,
    decreases s.len() - i + 1,
{
    if i + pat.len() <= s.len() {
        assert(!match_at(s, pat, i));
        lemma_find_from_none(s, pat, i + 1);
    }
}

/// The first occurrence of `pat` in `v` at or after `from`, executable.
pub fn find_in(v: &Vec<char>, pat: &str, from: usize) -> (r: Option<usize>)
    ensures
        r is Some ==> find_from(v@, pat@, from as int) == Some(r->Some_0 as int),
        r is None ==> find_from(v@, pat@, from as int) is None,
{
    let plen = pat.unicode_len();
    let vlen = v.len();
    if plen > vlen || from > vlen - plen {
        proof {
            assert forall|j: int| from as int <= j implies !match_at(v@, pat@, j) by {}
            lemma_find_from_none(v@, pat@, from as int);
        }
        return None;
    }
    if plen == 0 {
        proof {
            assert(v@.subrange(from as int, from as int) =~= pat@);
            assert(match_at(v@, pat@, from as int));
            lemma_find_from_some(v@, pat@, from as int, from as int);
        }
        return Some(from);
    }
    let mut j: usize = from;
    while j <= vlen - plen
        invariant
            plen == pat@.len(),
            vlen == v@.len(),
            1 <= plen <= vlen,
            from <= j,
            j <= vlen - plen + 1,
            forall|q: int| from as int <= q < j ==> !match_at(v@, pat@, q),
        decreases vlen - j,
    {
        let mut t: usize = 0;
        let mut hit: bool = true;
        while t < plen
            invariant
                plen == pat@.len(),
                vlen == v@.len(),
                1 <= plen <= vlen,
                from <= j,
                j <= vlen - plen,
                j + plen <= vlen,
                t <= plen,
                hit ==> forall|q: int| 0 <= q < t ==> v@[j + q] == pat@[q],
                !hit ==> v@.subrange(j as int, j + plen) != pat@,
            decreases plen - t,
        {
            if v[j + t] != pat.get_char(t) {
                proof {
                    assert(v@.subrange(j as int, j + plen) != pat@) by {
                        assert(v@.subrange(j as int, j + plen)[t as int] == v@[j + t]);
                    }
                }
                hit = false;
                t = plen;
            } else {
                t = t + 1;
            }
        }
        if hit {
            proof {
                assert(v@.subrange(j as int, j + plen) =~= pat@) by {
                    assert forall|q: int| 0 <= q < plen implies v@.subrange(
                        j as int,
                        j + plen,
                    )[q] == pat@[q] by {
                        assert(v@[j + q] == pat@[q]);
                    }
                }
                lemma_find_from_some(v@, pat@, from as int, j as int);
            }
            return Some(j);
        }
        proof {
            assert(!match_at(v@, pat@, j as int));
        }
        j = j + 1;
    }
    proof {
        assert forall|q: int| from as int <= q implies !match_at(v@, pat@, q) by {}
        lemma_find_from_none(v@, pat@, from as int);
    }
    None
}

/// Whether `pat` occurs anywhere in `s`.
pub open spec fn contains_sub(s: Seq<char>, pat: Seq<char>) -> bool {
    find_from(s, pat, 0) is Some
}

/// Executable substring test.
pub fn contains_in(v: &Vec<char>, pat: &str) -> (r: bool)
    ensures
        r == contains_sub(v@, pat@),
{
    find_in(v, pat, 0).is_some()
}

/// Whether `s` begins with `p`.
pub open spec fn starts_with_spec(s: Seq<char>, p: Seq<char>) -> bool {
    p.len() <= s.len() && s.subrange(0, p.len() as int) == p
}

/// Whether `s` ends with `p`.
pub open spec fn ends_with_spec(s: Seq<char>, p: Seq<char>) -> bool {
    p.len() <= s.len() && s.subrange(s.len() - p.len(), s.len() as int) == p
}

/// Executable prefix test.
pub fn starts_with_in(v: &Vec<char>, p: &str) -> (r: bool)
    ensures
        r == starts_with_spec(v@, p@),
{
    let plen = p.unicode_len();
    if plen > v.len() {
        return false;
    }
    let mut t: usize = 0;
    while t < plen
        invariant
            plen == p@.len(),
            plen <= v@.len(),
            t <= plen,
            forall|q: int| 0 <= q < t ==> v@[q] == p@[q],
        decreases plen - t,
    {
        if v[t] != p.get_char(t) {
            proof {
                assert(v@.subrange(0, plen as int)[t as int] == v@[t as int]);
            }
            return false;
        }
        t = t + 1;
    }
    proof {
        assert(v@.subrange(0, plen as int) =~= p@);
    }
    true
}

/// Executable suffix test.
pub fn ends_with_in(v: &Vec<char>, p: &str) -> (r: bool)
    ensures
        r == ends_with_spec(v@, p@),
{
    let plen = p.unicode_len();
    let vlen = v.len();
    if plen > vlen {
        return false;
    }
    let base = vlen - plen;
    let mut t: usize = 0;
    while t < plen
        invariant
            plen == p@.len(),
            vlen == v@.len(),
            plen <= vlen,
            base == vlen - plen,
            t <= plen,
            forall|q: int| 0 <= q < t ==> v@[base + q] == p@[q],
        decreases plen - t,
    {
        if v[base + t] != p.get_char(t) {
            proof {
                let lo = v@.len() - plen;
                assert(v@.subrange(lo, v@.len() as int)[t as int] == v@[lo + t]);
            }
            return false;
        }
        t = t + 1;
    }
    proof {
        assert(v@.subrange(v@.len() - plen, v@.len() as int) =~= p@);
    }
    true
}

/// The characters of `v` from `a` (inclusive) to `b` (exclusive).
pub fn copy_range(v: &Vec<char>, a: usize, b: usize) -> (r: Vec<char>)
    requires
        a <= b <= v@.len(),
    ensures
        r@ == v@.subrange(a as int, b as int),
{
    let mut r: Vec<char> = Vec::new();
    let mut i: usize = a;
    while i < b
        invariant
            a <= i <= b <= v@.len(),
            r@ == v@.subrange(a as int, i as int),
        decreases b - i,
    {
        r.push(v[i]);
        i = i + 1;
        proof {
            assert(v@.subrange(a as int, i as int) =~= v@.subrange(a as int, i - 1).push(
                v@[i - 1],
            ));
        }
    }
    r
}

/// `s` with leading whitespace removed.
pub open spec fn trim_front(s: Seq<char>) -> Seq<char>
    decreases s.len(),
{
    if s.len() > 0 && is_space(s[0]) {
        trim_front(s.drop_first())
    } else {
        s
    }
}

/// `s` with trailing whitespace removed.
pub open spec fn trim_back(s: Seq<char>) -> Seq<char>
    decreases s.len(),
{
    if s.len() > 0 && is_space(s.last()) {
        trim_back(s.drop_last())
    } else {
        s
    }
}

/// `s` with whitespace removed from both ends.
pub open spec fn trim_spec(s: Seq<char>) -> Seq<char> {
    trim_back(trim_front(s))
}

proof fn lemma_trim_front_skip(s: Seq<char>, a: int)
    requires
        0 <= a <= s.len(),
        forall|j: int| 0 <= j < a ==> is_space(s[j]),
        a < s.len() ==> !is_space(s[a]),
    ensures
        trim_front(s) == s.skip(a),
    decreases a,
{
    if a == 0 {
        assert(s.skip(0) =~= s);
    } else {
        assert(is_space(s[0]));
        lemma_trim_front_skip(s.drop_first(), a - 1);
        assert(s.drop_first().skip(a - 1) =~= s.skip(a));
    }
}

proof fn lemma_trim_back_take(s: Seq<char>, b: int)
    requires
        0 <= b <= s.len(),
        forall|j: int| b <= j < s.len() ==> is_space(s[j]),
        b > 0 ==> !is_space(s[b - 1]),
    ensures
        trim_back(s) == s.take(b),
    decreases s.len() - b,
{
    if b == s.len() {
        if s.len() > 0 && is_space(s.last()) {
            assert(false);
        }
        assert(s.take(b) =~= s);
    } else {
        assert(is_space(s.last()));
        lemma_trim_back_take(s.drop_last(), b);
        assert(s.drop_last().take(b) =~= s.take(b));
    }
}

/// Executable trim over a character vector.
pub fn trim_chars(v: &Vec<char>) -> (r: Vec<char>)
    ensures
        r@ == trim_spec(v@),
{
    let n = v.len();
    let mut a: usize = 0;
    while a < n && space_char(v[a])
        invariant
            n == v@.len(),
            a <= n,
            forall|j: int| 0 <= j < a ==> is_space(v@[j]),
        decreases n - a,
    {
        a = a + 1;
    }
    proof {
        lemma_trim_front_skip(v@, a as int);
    }
    if a == n {
        proof {
            assert(v@.skip(a as int) =~= Seq::<char>::empty());
            assert(trim_back(Seq::<char>::empty()) =~= Seq::<char>::empty());
        }
        let r: Vec<char> = Vec::new();
        return r;
    }
    let mut b: usize = n;
    while b > a && space_char(v[b - 1])
        invariant
            n == v@.len(),
            a <= b <= n,
            a < n,
            !is_space(v@[a as int]),
            forall|j: int| b <= j < n ==> is_space(v@[j]),
        decreases b,
    {
        b = b - 1;
    }
    proof {
        let u = v@.skip(a as int);
        assert(b > a) by {
            if b == a {
                assert(is_space(v@[a as int]));
            }
        }
        assert forall|j: int| (b - a) <= j < u.len() implies is_space(u[j]) by {
            assert(u[j] == v@[a + j]);
        }
        assert(!is_space(u[b - a - 1]));
        lemma_trim_back_take(u, b - a);
        assert(u.take(b - a) =~= v@.subrange(a as int, b as int));
    }
    copy_range(v, a, b)
}

/// The length of the leading run of non-whitespace characters.
pub open spec fn word_len(s: Seq<char>) -> int
    decreases s.len(),
{
    if s.len() == 0 || is_space(s[0]) {
        0
    } else {
        1 + word_len(s.drop_first())
    }
}

proof fn lemma_word_len_bounds(s: Seq<char>)
    ensures
        0 <= word_len(s) <= s.len(),
        s.len() > 0 && !is_space(s[0]) ==> word_len(s) >= 1,
    decreases s.len(),
{
    if s.len() > 0 && !is_space(s[0]) {
        lemma_word_len_bounds(s.drop_first());
    }
}

proof fn lemma_word_len_at(s: Seq<char>, k: int)
    requires
        0 <= k <= s.len(),
        forall|j: int| 0 <= j < k ==> !is_space(s[j]),
        k < s.len() ==> is_space(s[k]),
    ensures
        word_len(s) == k,
    decreases k,
{
    if k == 0 {
    } else {
        assert(!is_space(s[0]));
        lemma_word_len_at(s.drop_first(), k - 1);
    }
}

/// The whitespace-separated words of `s`, in order.
pub open spec fn tokens(s: Seq<char>) -> Seq<Seq<char>>
    decreases s.len(),
    via tokens_decreases
{
    if s.len() == 0 {
        Seq::empty()
    } else if is_space(s[0]) {
        tokens(s.drop_first())
    } else {
        seq![s.take(word_len(s))] + tokens(s.skip(word_len(s)))
    }
}

#[via_fn]
proof fn tokens_decreases(s: Seq<char>) {
    lemma_word_len_bounds(s);
}

/// Executable whitespace tokenizer.
pub fn tokenize(v: &Vec<char>) -> (r: Vec<Vec<char>>)
    ensures
        r.deep_view() == tokens(v@),
{
    let n = v.len();
    let mut acc: Vec<Vec<char>> = Vec::new();
    let mut i: usize = 0;
    proof {
        assert(v@.skip(0) =~= v@);
        assert(acc.deep_view() =~~= Seq::<Seq<char>>::empty());
        assert(Seq::<Seq<char>>::empty() + tokens(v@) =~= tokens(v@));
    }
    while i < n
        invariant
            n == v@.len(),
            i <= n,
            acc.deep_view() + tokens(v@.skip(i as int)) == tokens(v@),
        decreases n - i,
    {
        if space_char(v[i]) {
            proof {
                let u = v@.skip(i as int);
                assert(u[0] == v@[i as int]);
                assert(u.drop_first() =~= v@.skip(i + 1));
            }
            i = i + 1;
        } else {
            let mut e: usize = i;
            while e < n && !space_char(v[e])
                invariant
                    n == v@.len(),
                    i <= e <= n,
                    forall|j: int| i <= j < e ==> !is_space(v@[j]),
                decreases n - e,
            {
                e = e + 1;
            }
            let word = copy_range(v, i, e);
            proof {
                let u = v@.skip(i as int);
                assert forall|j: int| 0 <= j < (e - i) implies !is_space(u[j]) by {
                    assert(u[j] == v@[i + j]);
                }
                if (e - i) < u.len() {
                    assert(u[e - i] == v@[e as int]);
                }
                lemma_word_len_at(u, e - i);
                assert(u[0] == v@[i as int]);
                assert(u.take(e - i) =~= v@.subrange(i as int, e as int));
                assert(u.skip(e - i) =~= v@.skip(e as int));
                assert(tokens(u) == seq![word@] + tokens(v@.skip(e as int)));
            }
            let ghost pre = acc.deep_view();
            let ghost wordv = word@;
            acc.push(word);
            proof {
                assert(acc.deep_view() =~~= pre + seq![wordv]);
            }
            i = e;
        }
    }
    proof {
        assert(v@.skip(n as int) =~= Seq::<char>::empty());
        assert(acc.deep_view() + Seq::<Seq<char>>::empty() =~= acc.deep_view());
    }
    acc
}

/// The parts joined with `sep` between consecutive parts.
pub open spec fn join_with(parts: Seq<Seq<char>>, sep: Seq<char>) -> Seq<char>
    decreases parts.len(),
{
    if parts.len() == 0 {
        Seq::empty()
    } else if parts.len() == 1 {
        parts[0]
    } else {
        join_with(parts.drop_last(), sep) + sep + parts.last()
    }
}

/// Joins the elements of `parts` from index `from` on, separated by `sep`.
pub fn join_chars_from(parts: &Vec<Vec<char>>, from: usize, sep: &str) -> (r: String)
    requires
        from <= parts@.len(),
    ensures
        r@ == join_with(parts.deep_view().skip(from as int), sep@),
{
    let n = parts.len();
    let mut acc = String::new();
    let mut i: usize = from;
    while i < n
        invariant
            n == parts@.len(),
            from <= i <= n,
            parts.deep_view().len() == n,
            acc@ == join_with(parts.deep_view().skip(from as int).take(i - from), sep@),
        decreases n - i,
    {
        if i > from {
            acc.append(sep);
        }
        let word = chars_to_string(&parts[i]);
        acc.append(word.as_str());
        proof {
            let all = parts.deep_view().skip(from as int);
            let pre = all.take(i - from);
            let cur = all.take(i + 1 - from);
            assert(parts.deep_view()[i as int] =~~= parts@[i as int]@);
            assert(cur.drop_last() =~= pre);
            assert(cur.last() == all[i - from]);
            if i == from {
                assert(cur.len() == 1);
                assert(join_with(cur, sep@) == cur[0]);
            }
        }
        i = i + 1;
    }
    proof {
        assert(parts.deep_view().skip(from as int).take(n - from) =~= parts.deep_view().skip(
            from as int,
        ));
    }
    acc
}

/// Joins a vector of strings with `sep`.
pub fn join_strings(parts: &Vec<String>, sep: &str) -> (r: String)
    ensures
        r@ == join_with(parts.deep_view(), sep@),
{
    let n = parts.len();
    let mut acc = String::new();
    let mut i: usize = 0;
    while i < n
        invariant
            n == parts@.len(),
            i <= n,
            parts.deep_view().len() == n,
            acc@ == join_with(parts.deep_view().take(i as int), sep@),
        decreases n - i,
    {
        if i > 0 {
            acc.append(sep);
        }
        acc.append(parts[i].as_str());
        proof {
            let all = parts.deep_view();
            let pre = all.take(i as int);
            let cur = all.take(i + 1);
            assert(all[i as int] == parts@[i as int]@);
            assert(cur.drop_last() =~= pre);
            assert(cur.last() == all[i as int]);
            if i == 0 {
                assert(join_with(cur, sep@) == cur[0]);
            }
        }
        i = i + 1;
    }
    proof {
        assert(parts.deep_view().take(n as int) =~= parts.deep_view());
    }
    acc
}

pub proof fn lemma_find_from_bounds(s: Seq<char>, pat: Seq<char>, i: int)
    requires
        0 <= i,
    ensures
        find_from(s, pat, i) matches Some(k) ==> i <= k && match_at(s, pat, k),
        find_from(s, pat, i) matches Some(k) ==> forall|j: int| i <= j < k ==> !match_at(
            s,
            pat,
            j,
        ),
        find_from(s, pat, i) is None ==> forall|j: int| i <= j ==> !match_at(s, pat, j),
    decreases s.len() - i + 1,
{
    if i + pat.len() > s.len() {
        assert forall|j: int| i <= j implies !match_at(s, pat, j) by {}
    } else if s.subrange(i, i + pat.len()) == pat {
    } else {
        lemma_find_from_bounds(s, pat, i + 1);
        assert(!match_at(s, pat, i));
    }
}

/// A match of `pat` inside a suffix of `s` is a match inside `s`, shifted.
proof fn lemma_match_shift(s: Seq<char>, pat: Seq<char>, c: int, j: int)
    requires
        0 <= c <= s.len(),
        0 <= j,
    ensures
        match_at(s.skip(c), pat, j) == match_at(s, pat, c + j),
{
    if j + pat.len() <= s.skip(c).len() {
        assert(s.skip(c).subrange(j, j + pat.len()) =~= s.subrange(c + j, c + j + pat.len()));
    }
}

/// The pieces of `s` between occurrences of the separator `sep`.
pub open spec fn split_by(s: Seq<char>, sep: Seq<char>) -> Seq<Seq<char>>
    decreases s.len(),
    via split_by_decreases
{
    if sep.len() == 0 {
        seq![s]
    } else {
        match find_from(s, sep, 0) {
            Option::None => seq![s],
            Option::Some(k) => seq![s.take(k)] + split_by(s.skip(k + sep.len()), sep),
        }
    }
}

#[via_fn]
proof fn split_by_decreases(s: Seq<char>, sep: Seq<char>) {
    if sep.len() > 0 {
        lemma_find_from_bounds(s, sep, 0);
    }
}

/// Executable split on a non-empty separator.
pub fn split_in(v: &Vec<char>, sep: &str) -> (r: Vec<Vec<char>>)
    requires
        sep@.len() > 0,
    ensures
        r.deep_view() == split_by(v@, sep@),
{
    let n = v.len();
    let seplen = sep.unicode_len();
    let mut acc: Vec<Vec<char>> = Vec::new();
    let mut start: usize = 0;
    proof {
        assert(v@.skip(0) =~= v@);
        assert(acc.deep_view() =~= Seq::<Seq<char>>::empty());
        assert(acc.deep_view() + split_by(v@, sep@) =~= split_by(v@, sep@));
    }
    loop
        invariant
            n == v@.len(),
            seplen == sep@.len(),
            seplen > 0,
            start <= n,
            acc.deep_view() + split_by(v@.skip(start as int), sep@) == split_by(v@, sep@),
        decreases n - start,
    {
        let found = find_in(v, sep, start);
        let u = Ghost(v@.skip(start as int));
        match found {
            None => {
                proof {
                    lemma_find_from_bounds(v@, sep@, start as int);
                    assert forall|j: int| 0 <= j implies !match_at(u@, sep@, j) by {
                        lemma_match_shift(v@, sep@, start as int, j);
                    }
                    lemma_find_from_none(u@, sep@, 0);
                    assert(split_by(u@, sep@) == seq![u@]);
                }
                let rest = copy_range(v, start, n);
                proof {
                    assert(rest@ =~= u@);
                }
                let ghost pre = acc.deep_view();
                let ghost restv = rest@;
                acc.push(rest);
                proof {
                    assert(acc.deep_view() =~~= pre + seq![restv]);
                }
                return acc;
            },
            Some(k) => {
                proof {
                    lemma_find_from_bounds(v@, sep@, start as int);
                    assert(match_at(v@, sep@, k as int));
                    lemma_match_shift(v@, sep@, start as int, k - start);
                    assert forall|j: int| 0 <= j < (k - start) implies !match_at(u@, sep@, j) by {
                        lemma_match_shift(v@, sep@, start as int, j);
                    }
                    lemma_find_from_some(u@, sep@, 0, k - start);
                    assert(split_by(u@, sep@) == seq![u@.take(k - start)] + split_by(
                        u@.skip(k - start + sep@.len()),
                        sep@,
                    ));
                    assert(u@.take(k - start) =~= v@.subrange(start as int, k as int));
                    assert(u@.skip(k - start + sep@.len()) =~= v@.skip(k + sep@.len()));
                }
                let piece = copy_range(v, start, k);
                let ghost pre = acc.deep_view();
                let ghost piecev = piece@;
                acc.push(piece);
                proof {
                    assert(acc.deep_view() =~~= pre + seq![piecev]);
                    assert((pre + seq![piecev]) + split_by(v@.skip(k + seplen), sep@) =~= pre
                        + split_by(u@, sep@));
                }
                start = k + seplen;
            },
        }
    }
}

/// One trailing carriage return removed, as `str::lines` does per line.
pub open spec fn strip_cr(l: Seq<char>) -> Seq<char> {
    if l.len() > 0 && l.last() == '\r' {
        l.drop_last()
    } else {
        l
    }
}

/// The lines of `s`, under the semantics of `str::lines`: terminated or
/// separated by a newline, with one trailing carriage return removed.
pub open spec fn lines_of(s: Seq<char>) -> Seq<Seq<char>> {
    if s.len() == 0 {
        Seq::empty()
    } else {
        let body = if s.last() == '\n' {
            s.drop_last()
        } else {
            s
        };
        split_by(body, seq!['\n']).map_values(|l: Seq<char>| strip_cr(l))
    }
}

/// Executable line splitter matching `lines_of`.
pub fn split_lines(s: &str) -> (r: Vec<String>)
    ensures
        r.deep_view() == lines_of(s@),
{
    let chars = str_chars(s);
    let mut r: Vec<String> = Vec::new();
    if chars.len() == 0 {
        proof {
            assert(r.deep_view() =~= lines_of(s@));
        }
        return r;
    }
    let body = if chars[chars.len() - 1] == '\n' {
        copy_range(&chars, 0, chars.len() - 1)
    } else {
        copy_range(&chars, 0, chars.len())
    };
    proof {
        reveal_strlit("\n");
        assert("\n"@ =~= seq!['\n']);
        if s@.last() == '\n' {
            assert(body@ =~= s@.drop_last());
        } else {
            assert(body@ =~= s@);
        }
    }
    let parts = split_in(&body, "\n");
    let ghost lines = lines_of(s@);
    proof {
        assert(lines =~= split_by(body@, seq!['\n']).map_values(|l: Seq<char>| strip_cr(l)));
    }
    let mut i: usize = 0;
    while i < parts.len()
        invariant
            parts.deep_view() == split_by(body@, seq!['\n']),
            lines == split_by(body@, seq!['\n']).map_values(|l: Seq<char>| strip_cr(l)),
            i <= parts@.len(),
            parts.deep_view().len() == parts@.len(),
            lines.len() == parts@.len(),
            r.deep_view() =~= lines.take(i as int),
        decreases parts@.len() - i,
    {
        let p = &parts[i];
        let line = if p.len() > 0 && p[p.len() - 1] == '\r' {
            let shorter = copy_range(p, 0, p.len() - 1);
            chars_to_string(&shorter)
        } else {
            chars_to_string(p)
        };
        proof {
            assert(parts.deep_view()[i as int] =~~= parts@[i as int]@);
            if p@.len() > 0 && p@.last() == '\r' {
                assert(p@.subrange(0, p@.len() - 1) =~= p@.drop_last());
            }
            assert(line@ == strip_cr(parts.deep_view()[i as int]));
            assert(lines[i as int] == strip_cr(parts.deep_view()[i as int]));
        }
        let ghost pre = r.deep_view();
        let ghost linev = line@;
        r.push(line);
        proof {
            assert(r.deep_view() =~~= pre + seq![linev]);
            assert(pre + seq![linev] =~= lines.take(i + 1));
        }
        i = i + 1;
    }
    proof {
        assert(lines.take(parts@.len() as int) =~= lines);
    }
    r
}

/// ASCII lowercasing of one character; other characters pass through.
pub open spec fn lower_char(c: char) -> char {
    if 'A' as u32 <= c as u32 && c as u32 <= 'Z' as u32 {
        ((c as u32 + 32) as u8) as char
    } else {
        c
    }
}

/// ASCII lowercasing of a character sequence.
pub open spec fn lower_seq(s: Seq<char>) -> Seq<char> {
    s.map_values(|c: char| lower_char(c))
}

/// Executable ASCII lowercasing of one character.
pub fn lower_char_x(c: char) -> (r: char)
    ensures
        r == lower_char(c),
{
    let u = c as u32;
    if 65 <= u && u <= 90 {
        ((u + 32) as u8) as char
    } else {
        c
    }
}

/// Executable ASCII lowercasing of a string.
pub fn lowercase(s: &str) -> (r: String)
    ensures
        r@ == lower_seq(s@),
{
    let chars = str_chars(s);
    let mut out: Vec<char> = Vec::new();
    let mut i: usize = 0;
    while i < chars.len()
        invariant
            chars@ == s@,
            i <= chars@.len(),
            out@ =~= lower_seq(s@).take(i as int),
        decreases chars@.len() - i,
    {
        out.push(lower_char_x(chars[i]));
        i = i + 1;
        proof {
            assert(out@ =~= lower_seq(s@).take(i as int));
        }
    }
    proof {
        assert(lower_seq(s@).take(s@.len() as int) =~= lower_seq(s@));
    }
    chars_to_string(&out)
}

/// Whether `c` is a decimal digit.
pub open spec fn is_digit(c: char) -> bool {
    '0' as u32 <= c as u32 && c as u32 <= '9' as u32
}

/// The numeric value of a digit character.
pub open spec fn digit_val(c: char) -> int {
    c as u32 - '0' as u32
}

/// Whether every character of `s` is a decimal digit.
pub open spec fn all_digits(s: Seq<char>) -> bool {
    forall|i: int| 0 <= i < s.len() ==> is_digit(s[i])
}

/// The numeric value of a digit string, most significant digit first.
pub open spec fn dec_value(s: Seq<char>) -> int
    decreases s.len(),
{
    if s.len() == 0 {
        0
    } else {
        dec_value(s.drop_last()) * 10 + digit_val(s.last())
    }
}

/// Parses a decimal `usize`, as `str::parse::<usize>` does on digit strings:
/// none on an empty string, a non-digit, or overflow.
pub open spec fn parse_usize_spec(s: Seq<char>) -> Option<int> {
    if s.len() > 0 && all_digits(s) && dec_value(s) <= usize::MAX {
        Some(dec_value(s))
    } else {
        None
    }
}

/// Executable decimal parser matching `parse_usize_spec`.
pub fn parse_usize(v: &Vec<char>) -> (r: Option<usize>)
    ensures
        match r {
            Some(n) => parse_usize_spec(v@) == Some(n as int),
            None => parse_usize_spec(v@) is None,
        },
{
    let n = v.len();
    if n == 0 {
        return None;
    }
    let mut acc: usize = 0;
    let mut over: bool = false;
    let mut i: usize = 0;
    while i < n
        invariant
            n == v@.len(),
            i <= n,
            all_digits(v@.take(i as int)),
            !over ==> acc == dec_value(v@.take(i as int)),
            over ==> dec_value(v@.take(i as int)) > usize::MAX,
        decreases n - i,
    {
        let c = v[i];
        let u = c as u32;
        if u < 48 || u > 57 {
            proof {
                assert(!is_digit(c)) by {
                    assert('0' as u32 == 48 && '9' as u32 == 57);
                }
                assert(!all_digits(v@));
            }
            return None;
        }
        let d = (u - 48) as usize;
        proof {
            assert('0' as u32 == 48 && '9' as u32 == 57);
            assert(is_digit(c));
            assert(v@.take(i + 1).drop_last() =~= v@.take(i as int));
            assert(v@.take(i + 1).last() == v@[i as int]);
            assert(all_digits(v@.take(i + 1))) by {
                assert(forall|q: int| 0 <= q < i + 1 ==> v@.take(i + 1)[q] == v@[q]);
            }
            assert(dec_value(v@.take(i + 1)) == dec_value(v@.take(i as int)) * 10 + d);
        }
        if over {
            proof {
                let prev = dec_value(v@.take(i as int));
                assert(prev * 10 >= prev) by (nonlinear_arith)
                    requires
                        prev > usize::MAX,
                {}
            }
        } else {
            match acc.checked_mul(10) {
                Some(m) => {
                    match m.checked_add(d) {
                        Some(sum) => {
                            acc = sum;
                        },
                        None => {
                            over = true;
                        },
                    }
                },
                None => {
                    over = true;
                    proof {
                        assert(dec_value(v@.take(i as int)) * 10 + d > usize::MAX);
                    }
                },
            }
        }
        i = i + 1;
    }
    proof {
        assert(v@.take(n as int) =~= v@);
    }
    if over {
        None
    } else {
        Some(acc)
    }
}

/// The character `c` repeated `n` times.
pub open spec fn repeat_char(c: char, n: int) -> Seq<char> {
    Seq::new(n as nat, |i: int| c)
}

/// A string of `n` equals signs, the heading underline.
pub fn equals_line(n: usize) -> (r: Vec<char>)
    ensures
        r@ == repeat_char('=', n as int),
{
    let mut out: Vec<char> = Vec::new();
    let mut i: usize = 0;
    while i < n
        invariant
            i <= n,
            out@ =~= repeat_char('=', i as int),
        decreases n - i,
    {
        out.push('=');
        i = i + 1;
        proof {
            assert(out@ =~= repeat_char('=', i as int));
        }
    }
    out
}

/// The decimal rendering of a non-negative integer.
pub open spec fn dec_str(n: int) -> Seq<char>
    decreases n,
{
    if n < 10 {
        seq![digit_char(n)]
    } else {
        dec_str(n / 10).push(digit_char(n % 10))
    }
}

/// The character for one decimal digit.
pub open spec fn digit_char(d: int) -> char {
    if d == 0 {
        '0'
    } else if d == 1 {
        '1'
    } else if d == 2 {
        '2'
    } else if d == 3 {
        '3'
    } else if d == 4 {
        '4'
    } else if d == 5 {
        '5'
    } else if d == 6 {
        '6'
    } else if d == 7 {
        '7'
    } else if d == 8 {
        '8'
    } else {
        '9'
    }
}

/// Appends one decimal digit character.
fn append_digit(out: &mut String, d: u64)
    requires
        d < 10,
    ensures
        final(out)@ == old(out)@ + seq![digit_char(d as int)],
{
    proof {
        reveal_strlit("0");
        reveal_strlit("1");
        reveal_strlit("2");
        reveal_strlit("3");
        reveal_strlit("4");
        reveal_strlit("5");
        reveal_strlit("6");
        reveal_strlit("7");
        reveal_strlit("8");
        reveal_strlit("9");
    }
    if d == 0 {
        out.append("0");
        proof {
            assert(out@ =~= old(out)@ + seq![digit_char(d as int)]);
        }
    } else if d == 1 {
        out.append("1");
        proof {
            assert(out@ =~= old(out)@ + seq![digit_char(d as int)]);
        }
    } else if d == 2 {
        out.append("2");
        proof {
            assert(out@ =~= old(out)@ + seq![digit_char(d as int)]);
        }
    } else if d == 3 {
        out.append("3");
        proof {
            assert(out@ =~= old(out)@ + seq![digit_char(d as int)]);
        }
    } else if d == 4 {
        out.append("4");
        proof {
            assert(out@ =~= old(out)@ + seq![digit_char(d as int)]);
        }
    } else if d == 5 {
        out.append("5");
        proof {
            assert(out@ =~= old(out)@ + seq![digit_char(d as int)]);
        }
    } else if d == 6 {
        out.append("6");
        proof {
            assert(out@ =~= old(out)@ + seq![digit_char(d as int)]);
        }
    } else if d == 7 {
        out.append("7");
        proof {
            assert(out@ =~= old(out)@ + seq![digit_char(d as int)]);
        }
    } else if d == 8 {
        out.append("8");
        proof {
            assert(out@ =~= old(out)@ + seq![digit_char(d as int)]);
        }
    } else {
        out.append("9");
        proof {
            assert(out@ =~= old(out)@ + seq![digit_char(d as int)]);
        }
    }
}

/// Appends the decimal rendering of `n`.
pub fn append_dec(out: &mut String, n: u64)
    ensures
        final(out)@ == old(out)@ + dec_str(n as int),
    decreases n,
{
    if n < 10 {
        append_digit(out, n);
    } else {
        append_dec(out, n / 10);
        append_digit(out, n % 10);
        proof {
            assert(old(out)@ + dec_str(n as int / 10) + seq![digit_char(n as int % 10)] =~= old(
                out,
            )@ + dec_str(n as int));
        }
    }
}

/// The decimal rendering of `n`, as a fresh string.
pub fn u64_to_string(n: u64) -> (r: String)
    ensures
        r@ == dec_str(n as int),
{
    let mut out = String::new();
    append_dec(&mut out, n);
    proof {
        assert(Seq::<char>::empty() + dec_str(n as int) =~= dec_str(n as int));
    }
    out
}

} // verus!
