//! Character-level text utilities shared by the flag parser and the
//! configuration-file reader: whitespace classification, tokenization,
//! trimming, substring search, and line splitting.

use vstd::prelude::*;

verus! {

/// The whitespace characters this crate recognizes when splitting and
/// trimming text (ASCII space, tab, line feed, carriage return).
pub open spec fn is_ws(c: char) -> bool {
    c == ' ' || c == '\t' || c == '\n' || c == '\r'
}

/// Executable test for [`is_ws`].
pub fn is_ws_char(c: char) -> (r: bool)
    ensures
        r == is_ws(c),
{
    c == ' ' || c == '\t' || c == '\n' || c == '\r'
}

/// Character-for-character string equality.
pub fn str_eq(a: &str, b: &str) -> (r: bool)
    ensures
        r == (a@ == b@),
{
    let na = a.unicode_len();
    let nb = b.unicode_len();
    if na != nb {
        assert(a@ != b@) by {
            assert(a@.len() != b@.len());
        }
        return false;
    }
    let mut i: usize = 0;
    while i < na
        invariant
            na == a@.len(),
            nb == b@.len(),
            na == nb,
            i <= na,
            forall|j: int| 0 <= j < i ==> a@[j] == b@[j],
        decreases na - i,
    {
        if a.get_char(i) != b.get_char(i) {
            return false;
        }
        i += 1;
    }
    proof {
        assert(a@ =~= b@);
    }
    true
}

/// `t` begins with `p`.
pub open spec fn starts_with(t: Seq<char>, p: Seq<char>) -> bool {
    t.len() >= p.len() && t.take(p.len() as int) == p
}

/// A two-character prefix test, written out by characters.
pub proof fn lemma_starts_with2(t: Seq<char>, c0: char, c1: char)
    ensures
        starts_with(t, seq![c0, c1]) <==> (t.len() >= 2 && t[0] == c0 && t[1] == c1),
{
    if t.len() >= 2 && t[0] == c0 && t[1] == c1 {
        assert(t.take(2) =~= seq![c0, c1]);
    }
    if starts_with(t, seq![c0, c1]) {
        assert(t.take(2)[0] == c0);
        assert(t.take(2)[1] == c1);
    }
}

/// A well-formed token: nonempty, with no whitespace inside.
pub open spec fn token_wf(t: Seq<char>) -> bool {
    &&& t.len() > 0
    &&& forall|j: int| 0 <= j < t.len() ==> !is_ws(#[trigger] t[j])
}

/// The tokens of `cur + s`, where `cur` is a partial token already read
/// and tokens are maximal runs of non-whitespace characters.
pub open spec fn tokenize_from(s: Seq<char>, cur: Seq<char>) -> Seq<Seq<char>>
    decreases s.len(),
{
    if s.len() == 0 {
        if cur.len() == 0 {
            Seq::<Seq<char>>::empty()
        } else {
            seq![cur]
        }
    } else if is_ws(s[0]) {
        if cur.len() == 0 {
            tokenize_from(s.skip(1), Seq::<char>::empty())
        } else {
            seq![cur] + tokenize_from(s.skip(1), Seq::<char>::empty())
        }
    } else {
        tokenize_from(s.skip(1), cur.push(s[0]))
    }
}

/// The whitespace-separated tokens of `s`, in order.
pub open spec fn tokenize(s: Seq<char>) -> Seq<Seq<char>> {
    tokenize_from(s, Seq::<char>::empty())
}

/// Reading a run of `k` non-whitespace characters only extends the
/// current partial token.
proof fn lemma_tokenize_from_nonws(s: Seq<char>, cur: Seq<char>, k: int)
    requires
        0 <= k <= s.len(),
        forall|j: int| 0 <= j < k ==> !is_ws(#[trigger] s[j]),
    ensures
        tokenize_from(s, cur) == tokenize_from(s.skip(k), cur + s.take(k)),
    decreases k,
{
    if k == 0 {
        assert(cur + s.take(0) =~= cur);
        assert(s.skip(0) =~= s);
    } else {
        lemma_tokenize_from_nonws(s.skip(1), cur.push(s[0]), k - 1);
        assert(s.skip(1).skip(k - 1) =~= s.skip(k));
        assert(cur.push(s[0]) + s.skip(1).take(k - 1) =~= cur + s.take(k));
    }
}

/// Every token produced by `tokenize` is nonempty and free of whitespace.
pub proof fn lemma_tokenize_wf(s: Seq<char>)
    ensures
        forall|i: int| 0 <= i < tokenize(s).len() ==> token_wf(#[trigger] tokenize(s)[i]),
{
    lemma_tokenize_from_wf(s, Seq::<char>::empty());
}

proof fn lemma_tokenize_from_wf(s: Seq<char>, cur: Seq<char>)
    requires
        forall|j: int| 0 <= j < cur.len() ==> !is_ws(#[trigger] cur[j]),
    ensures
        forall|i: int| 0 <= i < tokenize_from(s, cur).len()
            ==> token_wf(#[trigger] tokenize_from(s, cur)[i]),
    decreases s.len(),
{
    let res = tokenize_from(s, cur);
    if s.len() == 0 {
        if cur.len() > 0 {
            assert(res == seq![cur]);
            assert forall|i: int| 0 <= i < res.len() implies token_wf(#[trigger] res[i]) by {
                assert(res[i] == cur);
            }
        }
    } else if is_ws(s[0]) {
        let rest = tokenize_from(s.skip(1), Seq::<char>::empty());
        lemma_tokenize_from_wf(s.skip(1), Seq::<char>::empty());
        if cur.len() == 0 {
            assert forall|i: int| 0 <= i < res.len() implies token_wf(#[trigger] res[i]) by {
                assert(res[i] == rest[i]);
            }
        } else {
            assert(res == seq![cur] + rest);
            assert forall|i: int| 0 <= i < res.len() implies token_wf(#[trigger] res[i]) by {
                if i == 0 {
                    assert(res[i] == cur);
                } else {
                    assert(res[i] == rest[i - 1]);
                }
            }
        }
    } else {
        let rest = tokenize_from(s.skip(1), cur.push(s[0]));
        assert(forall|j: int| 0 <= j < cur.push(s[0]).len()
            ==> !is_ws(#[trigger] cur.push(s[0])[j]));
        lemma_tokenize_from_wf(s.skip(1), cur.push(s[0]));
        assert forall|i: int| 0 <= i < res.len() implies token_wf(#[trigger] res[i]) by {
            assert(res[i] == rest[i]);
        }
    }
}

/// The parts joined by single spaces: `p0 p1 ... pn`.
pub open spec fn join_with_space(parts: Seq<Seq<char>>) -> Seq<char>
    decreases parts.len(),
{
    if parts.len() == 0 {
        Seq::<char>::empty()
    } else if parts.len() == 1 {
        parts[0]
    } else {
        parts[0] + seq![' '] + join_with_space(parts.skip(1))
    }
}

/// Joining one more part appends a space and the part.
pub proof fn lemma_join_push(parts: Seq<Seq<char>>, p: Seq<char>)
    requires
        parts.len() > 0,
    ensures
        join_with_space(parts.push(p)) == join_with_space(parts) + seq![' '] + p,
    decreases parts.len(),
{
    if parts.len() == 1 {
        assert(parts.push(p).skip(1) =~~= seq![p]);
        assert(join_with_space(seq![p]) == p);
        assert(parts.push(p)[0] == parts[0]);
        assert(join_with_space(parts.push(p)) == parts[0] + seq![' '] + p);
    } else {
        lemma_join_push(parts.skip(1), p);
        assert(parts.push(p).skip(1) =~~= parts.skip(1).push(p));
        assert(join_with_space(parts) + seq![' '] + p
            =~= parts[0] + seq![' '] + (join_with_space(parts.skip(1)) + seq![' '] + p));
    }
}

/// Splitting a single-space join of well-formed tokens recovers exactly
/// those tokens.
pub proof fn lemma_tokenize_join(parts: Seq<Seq<char>>)
    requires
        forall|i: int| 0 <= i < parts.len() ==> token_wf(#[trigger] parts[i]),
    ensures
        tokenize(join_with_space(parts)) == parts,
    decreases parts.len(),
{
    if parts.len() == 0 {
        assert(tokenize(join_with_space(parts)) =~~= parts);
    } else if parts.len() == 1 {
        let t = parts[0];
        lemma_tokenize_from_nonws(t, Seq::<char>::empty(), t.len() as int);
        assert(t.skip(t.len() as int) =~= Seq::<char>::empty());
        assert(Seq::<char>::empty() + t.take(t.len() as int) =~= t);
        assert(tokenize(join_with_space(parts)) =~~= parts);
    } else {
        let t = parts[0];
        let rest = join_with_space(parts.skip(1));
        let s = t + seq![' '] + rest;
        assert(forall|j: int| 0 <= j < t.len() ==> !is_ws(#[trigger] s[j]));
        lemma_tokenize_from_nonws(s, Seq::<char>::empty(), t.len() as int);
        assert(Seq::<char>::empty() + s.take(t.len() as int) =~= t);
        assert(s.skip(t.len() as int) =~= seq![' '] + rest);
        assert(is_ws((seq![' '] + rest)[0]));
        assert((seq![' '] + rest).skip(1) =~= rest);
        lemma_tokenize_join(parts.skip(1));
        assert(tokenize(s) == seq![t] + tokenize(rest));
        assert(seq![t] + parts.skip(1) =~~= parts);
    }
}

/// The lines of `cur + t`, split at every line feed: one more part
/// than there are line feeds, so the split loses nothing.
pub open spec fn split_lines_from(t: Seq<char>, cur: Seq<char>) -> Seq<Seq<char>>
    decreases t.len(),
{
    if t.len() == 0 {
        seq![cur]
    } else if t[0] == '\n' {
        seq![cur] + split_lines_from(t.skip(1), Seq::<char>::empty())
    } else {
        split_lines_from(t.skip(1), cur.push(t[0]))
    }
}

/// The lines of `t`, split at every line feed.
pub open spec fn split_lines(t: Seq<char>) -> Seq<Seq<char>> {
    split_lines_from(t, Seq::<char>::empty())
}

/// The lines joined back, one line feed between consecutive lines.
pub open spec fn join_lines(ls: Seq<Seq<char>>) -> Seq<char>
    decreases ls.len(),
{
    if ls.len() == 0 {
        Seq::<char>::empty()
    } else if ls.len() == 1 {
        ls[0]
    } else {
        ls[0] + seq!['\n'] + join_lines(ls.skip(1))
    }
}

/// Joining one more line appends a line feed and the line.
pub proof fn lemma_join_lines_push(ls: Seq<Seq<char>>, l: Seq<char>)
    requires
        ls.len() > 0,
    ensures
        join_lines(ls.push(l)) == join_lines(ls) + seq!['\n'] + l,
    decreases ls.len(),
{
    if ls.len() == 1 {
        assert(ls.push(l).skip(1) =~~= seq![l]);
        assert(join_lines(seq![l]) == l);
        assert(ls.push(l)[0] == ls[0]);
        assert(join_lines(ls.push(l)) == ls[0] + seq!['\n'] + l);
    } else {
        lemma_join_lines_push(ls.skip(1), l);
        assert(ls.push(l).skip(1) =~~= ls.skip(1).push(l));
        assert(join_lines(ls) + seq!['\n'] + l
            =~= ls[0] + seq!['\n'] + (join_lines(ls.skip(1)) + seq!['\n'] + l));
    }
}

proof fn lemma_split_lines_from_nonempty(t: Seq<char>, cur: Seq<char>)
    ensures
        split_lines_from(t, cur).len() > 0,
    decreases t.len(),
{
    if t.len() == 0 {
    } else if t[0] == '\n' {
    } else {
        lemma_split_lines_from_nonempty(t.skip(1), cur.push(t[0]));
    }
}

proof fn lemma_join_split_lines_from(t: Seq<char>, cur: Seq<char>)
    ensures
        join_lines(split_lines_from(t, cur)) == cur + t,
    decreases t.len(),
{
    if t.len() == 0 {
        assert(cur + t =~= cur);
    } else if t[0] == '\n' {
        let rest = split_lines_from(t.skip(1), Seq::<char>::empty());
        lemma_join_split_lines_from(t.skip(1), Seq::<char>::empty());
        lemma_split_lines_from_nonempty(t.skip(1), Seq::<char>::empty());
        assert((seq![cur] + rest)[0] == cur);
        assert((seq![cur] + rest).skip(1) =~~= rest);
        assert(Seq::<char>::empty() + t.skip(1) =~= t.skip(1));
        assert(cur + seq!['\n'] + t.skip(1) =~= cur + t);
    } else {
        lemma_join_split_lines_from(t.skip(1), cur.push(t[0]));
        assert(cur.push(t[0]) + t.skip(1) =~= cur + t);
    }
}

/// Law: splitting into lines loses nothing — joining the lines with
/// line feeds restores the text exactly.
pub proof fn lemma_join_split_lines(t: Seq<char>)
    ensures
        join_lines(split_lines(t)) == t,
{
    lemma_join_split_lines_from(t, Seq::<char>::empty());
    assert(Seq::<char>::empty() + t =~= t);
}

/// Splits `t` into its lines.
pub fn split_lines_str(t: &str) -> (lines: Vec<String>)
    ensures
        lines.deep_view() == split_lines(t@),
{
    let n = t.unicode_len();
    let mut lines: Vec<String> = Vec::new();
    let mut start: usize = 0;
    let mut i: usize = 0;
    proof {
        assert(t@.skip(0) =~= t@);
        assert(t@.subrange(0, 0) =~= Seq::<char>::empty());
        assert(lines.deep_view() + split_lines(t@) =~~= split_lines(t@));
    }
    while i < n
        invariant
            n == t@.len(),
            start <= i <= n,
            split_lines(t@) == lines.deep_view()
                + split_lines_from(t@.skip(i as int), t@.subrange(start as int, i as int)),
        decreases n - i,
    {
        let ghost cur = t@.subrange(start as int, i as int);
        proof {
            assert(t@.skip(i as int)[0] == t@[i as int]);
            assert(t@.skip(i as int).skip(1) =~= t@.skip(i + 1));
        }
        if t.get_char(i) == '\n' {
            let ghost dv0 = lines.deep_view();
            let line = t.substring_char(start, i).to_owned();
            let ghost lv = line@;
            lines.push(line);
            proof {
                let rest = split_lines_from(t@.skip(i + 1), Seq::<char>::empty());
                assert(split_lines_from(t@.skip(i as int), cur) == seq![lv] + rest);
                assert(lines.deep_view() =~~= dv0.push(lv));
                assert(dv0.push(lv) + rest =~~= dv0 + (seq![lv] + rest));
                assert(t@.subrange(i + 1, i + 1) =~= Seq::<char>::empty());
            }
            i += 1;
            start = i;
        } else {
            proof {
                assert(cur.push(t@[i as int]) =~= t@.subrange(start as int, i + 1));
            }
            i += 1;
        }
    }
    let ghost dv0 = lines.deep_view();
    let last = t.substring_char(start, n).to_owned();
    let ghost lv = last@;
    lines.push(last);
    proof {
        assert(t@.skip(n as int).len() == 0);
        assert(split_lines_from(t@.skip(n as int), t@.subrange(start as int, n as int))
            == seq![lv]);
        assert(lines.deep_view() =~~= dv0.push(lv));
        assert(dv0.push(lv) =~~= dv0 + seq![lv]);
    }
    lines
}

/// What is left of `s` after dropping leading whitespace.
pub open spec fn trim_start(s: Seq<char>) -> Seq<char>
    decreases s.len(),
{
    if s.len() > 0 && is_ws(s[0]) {
        trim_start(s.skip(1))
    } else {
        s
    }
}

/// What is left of `s` after dropping trailing whitespace.
pub open spec fn trim_end(s: Seq<char>) -> Seq<char>
    decreases s.len(),
{
    if s.len() > 0 && is_ws(s[s.len() - 1]) {
        trim_end(s.take(s.len() - 1))
    } else {
        s
    }
}

/// `s` with surrounding whitespace dropped.
pub open spec fn spec_trim(s: Seq<char>) -> Seq<char> {
    trim_end(trim_start(s))
}

proof fn lemma_trim_start_at(s: Seq<char>, lo: int)
    requires
        0 <= lo <= s.len(),
        forall|j: int| 0 <= j < lo ==> is_ws(#[trigger] s[j]),
        lo == s.len() || !is_ws(s[lo]),
    ensures
        trim_start(s) == s.skip(lo),
    decreases lo,
{
    if lo == 0 {
        assert(s.skip(0) =~= s);
    } else {
        assert(is_ws(s[0]));
        lemma_trim_start_at(s.skip(1), lo - 1);
        assert(s.skip(1).skip(lo - 1) =~= s.skip(lo));
    }
}

proof fn lemma_trim_end_at(s: Seq<char>, hi: int)
    requires
        0 <= hi <= s.len(),
        forall|j: int| hi <= j < s.len() ==> is_ws(#[trigger] s[j]),
        hi == 0 || !is_ws(s[hi - 1]),
    ensures
        trim_end(s) == s.take(hi),
    decreases s.len() - hi,
{
    if hi == s.len() {
        assert(s.take(hi) =~= s);
    } else {
        assert(is_ws(s[s.len() - 1]));
        lemma_trim_end_at(s.take(s.len() - 1), hi);
        assert(s.take(s.len() - 1).take(hi) =~= s.take(hi));
    }
}

/// `s` with surrounding whitespace dropped.
pub fn trim_str(s: &str) -> (r: String)
    ensures
        r@ == spec_trim(s@),
{
    let n = s.unicode_len();
    let mut lo: usize = 0;
    while lo < n && is_ws_char(s.get_char(lo))
        invariant
            n == s@.len(),
            lo <= n,
            forall|j: int| 0 <= j < lo ==> is_ws(#[trigger] s@[j]),
        decreases n - lo,
    {
        lo += 1;
    }
    proof {
        lemma_trim_start_at(s@, lo as int);
    }
    let mut hi: usize = n;
    while hi > lo && is_ws_char(s.get_char(hi - 1))
        invariant
            n == s@.len(),
            lo <= hi <= n,
            forall|j: int| hi <= j < n ==> is_ws(#[trigger] s@[j]),
        decreases hi,
    {
        hi -= 1;
    }
    let r = s.substring_char(lo, hi).to_owned();
    proof {
        let t = s@.skip(lo as int);
        if hi == lo {
            assert(forall|j: int| 0 <= j < t.len() ==> is_ws(#[trigger] t[j]));
            lemma_trim_end_at(t, 0);
            assert(r@ =~= t.take(0));
        } else {
            assert(!is_ws(t[hi - lo - 1]));
            assert(forall|j: int| hi - lo <= j < t.len() ==> is_ws(#[trigger] t[j]));
            lemma_trim_end_at(t, hi - lo);
            assert(r@ =~= t.take(hi - lo));
        }
    }
    r
}

/// The position of the first occurrence of `nee` in `h` at or after
/// position `i`, if any.
pub open spec fn find_from(h: Seq<char>, nee: Seq<char>, i: int) -> Option<int>
    recommends
        0 <= i,
    decreases h.len() - i + 1,
{
    if i < 0 || i + nee.len() > h.len() {
        None
    } else if h.subrange(i, i + nee.len() as int) == nee {
        Some(i)
    } else {
        find_from(h, nee, i + 1)
    }
}

/// The position of the first occurrence of `nee` in `h`, if any.
pub open spec fn first_occurrence(h: Seq<char>, nee: Seq<char>) -> Option<int> {
    find_from(h, nee, 0)
}

/// Finds the first occurrence of `nee` in `h`.
pub fn find_sub(h: &str, nee: &str) -> (r: Option<usize>)
    ensures
        match r {
            Some(i) => first_occurrence(h@, nee@) == Some(i as int) && i + nee@.len() <= h@.len(),
            None => first_occurrence(h@, nee@) is None,
        },
{
    let n = h.unicode_len();
    let m = nee.unicode_len();
    if m > n {
        return None;
    }
    if m == 0 {
        proof {
            assert(h@.subrange(0, 0) =~= nee@);
        }
        return Some(0);
    }
    let mut i: usize = 0;
    while i <= n - m
        invariant
            n == h@.len(),
            m == nee@.len(),
            1 <= m <= n,
            i <= n - m + 1,
            first_occurrence(h@, nee@) == find_from(h@, nee@, i as int),
        decreases n - m - i + 1,
    {
        let w = h.substring_char(i, i + m);
        if str_eq(w, nee) {
            proof {
                assert(h@.subrange(i as int, i + m) == nee@);
            }
            return Some(i);
        }
        proof {
            assert(h@.subrange(i as int, i + m) != nee@);
        }
        i += 1;
    }
    proof {
        assert(i + m > n);
    }
    None
}

/// Splits `s` into its whitespace-separated tokens.
pub fn tokenize_str(s: &str) -> (toks: Vec<String>)
    ensures
        toks.deep_view() == tokenize(s@),
{
    let n = s.unicode_len();
    let mut toks: Vec<String> = Vec::new();
    let mut i: usize = 0;
    proof {
        assert(s@.skip(0) =~= s@);
        assert(toks.deep_view() + tokenize(s@) =~~= tokenize(s@));
    }
    while i < n
        invariant
            n == s@.len(),
            i <= n,
            tokenize(s@) == toks.deep_view() + tokenize_from(s@.skip(i as int), Seq::<char>::empty()),
        decreases n - i,
    {
        if is_ws_char(s.get_char(i)) {
            proof {
                assert(s@.skip(i as int).skip(1) =~= s@.skip(i + 1));
            }
            i += 1;
        } else {
            let start = i;
            i += 1;
            while i < n && !is_ws_char(s.get_char(i))
                invariant
                    n == s@.len(),
                    start < i <= n,
                    forall|j: int| start <= j < i ==> !is_ws(#[trigger] s@[j]),
                decreases n - i,
            {
                i += 1;
            }
            let tok = s.substring_char(start, i).to_owned();
            let ghost dv0 = toks.deep_view();
            let ghost tv = tok@;
            toks.push(tok);
            proof {
                lemma_tokenize_from_nonws(
                    s@.skip(start as int),
                    Seq::<char>::empty(),
                    i - start,
                );
                assert(s@.skip(start as int).skip(i - start) =~= s@.skip(i as int));
                assert(Seq::<char>::empty() + s@.skip(start as int).take(i - start) =~= tv);
                assert(tokenize_from(s@.skip(start as int), Seq::<char>::empty())
                    == tokenize_from(s@.skip(i as int), tv));
                assert(tv.len() > 0);
                if i < n {
                    assert(is_ws(s@[i as int]));
                    assert(s@.skip(i as int)[0] == s@[i as int]);
                    assert(tokenize_from(s@.skip(i as int), tv)
                        == seq![tv] + tokenize_from(s@.skip(i as int).skip(1), Seq::<char>::empty()));
                    assert(tokenize_from(s@.skip(i as int), Seq::<char>::empty())
                        == tokenize_from(s@.skip(i as int).skip(1), Seq::<char>::empty()));
                } else {
                    assert(s@.skip(i as int).len() == 0);
                    assert(tokenize_from(s@.skip(i as int), tv) == seq![tv]);
                    assert(seq![tv] =~~= seq![tv]
                        + tokenize_from(s@.skip(i as int), Seq::<char>::empty()));
                }
                assert(toks.deep_view() =~~= dv0.push(tv));
                assert(dv0.push(tv) + tokenize_from(s@.skip(i as int), Seq::<char>::empty())
                    =~~= dv0 + (seq![tv] + tokenize_from(s@.skip(i as int), Seq::<char>::empty())));
            }
        }
    }
    proof {
        assert(s@.skip(n as int).len() == 0);
        assert(toks.deep_view() + tokenize_from(s@.skip(n as int), Seq::<char>::empty())
            =~~= toks.deep_view());
    }
    toks
}

} // verus!
