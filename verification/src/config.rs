//! Reading and rewriting a simple key-value configuration text: one
//! `NAME = value` assignment per line, no continuation lines, no
//! duplicate definitions of one name. The rest of the file is carried
//! through verbatim when one variable's value is rewritten.

use vstd::prelude::*;

use crate::text::{find_sub, first_occurrence, join_lines, lemma_join_lines_push,
    split_lines, split_lines_str, spec_trim, starts_with, trim_str};

verus! {

/// Ghost form of a configuration error.
pub enum SpecConfigError {
    /// The named variable is not defined exactly once in the text.
    UnknownVariable(Seq<char>),
    /// The matched assignment ends with a line-continuation marker,
    /// which this format does not support.
    ContinuedLine,
}

/// Why a configuration text could not serve a request.
#[derive(Debug, PartialEq, Eq)]
pub enum ConfigError {
    /// The named variable is not defined exactly once in the text.
    UnknownVariable(String),
    /// The matched assignment ends with a line-continuation marker,
    /// which this format does not support.
    ContinuedLine,
}

impl View for ConfigError {
    type V = SpecConfigError;

    open spec fn view(&self) -> SpecConfigError {
        match self {
            ConfigError::UnknownVariable(n) => SpecConfigError::UnknownVariable(n@),
            ConfigError::ContinuedLine => SpecConfigError::ContinuedLine,
        }
    }
}

/// A blank character inside a line: space or tab.
pub open spec fn is_blank(c: char) -> bool {
    c == ' ' || c == '\t'
}

/// The first position at or after `i` holding no blank.
pub open spec fn skip_blanks_idx(line: Seq<char>, i: int) -> int
    recommends
        0 <= i <= line.len(),
    decreases line.len() - i,
{
    if 0 <= i < line.len() && is_blank(line[i]) {
        skip_blanks_idx(line, i + 1)
    } else {
        i
    }
}

/// The position of the `=` sign when `line` is an assignment to
/// `name`: the line starts with `name`, then optional blanks, then `=`.
pub open spec fn assign_eq_idx(line: Seq<char>, name: Seq<char>) -> Option<int> {
    if starts_with(line, name) {
        let j = skip_blanks_idx(line, name.len() as int);
        if j < line.len() && line[j] == '=' {
            Some(j)
        } else {
            None
        }
    } else {
        None
    }
}

/// Whether `line` assigns a value to `name`.
pub open spec fn line_defines(line: Seq<char>, name: Seq<char>) -> bool {
    assign_eq_idx(line, name) is Some
}

/// How many of the lines assign to `name`.
pub open spec fn count_defs(ls: Seq<Seq<char>>, name: Seq<char>) -> int
    decreases ls.len(),
{
    if ls.len() == 0 {
        0
    } else {
        (if line_defines(ls[0], name) {
            1int
        } else {
            0int
        }) + count_defs(ls.skip(1), name)
    }
}

/// The index of the first line assigning to `name`, if any.
pub open spec fn first_def_idx(ls: Seq<Seq<char>>, name: Seq<char>) -> Option<int>
    decreases ls.len(),
{
    if ls.len() == 0 {
        None
    } else if line_defines(ls[0], name) {
        Some(0int)
    } else {
        match first_def_idx(ls.skip(1), name) {
            Some(k) => Some(k + 1),
            None => None,
        }
    }
}

/// The trimmed right-hand side of the assignment in `line`, whose `=`
/// stands at position `e`.
pub open spec fn line_value(line: Seq<char>, e: int) -> Seq<char> {
    spec_trim(line.skip(e + 1))
}

/// Whether a value carries the (unsupported) line-continuation marker.
pub open spec fn is_continued(v: Seq<char>) -> bool {
    v.len() > 0 && v[v.len() - 1] == '\\'
}

/// What looking a variable up in the text yields: its trimmed value
/// when the text defines it exactly once and the assignment is not
/// continued, otherwise the error saying which requirement failed.
pub open spec fn spec_get_var(t: Seq<char>, name: Seq<char>) -> Result<Seq<char>, SpecConfigError> {
    let ls = split_lines(t);
    if count_defs(ls, name) != 1 {
        Err(SpecConfigError::UnknownVariable(name))
    } else {
        let j = first_def_idx(ls, name)->Some_0;
        let line = ls[j];
        let v = line_value(line, assign_eq_idx(line, name)->Some_0);
        if is_continued(v) {
            Err(SpecConfigError::ContinuedLine)
        } else {
            Ok(v)
        }
    }
}

/// What rewriting a variable yields: the same lines, with the one
/// matched assignment's right-hand side replaced by the new value (one
/// space after the `=`), rejoined with line feeds; the same errors as
/// a lookup otherwise.
pub open spec fn spec_set_var(t: Seq<char>, name: Seq<char>, val: Seq<char>) -> Result<
    Seq<char>,
    SpecConfigError,
> {
    let ls = split_lines(t);
    if count_defs(ls, name) != 1 {
        Err(SpecConfigError::UnknownVariable(name))
    } else {
        let j = first_def_idx(ls, name)->Some_0;
        let line = ls[j];
        let e = assign_eq_idx(line, name)->Some_0;
        if is_continued(line_value(line, e)) {
            Err(SpecConfigError::ContinuedLine)
        } else {
            Ok(join_lines(ls.update(j, line.take(e + 1) + seq![' '] + val)))
        }
    }
}

/// A found assignment stands inside the lines and really carries `=`.
proof fn lemma_first_def_idx_props(ls: Seq<Seq<char>>, name: Seq<char>)
    ensures
        match first_def_idx(ls, name) {
            Some(k) => 0 <= k < ls.len() && line_defines(ls[k], name),
            None => true,
        },
    decreases ls.len(),
{
    if ls.len() == 0 {
    } else if line_defines(ls[0], name) {
    } else {
        lemma_first_def_idx_props(ls.skip(1), name);
        match first_def_idx(ls.skip(1), name) {
            Some(k) => {
                assert(ls.skip(1)[k] == ls[k + 1]);
            },
            None => {},
        }
    }
}

/// The count is positive exactly when some line assigns to the name.
proof fn lemma_count_vs_first(ls: Seq<Seq<char>>, name: Seq<char>)
    ensures
        count_defs(ls, name) >= 0,
        (count_defs(ls, name) > 0) <==> (first_def_idx(ls, name) is Some),
    decreases ls.len(),
{
    if ls.len() == 0 {
    } else {
        lemma_count_vs_first(ls.skip(1), name);
    }
}

/// Counting from position `i` on is one step of counting everything.
proof fn lemma_count_defs_step(ls: Seq<Seq<char>>, name: Seq<char>, i: int)
    requires
        0 <= i < ls.len(),
    ensures
        count_defs(ls.skip(i), name) == (if line_defines(ls[i], name) {
            1int
        } else {
            0int
        }) + count_defs(ls.skip(i + 1), name),
{
    assert(ls.skip(i)[0] == ls[i]);
    assert(ls.skip(i).skip(1) =~~= ls.skip(i + 1));
}

/// A first match at `i`, after `i` clean misses, is the first match
/// overall.
proof fn lemma_first_def_idx_prefix(ls: Seq<Seq<char>>, name: Seq<char>, i: int)
    requires
        0 <= i <= ls.len(),
        forall|j: int| 0 <= j < i ==> !line_defines(#[trigger] ls[j], name),
    ensures
        first_def_idx(ls, name) == (match first_def_idx(ls.skip(i), name) {
            Some(k) => Some(k + i),
            None => None::<int>,
        }),
    decreases i,
{
    if i == 0 {
        assert(ls.skip(0) =~~= ls);
        match first_def_idx(ls, name) {
            Some(k) => {
            },
            None => {},
        }
    } else {
        assert(!line_defines(ls[0], name));
        assert(forall|j: int| 0 <= j < i - 1 ==> !line_defines(#[trigger] ls.skip(1)[j], name));
        lemma_first_def_idx_prefix(ls.skip(1), name, i - 1);
        assert(ls.skip(1).skip(i - 1) =~~= ls.skip(i));
    }
}

/// Executable test for [`is_blank`].
fn is_blank_char(c: char) -> (r: bool)
    ensures
        r == is_blank(c),
{
    c == ' ' || c == '\t'
}

/// Finds the `=` of an assignment of `name` in this line, if the line
/// is one.
fn match_assign(line: &str, name: &str) -> (r: Option<usize>)
    ensures
        match r {
            Some(j) => assign_eq_idx(line@, name@) == Some(j as int),
            None => assign_eq_idx(line@, name@) is None,
        },
{
    let n = line.unicode_len();
    let m = name.unicode_len();
    if m > n {
        return None;
    }
    let mut k: usize = 0;
    while k < m
        invariant
            n == line@.len(),
            m == name@.len(),
            m <= n,
            k <= m,
            forall|j: int| 0 <= j < k ==> line@[j] == name@[j],
        decreases m - k,
    {
        if line.get_char(k) != name.get_char(k) {
            proof {
                assert(line@.take(m as int)[k as int] != name@[k as int]);
            }
            return None;
        }
        k += 1;
    }
    proof {
        assert(line@.take(m as int) =~= name@);
    }
    let mut j: usize = m;
    while j < n && is_blank_char(line.get_char(j))
        invariant
            n == line@.len(),
            m <= j <= n,
            skip_blanks_idx(line@, m as int) == skip_blanks_idx(line@, j as int),
        decreases n - j,
    {
        j += 1;
    }
    if j < n && line.get_char(j) == '=' {
        Some(j)
    } else {
        None
    }
}

/// Counts the lines assigning to `name`.
fn count_assignments(lines: &Vec<String>, name: &str) -> (c: usize)
    ensures
        c as int == count_defs(lines.deep_view(), name@),
{
    let ghost lv = lines.deep_view();
    let n = lines.len();
    let mut c: usize = 0;
    let mut i: usize = 0;
    proof {
        assert(lv.skip(0) =~~= lv);
    }
    while i < n
        invariant
            n == lines@.len(),
            lv == lines.deep_view(),
            i <= n,
            c <= i,
            count_defs(lv, name@) == c + count_defs(lv.skip(i as int), name@),
        decreases n - i,
    {
        proof {
            lemma_count_defs_step(lv, name@, i as int);
            assert(lv[i as int] == lines@[i as int]@);
        }
        if match_assign(lines[i].as_str(), name).is_some() {
            c += 1;
        }
        i += 1;
    }
    proof {
        assert(lv.skip(n as int).len() == 0);
        lemma_count_vs_first(lv.skip(n as int), name@);
    }
    c
}

/// Finds the first line assigning to `name`, handing back its index
/// and the position of its `=`.
fn find_assignment(lines: &Vec<String>, name: &str) -> (r: Option<(usize, usize)>)
    ensures
        match r {
            Some(p) => {
                &&& first_def_idx(lines.deep_view(), name@) == Some(p.0 as int)
                &&& p.0 < lines@.len()
                &&& assign_eq_idx(lines.deep_view()[p.0 as int], name@) == Some(p.1 as int)
            },
            None => first_def_idx(lines.deep_view(), name@) is None,
        },
{
    let ghost lv = lines.deep_view();
    let n = lines.len();
    let mut i: usize = 0;
    while i < n
        invariant
            n == lines@.len(),
            lv == lines.deep_view(),
            i <= n,
            forall|j: int| 0 <= j < i ==> !line_defines(#[trigger] lv[j], name@),
        decreases n - i,
    {
        proof {
            assert(lv[i as int] == lines@[i as int]@);
        }
        match match_assign(lines[i].as_str(), name) {
            Some(e) => {
                proof {
                    lemma_first_def_idx_prefix(lv, name@, i as int);
                    assert(lv.skip(i as int)[0] == lv[i as int]);
                }
                return Some((i, e));
            },
            None => {},
        }
        i += 1;
    }
    proof {
        lemma_first_def_idx_prefix(lv, name@, n as int);
        assert(lv.skip(n as int).len() == 0);
    }
    None
}

/// Looks the variable up in the configuration text: its trimmed value
/// when the text defines it exactly once and the assignment is not
/// continued; otherwise the error saying which requirement failed.
pub fn get_var(text: &str, name: &str) -> (r: Result<String, ConfigError>)
    ensures
        match r {
            Ok(v) => spec_get_var(text@, name@) == Ok::<Seq<char>, SpecConfigError>(v@),
            Err(e) => spec_get_var(text@, name@) == Err::<Seq<char>, SpecConfigError>(e@),
        },
{
    let lines = split_lines_str(text);
    let ghost lv = lines.deep_view();
    let c = count_assignments(&lines, name);
    if c != 1 {
        return Err(ConfigError::UnknownVariable(name.to_owned()));
    }
    match find_assignment(&lines, name) {
        Some((j, e)) => {
            let line = lines[j].as_str();
            let ln = line.unicode_len();
            proof {
                assert(lv[j as int] == lines@[j as int]@);
                assert(e < ln);
            }
            let raw = line.substring_char(e + 1, ln);
            let v = trim_str(raw);
            proof {
                assert(raw@ =~= lv[j as int].skip(e + 1));
            }
            let vn = v.as_str().unicode_len();
            if vn > 0 && v.as_str().get_char(vn - 1) == '\\' {
                Err(ConfigError::ContinuedLine)
            } else {
                Ok(v)
            }
        },
        None => {
            proof {
                lemma_count_vs_first(lv, name@);
                assert(false);
            }
            Err(ConfigError::ContinuedLine)
        },
    }
}

/// Rewrites the variable's value in the configuration text, leaving
/// every other line — and the matched line up to its `=` — verbatim;
/// fails exactly as a lookup does.
pub fn set_var(text: &str, name: &str, value: &str) -> (r: Result<String, ConfigError>)
    ensures
        match r {
            Ok(u) => spec_set_var(text@, name@, value@) == Ok::<Seq<char>, SpecConfigError>(u@),
            Err(e) => spec_set_var(text@, name@, value@) == Err::<Seq<char>, SpecConfigError>(
                e@,
            ),
        },
{
    let lines = split_lines_str(text);
    let ghost lv = lines.deep_view();
    let c = count_assignments(&lines, name);
    if c != 1 {
        return Err(ConfigError::UnknownVariable(name.to_owned()));
    }
    match find_assignment(&lines, name) {
        Some((j, e)) => {
            let line = lines[j].as_str();
            let ln = line.unicode_len();
            proof {
                assert(lv[j as int] == lines@[j as int]@);
                assert(e < ln);
            }
            let raw = line.substring_char(e + 1, ln);
            let v = trim_str(raw);
            proof {
                assert(raw@ =~= lv[j as int].skip(e + 1));
            }
            let vn = v.as_str().unicode_len();
            if vn > 0 && v.as_str().get_char(vn - 1) == '\\' {
                return Err(ConfigError::ContinuedLine);
            }
            let mut new_line = line.substring_char(0, e + 1).to_owned();
            new_line.append(" ");
            new_line.append(value);
            proof {
                reveal_strlit(" ");
                assert(" "@ =~= seq![' ']);
                assert(new_line@ =~= lv[j as int].take(e + 1) + seq![' '] + value@);
            }
            let ghost ls2 = lv.update(j as int, new_line@);
            let n = lines.len();
            let mut out = String::new();
            let mut i: usize = 0;
            proof {
                assert(out@ =~= join_lines(ls2.take(0)));
            }
            while i < n
                invariant
                    n == lines@.len(),
                    lv == lines.deep_view(),
                    j < n,
                    ls2 == lv.update(j as int, new_line@),
                    new_line@ == ls2[j as int],
                    i <= n,
                    out@ == join_lines(ls2.take(i as int)),
                decreases n - i,
            {
                let ghost out0 = out@;
                if i > 0 {
                    out.append("\n");
                    proof {
                        reveal_strlit("\n");
                        assert("\n"@ =~= seq!['\n']);
                    }
                }
                if i == j {
                    out.append(new_line.as_str());
                } else {
                    out.append(lines[i].as_str());
                }
                proof {
                    assert(lv[i as int] == lines@[i as int]@);
                    assert(ls2.take(i + 1) =~~= ls2.take(i as int).push(ls2[i as int]));
                    if i == 0 {
                        assert(ls2.take(1) =~~= seq![ls2[0]]);
                        assert(join_lines(seq![ls2[0]]) == ls2[0]);
                        assert(out@ =~= ls2[0]);
                    } else {
                        lemma_join_lines_push(ls2.take(i as int), ls2[i as int]);
                        assert(out@ =~= join_lines(ls2.take(i as int)) + seq!['\n']
                            + ls2[i as int]);
                    }
                }
                i += 1;
            }
            proof {
                assert(ls2.take(n as int) =~~= ls2);
            }
            Ok(out)
        },
        None => {
            proof {
                lemma_count_vs_first(lv, name@);
                assert(false);
            }
            Err(ConfigError::ContinuedLine)
        },
    }
}

/// The part of the line standing before its first comment.
pub open spec fn strip_comment(l: Seq<char>, comment: Seq<char>) -> Seq<char> {
    match first_occurrence(l, comment) {
        Some(i) => l.take(i),
        None => l,
    }
}

/// The meaningful lines among `ls`: comments cut, whitespace trimmed,
/// blanks skipped.
pub open spec fn spec_simple_lines_of(ls: Seq<Seq<char>>, comment: Seq<char>) -> Seq<Seq<char>>
    decreases ls.len(),
{
    if ls.len() == 0 {
        Seq::<Seq<char>>::empty()
    } else {
        let x = spec_trim(strip_comment(ls[0], comment));
        let rest = spec_simple_lines_of(ls.skip(1), comment);
        if x.len() == 0 {
            rest
        } else {
            seq![x] + rest
        }
    }
}

/// The meaningful lines of a simple text format, in order: comments
/// begin at an unescapable delimiter and may appear inline, surrounding
/// whitespace is irrelevant, and empty lines are skipped.
pub open spec fn spec_simple_lines(t: Seq<char>, comment: Seq<char>) -> Seq<Seq<char>> {
    spec_simple_lines_of(split_lines(t), comment)
}

/// Reads the meaningful lines of a simple text format: cuts each line
/// at the first occurrence of the comment delimiter, trims surrounding
/// whitespace, and skips the lines that are left empty.
pub fn read_simple_lines(text: &str, comment: &str) -> (r: Vec<String>)
    ensures
        r.deep_view() == spec_simple_lines(text@, comment@),
{
    let lines = split_lines_str(text);
    let ghost lv = lines.deep_view();
    let n = lines.len();
    let mut out: Vec<String> = Vec::new();
    let mut i: usize = 0;
    proof {
        assert(lv.skip(0) =~~= lv);
        assert(out.deep_view() + spec_simple_lines_of(lv, comment@)
            =~~= spec_simple_lines_of(lv, comment@));
    }
    while i < n
        invariant
            n == lines@.len(),
            lv == lines.deep_view(),
            i <= n,
            spec_simple_lines(text@, comment@) == out.deep_view()
                + spec_simple_lines_of(lv.skip(i as int), comment@),
        decreases n - i,
    {
        proof {
            assert(lv.skip(i as int)[0] == lv[i as int]);
            assert(lv[i as int] == lines@[i as int]@);
            assert(lv.skip(i as int).skip(1) =~~= lv.skip(i + 1));
        }
        let line = lines[i].as_str();
        let cut = match find_sub(line, comment) {
            Some(k) => {
                proof {
                    assert(k + comment@.len() <= line@.len());
                }
                line.substring_char(0, k)
            },
            None => line,
        };
        proof {
            assert(cut@ =~= strip_comment(lv[i as int], comment@));
        }
        let v = trim_str(cut);
        let ghost dv0 = out.deep_view();
        let ghost xv = v@;
        if v.as_str().unicode_len() > 0 {
            out.push(v);
            proof {
                assert(out.deep_view() =~~= dv0.push(xv));
                assert(dv0.push(xv) + spec_simple_lines_of(lv.skip(i + 1), comment@)
                    =~~= dv0 + (seq![xv] + spec_simple_lines_of(lv.skip(i + 1), comment@)));
            }
        }
        i += 1;
    }
    proof {
        assert(lv.skip(n as int).len() == 0);
        assert(out.deep_view() + spec_simple_lines_of(lv.skip(n as int), comment@)
            =~~= out.deep_view());
    }
    out
}

} // verus!
