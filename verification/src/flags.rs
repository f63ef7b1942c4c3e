//! Classified compiler/linker flags: parsing a whitespace-separated flag
//! string, rewriting embedded relative paths to absolute form, and
//! re-serializing in the two conventions the downstream consumers need.
//!
//! Classification follows fixed prefix-matching rules over the closed set
//! `-D`, `-L`, `-l`, `-I`. A token equal to one of these prefixes takes the
//! following token as its argument; a token that merely begins with one
//! carries its argument concatenated; anything else is kept verbatim as an
//! opaque token. This is a deliberate heuristic, not a general command-line
//! parser: an unrecognized option whose separate argument itself begins
//! with one of the four prefixes will be misread, which callers accept.

use vstd::prelude::*;

use crate::text::{join_with_space, lemma_join_push, lemma_starts_with2, lemma_tokenize_join,
    lemma_tokenize_wf, starts_with, token_wf, tokenize, tokenize_str};

verus! {

/// Ghost form of a classified flag, over character sequences.
pub enum SpecCcFlag {
    /// A `-DNAME` or `-DNAME=VALUE` preprocessor definition.
    Define(Seq<char>),
    /// An `-Ipath` include-directory flag.
    IncludeDir(Seq<char>),
    /// An `-Lpath` library-directory flag.
    LibDir(Seq<char>),
    /// A `-lname` library flag.
    Lib(Seq<char>),
    /// An unrecognized token, kept verbatim.
    Other(Seq<char>),
}

/// A flag for the C compiler (or preprocessor or linker).
#[derive(Debug, PartialEq, Eq)]
pub enum CcFlag {
    /// A `-DNAME` or `-DNAME=VALUE` preprocessor definition.
    Define(String),
    /// An `-Ipath` include-directory flag.
    IncludeDir(String),
    /// An `-Lpath` library-directory flag.
    LibDir(String),
    /// A `-lname` library flag.
    Lib(String),
    /// An unrecognized token, kept verbatim.
    Other(String),
}

impl View for CcFlag {
    type V = SpecCcFlag;

    open spec fn view(&self) -> SpecCcFlag {
        match self {
            CcFlag::Define(s) => SpecCcFlag::Define(s@),
            CcFlag::IncludeDir(s) => SpecCcFlag::IncludeDir(s@),
            CcFlag::LibDir(s) => SpecCcFlag::LibDir(s@),
            CcFlag::Lib(s) => SpecCcFlag::Lib(s@),
            CcFlag::Other(s) => SpecCcFlag::Other(s@),
        }
    }
}

/// The views of a sequence of flags, element by element.
pub open spec fn flag_seq_view(v: Seq<CcFlag>) -> Seq<SpecCcFlag> {
    Seq::new(v.len(), |i: int| v[i]@)
}

/// An ordered list of classified flags. Order is significant: consumers
/// may depend on linker search-order semantics for `-L`/`-l`.
#[derive(Debug, PartialEq, Eq)]
pub struct CcFlags(pub Vec<CcFlag>);

impl View for CcFlags {
    type V = Seq<SpecCcFlag>;

    open spec fn view(&self) -> Seq<SpecCcFlag> {
        flag_seq_view(self.0@)
    }
}

/// The error a malformed flag string parses to: a recognized option
/// prefix stood alone with no argument token after it.
#[derive(Debug, PartialEq, Eq)]
pub enum FlagParseError {
    /// Carries the dangling prefix token, e.g. `-I`.
    MalformedOption(String),
}

impl View for FlagParseError {
    type V = Seq<char>;

    open spec fn view(&self) -> Seq<char> {
        match self {
            FlagParseError::MalformedOption(p) => p@,
        }
    }
}

/// One of the four option kinds that take an argument.
#[derive(Clone, Copy, Debug, PartialEq, Eq)]
pub enum FlagKind {
    Define,
    LibDir,
    Lib,
    IncludeDir,
}

/// The two-character prefix of each option kind.
pub open spec fn flag_prefix(k: FlagKind) -> Seq<char> {
    match k {
        FlagKind::Define => seq!['-', 'D'],
        FlagKind::LibDir => seq!['-', 'L'],
        FlagKind::Lib => seq!['-', 'l'],
        FlagKind::IncludeDir => seq!['-', 'I'],
    }
}

/// The option kind whose prefix matches the start of `t`, with the
/// prefixes tried in the fixed order `-D`, `-L`, `-l`, `-I`.
pub open spec fn matched_kind(t: Seq<char>) -> Option<FlagKind> {
    if starts_with(t, flag_prefix(FlagKind::Define)) {
        Some(FlagKind::Define)
    } else if starts_with(t, flag_prefix(FlagKind::LibDir)) {
        Some(FlagKind::LibDir)
    } else if starts_with(t, flag_prefix(FlagKind::Lib)) {
        Some(FlagKind::Lib)
    } else if starts_with(t, flag_prefix(FlagKind::IncludeDir)) {
        Some(FlagKind::IncludeDir)
    } else {
        None
    }
}

/// The flag built from an option kind and its argument.
pub open spec fn make_flag(k: FlagKind, arg: Seq<char>) -> SpecCcFlag {
    match k {
        FlagKind::Define => SpecCcFlag::Define(arg),
        FlagKind::LibDir => SpecCcFlag::LibDir(arg),
        FlagKind::Lib => SpecCcFlag::Lib(arg),
        FlagKind::IncludeDir => SpecCcFlag::IncludeDir(arg),
    }
}

/// Classification of a token stream, exactly as the parser reads it:
/// a token equal to an option prefix consumes the next token as its
/// argument (an error if none follows, carrying the dangling prefix);
/// a token that begins with a prefix carries its argument concatenated;
/// any other token is kept verbatim.
pub open spec fn spec_parse_tokens(toks: Seq<Seq<char>>) -> Result<Seq<SpecCcFlag>, Seq<char>>
    decreases toks.len(),
{
    if toks.len() == 0 {
        Ok(Seq::<SpecCcFlag>::empty())
    } else {
        let t = toks[0];
        match matched_kind(t) {
            Some(k) => if t.len() > 2 {
                match spec_parse_tokens(toks.skip(1)) {
                    Ok(rest) => Ok(seq![make_flag(k, t.skip(2))] + rest),
                    Err(e) => Err(e),
                }
            } else if toks.len() >= 2 {
                match spec_parse_tokens(toks.skip(2)) {
                    Ok(rest) => Ok(seq![make_flag(k, toks[1])] + rest),
                    Err(e) => Err(e),
                }
            } else {
                Err(t)
            },
            None => match spec_parse_tokens(toks.skip(1)) {
                Ok(rest) => Ok(seq![SpecCcFlag::Other(t)] + rest),
                Err(e) => Err(e),
            },
        }
    }
}

/// What parsing a whole flag string yields: classification of its
/// whitespace-separated tokens.
pub open spec fn spec_parse(s: Seq<char>) -> Result<Seq<SpecCcFlag>, Seq<char>> {
    spec_parse_tokens(tokenize(s))
}

/// Finds which option prefix, if any, the token starts with.
fn classify_token(t: &str) -> (k: Option<FlagKind>)
    ensures
        k == matched_kind(t@),
{
    proof {
        lemma_starts_with2(t@, '-', 'D');
        lemma_starts_with2(t@, '-', 'L');
        lemma_starts_with2(t@, '-', 'l');
        lemma_starts_with2(t@, '-', 'I');
    }
    if t.unicode_len() >= 2 && t.get_char(0) == '-' {
        let c = t.get_char(1);
        if c == 'D' {
            Some(FlagKind::Define)
        } else if c == 'L' {
            Some(FlagKind::LibDir)
        } else if c == 'l' {
            Some(FlagKind::Lib)
        } else if c == 'I' {
            Some(FlagKind::IncludeDir)
        } else {
            None
        }
    } else {
        None
    }
}

impl CcFlags {
    /// Parses a whitespace-separated flag string into classified flags,
    /// or reports the dangling option prefix of a malformed string.
    pub fn parse(s: &str) -> (r: Result<CcFlags, FlagParseError>)
        ensures
            match r {
                Ok(flags) => spec_parse(s@) == Ok::<Seq<SpecCcFlag>, Seq<char>>(flags@),
                Err(e) => spec_parse(s@) == Err::<Seq<SpecCcFlag>, Seq<char>>(e@),
            },
    {
        let toks = tokenize_str(s);
        let ghost tv = toks.deep_view();
        let n = toks.len();
        let mut flags: Vec<CcFlag> = Vec::new();
        let mut i: usize = 0;
        proof {
            assert(tv.skip(0) =~~= tv);
            assert(flag_seq_view(flags@) + Seq::<SpecCcFlag>::empty()
                =~~= Seq::<SpecCcFlag>::empty());
        }
        while i < n
            invariant
                n == toks@.len(),
                tv == toks.deep_view(),
                tv == tokenize(s@),
                i <= n,
                spec_parse_tokens(tv) == (match spec_parse_tokens(tv.skip(i as int)) {
                    Ok(rest) => Ok::<Seq<SpecCcFlag>, Seq<char>>(flag_seq_view(flags@) + rest),
                    Err(e) => Err::<Seq<SpecCcFlag>, Seq<char>>(e),
                }),
            decreases n - i,
        {
            let ghost fv0 = flag_seq_view(flags@);
            let t_len = toks[i].unicode_len();
            let k = classify_token(toks[i].as_str());
            proof {
                assert(tv.skip(i as int)[0] == tv[i as int]);
                assert(tv[i as int] == toks@[i as int]@);
            }
            match k {
                Some(kind) => {
                    if t_len > 2 {
                        let arg = toks[i].as_str().substring_char(2, t_len).to_owned();
                        let flag = match kind {
                            FlagKind::Define => CcFlag::Define(arg),
                            FlagKind::LibDir => CcFlag::LibDir(arg),
                            FlagKind::Lib => CcFlag::Lib(arg),
                            FlagKind::IncludeDir => CcFlag::IncludeDir(arg),
                        };
                        let ghost nf = flag@;
                        flags.push(flag);
                        proof {
                            assert(nf == make_flag(kind, tv.skip(i as int)[0].skip(2)));
                            assert(tv.skip(i as int).skip(1) =~~= tv.skip(i + 1));
                            assert(flag_seq_view(flags@) =~~= fv0.push(nf));
                            lemma_compose_step(tv, fv0, nf, i as int, i + 1, flags@);
                        }
                        i += 1;
                    } else if i + 1 < n {
                        let arg = toks[i + 1].clone();
                        let flag = match kind {
                            FlagKind::Define => CcFlag::Define(arg),
                            FlagKind::LibDir => CcFlag::LibDir(arg),
                            FlagKind::Lib => CcFlag::Lib(arg),
                            FlagKind::IncludeDir => CcFlag::IncludeDir(arg),
                        };
                        let ghost nf = flag@;
                        flags.push(flag);
                        proof {
                            assert(tv.skip(i as int)[1] == tv[i + 1]);
                            assert(nf == make_flag(kind, tv.skip(i as int)[1]));
                            assert(tv.skip(i as int).skip(2) =~~= tv.skip(i + 2));
                            assert(flag_seq_view(flags@) =~~= fv0.push(nf));
                            lemma_compose_step(tv, fv0, nf, i as int, i + 2, flags@);
                        }
                        i += 2;
                    } else {
                        proof {
                            assert(tv.skip(i as int).len() == 1);
                            assert(spec_parse_tokens(tv.skip(i as int)) == Err::<
                                Seq<SpecCcFlag>,
                                Seq<char>,
                            >(tv[i as int]));
                        }
                        return Err(FlagParseError::MalformedOption(toks[i].clone()));
                    }
                },
                None => {
                    let flag = CcFlag::Other(toks[i].clone());
                    let ghost nf = flag@;
                    flags.push(flag);
                    proof {
                        assert(nf == SpecCcFlag::Other(tv.skip(i as int)[0]));
                        assert(tv.skip(i as int).skip(1) =~~= tv.skip(i + 1));
                        assert(flag_seq_view(flags@) =~~= fv0.push(nf));
                        lemma_compose_step(tv, fv0, nf, i as int, i + 1, flags@);
                    }
                    i += 1;
                },
            }
        }
        proof {
            assert(tv.skip(n as int).len() == 0);
            assert(flag_seq_view(flags@) + Seq::<SpecCcFlag>::empty()
                =~~= flag_seq_view(flags@));
        }
        Ok(CcFlags(flags))
    }
}

/// The serialized form of one flag: its prefix, the separator (empty
/// for the concatenated convention, a single space for the space-joined
/// one), then its value; an opaque token renders verbatim in both.
pub open spec fn spec_render_flag(f: SpecCcFlag, space: Seq<char>) -> Seq<char> {
    match f {
        SpecCcFlag::Define(s) => seq!['-', 'D'] + space + s,
        SpecCcFlag::IncludeDir(p) => seq!['-', 'I'] + space + p,
        SpecCcFlag::LibDir(p) => seq!['-', 'L'] + space + p,
        SpecCcFlag::Lib(s) => seq!['-', 'l'] + space + s,
        SpecCcFlag::Other(s) => s,
    }
}

/// Every flag of the list serialized, in order.
pub open spec fn spec_rendered_tokens(fs: Seq<SpecCcFlag>, space: Seq<char>) -> Seq<Seq<char>> {
    fs.map_values(|f: SpecCcFlag| spec_render_flag(f, space))
}

/// The whole list as one string: each flag serialized, the results
/// joined by single spaces. Nothing escapes or quotes embedded
/// whitespace, so a path containing a space is not supported.
pub open spec fn spec_render_list(fs: Seq<SpecCcFlag>, space: Seq<char>) -> Seq<char> {
    join_with_space(spec_rendered_tokens(fs, space))
}

impl CcFlag {
    /// Renders this flag with the given separator between prefix and
    /// value: `-l iberty` with `" "`, `-liberty` with `""`. An opaque
    /// token renders as its stored text either way.
    pub fn fmt_with_space(&self, space: &str) -> (r: String)
        ensures
            r@ == spec_render_flag(self@, space@),
    {
        proof {
            reveal_strlit("-D");
            reveal_strlit("-I");
            reveal_strlit("-L");
            reveal_strlit("-l");
            assert("-D"@ =~= seq!['-', 'D']);
            assert("-I"@ =~= seq!['-', 'I']);
            assert("-L"@ =~= seq!['-', 'L']);
            assert("-l"@ =~= seq!['-', 'l']);
        }
        let mut out = String::new();
        match self {
            CcFlag::Define(s) => {
                out.append("-D");
                out.append(space);
                out.append(s.as_str());
            },
            CcFlag::IncludeDir(p) => {
                out.append("-I");
                out.append(space);
                out.append(p.as_str());
            },
            CcFlag::LibDir(p) => {
                out.append("-L");
                out.append(space);
                out.append(p.as_str());
            },
            CcFlag::Lib(s) => {
                out.append("-l");
                out.append(space);
                out.append(s.as_str());
            },
            CcFlag::Other(s) => {
                out.append(s.as_str());
            },
        }
        proof {
            assert(out@ =~= spec_render_flag(self@, space@));
        }
        out
    }
}

impl CcFlags {
    /// Each flag as one atomic argument token, rendered in the
    /// concatenated convention (`-Ipath`, `-DNAME`).
    pub fn to_args(&self) -> (r: Vec<String>)
        ensures
            r.deep_view() == spec_rendered_tokens(self@, Seq::<char>::empty()),
    {
        proof {
            reveal_strlit("");
        }
        let mut args: Vec<String> = Vec::new();
        let n = self.0.len();
        let mut i: usize = 0;
        proof {
            assert(args.deep_view() =~~= spec_rendered_tokens(self@, Seq::<char>::empty())
                .take(0));
        }
        while i < n
            invariant
                n == self.0@.len(),
                i <= n,
                args.deep_view() == spec_rendered_tokens(self@, Seq::<char>::empty())
                    .take(i as int),
            decreases n - i,
        {
            let ghost dv0 = args.deep_view();
            let a = self.0[i].fmt_with_space("");
            let ghost av = a@;
            args.push(a);
            proof {
                reveal_strlit("");
                assert(""@ =~= Seq::<char>::empty());
                assert(av == spec_rendered_tokens(self@, Seq::<char>::empty())[i as int]);
                assert(args.deep_view() =~~= dv0.push(av));
                assert(dv0.push(av) =~~= spec_rendered_tokens(self@, Seq::<char>::empty())
                    .take(i + 1));
            }
            i += 1;
        }
        proof {
            assert(spec_rendered_tokens(self@, Seq::<char>::empty()).take(n as int)
                =~~= spec_rendered_tokens(self@, Seq::<char>::empty()));
        }
        args
    }

    /// The whole list as one string, flags joined by single spaces and
    /// each rendered with the given separator: `" "` for a linker-flags
    /// line, `""` for atomic preprocessor arguments.
    pub fn render(&self, space: &str) -> (r: String)
        ensures
            r@ == spec_render_list(self@, space@),
    {
        let ghost toks = spec_rendered_tokens(self@, space@);
        let mut out = String::new();
        let n = self.0.len();
        let mut i: usize = 0;
        proof {
            assert(out@ =~= join_with_space(toks.take(0)));
        }
        while i < n
            invariant
                n == self.0@.len(),
                i <= n,
                toks == spec_rendered_tokens(self@, space@),
                out@ == join_with_space(toks.take(i as int)),
            decreases n - i,
        {
            let ghost out0 = out@;
            if i > 0 {
                out.append(" ");
                proof {
                    reveal_strlit(" ");
                    assert(" "@ =~= seq![' ']);
                }
            }
            let a = self.0[i].fmt_with_space(space);
            out.append(a.as_str());
            proof {
                assert(a@ == toks[i as int]);
                assert(toks.take(i + 1) =~~= toks.take(i as int).push(toks[i as int]));
                if i == 0 {
                    assert(toks.take(1) =~= seq![toks[0]]);
                    assert(join_with_space(seq![toks[0]]) == toks[0]);
                    assert(out@ =~= toks[0]);
                } else {
                    lemma_join_push(toks.take(i as int), toks[i as int]);
                    assert(out@ =~= join_with_space(toks.take(i as int)) + seq![' ']
                        + toks[i as int]);
                }
            }
            i += 1;
        }
        proof {
            assert(toks.take(n as int) =~~= toks);
        }
        out
    }
}

/// A path is absolute when it begins with the path separator.
pub open spec fn spec_is_absolute(p: Seq<char>) -> bool {
    p.len() > 0 && p[0] == '/'
}

/// `p` resolved against the base directory `base`: an absolute path is
/// left unchanged, a relative one is joined as `base/p`.
pub open spec fn spec_absolutize_path(base: Seq<char>, p: Seq<char>) -> Seq<char> {
    if spec_is_absolute(p) {
        p
    } else {
        base + seq!['/'] + p
    }
}

/// Absolutization of one flag: only the path-bearing variants change.
pub open spec fn spec_absolutize_flag(base: Seq<char>, f: SpecCcFlag) -> SpecCcFlag {
    match f {
        SpecCcFlag::IncludeDir(p) => SpecCcFlag::IncludeDir(spec_absolutize_path(base, p)),
        SpecCcFlag::LibDir(p) => SpecCcFlag::LibDir(spec_absolutize_path(base, p)),
        SpecCcFlag::Define(s) => SpecCcFlag::Define(s),
        SpecCcFlag::Lib(s) => SpecCcFlag::Lib(s),
        SpecCcFlag::Other(s) => SpecCcFlag::Other(s),
    }
}

/// Absolutization of a whole list, flag by flag.
pub open spec fn spec_absolutize_list(base: Seq<char>, fs: Seq<SpecCcFlag>) -> Seq<SpecCcFlag> {
    fs.map_values(|f: SpecCcFlag| spec_absolutize_flag(base, f))
}

/// Resolves `p` against `base` if it is relative.
fn absolutize_path(base: &str, p: &str) -> (r: String)
    ensures
        r@ == spec_absolutize_path(base@, p@),
{
    if p.unicode_len() > 0 && p.get_char(0) == '/' {
        p.to_owned()
    } else {
        let mut out = base.to_owned();
        out.append("/");
        out.append(p);
        proof {
            reveal_strlit("/");
            assert("/"@ =~= seq!['/']);
            assert(out@ =~= base@ + seq!['/'] + p@);
        }
        out
    }
}

impl CcFlags {
    /// Returns this list with every relative `-I`/`-L` path resolved
    /// against the base directory; `-D`, `-l`, and opaque flags pass
    /// through unchanged.
    pub fn make_paths_absolute(&self, base: &str) -> (r: CcFlags)
        ensures
            r@ == spec_absolutize_list(base@, self@),
    {
        let mut out: Vec<CcFlag> = Vec::new();
        let n = self.0.len();
        let mut i: usize = 0;
        proof {
            assert(flag_seq_view(out@) =~~= spec_absolutize_list(base@, self@).take(0));
        }
        while i < n
            invariant
                n == self.0@.len(),
                i <= n,
                flag_seq_view(out@) == spec_absolutize_list(base@, self@).take(i as int),
            decreases n - i,
        {
            let ghost fv0 = flag_seq_view(out@);
            let f = match &self.0[i] {
                CcFlag::Define(s) => CcFlag::Define(s.clone()),
                CcFlag::IncludeDir(p) => CcFlag::IncludeDir(absolutize_path(base, p.as_str())),
                CcFlag::LibDir(p) => CcFlag::LibDir(absolutize_path(base, p.as_str())),
                CcFlag::Lib(s) => CcFlag::Lib(s.clone()),
                CcFlag::Other(s) => CcFlag::Other(s.clone()),
            };
            let ghost nf = f@;
            out.push(f);
            proof {
                assert(self@[i as int] == self.0@[i as int]@);
                assert(nf == spec_absolutize_flag(base@, self@[i as int]));
                assert(flag_seq_view(out@) =~~= fv0.push(nf));
                assert(fv0.push(nf) =~~= spec_absolutize_list(base@, self@).take(i + 1));
            }
            i += 1;
        }
        proof {
            assert(spec_absolutize_list(base@, self@).take(n as int)
                =~~= spec_absolutize_list(base@, self@));
        }
        CcFlags(out)
    }
}

proof fn lemma_absolutize_flag_idempotent(base: Seq<char>, f: SpecCcFlag)
    requires
        base.len() == 0 || base[0] == '/',
    ensures
        spec_absolutize_flag(base, spec_absolutize_flag(base, f)) == spec_absolutize_flag(base, f),
{
    match f {
        SpecCcFlag::IncludeDir(p) => {
            lemma_absolutize_path_idempotent(base, p);
        },
        SpecCcFlag::LibDir(p) => {
            lemma_absolutize_path_idempotent(base, p);
        },
        _ => {},
    }
}

proof fn lemma_absolutize_path_idempotent(base: Seq<char>, p: Seq<char>)
    requires
        base.len() == 0 || base[0] == '/',
    ensures
        spec_absolutize_path(base, spec_absolutize_path(base, p)) == spec_absolutize_path(base, p),
{
    if !spec_is_absolute(p) {
        let q = base + seq!['/'] + p;
        if base.len() == 0 {
            assert(q[0] == '/');
        } else {
            assert(q[0] == base[0]);
        }
        assert(spec_is_absolute(q));
    }
}

/// Law: path absolutization is idempotent. Resolving a flag list
/// against an absolute (or empty) base directory a second time changes
/// nothing, because the first pass leaves every embedded path absolute.
/// (A relative base would not do: resolving `p` against base `b` gives
/// the still-relative `b/p`, which a second pass would extend again.)
pub proof fn lemma_absolutize_idempotent(base: Seq<char>, fs: Seq<SpecCcFlag>)
    requires
        base.len() == 0 || base[0] == '/',
    ensures
        spec_absolutize_list(base, spec_absolutize_list(base, fs))
            == spec_absolutize_list(base, fs),
{
    let once = spec_absolutize_list(base, fs);
    assert forall|i: int| 0 <= i < once.len()
        implies spec_absolutize_flag(base, once[i]) == once[i] by {
        lemma_absolutize_flag_idempotent(base, fs[i]);
    }
    assert(spec_absolutize_list(base, once) =~~= once);
}

/// A flag every serialization of which stays one well-formed token: its
/// value is nonempty and free of whitespace, and an opaque token does
/// not itself begin with one of the four option prefixes.
pub open spec fn flag_wf(f: SpecCcFlag) -> bool {
    match f {
        SpecCcFlag::Define(s) => token_wf(s),
        SpecCcFlag::IncludeDir(p) => token_wf(p),
        SpecCcFlag::LibDir(p) => token_wf(p),
        SpecCcFlag::Lib(s) => token_wf(s),
        SpecCcFlag::Other(s) => token_wf(s) && matched_kind(s) is None,
    }
}

/// Classifying well-formed tokens only ever produces well-formed flags.
proof fn lemma_parse_tokens_wf(toks: Seq<Seq<char>>)
    requires
        forall|i: int| 0 <= i < toks.len() ==> token_wf(#[trigger] toks[i]),
        spec_parse_tokens(toks) is Ok,
    ensures
        forall|i: int| 0 <= i < spec_parse_tokens(toks)->Ok_0.len()
            ==> flag_wf(#[trigger] spec_parse_tokens(toks)->Ok_0[i]),
    decreases toks.len(),
{
    if toks.len() == 0 {
    } else {
        let t = toks[0];
        let res = spec_parse_tokens(toks)->Ok_0;
        match matched_kind(t) {
            Some(k) => {
                if t.len() > 2 {
                    assert(forall|i: int| 0 <= i < toks.skip(1).len()
                        ==> token_wf(#[trigger] toks.skip(1)[i]));
                    lemma_parse_tokens_wf(toks.skip(1));
                    let rest = spec_parse_tokens(toks.skip(1))->Ok_0;
                    let arg = t.skip(2);
                    assert(token_wf(arg)) by {
                        assert(forall|j: int| 0 <= j < arg.len()
                            ==> !crate::text::is_ws(#[trigger] arg[j])) by {
                            assert(forall|j: int| 0 <= j < arg.len()
                                ==> arg[j] == t[j + 2]);
                        }
                    }
                    assert(flag_wf(make_flag(k, arg))) by {
                        lemma_make_flag_wf(k, arg);
                    }
                    assert forall|i: int| 0 <= i < res.len() implies flag_wf(#[trigger] res[i]) by {
                        if i == 0 {
                            assert(res[i] == make_flag(k, arg));
                        } else {
                            assert(res[i] == rest[i - 1]);
                        }
                    }
                } else {
                    assert(toks.len() >= 2);
                    assert(forall|i: int| 0 <= i < toks.skip(2).len()
                        ==> token_wf(#[trigger] toks.skip(2)[i]));
                    lemma_parse_tokens_wf(toks.skip(2));
                    let rest = spec_parse_tokens(toks.skip(2))->Ok_0;
                    assert(flag_wf(make_flag(k, toks[1]))) by {
                        lemma_make_flag_wf(k, toks[1]);
                    }
                    assert forall|i: int| 0 <= i < res.len() implies flag_wf(#[trigger] res[i]) by {
                        if i == 0 {
                            assert(res[i] == make_flag(k, toks[1]));
                        } else {
                            assert(res[i] == rest[i - 1]);
                        }
                    }
                }
            },
            None => {
                assert(forall|i: int| 0 <= i < toks.skip(1).len()
                    ==> token_wf(#[trigger] toks.skip(1)[i]));
                lemma_parse_tokens_wf(toks.skip(1));
                let rest = spec_parse_tokens(toks.skip(1))->Ok_0;
                assert(flag_wf(SpecCcFlag::Other(t)));
                assert forall|i: int| 0 <= i < res.len() implies flag_wf(#[trigger] res[i]) by {
                    if i == 0 {
                        assert(res[i] == SpecCcFlag::Other(t));
                    } else {
                        assert(res[i] == rest[i - 1]);
                    }
                }
            },
        }
    }
}

proof fn lemma_make_flag_wf(k: FlagKind, arg: Seq<char>)
    requires
        token_wf(arg),
    ensures
        flag_wf(make_flag(k, arg)),
{
}

/// The concatenated serialization of a well-formed flag is itself one
/// well-formed token.
proof fn lemma_render_flag_wf(f: SpecCcFlag)
    requires
        flag_wf(f),
    ensures
        token_wf(spec_render_flag(f, Seq::<char>::empty())),
{
    let t = spec_render_flag(f, Seq::<char>::empty());
    match f {
        SpecCcFlag::Other(s) => {},
        SpecCcFlag::Define(s) => {
            lemma_prefixed_token_wf('D', s);
        },
        SpecCcFlag::IncludeDir(s) => {
            lemma_prefixed_token_wf('I', s);
        },
        SpecCcFlag::LibDir(s) => {
            lemma_prefixed_token_wf('L', s);
        },
        SpecCcFlag::Lib(s) => {
            lemma_prefixed_token_wf('l', s);
        },
    }
}

proof fn lemma_prefixed_token_wf(c: char, s: Seq<char>)
    requires
        token_wf(s),
        !crate::text::is_ws(c),
    ensures
        token_wf(seq!['-', c] + Seq::<char>::empty() + s),
{
    let t = seq!['-', c] + Seq::<char>::empty() + s;
    assert forall|j: int| 0 <= j < t.len() implies !crate::text::is_ws(#[trigger] t[j]) by {
        if j == 0 {
            assert(t[j] == '-');
        } else if j == 1 {
            assert(t[j] == c);
        } else {
            assert(t[j] == s[j - 2]);
        }
    }
}

/// Reclassifying the concatenated serialization of well-formed flags
/// recovers exactly those flags.
proof fn lemma_parse_rendered(fs: Seq<SpecCcFlag>)
    requires
        forall|i: int| 0 <= i < fs.len() ==> flag_wf(#[trigger] fs[i]),
    ensures
        spec_parse_tokens(spec_rendered_tokens(fs, Seq::<char>::empty()))
            == Ok::<Seq<SpecCcFlag>, Seq<char>>(fs),
    decreases fs.len(),
{
    let emp = Seq::<char>::empty();
    let toks = spec_rendered_tokens(fs, emp);
    if fs.len() == 0 {
        assert(toks.len() == 0);
        assert(fs =~~= Seq::<SpecCcFlag>::empty());
    } else {
        let f0 = fs[0];
        let t = toks[0];
        assert(t == spec_render_flag(f0, emp));
        assert(forall|i: int| 0 <= i < fs.skip(1).len() ==> flag_wf(#[trigger] fs.skip(1)[i]));
        lemma_parse_rendered(fs.skip(1));
        assert(toks.skip(1) =~~= spec_rendered_tokens(fs.skip(1), emp));
        lemma_starts_with2(t, '-', 'D');
        lemma_starts_with2(t, '-', 'L');
        lemma_starts_with2(t, '-', 'l');
        lemma_starts_with2(t, '-', 'I');
        match f0 {
            SpecCcFlag::Define(s) => {
                assert(t =~= seq!['-', 'D'] + s);
                assert(t[0] == '-' && t[1] == 'D');
                assert(matched_kind(t) == Some(FlagKind::Define));
                assert(t.skip(2) =~= s);
                assert(seq![make_flag(FlagKind::Define, s)] + fs.skip(1) =~~= fs);
            },
            SpecCcFlag::IncludeDir(s) => {
                assert(t =~= seq!['-', 'I'] + s);
                assert(t[0] == '-' && t[1] == 'I');
                assert(matched_kind(t) == Some(FlagKind::IncludeDir));
                assert(t.skip(2) =~= s);
                assert(seq![make_flag(FlagKind::IncludeDir, s)] + fs.skip(1) =~~= fs);
            },
            SpecCcFlag::LibDir(s) => {
                assert(t =~= seq!['-', 'L'] + s);
                assert(t[0] == '-' && t[1] == 'L');
                assert(matched_kind(t) == Some(FlagKind::LibDir));
                assert(t.skip(2) =~= s);
                assert(seq![make_flag(FlagKind::LibDir, s)] + fs.skip(1) =~~= fs);
            },
            SpecCcFlag::Lib(s) => {
                assert(t =~= seq!['-', 'l'] + s);
                assert(t[0] == '-' && t[1] == 'l');
                assert(matched_kind(t) == Some(FlagKind::Lib));
                assert(t.skip(2) =~= s);
                assert(seq![make_flag(FlagKind::Lib, s)] + fs.skip(1) =~~= fs);
            },
            SpecCcFlag::Other(s) => {
                assert(t == s);
                assert(matched_kind(t) is None);
                assert(seq![SpecCcFlag::Other(s)] + fs.skip(1) =~~= fs);
            },
        }
    }
}

/// Law: round-trip classification. When a flag string parses, rendering
/// the parsed flags in the concatenated convention and parsing that
/// rendering yields the same flags in the same order; in particular a
/// space-separated `-I path` collapses to `-Ipath` without changing how
/// it classifies.
pub proof fn lemma_parse_render_roundtrip(s: Seq<char>)
    requires
        spec_parse(s) is Ok,
    ensures
        spec_parse(spec_render_list(spec_parse(s)->Ok_0, Seq::<char>::empty())) == spec_parse(s),
{
    let fs = spec_parse(s)->Ok_0;
    lemma_tokenize_wf(s);
    lemma_parse_tokens_wf(tokenize(s));
    let toks = spec_rendered_tokens(fs, Seq::<char>::empty());
    assert forall|i: int| 0 <= i < toks.len() implies token_wf(#[trigger] toks[i]) by {
        lemma_render_flag_wf(fs[i]);
    }
    lemma_tokenize_join(toks);
    lemma_parse_rendered(fs);
}

/// One parsing step folds the freshly classified flag into the
/// accumulated prefix of the result.
proof fn lemma_compose_step(
    tv: Seq<Seq<char>>,
    fv0: Seq<SpecCcFlag>,
    nf: SpecCcFlag,
    i: int,
    j: int,
    flags_now: Seq<CcFlag>,
)
    requires
        0 <= i < j <= tv.len(),
        flag_seq_view(flags_now) == fv0.push(nf),
        spec_parse_tokens(tv) == (match spec_parse_tokens(tv.skip(i)) {
            Ok(rest) => Ok::<Seq<SpecCcFlag>, Seq<char>>(fv0 + rest),
            Err(e) => Err::<Seq<SpecCcFlag>, Seq<char>>(e),
        }),
        spec_parse_tokens(tv.skip(i)) == (match spec_parse_tokens(tv.skip(j)) {
            Ok(rest) => Ok::<Seq<SpecCcFlag>, Seq<char>>(seq![nf] + rest),
            Err(e) => Err::<Seq<SpecCcFlag>, Seq<char>>(e),
        }),
    ensures
        spec_parse_tokens(tv) == (match spec_parse_tokens(tv.skip(j)) {
            Ok(rest) => Ok::<Seq<SpecCcFlag>, Seq<char>>(flag_seq_view(flags_now) + rest),
            Err(e) => Err::<Seq<SpecCcFlag>, Seq<char>>(e),
        }),
{
    match spec_parse_tokens(tv.skip(j)) {
        Ok(rest) => {
            assert(fv0 + (seq![nf] + rest) =~~= fv0.push(nf) + rest);
        },
        Err(e) => {},
    }
}

} // verus!
