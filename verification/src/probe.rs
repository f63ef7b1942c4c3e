//! Shaping what a system-library probe reports — include paths and
//! preprocessor definitions — into classified flag lists, and checking
//! them for the definitions an enabled feature requires.

use vstd::prelude::*;

use crate::flags::{flag_seq_view, CcFlag, CcFlags, SpecCcFlag};
use crate::text::str_eq;

verus! {

/// Why a probed system library is refused.
#[derive(Debug, PartialEq, Eq)]
pub enum ProbeError {
    /// The library was built without the exception-support definition
    /// that the enabled feature requires.
    MissingExceptions,
}

/// One `-I` flag per reported include path, in order.
pub open spec fn spec_include_flags(ps: Seq<Seq<char>>) -> Seq<SpecCcFlag> {
    ps.map_values(|p: Seq<char>| SpecCcFlag::IncludeDir(p))
}

/// The `-D` flag a probed definition becomes: `KEY=VALUE` with a
/// value, bare `KEY` without one.
pub open spec fn spec_define_flag(d: (Seq<char>, Option<Seq<char>>)) -> SpecCcFlag {
    match d.1 {
        Some(v) => SpecCcFlag::Define(d.0 + seq!['='] + v),
        None => SpecCcFlag::Define(d.0),
    }
}

/// One `-D` flag per probed definition, in order.
pub open spec fn spec_define_flags(ds: Seq<(Seq<char>, Option<Seq<char>>)>) -> Seq<SpecCcFlag> {
    ds.map_values(|d: (Seq<char>, Option<Seq<char>>)| spec_define_flag(d))
}

/// Turns probed include paths into `-I` flags.
pub fn include_flags(paths: Vec<String>) -> (r: CcFlags)
    ensures
        r@ == spec_include_flags(paths.deep_view()),
{
    let ghost pv = paths.deep_view();
    let mut out: Vec<CcFlag> = Vec::new();
    let n = paths.len();
    let mut i: usize = 0;
    proof {
        assert(flag_seq_view(out@) =~~= spec_include_flags(pv).take(0));
    }
    while i < n
        invariant
            n == paths@.len(),
            pv == paths.deep_view(),
            i <= n,
            flag_seq_view(out@) == spec_include_flags(pv).take(i as int),
        decreases n - i,
    {
        let ghost fv0 = flag_seq_view(out@);
        let f = CcFlag::IncludeDir(paths[i].clone());
        let ghost nf = f@;
        out.push(f);
        proof {
            assert(pv[i as int] == paths@[i as int]@);
            assert(nf == spec_include_flags(pv)[i as int]);
            assert(flag_seq_view(out@) =~~= fv0.push(nf));
            assert(fv0.push(nf) =~~= spec_include_flags(pv).take(i + 1));
        }
        i += 1;
    }
    proof {
        assert(spec_include_flags(pv).take(n as int) =~~= spec_include_flags(pv));
    }
    CcFlags(out)
}

/// Turns probed definitions into `-D` flags.
pub fn define_flags(defines: Vec<(String, Option<String>)>) -> (r: CcFlags)
    ensures
        r@ == spec_define_flags(defines.deep_view()),
{
    let ghost dv = defines.deep_view();
    let mut out: Vec<CcFlag> = Vec::new();
    let n = defines.len();
    let mut i: usize = 0;
    proof {
        assert(flag_seq_view(out@) =~~= spec_define_flags(dv).take(0));
    }
    while i < n
        invariant
            n == defines@.len(),
            dv == defines.deep_view(),
            i <= n,
            flag_seq_view(out@) == spec_define_flags(dv).take(i as int),
        decreases n - i,
    {
        let ghost fv0 = flag_seq_view(out@);
        let f = match &defines[i].1 {
            Some(v) => {
                let mut s = defines[i].0.clone();
                s.append("=");
                s.append(v.as_str());
                proof {
                    reveal_strlit("=");
                    assert("="@ =~= seq!['=']);
                    assert(s@ =~= dv[i as int].0 + seq!['='] + dv[i as int].1->Some_0);
                }
                CcFlag::Define(s)
            },
            None => CcFlag::Define(defines[i].0.clone()),
        };
        let ghost nf = f@;
        out.push(f);
        proof {
            assert(dv[i as int] == defines@[i as int].deep_view());
            assert(nf == spec_define_flags(dv)[i as int]);
            assert(flag_seq_view(out@) =~~= fv0.push(nf));
            assert(fv0.push(nf) =~~= spec_define_flags(dv).take(i + 1));
        }
        i += 1;
    }
    proof {
        assert(spec_define_flags(dv).take(n as int) =~~= spec_define_flags(dv));
    }
    CcFlags(out)
}

/// Whether the list holds exactly the given bare `-D` definition.
pub fn has_define(flags: &CcFlags, name: &str) -> (r: bool)
    ensures
        r == flags@.contains(SpecCcFlag::Define(name@)),
{
    let n = flags.0.len();
    let mut i: usize = 0;
    while i < n
        invariant
            n == flags.0@.len(),
            i <= n,
            forall|j: int| 0 <= j < i ==> flags@[j] != SpecCcFlag::Define(name@),
        decreases n - i,
    {
        let is_match = match &flags.0[i] {
            CcFlag::Define(s) => str_eq(s.as_str(), name),
            _ => false,
        };
        proof {
            assert(flags@[i as int] == flags.0@[i as int]@);
        }
        if is_match {
            proof {
                assert(flags@[i as int] == SpecCcFlag::Define(name@));
            }
            return true;
        }
        proof {
            assert(flags@[i as int] != SpecCcFlag::Define(name@));
        }
        i += 1;
    }
    proof {
        if flags@.contains(SpecCcFlag::Define(name@)) {
            let j = choose|j: int|
                0 <= j < flags@.len() && flags@[j] == SpecCcFlag::Define(name@);
            assert(false);
        }
    }
    false
}

/// Shapes a system-library probe's report into the `-I` and `-D` flag
/// lists binding generation needs. A library lacking the bare
/// exception-support definition is refused when that feature is
/// demanded, and accepted otherwise.
pub fn probe_flags(
    include_paths: Vec<String>,
    defines: Vec<(String, Option<String>)>,
    require_exceptions: bool,
) -> (r: Result<(CcFlags, CcFlags), ProbeError>)
    ensures
        ({
            let acceptable = !require_exceptions || spec_define_flags(
                defines.deep_view(),
            ).contains(SpecCcFlag::Define("LAMMPS_EXCEPTIONS"@));
            match r {
                Ok(p) => acceptable && p.0@ == spec_include_flags(include_paths.deep_view())
                    && p.1@ == spec_define_flags(defines.deep_view()),
                Err(e) => !acceptable && e == ProbeError::MissingExceptions,
            }
        }),
{
    let incs = include_flags(include_paths);
    let defs = define_flags(defines);
    if require_exceptions && !has_define(&defs, "LAMMPS_EXCEPTIONS") {
        Err(ProbeError::MissingExceptions)
    } else {
        Ok((incs, defs))
    }
}

} // verus!
