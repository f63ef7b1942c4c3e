use lammps_sys::flags::{CcFlag, CcFlags, FlagParseError};

fn parsed(s: &str) -> Vec<CcFlag> {
    CcFlags::parse(s).expect("flag string should parse").0
}

#[test]
fn order_is_preserved() {
    let flags = parsed("-Da -Lb -lc -Id other1 -lc2");
    assert_eq!(
        flags,
        vec![
            CcFlag::Define(String::from("a")),
            CcFlag::LibDir(String::from("b")),
            CcFlag::Lib(String::from("c")),
            CcFlag::IncludeDir(String::from("d")),
            CcFlag::Other(String::from("other1")),
            CcFlag::Lib(String::from("c2")),
        ]
    );
}

#[test]
fn concatenated_and_separate_arguments_agree() {
    assert_eq!(parsed("-Ipath"), parsed("-I path"));
    assert_eq!(parsed("-DNAME=V"), parsed("-D NAME=V"));
    assert_eq!(parsed("-Ldir"), parsed("-L dir"));
    assert_eq!(parsed("-lm"), parsed("-l m"));
}

#[test]
fn bare_prefix_without_argument_is_malformed() {
    assert_eq!(
        CcFlags::parse("-I"),
        Err(FlagParseError::MalformedOption(String::from("-I")))
    );
    assert_eq!(
        CcFlags::parse("-DFOO -L"),
        Err(FlagParseError::MalformedOption(String::from("-L")))
    );
}

#[test]
fn non_prefixed_token_passes_through() {
    let flags = parsed("-Wall");
    assert_eq!(flags, vec![CcFlag::Other(String::from("-Wall"))]);
    assert_eq!(flags[0].fmt_with_space(" "), "-Wall");
    assert_eq!(flags[0].fmt_with_space(""), "-Wall");
}

#[test]
fn empty_input_parses_to_no_flags() {
    assert_eq!(parsed(""), vec![]);
    assert_eq!(parsed("   \t \n"), vec![]);
}

#[test]
fn whitespace_runs_separate_tokens() {
    let flags = parsed("  -DFOO\t\t-I   dir  ");
    assert_eq!(
        flags,
        vec![
            CcFlag::Define(String::from("FOO")),
            CcFlag::IncludeDir(String::from("dir")),
        ]
    );
}

#[test]
fn prefix_argument_may_itself_look_like_an_option() {
    // The heuristic consumes the following token as the argument, no
    // matter what it looks like.
    let flags = parsed("-D -La");
    assert_eq!(flags, vec![CcFlag::Define(String::from("-La"))]);
}

#[test]
fn lower_and_upper_case_l_differ() {
    let flags = parsed("-Ldir -lname");
    assert_eq!(
        flags,
        vec![
            CcFlag::LibDir(String::from("dir")),
            CcFlag::Lib(String::from("name")),
        ]
    );
}
