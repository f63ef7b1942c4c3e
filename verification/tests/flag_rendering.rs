use lammps_sys::flags::{CcFlag, CcFlags};

#[test]
fn space_and_concatenated_rendering_of_lib() {
    let f = CcFlag::Lib(String::from("iberty"));
    assert_eq!(f.fmt_with_space(" "), "-l iberty");
    assert_eq!(f.fmt_with_space(""), "-liberty");
}

#[test]
fn each_variant_renders_with_its_prefix() {
    assert_eq!(CcFlag::Define(String::from("X=1")).fmt_with_space(""), "-DX=1");
    assert_eq!(CcFlag::IncludeDir(String::from("inc")).fmt_with_space(" "), "-I inc");
    assert_eq!(CcFlag::LibDir(String::from("lib")).fmt_with_space(""), "-Llib");
    assert_eq!(CcFlag::Other(String::from("--verbose")).fmt_with_space(" "), "--verbose");
}

#[test]
fn to_args_yields_atomic_tokens() {
    let flags = CcFlags::parse("-I dir -DFOO -lm x").unwrap();
    assert_eq!(flags.to_args(), vec!["-Idir", "-DFOO", "-lm", "x"]);
}

#[test]
fn render_joins_flags_with_single_spaces() {
    let flags = CcFlags::parse("-I dir -lm").unwrap();
    assert_eq!(flags.render(" "), "-I dir -l m");
    assert_eq!(flags.render(""), "-Idir -lm");
    let none = CcFlags::parse("").unwrap();
    assert_eq!(none.render(" "), "");
}

#[test]
fn roundtrip_collapses_separate_arguments() {
    let first = CcFlags::parse("-DFOO -I dir -Lpath -lm -Wall -l c2").unwrap();
    let rendered = first.render("");
    assert_eq!(rendered, "-DFOO -Idir -Lpath -lm -Wall -lc2");
    let second = CcFlags::parse(&rendered).unwrap();
    assert_eq!(first, second);
}

#[test]
fn roundtrip_keeps_concatenated_rendering_fixed() {
    let first = CcFlags::parse("-Ia b -Dc").unwrap();
    let rendered = first.render("");
    let second = CcFlags::parse(&rendered).unwrap();
    assert_eq!(second.render(""), rendered);
}
