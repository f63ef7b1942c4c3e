use lammps_sys::flags::{CcFlag, CcFlags};
use lammps_sys::options::{get_rerun_nonempty, mode, Mode};
use lammps_sys::probe::{define_flags, has_define, include_flags, probe_flags, ProbeError};

#[test]
fn mode_defaults_to_auto() {
    assert_eq!(mode(None), Some(Mode::Auto));
    assert_eq!(mode(Some("")), Some(Mode::Auto));
    assert_eq!(mode(Some("auto")), Some(Mode::Auto));
}

#[test]
fn mode_recognizes_the_two_explicit_sources() {
    assert_eq!(mode(Some("system")), Some(Mode::SystemOnly));
    assert_eq!(mode(Some("build")), Some(Mode::BuildOnly));
}

#[test]
fn mode_refuses_an_unknown_value() {
    assert_eq!(mode(Some("bogus")), None);
    assert_eq!(mode(Some("Auto")), None);
}

#[test]
fn empty_environment_values_count_as_absent() {
    assert_eq!(get_rerun_nonempty(None), None);
    assert_eq!(get_rerun_nonempty(Some(String::new())), None);
    assert_eq!(
        get_rerun_nonempty(Some(String::from("x"))),
        Some(String::from("x"))
    );
}

#[test]
fn probed_paths_become_include_flags() {
    let flags = include_flags(vec![String::from("/usr/include"), String::from("inc")]);
    assert_eq!(
        flags.0,
        vec![
            CcFlag::IncludeDir(String::from("/usr/include")),
            CcFlag::IncludeDir(String::from("inc")),
        ]
    );
}

#[test]
fn probed_defines_become_define_flags() {
    let flags = define_flags(vec![
        (String::from("FOO"), Some(String::from("1"))),
        (String::from("BAR"), None),
    ]);
    assert_eq!(
        flags.0,
        vec![
            CcFlag::Define(String::from("FOO=1")),
            CcFlag::Define(String::from("BAR")),
        ]
    );
}

#[test]
fn has_define_matches_the_whole_definition() {
    let flags = CcFlags(vec![
        CcFlag::Define(String::from("LAMMPS_EXCEPTIONS=1")),
        CcFlag::Lib(String::from("LAMMPS_EXCEPTIONS")),
    ]);
    assert!(!has_define(&flags, "LAMMPS_EXCEPTIONS"));
    let flags = CcFlags(vec![CcFlag::Define(String::from("LAMMPS_EXCEPTIONS"))]);
    assert!(has_define(&flags, "LAMMPS_EXCEPTIONS"));
}

#[test]
fn probe_refuses_a_library_without_required_exceptions() {
    let defines = vec![(String::from("FOO"), None)];
    let r = probe_flags(vec![], defines.clone(), true);
    assert_eq!(r, Err(ProbeError::MissingExceptions));
    let r = probe_flags(vec![], defines, false);
    assert!(r.is_ok());
}

#[test]
fn probe_accepts_a_library_with_exceptions() {
    let defines = vec![(String::from("LAMMPS_EXCEPTIONS"), None)];
    let (incs, defs) = probe_flags(vec![String::from("/opt/inc")], defines, true).unwrap();
    assert_eq!(incs.0, vec![CcFlag::IncludeDir(String::from("/opt/inc"))]);
    assert_eq!(defs.0, vec![CcFlag::Define(String::from("LAMMPS_EXCEPTIONS"))]);
}
