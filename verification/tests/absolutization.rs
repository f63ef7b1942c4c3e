use lammps_sys::flags::{CcFlag, CcFlags};

#[test]
fn relative_paths_are_resolved_against_the_base() {
    let flags = CcFlags::parse("-Iinclude -Llib").unwrap();
    let abs = flags.make_paths_absolute("/base");
    assert_eq!(
        abs.0,
        vec![
            CcFlag::IncludeDir(String::from("/base/include")),
            CcFlag::LibDir(String::from("/base/lib")),
        ]
    );
}

#[test]
fn absolute_paths_are_left_alone() {
    let flags = CcFlags::parse("-I/usr/include -L/usr/lib").unwrap();
    let abs = flags.make_paths_absolute("/base");
    assert_eq!(abs, flags);
}

#[test]
fn non_path_flags_pass_through() {
    let flags = CcFlags::parse("-DFOO -lm -Wall").unwrap();
    let abs = flags.make_paths_absolute("/base");
    assert_eq!(abs, flags);
}

#[test]
fn absolutization_is_idempotent() {
    let flags = CcFlags::parse("-Iinc -I/abs -Lrel/dir -DX -lm other").unwrap();
    let once = flags.make_paths_absolute("/base");
    let twice = once.make_paths_absolute("/base");
    assert_eq!(once, twice);
}
