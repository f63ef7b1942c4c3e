use lammps_sys::config::{get_var, read_simple_lines, set_var, ConfigError};

#[test]
fn single_variable_extraction() {
    let text = "LMP_INC = -DFOO -DBAR\nOTHER = x";
    assert_eq!(get_var(text, "LMP_INC"), Ok(String::from("-DFOO -DBAR")));
}

#[test]
fn rewriting_leaves_other_lines_untouched() {
    let text = "LMP_INC = -DFOO -DBAR\nOTHER = x";
    assert_eq!(
        set_var(text, "LMP_INC", "-DBAZ"),
        Ok(String::from("LMP_INC = -DBAZ\nOTHER = x"))
    );
}

#[test]
fn missing_variable_is_unknown() {
    let text = "A = 1\nB = 2";
    assert_eq!(
        get_var(text, "C"),
        Err(ConfigError::UnknownVariable(String::from("C")))
    );
    assert_eq!(
        set_var(text, "C", "3"),
        Err(ConfigError::UnknownVariable(String::from("C")))
    );
}

#[test]
fn duplicate_variable_is_unknown() {
    let text = "A = 1\nA = 2";
    assert_eq!(
        get_var(text, "A"),
        Err(ConfigError::UnknownVariable(String::from("A")))
    );
}

#[test]
fn continued_line_is_refused() {
    let text = "A = one \\\nB = 2";
    assert_eq!(get_var(text, "A"), Err(ConfigError::ContinuedLine));
    assert_eq!(set_var(text, "A", "x"), Err(ConfigError::ContinuedLine));
}

#[test]
fn name_must_match_a_whole_word() {
    let text = "LMP_INCX = 1\nLMP_INC=2";
    assert_eq!(get_var(text, "LMP_INC"), Ok(String::from("2")));
}

#[test]
fn blanks_before_the_equals_sign_are_allowed() {
    let text = "NAME\t = v";
    assert_eq!(get_var(text, "NAME"), Ok(String::from("v")));
    assert_eq!(set_var(text, "NAME", "w"), Ok(String::from("NAME\t = w")));
}

#[test]
fn value_whitespace_is_trimmed() {
    let text = "A =   spaced value  ";
    assert_eq!(get_var(text, "A"), Ok(String::from("spaced value")));
}

#[test]
fn simple_lines_skip_comments_and_blanks() {
    let text = "  a # trailing comment\n\n b \n# whole-line comment\nc#d";
    assert_eq!(
        read_simple_lines(text, "#"),
        vec![String::from("a"), String::from("b"), String::from("c")]
    );
}

#[test]
fn simple_lines_of_empty_text_are_none() {
    assert_eq!(read_simple_lines("", "#"), Vec::<String>::new());
    assert_eq!(read_simple_lines("   \n\t\n", "#"), Vec::<String>::new());
}
