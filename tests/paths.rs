use minishell::paths::{get_path_string, next_pwd, CdError};

fn cd(curr: &str, next: &str) -> Result<String, CdError> {
    get_path_string(curr, next, Some("/home/me"))
}

#[test]
fn parent_of_nested_directory() {
    assert_eq!(cd("/usr/local", ".."), Ok("/usr".to_string()));
}

#[test]
fn parent_of_root_is_an_error() {
    assert_eq!(cd("/", ".."), Err(CdError::AboveRoot));
}

#[test]
fn parent_of_top_level_directory_is_root() {
    assert_eq!(cd("/usr", ".."), Ok("/".to_string()));
}

#[test]
fn absolute_target_ignores_current() {
    assert_eq!(cd("/usr", "/etc"), Ok("/etc".to_string()));
    assert_eq!(cd("/usr", "/etc/../x/"), Ok("/etc/../x/".to_string()));
}

#[test]
fn dot_keeps_current_directory() {
    assert_eq!(cd("/usr/local", "."), Ok("/usr/local".to_string()));
    assert_eq!(cd("/", "."), Ok("/".to_string()));
}

#[test]
fn dot_then_segments() {
    assert_eq!(cd("/usr", "./bin/x"), Ok("/usr/bin/x".to_string()));
}

#[test]
fn relative_segment_is_appended() {
    assert_eq!(cd("/usr", "bin"), Ok("/usr/bin".to_string()));
    assert_eq!(cd("/", "tmp"), Ok("/tmp".to_string()));
}

#[test]
fn inner_dot_dot_pops() {
    assert_eq!(cd("/usr", "a/b/../c"), Ok("/usr/a/c".to_string()));
    assert_eq!(cd("/a/b/c", "../../d"), Ok("/a/d".to_string()));
}

#[test]
fn inner_dot_dot_above_root_is_an_error() {
    assert_eq!(cd("/a", "../.."), Err(CdError::AboveRoot));
    assert_eq!(cd("/", "a/../.."), Err(CdError::AboveRoot));
}

#[test]
fn empty_segment_stops_the_walk() {
    assert_eq!(cd("/usr", "a//b"), Ok("/usr/a".to_string()));
    assert_eq!(cd("/usr", "a/"), Ok("/usr/a".to_string()));
    assert_eq!(cd("/usr", ""), Ok("/usr".to_string()));
}

#[test]
fn inner_dot_is_kept_as_a_segment() {
    assert_eq!(cd("/usr", "a/./b"), Ok("/usr/a/./b".to_string()));
}

#[test]
fn tilde_goes_home() {
    assert_eq!(cd("/usr", "~"), Ok("/home/me".to_string()));
    assert_eq!(cd("/usr", "~/docs/../src"), Ok("/home/me/src".to_string()));
}

#[test]
fn tilde_without_home_is_an_error() {
    assert_eq!(get_path_string("/usr", "~", None), Err(CdError::HomeNotSet));
    assert_eq!(get_path_string("/usr", "~/x", None), Err(CdError::HomeNotSet));
}

#[test]
fn home_is_not_needed_elsewhere() {
    assert_eq!(get_path_string("/usr", "..", None), Ok("/".to_string()));
    assert_eq!(get_path_string("/usr", "~x", None), Ok("/usr/~x".to_string()));
}

#[test]
fn untidy_current_directory_is_normalised() {
    assert_eq!(cd("/usr//local/", "."), Ok("/usr/local".to_string()));
}

#[test]
fn error_messages() {
    assert_eq!(CdError::AboveRoot.message(), "Tried going above root");
    assert_eq!(CdError::HomeNotSet.message(), "cd: HOME not set");
}

#[test]
fn next_pwd_takes_listable_result() {
    assert_eq!(next_pwd("/usr", Ok("/usr/bin".to_string()), true), "/usr/bin");
}

#[test]
fn next_pwd_keeps_old_when_not_listable() {
    assert_eq!(next_pwd("/usr", Ok("/usr/nope".to_string()), false), "/usr");
}

#[test]
fn next_pwd_keeps_old_on_error() {
    assert_eq!(next_pwd("/", Err(CdError::AboveRoot), true), "/");
    assert_eq!(next_pwd("/usr", Err(CdError::HomeNotSet), false), "/usr");
}
