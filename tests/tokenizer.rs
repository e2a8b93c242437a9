use minishell::tokenizer::{parse_shell_command_params, Tokenizer};

fn words(line: &str) -> Vec<String> {
    parse_shell_command_params(line)
}

fn owned(ws: &[&str]) -> Vec<String> {
    ws.iter().map(|w| w.to_string()).collect()
}

#[test]
fn empty_line_has_no_words() {
    assert_eq!(words(""), Vec::<String>::new());
}

#[test]
fn blank_line_has_no_words() {
    assert_eq!(words("   "), Vec::<String>::new());
    assert_eq!(words(" \t \r\n "), Vec::<String>::new());
}

#[test]
fn whitespace_runs_collapse() {
    assert_eq!(words("echo  hello   world"), owned(&["echo", "hello", "world"]));
}

#[test]
fn leading_and_trailing_blanks_are_ignored() {
    assert_eq!(words("  ls   -l  "), owned(&["ls", "-l"]));
}

#[test]
fn tab_separates_words() {
    assert_eq!(words("a\tb"), owned(&["a", "b"]));
}

#[test]
fn single_quotes_keep_inner_whitespace() {
    assert_eq!(words("echo 'a  b' c"), owned(&["echo", "a  b", "c"]));
}

#[test]
fn single_quotes_keep_backslash() {
    assert_eq!(words("echo 'a\\nb'"), owned(&["echo", "a\\nb"]));
}

#[test]
fn escaped_quote_inside_double_quotes() {
    assert_eq!(words("echo \"a\\\"b\""), owned(&["echo", "a\"b"]));
}

#[test]
fn double_quotes_escape_special_characters() {
    assert_eq!(words("\"\\$x \\` \\\\\""), owned(&["$x ` \\"]));
}

#[test]
fn double_quotes_keep_backslash_before_ordinary_character() {
    assert_eq!(words("echo \"a\\nb\""), owned(&["echo", "a\\nb"]));
}

#[test]
fn double_quotes_keep_single_quote() {
    assert_eq!(words("\"it's\""), owned(&["it's"]));
}

#[test]
fn escaped_space_does_not_split() {
    assert_eq!(words("echo a\\ b"), owned(&["echo", "a b"]));
}

#[test]
fn backslash_outside_quotes_takes_next_character() {
    assert_eq!(words("a\\'b \\\"c"), owned(&["a'b", "\"c"]));
}

#[test]
fn adjacent_runs_concatenate() {
    assert_eq!(words("a'b'c"), owned(&["abc"]));
}

#[test]
fn mixed_quotes_concatenate() {
    assert_eq!(words("a'b'\"c\"d e"), owned(&["abcd", "e"]));
}

#[test]
fn unterminated_single_quote_ends_the_word() {
    assert_eq!(words("echo 'abc  def"), owned(&["echo", "abc  def"]));
}

#[test]
fn unterminated_double_quote_ends_the_word() {
    assert_eq!(words("echo \"x y"), owned(&["echo", "x y"]));
}

#[test]
fn trailing_backslash_is_dropped() {
    assert_eq!(words("ab\\"), owned(&["ab"]));
    assert_eq!(words("\"ab\\"), owned(&["ab"]));
}

#[test]
fn blank_quoted_word_is_dropped() {
    assert_eq!(words("a '  ' b ''"), owned(&["a", "b"]));
}

#[test]
fn quoted_word_is_trimmed() {
    assert_eq!(words("' x '"), owned(&["x"]));
}

#[test]
fn non_ascii_characters_pass_through() {
    assert_eq!(words("echo 'héllo wörld' ñ"), owned(&["echo", "héllo wörld", "ñ"]));
}

#[test]
fn tokenizer_fed_by_hand() {
    let mut t = Tokenizer::new();
    for c in "cat 'my file'".chars() {
        t.feed(c);
    }
    assert_eq!(t.finish(), owned(&["cat", "my file"]));
}

#[test]
fn vertical_tab_line_has_no_words() {
    assert_eq!(words("\x0B"), Vec::<String>::new());
    assert_eq!(words(" \x0B\x0C "), Vec::<String>::new());
}

#[test]
fn no_break_space_line_has_no_words() {
    assert_eq!(words("\u{A0}"), Vec::<String>::new());
    assert_eq!(words("\u{A0} \u{3000}\u{2028}\u{85}"), Vec::<String>::new());
}

#[test]
fn unicode_whitespace_separates_words() {
    assert_eq!(words("a\x0Bb"), owned(&["a", "b"]));
    assert_eq!(words("a\u{A0}b\u{2003}c\u{1680}d"), owned(&["a", "b", "c", "d"]));
}

#[test]
fn single_quoted_unicode_whitespace_gives_no_word() {
    assert_eq!(words("'\x0B'"), Vec::<String>::new());
    assert_eq!(words("x '\u{A0} y\u{205F}'"), owned(&["x", "y"]));
}

#[test]
fn non_whitespace_format_characters_stay_in_words() {
    assert_eq!(words("a\u{200B}b"), owned(&["a\u{200B}b"]));
}
