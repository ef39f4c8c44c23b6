use zero_shell::command_call::{parse_line, tokenize, CommandCall};

#[test]
fn test_tokenize_simple() {
    let tokens = tokenize("ls -la /home");
    assert_eq!(tokens, vec!["ls", "-la", "/home"]);
}

#[test]
fn test_tokenize_quotes() {
    let tokens = tokenize("echo \"hello world\" 'single quote'");
    assert_eq!(tokens, vec!["echo", "hello world", "single quote"]);
}

#[test]
fn test_tokenize_escapes() {
    let tokens = tokenize("echo \\\"hello\\ world\\\"");
    assert_eq!(tokens, vec!["echo", "\"hello world\""]);
}

#[test]
fn test_parse_line_chaining() {
    let calls = parse_line("ls -l; echo hi");
    assert_eq!(calls.len(), 2);
    assert_eq!(calls[0].name, "ls");
    assert_eq!(calls[0].flags, vec!["-l"]);
    assert_eq!(calls[1].name, "echo");
    assert_eq!(calls[1].args, vec!["hi"]);
}

#[test]
fn test_parse_line_flags_expansion() {
    let calls = parse_line("ls -la /tmp");
    assert_eq!(calls[0].flags, vec!["-l", "-a"]);
    assert_eq!(calls[0].args, vec!["/tmp"]);
}

#[test]
fn test_parse_line_long_flags() {
    let calls = parse_line("ls --all /tmp");
    assert_eq!(calls[0].flags, vec!["--all"]);
}

#[test]
fn test_tokenize_mixed_quotes() {
    let tokens = tokenize("echo \"hello world\" 'a b'");
    assert_eq!(tokens, vec!["echo", "hello world", "a b"]);
}

#[test]
fn test_tokenize_escaped_space() {
    // An escaped space does not split a word.
    let tokens = tokenize("a\\ b");
    assert_eq!(tokens, vec!["a b"]);
}

#[test]
fn test_tokenize_whitespace_runs() {
    // With no quotes or backslashes, tokenizing is splitting on runs of
    // whitespace with empty fields discarded.
    let tokens = tokenize("  a \t  b  ");
    assert_eq!(tokens, vec!["a", "b"]);
    assert_eq!(tokenize("   "), Vec::<String>::new());
}

#[test]
fn test_tokenize_unterminated_quote() {
    // Malformed quoting is not validated: the scan simply ends.
    assert_eq!(tokenize("'abc"), vec!["abc"]);
    assert_eq!(tokenize("\"a b"), vec!["a b"]);
    assert_eq!(tokenize("ab\\"), vec!["ab"]);
}

#[test]
fn test_tokenize_double_quote_escapes() {
    // Inside double quotes only `"`, `\` and `$` are escapable; any other
    // escaped character keeps its backslash.
    assert_eq!(tokenize("\"a\\\"b\""), vec!["a\"b"]);
    assert_eq!(tokenize("\"a\\$b\""), vec!["a$b"]);
    assert_eq!(tokenize("\"a\\nb\""), vec!["a\\nb"]);
}

#[test]
fn test_tokenize_quote_suppression() {
    // A single quote inside double quotes is a literal character, and the
    // other way round.
    assert_eq!(tokenize("\"it's\""), vec!["it's"]);
    assert_eq!(tokenize("'say \"hi\"'"), vec!["say \"hi\""]);
}

#[test]
fn test_tokenize_empty_quotes_emit_nothing() {
    // Quotes alone never start a word: only accumulated characters are
    // emitted.
    assert_eq!(tokenize("a '' b"), vec!["a", "b"]);
}

#[test]
fn test_tokenize_word_round_trip() {
    // Tokenization is normalizing, not lossless: any output word, requoted
    // by escaping each of its characters, tokenizes back to that word.
    let words = tokenize("echo \"hello world\" 'a b' c\\ d");
    assert_eq!(words, vec!["echo", "hello world", "a b", "c d"]);
    for w in words {
        let mut quoted = String::new();
        for c in w.chars() {
            quoted.push('\\');
            quoted.push(c);
        }
        assert_eq!(tokenize(&quoted), vec![w]);
    }
}

#[test]
fn test_parse_line_empty() {
    assert_eq!(parse_line(""), Vec::<CommandCall>::new());
    assert_eq!(parse_line(";;;"), Vec::<CommandCall>::new());
    assert_eq!(parse_line("  ;  ; "), Vec::<CommandCall>::new());
}

#[test]
fn test_parse_line_dash_is_positional() {
    // The lone dash is the conventional stdin placeholder: it lands in
    // args, never in flags.
    let calls = parse_line("cat - file.txt");
    assert_eq!(calls[0].flags, Vec::<String>::new());
    assert_eq!(calls[0].args, vec!["-", "file.txt"]);
}

#[test]
fn test_parse_line_lowercases_name() {
    let calls = parse_line("LS -l");
    assert_eq!(calls[0].name, "ls");
    assert_eq!(calls[0].flags, vec!["-l"]);
}

#[test]
fn test_parse_line_double_dash_kept_whole() {
    let calls = parse_line("x -- --all -ab");
    assert_eq!(calls[0].name, "x");
    assert_eq!(calls[0].flags, vec!["--", "--all", "-a", "-b"]);
    assert_eq!(calls[0].args, Vec::<String>::new());
}

#[test]
fn test_parse_line_semicolon_in_quotes_still_splits() {
    // The chaining split is textual and does not respect quoting: a `;`
    // inside quotes still ends the chunk (a documented limitation).
    let calls = parse_line("echo 'a;b'");
    assert_eq!(calls.len(), 2);
    assert_eq!(calls[0].name, "echo");
    assert_eq!(calls[0].args, vec!["a"]);
    assert_eq!(calls[1].name, "b");
}
