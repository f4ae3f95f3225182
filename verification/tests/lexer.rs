use zero_shell::lexer::{expand_one, expand_vars_and_tilde, split_words, Env};

fn words(v: &[&str]) -> Vec<String> {
    v.iter().map(|s| s.to_string()).collect()
}

fn env(pairs: &[(&str, &str)]) -> Env {
    Env::new(pairs.iter().map(|(k, v)| (k.to_string(), v.to_string())).collect())
}

#[test]
fn split_plain_words() {
    assert_eq!(split_words("echo hi").unwrap(), words(&["echo", "hi"]));
    assert_eq!(split_words("  echo   something else  ").unwrap(), words(&["echo", "something", "else"]));
    assert_eq!(split_words("").unwrap(), words(&[]));
    assert_eq!(split_words("   \t ").unwrap(), words(&[]));
}

#[test]
fn split_double_quotes() {
    assert_eq!(split_words("echo \"something!\"").unwrap(), words(&["echo", "something!"]));
    assert_eq!(split_words("echo \"a  b\" c").unwrap(), words(&["echo", "a  b", "c"]));
    assert_eq!(split_words("\"it's\"").unwrap(), words(&["it's"]));
    assert_eq!(split_words("a\"b c\"d").unwrap(), words(&["ab cd"]));
}

#[test]
fn split_single_quotes() {
    assert_eq!(split_words("echo 'a \\ \"b\"'").unwrap(), words(&["echo", "a \\ \"b\""]));
    assert_eq!(split_words("'$HOME'").unwrap(), words(&["$HOME"]));
}

#[test]
fn split_empty_quotes_give_no_word() {
    assert_eq!(split_words("''").unwrap(), words(&[]));
    assert_eq!(split_words("a \"\" b").unwrap(), words(&["a", "b"]));
}

#[test]
fn split_backslash() {
    assert_eq!(split_words("a\\ b").unwrap(), words(&["a b"]));
    assert_eq!(split_words("\"a\\\"b\"").unwrap(), words(&["a\"b"]));
    assert_eq!(split_words("x\\").unwrap(), words(&["x"]));
    assert_eq!(split_words("\\'").unwrap(), words(&["'"]));
}

#[test]
fn split_unicode_whitespace() {
    assert_eq!(split_words("a\u{a0}b\u{3000}c").unwrap(), words(&["a", "b", "c"]));
    assert_eq!(split_words("a\nb").unwrap(), words(&["a", "b"]));
}

#[test]
fn split_unclosed_quotes() {
    assert_eq!(split_words("echo 'abc").unwrap_err(), "unclosed quotes");
    assert_eq!(split_words("echo \"abc").unwrap_err(), "unclosed quotes");
    assert_eq!(split_words("'\"'\"").unwrap_err(), "unclosed quotes");
}

#[test]
fn plain_words_read_back() {
    let ws = words(&["ls", "-l", "dir/file.txt", "x=1"]);
    assert_eq!(split_words(&ws.join(" ")).unwrap(), ws);
}

#[test]
fn escaped_text_reads_back() {
    let text = "a b'c\"d\\e";
    let escaped: String = text.chars().flat_map(|c| ['\\', c]).collect();
    assert_eq!(split_words(&escaped).unwrap(), words(&[text]));
}

#[test]
fn single_quoted_text_reads_back() {
    let text = "a  b \"c\" \\ $d";
    assert_eq!(split_words(&format!("'{}'", text)).unwrap(), words(&[text]));
}

#[test]
fn expand_variables() {
    let e = env(&[("HOME", "/home/me"), ("USER", "me"), ("A_1", "x")]);
    assert_eq!(expand_one(&"$HOME".to_string(), &e), "/home/me");
    assert_eq!(expand_one(&"hi $USER!".to_string(), &e), "hi me!");
    assert_eq!(expand_one(&"$A_1$USER".to_string(), &e), "xme");
    assert_eq!(expand_one(&"$NOPE-x".to_string(), &e), "-x");
    assert_eq!(expand_one(&"$".to_string(), &e), "$");
    assert_eq!(expand_one(&"a$ b".to_string(), &e), "a$ b");
    assert_eq!(expand_one(&"$$USER".to_string(), &e), "$me");
}

#[test]
fn expand_tilde() {
    let e = env(&[("HOME", "/home/me")]);
    assert_eq!(expand_one(&"~".to_string(), &e), "/home/me");
    assert_eq!(expand_one(&"~/sub".to_string(), &e), "/home/me/sub");
    assert_eq!(expand_one(&"~other".to_string(), &e), "~other");
    assert_eq!(expand_one(&"a~".to_string(), &e), "a~");
    let none = env(&[]);
    assert_eq!(expand_one(&"~".to_string(), &none), "~");
    assert_eq!(expand_one(&"~/x".to_string(), &none), "~/x");
}

#[test]
fn expand_tilde_then_variables() {
    let e = env(&[("HOME", "/h/$X"), ("X", "y")]);
    assert_eq!(expand_one(&"~".to_string(), &e), "/h/y");
}

#[test]
fn expand_first_entry_wins() {
    let e = env(&[("V", "1"), ("V", "2")]);
    assert_eq!(expand_one(&"$V".to_string(), &e), "1");
    assert_eq!(e.get("V"), Some("1".to_string()));
    assert_eq!(e.get("W"), None);
}

#[test]
fn expand_all_words() {
    let e = env(&[("HOME", "/root")]);
    let out = expand_vars_and_tilde(words(&["echo", "~", "$HOME/x", "plain"]), &e);
    assert_eq!(out, words(&["echo", "/root", "/root/x", "plain"]));
}

#[test]
fn double_quoted_text_reads_back() {
    let text = "it's  a\tb $x";
    assert_eq!(split_words(&format!("\"{}\"", text)).unwrap(), words(&[text]));
}

#[test]
fn plain_text_is_not_expanded() {
    let e = env(&[("HOME", "/home/me"), ("x", "1")]);
    for t in ["plain/text", "a~b", "", "x=1,y"] {
        assert_eq!(expand_one(&t.to_string(), &e), t);
    }
}

#[test]
fn unquoted_lines_split_like_split_whitespace() {
    for line in ["  ls   -l\t-a  ", "echo a\nb", "", "   ", "a\u{3000}b\u{a0}c\u{2028}", "one", "\tx  y\r\n"] {
        let expected: Vec<String> = line.split_whitespace().map(String::from).collect();
        assert_eq!(split_words(line), Ok(expected));
    }
}
