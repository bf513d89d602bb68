use punktum::encoding::Encoding;
use punktum::env::parse_bool;
use punktum::env::EmptyEnv;
use punktum::env::EnvMap;
use punktum::env::SystemEnv;
use punktum::escape::unescape_value;
use punktum::python_dotenv_cli::config_python_dotenv_cli;
use punktum::Error;
use punktum::Options;

fn parse(input: &str, strict: bool) -> (EnvMap, Result<(), Error>) {
    let mut env = EnvMap::new();
    let options = Options { encoding: Encoding::UTF8, strict, override_env: false };
    let r = config_python_dotenv_cli(input.as_bytes(), &mut env, &options);
    (env, r)
}

fn value_of(input: &str, key: &str) -> String {
    let (env, r) = parse(input, true);
    assert_eq!(r, Ok(()), "parsing {input:?} should succeed");
    env.get(key).unwrap_or_else(|| panic!("{key} should be set by {input:?}"))
}

#[test]
fn escape_sequences_decode() {
    assert_eq!(value_of("KEY=\"a\\nb\"", "KEY"), "a\nb");
    assert_eq!(value_of("KEY=\"\\x48\\x45\\x58\"", "KEY"), "HEX");
    assert_eq!(value_of("KEY=\"\\101\"", "KEY"), "A");
    assert_eq!(value_of("KEY=\"\\u00e4\"", "KEY"), "\u{e4}");
    assert_eq!(value_of("KEY=\"\\U0001F603\"", "KEY"), "\u{1F603}");
    assert_eq!(value_of("KEY=\"\\a\\b\\f\\r\\t\\v\"", "KEY"), "\u{7}\u{8}\u{c}\r\t\u{b}");
    assert_eq!(value_of("KEY=\"q:\\\" b:\\\\ s:\\'\"", "KEY"), "q:\" b:\\ s:'");
}

#[test]
fn octal_stops_after_three_digits() {
    assert_eq!(value_of("KEY=\"\\1018\"", "KEY"), "A8");
    assert_eq!(value_of("KEY=\"\\12\"", "KEY"), "\n");
    assert_eq!(value_of("KEY=\"\\7x\"", "KEY"), "\u{7}x");
    assert_eq!(value_of("KEY=\"\\377\"", "KEY"), "\u{ff}");
}

#[test]
fn line_continuation_inside_escape_decoder() {
    // a backslash right before a newline drops both characters
    let interior: Vec<char> = "one\\\ntwo".chars().collect();
    let out = unescape_value(&interior, true).unwrap();
    assert_eq!(out.iter().collect::<String>(), "onetwo");

    // at the file level the line splitter runs first, so a quoted value
    // never holds a raw newline: the opening line stays unquoted text
    let (env, r) = parse("KEY=\"one\\\ntwo\"\n", true);
    assert_eq!(r, Ok(()));
    assert_eq!(env.get("KEY").unwrap(), "\"one\\");
}

#[test]
fn single_quotes_are_verbatim() {
    assert_eq!(value_of("KEY='a\\nb'", "KEY"), "a\\nb");
    assert_eq!(value_of("KEY='\\x48\\u00e4'", "KEY"), "\\x48\\u00e4");
}

#[test]
fn unquoted_values_are_verbatim() {
    assert_eq!(value_of("KEY=a\\nb", "KEY"), "a\\nb");
    assert_eq!(value_of("KEY=  padded value  ", "KEY"), "padded value");
    assert_eq!(value_of("JSON1={\"foo\": \"bar \\n no quotes", "JSON1"), "{\"foo\": \"bar \\n no quotes");
}

#[test]
fn truncated_escapes_fall_back_non_strict() {
    let (env, r) = parse("KEY=\"\\x4\"", false);
    assert_eq!(r, Ok(()));
    let v = env.get("KEY").unwrap();
    assert!(v.starts_with('\\'), "{v:?} should begin with the literal backslash");
    assert_eq!(v, "\\x4");

    let (env, r) = parse("KEY=\"\\u12\"", false);
    assert_eq!(r, Ok(()));
    assert_eq!(env.get("KEY").unwrap(), "\\u12");

    let (env, r) = parse("KEY=\"\\400\"", false);
    assert_eq!(r, Ok(()));
    assert_eq!(env.get("KEY").unwrap(), "\\400");

    let (env, r) = parse("KEY=\"\\q\"", false);
    assert_eq!(r, Ok(()));
    assert_eq!(env.get("KEY").unwrap(), "\\q");

    // a lone trailing backslash is kept: recovery drops no characters
    let (env, r) = parse("KEY=\"abc\\\"", false);
    assert_eq!(r, Ok(()));
    assert_eq!(env.get("KEY").unwrap(), "abc\\");

    // an unpaired surrogate is rejected and kept literally
    let (env, r) = parse("KEY=\"\\ud800\"", false);
    assert_eq!(r, Ok(()));
    assert_eq!(env.get("KEY").unwrap(), "\\ud800");
}

#[test]
fn strict_mode_aborts_with_line_number() {
    let input = "GOOD=1\nALSO=\"fine\"\nBAD=\"\\x4\"\nLATER=2\n";
    let (env, r) = parse(input, true);
    assert_eq!(r, Err(Error::Syntax { line: 3, column: 1 }));
    // pairs before the failing line were already delivered
    assert_eq!(env.get("GOOD").unwrap(), "1");
    assert_eq!(env.get("ALSO").unwrap(), "fine");
    assert!(env.get("LATER").is_none());

    let (_, r) = parse("A=\"\\q\"", true);
    assert_eq!(r, Err(Error::Syntax { line: 1, column: 1 }));
    let (_, r) = parse("# c\n\nA=\"\\U00110000\"", true);
    assert_eq!(r, Err(Error::Syntax { line: 3, column: 1 }));
}

#[test]
fn export_prefix_is_equivalent() {
    let (env, r) = parse("export KEY=value\n", false);
    assert_eq!(r, Ok(()));
    let (env2, r2) = parse("KEY=value\n", false);
    assert_eq!(r2, Ok(()));
    assert_eq!(env.get("KEY"), env2.get("KEY"));
    assert_eq!(env.get("KEY").unwrap(), "value");
    // the prefix needs its trailing space and is stripped only once
    assert_eq!(value_of("export export A=1", "export A"), "1");
    assert!(parse("exportKEY=1\n", false).0.get("KEY").is_none());
    assert_eq!(value_of("exportKEY=1", "exportKEY"), "1");
}

#[test]
fn comments_and_plain_lines_contribute_nothing() {
    let input = "# comment\n   # indented comment\nno equals sign\n\n\t\nA=1\n";
    let (env, r) = parse(input, true);
    assert_eq!(r, Ok(()));
    assert_eq!(env.len(), 1);
    assert_eq!(env.get("A").unwrap(), "1");
}

#[test]
fn line_terminators_and_numbering() {
    let (env, r) = parse("A=1\r\nB=2\rC=3\nD=4", true);
    assert_eq!(r, Ok(()));
    assert_eq!(env.get("A").unwrap(), "1");
    assert_eq!(env.get("B").unwrap(), "2");
    assert_eq!(env.get("C").unwrap(), "3");
    assert_eq!(env.get("D").unwrap(), "4");

    // \r\n counts as one terminator for the line numbering
    let (_, r) = parse("A=1\r\nB=\"\\x4\"", true);
    assert_eq!(r, Err(Error::Syntax { line: 2, column: 1 }));
    // \r alone also ends a line
    let (_, r) = parse("A=1\rB=2\rX=\"\\q\"", true);
    assert_eq!(r, Err(Error::Syntax { line: 3, column: 1 }));
}

#[test]
fn later_assignments_do_not_override_by_default() {
    let (env, r) = parse("A=first\nA=second\n", true);
    assert_eq!(r, Ok(()));
    assert_eq!(env.get("A").unwrap(), "first");

    let mut env = EnvMap::new();
    let options = Options { encoding: Encoding::UTF8, strict: true, override_env: true };
    let r = config_python_dotenv_cli(b"A=first\nA=second\n", &mut env, &options);
    assert_eq!(r, Ok(()));
    assert_eq!(env.get("A").unwrap(), "second");
    assert_eq!(env.len(), 1);
}

#[test]
fn other_encodings_parse_too() {
    // "Ä="ä"\n" in UTF-16LE
    let bytes = Encoding::UTF16LE.encode("\u{c4}=\"\u{e4}\\n\u{e4}\"\n").unwrap();
    let mut env = EnvMap::new();
    let options = Options { encoding: Encoding::UTF16LE, strict: true, override_env: false };
    let r = config_python_dotenv_cli(&bytes, &mut env, &options);
    assert_eq!(r, Ok(()));
    assert_eq!(env.get("\u{c4}").unwrap(), "\u{e4}\n\u{e4}");

    // declared ASCII but holding a high byte: fatal, nothing delivered
    let mut env = EnvMap::new();
    let options = Options { encoding: Encoding::ASCII, strict: false, override_env: false };
    let r = config_python_dotenv_cli(&[0x41, 0x3d, 0xc3, 0xa4], &mut env, &options);
    assert_eq!(r, Err(Error::InvalidData));
    assert_eq!(env.len(), 0);
}

#[test]
fn empty_keys_and_blank_values() {
    let (env, r) = parse("=value\nA=\n  =x\n", true);
    assert_eq!(r, Ok(()));
    assert_eq!(env.len(), 1);
    assert_eq!(env.get("A").unwrap(), "");
}

#[test]
fn unescape_value_direct() {
    let interior: Vec<char> = "a\\tb".chars().collect();
    let out = unescape_value(&interior, true).unwrap();
    assert_eq!(out.iter().collect::<String>(), "a\tb");
    let bad: Vec<char> = "\\x9g".chars().collect();
    assert!(unescape_value(&bad, true).is_none());
    let fallback = unescape_value(&bad, false).unwrap();
    assert_eq!(fallback.iter().collect::<String>(), "\\x9g");
}

#[test]
fn env_map_behaves_like_a_map() {
    let mut env = EnvMap::new();
    assert_eq!(env.len(), 0);
    assert!(env.get("A").is_none());
    env.set("A", "1");
    env.set("B", "2");
    env.set("A", "3");
    assert_eq!(env.len(), 2);
    assert_eq!(env.get("A").unwrap(), "3");
    assert_eq!(env.get("B").unwrap(), "2");
    assert_eq!(env.entry_at(0), (String::from("A"), String::from("3")));
    assert_eq!(env.entry_at(1), (String::from("B"), String::from("2")));
    env.set_var("A", "4", false);
    assert_eq!(env.get("A").unwrap(), "3");
    env.set_var("A", "4", true);
    assert_eq!(env.get("A").unwrap(), "4");
    env.set_var("C", "5", false);
    assert_eq!(env.get("C").unwrap(), "5");
}

#[test]
fn configuration_values_parse() {
    assert_eq!(parse_bool("true"), Some(true));
    assert_eq!(parse_bool("TRUE"), Some(true));
    assert_eq!(parse_bool("1"), Some(true));
    assert_eq!(parse_bool("False"), Some(false));
    assert_eq!(parse_bool("0"), Some(false));
    assert_eq!(parse_bool("yes"), None);
    assert_eq!(parse_bool("10"), None);

    let mut env = EnvMap::new();
    assert_eq!(env.get_strict(), Ok(true));
    assert_eq!(env.get_override_env(), Ok(false));
    assert_eq!(env.get_bool("ANY", true), Ok(true));
    assert_eq!(env.get_encoding(), Ok(Encoding::UTF8));
    assert_eq!(env.get_config_path(), ".env");

    env.set("DOTENV_CONFIG_STRICT", "false");
    env.set("DOTENV_CONFIG_OVERRIDE", "TRUE");
    env.set("DOTENV_CONFIG_ENCODING", "utf-16be");
    env.set("DOTENV_CONFIG_PATH", "custom.env");
    assert_eq!(env.get_strict(), Ok(false));
    assert_eq!(env.get_override_env(), Ok(true));
    assert_eq!(env.get_encoding(), Ok(Encoding::UTF16BE));
    assert_eq!(env.get_config_path(), "custom.env");

    env.set("DOTENV_CONFIG_STRICT", "");
    assert_eq!(env.get_strict(), Ok(true));
    env.set("DOTENV_CONFIG_STRICT", "maybe");
    assert_eq!(env.get_strict(), Err(Error::OptionsParse));
    env.set("DOTENV_CONFIG_ENCODING", "utf-7");
    assert_eq!(env.get_encoding(), Err(Error::OptionsParse));
}

#[test]
fn empty_and_system_env_handles() {
    let empty = EmptyEnv::new();
    assert!(empty.get("PATH").is_none());
    assert!(empty.get("").is_none());
    let _handle = SystemEnv::new();

    let options = Options::default();
    assert_eq!(options.encoding, Encoding::UTF8);
    assert!(options.strict);
    assert!(!options.override_env);
}
