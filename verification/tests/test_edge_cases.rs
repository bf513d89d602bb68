use punktum::encoding::Encoding;
use punktum::env::EnvMap;
use punktum::python_dotenv_cli::config_python_dotenv_cli;
use punktum::Options;

const EDGE_CASES: &str = "# full-line comment\n\
\n\
export VAR1=value1\n\
VAR2=\"\"\n\
VAR3='single \\n kept'\n\
VAR4=\"a\\nb\"\n\
VAR5=  spaced out  \n\
VAR16=\"backslash:\\\\ quote:\\\" single:\\' newline:\\n tab:\\t octal:\\101 hex:\\x48 uni:\\u00e4 big:\\U0001F603\"\n\
JSON1={\"foo\": \"bar \\n no quotes\n\
NOEQ_LINE\n\
PRE_DEFINED=override\n";

fn run(input: &str, strict: bool, override_env: bool) -> (EnvMap, Result<(), punktum::Error>) {
    let mut env = EnvMap::new();
    env.set("PRE_DEFINED", "not override");
    let options = Options { encoding: Encoding::UTF8, strict, override_env };
    let r = config_python_dotenv_cli(input.as_bytes(), &mut env, &options);
    (env, r)
}

#[test]
fn test_edge_cases_python_cli() {
    let (env, r) = run(EDGE_CASES, false, true);
    assert_eq!(r, Ok(()));
    let expected: &[(&str, &str)] = &[
        ("VAR1", "value1"),
        ("VAR2", ""),
        ("VAR3", "single \\n kept"),
        ("VAR4", "a\nb"),
        ("VAR5", "spaced out"),
        (
            "VAR16",
            "backslash:\\ quote:\" single:' newline:\n tab:\t octal:A hex:H uni:\u{e4} big:\u{1F603}",
        ),
        ("JSON1", "{\"foo\": \"bar \\n no quotes"),
        ("PRE_DEFINED", "override"),
    ];
    for (key, value) in expected {
        let actual = env.get(key);
        assert!(actual.is_some(), "{key} is expected to be set, but isn't");
        let actual = actual.unwrap();
        assert_eq!(&actual, value, "{key} is expected to be {value:?}, but is {actual:?}");
    }
    assert!(env.get("NOEQ_LINE").is_none());
    assert!(env.get("VAR9").is_none());
}

#[test]
fn test_edge_cases_python_cli_no_override() {
    let (env, r) = run(EDGE_CASES, false, false);
    assert_eq!(r, Ok(()));
    assert_eq!(env.get("PRE_DEFINED").unwrap(), "not override");
    assert_eq!(env.get("VAR1").unwrap(), "value1");
}
