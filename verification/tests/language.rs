use richtext::formatter::Kind;
use richtext::formatter::ParseFormatError;
use richtext::language::Compiled;
use richtext::language::Error;
use richtext::language::LineFailure;
use richtext::language::LoadError;
use richtext::language::ProcessError;
use richtext::language::SimpleFormatCmd;
use richtext::language::compile_line;
use richtext::language::line_panics_exec;
use richtext::language::load_lines;
use richtext::language::parse_line;

#[test]
fn test_parse_lines() {
    assert_eq!(
        Ok(Some(("translation.test.none", "Hello, world!"))),
        parse_line("translation.test.none=Hello, world!")
    );
    assert_eq!(
        Ok(Some(("translation.test.none", "Hello, world!"))),
        parse_line("translation.test.none=Hello, world!=whatever")
    );
    assert_eq!(
        Ok(Some((" translation.test.none", "Hello, world! "))),
        parse_line(" translation.test.none=Hello, world! ")
    );
    assert_eq!(Ok(None), parse_line("# This is an interesting comment."));
    assert_eq!(
        Err(Error::NoValue),
        parse_line("I'm a strong, independent key and ain't no value gonna mess with me.")
    );
    assert_eq!(Ok(None), parse_line(""));
}

#[test]
fn compile_hello_template() {
    let c = Compiled::compile("Hello, %s!").unwrap();
    assert_eq!(c.literal().as_str(), "Hello, !");
    assert_eq!(
        c.commands().as_slice(),
        &[SimpleFormatCmd { string_start: 7, arg_index: 0, upper: false }]
    );
    assert_eq!(c.to_template_string(), "Hello, {0}!");
}

#[test]
fn compile_index_resolution() {
    // the exact reference does not consume the implicit head index
    let c = Compiled::compile("%2$s and %s").unwrap();
    assert_eq!(c.literal().as_str(), " and ");
    assert_eq!(
        c.commands().as_slice(),
        &[
            SimpleFormatCmd { string_start: 0, arg_index: 1, upper: false },
            SimpleFormatCmd { string_start: 5, arg_index: 0, upper: false },
        ]
    );
    // the previous-index flag picks up the last resolved index
    let c = Compiled::compile("%3$s/%<s/%s").unwrap();
    assert_eq!(
        c.commands().as_slice(),
        &[
            SimpleFormatCmd { string_start: 0, arg_index: 2, upper: false },
            SimpleFormatCmd { string_start: 1, arg_index: 2, upper: false },
            SimpleFormatCmd { string_start: 2, arg_index: 0, upper: false },
        ]
    );
    // with no previous command the flag is an error at the token's offset
    assert_eq!(
        Compiled::compile("ab%<s").unwrap_err(),
        (2, ProcessError::NoPreviousArgument)
    );
}

#[test]
fn compile_escapes_and_legacy_rule() {
    let c = Compiled::compile("a%%b%nc").unwrap();
    assert_eq!(c.literal().as_str(), "a%b\nc");
    assert!(c.commands().is_empty());
    // a bare %d or %f stands for argument slot 1
    let c = Compiled::compile("%d and %f and %s").unwrap();
    assert_eq!(
        c.commands().as_slice(),
        &[
            SimpleFormatCmd { string_start: 0, arg_index: 0, upper: false },
            SimpleFormatCmd { string_start: 5, arg_index: 0, upper: false },
            SimpleFormatCmd { string_start: 10, arg_index: 0, upper: false },
        ]
    );
    // after a bare %d the previous index is slot 1
    let c = Compiled::compile("%d%<s").unwrap();
    assert_eq!(
        c.commands().as_slice(),
        &[
            SimpleFormatCmd { string_start: 0, arg_index: 0, upper: false },
            SimpleFormatCmd { string_start: 0, arg_index: 0, upper: false },
        ]
    );
}

#[test]
fn compile_rejects_unsupported_features() {
    assert_eq!(Compiled::compile("%5d").unwrap_err(), (0, ProcessError::UnsupportedWidth));
    assert_eq!(Compiled::compile("%-s").unwrap_err(), (0, ProcessError::UnsupportedFlags));
    assert_eq!(Compiled::compile("x%.2s").unwrap_err(), (1, ProcessError::UnsupportedPrecision));
    assert_eq!(
        Compiled::compile("%x").unwrap_err(),
        (0, ProcessError::UnsupportedKind(Kind::Hex, false))
    );
    assert_eq!(
        Compiled::compile("ab%q").unwrap_err(),
        (2, ProcessError::Parse(ParseFormatError::BadConversion('q')))
    );
}

#[test]
fn compile_uppercase_rendering() {
    let c = Compiled::compile("%S!").unwrap();
    assert_eq!(
        c.commands().as_slice(),
        &[SimpleFormatCmd { string_start: 0, arg_index: 0, upper: true }]
    );
    assert_eq!(c.to_template_string(), "{0::to_uppercase}!");
}

#[test]
fn compile_line_wraps_errors() {
    match compile_line("greet=Hello, %s!", "en_US.lang", 4) {
        Ok(Some((key, c))) => {
            assert_eq!(key, "greet");
            assert_eq!(c.literal().as_str(), "Hello, !");
        },
        _ => panic!("expected a compiled entry"),
    }
    assert!(matches!(compile_line("# note", "en_US.lang", 0), Ok(None)));
    assert!(matches!(compile_line("", "en_US.lang", 0), Ok(None)));
    assert!(matches!(compile_line("no value here", "en_US.lang", 0), Err(LineFailure::NoValue)));
    match compile_line("k=%-s", "f.lang", 0) {
        Err(LineFailure::Compile(e)) => {
            assert!(matches!(e.err(), ProcessError::UnsupportedFlags));
            let expected = "error: flags are not currently supported\n  --> f.lang:1:3\n  |\n1 | k=%-s\n  |   ^\n  |\n  = help: the formatting system does not support this feature yet\n";
            assert_eq!(e.diagnostic(), expected);
        },
        _ => panic!("expected a wrapped compile error"),
    }
}

#[test]
fn diagnostic_exact_rendering() {
    let e = LoadError::new(ProcessError::NoPreviousArgument, "lang/en.lang", 11, 5, "k=ab%<s");
    let expected = "error: previous argument flag used ('<'), but there is no previous argument\n  --> lang/en.lang:12:6\n   |\n12 | k=ab%<s\n   |      ^\n   |\n   = help: please use relative indexing (%s) or exact indexing (%1$s) for this format code\n";
    assert_eq!(e.diagnostic(), expected);
}

#[test]
fn process_error_messages() {
    assert_eq!(
        ProcessError::UnsupportedKind(Kind::Hex, true).message(),
        "kind Hex [%X] is not currently supported"
    );
    assert_eq!(
        ProcessError::Parse(ParseFormatError::NoConversion).message(),
        "while parsing format: didn't find a conversion character"
    );
    assert!(ProcessError::UnsupportedFlags.help().is_some());
    assert!(ProcessError::Parse(ParseFormatError::NoConversion).help().is_none());
}

#[test]
fn load_lines_collects_errors_and_continues() {
    let lines: Vec<String> = vec![
        "# a header comment".to_string(),
        "menu.title=Hello, %s!".to_string(),
        "broken line without equals".to_string(),
        "menu.bad=%5d".to_string(),
        "menu.title=Bye, %s!".to_string(),
        "".to_string(),
    ];
    let (dir, failures) = load_lines(&lines, "en_US.lang");
    // the later line overwrites the earlier one under the same key
    assert_eq!(
        dir.get("menu.title").map(|c| c.to_template_string()),
        Some("Bye, {0}!".to_string())
    );
    assert!(dir.get("menu.bad").is_none());
    assert_eq!(failures.len(), 2);
    assert_eq!(failures[0].0, 2);
    assert!(matches!(failures[0].1, LineFailure::NoValue));
    assert_eq!(failures[1].0, 3);
    match &failures[1].1 {
        LineFailure::Compile(e) => {
            assert!(matches!(e.err(), ProcessError::UnsupportedWidth));
            let expected = "error: width is not currently supported\n  --> en_US.lang:4:10\n  |\n4 | menu.bad=%5d\n  |          ^\n  |\n  = help: the formatting system does not support this feature yet\n";
            assert_eq!(e.diagnostic(), expected);
        },
        _ => panic!("expected a wrapped compile error"),
    }
}

#[test]
fn compile_error_offsets_are_bytes() {
    // a two-byte character precedes the failing token: its '%' sits at byte 2
    assert_eq!(
        Compiled::compile("\u{e9}%q").unwrap_err(),
        (2, ProcessError::Parse(ParseFormatError::BadConversion('q')))
    );
    assert_eq!(
        Compiled::compile("\u{e9}\u{e9}ab%<s").unwrap_err(),
        (6, ProcessError::NoPreviousArgument)
    );
    // through compile_line the column also counts the key's bytes
    match compile_line("k\u{e9}y=a\u{e9}%-s", "f.lang", 0) {
        Err(LineFailure::Compile(e)) => {
            // key 4 bytes, the '=', then 3 value bytes before the '%'
            assert_eq!(e.index(), 8);
            assert_eq!(e.line(), 0);
        },
        _ => panic!("expected a wrapped compile error"),
    }
}

#[test]
fn panic_predicates_match_the_legacy_deaths() {
    // a width run beyond usize dies; these test the exact 64-bit boundary
    assert!(!richtext::formatter::FormatCommand::parse_panics_exec("%18446744073709551615d"));
    assert!(richtext::formatter::FormatCommand::parse_panics_exec("%18446744073709551616d"));
    assert!(richtext::formatter::FormatCommand::parse_panics_exec("%99999999999999999999999999.2f"));
    assert!(richtext::formatter::FormatCommand::parse_panics_exec("%1$99999999999999999999999999d"));
    assert!(richtext::formatter::FormatCommand::parse_panics_exec("%.99999999999999999999999999f"));
    // a duplicate flag errors before the width run is ever read
    assert!(!richtext::formatter::FormatCommand::parse_panics_exec(
        "%--99999999999999999999999999d"
    ));
    assert!(Compiled::compile_panics_exec("a %99999999999999999999999999d b"));
    // a bad token aborts compilation before the huge run is reached
    assert!(!Compiled::compile_panics_exec("%q %99999999999999999999999999d"));
    assert!(line_panics_exec("k=%99999999999999999999999999d"));
    // oversized digit runs outside any reached token never died
    assert!(!line_panics_exec("# 99999999999999999999999999"));
    assert!(!line_panics_exec("k99999999999999999999999999=ok"));
    assert!(!line_panics_exec("k=literal 99999999999999999999999999 text %s"));
    assert!(!line_panics_exec("no equals 99999999999999999999999999"));
}
