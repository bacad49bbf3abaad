use richtext::formatter::Flag;
use richtext::formatter::Flags;
use richtext::formatter::FormatCommand;
use richtext::formatter::Index;
use richtext::formatter::Kind;
use richtext::formatter::ParseFormatError;
use richtext::formatter::TimeKind;

#[test]
fn test_parse() {
    assert_eq!(
        Ok((
            2,
            FormatCommand {
                index: Index::Next,
                flags: Flags::empty(),
                width: None,
                precision: None,
                kind: Kind::Decimal,
                upper: false
            }
        )),
        FormatCommand::parse("%d")
    );
    assert_eq!(
        Ok((
            5,
            FormatCommand {
                index: Index::Exact(42),
                flags: Flags::empty(),
                width: None,
                precision: None,
                kind: Kind::Decimal,
                upper: false
            }
        )),
        FormatCommand::parse("%42$d")
    );
    assert_eq!(
        Ok((
            4,
            FormatCommand {
                index: Index::Next,
                flags: Flags::empty(),
                width: Some(43),
                precision: None,
                kind: Kind::Decimal,
                upper: false
            }
        )),
        FormatCommand::parse("%43d")
    );
    assert_eq!(
        Ok((
            7,
            FormatCommand {
                index: Index::Exact(42),
                flags: Flags::empty(),
                width: Some(43),
                precision: None,
                kind: Kind::Decimal,
                upper: false
            }
        )),
        FormatCommand::parse("%42$43d")
    );
    assert_eq!(
        Ok((
            7,
            FormatCommand {
                index: Index::Next,
                flags: Flags::empty(),
                width: Some(42),
                precision: Some(43),
                kind: Kind::Float,
                upper: false
            }
        )),
        FormatCommand::parse("%42.43f")
    );
    assert_eq!(
        Ok((
            10,
            FormatCommand {
                index: Index::Exact(41),
                flags: Flags::empty(),
                width: Some(42),
                precision: Some(43),
                kind: Kind::Float,
                upper: false
            }
        )),
        FormatCommand::parse("%41$42.43f")
    );
}

#[test]
fn parse_rejects_bad_tokens() {
    assert_eq!(Err(ParseFormatError::NotFormat), FormatCommand::parse("abc"));
    assert_eq!(Err(ParseFormatError::NotFormat), FormatCommand::parse(""));
    assert_eq!(Err(ParseFormatError::ExpectedPrecision), FormatCommand::parse("%."));
    assert_eq!(Err(ParseFormatError::ExpectedPrecision), FormatCommand::parse("%.s"));
    assert_eq!(Err(ParseFormatError::BadConversion('q')), FormatCommand::parse("%q"));
    assert_eq!(Err(ParseFormatError::NoConversion), FormatCommand::parse("%"));
    assert_eq!(Err(ParseFormatError::NoConversion), FormatCommand::parse("%42"));
    assert_eq!(
        Err(ParseFormatError::DuplicateFlag(Flag::LeftJustify)),
        FormatCommand::parse("%--d")
    );
    // a missing or unknown time sub-field is reported on the conversion character
    assert_eq!(Err(ParseFormatError::BadConversion('t')), FormatCommand::parse("%t"));
    assert_eq!(Err(ParseFormatError::BadConversion('t')), FormatCommand::parse("%tq"));
}

#[test]
fn parse_flags_and_meta_flag() {
    let r = FormatCommand::parse("%-#+ 0,(s").unwrap();
    assert_eq!(r.0, 9);
    let cmd = r.1;
    assert!(cmd.flags.left_justify());
    assert!(cmd.flags.alternate());
    assert!(cmd.flags.plus());
    assert!(cmd.flags.leading_space());
    assert!(cmd.flags.zero_pad());
    assert!(cmd.flags.group());
    assert!(cmd.flags.parentheses());
    assert!(cmd.flags.any());
    assert_eq!(cmd.kind, Kind::Str);

    // the previous-index meta-flag is never stored, only steers the index
    let r = FormatCommand::parse("%<s").unwrap();
    assert_eq!(r.1.index, Index::Previous);
    assert!(!r.1.flags.any());
    // it overrides an explicit index
    let r = FormatCommand::parse("%3$<s").unwrap();
    assert_eq!(r.1.index, Index::Previous);
    // an explicit zero index resolves to the implicit next index
    let r = FormatCommand::parse("%0$s").unwrap();
    assert_eq!(r.1.index, Index::Next);
}

#[test]
fn parse_time_and_uppercase() {
    let r = FormatCommand::parse("%tH").unwrap();
    // the selector character is read but, as in the legacy counting, not
    // part of the consumed span
    assert_eq!(r.0, 2);
    assert_eq!(r.1.kind, Kind::Time(TimeKind::Hour24));
    assert!(!r.1.upper);
    let r = FormatCommand::parse("%TQ").unwrap();
    assert_eq!(r.1.kind, Kind::Time(TimeKind::EpochMilli));
    assert!(r.1.upper);
    let r = FormatCommand::parse("%S").unwrap();
    assert_eq!(r.1.kind, Kind::Str);
    assert!(r.1.upper);
    assert_eq!(Kind::Time(TimeKind::Hour24).character(true), 'T');
    assert_eq!(Kind::Hex.character(true), 'X');
    assert_eq!(Kind::Decimal.character(true), 'd');
    assert_eq!(TimeKind::from_character('M'), Some(TimeKind::Minute));
    assert_eq!(TimeKind::Minute.character(), 'M');
    assert_eq!(Flag::from_character('('), Some(Flag::Parentheses));
    assert_eq!(Flag::Parentheses.character(), '(');
    assert_eq!(Flag::from_character('x'), None);
}

#[test]
fn parse_escapes_and_handle() {
    let r = FormatCommand::parse("%%tail").unwrap();
    assert_eq!(r.0, 2);
    assert_eq!(r.1.kind, Kind::Percent);
    let r = FormatCommand::parse("%n").unwrap();
    assert_eq!(r.1.kind, Kind::Newline);

    let mut flags = Flags::empty();
    assert!(flags.handle(Flag::Group));
    assert!(!flags.handle(Flag::Group));
    assert!(flags.handle(Flag::Plus));
    assert!(flags.group());
    assert!(flags.plus());
    assert!(!flags.zero_pad());
    // the meta-flag has no stored bit and is always fresh
    assert!(flags.handle(Flag::PreviousIndex));
    assert!(flags.handle(Flag::PreviousIndex));
}

#[test]
fn parse_error_help_and_messages() {
    assert!(ParseFormatError::BadConversion('z').help().is_some());
    assert!(ParseFormatError::NotFormat.help().is_none());
    assert_eq!(
        ParseFormatError::BadConversion('z').message(),
        "unsupported conversion character: z"
    );
    assert_eq!(
        ParseFormatError::DuplicateFlag(Flag::ZeroPad).message(),
        "flag specified multiple times: ZeroPad ['0']"
    );
}
