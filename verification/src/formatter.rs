//! The format command parser: reads one `%[idx$][flags][width][.precision]conv`
//! token from the front of a string into a structured descriptor, or a
//! classified error.

use vstd::prelude::*;

verus! {

/// A conversion kind, one per accepted conversion character.
#[derive(Debug, Copy, Clone, Eq, PartialEq, Structural)]
pub enum Kind {
    Bool,
    HexHashCode,
    Str,
    Unicode,
    Decimal,
    Octal,
    Hex,
    CompSciNot,
    Float,
    SciNot,
    Hexfloat,
    Time(TimeKind),
    Percent,
    Newline,
}

/// A time sub-field, selected by the second character after `t`/`T`.
/// Unless otherwise specified, each of these is padded.
#[derive(Debug, Copy, Clone, Eq, PartialEq, Structural)]
pub enum TimeKind {
    /// Hour of the 24 hour clock, padded with zeros if necessary (00 - 23).
    Hour24,
    /// Hour of the 12 hour clock, padded with zeros if necessary (01 - 12).
    Hour12,
    /// Hour of the 24 hour clock (0 - 23).
    UnpaddedHour24,
    /// Hour of the 12 hour clock (0 - 12).
    UnpaddedHour12,
    Minute,
    Second,
    Milli,
    Nano,
    /// Marker for morning or afternoon, such as AM/PM.
    Marker,
    TzOffset,
    TzAbbrev,
    EpochSecond,
    EpochMilli,
}

/// The time sub-field a selector character denotes, if any.
pub open spec fn time_kind_from_char(c: char) -> Option<TimeKind> {
    if c == 'H' {
        Some(TimeKind::Hour24)
    } else if c == 'I' {
        Some(TimeKind::Hour12)
    } else if c == 'k' {
        Some(TimeKind::UnpaddedHour24)
    } else if c == 'l' {
        Some(TimeKind::UnpaddedHour12)
    } else if c == 'M' {
        Some(TimeKind::Minute)
    } else if c == 'S' {
        Some(TimeKind::Second)
    } else if c == 'L' {
        Some(TimeKind::Milli)
    } else if c == 'N' {
        Some(TimeKind::Nano)
    } else if c == 'p' {
        Some(TimeKind::Marker)
    } else if c == 'z' {
        Some(TimeKind::TzOffset)
    } else if c == 'Z' {
        Some(TimeKind::TzAbbrev)
    } else if c == 's' {
        Some(TimeKind::EpochSecond)
    } else if c == 'Q' {
        Some(TimeKind::EpochMilli)
    } else {
        None
    }
}

/// The selector character of each time sub-field.
pub open spec fn time_kind_char(tk: TimeKind) -> char {
    match tk {
        TimeKind::Hour24 => 'H',
        TimeKind::Hour12 => 'I',
        TimeKind::UnpaddedHour24 => 'k',
        TimeKind::UnpaddedHour12 => 'l',
        TimeKind::Minute => 'M',
        TimeKind::Second => 'S',
        TimeKind::Milli => 'L',
        TimeKind::Nano => 'N',
        TimeKind::Marker => 'p',
        TimeKind::TzOffset => 'z',
        TimeKind::TzAbbrev => 'Z',
        TimeKind::EpochSecond => 's',
        TimeKind::EpochMilli => 'Q',
    }
}

impl TimeKind {
    /// The time sub-field a selector character denotes, if any.
    pub fn from_character(character: char) -> (r: Option<Self>)
        ensures
            r == time_kind_from_char(character),
    {
        if character == 'H' {
            Some(TimeKind::Hour24)
        } else if character == 'I' {
            Some(TimeKind::Hour12)
        } else if character == 'k' {
            Some(TimeKind::UnpaddedHour24)
        } else if character == 'l' {
            Some(TimeKind::UnpaddedHour12)
        } else if character == 'M' {
            Some(TimeKind::Minute)
        } else if character == 'S' {
            Some(TimeKind::Second)
        } else if character == 'L' {
            Some(TimeKind::Milli)
        } else if character == 'N' {
            Some(TimeKind::Nano)
        } else if character == 'p' {
            Some(TimeKind::Marker)
        } else if character == 'z' {
            Some(TimeKind::TzOffset)
        } else if character == 'Z' {
            Some(TimeKind::TzAbbrev)
        } else if character == 's' {
            Some(TimeKind::EpochSecond)
        } else if character == 'Q' {
            Some(TimeKind::EpochMilli)
        } else {
            None
        }
    }

    /// The selector character of this time sub-field.
    pub fn character(&self) -> (c: char)
        ensures
            c == time_kind_char(*self),
    {
        match *self {
            TimeKind::Hour24 => 'H',
            TimeKind::Hour12 => 'I',
            TimeKind::UnpaddedHour24 => 'k',
            TimeKind::UnpaddedHour12 => 'l',
            TimeKind::Minute => 'M',
            TimeKind::Second => 'S',
            TimeKind::Milli => 'L',
            TimeKind::Nano => 'N',
            TimeKind::Marker => 'p',
            TimeKind::TzOffset => 'z',
            TimeKind::TzAbbrev => 'Z',
            TimeKind::EpochSecond => 's',
            TimeKind::EpochMilli => 'Q',
        }
    }
}

/// The kind and uppercase flag a conversion character denotes, if any.
/// `other` is the character after the conversion character, needed by the
/// two-character time conversions.
pub open spec fn kind_from_char(c: char, other: Option<char>) -> Option<(Kind, bool)> {
    if c == 'b' {
        Some((Kind::Bool, false))
    } else if c == 'B' {
        Some((Kind::Bool, true))
    } else if c == 'h' {
        Some((Kind::HexHashCode, false))
    } else if c == 'H' {
        Some((Kind::HexHashCode, true))
    } else if c == 's' {
        Some((Kind::Str, false))
    } else if c == 'S' {
        Some((Kind::Str, true))
    } else if c == 'c' {
        Some((Kind::Unicode, false))
    } else if c == 'C' {
        Some((Kind::Unicode, true))
    } else if c == 'd' {
        Some((Kind::Decimal, false))
    } else if c == 'o' {
        Some((Kind::Octal, false))
    } else if c == 'x' {
        Some((Kind::Hex, false))
    } else if c == 'X' {
        Some((Kind::Hex, true))
    } else if c == 'e' {
        Some((Kind::CompSciNot, false))
    } else if c == 'E' {
        Some((Kind::CompSciNot, true))
    } else if c == 'f' {
        Some((Kind::Float, false))
    } else if c == 'g' {
        Some((Kind::SciNot, false))
    } else if c == 'G' {
        Some((Kind::SciNot, true))
    } else if c == 'a' {
        Some((Kind::Hexfloat, false))
    } else if c == 'A' {
        Some((Kind::Hexfloat, true))
    } else if c == 't' || c == 'T' {
        match other {
            Some(o) => match time_kind_from_char(o) {
                Some(tk) => Some((Kind::Time(tk), c == 'T')),
                None => None,
            },
            None => None,
        }
    } else if c == '%' {
        Some((Kind::Percent, false))
    } else if c == 'n' {
        Some((Kind::Newline, false))
    } else {
        None
    }
}

/// The conversion character of a kind, honoring the uppercase flag where the
/// kind has an uppercase form.
pub open spec fn kind_char(k: Kind, upper: bool) -> char {
    match k {
        Kind::Bool => if upper {
            'B'
        } else {
            'b'
        },
        Kind::HexHashCode => if upper {
            'H'
        } else {
            'h'
        },
        Kind::Str => if upper {
            'S'
        } else {
            's'
        },
        Kind::Unicode => if upper {
            'C'
        } else {
            'c'
        },
        Kind::Decimal => 'd',
        Kind::Octal => 'o',
        Kind::Hex => if upper {
            'X'
        } else {
            'x'
        },
        Kind::CompSciNot => if upper {
            'E'
        } else {
            'e'
        },
        Kind::Float => 'f',
        Kind::SciNot => if upper {
            'G'
        } else {
            'g'
        },
        Kind::Hexfloat => if upper {
            'A'
        } else {
            'a'
        },
        Kind::Time(_) => if upper {
            'T'
        } else {
            't'
        },
        Kind::Percent => '%',
        Kind::Newline => 'n',
    }
}

impl Kind {
    /// The kind and uppercase flag a conversion character denotes, if any.
    pub fn from_character(character: char, other: Option<char>) -> (r: Option<(Self, bool)>)
        ensures
            r == kind_from_char(character, other),
    {
        if character == 'b' {
            Some((Kind::Bool, false))
        } else if character == 'B' {
            Some((Kind::Bool, true))
        } else if character == 'h' {
            Some((Kind::HexHashCode, false))
        } else if character == 'H' {
            Some((Kind::HexHashCode, true))
        } else if character == 's' {
            Some((Kind::Str, false))
        } else if character == 'S' {
            Some((Kind::Str, true))
        } else if character == 'c' {
            Some((Kind::Unicode, false))
        } else if character == 'C' {
            Some((Kind::Unicode, true))
        } else if character == 'd' {
            Some((Kind::Decimal, false))
        } else if character == 'o' {
            Some((Kind::Octal, false))
        } else if character == 'x' {
            Some((Kind::Hex, false))
        } else if character == 'X' {
            Some((Kind::Hex, true))
        } else if character == 'e' {
            Some((Kind::CompSciNot, false))
        } else if character == 'E' {
            Some((Kind::CompSciNot, true))
        } else if character == 'f' {
            Some((Kind::Float, false))
        } else if character == 'g' {
            Some((Kind::SciNot, false))
        } else if character == 'G' {
            Some((Kind::SciNot, true))
        } else if character == 'a' {
            Some((Kind::Hexfloat, false))
        } else if character == 'A' {
            Some((Kind::Hexfloat, true))
        } else if character == 't' || character == 'T' {
            match other {
                Some(o) => match TimeKind::from_character(o) {
                    Some(tk) => Some((Kind::Time(tk), character == 'T')),
                    None => None,
                },
                None => None,
            }
        } else if character == '%' {
            Some((Kind::Percent, false))
        } else if character == 'n' {
            Some((Kind::Newline, false))
        } else {
            None
        }
    }

    /// The conversion character of this kind.
    pub fn character(&self, upper: bool) -> (c: char)
        ensures
            c == kind_char(*self, upper),
    {
        match *self {
            Kind::Bool => if upper {
                'B'
            } else {
                'b'
            },
            Kind::HexHashCode => if upper {
                'H'
            } else {
                'h'
            },
            Kind::Str => if upper {
                'S'
            } else {
                's'
            },
            Kind::Unicode => if upper {
                'C'
            } else {
                'c'
            },
            Kind::Decimal => 'd',
            Kind::Octal => 'o',
            Kind::Hex => if upper {
                'X'
            } else {
                'x'
            },
            Kind::CompSciNot => if upper {
                'E'
            } else {
                'e'
            },
            Kind::Float => 'f',
            Kind::SciNot => if upper {
                'G'
            } else {
                'g'
            },
            Kind::Hexfloat => if upper {
                'A'
            } else {
                'a'
            },
            Kind::Time(_) => if upper {
                'T'
            } else {
                't'
            },
            Kind::Percent => '%',
            Kind::Newline => 'n',
        }
    }
}

/// A format flag character.
#[derive(Debug, Copy, Clone, Eq, PartialEq, Structural)]
pub enum Flag {
    /// All: left justify the result. Width must be provided.
    LeftJustify,
    /// Use the alternate form.
    Alternate,
    /// Numeric: a `+` should be prepended to non-negative finite numbers.
    Plus,
    /// Numeric: a space should be prepended to non-negative numbers.
    LeadingSpace,
    /// Numeric: pad the output with zeroes. Width must be provided.
    ZeroPad,
    /// Numeric: use a locale-specific grouping separator.
    Group,
    /// Numeric: surround negative values with `(` and `)`.
    Parentheses,
    /// Meta: indicator to the argument index picker to use the last index.
    /// Never stored in the emitted flag set.
    PreviousIndex,
}

/// The flag a character denotes, if any.
pub open spec fn flag_from_char(c: char) -> Option<Flag> {
    if c == '-' {
        Some(Flag::LeftJustify)
    } else if c == '#' {
        Some(Flag::Alternate)
    } else if c == '+' {
        Some(Flag::Plus)
    } else if c == ' ' {
        Some(Flag::LeadingSpace)
    } else if c == '0' {
        Some(Flag::ZeroPad)
    } else if c == ',' {
        Some(Flag::Group)
    } else if c == '(' {
        Some(Flag::Parentheses)
    } else if c == '<' {
        Some(Flag::PreviousIndex)
    } else {
        None
    }
}

/// The character of each flag.
pub open spec fn flag_char(f: Flag) -> char {
    match f {
        Flag::LeftJustify => '-',
        Flag::Alternate => '#',
        Flag::Plus => '+',
        Flag::LeadingSpace => ' ',
        Flag::ZeroPad => '0',
        Flag::Group => ',',
        Flag::Parentheses => '(',
        Flag::PreviousIndex => '<',
    }
}

impl Flag {
    /// The flag a character denotes, if any.
    pub fn from_character(character: char) -> (r: Option<Self>)
        ensures
            r == flag_from_char(character),
    {
        if character == '-' {
            Some(Flag::LeftJustify)
        } else if character == '#' {
            Some(Flag::Alternate)
        } else if character == '+' {
            Some(Flag::Plus)
        } else if character == ' ' {
            Some(Flag::LeadingSpace)
        } else if character == '0' {
            Some(Flag::ZeroPad)
        } else if character == ',' {
            Some(Flag::Group)
        } else if character == '(' {
            Some(Flag::Parentheses)
        } else if character == '<' {
            Some(Flag::PreviousIndex)
        } else {
            None
        }
    }

    /// The character of this flag.
    pub fn character(&self) -> (c: char)
        ensures
            c == flag_char(*self),
    {
        match *self {
            Flag::LeftJustify => '-',
            Flag::Alternate => '#',
            Flag::Plus => '+',
            Flag::LeadingSpace => ' ',
            Flag::ZeroPad => '0',
            Flag::Group => ',',
            Flag::Parentheses => '(',
            Flag::PreviousIndex => '<',
        }
    }
}

/// How a format token picks its argument.
#[derive(Debug, Copy, Clone, Eq, PartialEq, Structural)]
pub enum Index {
    /// The next implicit argument.
    Next,
    /// An exact, 1-based argument index.
    Exact(usize),
    /// The argument the previous token used.
    Previous,
}

/// The set of stored format flags. The meta-flag `<` is handled separately by
/// the parser and never stored here.
#[derive(Debug, Copy, Clone, Eq, PartialEq, Structural)]
pub struct Flags {
    pub left_justify: bool,
    pub alternate: bool,
    pub plus: bool,
    pub leading_space: bool,
    pub zero_pad: bool,
    pub group: bool,
    pub parentheses: bool,
}

impl Flags {
    /// The empty flag set.
    pub open spec fn spec_empty() -> Flags {
        Flags {
            left_justify: false,
            alternate: false,
            plus: false,
            leading_space: false,
            zero_pad: false,
            group: false,
            parentheses: false,
        }
    }

    /// Whether `flag` is recorded in this set. The meta-flag reads as absent,
    /// as it has no stored bit.
    pub open spec fn spec_has(self, flag: Flag) -> bool {
        match flag {
            Flag::LeftJustify => self.left_justify,
            Flag::Alternate => self.alternate,
            Flag::Plus => self.plus,
            Flag::LeadingSpace => self.leading_space,
            Flag::ZeroPad => self.zero_pad,
            Flag::Group => self.group,
            Flag::Parentheses => self.parentheses,
            Flag::PreviousIndex => false,
        }
    }

    /// This set with `flag` recorded. Recording the meta-flag changes nothing.
    pub open spec fn spec_with(self, flag: Flag) -> Flags {
        match flag {
            Flag::LeftJustify => Flags { left_justify: true, ..self },
            Flag::Alternate => Flags { alternate: true, ..self },
            Flag::Plus => Flags { plus: true, ..self },
            Flag::LeadingSpace => Flags { leading_space: true, ..self },
            Flag::ZeroPad => Flags { zero_pad: true, ..self },
            Flag::Group => Flags { group: true, ..self },
            Flag::Parentheses => Flags { parentheses: true, ..self },
            Flag::PreviousIndex => self,
        }
    }

    /// Whether any flag is recorded.
    pub open spec fn spec_any(self) -> bool {
        self.left_justify || self.alternate || self.plus || self.leading_space || self.zero_pad
            || self.group || self.parentheses
    }

    /// The empty flag set.
    pub fn empty() -> (f: Flags)
        ensures
            f == Flags::spec_empty(),
    {
        Flags {
            left_justify: false,
            alternate: false,
            plus: false,
            leading_space: false,
            zero_pad: false,
            group: false,
            parentheses: false,
        }
    }

    /// Records `flag`; returns false if it was already recorded. The
    /// meta-flag has no stored bit and is always accepted.
    pub fn handle(&mut self, flag: Flag) -> (fresh: bool)
        ensures
            fresh == !old(self).spec_has(flag),
            *final(self) == old(self).spec_with(flag),
    {
        let already = match flag {
            Flag::LeftJustify => self.left_justify,
            Flag::Alternate => self.alternate,
            Flag::Plus => self.plus,
            Flag::LeadingSpace => self.leading_space,
            Flag::ZeroPad => self.zero_pad,
            Flag::Group => self.group,
            Flag::Parentheses => self.parentheses,
            Flag::PreviousIndex => false,
        };
        if already {
            false
        } else {
            match flag {
                Flag::LeftJustify => self.left_justify = true,
                Flag::Alternate => self.alternate = true,
                Flag::Plus => self.plus = true,
                Flag::LeadingSpace => self.leading_space = true,
                Flag::ZeroPad => self.zero_pad = true,
                Flag::Group => self.group = true,
                Flag::Parentheses => self.parentheses = true,
                Flag::PreviousIndex => (),
            }
            true
        }
    }

    /// Whether any flag is recorded.
    pub fn any(&self) -> (b: bool)
        ensures
            b == self.spec_any(),
    {
        self.left_justify || self.alternate || self.plus || self.leading_space || self.zero_pad
            || self.group || self.parentheses
    }

    pub fn left_justify(&self) -> (b: bool)
        ensures
            b == self.left_justify,
    {
        self.left_justify
    }

    pub fn alternate(&self) -> (b: bool)
        ensures
            b == self.alternate,
    {
        self.alternate
    }

    pub fn plus(&self) -> (b: bool)
        ensures
            b == self.plus,
    {
        self.plus
    }

    pub fn leading_space(&self) -> (b: bool)
        ensures
            b == self.leading_space,
    {
        self.leading_space
    }

    pub fn zero_pad(&self) -> (b: bool)
        ensures
            b == self.zero_pad,
    {
        self.zero_pad
    }

    pub fn group(&self) -> (b: bool)
        ensures
            b == self.group,
    {
        self.group
    }

    pub fn parentheses(&self) -> (b: bool)
        ensures
            b == self.parentheses,
    {
        self.parentheses
    }
}

/// One fully parsed format token.
#[derive(Debug, Copy, Clone, Eq, PartialEq, Structural)]
pub struct FormatCommand {
    pub index: Index,
    pub flags: Flags,
    pub width: Option<usize>,
    pub precision: Option<usize>,
    pub kind: Kind,
    pub upper: bool,
}

/// Why a format token failed to parse.
#[derive(Debug, Copy, Clone, Eq, PartialEq, Structural)]
pub enum ParseFormatError {
    /// The input did not start with `%`; the caller has a bug.
    NotFormat,
    /// A `.` appeared with no digits after it.
    ExpectedPrecision,
    /// The conversion character is not one of the accepted set.
    BadConversion(char),
    /// The input ended before a conversion character was found.
    NoConversion,
    /// A flag occurred twice.
    DuplicateFlag(Flag),
}

/// The help line of a parse error, as [`ParseFormatError::help`] hands it
/// out.
pub open spec fn parse_help(e: ParseFormatError) -> Option<Seq<char>> {
    match e {
        ParseFormatError::BadConversion(_) => Some(
            "are you sure you don't have any invalid characters in the format code, as that would result in this error as well?"@,
        ),
        _ => None,
    }
}

impl ParseFormatError {
    /// An optional help line for tooling diagnostics.
    pub fn help(&self) -> (r: Option<&'static str>)
        ensures
            match r {
                Some(h) => parse_help(*self) == Some(h@),
                None => parse_help(*self) is None,
            },
    {
        match *self {
            ParseFormatError::NotFormat => None,
            ParseFormatError::ExpectedPrecision => None,
            ParseFormatError::BadConversion(_) => Some(
                "are you sure you don't have any invalid characters in the format code, as that would result in this error as well?",
            ),
            ParseFormatError::NoConversion => None,
            ParseFormatError::DuplicateFlag(_) => None,
        }
    }
}

/// Whether a character is a decimal digit.
pub open spec fn is_digit(c: char) -> bool {
    '0' <= c && c <= '9'
}

/// The numeric value of a digit character.
pub open spec fn digit_val(c: char) -> int {
    c as int - '0' as int
}

/// The length of the run of digits in `cs` starting at `i`.
pub open spec fn num_len(cs: Seq<char>, i: int) -> int
    decreases cs.len() - i,
{
    if i < 0 || i >= cs.len() || !is_digit(cs[i]) {
        0
    } else {
        1 + num_len(cs, i + 1)
    }
}

/// The decimal value of the digits `cs[i..j]`.
pub open spec fn digits_val(cs: Seq<char>, i: int, j: int) -> int
    decreases j - i,
{
    if j <= i {
        0
    } else {
        digits_val(cs, i, j - 1) * 10 + digit_val(cs[j - 1])
    }
}

/// The end of the run of flag characters in `cs` starting at `i`.
pub open spec fn flags_end(cs: Seq<char>, i: int) -> int
    decreases cs.len() - i,
{
    if i < 0 || i >= cs.len() || flag_from_char(cs[i]) is None {
        i
    } else {
        flags_end(cs, i + 1)
    }
}

/// Folds the flag characters `cs[i..end]` into a flag set, noting whether the
/// meta-flag `<` occurred; stops at the first repeated stored flag.
pub open spec fn flags_scan(cs: Seq<char>, i: int, end: int, acc: Flags, use_prev: bool) -> Result<
    (Flags, bool),
    Flag,
>
    decreases end - i,
{
    if i < 0 || i >= end {
        Ok((acc, use_prev))
    } else {
        match flag_from_char(cs[i]) {
            None => Ok((acc, use_prev)),
            Some(Flag::PreviousIndex) => flags_scan(cs, i + 1, end, acc, true),
            Some(fl) => if acc.spec_has(fl) {
                Err(fl)
            } else {
                flags_scan(cs, i + 1, end, acc.spec_with(fl), use_prev)
            },
        }
    }
}

/// The precision-and-conversion tail of a token, parsed from position `p`:
/// an optional `.`-led precision run, then one conversion character, with a
/// second one read but not counted for the two-character time conversions.
/// Returns the total number of characters the whole token consumed, and the
/// finished command.
pub open spec fn spec_parse_tail(
    cs: Seq<char>,
    p: int,
    flags: Flags,
    index: Index,
    width: Option<usize>,
) -> Result<(int, FormatCommand), ParseFormatError> {
    let has_dot = p < cs.len() && cs[p] == '.';
    let n3 = num_len(cs, p + 1);
    if has_dot && n3 == 0 {
        Err(ParseFormatError::ExpectedPrecision)
    } else {
        let p3 = if has_dot {
            p + 1 + n3
        } else {
            p
        };
        let precision: Option<usize> = if has_dot {
            Some(digits_val(cs, p + 1, p + 1 + n3) as usize)
        } else {
            None
        };
        if p3 >= cs.len() {
            Err(ParseFormatError::NoConversion)
        } else {
            let c = cs[p3];
            let other: Option<char> = if p3 + 1 < cs.len() {
                Some(cs[p3 + 1])
            } else {
                None
            };
            match kind_from_char(c, other) {
                None => Err(ParseFormatError::BadConversion(c)),
                Some((kind, upper)) => Ok(
                    (p3 + 1, FormatCommand { index, flags, width, precision, kind, upper }),
                ),
            }
        }
    }
}

/// The whole grammar of one format token, over the character sequence of the
/// input. The consumed count is in characters; every consumed character is
/// ASCII, so it is also the count of consumed bytes.
pub open spec fn spec_parse(cs: Seq<char>) -> Result<(int, FormatCommand), ParseFormatError> {
    if cs.len() == 0 || cs[0] != '%' {
        Err(ParseFormatError::NotFormat)
    } else {
        let n1 = num_len(cs, 1);
        let p1 = 1 + n1;
        let v1 = digits_val(cs, 1, p1);
        let was_index = p1 < cs.len() && cs[p1] == '$';
        if was_index || n1 == 0 {
            let q0 = if was_index {
                p1 + 1
            } else {
                p1
            };
            let fe = flags_end(cs, q0);
            match flags_scan(cs, q0, fe, Flags::spec_empty(), false) {
                Err(fl) => Err(ParseFormatError::DuplicateFlag(fl)),
                Ok((flags, use_prev)) => {
                    let index = if use_prev {
                        Index::Previous
                    } else if n1 == 0 || v1 == 0 {
                        Index::Next
                    } else {
                        Index::Exact(v1 as usize)
                    };
                    let n2 = num_len(cs, fe);
                    let width: Option<usize> = if n2 > 0 {
                        Some(digits_val(cs, fe, fe + n2) as usize)
                    } else {
                        None
                    };
                    spec_parse_tail(cs, fe + n2, flags, index, width)
                },
            }
        } else {
            spec_parse_tail(cs, p1, Flags::spec_empty(), Index::Next, Some(v1 as usize))
        }
    }
}

/// The inputs on which the legacy parser died instead of returning: a read
/// digit run whose value does not fit in `usize`. The runs are read in
/// grammar order, and an error found earlier forestalls a later run.
pub open spec fn spec_parse_panics(cs: Seq<char>) -> bool {
    if cs.len() == 0 || cs[0] != '%' {
        false
    } else {
        let n1 = num_len(cs, 1);
        let p1 = 1 + n1;
        let v1 = digits_val(cs, 1, p1);
        let was_index = p1 < cs.len() && cs[p1] == '$';
        if n1 > 0 && v1 > usize::MAX {
            true
        } else if was_index || n1 == 0 {
            let q0 = if was_index {
                p1 + 1
            } else {
                p1
            };
            let fe = flags_end(cs, q0);
            match flags_scan(cs, q0, fe, Flags::spec_empty(), false) {
                Err(_) => false,
                Ok(_) => {
                    let n2 = num_len(cs, fe);
                    if n2 > 0 && digits_val(cs, fe, fe + n2) > usize::MAX {
                        true
                    } else {
                        spec_tail_panics(cs, fe + n2)
                    }
                },
            }
        } else {
            spec_tail_panics(cs, p1)
        }
    }
}

/// Whether the precision run at `p` overflows `usize`.
pub open spec fn spec_tail_panics(cs: Seq<char>, p: int) -> bool {
    p < cs.len() && cs[p] == '.' && num_len(cs, p + 1) > 0 && digits_val(
        cs,
        p + 1,
        p + 1 + num_len(cs, p + 1),
    ) > usize::MAX
}


/// Every character of a digit run is a digit.
pub proof fn lemma_num_len_digits(cs: Seq<char>, i: int)
    ensures
        forall|m: int| i <= m < i + num_len(cs, i) ==> is_digit(cs[m]),
    decreases cs.len() - i,
{
    if i < 0 || i >= cs.len() || !is_digit(cs[i]) {
    } else {
        lemma_num_len_digits(cs, i + 1);
    }
}

/// The value of a digit run is not negative.
pub proof fn lemma_digits_val_nonneg(cs: Seq<char>, i: int, j: int)
    requires
        forall|m: int| i <= m < j ==> is_digit(cs[m]),
    ensures
        digits_val(cs, i, j) >= 0,
    decreases j - i,
{
    if j <= i {
    } else {
        lemma_digits_val_nonneg(cs, i, j - 1);
        assert(is_digit(cs[j - 1]));
    }
}

/// Reading more digits never shrinks the value.
pub proof fn lemma_digits_val_mono(cs: Seq<char>, i: int, j: int, k: int)
    requires
        i <= j <= k,
        forall|m: int| i <= m < k ==> is_digit(cs[m]),
    ensures
        digits_val(cs, i, j) <= digits_val(cs, i, k),
    decreases k - j,
{
    if j == k {
    } else {
        lemma_digits_val_mono(cs, i, j, k - 1);
        lemma_digits_val_nonneg(cs, i, k - 1);
        assert(is_digit(cs[k - 1]));
    }
}

/// The end of a flag run lies between its start and the end of the string.
pub proof fn lemma_flags_end_bounds(cs: Seq<char>, i: int)
    requires
        0 <= i <= cs.len(),
    ensures
        i <= flags_end(cs, i) <= cs.len(),
    decreases cs.len() - i,
{
    if i < cs.len() && flag_from_char(cs[i]) is Some {
        lemma_flags_end_bounds(cs, i + 1);
    }
}

/// Finds the end of the digit run starting at `start`.
fn scan_num(s: &str, start: usize) -> (end: usize)
    requires
        start <= s@.len(),
    ensures
        start <= end <= s@.len(),
        end - start == num_len(s@, start as int),
{
    let len = s.unicode_len();
    let mut k = start;
    loop
        invariant
            start <= k <= len,
            len == s@.len(),
            num_len(s@, start as int) == (k - start) + num_len(s@, k as int),
        decreases len - k,
    {
        if k >= len {
            return k;
        }
        let c = s.get_char(k);
        if !(c >= '0' && c <= '9') {
            return k;
        }
        k = k + 1;
    }
}

/// Reads the decimal value of the digits `s[start..end]`.
fn read_num(s: &str, start: usize, end: usize) -> (v: usize)
    requires
        start <= end <= s@.len(),
        forall|m: int| start <= m < end ==> is_digit(s@[m]),
        digits_val(s@, start as int, end as int) <= usize::MAX,
    ensures
        v == digits_val(s@, start as int, end as int),
{
    let mut acc: usize = 0;
    let mut k = start;
    while k < end
        invariant
            start <= k <= end <= s@.len(),
            forall|m: int| start <= m < end ==> is_digit(s@[m]),
            digits_val(s@, start as int, end as int) <= usize::MAX,
            acc == digits_val(s@, start as int, k as int),
        decreases end - k,
    {
        let c = s.get_char(k);
        proof {
            assert(is_digit(s@[k as int]));
            lemma_digits_val_mono(s@, start as int, k as int + 1, end as int);
            lemma_digits_val_nonneg(s@, start as int, k as int);
        }
        let d: u32 = (c as u32) - 48;
        acc = acc * 10 + (d as usize);
        k = k + 1;
    }
    acc
}

impl FormatCommand {
    /// Parses a format command of the form
    /// `%[argument_index$][flags][width][.precision]conversion[date_conversion]`
    /// into an object. Returns the amount of bytes consumed from the buffer
    /// along with the parsed format command; every consumed character is
    /// ASCII, so the count is the same in bytes and in characters.
    ///
    /// The caller keeps out the inputs on which the legacy parser died: a
    /// read digit run whose value does not fit in `usize`.
    pub fn parse(s: &str) -> (r: Result<(usize, Self), ParseFormatError>)
        requires
            !spec_parse_panics(s@),
        ensures
            ({
                let sp = spec_parse(s@);
                match r {
                    Ok((n, cmd)) => sp == Ok::<(int, FormatCommand), ParseFormatError>(
                        (n as int, cmd),
                    ),
                    Err(e) => sp == Err::<(int, FormatCommand), ParseFormatError>(e),
                }
            }),
    {
        let len = s.unicode_len();
        if len == 0 || s.get_char(0) != '%' {
            return Err(ParseFormatError::NotFormat);
        }
        let p1 = scan_num(s, 1);
        let n1 = p1 - 1;
        let was_index = p1 < len && s.get_char(p1) == '$';
        let value: Option<usize> = if n1 > 0 {
            proof {
                lemma_num_len_digits(s@, 1);
            }
            Some(read_num(s, 1, p1))
        } else {
            None
        };
        if was_index || n1 == 0 {
            let q0 = if was_index {
                p1 + 1
            } else {
                p1
            };
            let ghost fe = flags_end(s@, q0 as int);
            proof {
                lemma_flags_end_bounds(s@, q0 as int);
            }
            let mut flags = Flags::empty();
            let mut use_prev = false;
            let mut i = q0;
            loop
                invariant_except_break
                    q0 <= i <= len,
                    len == s@.len(),
                    s@.len() > 0 && s@[0] == '%',
                    p1 as int == 1 + num_len(s@, 1),
                    1 <= p1 <= len,
                    was_index == (p1 < len && s@[p1 as int] == '$'),
                    was_index || p1 == 1,
                    q0 as int == if was_index {
                        p1 as int + 1
                    } else {
                        p1 as int
                    },
                    match value {
                        Some(v) => p1 > 1 && v == digits_val(s@, 1, p1 as int),
                        None => p1 == 1,
                    },
                    !spec_parse_panics(s@),
                    fe == flags_end(s@, q0 as int),
                    fe == flags_end(s@, i as int),
                    i <= fe,
                    flags_scan(s@, q0 as int, fe, Flags::spec_empty(), false) == flags_scan(
                        s@,
                        i as int,
                        fe,
                        flags,
                        use_prev,
                    ),
                ensures
                    q0 <= i <= len,
                    len == s@.len(),
                    s@.len() > 0 && s@[0] == '%',
                    p1 as int == 1 + num_len(s@, 1),
                    1 <= p1 <= len,
                    was_index == (p1 < len && s@[p1 as int] == '$'),
                    was_index || p1 == 1,
                    q0 as int == if was_index {
                        p1 as int + 1
                    } else {
                        p1 as int
                    },
                    match value {
                        Some(v) => p1 > 1 && v == digits_val(s@, 1, p1 as int),
                        None => p1 == 1,
                    },
                    !spec_parse_panics(s@),
                    fe == flags_end(s@, q0 as int),
                    i as int == fe,
                    flags_scan(s@, q0 as int, fe, Flags::spec_empty(), false) == Ok::<
                        (Flags, bool),
                        Flag,
                    >((flags, use_prev)),
                decreases len - i,
            {
                if i >= len {
                    proof {
                        assert(flags_end(s@, i as int) == i as int);
                    }
                    break ;
                }
                let c = s.get_char(i);
                match Flag::from_character(c) {
                    None => {
                        proof {
                            assert(flags_end(s@, i as int) == i as int);
                        }
                        break ;
                    },
                    Some(Flag::PreviousIndex) => {
                        use_prev = true;
                        i = i + 1;
                        proof {
                            lemma_flags_end_bounds(s@, i as int);
                        }
                    },
                    Some(fl) => {
                        if !flags.handle(fl) {
                            proof {
                                lemma_flags_end_bounds(s@, i as int + 1);
                                assert(flags_end(s@, i as int) == flags_end(s@, i as int + 1));
                                assert(i < fe);
                            }
                            return Err(ParseFormatError::DuplicateFlag(fl));
                        }
                        i = i + 1;
                        proof {
                            lemma_flags_end_bounds(s@, i as int);
                        }
                    },
                }
            }
            let index = if use_prev {
                Index::Previous
            } else {
                match value {
                    None => Index::Next,
                    Some(v) => if v == 0 {
                        Index::Next
                    } else {
                        Index::Exact(v)
                    },
                }
            };
            let wend = scan_num(s, i);
            let width: Option<usize> = if wend > i {
                proof {
                    lemma_num_len_digits(s@, i as int);
                }
                Some(read_num(s, i, wend))
            } else {
                None
            };
            Self::parse_tail(s, wend, flags, index, width)
        } else {
            Self::parse_tail(s, p1, Flags::empty(), Index::Next, value)
        }
    }

    /// Parses the optional precision and the conversion character, finishing
    /// the token that began with the fields already in hand.
    fn parse_tail(s: &str, p: usize, flags: Flags, index: Index, width: Option<usize>) -> (r:
        Result<(usize, Self), ParseFormatError>)
        requires
            p <= s@.len(),
            !spec_tail_panics(s@, p as int),
        ensures
            ({
                let sp = spec_parse_tail(s@, p as int, flags, index, width);
                match r {
                    Ok((n, cmd)) => sp == Ok::<(int, FormatCommand), ParseFormatError>(
                        (n as int, cmd),
                    ),
                    Err(e) => sp == Err::<(int, FormatCommand), ParseFormatError>(e),
                }
            }),
    {
        let len = s.unicode_len();
        let has_dot = p < len && s.get_char(p) == '.';
        let (p3, precision): (usize, Option<usize>) = if has_dot {
            let e3 = scan_num(s, p + 1);
            if e3 == p + 1 {
                return Err(ParseFormatError::ExpectedPrecision);
            }
            proof {
                lemma_num_len_digits(s@, p as int + 1);
            }
            (e3, Some(read_num(s, p + 1, e3)))
        } else {
            (p, None)
        };
        if p3 >= len {
            return Err(ParseFormatError::NoConversion);
        }
        let c = s.get_char(p3);
        let other: Option<char> = if p3 + 1 < len {
            Some(s.get_char(p3 + 1))
        } else {
            None
        };
        match Kind::from_character(c, other) {
            None => Err(ParseFormatError::BadConversion(c)),
            Some((kind, upper)) => {
                // the selector character of a time conversion is read but,
                // as in the legacy counting, not part of the consumed span
                Ok((p3 + 1, FormatCommand { index, flags, width, precision, kind, upper }))
            },
        }
    }
}


/// A digit run is never negative and never runs past the end.
pub proof fn lemma_num_len_bounds(cs: Seq<char>, i: int)
    ensures
        0 <= num_len(cs, i),
        num_len(cs, i) <= if i <= cs.len() && i >= 0 {
            cs.len() - i
        } else {
            0
        },
    decreases cs.len() - i,
{
    if i < 0 || i >= cs.len() || !is_digit(cs[i]) {
    } else {
        lemma_num_len_bounds(cs, i + 1);
    }
}

/// A token tail parsed from a sound position consumes between two characters
/// and the whole input, and hands the index through unchanged.
proof fn lemma_spec_parse_tail_facts(
    cs: Seq<char>,
    p: int,
    flags: Flags,
    index: Index,
    width: Option<usize>,
)
    requires
        1 <= p <= cs.len(),
    ensures
        spec_parse_tail(cs, p, flags, index, width) matches Ok((n, cmd)) ==> 2 <= n <= cs.len()
            && cmd.index == index,
{
    lemma_num_len_bounds(cs, p + 1);
}

/// What holds of every successfully parsed token: it consumed between two
/// characters and the whole input, and an exact argument index is at least
/// one.
pub proof fn lemma_spec_parse_ok_facts(cs: Seq<char>)
    requires
        !spec_parse_panics(cs),
    ensures
        spec_parse(cs) matches Ok((n, cmd)) ==> 2 <= n <= cs.len() && (cmd.index matches
            Index::Exact(v) ==> v >= 1),
{
    if cs.len() == 0 || cs[0] != '%' {
    } else {
        let n1 = num_len(cs, 1);
        lemma_num_len_bounds(cs, 1);
        let p1 = 1 + n1;
        let v1 = digits_val(cs, 1, p1);
        let was_index = p1 < cs.len() && cs[p1] == '$';
        if was_index || n1 == 0 {
            let q0 = if was_index {
                p1 + 1
            } else {
                p1
            };
            lemma_flags_end_bounds(cs, q0);
            let fe = flags_end(cs, q0);
            match flags_scan(cs, q0, fe, Flags::spec_empty(), false) {
                Err(_) => {
                },
                Ok((flags, use_prev)) => {
                    let n2 = num_len(cs, fe);
                    lemma_num_len_bounds(cs, fe);
                    if n1 > 0 && !use_prev && v1 != 0 {
                        lemma_num_len_digits(cs, 1);
                        lemma_digits_val_nonneg(cs, 1, p1);
                        assert(v1 >= 1);
                    }
                    let width: Option<usize> = if n2 > 0 {
                        Some(digits_val(cs, fe, fe + n2) as usize)
                    } else {
                        None
                    };
                    let index = if use_prev {
                        Index::Previous
                    } else if n1 == 0 || v1 == 0 {
                        Index::Next
                    } else {
                        Index::Exact(v1 as usize)
                    };
                    lemma_spec_parse_tail_facts(cs, fe + n2, flags, index, width);
                },
            }
        } else {
            lemma_spec_parse_tail_facts(cs, p1, Flags::spec_empty(), Index::Next, Some(
                v1 as usize,
            ));
        }
    }
}


/// The name of a flag, as diagnostics print it.
pub open spec fn flag_name(f: Flag) -> Seq<char> {
    match f {
        Flag::LeftJustify => "LeftJustify"@,
        Flag::Alternate => "Alternate"@,
        Flag::Plus => "Plus"@,
        Flag::LeadingSpace => "LeadingSpace"@,
        Flag::ZeroPad => "ZeroPad"@,
        Flag::Group => "Group"@,
        Flag::Parentheses => "Parentheses"@,
        Flag::PreviousIndex => "PreviousIndex"@,
    }
}

/// The name of a time sub-field, as diagnostics print it.
pub open spec fn time_kind_name(tk: TimeKind) -> Seq<char> {
    match tk {
        TimeKind::Hour24 => "Hour24"@,
        TimeKind::Hour12 => "Hour12"@,
        TimeKind::UnpaddedHour24 => "UnpaddedHour24"@,
        TimeKind::UnpaddedHour12 => "UnpaddedHour12"@,
        TimeKind::Minute => "Minute"@,
        TimeKind::Second => "Second"@,
        TimeKind::Milli => "Milli"@,
        TimeKind::Nano => "Nano"@,
        TimeKind::Marker => "Marker"@,
        TimeKind::TzOffset => "TzOffset"@,
        TimeKind::TzAbbrev => "TzAbbrev"@,
        TimeKind::EpochSecond => "EpochSecond"@,
        TimeKind::EpochMilli => "EpochMilli"@,
    }
}

/// The name of a conversion kind, as diagnostics print it.
pub open spec fn kind_name(k: Kind) -> Seq<char> {
    match k {
        Kind::Bool => "Bool"@,
        Kind::HexHashCode => "HexHashCode"@,
        Kind::Str => "Str"@,
        Kind::Unicode => "Unicode"@,
        Kind::Decimal => "Decimal"@,
        Kind::Octal => "Octal"@,
        Kind::Hex => "Hex"@,
        Kind::CompSciNot => "CompSciNot"@,
        Kind::Float => "Float"@,
        Kind::SciNot => "SciNot"@,
        Kind::Hexfloat => "Hexfloat"@,
        Kind::Time(tk) => "Time("@ + time_kind_name(tk) + ")"@,
        Kind::Percent => "Percent"@,
        Kind::Newline => "Newline"@,
    }
}

/// The diagnostic line of a parse error.
pub open spec fn parse_error_message(e: ParseFormatError) -> Seq<char> {
    match e {
        ParseFormatError::NotFormat => "tried to parse a format code, but it does not start with '%' - the caller has a bug"@,
        ParseFormatError::ExpectedPrecision => "found a '.', but there was no precision number afterwards"@,
        ParseFormatError::BadConversion(c) => "unsupported conversion character: "@ + seq![c],
        ParseFormatError::NoConversion => "didn't find a conversion character"@,
        ParseFormatError::DuplicateFlag(f) => "flag specified multiple times: "@ + flag_name(f)
            + " ['"@ + seq![flag_char(f)] + "']"@,
    }
}

impl TimeKind {
    /// The name of this time sub-field, as diagnostics print it.
    pub fn name(&self) -> (r: &'static str)
        ensures
            r@ == time_kind_name(*self),
    {
        match *self {
            TimeKind::Hour24 => "Hour24",
            TimeKind::Hour12 => "Hour12",
            TimeKind::UnpaddedHour24 => "UnpaddedHour24",
            TimeKind::UnpaddedHour12 => "UnpaddedHour12",
            TimeKind::Minute => "Minute",
            TimeKind::Second => "Second",
            TimeKind::Milli => "Milli",
            TimeKind::Nano => "Nano",
            TimeKind::Marker => "Marker",
            TimeKind::TzOffset => "TzOffset",
            TimeKind::TzAbbrev => "TzAbbrev",
            TimeKind::EpochSecond => "EpochSecond",
            TimeKind::EpochMilli => "EpochMilli",
        }
    }
}

impl Kind {
    /// The name of this kind, as diagnostics print it.
    pub fn name(&self) -> (r: String)
        ensures
            r@ == kind_name(*self),
    {
        match *self {
            Kind::Bool => String::from_str("Bool"),
            Kind::HexHashCode => String::from_str("HexHashCode"),
            Kind::Str => String::from_str("Str"),
            Kind::Unicode => String::from_str("Unicode"),
            Kind::Decimal => String::from_str("Decimal"),
            Kind::Octal => String::from_str("Octal"),
            Kind::Hex => String::from_str("Hex"),
            Kind::CompSciNot => String::from_str("CompSciNot"),
            Kind::Float => String::from_str("Float"),
            Kind::SciNot => String::from_str("SciNot"),
            Kind::Hexfloat => String::from_str("Hexfloat"),
            Kind::Time(tk) => {
                let mut s = String::from_str("Time(");
                s.append(tk.name());
                s.append(")");
                s
            },
            Kind::Percent => String::from_str("Percent"),
            Kind::Newline => String::from_str("Newline"),
        }
    }
}

impl Flag {
    /// The name of this flag, as diagnostics print it.
    pub fn name(&self) -> (r: &'static str)
        ensures
            r@ == flag_name(*self),
    {
        match *self {
            Flag::LeftJustify => "LeftJustify",
            Flag::Alternate => "Alternate",
            Flag::Plus => "Plus",
            Flag::LeadingSpace => "LeadingSpace",
            Flag::ZeroPad => "ZeroPad",
            Flag::Group => "Group",
            Flag::Parentheses => "Parentheses",
            Flag::PreviousIndex => "PreviousIndex",
        }
    }
}

impl ParseFormatError {
    /// The diagnostic line of this error.
    pub fn message(&self) -> (r: String)
        ensures
            r@ == parse_error_message(*self),
    {
        match *self {
            ParseFormatError::NotFormat => String::from_str(
                "tried to parse a format code, but it does not start with '%' - the caller has a bug",
            ),
            ParseFormatError::ExpectedPrecision => String::from_str(
                "found a '.', but there was no precision number afterwards",
            ),
            ParseFormatError::BadConversion(c) => {
                let mut s = String::from_str("unsupported conversion character: ");
                crate::chars::push_char(&mut s, c);
                proof {
                    assert("unsupported conversion character: "@.push(c)
                        =~= "unsupported conversion character: "@ + seq![c]);
                }
                s
            },
            ParseFormatError::NoConversion => String::from_str(
                "didn't find a conversion character",
            ),
            ParseFormatError::DuplicateFlag(f) => {
                let mut s = String::from_str("flag specified multiple times: ");
                s.append(f.name());
                s.append(" ['");
                crate::chars::push_char(&mut s, f.character());
                s.append("']");
                proof {
                    assert(("flag specified multiple times: "@ + flag_name(f) + " ['"@).push(
                        flag_char(f),
                    ) + "']"@ =~= parse_error_message(*self));
                }
                s
            },
        }
    }
}


/// Whether the decimal value of the digits `s[start..end]` exceeds
/// `usize::MAX`, detected without ever computing past the bound.
fn run_overflows(s: &str, start: usize, end: usize) -> (b: bool)
    requires
        start <= end <= s@.len(),
        forall|m: int| start <= m < end ==> is_digit(s@[m]),
    ensures
        b == (digits_val(s@, start as int, end as int) > usize::MAX),
{
    let q: usize = usize::MAX / 10;
    let rr: usize = usize::MAX % 10;
    let mut acc: usize = 0;
    let mut k = start;
    loop
        invariant_except_break
            start <= k <= end <= s@.len(),
            forall|m: int| start <= m < end ==> is_digit(s@[m]),
            q == usize::MAX / 10,
            rr == usize::MAX % 10,
            acc == digits_val(s@, start as int, k as int),
            acc <= usize::MAX,
        ensures
            k == end,
            acc == digits_val(s@, start as int, end as int),
        decreases end - k,
    {
        if k >= end {
            break ;
        }
        let c = s.get_char(k);
        proof {
            assert(is_digit(s@[k as int]));
        }
        let d: usize = ((c as u32) - 48) as usize;
        if acc > q || (acc == q && d > rr) {
            proof {
                assert(usize::MAX == 10 * q + rr);
                assert(acc * 10 + d > usize::MAX);
                assert(digits_val(s@, start as int, k as int + 1) == acc * 10 + d);
                lemma_digits_val_mono(s@, start as int, k as int + 1, end as int);
            }
            return true;
        }
        proof {
            assert(usize::MAX == 10 * q + rr);
            assert(acc * 10 + d <= usize::MAX);
        }
        acc = acc * 10 + d;
        k = k + 1;
    }
    false
}

/// Finds the end of the flag run and whether a stored flag repeats in it.
fn scan_flags(s: &str, q0: usize) -> (r: (usize, bool))
    requires
        q0 <= s@.len(),
    ensures
        r.1 == (flags_scan(s@, q0 as int, flags_end(s@, q0 as int), Flags::spec_empty(), false)
            is Err),
        !r.1 ==> r.0 as int == flags_end(s@, q0 as int),
{
    let ghost fe = flags_end(s@, q0 as int);
    proof {
        lemma_flags_end_bounds(s@, q0 as int);
    }
    let len = s.unicode_len();
    let mut flags = Flags::empty();
    let mut use_prev = false;
    let mut i = q0;
    loop
        invariant_except_break
            q0 <= i <= len,
            len == s@.len(),
            fe == flags_end(s@, q0 as int),
            fe == flags_end(s@, i as int),
            i <= fe,
            flags_scan(s@, q0 as int, fe, Flags::spec_empty(), false) == flags_scan(
                s@,
                i as int,
                fe,
                flags,
                use_prev,
            ),
        ensures
            i as int == fe,
            fe == flags_end(s@, q0 as int),
            !(flags_scan(s@, q0 as int, fe, Flags::spec_empty(), false) is Err),
        decreases len - i,
    {
        if i >= len {
            proof {
                assert(flags_end(s@, i as int) == i as int);
            }
            break ;
        }
        let c = s.get_char(i);
        match Flag::from_character(c) {
            None => {
                proof {
                    assert(flags_end(s@, i as int) == i as int);
                }
                break ;
            },
            Some(Flag::PreviousIndex) => {
                use_prev = true;
                i = i + 1;
                proof {
                    lemma_flags_end_bounds(s@, i as int);
                }
            },
            Some(fl) => {
                if !flags.handle(fl) {
                    proof {
                        lemma_flags_end_bounds(s@, i as int + 1);
                        assert(flags_end(s@, i as int) == flags_end(s@, i as int + 1));
                        assert(i < fe);
                    }
                    return (i, true);
                }
                i = i + 1;
                proof {
                    lemma_flags_end_bounds(s@, i as int);
                }
            },
        }
    }
    (i, false)
}

/// Whether the precision run at `p` overflows `usize`.
fn tail_panics_exec(s: &str, p: usize) -> (b: bool)
    requires
        p <= s@.len(),
    ensures
        b == spec_tail_panics(s@, p as int),
{
    let len = s.unicode_len();
    if p < len && s.get_char(p) == '.' {
        let e3 = scan_num(s, p + 1);
        if e3 > p + 1 {
            proof {
                lemma_num_len_digits(s@, p as int + 1);
            }
            run_overflows(s, p + 1, e3)
        } else {
            false
        }
    } else {
        false
    }
}

impl FormatCommand {
    /// Whether [`FormatCommand::parse`] may be called on `s`: tests, without
    /// dying, for the inputs on which the legacy parser died — a read digit
    /// run whose value does not fit in `usize`.
    pub fn parse_panics_exec(s: &str) -> (b: bool)
        ensures
            b == spec_parse_panics(s@),
    {
        let len = s.unicode_len();
        if len == 0 || s.get_char(0) != '%' {
            return false;
        }
        let p1 = scan_num(s, 1);
        if p1 > 1 {
            proof {
                lemma_num_len_digits(s@, 1);
            }
            if run_overflows(s, 1, p1) {
                return true;
            }
        }
        let was_index = p1 < len && s.get_char(p1) == '$';
        if was_index || p1 == 1 {
            let q0 = if was_index {
                p1 + 1
            } else {
                p1
            };
            let (fe, dup) = scan_flags(s, q0);
            if dup {
                return false;
            }
            proof {
                lemma_flags_end_bounds(s@, q0 as int);
            }
            let wend = scan_num(s, fe);
            if wend > fe {
                proof {
                    lemma_num_len_digits(s@, fe as int);
                }
                if run_overflows(s, fe, wend) {
                    return true;
                }
            }
            Self::tail_panics(s, wend)
        } else {
            Self::tail_panics(s, p1)
        }
    }

    /// Whether the precision run at `p` overflows `usize`.
    fn tail_panics(s: &str, p: usize) -> (b: bool)
        requires
            p <= s@.len(),
        ensures
            b == spec_tail_panics(s@, p as int),
    {
        tail_panics_exec(s, p)
    }
}

} // verus!
