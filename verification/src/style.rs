//! The style model: five boolean text attributes plus a 16-color palette,
//! the single-character command codes of the legacy marker encoding, and the
//! minimal command sequence that carries one style over into another.

use crate::color::Rgb;
use vstd::prelude::*;

verus! {

/// The five text attributes, one flag each.
///
/// The legacy storage packed these into one byte; a struct of booleans keeps
/// the same information behind the same accessor API.
#[derive(Debug, Copy, Clone, Eq, PartialEq, Structural)]
#[must_use]
pub struct StyleFlags {
    pub bold: bool,
    pub underline: bool,
    pub italic: bool,
    pub strikethrough: bool,
    pub obfuscate: bool,
}

impl StyleFlags {
    /// No attribute set.
    pub open spec fn spec_none() -> StyleFlags {
        StyleFlags { bold: false, underline: false, italic: false, strikethrough: false, obfuscate: false }
    }

    /// Every attribute set.
    pub open spec fn spec_all() -> StyleFlags {
        StyleFlags { bold: true, underline: true, italic: true, strikethrough: true, obfuscate: true }
    }

    pub open spec fn spec_bold(self) -> bool {
        self.bold
    }

    pub open spec fn spec_underline(self) -> bool {
        self.underline
    }

    pub open spec fn spec_italic(self) -> bool {
        self.italic
    }

    pub open spec fn spec_strikethrough(self) -> bool {
        self.strikethrough
    }

    pub open spec fn spec_obfuscate(self) -> bool {
        self.obfuscate
    }

    /// The attribute-wise union of two flag sets.
    pub open spec fn spec_or(self, other: StyleFlags) -> StyleFlags {
        StyleFlags {
            bold: self.bold || other.bold,
            underline: self.underline || other.underline,
            italic: self.italic || other.italic,
            strikethrough: self.strikethrough || other.strikethrough,
            obfuscate: self.obfuscate || other.obfuscate,
        }
    }

    /// What a style command leaves of the flags: a color or reset command
    /// clears them all, a flag command sets exactly its own flag.
    pub open spec fn spec_process(self, cmd: StyleCommand) -> StyleFlags {
        match cmd {
            StyleCommand::Color(_) => StyleFlags::spec_none(),
            StyleCommand::Reset => StyleFlags::spec_none(),
            StyleCommand::Bold => StyleFlags { bold: true, ..self },
            StyleCommand::Underline => StyleFlags { underline: true, ..self },
            StyleCommand::Italic => StyleFlags { italic: true, ..self },
            StyleCommand::Strikethrough => StyleFlags { strikethrough: true, ..self },
            StyleCommand::Obfuscate => StyleFlags { obfuscate: true, ..self },
        }
    }

    pub fn none() -> (f: Self)
        ensures
            f == StyleFlags::spec_none(),
    {
        StyleFlags { bold: false, underline: false, italic: false, strikethrough: false, obfuscate: false }
    }

    pub fn all() -> (f: Self)
        ensures
            f == StyleFlags::spec_all(),
    {
        StyleFlags { bold: true, underline: true, italic: true, strikethrough: true, obfuscate: true }
    }

    pub fn set_bold(self, bold: bool) -> (f: Self)
        ensures
            f == (StyleFlags { bold, ..self }),
    {
        StyleFlags { bold, ..self }
    }

    pub fn bold(&self) -> (b: bool)
        ensures
            b == self.spec_bold(),
    {
        self.bold
    }

    pub fn set_underline(self, underline: bool) -> (f: Self)
        ensures
            f == (StyleFlags { underline, ..self }),
    {
        StyleFlags { underline, ..self }
    }

    pub fn underline(&self) -> (b: bool)
        ensures
            b == self.spec_underline(),
    {
        self.underline
    }

    pub fn set_italic(self, italic: bool) -> (f: Self)
        ensures
            f == (StyleFlags { italic, ..self }),
    {
        StyleFlags { italic, ..self }
    }

    pub fn italic(&self) -> (b: bool)
        ensures
            b == self.spec_italic(),
    {
        self.italic
    }

    pub fn set_strikethrough(self, strikethrough: bool) -> (f: Self)
        ensures
            f == (StyleFlags { strikethrough, ..self }),
    {
        StyleFlags { strikethrough, ..self }
    }

    pub fn strikethrough(&self) -> (b: bool)
        ensures
            b == self.spec_strikethrough(),
    {
        self.strikethrough
    }

    pub fn set_obfuscate(self, obfuscate: bool) -> (f: Self)
        ensures
            f == (StyleFlags { obfuscate, ..self }),
    {
        StyleFlags { obfuscate, ..self }
    }

    pub fn obfuscate(&self) -> (b: bool)
        ensures
            b == self.spec_obfuscate(),
    {
        self.obfuscate
    }

    pub fn or(&self, other: Self) -> (f: Self)
        ensures
            f == self.spec_or(other),
    {
        StyleFlags {
            bold: self.bold || other.bold,
            underline: self.underline || other.underline,
            italic: self.italic || other.italic,
            strikethrough: self.strikethrough || other.strikethrough,
            obfuscate: self.obfuscate || other.obfuscate,
        }
    }

    pub fn process(self, cmd: &StyleCommand) -> (f: Self)
        ensures
            f == self.spec_process(*cmd),
    {
        match *cmd {
            StyleCommand::Color(_) => Self::none(),
            StyleCommand::Reset => Self::none(),
            StyleCommand::Bold => self.set_bold(true),
            StyleCommand::Underline => self.set_underline(true),
            StyleCommand::Italic => self.set_italic(true),
            StyleCommand::Strikethrough => self.set_strikethrough(true),
            StyleCommand::Obfuscate => self.set_obfuscate(true),
        }
    }

    /// One command per set flag, in the fixed order bold, underline, italic,
    /// strikethrough, obfuscate.
    pub fn commands(&self) -> (c: Commands)
        ensures
            c.remaining() == flag_commands(*self),
    {
        Commands { flags: *self, flag: 0 }
    }

    /// One command per flag set in `other` but not in `self`, in the fixed
    /// flag order.
    pub fn delta_commands(&self, other: StyleFlags) -> (c: DeltaCommands)
        ensures
            c.remaining() == delta_flag_commands(*self, other),
    {
        DeltaCommands { flags: other, other: *self, flag: 0 }
    }
}

/// The command at flag position `i` (1-based, in the fixed flag order).
pub open spec fn flag_command_at(i: int) -> StyleCommand {
    if i == 1 {
        StyleCommand::Bold
    } else if i == 2 {
        StyleCommand::Underline
    } else if i == 3 {
        StyleCommand::Italic
    } else if i == 4 {
        StyleCommand::Strikethrough
    } else {
        StyleCommand::Obfuscate
    }
}

/// Whether flag position `i` (1-based) is set in `f`.
pub open spec fn flag_at(f: StyleFlags, i: int) -> bool {
    if i == 1 {
        f.spec_bold()
    } else if i == 2 {
        f.spec_underline()
    } else if i == 3 {
        f.spec_italic()
    } else if i == 4 {
        f.spec_strikethrough()
    } else {
        f.spec_obfuscate()
    }
}

/// The flag commands of `f` at positions above `i`, in the fixed order.
pub open spec fn flag_commands_from(f: StyleFlags, i: int) -> Seq<StyleCommand>
    decreases 5 - i,
{
    if i >= 5 || i < 0 {
        Seq::empty()
    } else if flag_at(f, i + 1) {
        seq![flag_command_at(i + 1)] + flag_commands_from(f, i + 1)
    } else {
        flag_commands_from(f, i + 1)
    }
}

/// One command per set flag of `f`, in the fixed flag order.
pub open spec fn flag_commands(f: StyleFlags) -> Seq<StyleCommand> {
    flag_commands_from(f, 0)
}

/// The flag commands set in `new` but not in `old`, at positions above `i`.
pub open spec fn delta_flag_commands_from(old: StyleFlags, new: StyleFlags, i: int) -> Seq<
    StyleCommand,
>
    decreases 5 - i,
{
    if i >= 5 || i < 0 {
        Seq::empty()
    } else if !flag_at(old, i + 1) && flag_at(new, i + 1) {
        seq![flag_command_at(i + 1)] + delta_flag_commands_from(old, new, i + 1)
    } else {
        delta_flag_commands_from(old, new, i + 1)
    }
}

/// One command per flag set in `new` but not in `old`, in the fixed order.
pub open spec fn delta_flag_commands(old: StyleFlags, new: StyleFlags) -> Seq<StyleCommand> {
    delta_flag_commands_from(old, new, 0)
}

/// Replays the remaining flag commands of a [`StyleFlags::commands`] walk.
pub struct Commands {
    flags: StyleFlags,
    flag: u8,
}

impl Commands {
    /// The flag set this walk was started on.
    pub closed spec fn spec_flags(self) -> StyleFlags {
        self.flags
    }

    /// The commands not yet handed out.
    pub closed spec fn remaining(self) -> Seq<StyleCommand> {
        flag_commands_from(self.flags, self.flag as int)
    }

    pub fn next(&mut self) -> (r: Option<StyleCommand>)
        ensures
            final(self).spec_flags() == old(self).spec_flags(),
            old(self).remaining().len() > 0 ==> r == Some(old(self).remaining()[0])
                && final(self).remaining() == old(self).remaining().drop_first(),
            old(self).remaining().len() == 0 ==> r is None && final(self).remaining()
                == Seq::<StyleCommand>::empty(),
    {
        loop
            invariant
                self.flags == old(self).flags,
                flag_commands_from(self.flags, self.flag as int) == old(self).remaining(),
            decreases 6 - self.flag as int,
        {
            if self.flag >= 6 {
                proof {
                    assert(flag_commands_from(self.flags, self.flag as int) == Seq::<
                        StyleCommand,
                    >::empty());
                }
                return None;
            }
            if self.flag == 5 {
                self.flag = 6;
                return None;
            }
            self.flag = self.flag + 1;
            let emit: bool = if self.flag == 1 {
                self.flags.bold
            } else if self.flag == 2 {
                self.flags.underline
            } else if self.flag == 3 {
                self.flags.italic
            } else if self.flag == 4 {
                self.flags.strikethrough
            } else {
                self.flags.obfuscate
            };
            if emit {
                let cmd = if self.flag == 1 {
                    StyleCommand::Bold
                } else if self.flag == 2 {
                    StyleCommand::Underline
                } else if self.flag == 3 {
                    StyleCommand::Italic
                } else if self.flag == 4 {
                    StyleCommand::Strikethrough
                } else {
                    StyleCommand::Obfuscate
                };
                proof {
                    assert(old(self).remaining() == seq![cmd] + flag_commands_from(
                        self.flags,
                        self.flag as int,
                    ));
                    assert(old(self).remaining().drop_first() =~= flag_commands_from(
                        self.flags,
                        self.flag as int,
                    ));
                }
                return Some(cmd);
            }
        }
    }
}

/// Replays the remaining commands of a [`StyleFlags::delta_commands`] walk.
pub struct DeltaCommands {
    flags: StyleFlags,
    other: StyleFlags,
    flag: u8,
}

impl DeltaCommands {
    /// The commands not yet handed out.
    pub closed spec fn remaining(self) -> Seq<StyleCommand> {
        delta_flag_commands_from(self.other, self.flags, self.flag as int)
    }

    pub fn next(&mut self) -> (r: Option<StyleCommand>)
        ensures
            old(self).remaining().len() > 0 ==> r == Some(old(self).remaining()[0])
                && final(self).remaining() == old(self).remaining().drop_first(),
            old(self).remaining().len() == 0 ==> r is None && final(self).remaining()
                == Seq::<StyleCommand>::empty(),
    {
        loop
            invariant
                self.flags == old(self).flags,
                self.other == old(self).other,
                delta_flag_commands_from(self.other, self.flags, self.flag as int)
                    == old(self).remaining(),
            decreases 6 - self.flag as int,
        {
            if self.flag >= 6 {
                return None;
            }
            if self.flag == 5 {
                self.flag = 6;
                return None;
            }
            self.flag = self.flag + 1;
            let (was, now): (bool, bool) = if self.flag == 1 {
                (self.other.bold, self.flags.bold)
            } else if self.flag == 2 {
                (self.other.underline, self.flags.underline)
            } else if self.flag == 3 {
                (self.other.italic, self.flags.italic)
            } else if self.flag == 4 {
                (self.other.strikethrough, self.flags.strikethrough)
            } else {
                (self.other.obfuscate, self.flags.obfuscate)
            };
            if !was && now {
                let cmd = if self.flag == 1 {
                    StyleCommand::Bold
                } else if self.flag == 2 {
                    StyleCommand::Underline
                } else if self.flag == 3 {
                    StyleCommand::Italic
                } else if self.flag == 4 {
                    StyleCommand::Strikethrough
                } else {
                    StyleCommand::Obfuscate
                };
                proof {
                    assert(old(self).remaining().drop_first() =~= delta_flag_commands_from(
                        self.other,
                        self.flags,
                        self.flag as int,
                    ));
                }
                return Some(cmd);
            }
        }
    }
}


/// The sixteen palette colors of the legacy format.
#[derive(Debug, Copy, Clone, Eq, PartialEq, Structural)]
pub enum PaletteColor {
    Black,
    DarkBlue,
    DarkGreen,
    DarkAqua,
    DarkRed,
    DarkPurple,
    Gold,
    Gray,
    DarkGray,
    Blue,
    Green,
    Aqua,
    Red,
    LightPurple,
    Yellow,
    White,
}

/// The packed foreground color of each palette entry.
pub open spec fn foreground_value(p: PaletteColor) -> u32 {
    match p {
        PaletteColor::Black => 0x000000,
        PaletteColor::DarkBlue => 0x0000AA,
        PaletteColor::DarkGreen => 0x00AA00,
        PaletteColor::DarkAqua => 0x00AAAA,
        PaletteColor::DarkRed => 0xAA0000,
        PaletteColor::DarkPurple => 0xAA00AA,
        PaletteColor::Gold => 0xFFAA00,
        PaletteColor::Gray => 0xAAAAAA,
        PaletteColor::DarkGray => 0x555555,
        PaletteColor::Blue => 0x5555FF,
        PaletteColor::Green => 0x55FF55,
        PaletteColor::Aqua => 0x55FFFF,
        PaletteColor::Red => 0xFF5555,
        PaletteColor::LightPurple => 0xFF55FF,
        PaletteColor::Yellow => 0xFFFF55,
        PaletteColor::White => 0xFFFFFF,
    }
}

/// The packed dimmer background/shadow color of each palette entry.
pub open spec fn background_value(p: PaletteColor) -> u32 {
    match p {
        PaletteColor::Black => 0x000000,
        PaletteColor::DarkBlue => 0x00002A,
        PaletteColor::DarkGreen => 0x002A00,
        PaletteColor::DarkAqua => 0x002A2A,
        PaletteColor::DarkRed => 0x2A0000,
        PaletteColor::DarkPurple => 0x2A002A,
        PaletteColor::Gold => 0x2A2A00,
        PaletteColor::Gray => 0x2A2A2A,
        PaletteColor::DarkGray => 0x151515,
        PaletteColor::Blue => 0x15153F,
        PaletteColor::Green => 0x153F15,
        PaletteColor::Aqua => 0x153F3F,
        PaletteColor::Red => 0x3F1515,
        PaletteColor::LightPurple => 0x3F153F,
        PaletteColor::Yellow => 0x3F3F15,
        PaletteColor::White => 0x3F3F3F,
    }
}

/// The single-character code of each palette entry: `0`-`9` then `a`-`f`.
pub open spec fn palette_code(p: PaletteColor) -> char {
    match p {
        PaletteColor::Black => '0',
        PaletteColor::DarkBlue => '1',
        PaletteColor::DarkGreen => '2',
        PaletteColor::DarkAqua => '3',
        PaletteColor::DarkRed => '4',
        PaletteColor::DarkPurple => '5',
        PaletteColor::Gold => '6',
        PaletteColor::Gray => '7',
        PaletteColor::DarkGray => '8',
        PaletteColor::Blue => '9',
        PaletteColor::Green => 'a',
        PaletteColor::Aqua => 'b',
        PaletteColor::Red => 'c',
        PaletteColor::LightPurple => 'd',
        PaletteColor::Yellow => 'e',
        PaletteColor::White => 'f',
    }
}

/// The palette entry a code character denotes, if any.
pub open spec fn palette_from_code(code: char) -> Option<PaletteColor> {
    if code == '0' {
        Some(PaletteColor::Black)
    } else if code == '1' {
        Some(PaletteColor::DarkBlue)
    } else if code == '2' {
        Some(PaletteColor::DarkGreen)
    } else if code == '3' {
        Some(PaletteColor::DarkAqua)
    } else if code == '4' {
        Some(PaletteColor::DarkRed)
    } else if code == '5' {
        Some(PaletteColor::DarkPurple)
    } else if code == '6' {
        Some(PaletteColor::Gold)
    } else if code == '7' {
        Some(PaletteColor::Gray)
    } else if code == '8' {
        Some(PaletteColor::DarkGray)
    } else if code == '9' {
        Some(PaletteColor::Blue)
    } else if code == 'a' {
        Some(PaletteColor::Green)
    } else if code == 'b' {
        Some(PaletteColor::Aqua)
    } else if code == 'c' {
        Some(PaletteColor::Red)
    } else if code == 'd' {
        Some(PaletteColor::LightPurple)
    } else if code == 'e' {
        Some(PaletteColor::Yellow)
    } else if code == 'f' {
        Some(PaletteColor::White)
    } else {
        None
    }
}

impl PaletteColor {
    /// The renderable foreground form of this color.
    pub fn foreground(&self) -> (c: Rgb)
        ensures
            c.wf(),
            c.value() == foreground_value(*self),
    {
        let v: u32 = match *self {
            PaletteColor::Black => 0x000000,
            PaletteColor::DarkBlue => 0x0000AA,
            PaletteColor::DarkGreen => 0x00AA00,
            PaletteColor::DarkAqua => 0x00AAAA,
            PaletteColor::DarkRed => 0xAA0000,
            PaletteColor::DarkPurple => 0xAA00AA,
            PaletteColor::Gold => 0xFFAA00,
            PaletteColor::Gray => 0xAAAAAA,
            PaletteColor::DarkGray => 0x555555,
            PaletteColor::Blue => 0x5555FF,
            PaletteColor::Green => 0x55FF55,
            PaletteColor::Aqua => 0x55FFFF,
            PaletteColor::Red => 0xFF5555,
            PaletteColor::LightPurple => 0xFF55FF,
            PaletteColor::Yellow => 0xFFFF55,
            PaletteColor::White => 0xFFFFFF,
        };
        proof {
            assert(v < 0x1000000 ==> v & 0x00FFFFFF == v) by (bit_vector);
        }
        Rgb::from_rgb(v)
    }

    /// The renderable dimmer background/shadow form of this color.
    pub fn background(&self) -> (c: Rgb)
        ensures
            c.wf(),
            c.value() == background_value(*self),
    {
        let v: u32 = match *self {
            PaletteColor::Black => 0x000000,
            PaletteColor::DarkBlue => 0x00002A,
            PaletteColor::DarkGreen => 0x002A00,
            PaletteColor::DarkAqua => 0x002A2A,
            PaletteColor::DarkRed => 0x2A0000,
            PaletteColor::DarkPurple => 0x2A002A,
            PaletteColor::Gold => 0x2A2A00,
            PaletteColor::Gray => 0x2A2A2A,
            PaletteColor::DarkGray => 0x151515,
            PaletteColor::Blue => 0x15153F,
            PaletteColor::Green => 0x153F15,
            PaletteColor::Aqua => 0x153F3F,
            PaletteColor::Red => 0x3F1515,
            PaletteColor::LightPurple => 0x3F153F,
            PaletteColor::Yellow => 0x3F3F15,
            PaletteColor::White => 0x3F3F3F,
        };
        proof {
            assert(v < 0x1000000 ==> v & 0x00FFFFFF == v) by (bit_vector);
        }
        Rgb::from_rgb(v)
    }

    /// The palette entry a code character denotes, if any.
    pub fn from_code(code: char) -> (r: Option<Self>)
        ensures
            r == palette_from_code(code),
    {
        if code == '0' {
            Some(PaletteColor::Black)
        } else if code == '1' {
            Some(PaletteColor::DarkBlue)
        } else if code == '2' {
            Some(PaletteColor::DarkGreen)
        } else if code == '3' {
            Some(PaletteColor::DarkAqua)
        } else if code == '4' {
            Some(PaletteColor::DarkRed)
        } else if code == '5' {
            Some(PaletteColor::DarkPurple)
        } else if code == '6' {
            Some(PaletteColor::Gold)
        } else if code == '7' {
            Some(PaletteColor::Gray)
        } else if code == '8' {
            Some(PaletteColor::DarkGray)
        } else if code == '9' {
            Some(PaletteColor::Blue)
        } else if code == 'a' {
            Some(PaletteColor::Green)
        } else if code == 'b' {
            Some(PaletteColor::Aqua)
        } else if code == 'c' {
            Some(PaletteColor::Red)
        } else if code == 'd' {
            Some(PaletteColor::LightPurple)
        } else if code == 'e' {
            Some(PaletteColor::Yellow)
        } else if code == 'f' {
            Some(PaletteColor::White)
        } else {
            None
        }
    }

    /// The single-character code of this palette entry.
    pub fn as_code(&self) -> (c: char)
        ensures
            c == palette_code(*self),
    {
        match *self {
            PaletteColor::Black => '0',
            PaletteColor::DarkBlue => '1',
            PaletteColor::DarkGreen => '2',
            PaletteColor::DarkAqua => '3',
            PaletteColor::DarkRed => '4',
            PaletteColor::DarkPurple => '5',
            PaletteColor::Gold => '6',
            PaletteColor::Gray => '7',
            PaletteColor::DarkGray => '8',
            PaletteColor::Blue => '9',
            PaletteColor::Green => 'a',
            PaletteColor::Aqua => 'b',
            PaletteColor::Red => 'c',
            PaletteColor::LightPurple => 'd',
            PaletteColor::Yellow => 'e',
            PaletteColor::White => 'f',
        }
    }
}

/// A text color: the terminal default, or one of the sixteen palette entries.
#[derive(Debug, Copy, Clone, Eq, PartialEq, Structural)]
pub enum Color {
    Default,
    Palette(PaletteColor),
}

/// The command that asserts a color: a reset for the default color, a color
/// command for a palette entry.
pub open spec fn color_command(c: Color) -> StyleCommand {
    match c {
        Color::Default => StyleCommand::Reset,
        Color::Palette(pal) => StyleCommand::Color(pal),
    }
}

impl Color {
    /// The command that asserts this color from a clean slate.
    pub fn command(&self) -> (cmd: StyleCommand)
        ensures
            cmd == color_command(*self),
    {
        match *self {
            Color::Default => StyleCommand::Reset,
            Color::Palette(pal) => StyleCommand::Color(pal),
        }
    }
}

/// A single style change of the legacy marker encoding.
#[derive(Debug, Copy, Clone, Eq, PartialEq, Structural)]
pub enum StyleCommand {
    Color(PaletteColor),
    Reset,
    Bold,
    Underline,
    Italic,
    Strikethrough,
    Obfuscate,
}

/// The command a code character denotes: `k`/`l`/`m`/`n`/`o`/`r` for the flag
/// and reset commands, `0`-`9` and `a`-`f` for the palette colors.
pub open spec fn command_from_code(code: char) -> Option<StyleCommand> {
    if code == 'r' {
        Some(StyleCommand::Reset)
    } else if code == 'l' {
        Some(StyleCommand::Bold)
    } else if code == 'n' {
        Some(StyleCommand::Underline)
    } else if code == 'o' {
        Some(StyleCommand::Italic)
    } else if code == 'm' {
        Some(StyleCommand::Strikethrough)
    } else if code == 'k' {
        Some(StyleCommand::Obfuscate)
    } else {
        match palette_from_code(code) {
            Some(p) => Some(StyleCommand::Color(p)),
            None => None,
        }
    }
}

/// The single-character code of each command.
pub open spec fn command_code(cmd: StyleCommand) -> char {
    match cmd {
        StyleCommand::Color(c) => palette_code(c),
        StyleCommand::Reset => 'r',
        StyleCommand::Bold => 'l',
        StyleCommand::Underline => 'n',
        StyleCommand::Italic => 'o',
        StyleCommand::Strikethrough => 'm',
        StyleCommand::Obfuscate => 'k',
    }
}

impl StyleCommand {
    /// The command a code character denotes, if any.
    pub fn from_code(code: char) -> (r: Option<Self>)
        ensures
            r == command_from_code(code),
    {
        if code == 'r' {
            Some(StyleCommand::Reset)
        } else if code == 'l' {
            Some(StyleCommand::Bold)
        } else if code == 'n' {
            Some(StyleCommand::Underline)
        } else if code == 'o' {
            Some(StyleCommand::Italic)
        } else if code == 'm' {
            Some(StyleCommand::Strikethrough)
        } else if code == 'k' {
            Some(StyleCommand::Obfuscate)
        } else {
            match PaletteColor::from_code(code) {
                Some(p) => Some(StyleCommand::Color(p)),
                None => None,
            }
        }
    }

    /// The single-character code of this command.
    pub fn as_code(&self) -> (c: char)
        ensures
            c == command_code(*self),
    {
        match *self {
            StyleCommand::Color(ref c) => c.as_code(),
            StyleCommand::Reset => 'r',
            StyleCommand::Bold => 'l',
            StyleCommand::Underline => 'n',
            StyleCommand::Italic => 'o',
            StyleCommand::Strikethrough => 'm',
            StyleCommand::Obfuscate => 'k',
        }
    }

    /// The flags this command touches: a color or reset command touches them
    /// all, a flag command exactly its own.
    pub fn affected_flags(&self) -> (f: StyleFlags)
        ensures
            f == match *self {
                StyleCommand::Color(_) => StyleFlags::spec_all(),
                StyleCommand::Reset => StyleFlags::spec_all(),
                cmd => StyleFlags::spec_none().spec_process(cmd),
            },
    {
        match *self {
            StyleCommand::Color(_) => StyleFlags::all(),
            StyleCommand::Reset => StyleFlags::all(),
            StyleCommand::Bold => StyleFlags::none().set_bold(true),
            StyleCommand::Underline => StyleFlags::none().set_underline(true),
            StyleCommand::Italic => StyleFlags::none().set_italic(true),
            StyleCommand::Strikethrough => StyleFlags::none().set_strikethrough(true),
            StyleCommand::Obfuscate => StyleFlags::none().set_obfuscate(true),
        }
    }
}

/// Each code round-trips: encoding a command and decoding the code gives the
/// command back.
pub proof fn lemma_code_round_trip(cmd: StyleCommand)
    ensures
        command_from_code(command_code(cmd)) == Some(cmd),
{
}

/// A full text style: a color and a set of attribute flags.
#[derive(Debug, Copy, Clone, Eq, PartialEq, Structural)]
pub struct Style {
    pub color: Color,
    /// The attribute flags of the text.
    pub flags: StyleFlags,
}

/// The style every decode and encode starts from: default color, no flags.
pub open spec fn default_style() -> Style {
    Style { color: Color::Default, flags: StyleFlags::spec_none() }
}

/// What one command leaves of a style: flags as by
/// [`StyleFlags::spec_process`], and the color replaced by a reset or color
/// command and kept by the rest.
pub open spec fn style_process(s: Style, cmd: StyleCommand) -> Style {
    Style {
        color: match cmd {
            StyleCommand::Reset => Color::Default,
            StyleCommand::Color(c) => Color::Palette(c),
            _ => s.color,
        },
        flags: s.flags.spec_process(cmd),
    }
}

/// What a command sequence leaves of a style, applied left to right.
pub open spec fn style_process_all(s: Style, cmds: Seq<StyleCommand>) -> Style
    decreases cmds.len(),
{
    if cmds.len() == 0 {
        s
    } else {
        style_process_all(style_process(s, cmds[0]), cmds.drop_first())
    }
}

/// Whether moving from style `a` to style `b` needs a full reset: the color
/// changes, or some flag set in `a` is absent from `b`.
pub open spec fn spec_will_reset(a: Style, b: Style) -> bool {
    a.color != b.color || a.flags.spec_or(b.flags) != b.flags
}

/// The minimal command sequence that carries style `a` over into style `b`:
/// nothing if they are equal; a reset (through the new color's command) and
/// one command per set flag if a full reset is needed; otherwise one command
/// per newly set flag.
pub open spec fn transition_commands(a: Style, b: Style) -> Seq<StyleCommand> {
    if a == b {
        Seq::empty()
    } else if spec_will_reset(a, b) {
        seq![color_command(b.color)] + flag_commands(b.flags)
    } else {
        delta_flag_commands(a.flags, b.flags)
    }
}

impl Style {
    /// The fresh style: default color, no flags.
    pub fn new() -> (s: Self)
        ensures
            s == default_style(),
    {
        Style { flags: StyleFlags::none(), color: Color::Default }
    }

    /// Applies one command to this style.
    pub fn process(&mut self, cmd: &StyleCommand)
        ensures
            *final(self) == style_process(*old(self), *cmd),
    {
        self.flags = self.flags.process(cmd);
        match *cmd {
            StyleCommand::Reset => self.color = Color::Default,
            StyleCommand::Color(color) => self.color = Color::Palette(color),
            _ => (),
        }
    }

    /// Whether serializing `other` after this style needs a full reset.
    pub fn will_reset(&self, other: Self) -> (r: bool)
        ensures
            r == spec_will_reset(*self, other),
    {
        self.color != other.color || self.flags.or(other.flags) != other.flags
    }

    /// The minimal command sequence that carries this style over into `other`.
    pub fn transition(&self, other: Style) -> (t: Transition)
        ensures
            t.remaining() == transition_commands(*self, other),
    {
        if *self == other {
            Transition::Unchanged
        } else if self.will_reset(other) {
            Transition::Reset(Some(other.color.command()), other.flags.commands())
        } else {
            Transition::Delta(self.flags.delta_commands(other.flags))
        }
    }
}

/// Replays the command sequence of a [`Style::transition`].
pub enum Transition {
    /// A full reset: the new color's command, then one command per set flag.
    Reset(Option<StyleCommand>, Commands),
    /// An incremental change: one command per newly set flag.
    Delta(DeltaCommands),
    /// The styles were equal; nothing to emit.
    Unchanged,
}

impl Transition {
    /// The commands not yet handed out.
    pub closed spec fn remaining(self) -> Seq<StyleCommand> {
        match self {
            Transition::Reset(pending, cmds) => match pending {
                Some(c) => seq![c] + cmds.remaining(),
                None => cmds.remaining(),
            },
            Transition::Delta(delta) => delta.remaining(),
            Transition::Unchanged => Seq::empty(),
        }
    }

    pub fn next(&mut self) -> (r: Option<StyleCommand>)
        ensures
            old(self).remaining().len() > 0 ==> r == Some(old(self).remaining()[0])
                && final(self).remaining() == old(self).remaining().drop_first(),
            old(self).remaining().len() == 0 ==> r is None && final(self).remaining()
                == Seq::<StyleCommand>::empty(),
    {
        match self {
            Transition::Reset(pending, cmds) => {
                if let Some(c) = *pending {
                    *pending = None;
                    proof {
                        assert(old(self).remaining().drop_first() =~= cmds.remaining());
                    }
                    Some(c)
                } else {
                    cmds.next()
                }
            },
            Transition::Delta(delta) => delta.next(),
            Transition::Unchanged => None,
        }
    }
}

/// Applying a concatenation of command sequences applies them in order.
pub proof fn lemma_style_process_all_concat(s: Style, a: Seq<StyleCommand>, b: Seq<StyleCommand>)
    ensures
        style_process_all(s, a + b) == style_process_all(style_process_all(s, a), b),
    decreases a.len(),
{
    if a.len() == 0 {
        assert(a + b =~= b);
    } else {
        assert((a + b).drop_first() =~= a.drop_first() + b);
        lemma_style_process_all_concat(style_process(s, a[0]), a.drop_first(), b);
    }
}

/// Applying the flag commands taken from position `i` on only sets the
/// corresponding flags and keeps everything else.
proof fn lemma_flag_commands_from_apply(s: Style, f: StyleFlags, i: int)
    requires
        0 <= i <= 5,
        forall|j: int| 0 < j <= i ==> flag_at(s.flags, j) == flag_at(f, j),
        forall|j: int| i < j <= 5 ==> !flag_at(s.flags, j),
    ensures
        style_process_all(s, flag_commands_from(f, i)) == (Style { color: s.color, flags: f }),
    decreases 5 - i,
{
    if i == 5 {
        assert(flag_at(s.flags, 1) == flag_at(f, 1) && flag_at(s.flags, 2) == flag_at(f, 2)
            && flag_at(s.flags, 3) == flag_at(f, 3) && flag_at(s.flags, 4) == flag_at(f, 4)
            && flag_at(s.flags, 5) == flag_at(f, 5));
        assert(s.flags =~= f);
        assert(s =~= (Style { color: s.color, flags: f }));
    } else {
        assert(forall|j: int| 0 < j <= i ==> flag_at(s.flags, j) == flag_at(f, j));
        let cmd = flag_command_at(i + 1);
        if flag_at(f, i + 1) {
            let s2 = style_process(s, cmd);
            assert((seq![cmd] + flag_commands_from(f, i + 1)).drop_first() =~= flag_commands_from(
                f,
                i + 1,
            ));
            assert forall|j: int| 0 < j <= i + 1 implies flag_at(s2.flags, j) == flag_at(
                f,
                j,
            ) by {
                if j <= i {
                    assert(flag_at(s.flags, j) == flag_at(f, j));
                }
            }
            assert forall|j: int| i + 1 < j <= 5 implies !flag_at(s2.flags, j) by {
                assert(!flag_at(s.flags, j));
            }
            lemma_flag_commands_from_apply(s2, f, i + 1);
        } else {
            assert forall|j: int| 0 < j <= i + 1 implies flag_at(s.flags, j) == flag_at(
                f,
                j,
            ) by {
                if j <= i {
                    assert(flag_at(s.flags, j) == flag_at(f, j));
                } else {
                    assert(!flag_at(s.flags, j));
                }
            }
            lemma_flag_commands_from_apply(s, f, i + 1);
        }
    }
}

/// Applying the delta commands taken from position `i` on raises exactly the
/// flags of `f` that are still missing and keeps everything else.
proof fn lemma_delta_commands_from_apply(s: Style, base: StyleFlags, f: StyleFlags, i: int)
    requires
        0 <= i <= 5,
        forall|j: int| 0 < j <= i ==> flag_at(s.flags, j) == flag_at(f, j),
        forall|j: int| i < j <= 5 ==> flag_at(s.flags, j) == flag_at(base, j),
        forall|j: int| 0 < j <= 5 ==> (flag_at(base, j) ==> flag_at(f, j)),
    ensures
        style_process_all(s, delta_flag_commands_from(base, f, i)) == (Style {
            color: s.color,
            flags: f,
        }),
    decreases 5 - i,
{
    if i == 5 {
        assert(flag_at(s.flags, 1) == flag_at(f, 1) && flag_at(s.flags, 2) == flag_at(f, 2)
            && flag_at(s.flags, 3) == flag_at(f, 3) && flag_at(s.flags, 4) == flag_at(f, 4)
            && flag_at(s.flags, 5) == flag_at(f, 5));
        assert(s.flags =~= f);
        assert(s =~= (Style { color: s.color, flags: f }));
    } else {
        let cmd = flag_command_at(i + 1);
        if !flag_at(base, i + 1) && flag_at(f, i + 1) {
            let s2 = style_process(s, cmd);
            assert((seq![cmd] + delta_flag_commands_from(base, f, i + 1)).drop_first()
                =~= delta_flag_commands_from(base, f, i + 1));
            assert forall|j: int| 0 < j <= i + 1 implies flag_at(s2.flags, j) == flag_at(
                f,
                j,
            ) by {
                if j <= i {
                    assert(flag_at(s.flags, j) == flag_at(f, j));
                }
            }
            assert forall|j: int| i + 1 < j <= 5 implies flag_at(s2.flags, j) == flag_at(
                base,
                j,
            ) by {
                assert(flag_at(s.flags, j) == flag_at(base, j));
            }
            lemma_delta_commands_from_apply(s2, base, f, i + 1);
        } else {
            assert forall|j: int| 0 < j <= i + 1 implies flag_at(s.flags, j) == flag_at(
                f,
                j,
            ) by {
                if j <= i {
                    assert(flag_at(s.flags, j) == flag_at(f, j));
                } else {
                    assert(flag_at(s.flags, j) == flag_at(base, j));
                    assert(flag_at(base, j) ==> flag_at(f, j));
                }
            }
            lemma_delta_commands_from_apply(s, base, f, i + 1);
        }
    }
}

/// The transition commands do what they promise: applied to the old style,
/// they produce exactly the new style.
pub proof fn lemma_transition_applies(a: Style, b: Style)
    ensures
        style_process_all(a, transition_commands(a, b)) == b,
{
    if a == b {
    } else if spec_will_reset(a, b) {
        let first = color_command(b.color);
        let s1 = style_process(a, first);
        assert(s1.color == b.color);
        assert(s1.flags == StyleFlags::spec_none());
        assert((seq![first] + flag_commands(b.flags)).drop_first() =~= flag_commands(b.flags));
        lemma_flag_commands_from_apply(s1, b.flags, 0);
        assert(style_process_all(a, transition_commands(a, b)) =~= b);
    } else {
        assert(a.color == b.color);
        assert(forall|j: int|
            0 < j <= 5 ==> (flag_at(a.flags, j) ==> flag_at(b.flags, j))) by {
            assert(a.flags.spec_or(b.flags) == b.flags);
        }
        lemma_delta_commands_from_apply(a, a.flags, b.flags, 0);
        assert(style_process_all(a, transition_commands(a, b)) =~= b);
    }
}

/// A transition is empty exactly between equal styles: distinct styles always
/// emit at least one command.
pub proof fn lemma_transition_nonempty(a: Style, b: Style)
    ensures
        (transition_commands(a, b).len() == 0) == (a == b),
{
    if a != b {
        if spec_will_reset(a, b) {
        } else {
            assert(a.color == b.color);
            if a.flags != b.flags {
                assert(a.flags.spec_or(b.flags) == b.flags);
                assert(exists|j: int| 0 < j <= 5 && !flag_at(a.flags, j) && flag_at(b.flags, j))
                    by {
                    if a.flags.spec_bold() != b.flags.spec_bold() {
                        assert(!flag_at(a.flags, 1) && flag_at(b.flags, 1));
                    } else if a.flags.spec_underline() != b.flags.spec_underline() {
                        assert(!flag_at(a.flags, 2) && flag_at(b.flags, 2));
                    } else if a.flags.spec_italic() != b.flags.spec_italic() {
                        assert(!flag_at(a.flags, 3) && flag_at(b.flags, 3));
                    } else if a.flags.spec_strikethrough() != b.flags.spec_strikethrough() {
                        assert(!flag_at(a.flags, 4) && flag_at(b.flags, 4));
                    } else {
                        assert(a.flags.spec_obfuscate() != b.flags.spec_obfuscate());
                        assert(!flag_at(a.flags, 5) && flag_at(b.flags, 5));
                    }
                }
                lemma_delta_nonempty(a.flags, b.flags, 0);
            } else {
                assert(a =~= b);
            }
        }
    }
}

/// If some flag above position `i` is newly set, the delta from `i` on is
/// nonempty.
proof fn lemma_delta_nonempty(base: StyleFlags, f: StyleFlags, i: int)
    requires
        0 <= i <= 5,
        exists|j: int| i < j <= 5 && !flag_at(base, j) && flag_at(f, j),
    ensures
        delta_flag_commands_from(base, f, i).len() > 0,
    decreases 5 - i,
{
    if !flag_at(base, i + 1) && flag_at(f, i + 1) {
    } else {
        let j = choose|j: int| i < j <= 5 && !flag_at(base, j) && flag_at(f, j);
        assert(i + 1 < j <= 5);
        lemma_delta_nonempty(base, f, i + 1);
    }
}


} // verus!
