use richtext::style::Color;
use richtext::style::PaletteColor;
use richtext::style::Style;
use richtext::style::StyleCommand;
use richtext::style::StyleFlags;

#[test]
fn flags_pack_and_query() {
    let f = StyleFlags::none();
    assert!(!f.bold() && !f.underline() && !f.italic() && !f.strikethrough() && !f.obfuscate());
    let f = f.set_bold(true).set_italic(true);
    assert!(f.bold() && f.italic() && !f.underline());
    let f = f.set_bold(false);
    assert!(!f.bold() && f.italic());
    let a = StyleFlags::none().set_bold(true);
    let b = StyleFlags::none().set_underline(true);
    let o = a.or(b);
    assert!(o.bold() && o.underline() && !o.obfuscate());
    assert_eq!(StyleFlags::all(), StyleFlags::none().or(StyleFlags::all()));
}

#[test]
fn flags_process_commands() {
    let f = StyleFlags::none().set_bold(true).set_obfuscate(true);
    assert_eq!(f.process(&StyleCommand::Reset), StyleFlags::none());
    assert_eq!(f.process(&StyleCommand::Color(PaletteColor::Red)), StyleFlags::none());
    assert_eq!(
        f.process(&StyleCommand::Italic),
        StyleFlags::none().set_bold(true).set_obfuscate(true).set_italic(true)
    );
}

#[test]
fn commands_emit_in_fixed_order() {
    let f = StyleFlags::none().set_obfuscate(true).set_bold(true).set_strikethrough(true);
    let mut c = f.commands();
    assert_eq!(c.next(), Some(StyleCommand::Bold));
    assert_eq!(c.next(), Some(StyleCommand::Strikethrough));
    assert_eq!(c.next(), Some(StyleCommand::Obfuscate));
    assert_eq!(c.next(), None);
    assert_eq!(c.next(), None);

    let old = StyleFlags::none().set_bold(true);
    let new = StyleFlags::none().set_bold(true).set_underline(true).set_italic(true);
    let mut d = old.delta_commands(new);
    assert_eq!(d.next(), Some(StyleCommand::Underline));
    assert_eq!(d.next(), Some(StyleCommand::Italic));
    assert_eq!(d.next(), None);
}

#[test]
fn code_round_trip() {
    let all = [
        StyleCommand::Reset,
        StyleCommand::Bold,
        StyleCommand::Underline,
        StyleCommand::Italic,
        StyleCommand::Strikethrough,
        StyleCommand::Obfuscate,
        StyleCommand::Color(PaletteColor::Black),
        StyleCommand::Color(PaletteColor::Gold),
        StyleCommand::Color(PaletteColor::Green),
        StyleCommand::Color(PaletteColor::White),
    ];
    for cmd in all {
        assert_eq!(StyleCommand::from_code(cmd.as_code()), Some(cmd));
    }
    assert_eq!(StyleCommand::from_code('r'), Some(StyleCommand::Reset));
    assert_eq!(StyleCommand::from_code('l'), Some(StyleCommand::Bold));
    assert_eq!(StyleCommand::from_code('n'), Some(StyleCommand::Underline));
    assert_eq!(StyleCommand::from_code('o'), Some(StyleCommand::Italic));
    assert_eq!(StyleCommand::from_code('m'), Some(StyleCommand::Strikethrough));
    assert_eq!(StyleCommand::from_code('k'), Some(StyleCommand::Obfuscate));
    assert_eq!(StyleCommand::from_code('0'), Some(StyleCommand::Color(PaletteColor::Black)));
    assert_eq!(StyleCommand::from_code('f'), Some(StyleCommand::Color(PaletteColor::White)));
    assert_eq!(StyleCommand::from_code('z'), None);
    assert_eq!(PaletteColor::from_code('a'), Some(PaletteColor::Green));
    assert_eq!(PaletteColor::Aqua.as_code(), 'b');
}

#[test]
fn affected_flags_drive_reset_decision() {
    assert_eq!(StyleCommand::Reset.affected_flags(), StyleFlags::all());
    assert_eq!(
        StyleCommand::Color(PaletteColor::Red).affected_flags(),
        StyleFlags::all()
    );
    assert_eq!(
        StyleCommand::Underline.affected_flags(),
        StyleFlags::none().set_underline(true)
    );
}

#[test]
fn style_process_and_will_reset() {
    let mut s = Style::new();
    assert_eq!(s.color, Color::Default);
    s.process(&StyleCommand::Color(PaletteColor::Red));
    s.process(&StyleCommand::Bold);
    assert_eq!(s.color, Color::Palette(PaletteColor::Red));
    assert!(s.flags.bold());
    // a color command clears the flags
    s.process(&StyleCommand::Color(PaletteColor::Blue));
    assert!(!s.flags.bold());
    s.process(&StyleCommand::Reset);
    assert_eq!(s.color, Color::Default);

    let plain = Style::new();
    let mut bold_red = Style::new();
    bold_red.process(&StyleCommand::Color(PaletteColor::Red));
    bold_red.process(&StyleCommand::Bold);
    // gaining flags on the same color needs no reset
    let mut more = bold_red;
    more.process(&StyleCommand::Italic);
    assert!(!bold_red.will_reset(more));
    // dropping a flag forces a reset
    assert!(more.will_reset(bold_red));
    // changing color forces a reset
    assert!(bold_red.will_reset(plain));
    assert!(plain.will_reset(bold_red));
}

#[test]
fn transition_reset_and_delta() {
    let plain = Style::new();
    let mut bold_red = Style::new();
    bold_red.process(&StyleCommand::Color(PaletteColor::Red));
    bold_red.process(&StyleCommand::Bold);

    // full reset path: color command then one command per set flag
    let mut t = plain.transition(bold_red);
    assert_eq!(t.next(), Some(StyleCommand::Color(PaletteColor::Red)));
    assert_eq!(t.next(), Some(StyleCommand::Bold));
    assert_eq!(t.next(), None);

    // delta path: only the newly set flags
    let mut more = bold_red;
    more.process(&StyleCommand::Italic);
    let mut t = bold_red.transition(more);
    assert_eq!(t.next(), Some(StyleCommand::Italic));
    assert_eq!(t.next(), None);

    // equal styles emit nothing
    let mut t = bold_red.transition(bold_red);
    assert_eq!(t.next(), None);

    // back to the default color: a reset, then no color command
    let mut t = bold_red.transition(plain);
    assert_eq!(t.next(), Some(StyleCommand::Reset));
    assert_eq!(t.next(), None);
}

#[test]
fn palette_renderable_forms() {
    assert_eq!(PaletteColor::Green.foreground().rgb(), 0x55FF55);
    assert_eq!(PaletteColor::Green.background().rgb(), 0x153F15);
    assert_eq!(PaletteColor::Black.foreground().rgb(), 0x000000);
    assert_eq!(PaletteColor::White.foreground().rgb(), 0xFFFFFF);
    assert_eq!(PaletteColor::White.background().rgb(), 0x3F3F3F);
    assert_eq!(PaletteColor::Gold.foreground().rgb(), 0xFFAA00);
}
