use richtext::plain::FormatReader;
use richtext::plain::FormatWriter;
use richtext::plain::PlainBuf;
use richtext::style::Color;
use richtext::style::PaletteColor;
use richtext::style::Style;
use richtext::style::StyleCommand;

const MARKER: char = '\u{a7}';

fn style_of(cmds: &[StyleCommand]) -> Style {
    let mut s = Style::new();
    for c in cmds {
        s.process(c);
    }
    s
}

fn pairs(buf: &PlainBuf) -> Vec<(String, Style)> {
    let mut it = buf.iter();
    let mut v = Vec::new();
    while let Some((piece, style)) = it.next() {
        v.push((piece.to_string(), style));
    }
    v
}

#[test]
fn decode_marker_codes() {
    let s = format!("a{m}lb {m}cc", m = MARKER);
    let buf = PlainBuf::from_formatted(&s, MARKER);
    assert_eq!(buf.unstyled(), "ab c");
    let got = pairs(&buf);
    assert_eq!(got.len(), 3);
    assert_eq!(got[0], ("a".to_string(), Style::new()));
    assert_eq!(got[1], (
        "b ".to_string(),
        style_of(&[StyleCommand::Bold]),
    ));
    assert_eq!(got[2], (
        "c".to_string(),
        style_of(&[StyleCommand::Color(PaletteColor::Red)]),
    ));
}

#[test]
fn decode_unknown_code_defaults_to_white() {
    let s = format!("x{m}zy", m = MARKER);
    let buf = PlainBuf::from_formatted(&s, MARKER);
    assert_eq!(buf.unstyled(), "xy");
    let got = pairs(&buf);
    assert_eq!(got.len(), 2);
    assert_eq!(got[1].1.color, Color::Palette(PaletteColor::White));
}

#[test]
fn decode_dangling_marker_keeps_text() {
    let s = format!("ab{m}", m = MARKER);
    let buf = PlainBuf::from_formatted(&s, MARKER);
    assert_eq!(buf.unstyled(), "ab");
    let got = pairs(&buf);
    assert_eq!(got, vec![("ab".to_string(), Style::new())]);
}

#[test]
fn push_splits_long_runs_on_character_boundaries() {
    // 150 two-byte characters: 300 bytes, split at 254 bytes, never inside
    // a character; the merging walk sees one run again
    let text: String = std::iter::repeat('\u{e9}').take(150).collect();
    let style = style_of(&[StyleCommand::Bold]);
    let mut buf = PlainBuf::new();
    buf.push(&text, style);
    assert_eq!(buf.unstyled(), text);
    let got = pairs(&buf);
    assert_eq!(got, vec![(text.clone(), style)]);
}

#[test]
fn iter_merges_adjacent_equal_styles() {
    let mut buf = PlainBuf::new();
    let bold = style_of(&[StyleCommand::Bold]);
    buf.push("one ", bold);
    buf.push("two", bold);
    buf.push("!", Style::new());
    let got = pairs(&buf);
    assert_eq!(got, vec![
        ("one two".to_string(), bold),
        ("!".to_string(), Style::new()),
    ]);
}

#[test]
fn encode_emits_minimal_transitions() {
    let mut buf = PlainBuf::new();
    let red_bold = style_of(&[StyleCommand::Color(PaletteColor::Red), StyleCommand::Bold]);
    let red_bold_italic = style_of(&[
        StyleCommand::Color(PaletteColor::Red),
        StyleCommand::Bold,
        StyleCommand::Italic,
    ]);
    buf.push("a", red_bold);
    // the delta path: only the newly set italic flag is emitted
    buf.push("b", red_bold_italic);
    // dropping flags forces a reset; the default color needs no color code
    buf.push("c", Style::new());
    let out = buf.to_formatted(MARKER);
    assert_eq!(out, format!("{m}c{m}la{m}ob{m}rc", m = MARKER));
}

#[test]
fn encode_same_style_emits_no_codes() {
    let mut buf = PlainBuf::new();
    buf.push("plain", Style::new());
    buf.push(" text", Style::new());
    assert_eq!(buf.to_formatted(MARKER), "plain text");
}

#[test]
fn round_trip_of_pushed_buffer() {
    let mut buf = PlainBuf::new();
    let aqua = style_of(&[StyleCommand::Color(PaletteColor::Aqua)]);
    let aqua_ul = style_of(&[StyleCommand::Color(PaletteColor::Aqua), StyleCommand::Underline]);
    buf.push("hello ", Style::new());
    buf.push("wor", aqua);
    buf.push("ld", aqua);
    buf.push("!", aqua_ul);
    let encoded = buf.to_formatted(MARKER);
    let back = PlainBuf::from_formatted(&encoded, MARKER);
    assert_eq!(pairs(&back), pairs(&buf));
    assert_eq!(back.unstyled(), buf.unstyled());
}

#[test]
fn reformat_is_idempotent() {
    let source = format!(
        "{m}e{m}lGold{m}r and {m}9blue {m}nunder{m}k???",
        m = MARKER
    );
    let once = PlainBuf::from_formatted(&source, MARKER).to_formatted(MARKER);
    let twice = PlainBuf::from_formatted(&once, MARKER).to_formatted(MARKER);
    assert_eq!(once, twice);
}

#[test]
fn reader_and_writer_compose() {
    let mut reader = FormatReader::with_marker(MARKER);
    reader.append(&format!("a{m}l", m = MARKER));
    reader.append("bc");
    let buf = reader.finish();
    assert_eq!(buf.unstyled(), "abc");
    let got = pairs(&buf);
    assert_eq!(got, vec![
        ("a".to_string(), Style::new()),
        ("bc".to_string(), style_of(&[StyleCommand::Bold])),
    ]);

    let mut writer = FormatWriter::with_marker(MARKER);
    writer.write("a", Style::new());
    writer.write("b", style_of(&[StyleCommand::Bold]));
    writer.write("c", style_of(&[StyleCommand::Bold]));
    assert_eq!(writer.into_string(), format!("a{m}lbc", m = MARKER));
}
