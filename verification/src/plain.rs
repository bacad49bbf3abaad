//! The styled text buffer: an unstyled string annotated with a run-length
//! list of styles, decoded from and encoded to the legacy marker-code text
//! format.

use crate::chars::char_utf8_len;
use crate::chars::lemma_encode_utf8_concat;
use crate::chars::lemma_utf8_len_push;
use crate::chars::push_char;
use crate::chars::utf8_len;
use crate::chars::utf8_len_of;
use crate::style::Style;
use crate::style::StyleCommand;
use crate::style::Transition;
use crate::style::command_code;
use crate::style::command_from_code;
use crate::style::default_style;
use crate::style::style_process;
use crate::style::style_process_all;
use crate::style::transition_commands;
use vstd::prelude::*;

verus! {

/// The byte capacity of one stored run.
pub open spec fn run_cap() -> int {
    255
}

/// Each character of `text`, tagged with `style`: the observable content of
/// one run.
pub open spec fn annotate(text: Seq<char>, style: Style) -> Seq<(char, Style)> {
    text.map_values(|c: char| (c, style))
}

/// Each character of the buffer, tagged with the style of its run: the
/// observable content of a run list. Run boundaries are invisible here.
pub open spec fn styled_chars(runs: Seq<(Seq<char>, Style)>) -> Seq<(char, Style)>
    decreases runs.len(),
{
    if runs.len() == 0 {
        Seq::empty()
    } else {
        annotate(runs[0].0, runs[0].1) + styled_chars(runs.drop_first())
    }
}

/// The number of leading characters of `text` whose encodings fit in `cap`
/// bytes: the greedy chunk the run splitter takes.
pub open spec fn chunk_take(text: Seq<char>, cap: int) -> int
    decreases text.len(),
{
    if text.len() == 0 || char_utf8_len(text[0]) > cap {
        0
    } else {
        1 + chunk_take(text.drop_first(), cap - char_utf8_len(text[0]))
    }
}

/// `text` split greedily into runs of at most [`run_cap`] bytes, each tagged
/// with `style`, never splitting inside a character.
pub open spec fn chunks(text: Seq<char>, style: Style) -> Seq<(Seq<char>, Style)>
    decreases text.len(),
{
    if text.len() == 0 {
        Seq::empty()
    } else {
        let k = chunk_take(text, run_cap());
        let k2 = if k < 1 {
            1
        } else if k > text.len() {
            text.len() as int
        } else {
            k
        };
        seq![(text.subrange(0, k2), style)] + chunks(
            text.subrange(k2, text.len() as int),
            style,
        )
    }
}

/// One scan of the marker decoder over `s`, starting with the running
/// `style`, the accumulated `pending` text, and whether the previous
/// character was the marker. Yields the runs flushed during the scan and the
/// final running style, pending text and marker state. Flushing splits the
/// pending text into capped runs; the style tagged on a flushed run is the
/// one that was active before the code that caused the flush.
pub open spec fn scan(s: Seq<char>, marker: char, style: Style, pending: Seq<char>, expect: bool) -> (
    Seq<(Seq<char>, Style)>,
    Style,
    Seq<char>,
    bool,
)
    decreases s.len(),
{
    if s.len() == 0 {
        (Seq::empty(), style, pending, expect)
    } else {
        let c = s[0];
        if expect {
            let cmd = match command_from_code(c) {
                Some(cmd) => cmd,
                None => StyleCommand::Color(crate::style::PaletteColor::White),
            };
            let rest = scan(s.drop_first(), marker, style_process(style, cmd), Seq::empty(), false);
            (chunks(pending, style) + rest.0, rest.1, rest.2, rest.3)
        } else if c == marker {
            scan(s.drop_first(), marker, style, pending, true)
        } else {
            scan(s.drop_first(), marker, style, pending.push(c), false)
        }
    }
}

/// What decoding a whole marker-coded string yields: the runs flushed during
/// the scan, and the pending text flushed at the end under the final style.
pub open spec fn decoded(s: Seq<char>, marker: char) -> Seq<(Seq<char>, Style)> {
    let (runs, style, pending, _) = scan(s, marker, default_style(), Seq::empty(), false);
    runs + chunks(pending, style)
}

/// The marker-and-code pairs of a command sequence.
pub open spec fn codes(cmds: Seq<StyleCommand>, marker: char) -> Seq<char>
    decreases cmds.len(),
{
    if cmds.len() == 0 {
        Seq::empty()
    } else {
        seq![marker, command_code(cmds[0])] + codes(cmds.drop_first(), marker)
    }
}

/// What serializing a run list emits, starting from the emitted style `cur`:
/// for each run, the marker codes of the style transition, then the run's
/// text.
pub open spec fn encode_runs(runs: Seq<(Seq<char>, Style)>, marker: char, cur: Style) -> Seq<char>
    decreases runs.len(),
{
    if runs.len() == 0 {
        Seq::empty()
    } else {
        codes(transition_commands(cur, runs[0].1), marker) + runs[0].0 + encode_runs(
            runs.drop_first(),
            marker,
            runs[0].1,
        )
    }
}

/// What serializing a whole buffer emits.
pub open spec fn encoded(runs: Seq<(Seq<char>, Style)>, marker: char) -> Seq<char> {
    encode_runs(runs, marker, default_style())
}

/// The number of leading runs sharing the first run's style.
pub open spec fn same_style_prefix(runs: Seq<(Seq<char>, Style)>, style: Style) -> int
    decreases runs.len(),
{
    if runs.len() == 0 || runs[0].1 != style {
        0
    } else {
        1 + same_style_prefix(runs.drop_first(), style)
    }
}

/// The concatenated texts of a run list.
pub open spec fn concat_texts(runs: Seq<(Seq<char>, Style)>) -> Seq<char>
    decreases runs.len(),
{
    if runs.len() == 0 {
        Seq::empty()
    } else {
        runs[0].0 + concat_texts(runs.drop_first())
    }
}

/// The run list with adjacent runs of equal style merged: what iterating a
/// buffer yields.
pub open spec fn merge_runs(runs: Seq<(Seq<char>, Style)>) -> Seq<(Seq<char>, Style)>
    decreases runs.len(),
{
    if runs.len() == 0 {
        Seq::empty()
    } else {
        let k = same_style_prefix(runs, runs[0].1);
        let k2 = if k < 1 {
            1
        } else if k > runs.len() {
            runs.len() as int
        } else {
            k
        };
        seq![(concat_texts(runs.subrange(0, k2)), runs[0].1)] + merge_runs(
            runs.subrange(k2, runs.len() as int),
        )
    }
}

/// Whether no character of any run's text is the marker.
pub open spec fn marker_free(runs: Seq<(Seq<char>, Style)>, marker: char) -> bool {
    forall|i: int, j: int|
        0 <= i < runs.len() && 0 <= j < runs[i].0.len() ==> #[trigger] runs[i].0[j] != marker
}

/// Whether every run's text is nonempty.
pub open spec fn runs_nonempty(runs: Seq<(Seq<char>, Style)>) -> bool {
    forall|i: int| 0 <= i < runs.len() ==> (#[trigger] runs[i].0).len() > 0
}


/// The stored text, descriptors and the ghost run decomposition agree: the
/// texts of `runs` partition `text` in order, each is nonempty, and each
/// one's UTF-8 byte length is its descriptor's run length.
pub open spec fn runs_match(
    text: Seq<char>,
    ds: Seq<(u8, Style)>,
    runs: Seq<(Seq<char>, Style)>,
) -> bool
    decreases runs.len(),
{
    if runs.len() == 0 {
        ds.len() == 0 && text.len() == 0
    } else {
        let t0 = runs[0].0;
        ds.len() > 0 && t0.len() > 0 && t0.len() <= text.len() && text.subrange(
            0,
            t0.len() as int,
        ) == t0 && utf8_len_of(t0) == ds[0].0 as int && runs[0].1 == ds[0].1 && runs_match(
            text.subrange(t0.len() as int, text.len() as int),
            ds.drop_first(),
            runs.drop_first(),
        )
    }
}

/// Appending one run keeps the decomposition in step.
proof fn lemma_runs_match_append(
    text: Seq<char>,
    ds: Seq<(u8, Style)>,
    runs: Seq<(Seq<char>, Style)>,
    t: Seq<char>,
    d: u8,
    style: Style,
)
    requires
        runs_match(text, ds, runs),
        t.len() > 0,
        utf8_len_of(t) == d as int,
    ensures
        runs_match(text + t, ds.push((d, style)), runs.push((t, style))),
    decreases runs.len(),
{
    if runs.len() == 0 {
        assert(text + t =~= t);
        let runs2 = runs.push((t, style));
        let ds2 = ds.push((d, style));
        assert(runs2[0] == (t, style));
        assert((text + t).subrange(0, t.len() as int) =~= t);
        assert((text + t).subrange(t.len() as int, (text + t).len() as int) =~= Seq::<
            char,
        >::empty());
        assert(ds2.drop_first() =~= Seq::<(u8, Style)>::empty());
        assert(runs2.drop_first() =~= Seq::<(Seq<char>, Style)>::empty());
        assert(runs_match(
            (text + t).subrange(t.len() as int, (text + t).len() as int),
            ds2.drop_first(),
            runs2.drop_first(),
        ));
        assert(runs_match(text + t, ds2, runs2));
    } else {
        let t0 = runs[0].0;
        let text2 = text + t;
        let runs2 = runs.push((t, style));
        let ds2 = ds.push((d, style));
        assert(runs2[0] == runs[0]);
        assert(ds2[0] == ds[0]);
        assert(text2.subrange(0, t0.len() as int) =~= text.subrange(0, t0.len() as int));
        assert(text2.subrange(t0.len() as int, text2.len() as int) =~= text.subrange(
            t0.len() as int,
            text.len() as int,
        ) + t);
        assert(ds2.drop_first() =~= ds.drop_first().push((d, style)));
        assert(runs2.drop_first() =~= runs.drop_first().push((t, style)));
        lemma_runs_match_append(
            text.subrange(t0.len() as int, text.len() as int),
            ds.drop_first(),
            runs.drop_first(),
            t,
            d,
            style,
        );
        assert(runs_match(
            text2.subrange(t0.len() as int, text2.len() as int),
            ds2.drop_first(),
            runs2.drop_first(),
        ));
        assert(runs_match(text2, ds2, runs2));
    }
}

/// In a well-formed decomposition the run texts concatenate to the text.
pub proof fn lemma_runs_match_concat(
    text: Seq<char>,
    ds: Seq<(u8, Style)>,
    runs: Seq<(Seq<char>, Style)>,
)
    requires
        runs_match(text, ds, runs),
    ensures
        concat_texts(runs) == text,
        runs_nonempty(runs),
    decreases runs.len(),
{
    if runs.len() == 0 {
        assert(concat_texts(runs) =~= text);
    } else {
        let t0 = runs[0].0;
        lemma_runs_match_concat(
            text.subrange(t0.len() as int, text.len() as int),
            ds.drop_first(),
            runs.drop_first(),
        );
        assert(concat_texts(runs) =~= text);
        assert forall|i: int| 0 <= i < runs.len() implies (#[trigger] runs[i].0).len() > 0 by {
            if i > 0 {
                assert(runs.drop_first()[i - 1] == runs[i]);
            }
        }
    }
}

/// A well-formed decomposition has one run per descriptor.
proof fn lemma_runs_match_len(text: Seq<char>, ds: Seq<(u8, Style)>, runs: Seq<(Seq<char>, Style)>)
    requires
        runs_match(text, ds, runs),
    ensures
        runs.len() == ds.len(),
    decreases runs.len(),
{
    if runs.len() > 0 {
        let t0 = runs[0].0;
        lemma_runs_match_len(
            text.subrange(t0.len() as int, text.len() as int),
            ds.drop_first(),
            runs.drop_first(),
        );
    }
}

/// A buffer storing an unstyled string annotated with styles in a
/// descriptor buffer: a run-length list of `(byte length, style)` pairs.
pub struct PlainBuf {
    /// The unstyled string.
    string: String,
    /// The descriptors holding the styles.
    descriptors: Vec<(u8, Style)>,
    /// The run decomposition of the string, carried alongside as proof.
    segments: Ghost<Seq<(Seq<char>, Style)>>,
}

impl PlainBuf {
    /// The unstyled text.
    pub closed spec fn text(self) -> Seq<char> {
        self.string@
    }

    /// The stored descriptors: each run's byte length and style.
    pub closed spec fn descs(self) -> Seq<(u8, Style)> {
        self.descriptors@
    }

    /// The run decomposition: each run's text and style.
    pub closed spec fn runs(self) -> Seq<(Seq<char>, Style)> {
        self.segments@
    }

    /// The stored pieces agree; see [`runs_match`].
    pub closed spec fn wf(self) -> bool {
        runs_match(self.string@, self.descriptors@, self.segments@)
    }

    /// The runs of a well-formed buffer partition its text.
    pub proof fn lemma_wf_runs(self)
        requires
            self.wf(),
        ensures
            concat_texts(self.runs()) == self.text(),
            runs_nonempty(self.runs()),
    {
        lemma_runs_match_concat(self.string@, self.descriptors@, self.segments@);
    }

    /// Creates a new, empty buffer.
    pub fn new() -> (b: Self)
        ensures
            b.wf(),
            b.text() == Seq::<char>::empty(),
            b.runs() == Seq::<(Seq<char>, Style)>::empty(),
    {
        PlainBuf { string: String::new(), descriptors: Vec::new(), segments: Ghost(Seq::empty()) }
    }

    /// The unstyled text.
    pub fn unstyled(&self) -> (s: &str)
        ensures
            s@ == self.text(),
    {
        self.string.as_str()
    }

    /// Appends `string` under one style: the text is appended whole, and the
    /// descriptors record it as greedy runs of at most 255 bytes each, never
    /// split inside a character.
    pub fn push(&mut self, string: &str, style: Style)
        requires
            old(self).wf(),
        ensures
            final (self).wf(),
            final (self).text() == old(self).text() + string@,
            final (self).runs() == old(self).runs() + chunks(string@, style),
    {
        self.string.append(string);
        proof {
            let full = old(self).text() + string@;
            assert(full.subrange(0, old(self).text().len() as int) =~= old(self).text());
            assert(full.subrange(full.len() - string@.len(), full.len() as int) =~= string@);
        }
        self.break_descriptor(string, style);
    }

    /// Splits the just-appended `tail` into capped descriptor runs.
    fn break_descriptor(&mut self, tail: &str, style: Style)
        requires
            runs_match(
                old(self).text().subrange(0, old(self).text().len() - tail@.len()),
                old(self).descs(),
                old(self).runs(),
            ),
            old(self).text().len() >= tail@.len(),
            old(self).text().subrange(
                old(self).text().len() - tail@.len(),
                old(self).text().len() as int,
            ) == tail@,
        ensures
            final (self).wf(),
            final (self).text() == old(self).text(),
            final (self).runs() == old(self).runs() + chunks(tail@, style),
    {
        let len = tail.unicode_len();
        let mut p: usize = 0;
        let ghost base = old(self).text().len() - tail@.len();
        proof {
            assert(tail@.subrange(0, len as int) =~= tail@);
        }
        loop
            invariant_except_break
                p <= len,
                len == tail@.len(),
                self.string@ == old(self).text(),
                base == old(self).text().len() - tail@.len(),
                0 <= base,
                base + len == old(self).text().len(),
                old(self).text().subrange(base, old(self).text().len() as int) == tail@,
                runs_match(
                    self.string@.subrange(0, base + p),
                    self.descriptors@,
                    self.segments@,
                ),
                old(self).runs() + chunks(tail@, style) == self.segments@ + chunks(
                    tail@.subrange(p as int, len as int),
                    style,
                ),
            ensures
                self.string@ == old(self).text(),
                runs_match(self.string@, self.descriptors@, self.segments@),
                self.segments@ == old(self).runs() + chunks(tail@, style),
            decreases len - p,
        {
            if p >= len {
                proof {
                    assert(chunks(tail@.subrange(p as int, len as int), style) =~= Seq::<
                        (Seq<char>, Style),
                    >::empty());
                    assert(self.segments@ + Seq::<(Seq<char>, Style)>::empty()
                        =~= self.segments@);
                    assert(self.string@.subrange(0, base + p) =~= self.string@);
                }
                break ;
            }
            let ghost rem = tail@.subrange(p as int, len as int);
            let mut k: usize = 1;
            let c0 = tail.get_char(p);
            let mut b: usize = utf8_len(c0);
            proof {
                assert(rem[0] == tail@[p as int]);
                assert(rem.subrange(0, 1) =~= Seq::<char>::empty().push(rem[0]));
                lemma_utf8_len_push(Seq::<char>::empty(), rem[0]);
                assert(utf8_len_of(Seq::<char>::empty()) == 0);
                crate::chars::lemma_char_utf8_len_bounds(rem[0]);
            }
            loop
                invariant_except_break
                    1 <= k <= rem.len(),
                    p + rem.len() == len,
                    len == tail@.len(),
                    rem == tail@.subrange(p as int, len as int),
                    b == utf8_len_of(rem.subrange(0, k as int)),
                    b <= run_cap(),
                    chunk_take(rem, run_cap()) == k + chunk_take(
                        rem.subrange(k as int, rem.len() as int),
                        run_cap() - b,
                    ),
                ensures
                    1 <= k <= rem.len(),
                    rem == tail@.subrange(p as int, len as int),
                    b == utf8_len_of(rem.subrange(0, k as int)),
                    1 <= b <= run_cap(),
                    k as int == chunk_take(rem, run_cap()),
                decreases rem.len() - k,
            {
                proof {
                    lemma_utf8_len_lower(rem.subrange(0, k as int));
                }
                if p + k >= len {
                    proof {
                        assert(rem.subrange(k as int, rem.len() as int) =~= Seq::<char>::empty());
                    }
                    break ;
                }
                let c = tail.get_char(p + k);
                proof {
                    assert(rem.subrange(k as int, rem.len() as int)[0] == tail@[p + k]);
                }
                let cl = utf8_len(c);
                if b + cl > 255 {
                    proof {
                        assert(chunk_take(
                            rem.subrange(k as int, rem.len() as int),
                            run_cap() - b,
                        ) == 0);
                    }
                    break ;
                }
                proof {
                    let tail_rem = rem.subrange(k as int, rem.len() as int);
                    assert(chunk_take(tail_rem, run_cap() - b) == 1 + chunk_take(
                        tail_rem.drop_first(),
                        run_cap() - b - char_utf8_len(tail_rem[0]),
                    ));
                    assert(tail_rem.drop_first() =~= rem.subrange(k as int + 1, rem.len() as int));
                    assert(rem.subrange(0, k as int + 1) =~= rem.subrange(0, k as int).push(
                        rem[k as int],
                    ));
                    lemma_utf8_len_push(rem.subrange(0, k as int), rem[k as int]);
                }
                k = k + 1;
                b = b + cl;
            }
            let ghost chunk = rem.subrange(0, k as int);
            let ghost pre_text = self.string@.subrange(0, base + p);
            let ghost pre_ds = self.descriptors@;
            let ghost pre_runs = self.segments@;
            self.descriptors.push((b as u8, style));
            self.segments = Ghost(pre_runs.push((chunk, style)));
            proof {
                lemma_utf8_len_lower(chunk);
                lemma_runs_match_append(pre_text, pre_ds, pre_runs, chunk, b as u8, style);
                assert forall|idx: int| 0 <= idx < base + p + k implies self.string@.subrange(
                    0,
                    base + p + k,
                )[idx] == (pre_text + chunk)[idx] by {
                    assert(pre_text.len() == base + p);
                    assert(chunk.len() == k);
                    assert(self.string@.subrange(0, base + p + k)[idx] == self.string@[idx]);
                    if idx >= base + p {
                        assert((pre_text + chunk)[idx] == chunk[idx - (base + p)]);
                        assert(chunk[idx - (base + p)] == rem[idx - (base + p)]);
                        assert(rem[idx - (base + p)] == tail@[idx - base]);
                        assert(old(self).text().subrange(
                            base,
                            old(self).text().len() as int,
                        )[idx - base] == old(self).text()[idx]);
                        assert(tail@[idx - base] == old(self).text()[idx]);
                    } else {
                        assert((pre_text + chunk)[idx] == pre_text[idx]);
                        assert(pre_text[idx] == self.string@[idx]);
                    }
                }
                assert(self.string@.subrange(0, base + p + k) =~= pre_text + chunk);
                assert(self.descriptors@ =~= pre_ds.push(((b as u8), style)));
                // one greedy chunk comes off the front of the remaining chunks
                assert(chunks(rem, style) == seq![(chunk, style)] + chunks(
                    rem.subrange(k as int, rem.len() as int),
                    style,
                ));
                assert(rem.subrange(k as int, rem.len() as int) =~= tail@.subrange(
                    p + k,
                    len as int,
                ));
                assert(old(self).runs() + chunks(tail@, style) == self.segments@ + chunks(
                    tail@.subrange(p + k, len as int),
                    style,
                )) by {
                    assert(pre_runs + (seq![(chunk, style)] + chunks(
                        tail@.subrange(p + k, len as int),
                        style,
                    )) =~= self.segments@ + chunks(tail@.subrange(p + k, len as int), style));
                }
            }
            p = p + k;
        }
    }
}

/// A run of characters encodes to at least one byte per character.
proof fn lemma_utf8_len_lower(s: Seq<char>)
    ensures
        utf8_len_of(s) >= s.len(),
    decreases s.len(),
{
    if s.len() > 0 {
        crate::chars::lemma_char_utf8_len_bounds(s[0]);
        lemma_utf8_len_lower(s.drop_first());
        assert(s =~= seq![s[0]] + s.drop_first());
        lemma_encode_utf8_concat(seq![s[0]], s.drop_first());
        assert(seq![s[0]] =~= Seq::<char>::empty().push(s[0]));
        lemma_utf8_len_push(Seq::<char>::empty(), s[0]);
    }
}


/// Reads marker-coded text into a [`PlainBuf`], keeping the running style,
/// the text gathered since the last style change, and whether the previous
/// character was the marker.
pub struct FormatReader {
    target: PlainBuf,
    marker: char,
    expect_code: bool,
    style: Style,
    pending: String,
}

impl FormatReader {
    /// The buffer built so far.
    pub closed spec fn spec_target(self) -> PlainBuf {
        self.target
    }

    /// The marker character this reader recognizes.
    pub closed spec fn spec_marker(self) -> char {
        self.marker
    }

    /// The running style.
    pub closed spec fn spec_style(self) -> Style {
        self.style
    }

    /// The text gathered since the last flush.
    pub closed spec fn spec_pending(self) -> Seq<char> {
        self.pending@
    }

    /// Whether the previous character was the marker.
    pub closed spec fn spec_expect(self) -> bool {
        self.expect_code
    }

    /// The built buffer is well formed.
    pub open spec fn wf(self) -> bool {
        self.spec_target().wf()
    }

    /// A reader with the traditional section-sign marker.
    pub fn new() -> (r: Self)
        ensures
            r.wf(),
            r.spec_marker() == '\u{a7}',
            r.spec_target().runs() == Seq::<(Seq<char>, Style)>::empty(),
            r.spec_target().text() == Seq::<char>::empty(),
            r.spec_style() == default_style(),
            r.spec_pending() == Seq::<char>::empty(),
            !r.spec_expect(),
    {
        Self::with_marker('\u{a7}')
    }

    /// A reader over an empty buffer.
    pub fn with_marker(marker: char) -> (r: Self)
        ensures
            r.wf(),
            r.spec_marker() == marker,
            r.spec_target().runs() == Seq::<(Seq<char>, Style)>::empty(),
            r.spec_target().text() == Seq::<char>::empty(),
            r.spec_style() == default_style(),
            r.spec_pending() == Seq::<char>::empty(),
            !r.spec_expect(),
    {
        Self::extend(PlainBuf::new(), marker)
    }

    /// A reader that appends onto an existing buffer.
    pub fn extend(target: PlainBuf, marker: char) -> (r: Self)
        requires
            target.wf(),
        ensures
            r.wf(),
            r.spec_marker() == marker,
            r.spec_target() == target,
            r.spec_style() == default_style(),
            r.spec_pending() == Seq::<char>::empty(),
            !r.spec_expect(),
    {
        FormatReader {
            target,
            marker,
            expect_code: false,
            style: Style::new(),
            pending: String::new(),
        }
    }

    /// Flushes the gathered text as runs under the current style.
    fn flush(&mut self)
        requires
            old(self).wf(),
        ensures
            final (self).wf(),
            final (self).spec_target().runs() == old(self).spec_target().runs() + chunks(
                old(self).spec_pending(),
                old(self).spec_style(),
            ),
            final (self).spec_target().text() == old(self).spec_target().text() + old(
                self,
            ).spec_pending(),
            final (self).spec_marker() == old(self).spec_marker(),
            final (self).spec_style() == old(self).spec_style(),
            final (self).spec_pending() == Seq::<char>::empty(),
            final (self).spec_expect() == old(self).spec_expect(),
    {
        self.target.push(self.pending.as_str(), self.style);
        self.pending = String::new();
    }

    /// Scans `string`, gathering literal text and applying marker codes. An
    /// unknown code character falls back to the white palette color.
    pub fn append(&mut self, string: &str)
        requires
            old(self).wf(),
        ensures
            final (self).wf(),
            final (self).spec_marker() == old(self).spec_marker(),
            ({
                let sc = scan(
                    string@,
                    old(self).spec_marker(),
                    old(self).spec_style(),
                    old(self).spec_pending(),
                    old(self).spec_expect(),
                );
                final (self).spec_target().runs() == old(self).spec_target().runs() + sc.0
                    && final (self).spec_style() == sc.1 && final (self).spec_pending() == sc.2
                    && final (self).spec_expect() == sc.3
            }),
    {
        let len = string.unicode_len();
        let mut i: usize = 0;
        let ghost sc = scan(
            string@,
            old(self).spec_marker(),
            old(self).spec_style(),
            old(self).spec_pending(),
            old(self).spec_expect(),
        );
        proof {
            assert(string@.subrange(0, len as int) =~= string@);
        }
        loop
            invariant_except_break
                i <= len,
                len == string@.len(),
                self.marker == old(self).spec_marker(),
                self.target.wf(),
                ({
                    let rest = scan(
                        string@.subrange(i as int, len as int),
                        self.marker,
                        self.style,
                        self.pending@,
                        self.expect_code,
                    );
                    old(self).spec_target().runs() + sc.0 == self.target.runs() + rest.0
                        && sc.1 == rest.1 && sc.2 == rest.2 && sc.3 == rest.3
                }),
            ensures
                self.marker == old(self).spec_marker(),
                self.target.wf(),
                old(self).spec_target().runs() + sc.0 == self.target.runs(),
                sc.1 == self.style,
                sc.2 == self.pending@,
                sc.3 == self.expect_code,
            decreases len - i,
        {
            if i >= len {
                proof {
                    assert(string@.subrange(i as int, len as int) =~= Seq::<char>::empty());
                }
                break ;
            }
            let c = string.get_char(i);
            let ghost rest0 = string@.subrange(i as int, len as int);
            proof {
                assert(rest0[0] == c);
                assert(rest0.drop_first() =~= string@.subrange(i as int + 1, len as int));
            }
            if self.expect_code {
                let cmd = match StyleCommand::from_code(c) {
                    Some(cmd) => cmd,
                    None => StyleCommand::Color(crate::style::PaletteColor::White),
                };
                self.flush();
                self.style.process(&cmd);
                self.expect_code = false;
            } else if c == self.marker {
                self.expect_code = true;
            } else {
                push_char(&mut self.pending, c);
            }
            i = i + 1;
        }
    }

    /// Flushes what is gathered and hands the buffer over.
    pub fn finish(self) -> (b: PlainBuf)
        requires
            self.wf(),
        ensures
            b.wf(),
            b.runs() == self.spec_target().runs() + chunks(
                self.spec_pending(),
                self.spec_style(),
            ),
    {
        let mut this = self;
        this.flush();
        this.target
    }
}

impl PlainBuf {
    /// Decodes marker-coded text: literal characters accumulate under the
    /// running style, and each marker-and-code pair flushes them and applies
    /// the code. This never fails; an unknown code falls back to the white
    /// palette color.
    pub fn from_formatted(string: &str, marker: char) -> (b: PlainBuf)
        ensures
            b.wf(),
            b.runs() == decoded(string@, marker),
    {
        let mut reader = FormatReader::with_marker(marker);
        reader.append(string);
        reader.finish()
    }
}


/// The style the serializer is left in after a run list: the last run's
/// style, or the starting one for an empty list.
pub open spec fn last_style(runs: Seq<(Seq<char>, Style)>, cur: Style) -> Style {
    if runs.len() == 0 {
        cur
    } else {
        runs.last().1
    }
}

/// Serializing a concatenation serializes the parts in order, the second
/// starting from the style the first ended in.
pub proof fn lemma_encode_runs_concat(
    a: Seq<(Seq<char>, Style)>,
    b: Seq<(Seq<char>, Style)>,
    marker: char,
    cur: Style,
)
    ensures
        encode_runs(a + b, marker, cur) == encode_runs(a, marker, cur) + encode_runs(
            b,
            marker,
            last_style(a, cur),
        ),
    decreases a.len(),
{
    if a.len() == 0 {
        assert(a + b =~= b);
        assert(encode_runs(a, marker, cur) + encode_runs(b, marker, cur) =~= encode_runs(
            b,
            marker,
            cur,
        ));
    } else {
        assert((a + b).drop_first() =~= a.drop_first() + b);
        lemma_encode_runs_concat(a.drop_first(), b, marker, a[0].1);
        if a.len() == 1 {
            assert(last_style(a.drop_first(), a[0].1) == a[0].1);
            assert(a.last() == a[0]);
        } else {
            assert(a.drop_first().last() == a.last());
        }
        assert(encode_runs(a + b, marker, cur) =~= encode_runs(a, marker, cur) + encode_runs(
            b,
            marker,
            last_style(a, cur),
        ));
    }
}

/// Dropping one character off the front of a sequence drops its encoding
/// length.
proof fn lemma_utf8_len_decompose(t: Seq<char>, k: int)
    requires
        0 <= k < t.len(),
    ensures
        utf8_len_of(t.subrange(k, t.len() as int)) == char_utf8_len(t[k]) + utf8_len_of(
            t.subrange(k + 1, t.len() as int),
        ),
{
    assert(t.subrange(k, t.len() as int) =~= seq![t[k]] + t.subrange(k + 1, t.len() as int));
    lemma_encode_utf8_concat(seq![t[k]], t.subrange(k + 1, t.len() as int));
    assert(seq![t[k]] =~= Seq::<char>::empty().push(t[k]));
    lemma_utf8_len_push(Seq::<char>::empty(), t[k]);
}

impl PlainBuf {
    /// Counts the characters of the run of `bytes` bytes that starts at
    /// character position `pos`.
    fn run_char_len(&self, pos: usize, bytes: usize, t: Ghost<Seq<char>>) -> (k: usize)
        requires
            pos + t@.len() <= self.text().len(),
            self.text().subrange(pos as int, pos + t@.len()) == t@,
            utf8_len_of(t@) == bytes as int,
        ensures
            k == t@.len(),
            pos + k <= self.text().len(),
    {
        let total = self.unstyled().unicode_len();
        let mut k: usize = 0;
        let mut bleft = bytes;
        proof {
            assert(t@.subrange(0, t@.len() as int) =~= t@);
        }
        loop
            invariant_except_break
                0 <= k <= t@.len(),
                self.text().len() == total,
                pos + t@.len() <= self.text().len(),
                self.text().subrange(pos as int, pos + t@.len()) == t@,
                bleft == utf8_len_of(t@.subrange(k as int, t@.len() as int)),
            ensures
                k == t@.len(),
            decreases bleft,
        {
            if bleft == 0 {
                proof {
                    lemma_utf8_len_lower(t@.subrange(k as int, t@.len() as int));
                    assert(t@.subrange(k as int, t@.len() as int).len() == 0);
                }
                break ;
            }
            proof {
                if k == t@.len() {
                    assert(t@.subrange(k as int, t@.len() as int) =~= Seq::<char>::empty());
                    assert(utf8_len_of(Seq::<char>::empty()) == 0);
                }
                assert(k < t@.len());
                lemma_utf8_len_decompose(t@, k as int);
                lemma_utf8_len_lower(t@.subrange(k as int + 1, t@.len() as int));
                assert(t@[k as int] == self.text()[pos + k]);
                crate::chars::lemma_char_utf8_len_bounds(t@[k as int]);
            }
            let c = self.unstyled().get_char(pos + k);
            let cl = utf8_len(c);
            bleft = bleft - cl;
            k = k + 1;
        }
        k
    }
}

/// Writes styled text as marker-coded text: before each piece, it emits the
/// minimal marker codes that carry the previously emitted style over into
/// the piece's style.
pub struct FormatWriter {
    target: String,
    current_style: Style,
    marker: char,
}

impl FormatWriter {
    /// The text written so far.
    pub closed spec fn spec_target(self) -> Seq<char> {
        self.target@
    }

    /// The style the written text ends in.
    pub closed spec fn spec_style(self) -> Style {
        self.current_style
    }

    /// The marker character this writer emits.
    pub closed spec fn spec_marker(self) -> char {
        self.marker
    }

    /// A writer with the traditional section-sign marker.
    pub fn new() -> (w: Self)
        ensures
            w.spec_target() == Seq::<char>::empty(),
            w.spec_style() == default_style(),
            w.spec_marker() == '\u{a7}',
    {
        Self::with_marker('\u{a7}')
    }

    /// A writer over an empty output.
    pub fn with_marker(marker: char) -> (w: Self)
        ensures
            w.spec_target() == Seq::<char>::empty(),
            w.spec_style() == default_style(),
            w.spec_marker() == marker,
    {
        FormatWriter { target: String::new(), current_style: Style::new(), marker }
    }

    /// Emits the transition codes into `style`, then the text.
    pub fn write(&mut self, string: &str, style: Style)
        ensures
            final (self).spec_target() == old(self).spec_target() + codes(
                transition_commands(old(self).spec_style(), style),
                old(self).spec_marker(),
            ) + string@,
            final (self).spec_style() == style,
            final (self).spec_marker() == old(self).spec_marker(),
    {
        let ghost cmds = transition_commands(self.current_style, style);
        let ghost out0 = self.target@;
        let mut t = self.current_style.transition(style);
        loop
            invariant_except_break
                self.marker == old(self).spec_marker(),
                self.current_style == old(self).spec_style(),
                out0 + codes(cmds, self.marker) == self.target@ + codes(
                    t.remaining(),
                    self.marker,
                ),
            ensures
                self.marker == old(self).spec_marker(),
                self.current_style == old(self).spec_style(),
                self.target@ == out0 + codes(cmds, self.marker),
            decreases t.remaining().len(),
        {
            match t.next() {
                None => {
                    proof {
                        assert(codes(Seq::<StyleCommand>::empty(), self.marker) =~= Seq::<
                            char,
                        >::empty());
                        assert(self.target@ + Seq::<char>::empty() =~= self.target@);
                        assert(self.target@ =~= out0 + codes(cmds, self.marker));
                    }
                    break ;
                },
                Some(cmd) => {
                    let ghost before = t.remaining().push(cmd);
                    push_char(&mut self.target, self.marker);
                    push_char(&mut self.target, cmd.as_code());
                    proof {
                        assert(codes(seq![cmd] + t.remaining(), self.marker) == seq![
                            self.marker,
                            command_code(cmd),
                        ] + codes(t.remaining(), self.marker)) by {
                            assert((seq![cmd] + t.remaining())[0] == cmd);
                            assert((seq![cmd] + t.remaining()).drop_first() =~= t.remaining());
                        }
                        assert(self.target@ =~= self.target@.subrange(
                            0,
                            self.target@.len() - 2,
                        ) + seq![self.marker, command_code(cmd)]);
                    }
                },
            }
        }
        self.target.append(string);
        self.current_style = style;
    }

    /// Hands the written text over.
    pub fn into_string(self) -> (s: String)
        ensures
            s@ == self.spec_target(),
    {
        self.target
    }
}

impl PlainBuf {
    /// Serializes the buffer as marker-coded text: each run's text is
    /// preceded by the minimal codes that carry the previous run's style
    /// over into its own, starting from the default style.
    pub fn to_formatted(&self, marker: char) -> (s: String)
        requires
            self.wf(),
        ensures
            s@ == encoded(self.runs(), marker),
    {
        let ghost runs = self.runs();
        let total = self.unstyled().unicode_len();
        let mut writer = FormatWriter::with_marker(marker);
        let mut i: usize = 0;
        let mut pos: usize = 0;
        proof {
            lemma_runs_match_len(self.text(), self.descs(), self.runs());
            assert(runs.subrange(0, 0) =~= Seq::<(Seq<char>, Style)>::empty());
            assert(self.text().subrange(0, self.text().len() as int) =~= self.text());
            assert(self.descs().subrange(0, self.descs().len() as int) =~= self.descs());
            assert(runs.subrange(0, runs.len() as int) =~= runs);
        }
        loop
            invariant_except_break
                i <= self.descs().len(),
                runs == self.runs(),
                runs.len() == self.descs().len(),
                self.wf(),
                self.text().len() == total,
                pos <= self.text().len(),
                runs_match(
                    self.text().subrange(pos as int, self.text().len() as int),
                    self.descs().subrange(i as int, self.descs().len() as int),
                    runs.subrange(i as int, runs.len() as int),
                ),
                writer.spec_marker() == marker,
                writer.spec_target() == encode_runs(
                    runs.subrange(0, i as int),
                    marker,
                    default_style(),
                ),
                writer.spec_style() == last_style(runs.subrange(0, i as int), default_style()),
            ensures
                writer.spec_target() == encode_runs(runs, marker, default_style()),
            decreases self.descs().len() - i,
        {
            if i >= self.descriptors.len() {
                proof {
                    assert(runs.subrange(0, i as int) =~= runs);
                }
                break ;
            }
            let ghost rest_runs = runs.subrange(i as int, runs.len() as int);
            let ghost t_i = rest_runs[0].0;
            let (bytes, style) = self.descriptors[i];
            proof {
                assert(self.descs().subrange(i as int, self.descs().len() as int)[0] == (
                    bytes,
                    style,
                ));
                assert(rest_runs[0].1 == style);
                assert(utf8_len_of(t_i) == bytes as int);
                assert(self.text().subrange(pos as int, self.text().len() as int).subrange(
                    0,
                    t_i.len() as int,
                ) =~= self.text().subrange(pos as int, pos + t_i.len()));
            }
            let k = self.run_char_len(pos, bytes as usize, Ghost(t_i));
            let piece = self.unstyled().substring_char(pos, pos + k);
            proof {
                assert(piece@ =~= t_i);
            }
            writer.write(piece, style);
            proof {
                let pre = runs.subrange(0, i as int);
                let one = seq![rest_runs[0]];
                assert(runs.subrange(0, i as int + 1) =~= pre + one);
                lemma_encode_runs_concat(pre, one, marker, default_style());
                assert(encode_runs(one, marker, last_style(pre, default_style())) =~= codes(
                    transition_commands(last_style(pre, default_style()), style),
                    marker,
                ) + t_i) by {
                    assert(one.drop_first() =~= Seq::<(Seq<char>, Style)>::empty());
                    assert(one[0] == (t_i, style));
                    assert(encode_runs(
                        Seq::<(Seq<char>, Style)>::empty(),
                        marker,
                        style,
                    ) =~= Seq::<char>::empty());
                }
                assert(writer.spec_target() =~= encode_runs(
                    runs.subrange(0, i as int + 1),
                    marker,
                    default_style(),
                ));
                assert(last_style(runs.subrange(0, i as int + 1), default_style()) == style) by {
                    assert(runs.subrange(0, i as int + 1).last() == rest_runs[0]);
                }
                // peel the finished run off the remaining decomposition
                assert(self.text().subrange(pos as int, self.text().len() as int).subrange(
                    t_i.len() as int,
                    self.text().len() - pos,
                ) =~= self.text().subrange(pos + t_i.len(), self.text().len() as int));
                assert(self.descs().subrange(i as int, self.descs().len() as int).drop_first()
                    =~= self.descs().subrange(i as int + 1, self.descs().len() as int));
                assert(rest_runs.drop_first() =~= runs.subrange(i as int + 1, runs.len() as int));
            }
            pos = pos + k;
            i = i + 1;
        }
        writer.into_string()
    }
}


/// Texts of concatenated run lists concatenate.
pub proof fn lemma_concat_texts_concat(a: Seq<(Seq<char>, Style)>, b: Seq<(Seq<char>, Style)>)
    ensures
        concat_texts(a + b) == concat_texts(a) + concat_texts(b),
    decreases a.len(),
{
    if a.len() == 0 {
        assert(a + b =~= b);
        assert(concat_texts(a) + concat_texts(b) =~= concat_texts(b));
    } else {
        assert((a + b).drop_first() =~= a.drop_first() + b);
        lemma_concat_texts_concat(a.drop_first(), b);
        assert(concat_texts(a + b) =~= concat_texts(a) + concat_texts(b));
    }
}

/// Walks a buffer's runs in order, merging adjacent runs of equal style
/// into one yielded piece.
pub struct Iter<'a> {
    buf: &'a PlainBuf,
    run: usize,
    pos: usize,
}

impl<'a> Iter<'a> {
    /// The buffer walked.
    pub closed spec fn spec_buf(self) -> PlainBuf {
        *self.buf
    }

    /// The merged runs not yet yielded.
    pub closed spec fn remaining(self) -> Seq<(Seq<char>, Style)> {
        merge_runs(self.buf.runs().subrange(self.run as int, self.buf.runs().len() as int))
    }

    /// The walk is positioned on a run boundary of a well-formed buffer.
    pub closed spec fn wf(self) -> bool {
        self.buf.wf() && self.run <= self.buf.runs().len() && self.buf.descs().len()
            == self.buf.runs().len() && self.pos <= self.buf.text().len() && runs_match(
            self.buf.text().subrange(self.pos as int, self.buf.text().len() as int),
            self.buf.descs().subrange(self.run as int, self.buf.descs().len() as int),
            self.buf.runs().subrange(self.run as int, self.buf.runs().len() as int),
        )
    }

    /// The next merged piece: its text and shared style. Adjacent stored
    /// runs of equal style come out as one piece.
    pub fn next(&mut self) -> (r: Option<(&'a str, Style)>)
        requires
            old(self).wf(),
        ensures
            final (self).wf(),
            final (self).spec_buf() == old(self).spec_buf(),
            ({
                let m = old(self).remaining();
                if m.len() == 0 {
                    r is None && final (self).remaining() == m
                } else {
                    match r {
                        Some((txt, st)) => txt@ == m[0].0 && st == m[0].1
                            && final (self).remaining() == m.drop_first(),
                        None => false,
                    }
                }
            }),
    {
        let ghost runs = self.buf.runs();
        let ghost rest = runs.subrange(self.run as int, runs.len() as int);
        if self.run >= self.buf.descriptors.len() {
            proof {
                assert(rest =~= Seq::<(Seq<char>, Style)>::empty());
            }
            return None;
        }
        let total = self.buf.unstyled().unicode_len();
        let run0 = self.run;
        let pos0 = self.pos;
        let style = self.buf.descriptors[run0].1;
        proof {
            assert(self.buf.descs().subrange(self.run as int, self.buf.descs().len() as int)[0]
                == self.buf.descs()[run0 as int]);
            assert(rest[0].1 == style);
            assert(concat_texts(runs.subrange(run0 as int, run0 as int)) =~= Seq::<char>::empty());
        }
        loop
            invariant_except_break
                self.spec_buf() == old(self).spec_buf(),
                run0 < runs.len(),
                rest.len() > 0,
                rest[0].1 == style,
                run0 <= self.run <= runs.len(),
                pos0 <= self.pos <= self.buf.text().len(),
                self.buf.text().len() == total,
                runs == self.buf.runs(),
                rest == runs.subrange(run0 as int, runs.len() as int),
                self.buf.wf(),
                self.buf.descs().len() == runs.len(),
                runs_match(
                    self.buf.text().subrange(self.pos as int, self.buf.text().len() as int),
                    self.buf.descs().subrange(self.run as int, self.buf.descs().len() as int),
                    runs.subrange(self.run as int, runs.len() as int),
                ),
                concat_texts(runs.subrange(run0 as int, self.run as int)) == self.buf.text(
                ).subrange(pos0 as int, self.pos as int),
                same_style_prefix(rest, style) == (self.run - run0) + same_style_prefix(
                    runs.subrange(self.run as int, runs.len() as int),
                    style,
                ),
                forall|j: int| run0 <= j < self.run ==> (#[trigger] runs[j]).1 == style,
            ensures
                self.spec_buf() == old(self).spec_buf(),
                run0 <= self.run <= runs.len(),
                runs == self.buf.runs(),
                self.buf.wf(),
                self.buf.descs().len() == runs.len(),
                self.pos <= self.buf.text().len(),
                runs_match(
                    self.buf.text().subrange(self.pos as int, self.buf.text().len() as int),
                    self.buf.descs().subrange(self.run as int, self.buf.descs().len() as int),
                    runs.subrange(self.run as int, runs.len() as int),
                ),
                concat_texts(runs.subrange(run0 as int, self.run as int)) == self.buf.text(
                ).subrange(pos0 as int, self.pos as int),
                same_style_prefix(rest, style) == self.run - run0,
                pos0 <= self.pos,
                self.run > run0,
            decreases runs.len() - self.run,
        {
            if self.run >= self.buf.descriptors.len() {
                proof {
                    assert(runs.subrange(self.run as int, runs.len() as int) =~= Seq::<
                        (Seq<char>, Style),
                    >::empty());
                }
                break ;
            }
            let (bytes, st) = self.buf.descriptors[self.run];
            let ghost here = runs.subrange(self.run as int, runs.len() as int);
            proof {
                assert(self.buf.descs().subrange(
                    self.run as int,
                    self.buf.descs().len() as int,
                )[0] == self.buf.descs()[self.run as int]);
                assert(here[0].1 == st);
            }
            if !(st == style) {
                if self.run == run0 {
                    proof {
                        assert(here =~= rest);
                    }
                }
                break ;
            }
            if self.run == run0 {
                proof {
                    assert(here =~= rest);
                }
            }
            let ghost t_j = here[0].0;
            proof {
                assert(utf8_len_of(t_j) == bytes as int);
                assert(self.buf.text().subrange(
                    self.pos as int,
                    self.buf.text().len() as int,
                ).subrange(0, t_j.len() as int) =~= self.buf.text().subrange(
                    self.pos as int,
                    self.pos + t_j.len(),
                ));
            }
            let k = self.buf.run_char_len(self.pos, bytes as usize, Ghost(t_j));
            proof {
                let pre = runs.subrange(run0 as int, self.run as int);
                assert(runs.subrange(run0 as int, self.run as int + 1) =~= pre + seq![here[0]]);
                lemma_concat_texts_concat(pre, seq![here[0]]);
                assert(concat_texts(seq![here[0]]) =~= t_j) by {
                    assert(seq![here[0]][0] == here[0]);
                    assert(seq![here[0]].drop_first() =~= Seq::<(Seq<char>, Style)>::empty());
                    assert(concat_texts(Seq::<(Seq<char>, Style)>::empty()) =~= Seq::<
                        char,
                    >::empty());
                    assert(t_j + Seq::<char>::empty() =~= t_j);
                }
                assert(t_j == self.buf.text().subrange(self.pos as int, self.pos + t_j.len()));
                assert(concat_texts(runs.subrange(run0 as int, self.run as int + 1))
                    =~= self.buf.text().subrange(pos0 as int, self.pos + t_j.len()));
                // peel this run off the decompositions
                assert(same_style_prefix(here, style) == 1 + same_style_prefix(
                    here.drop_first(),
                    style,
                ));
                assert(here.drop_first() =~= runs.subrange(self.run as int + 1, runs.len() as int));
                assert(self.buf.text().subrange(
                    self.pos as int,
                    self.buf.text().len() as int,
                ).subrange(t_j.len() as int, self.buf.text().len() - self.pos) =~= self.buf.text(
                ).subrange(self.pos + t_j.len(), self.buf.text().len() as int));
                assert(self.buf.descs().subrange(
                    self.run as int,
                    self.buf.descs().len() as int,
                ).drop_first() =~= self.buf.descs().subrange(
                    self.run as int + 1,
                    self.buf.descs().len() as int,
                ));
            }
            self.pos = self.pos + k;
            self.run = self.run + 1;
        }
        proof {
            let k = same_style_prefix(rest, style);
            assert(1 <= k <= rest.len());
            assert(merge_runs(rest) == seq![(concat_texts(rest.subrange(0, k)), style)]
                + merge_runs(rest.subrange(k, rest.len() as int)));
            assert(rest.subrange(0, k) =~= runs.subrange(run0 as int, self.run as int));
            assert(rest.subrange(k, rest.len() as int) =~= runs.subrange(
                self.run as int,
                runs.len() as int,
            ));
            assert(merge_runs(rest).drop_first() =~= merge_runs(
                runs.subrange(self.run as int, runs.len() as int),
            ));
        }
        let piece = self.buf.unstyled().substring_char(pos0, self.pos);
        Some((piece, style))
    }
}

impl PlainBuf {
    /// Walks the buffer's runs, merging adjacent runs of equal style.
    pub fn iter(&self) -> (it: Iter)
        requires
            self.wf(),
        ensures
            it.wf(),
            it.spec_buf() == *self,
            it.remaining() == merge_runs(self.runs()),
    {
        proof {
            lemma_runs_match_len(self.text(), self.descs(), self.runs());
            assert(self.text().subrange(0, self.text().len() as int) =~= self.text());
            assert(self.descs().subrange(0, self.descs().len() as int) =~= self.descs());
            assert(self.runs().subrange(0, self.runs().len() as int) =~= self.runs());
        }
        Iter { buf: self, run: 0, pos: 0 }
    }
}


/// Annotating a concatenation annotates the parts.
pub proof fn lemma_annotate_concat(a: Seq<char>, b: Seq<char>, style: Style)
    ensures
        annotate(a + b, style) == annotate(a, style) + annotate(b, style),
{
    assert(annotate(a + b, style) =~= annotate(a, style) + annotate(b, style));
}

/// The observable content of a concatenation of run lists.
pub proof fn lemma_styled_chars_concat(a: Seq<(Seq<char>, Style)>, b: Seq<(Seq<char>, Style)>)
    ensures
        styled_chars(a + b) == styled_chars(a) + styled_chars(b),
    decreases a.len(),
{
    if a.len() == 0 {
        assert(a + b =~= b);
        assert(styled_chars(a) + styled_chars(b) =~= styled_chars(b));
    } else {
        assert((a + b).drop_first() =~= a.drop_first() + b);
        lemma_styled_chars_concat(a.drop_first(), b);
        assert(styled_chars(a + b) =~= styled_chars(a) + styled_chars(b));
    }
}

/// Splitting a text into capped runs does not change its observable
/// content: every character keeps its style.
pub proof fn lemma_chunks_styled(text: Seq<char>, style: Style)
    ensures
        styled_chars(chunks(text, style)) == annotate(text, style),
    decreases text.len(),
{
    if text.len() == 0 {
        assert(styled_chars(chunks(text, style)) =~= annotate(text, style));
    } else {
        let k = chunk_take(text, run_cap());
        let k2 = if k < 1 {
            1
        } else if k > text.len() {
            text.len() as int
        } else {
            k
        };
        let head = text.subrange(0, k2);
        let tail = text.subrange(k2, text.len() as int);
        lemma_chunks_styled(tail, style);
        assert(chunks(text, style) == seq![(head, style)] + chunks(tail, style));
        lemma_styled_chars_concat(seq![(head, style)], chunks(tail, style));
        assert(styled_chars(seq![(head, style)]) =~= annotate(head, style)) by {
            assert(seq![(head, style)][0] == (head, style));
            assert(seq![(head, style)].drop_first() =~= Seq::<(Seq<char>, Style)>::empty());
            assert(annotate(head, style) + styled_chars(Seq::<(Seq<char>, Style)>::empty())
                =~= annotate(head, style));
        }
        assert(head + tail =~= text);
        lemma_annotate_concat(head, tail, style);
    }
}

/// Scanning literal text only moves it into the pending run.
proof fn lemma_scan_text(t: Seq<char>, rest: Seq<char>, marker: char, style: Style, pending: Seq<char>)
    requires
        forall|j: int| 0 <= j < t.len() ==> t[j] != marker,
    ensures
        scan(t + rest, marker, style, pending, false) == scan(
            rest,
            marker,
            style,
            pending + t,
            false,
        ),
    decreases t.len(),
{
    if t.len() == 0 {
        assert(t + rest =~= rest);
        assert(pending + t =~= pending);
    } else {
        assert((t + rest)[0] == t[0]);
        assert((t + rest).drop_first() =~= t.drop_first() + rest);
        assert(forall|j: int| 0 <= j < t.drop_first().len() ==> t.drop_first()[j] != marker);
        lemma_scan_text(t.drop_first(), rest, marker, style, pending.push(t[0]));
        assert(pending.push(t[0]) + t.drop_first() =~= pending + t);
    }
}

/// Scanning a sequence of marker codes flushes the pending run under the
/// style that was active, and leaves the style the codes produce.
proof fn lemma_scan_codes(
    cmds: Seq<StyleCommand>,
    rest: Seq<char>,
    marker: char,
    style: Style,
    pending: Seq<char>,
)
    requires
        cmds.len() > 0,
    ensures
        ({
            let inner = scan(rest, marker, style_process_all(style, cmds), Seq::empty(), false);
            scan(codes(cmds, marker) + rest, marker, style, pending, false) == (
                chunks(pending, style) + inner.0,
                inner.1,
                inner.2,
                inner.3,
            )
        }),
    decreases cmds.len(),
{
    let s = codes(cmds, marker) + rest;
    let c0 = cmds[0];
    assert(codes(cmds, marker) == seq![marker, command_code(c0)] + codes(
        cmds.drop_first(),
        marker,
    ));
    assert(s[0] == marker);
    let s1 = s.drop_first();
    assert(s1[0] == command_code(c0));
    assert(s1.drop_first() =~= codes(cmds.drop_first(), marker) + rest);
    crate::style::lemma_code_round_trip(c0);
    let style1 = style_process(style, c0);
    assert(scan(s, marker, style, pending, false) == scan(s1, marker, style, pending, true));
    let after = scan(s1.drop_first(), marker, style1, Seq::empty(), false);
    assert(scan(s1, marker, style, pending, true) == (
        chunks(pending, style) + after.0,
        after.1,
        after.2,
        after.3,
    ));
    if cmds.len() == 1 {
        assert(codes(cmds.drop_first(), marker) =~= Seq::<char>::empty());
        assert(s1.drop_first() =~= rest);
        assert(style_process_all(style, cmds) == style1) by {
            assert(cmds.drop_first().len() == 0);
        }
    } else {
        lemma_scan_codes(cmds.drop_first(), rest, marker, style1, Seq::empty());
        let inner = scan(
            rest,
            marker,
            style_process_all(style1, cmds.drop_first()),
            Seq::empty(),
            false,
        );
        assert(style_process_all(style, cmds) == style_process_all(style1, cmds.drop_first()));
        assert(chunks(Seq::<char>::empty(), style1) =~= Seq::<(Seq<char>, Style)>::empty());
        assert(after.0 =~= inner.0);
        assert(chunks(pending, style) + after.0 =~= chunks(pending, style) + inner.0);
    }
}


/// Decoding what serializing emits recovers the observable content: the
/// pending text keeps the starting style, and every serialized character
/// comes back under its own run's style.
proof fn lemma_scan_encode(
    runs: Seq<(Seq<char>, Style)>,
    marker: char,
    cur: Style,
    pending: Seq<char>,
)
    requires
        marker_free(runs, marker),
        forall|j: int| 0 <= j < pending.len() ==> pending[j] != marker,
    ensures
        ({
            let sc = scan(encode_runs(runs, marker, cur), marker, cur, pending, false);
            styled_chars(sc.0 + chunks(sc.2, sc.1)) == annotate(pending, cur) + styled_chars(runs)
        }),
    decreases runs.len(),
{
    if runs.len() == 0 {
        let sc = scan(encode_runs(runs, marker, cur), marker, cur, pending, false);
        assert(encode_runs(runs, marker, cur).len() == 0);
        assert(sc == (Seq::<(Seq<char>, Style)>::empty(), cur, pending, false));
        assert(sc.0 + chunks(sc.2, sc.1) =~= chunks(pending, cur));
        lemma_chunks_styled(pending, cur);
        assert(annotate(pending, cur) + styled_chars(runs) =~= annotate(pending, cur));
    } else {
        let r0 = runs[0];
        let cmds = transition_commands(cur, r0.1);
        let e_rest = encode_runs(runs.drop_first(), marker, r0.1);
        let e = encode_runs(runs, marker, cur);
        assert(e == codes(cmds, marker) + r0.0 + e_rest);
        assert(forall|j: int| 0 <= j < r0.0.len() ==> r0.0[j] != marker) by {
            assert(forall|j: int| 0 <= j < runs[0].0.len() ==> runs[0].0[j] != marker);
        }
        assert(marker_free(runs.drop_first(), marker)) by {
            assert(forall|i: int, j: int|
                0 <= i < runs.drop_first().len() && 0 <= j < runs.drop_first()[i].0.len()
                    ==> runs.drop_first()[i] == runs[i + 1] && #[trigger] runs.drop_first()[i].0[j]
                    != marker);
        }
        if cur == r0.1 {
            assert(cmds.len() == 0);
            assert(codes(cmds, marker) =~= Seq::<char>::empty());
            assert(e =~= r0.0 + e_rest);
            lemma_scan_text(r0.0, e_rest, marker, cur, pending);
            lemma_scan_encode(runs.drop_first(), marker, r0.1, pending + r0.0);
            let sc = scan(e, marker, cur, pending, false);
            assert(styled_chars(sc.0 + chunks(sc.2, sc.1)) == annotate(pending + r0.0, cur)
                + styled_chars(runs.drop_first()));
            lemma_annotate_concat(pending, r0.0, cur);
            assert(annotate(pending, cur) + styled_chars(runs) =~= annotate(pending, cur)
                + annotate(r0.0, r0.1) + styled_chars(runs.drop_first()));
        } else {
            crate::style::lemma_transition_nonempty(cur, r0.1);
            assert(cmds.len() > 0);
            assert(e =~= codes(cmds, marker) + (r0.0 + e_rest));
            lemma_scan_codes(cmds, r0.0 + e_rest, marker, cur, pending);
            crate::style::lemma_transition_applies(cur, r0.1);
            let inner = scan(r0.0 + e_rest, marker, r0.1, Seq::empty(), false);
            lemma_scan_text(r0.0, e_rest, marker, r0.1, Seq::empty());
            assert(Seq::<char>::empty() + r0.0 =~= r0.0);
            assert(inner == scan(e_rest, marker, r0.1, r0.0, false));
            lemma_scan_encode(runs.drop_first(), marker, r0.1, r0.0);
            assert(styled_chars(inner.0 + chunks(inner.2, inner.1)) == annotate(r0.0, r0.1)
                + styled_chars(runs.drop_first()));
            let sc = scan(e, marker, cur, pending, false);
            assert(sc.0 == chunks(pending, cur) + inner.0 && sc.1 == inner.1 && sc.2 == inner.2);
            assert(sc.0 + chunks(sc.2, sc.1) =~= chunks(pending, cur) + (inner.0 + chunks(
                inner.2,
                inner.1,
            )));
            lemma_styled_chars_concat(chunks(pending, cur), inner.0 + chunks(inner.2, inner.1));
            lemma_chunks_styled(pending, cur);
            assert(annotate(pending, cur) + styled_chars(runs) =~= annotate(pending, cur)
                + annotate(r0.0, r0.1) + styled_chars(runs.drop_first()));
        }
    }
}

/// Round trip: decoding what serializing a buffer emits yields the same
/// observable content, character for character with its style — provided no
/// character of the buffer's text is the marker itself.
pub proof fn lemma_decode_encode_round_trip(runs: Seq<(Seq<char>, Style)>, marker: char)
    requires
        marker_free(runs, marker),
    ensures
        styled_chars(decoded(encoded(runs, marker), marker)) == styled_chars(runs),
{
    lemma_scan_encode(runs, marker, default_style(), Seq::empty());
    assert(annotate(Seq::<char>::empty(), default_style()) =~= Seq::<(char, Style)>::empty());
    let sc = scan(encoded(runs, marker), marker, default_style(), Seq::empty(), false);
    assert(decoded(encoded(runs, marker), marker) == sc.0 + chunks(sc.2, sc.1));
    assert(Seq::<(char, Style)>::empty() + styled_chars(runs) =~= styled_chars(runs));
}


/// Adjacent merged runs never share a style.
pub open spec fn adjacent_distinct(runs: Seq<(Seq<char>, Style)>) -> bool {
    forall|i: int| 0 <= i < runs.len() - 1 ==> (#[trigger] runs[i]).1 != runs[i + 1].1
}

/// The texts of a split concatenate back to the split text.
pub proof fn lemma_concat_chunks(text: Seq<char>, style: Style)
    ensures
        concat_texts(chunks(text, style)) == text,
    decreases text.len(),
{
    if text.len() == 0 {
        assert(concat_texts(chunks(text, style)) =~= text);
    } else {
        let k = chunk_take(text, run_cap());
        let k2 = if k < 1 {
            1
        } else if k > text.len() {
            text.len() as int
        } else {
            k
        };
        let head = text.subrange(0, k2);
        let tail = text.subrange(k2, text.len() as int);
        lemma_concat_chunks(tail, style);
        assert(chunks(text, style) == seq![(head, style)] + chunks(tail, style));
        lemma_concat_texts_concat(seq![(head, style)], chunks(tail, style));
        assert(concat_texts(seq![(head, style)]) =~= head) by {
            assert(seq![(head, style)][0] == (head, style));
            assert(seq![(head, style)].drop_first() =~= Seq::<(Seq<char>, Style)>::empty());
            assert(concat_texts(Seq::<(Seq<char>, Style)>::empty()) =~= Seq::<char>::empty());
            assert(head + Seq::<char>::empty() =~= head);
        }
        assert(head + tail =~= text);
    }
}

/// Every run of a split carries the split's style, holds at least one
/// character, and holds no marker the text did not hold.
pub proof fn lemma_chunks_props(text: Seq<char>, style: Style, marker: char)
    ensures
        forall|i: int| 0 <= i < chunks(text, style).len() ==> (#[trigger] chunks(text, style)[i]).1
            == style,
        runs_nonempty(chunks(text, style)),
        (forall|j: int| 0 <= j < text.len() ==> text[j] != marker) ==> marker_free(
            chunks(text, style),
            marker,
        ),
    decreases text.len(),
{
    if text.len() == 0 {
    } else {
        let k = chunk_take(text, run_cap());
        let k2 = if k < 1 {
            1
        } else if k > text.len() {
            text.len() as int
        } else {
            k
        };
        let head = text.subrange(0, k2);
        let tail = text.subrange(k2, text.len() as int);
        lemma_chunks_props(tail, style, marker);
        let cs = chunks(text, style);
        assert(cs == seq![(head, style)] + chunks(tail, style));
        assert(forall|i: int| 1 <= i < cs.len() ==> cs[i] == chunks(tail, style)[i - 1]);
        assert(cs[0] == (head, style));
        if forall|j: int| 0 <= j < text.len() ==> text[j] != marker {
            assert(forall|j: int| 0 <= j < tail.len() ==> tail[j] != marker);
            assert(marker_free(chunks(tail, style), marker));
            assert forall|i: int, j: int|
                0 <= i < cs.len() && 0 <= j < cs[i].0.len() implies #[trigger] cs[i].0[j]
                != marker by {
                if i == 0 {
                    assert(cs[i].0[j] == text[j]);
                } else {
                    assert(cs[i] == chunks(tail, style)[i - 1]);
                    assert(chunks(tail, style)[i - 1].0[j] != marker);
                }
            }
        }
    }
}

/// A run list whose entries all share one style merges whole.
proof fn lemma_ssp_all(runs: Seq<(Seq<char>, Style)>, style: Style)
    requires
        forall|i: int| 0 <= i < runs.len() ==> (#[trigger] runs[i]).1 == style,
    ensures
        same_style_prefix(runs, style) == runs.len(),
    decreases runs.len(),
{
    if runs.len() > 0 {
        assert(forall|i: int|
            0 <= i < runs.drop_first().len() ==> runs.drop_first()[i] == runs[i + 1]);
        lemma_ssp_all(runs.drop_first(), style);
    }
}

/// The same-style prefix stays within the list, covers only runs of that
/// style, and stops at the first run of another style.
proof fn lemma_ssp_bounds(runs: Seq<(Seq<char>, Style)>, style: Style)
    ensures
        0 <= same_style_prefix(runs, style) <= runs.len(),
        forall|i: int| 0 <= i < same_style_prefix(runs, style) ==> (#[trigger] runs[i]).1 == style,
        same_style_prefix(runs, style) < runs.len() ==> runs[same_style_prefix(runs, style)].1
            != style,
    decreases runs.len(),
{
    if runs.len() > 0 && runs[0].1 == style {
        lemma_ssp_bounds(runs.drop_first(), style);
        assert(forall|i: int|
            0 <= i < runs.drop_first().len() ==> runs.drop_first()[i] == runs[i + 1]);
        assert forall|i: int| 0 <= i < same_style_prefix(runs, style) implies (
        #[trigger] runs[i]).1 == style by {
            if i > 0 {
                assert(runs.drop_first()[i - 1].1 == style);
            }
        }
    }
}

/// Splitting a run at the byte cap is invisible to the merging walk: the
/// merged view of the split is the one whole run again.
pub proof fn lemma_split_invisible(text: Seq<char>, style: Style)
    requires
        text.len() > 0,
    ensures
        merge_runs(chunks(text, style)) == seq![(text, style)],
{
    let cs = chunks(text, style);
    lemma_chunks_props(text, style, ' ');
    assert(cs.len() > 0);
    assert(cs[0].1 == style);
    lemma_ssp_all(cs, style);
    assert(same_style_prefix(cs, cs[0].1) == cs.len());
    assert(cs.subrange(0, cs.len() as int) =~= cs);
    assert(cs.subrange(cs.len() as int, cs.len() as int) =~= Seq::<(Seq<char>, Style)>::empty());
    lemma_concat_chunks(text, style);
    let m = merge_runs(cs);
    assert(m == seq![(concat_texts(cs.subrange(0, cs.len() as int)), style)] + merge_runs(
        cs.subrange(cs.len() as int, cs.len() as int),
    ));
    assert(concat_texts(cs.subrange(0, cs.len() as int)) == text);
    assert(seq![(text, style)] + Seq::<(Seq<char>, Style)>::empty() =~= seq![(text, style)]);
}


/// Serializing runs that already carry the emitted style emits no codes:
/// just their texts.
proof fn lemma_encode_same_style(a: Seq<(Seq<char>, Style)>, marker: char, style: Style)
    requires
        forall|i: int| 0 <= i < a.len() ==> (#[trigger] a[i]).1 == style,
    ensures
        encode_runs(a, marker, style) == concat_texts(a),
    decreases a.len(),
{
    if a.len() == 0 {
    } else {
        assert(forall|i: int| 0 <= i < a.drop_first().len() ==> a.drop_first()[i] == a[i + 1]);
        lemma_encode_same_style(a.drop_first(), marker, style);
        assert(transition_commands(style, a[0].1) =~= Seq::<StyleCommand>::empty());
        assert(codes(Seq::<StyleCommand>::empty(), marker) =~= Seq::<char>::empty());
        assert(encode_runs(a, marker, style) =~= concat_texts(a));
    }
}

/// Serializing a run list emits the same text as serializing its merged
/// form: no codes stand between runs of equal style either way.
pub proof fn lemma_encode_merge(runs: Seq<(Seq<char>, Style)>, marker: char, cur: Style)
    ensures
        encode_runs(merge_runs(runs), marker, cur) == encode_runs(runs, marker, cur),
    decreases runs.len(),
{
    if runs.len() == 0 {
    } else {
        let style = runs[0].1;
        lemma_ssp_bounds(runs, style);
        let k = same_style_prefix(runs, style);
        assert(1 <= k <= runs.len());
        let head = runs.subrange(0, k);
        let tail = runs.subrange(k, runs.len() as int);
        assert(merge_runs(runs) == seq![(concat_texts(head), style)] + merge_runs(tail));
        lemma_encode_merge(tail, marker, style);
        // the merged head emits one transition and then its whole text
        let m1 = seq![(concat_texts(head), style)];
        lemma_encode_runs_concat(m1, merge_runs(tail), marker, cur);
        assert(m1 + merge_runs(tail) =~= merge_runs(runs));
        assert(last_style(m1, cur) == style);
        assert(encode_runs(m1, marker, cur) =~= codes(transition_commands(cur, style), marker)
            + concat_texts(head)) by {
            assert(m1[0] == (concat_texts(head), style));
            assert(m1.drop_first() =~= Seq::<(Seq<char>, Style)>::empty());
            assert(encode_runs(Seq::<(Seq<char>, Style)>::empty(), marker, style) =~= Seq::<
                char,
            >::empty());
        }
        // the raw head emits the same transition and then its texts
        lemma_encode_runs_concat(head, tail, marker, cur);
        assert(head + tail =~= runs);
        assert(last_style(head, cur) == style) by {
            assert(head.last() == runs[k - 1]);
            assert(runs[k - 1].1 == style);
        }
        assert(encode_runs(head, marker, cur) =~= codes(transition_commands(cur, style), marker)
            + concat_texts(head)) by {
            assert(head[0] == runs[0]);
            assert(head.drop_first() =~= runs.subrange(1, k));
            assert(forall|i: int|
                0 <= i < runs.subrange(1, k).len() ==> (#[trigger] runs.subrange(1, k)[i]).1
                    == style);
            lemma_encode_same_style(runs.subrange(1, k), marker, style);
            assert(concat_texts(head) =~= head[0].0 + concat_texts(head.drop_first()));
        }
        assert(encode_runs(merge_runs(runs), marker, cur) =~= encode_runs(runs, marker, cur));
    }
}

/// Annotating the joined texts of same-styled runs is reading them run by
/// run.
proof fn lemma_annotate_concat_texts(a: Seq<(Seq<char>, Style)>, style: Style)
    requires
        forall|i: int| 0 <= i < a.len() ==> (#[trigger] a[i]).1 == style,
    ensures
        annotate(concat_texts(a), style) == styled_chars(a),
    decreases a.len(),
{
    if a.len() == 0 {
        assert(annotate(concat_texts(a), style) =~= styled_chars(a));
    } else {
        assert(forall|i: int| 0 <= i < a.drop_first().len() ==> a.drop_first()[i] == a[i + 1]);
        lemma_annotate_concat_texts(a.drop_first(), style);
        lemma_annotate_concat(a[0].0, concat_texts(a.drop_first()), style);
        assert(annotate(concat_texts(a), style) =~= styled_chars(a));
    }
}

/// Merging changes no character's style.
pub proof fn lemma_merge_styled(runs: Seq<(Seq<char>, Style)>)
    ensures
        styled_chars(merge_runs(runs)) == styled_chars(runs),
    decreases runs.len(),
{
    if runs.len() == 0 {
    } else {
        let style = runs[0].1;
        lemma_ssp_bounds(runs, style);
        let k = same_style_prefix(runs, style);
        assert(1 <= k <= runs.len());
        let head = runs.subrange(0, k);
        let tail = runs.subrange(k, runs.len() as int);
        assert(merge_runs(runs) == seq![(concat_texts(head), style)] + merge_runs(tail));
        lemma_merge_styled(tail);
        lemma_styled_chars_concat(seq![(concat_texts(head), style)], merge_runs(tail));
        lemma_styled_chars_concat(head, tail);
        assert(head + tail =~= runs);
        assert(forall|i: int| 0 <= i < head.len() ==> (#[trigger] head[i]).1 == style);
        lemma_annotate_concat_texts(head, style);
        assert(styled_chars(seq![(concat_texts(head), style)]) =~= annotate(
            concat_texts(head),
            style,
        )) by {
            assert(seq![(concat_texts(head), style)].drop_first() =~= Seq::<
                (Seq<char>, Style),
            >::empty());
            assert(annotate(concat_texts(head), style) + styled_chars(
                Seq::<(Seq<char>, Style)>::empty(),
            ) =~= annotate(concat_texts(head), style));
        }
        assert(styled_chars(merge_runs(runs)) =~= styled_chars(runs));
    }
}

/// Merging nonempty runs yields nonempty runs with pairwise distinct
/// neighbouring styles: the canonical form.
pub proof fn lemma_merge_canonical(runs: Seq<(Seq<char>, Style)>)
    requires
        runs_nonempty(runs),
    ensures
        runs_nonempty(merge_runs(runs)),
        adjacent_distinct(merge_runs(runs)),
        merge_runs(runs).len() > 0 ==> merge_runs(runs)[0].1 == runs[0].1,
    decreases runs.len(),
{
    if runs.len() == 0 {
    } else {
        let style = runs[0].1;
        lemma_ssp_bounds(runs, style);
        let k = same_style_prefix(runs, style);
        let head = runs.subrange(0, k);
        let tail = runs.subrange(k, runs.len() as int);
        assert(merge_runs(runs) == seq![(concat_texts(head), style)] + merge_runs(tail));
        assert(runs_nonempty(tail)) by {
            assert(forall|i: int| 0 <= i < tail.len() ==> tail[i] == runs[k + i]);
        }
        lemma_merge_canonical(tail);
        let m = merge_runs(runs);
        let mt = merge_runs(tail);
        assert(forall|i: int| 1 <= i < m.len() ==> m[i] == mt[i - 1]);
        assert(m[0] == (concat_texts(head), style));
        assert(concat_texts(head).len() > 0) by {
            assert(head[0] == runs[0]);
            assert(runs[0].0.len() > 0);
            assert(concat_texts(head) =~= head[0].0 + concat_texts(head.drop_first()));
        }
        assert forall|i: int| 0 <= i < m.len() implies (#[trigger] m[i]).0.len() > 0 by {
            if i > 0 {
                assert(mt[i - 1].0.len() > 0);
            }
        }
        assert forall|i: int| 0 <= i < m.len() - 1 implies (#[trigger] m[i]).1 != m[i + 1].1 by {
            if i == 0 {
                assert(mt.len() > 0);
                assert(tail.len() > 0);
                assert(mt[0].1 == tail[0].1);
                assert(tail[0] == runs[k]);
                assert(runs[k].1 != style);
            } else {
                assert(mt[i - 1].1 != mt[i].1);
            }
        }
    }
}

/// Two canonical run lists with the same observable content are the same
/// list.
pub proof fn lemma_canonical_unique(c1: Seq<(Seq<char>, Style)>, c2: Seq<(Seq<char>, Style)>)
    requires
        runs_nonempty(c1),
        runs_nonempty(c2),
        adjacent_distinct(c1),
        adjacent_distinct(c2),
        styled_chars(c1) == styled_chars(c2),
    ensures
        c1 == c2,
    decreases c1.len(),
{
    if c1.len() == 0 || c2.len() == 0 {
        if c1.len() > 0 {
            assert(styled_chars(c1).len() > 0) by {
                assert(annotate(c1[0].0, c1[0].1).len() == c1[0].0.len());
            }
            assert(styled_chars(c2).len() == 0);
        }
        if c2.len() > 0 {
            assert(styled_chars(c2).len() > 0) by {
                assert(annotate(c2[0].0, c2[0].1).len() == c2[0].0.len());
            }
            assert(styled_chars(c1).len() == 0);
        }
        assert(c1 =~= c2);
    } else {
        let (t1, s1) = c1[0];
        let (t2, s2) = c2[0];
        let sc = styled_chars(c1);
        assert(sc == annotate(t1, s1) + styled_chars(c1.drop_first()));
        assert(sc == annotate(t2, s2) + styled_chars(c2.drop_first()));
        assert(t1.len() > 0 && t2.len() > 0);
        assert(sc[0] == (t1[0], s1));
        assert(sc[0] == (t2[0], s2));
        assert(s1 == s2);
        lemma_prefix_run(c1, c2);
        lemma_prefix_run(c2, c1);
        assert(t1.len() == t2.len());
        assert forall|j: int| 0 <= j < t1.len() implies t1[j] == t2[j] by {
            assert(sc[j] == (t1[j], s1));
            assert(sc[j] == (t2[j], s2));
        }
        assert(t1 =~= t2);
        assert(styled_chars(c1.drop_first()) == styled_chars(c2.drop_first())) by {
            assert(styled_chars(c1.drop_first()) =~= sc.subrange(t1.len() as int, sc.len() as int));
            assert(styled_chars(c2.drop_first()) =~= sc.subrange(t2.len() as int, sc.len() as int));
        }
        assert(runs_nonempty(c1.drop_first()) && adjacent_distinct(c1.drop_first())) by {
            assert(forall|i: int|
                0 <= i < c1.drop_first().len() ==> c1.drop_first()[i] == c1[i + 1]);
        }
        assert(runs_nonempty(c2.drop_first()) && adjacent_distinct(c2.drop_first())) by {
            assert(forall|i: int|
                0 <= i < c2.drop_first().len() ==> c2.drop_first()[i] == c2[i + 1]);
        }
        lemma_canonical_unique(c1.drop_first(), c2.drop_first());
        assert(c1.len() == c2.len()) by {
            assert(c1.drop_first().len() == c2.drop_first().len());
        }
        assert forall|i: int| 0 <= i < c1.len() implies c1[i] == c2[i] by {
            if i == 0 {
                assert(c1[0].0 == t1 && c2[0].0 == t2 && t1 == t2 && s1 == s2);
            } else {
                assert(c1.drop_first()[i - 1] == c1[i]);
                assert(c2.drop_first()[i - 1] == c2[i]);
            }
        }
        assert(c1 =~= c2);
    }
}

/// In a canonical list the first run is no longer than the first run of any
/// canonical list with the same observable content.
proof fn lemma_prefix_run(c1: Seq<(Seq<char>, Style)>, c2: Seq<(Seq<char>, Style)>)
    requires
        runs_nonempty(c1),
        runs_nonempty(c2),
        adjacent_distinct(c1),
        adjacent_distinct(c2),
        styled_chars(c1) == styled_chars(c2),
        c1.len() > 0,
        c2.len() > 0,
    ensures
        c1[0].0.len() <= c2[0].0.len(),
{
    let (t1, s1) = c1[0];
    let (t2, s2) = c2[0];
    let sc = styled_chars(c1);
    assert(sc == annotate(t1, s1) + styled_chars(c1.drop_first()));
    assert(sc == annotate(t2, s2) + styled_chars(c2.drop_first()));
    assert(sc[0] == (t1[0], s1));
    assert(sc[0] == (t2[0], s2));
    if t2.len() < t1.len() {
        // position t2.len() starts the second run of c2 but is still inside
        // the first run of c1, so its style both differs from and equals s1
        let p = t2.len() as int;
        assert(sc[p] == (t1[p], s1));
        assert(c2.drop_first().len() > 0) by {
            assert(styled_chars(c2.drop_first()).len() == sc.len() - p);
        }
        let d2 = c2.drop_first();
        assert(d2[0] == c2[1]);
        assert(styled_chars(d2) == annotate(d2[0].0, d2[0].1) + styled_chars(d2.drop_first()));
        assert(d2[0].0.len() > 0);
        assert(styled_chars(d2)[0] == (d2[0].0[0], d2[0].1));
        assert(sc[p] == styled_chars(d2)[0]);
        assert(c2[1].1 == s1);
        assert(c2[0].1 != c2[1].1);
        assert(s2 == s1);
        assert(false);
    }
}


/// Whatever the decoder flushes is nonempty and holds no marker, and the
/// pending text it gathers holds no marker either.
proof fn lemma_scan_props(s: Seq<char>, marker: char, style: Style, pending: Seq<char>, expect: bool)
    requires
        forall|j: int| 0 <= j < pending.len() ==> pending[j] != marker,
    ensures
        ({
            let sc = scan(s, marker, style, pending, expect);
            runs_nonempty(sc.0) && marker_free(sc.0, marker) && (forall|j: int|
                0 <= j < sc.2.len() ==> sc.2[j] != marker)
        }),
    decreases s.len(),
{
    if s.len() == 0 {
    } else {
        let c = s[0];
        if expect {
            let cmd = match command_from_code(c) {
                Some(cmd) => cmd,
                None => StyleCommand::Color(crate::style::PaletteColor::White),
            };
            lemma_scan_props(
                s.drop_first(),
                marker,
                style_process(style, cmd),
                Seq::empty(),
                false,
            );
            lemma_chunks_props(pending, style, marker);
            let flushed = chunks(pending, style);
            let rest = scan(s.drop_first(), marker, style_process(style, cmd), Seq::empty(), false);
            let sc = scan(s, marker, style, pending, expect);
            assert(sc.0 == flushed + rest.0);
            assert forall|i: int| 0 <= i < sc.0.len() implies (#[trigger] sc.0[i]).0.len() > 0 by {
                if i < flushed.len() {
                    assert(sc.0[i] == flushed[i]);
                    assert(flushed[i].0.len() > 0);
                } else {
                    assert(sc.0[i] == rest.0[i - flushed.len()]);
                    assert(rest.0[i - flushed.len()].0.len() > 0);
                }
            }
            assert forall|i: int, j: int|
                0 <= i < sc.0.len() && 0 <= j < sc.0[i].0.len() implies #[trigger] sc.0[i].0[j]
                != marker by {
                if i < flushed.len() {
                    assert(sc.0[i] == flushed[i]);
                    assert(flushed[i].0[j] != marker);
                } else {
                    assert(sc.0[i] == rest.0[i - flushed.len()]);
                    assert(rest.0[i - flushed.len()].0[j] != marker);
                }
            }
        } else if c == marker {
            lemma_scan_props(s.drop_first(), marker, style, pending, true);
        } else {
            lemma_scan_props(s.drop_first(), marker, style, pending.push(c), false);
        }
    }
}

/// What decoding yields is nonempty runs with no marker in any text.
pub proof fn lemma_decoded_props(s: Seq<char>, marker: char)
    ensures
        runs_nonempty(decoded(s, marker)),
        marker_free(decoded(s, marker), marker),
{
    lemma_scan_props(s, marker, default_style(), Seq::empty(), false);
    let sc = scan(s, marker, default_style(), Seq::empty(), false);
    lemma_chunks_props(sc.2, sc.1, marker);
    let d = decoded(s, marker);
    let flushed = chunks(sc.2, sc.1);
    assert(d == sc.0 + flushed);
    assert forall|i: int| 0 <= i < d.len() implies (#[trigger] d[i]).0.len() > 0 by {
        if i < sc.0.len() {
            assert(d[i] == sc.0[i]);
            assert(sc.0[i].0.len() > 0);
        } else {
            assert(d[i] == flushed[i - sc.0.len()]);
            assert(flushed[i - sc.0.len()].0.len() > 0);
        }
    }
    assert forall|i: int, j: int|
        0 <= i < d.len() && 0 <= j < d[i].0.len() implies #[trigger] d[i].0[j] != marker by {
        if i < sc.0.len() {
            assert(d[i] == sc.0[i]);
            assert(sc.0[i].0[j] != marker);
        } else {
            assert(d[i] == flushed[i - sc.0.len()]);
            assert(flushed[i - sc.0.len()].0[j] != marker);
        }
    }
}

/// Round trip at the buffer level: decoding what serializing a well-formed
/// buffer emits yields the very same merged runs — run merging hides every
/// difference between the stored run boundaries — provided no character of
/// the buffer's text is the marker itself. [`PlainBuf::to_formatted`] emits
/// exactly [`encoded`] of the runs, [`PlainBuf::from_formatted`] yields
/// exactly [`decoded`] of its input, and [`Iter`] yields exactly the merged
/// runs, so this speaks of those three calls.
pub proof fn lemma_buffer_round_trip(b: PlainBuf, marker: char)
    requires
        b.wf(),
        marker_free(b.runs(), marker),
    ensures
        styled_chars(decoded(encoded(b.runs(), marker), marker)) == styled_chars(b.runs()),
        merge_runs(decoded(encoded(b.runs(), marker), marker)) == merge_runs(b.runs()),
{
    lemma_decode_encode_round_trip(b.runs(), marker);
    b.lemma_wf_runs();
    lemma_decoded_props(encoded(b.runs(), marker), marker);
    let d = decoded(encoded(b.runs(), marker), marker);
    lemma_merge_canonical(d);
    lemma_merge_canonical(b.runs());
    lemma_merge_styled(d);
    lemma_merge_styled(b.runs());
    lemma_canonical_unique(merge_runs(d), merge_runs(b.runs()));
}

/// Idempotence: decoding marker-coded text and serializing it again is
/// stable from the first pass on — serializing the re-decoded text emits
/// byte-identical output, with no drift from redundant reset emission.
pub proof fn lemma_reformat_idempotent(s: Seq<char>, marker: char)
    ensures
        ({
            let once = encoded(decoded(s, marker), marker);
            encoded(decoded(once, marker), marker) == once
        }),
{
    let r1 = decoded(s, marker);
    let once = encoded(r1, marker);
    let r2 = decoded(once, marker);
    lemma_decoded_props(s, marker);
    lemma_decoded_props(once, marker);
    lemma_decode_encode_round_trip(r1, marker);
    lemma_merge_canonical(r1);
    lemma_merge_canonical(r2);
    lemma_merge_styled(r1);
    lemma_merge_styled(r2);
    lemma_canonical_unique(merge_runs(r1), merge_runs(r2));
    lemma_encode_merge(r1, marker, default_style());
    lemma_encode_merge(r2, marker, default_style());
}

} // verus!
