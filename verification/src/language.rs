//! The template compiler: scans a translation template, applies the
//! `%%`/`%n` escapes, resolves every other format token's argument index,
//! and produces a compact compiled template, or an error tied to the byte
//! offset of the offending token.

use crate::chars::append_dec;
use crate::chars::char_utf8_len;
use crate::chars::dec_str;
use crate::chars::find_char;
use crate::chars::utf8_len;
use crate::directory::Directory;
use crate::directory::split_on;
use crate::chars::find_char_exec;
use crate::chars::push_char;
use crate::chars::utf8_len_of;
use crate::formatter::FormatCommand;
use crate::formatter::Index;
use crate::formatter::Kind;
use crate::formatter::ParseFormatError;
use crate::formatter::kind_char;
use crate::formatter::kind_name;
use crate::formatter::parse_error_message;
use crate::formatter::lemma_spec_parse_ok_facts;
use crate::formatter::spec_parse;
use crate::formatter::spec_parse_panics;
use vstd::prelude::*;

verus! {

/// Why a line could not be split into a key and a value.
#[derive(Debug, Copy, Clone, Eq, PartialEq, Structural)]
pub enum Error {
    /// The line has no `=`, so it carries no value.
    NoValue,
}

/// Why a parsed format token was rejected by the compiler.
#[derive(Debug, Copy, Clone, Eq, PartialEq, Structural)]
pub enum ProcessError {
    /// The token carries flags, which the compact runtime format cannot hold.
    UnsupportedFlags,
    /// The token carries a width.
    UnsupportedWidth,
    /// The token carries a precision.
    UnsupportedPrecision,
    /// The token's conversion kind is not positional string substitution.
    UnsupportedKind(Kind, bool),
    /// The token itself failed to parse.
    Parse(ParseFormatError),
    /// The token asks for the previous argument, but no token came before.
    NoPreviousArgument,
}

impl ProcessError {
    /// An optional help line for tooling diagnostics.
    pub fn help(&self) -> (r: Option<&'static str>)
        ensures
            match r {
                Some(h) => spec_help(*self) == Some(h@),
                None => spec_help(*self) is None,
            },
    {
        match *self {
            ProcessError::UnsupportedFlags => Some(
                "the formatting system does not support this feature yet",
            ),
            ProcessError::UnsupportedWidth => Some(
                "the formatting system does not support this feature yet",
            ),
            ProcessError::UnsupportedPrecision => Some(
                "the formatting system does not support this feature yet",
            ),
            ProcessError::UnsupportedKind(_, _) => Some(
                "the formatting system does not support this feature yet",
            ),
            ProcessError::Parse(ref p) => p.help(),
            ProcessError::NoPreviousArgument => Some(
                "please use relative indexing (%s) or exact indexing (%1$s) for this format code",
            ),
        }
    }
}

/// One substitution point of a compiled template: a byte offset into the
/// literal, a resolved 0-based argument index, and the uppercase flag.
#[derive(Debug, Copy, Clone, Eq, PartialEq, Structural)]
pub struct SimpleFormatCmd {
    pub string_start: usize,
    pub arg_index: usize,
    pub upper: bool,
}

/// Whether a token falls under the legacy rule: a bare `%d` or `%f`, with no
/// flags, width or precision, stands for argument slot 1 rendered as text.
pub open spec fn legacy_bare_numeric(cmd: FormatCommand) -> bool {
    (cmd.kind == Kind::Decimal || cmd.kind == Kind::Float) && !cmd.flags.spec_any() && cmd.width
        is None && cmd.precision is None
}

/// The argument-index-resolution policy. From the running state (`head`: the
/// next implicit 1-based index, `last`: the most recently resolved index) and
/// one parsed token, it produces the resolved 0-based index and the uppercase
/// flag, plus the next state; or the reason the token is unsupported.
pub open spec fn spec_process(head: int, last: Option<int>, cmd: FormatCommand) -> Result<
    ((int, bool), (int, Option<int>)),
    ProcessError,
> {
    if legacy_bare_numeric(cmd) {
        Ok(((0, false), (head, Some(1 as int))))
    } else if cmd.flags.spec_any() {
        Err(ProcessError::UnsupportedFlags)
    } else if cmd.width is Some {
        Err(ProcessError::UnsupportedWidth)
    } else if cmd.precision is Some {
        Err(ProcessError::UnsupportedPrecision)
    } else if cmd.kind != Kind::Str {
        Err(ProcessError::UnsupportedKind(cmd.kind, cmd.upper))
    } else {
        match cmd.index {
            Index::Previous => match last {
                None => Err(ProcessError::NoPreviousArgument),
                Some(l) => Ok(((l - 1, cmd.upper), (head, Some(l)))),
            },
            Index::Exact(n) => Ok(((n - 1, cmd.upper), (head, Some(n as int)))),
            Index::Next => Ok(((head - 1, cmd.upper), (head + 1, Some(head)))),
        }
    }
}

/// Tracks the argument-index-resolution state across one template scan.
struct CmdProcessor {
    head: usize,
    last: Option<usize>,
}

/// The state of a [`CmdProcessor`] as the policy sees it.
pub open spec fn processor_state(head: usize, last: Option<usize>) -> (int, Option<int>) {
    (
        head as int,
        match last {
            None => None,
            Some(l) => Some(l as int),
        },
    )
}

impl CmdProcessor {
    spec fn state(self) -> (int, Option<int>) {
        processor_state(self.head, self.last)
    }

    fn new() -> (p: Self)
        ensures
            p.state() == (1int, Option::<int>::None),
    {
        CmdProcessor { head: 1, last: None }
    }

    /// Applies the index-resolution policy to one token.
    fn process(&mut self, string_start: usize, cmd: FormatCommand) -> (r: Result<
        SimpleFormatCmd,
        ProcessError,
    >)
        requires
            1 <= old(self).head < usize::MAX,
            cmd.index matches Index::Exact(n) ==> n >= 1,
            old(self).last matches Some(l) ==> l >= 1,
        ensures
            final (self).head >= 1,
            ({
                let (h0, l0) = old(self).state();
                match spec_process(h0, l0, cmd) {
                    Ok(((arg, upper), st)) => r == Ok::<SimpleFormatCmd, ProcessError>(
                        SimpleFormatCmd { string_start, arg_index: arg as usize, upper },
                    ) && final(self).state() == st,
                    Err(e) => r == Err::<SimpleFormatCmd, ProcessError>(e) && final(self).state()
                        == old(self).state(),
                }
            }),
            final (self).last matches Some(l) ==> l >= 1,
    {
        let bare_numeric = (matches!(cmd.kind, Kind::Decimal) || matches!(cmd.kind, Kind::Float))
            && !cmd.flags.any() && cmd.width.is_none() && cmd.precision.is_none();
        if bare_numeric {
            self.last = Some(1);
            Ok(SimpleFormatCmd { string_start, arg_index: 0, upper: false })
        } else if cmd.flags.any() {
            Err(ProcessError::UnsupportedFlags)
        } else if cmd.width.is_some() {
            Err(ProcessError::UnsupportedWidth)
        } else if cmd.precision.is_some() {
            Err(ProcessError::UnsupportedPrecision)
        } else if !matches!(cmd.kind, Kind::Str) {
            Err(ProcessError::UnsupportedKind(cmd.kind, cmd.upper))
        } else {
            self.process_lossy(string_start, cmd)
        }
    }

    /// Resolves the argument index of a plain string substitution.
    fn process_lossy(&mut self, string_start: usize, cmd: FormatCommand) -> (r: Result<
        SimpleFormatCmd,
        ProcessError,
    >)
        requires
            1 <= old(self).head < usize::MAX,
            !legacy_bare_numeric(cmd),
            !cmd.flags.spec_any(),
            cmd.width is None,
            cmd.precision is None,
            cmd.kind == Kind::Str,
            cmd.index matches Index::Exact(n) ==> n >= 1,
            old(self).last matches Some(l) ==> l >= 1,
        ensures
            final (self).head >= 1,
            ({
                let (h0, l0) = old(self).state();
                match spec_process(h0, l0, cmd) {
                    Ok(((arg, upper), st)) => r == Ok::<SimpleFormatCmd, ProcessError>(
                        SimpleFormatCmd { string_start, arg_index: arg as usize, upper },
                    ) && final(self).state() == st,
                    Err(e) => r == Err::<SimpleFormatCmd, ProcessError>(e) && final(self).state()
                        == old(self).state(),
                }
            }),
            final (self).last matches Some(l) ==> l >= 1,
    {
        let current_idx: usize = match cmd.index {
            Index::Previous => {
                match self.last {
                    Some(last) => last,
                    None => {
                        return Err(ProcessError::NoPreviousArgument);
                    },
                }
            },
            Index::Exact(idx) => idx,
            Index::Next => self.head,
        };
        if matches!(cmd.index, Index::Next) {
            self.head = self.head + 1;
        }
        self.last = Some(current_idx);
        Ok(
            SimpleFormatCmd {
                string_start,
                // Format string indices count from 1, but array indices count from 0.
                arg_index: current_idx - 1,
                upper: cmd.upper,
            },
        )
    }
}

/// What one whole template compiles to, carried forward from character
/// position `i` with the running policy state and what has been built so
/// far: the literal and the ordered substitution points on success, or the
/// byte offset of the failing token's `%` and the reason.
pub open spec fn spec_compile_from(
    cs: Seq<char>,
    i: int,
    head: int,
    last: Option<int>,
    literal: Seq<char>,
    cmds: Seq<SimpleFormatCmd>,
) -> Result<(Seq<char>, Seq<SimpleFormatCmd>), (int, ProcessError)>
    decreases cs.len() - i,
{
    if i < 0 || i >= cs.len() {
        Ok((literal, cmds))
    } else if cs[i] != '%' {
        spec_compile_from(cs, i + 1, head, last, literal.push(cs[i]), cmds)
    } else {
        match spec_parse(cs.subrange(i, cs.len() as int)) {
            Err(e) => Err((byte_offset_of(cs, i), ProcessError::Parse(e))),
            Ok((n, cmd)) => {
                let step = if n < 1 {
                    1
                } else {
                    n
                };
                if cmd.kind == Kind::Newline {
                    spec_compile_from(cs, i + step, head, last, literal.push('\n'), cmds)
                } else if cmd.kind == Kind::Percent {
                    spec_compile_from(cs, i + step, head, last, literal.push('%'), cmds)
                } else {
                    match spec_process(head, last, cmd) {
                        Err(e) => Err((byte_offset_of(cs, i), e)),
                        Ok(((arg, upper), (head2, last2))) => spec_compile_from(
                            cs,
                            i + step,
                            head2,
                            last2,
                            literal,
                            cmds.push(
                                SimpleFormatCmd {
                                    string_start: utf8_len_of(literal) as usize,
                                    arg_index: arg as usize,
                                    upper,
                                },
                            ),
                        ),
                    }
                }
            },
        }
    }
}

/// What one whole template compiles to: the literal and the ordered
/// substitution points, or the byte offset of the failing token's `%` and
/// the reason.
pub open spec fn spec_compile(cs: Seq<char>) -> Result<
    (Seq<char>, Seq<SimpleFormatCmd>),
    (int, ProcessError),
> {
    spec_compile_from(cs, 0, 1, None, Seq::empty(), Seq::empty())
}

/// The templates on which the legacy compiler died instead of returning: it
/// reaches a token one of whose digit runs does not fit in `usize`.
pub open spec fn spec_compile_panics_from(cs: Seq<char>, i: int, head: int, last: Option<int>) -> bool
    decreases cs.len() - i,
{
    if i < 0 || i >= cs.len() {
        false
    } else if cs[i] != '%' {
        spec_compile_panics_from(cs, i + 1, head, last)
    } else if spec_parse_panics(cs.subrange(i, cs.len() as int)) {
        true
    } else {
        match spec_parse(cs.subrange(i, cs.len() as int)) {
            Err(_) => false,
            Ok((n, cmd)) => {
                let step = if n < 1 {
                    1
                } else {
                    n
                };
                if cmd.kind == Kind::Newline || cmd.kind == Kind::Percent {
                    spec_compile_panics_from(cs, i + step, head, last)
                } else {
                    match spec_process(head, last, cmd) {
                        Err(_) => false,
                        Ok((_, (head2, last2))) => spec_compile_panics_from(
                            cs,
                            i + step,
                            head2,
                            last2,
                        ),
                    }
                }
            },
        }
    }
}

/// The templates on which the legacy compiler died instead of returning.
pub open spec fn spec_compile_panics(cs: Seq<char>) -> bool {
    spec_compile_panics_from(cs, 0, 1, None)
}

/// A compiled template: the fully escaped literal text, and the ordered
/// substitution points.
#[derive(Debug)]
pub struct Compiled {
    string: String,
    commands: Vec<SimpleFormatCmd>,
}

impl Compiled {
    /// The literal and the substitution points, as the compilation spec
    /// names them.
    pub closed spec fn model(self) -> (Seq<char>, Seq<SimpleFormatCmd>) {
        (self.string@, self.commands@)
    }

    /// The fully escaped literal text, with `%%` and `%n` already applied.
    pub fn literal(&self) -> (s: &String)
        ensures
            s@ == self.model().0,
    {
        &self.string
    }

    /// The substitution points, in source order.
    pub fn commands(&self) -> (c: &Vec<SimpleFormatCmd>)
        ensures
            c@ == self.model().1,
    {
        &self.commands
    }
}


impl Compiled {
    /// Compiles one template: literal characters are kept, `%%` and `%n`
    /// become `%` and a newline, and every other format token is resolved to
    /// a substitution point. The first bad token aborts the compilation with
    /// the byte offset of its `%`.
    ///
    /// The caller keeps out the templates on which the legacy compiler died:
    /// those that reach a token one of whose digit runs does not fit in
    /// `usize`.
    pub fn compile(source: &str) -> (r: Result<Self, (usize, ProcessError)>)
        requires
            !spec_compile_panics(source@),
        ensures
            ({
                let sc = spec_compile(source@);
                match r {
                    Ok(c) => sc == Ok::<(Seq<char>, Seq<SimpleFormatCmd>), (int, ProcessError)>(
                        c.model(),
                    ),
                    Err((off, e)) => sc == Err::<
                        (Seq<char>, Seq<SimpleFormatCmd>),
                        (int, ProcessError),
                    >((off as int, e)),
                }
            }),
    {
        let len = source.unicode_len();
        let mut string = String::new();
        let mut commands: Vec<SimpleFormatCmd> = Vec::new();
        let mut processor = CmdProcessor::new();
        let mut i: usize = 0;
        loop
            invariant_except_break
                i <= len,
                len == source@.len(),
                processor.head >= 1,
                processor.last matches Some(l) ==> l >= 1,
                processor.head as int <= 1 + commands@.len(),
                2 * commands@.len() <= i,
                !spec_compile_panics_from(
                    source@,
                    i as int,
                    processor.state().0,
                    processor.state().1,
                ),
                spec_compile(source@) == spec_compile_from(
                    source@,
                    i as int,
                    processor.state().0,
                    processor.state().1,
                    string@,
                    commands@,
                ),
            ensures
                spec_compile(source@) == Ok::<
                    (Seq<char>, Seq<SimpleFormatCmd>),
                    (int, ProcessError),
                >((string@, commands@)),
            decreases len - i,
        {
            if i >= len {
                break ;
            }
            let c = source.get_char(i);
            if c == '%' {
                let sub = source.substring_char(i, len);
                proof {
                    assert(sub@ == source@.subrange(i as int, len as int));
                    lemma_spec_parse_ok_facts(sub@);
                }
                match FormatCommand::parse(sub) {
                    Err(e) => {
                        let off = byte_offset(source, i);
                        return Err((off, ProcessError::Parse(e)));
                    },
                    Ok((n, cmd)) => {
                        if matches!(cmd.kind, Kind::Newline) {
                            push_char(&mut string, '\n');
                            i = i + n;
                        } else if matches!(cmd.kind, Kind::Percent) {
                            push_char(&mut string, '%');
                            i = i + n;
                        } else {
                            let start_bytes = string.as_str().len();
                            match processor.process(start_bytes, cmd) {
                                Err(e) => {
                                    let off = byte_offset(source, i);
                                    return Err((off, e));
                                },
                                Ok(sc) => {
                                    commands.push(sc);
                                    i = i + n;
                                },
                            }
                        }
                    },
                }
            } else {
                push_char(&mut string, c);
                i = i + 1;
            }
        }
        Ok(Compiled { string, commands })
    }
}


/// Splits one `key=value` line of a translation source file. A line that is
/// empty or starts with `#` is a comment and carries nothing; a line without
/// `=` is an error. The key is everything before the first `=`, the value
/// everything between the first `=` and the second one or the end of the
/// line.
pub fn parse_line(line: &str) -> (r: Result<Option<(&str, &str)>, Error>)
    ensures
        line@.len() == 0 || line@[0] == '#' ==> r == Ok::<Option<(&str, &str)>, Error>(None),
        !(line@.len() == 0 || line@[0] == '#') ==> {
            let e1 = find_char(line@, 0, '=');
            if e1 == line@.len() {
                r == Err::<Option<(&str, &str)>, Error>(Error::NoValue)
            } else {
                let e2 = find_char(line@, e1 + 1, '=');
                match r {
                    Ok(Some((k, v))) => k@ == line@.subrange(0, e1) && v@ == line@.subrange(
                        e1 + 1,
                        e2,
                    ),
                    _ => false,
                }
            }
        },
{
    let len = line.unicode_len();
    if len == 0 || line.get_char(0) == '#' {
        // Comment
        return Ok(None);
    }
    let e1 = find_char_exec(line, 0, '=');
    if e1 == len {
        return Err(Error::NoValue);
    }
    let e2 = find_char_exec(line, e1 + 1, '=');
    let key = line.substring_char(0, e1);
    let value = line.substring_char(e1 + 1, e2);
    Ok(Some((key, value)))
}


/// The placeholder a substitution point renders to: `{index}`, or
/// `{index::to_uppercase}` for an uppercase-flagged slot.
pub open spec fn placeholder(cmd: SimpleFormatCmd) -> Seq<char> {
    seq!['{'] + dec_str(cmd.arg_index as int) + (if cmd.upper {
        seq![':', ':', 't', 'o', '_', 'u', 'p', 'p', 'e', 'r', 'c', 'a', 's', 'e']
    } else {
        Seq::empty()
    }) + seq!['}']
}

/// The literal with the placeholders of the queued substitution points
/// inserted wherever the byte position reaches the front point's offset.
pub open spec fn rendered(lit: Seq<char>, cmds: Seq<SimpleFormatCmd>, bytepos: int) -> Seq<char>
    decreases cmds.len(), lit.len(),
{
    if cmds.len() > 0 && cmds[0].string_start == bytepos {
        placeholder(cmds[0]) + rendered(lit, cmds.drop_first(), bytepos)
    } else if lit.len() == 0 {
        Seq::empty()
    } else {
        seq![lit[0]] + rendered(lit.drop_first(), cmds, bytepos + char_utf8_len(lit[0]))
    }
}

impl Compiled {
    /// Renders the template in the generic string-templating form: the
    /// literal with `{index}` (or `{index::to_uppercase}` for an
    /// uppercase-flagged slot) inserted at each substitution point's offset.
    pub fn to_template_string(&self) -> (r: String)
        ensures
            r@ == rendered(self.model().0, self.model().1, 0),
    {
        let n = self.string.as_str().unicode_len();
        let ncmd = self.commands.len();
        let mut out = String::new();
        let mut ci: usize = 0;
        let mut pos: usize = 0;
        let mut bytepos: usize = 0;
        let bs = self.string.as_str().as_bytes();
        let total_bytes = bs.len();
        proof {
            broadcast use vstd::slice::axiom_spec_len;

            assert(bs@ == vstd::utf8::encode_utf8(self.string@));
            assert(total_bytes == crate::chars::utf8_len_of(self.string@));
            assert(self.string@.subrange(0, n as int) =~= self.string@);
            assert(self.commands@.subrange(0, ncmd as int) =~= self.commands@);
            assert(out@ + rendered(self.string@, self.commands@, 0) =~= rendered(
                self.string@,
                self.commands@,
                0,
            ));
        }
        loop
            invariant_except_break
                pos <= n,
                ci <= ncmd,
                n == self.string@.len(),
                ncmd == self.commands@.len(),
                bytepos == crate::chars::utf8_len_of(self.string@.subrange(0, pos as int)),
                bytepos <= total_bytes,
                total_bytes == crate::chars::utf8_len_of(self.string@),
                out@ + rendered(
                    self.string@.subrange(pos as int, n as int),
                    self.commands@.subrange(ci as int, ncmd as int),
                    bytepos as int,
                ) == rendered(self.string@, self.commands@, 0),
            ensures
                out@ == rendered(self.string@, self.commands@, 0),
            decreases (ncmd - ci) + (n - pos),
        {
            let ghost lit_rest = self.string@.subrange(pos as int, n as int);
            let ghost cmd_rest = self.commands@.subrange(ci as int, ncmd as int);
            if ci < ncmd && self.commands[ci].string_start == bytepos {
                let cmd = self.commands[ci];
                let ghost out0 = out@;
                proof {
                    assert(cmd_rest[0] == cmd);
                }
                push_char(&mut out, '{');
                append_dec(&mut out, cmd.arg_index);
                if cmd.upper {
                    out.append("::to_uppercase");
                    proof {
                        reveal_strlit("::to_uppercase");
                        assert("::to_uppercase"@ =~= seq![
                            ':',
                            ':',
                            't',
                            'o',
                            '_',
                            'u',
                            'p',
                            'p',
                            'e',
                            'r',
                            'c',
                            'a',
                            's',
                            'e',
                        ]);
                    }
                }
                push_char(&mut out, '}');
                proof {
                    assert(cmd_rest.drop_first() =~= self.commands@.subrange(
                        ci as int + 1,
                        ncmd as int,
                    ));
                    assert(rendered(lit_rest, cmd_rest, bytepos as int) == placeholder(cmd)
                        + rendered(lit_rest, cmd_rest.drop_first(), bytepos as int));
                    assert(out@ =~= out0 + placeholder(cmd));
                    assert(out0 + (placeholder(cmd) + rendered(
                        lit_rest,
                        cmd_rest.drop_first(),
                        bytepos as int,
                    )) =~= out@ + rendered(lit_rest, cmd_rest.drop_first(), bytepos as int));
                }
                ci = ci + 1;
            } else if pos < n {
                let c = self.string.as_str().get_char(pos);
                push_char(&mut out, c);
                proof {
                    assert(lit_rest[0] == c);
                    assert(lit_rest.drop_first() =~= self.string@.subrange(
                        pos as int + 1,
                        n as int,
                    ));
                    assert(rendered(lit_rest, cmd_rest, bytepos as int) == seq![c] + rendered(
                        lit_rest.drop_first(),
                        cmd_rest,
                        bytepos + char_utf8_len(c),
                    ));
                    assert(out@ =~= out@.subrange(0, out@.len() - 1) + seq![c]);
                    assert(self.string@.subrange(0, pos as int + 1) =~= self.string@.subrange(
                        0,
                        pos as int,
                    ).push(c));
                    crate::chars::lemma_utf8_len_push(self.string@.subrange(0, pos as int), c);
                    crate::chars::lemma_char_utf8_len_bounds(c);
                    assert(self.string@ =~= self.string@.subrange(0, pos as int + 1)
                        + self.string@.subrange(pos as int + 1, n as int));
                    crate::chars::lemma_encode_utf8_concat(
                        self.string@.subrange(0, pos as int + 1),
                        self.string@.subrange(pos as int + 1, n as int),
                    );
                }
                pos = pos + 1;
                bytepos = bytepos + utf8_len(c);
            } else {
                proof {
                    assert(lit_rest =~= Seq::<char>::empty());
                    if cmd_rest.len() > 0 {
                        assert(rendered(lit_rest, cmd_rest, bytepos as int) == (if cmd_rest[0].string_start
                            == bytepos {
                            placeholder(cmd_rest[0]) + rendered(
                                lit_rest,
                                cmd_rest.drop_first(),
                                bytepos as int,
                            )
                        } else {
                            Seq::empty()
                        }));
                    }
                    if !(cmd_rest.len() > 0 && cmd_rest[0].string_start == bytepos) {
                        assert(rendered(lit_rest, cmd_rest, bytepos as int) =~= Seq::<
                            char,
                        >::empty());
                        assert(out@ + Seq::<char>::empty() =~= out@);
                    }
                }
                break ;
            }
        }
        out
    }
}


/// The diagnostic line of a compiler error.
pub open spec fn process_error_message(e: ProcessError) -> Seq<char> {
    match e {
        ProcessError::UnsupportedFlags => "flags are not currently supported"@,
        ProcessError::UnsupportedWidth => "width is not currently supported"@,
        ProcessError::UnsupportedPrecision => "precision is not currently supported"@,
        ProcessError::UnsupportedKind(k, upper) => "kind "@ + kind_name(k) + " [%"@ + seq![
            kind_char(k, upper),
        ] + "] is not currently supported"@,
        ProcessError::Parse(p) => "while parsing format: "@ + parse_error_message(p),
        ProcessError::NoPreviousArgument => "previous argument flag used ('<'), but there is no previous argument"@,
    }
}

impl ProcessError {
    /// The diagnostic line of this error.
    pub fn message(&self) -> (r: String)
        ensures
            r@ == process_error_message(*self),
    {
        match *self {
            ProcessError::UnsupportedFlags => String::from_str(
                "flags are not currently supported",
            ),
            ProcessError::UnsupportedWidth => String::from_str(
                "width is not currently supported",
            ),
            ProcessError::UnsupportedPrecision => String::from_str(
                "precision is not currently supported",
            ),
            ProcessError::UnsupportedKind(k, upper) => {
                let mut s = String::from_str("kind ");
                let n = k.name();
                s.append(n.as_str());
                s.append(" [%");
                push_char(&mut s, k.character(upper));
                s.append("] is not currently supported");
                proof {
                    assert(("kind "@ + kind_name(k) + " [%"@).push(kind_char(k, upper))
                        + "] is not currently supported"@ =~= process_error_message(*self));
                }
                s
            },
            ProcessError::Parse(ref p) => {
                let mut s = String::from_str("while parsing format: ");
                let m = p.message();
                s.append(m.as_str());
                s
            },
            ProcessError::NoPreviousArgument => String::from_str(
                "previous argument flag used ('<'), but there is no previous argument",
            ),
        }
    }
}

/// A run of spaces.
pub open spec fn spaces(n: int) -> Seq<char> {
    Seq::new(if n >= 0 {
        n as nat
    } else {
        0
    }, |i: int| ' ')
}

/// Appends `n` spaces.
fn append_spaces(s: &mut String, n: usize)
    ensures
        final (s)@ == old(s)@ + spaces(n as int),
{
    let mut i: usize = 0;
    proof {
        assert(old(s)@ + spaces(0) =~= old(s)@);
    }
    loop
        invariant_except_break
            i <= n,
            s@ == old(s)@ + spaces(i as int),
        ensures
            s@ == old(s)@ + spaces(n as int),
        decreases n - i,
    {
        if i >= n {
            break ;
        }
        push_char(s, ' ');
        proof {
            assert((old(s)@ + spaces(i as int)).push(' ') =~= old(s)@ + spaces(i as int + 1));
        }
        i = i + 1;
    }
}

/// The compiler-style diagnostic of one failed line: the error, an arrow to
/// the file, line and column, the source excerpt, and a caret under the
/// offending byte, with an optional help line.
pub open spec fn diagnostic_text(
    err: ProcessError,
    file: Seq<char>,
    line: int,
    index: int,
    text: Seq<char>,
) -> Seq<char> {
    let num = dec_str(line + 1);
    let pad = spaces(num.len() as int);
    "error: "@ + process_error_message(err) + "\n  --> "@ + file + ":"@ + dec_str(line + 1) + ":"@
        + dec_str(index + 1) + "\n"@ + pad + " |\n"@ + num + " | "@ + text + "\n"@ + pad + " | "@
        + spaces(index) + "^\n"@ + pad + " |\n"@ + (match spec_help(err) {
        Some(h) => pad + " = help: "@ + h + "\n"@,
        None => Seq::empty(),
    })
}

/// The help line of an error, as [`ProcessError::help`] hands it out.
pub open spec fn spec_help(err: ProcessError) -> Option<Seq<char>> {
    match err {
        ProcessError::UnsupportedFlags => Some(
            "the formatting system does not support this feature yet"@,
        ),
        ProcessError::UnsupportedWidth => Some(
            "the formatting system does not support this feature yet"@,
        ),
        ProcessError::UnsupportedPrecision => Some(
            "the formatting system does not support this feature yet"@,
        ),
        ProcessError::UnsupportedKind(_, _) => Some(
            "the formatting system does not support this feature yet"@,
        ),
        ProcessError::Parse(p) => crate::formatter::parse_help(p),
        ProcessError::NoPreviousArgument => Some(
            "please use relative indexing (%s) or exact indexing (%1$s) for this format code"@,
        ),
    }
}

/// One template compilation failure, tied to its place in a source file.
pub struct LoadError {
    err: ProcessError,
    file: String,
    line: usize,
    index: usize,
    text: String,
}

impl LoadError {
    /// The failure itself.
    pub closed spec fn spec_err(self) -> ProcessError {
        self.err
    }

    /// The name of the source file.
    pub closed spec fn spec_file(self) -> Seq<char> {
        self.file@
    }

    /// The 0-based line number.
    pub closed spec fn spec_line(self) -> int {
        self.line as int
    }

    /// The 0-based byte column of the offending token.
    pub closed spec fn spec_index(self) -> int {
        self.index as int
    }

    /// The whole source line.
    pub closed spec fn spec_text(self) -> Seq<char> {
        self.text@
    }

    /// Ties a failure to its place: file name, 0-based line number, 0-based
    /// byte column, and the whole source line.
    pub fn new(err: ProcessError, file: &str, line: usize, index: usize, text: &str) -> (r: Self)
        ensures
            r.spec_err() == err,
            r.spec_file() == file@,
            r.spec_line() == line as int,
            r.spec_index() == index as int,
            r.spec_text() == text@,
    {
        LoadError {
            err,
            file: String::from_str(file),
            line,
            index,
            text: String::from_str(text),
        }
    }

    /// The failure itself.
    pub fn err(&self) -> (r: &ProcessError)
        ensures
            *r == self.spec_err(),
    {
        &self.err
    }

    /// The 0-based line number.
    pub fn line(&self) -> (r: usize)
        ensures
            r as int == self.spec_line(),
    {
        self.line
    }

    /// The 0-based byte column of the offending token.
    pub fn index(&self) -> (r: usize)
        ensures
            r as int == self.spec_index(),
    {
        self.index
    }

    /// Renders the compiler-style diagnostic pointing at the offending byte
    /// of the original template line.
    pub fn diagnostic(&self) -> (r: String)
        requires
            self.spec_line() < usize::MAX,
            self.spec_index() < usize::MAX,
        ensures
            r@ == diagnostic_text(
                self.spec_err(),
                self.spec_file(),
                self.spec_line(),
                self.spec_index(),
                self.spec_text(),
            ),
    {
        let num_val = self.line + 1;
        let mut num = String::new();
        append_dec(&mut num, num_val);
        proof {
            assert(Seq::<char>::empty() + dec_str(num_val as int) =~= dec_str(num_val as int));
        }
        let pad_n = num.as_str().unicode_len();
        let mut s = String::from_str("error: ");
        let m = self.err.message();
        s.append(m.as_str());
        s.append("\n  --> ");
        s.append(self.file.as_str());
        s.append(":");
        append_dec(&mut s, num_val);
        s.append(":");
        append_dec(&mut s, self.index + 1);
        s.append("\n");
        append_spaces(&mut s, pad_n);
        s.append(" |\n");
        s.append(num.as_str());
        s.append(" | ");
        s.append(self.text.as_str());
        s.append("\n");
        append_spaces(&mut s, pad_n);
        s.append(" | ");
        append_spaces(&mut s, self.index);
        s.append("^\n");
        append_spaces(&mut s, pad_n);
        s.append(" |\n");
        match self.err.help() {
            Some(h) => {
                append_spaces(&mut s, pad_n);
                s.append(" = help: ");
                s.append(h);
                s.append("\n");
                proof {
                    assert(spec_help(self.err) == Some(h@));
                }
            },
            None => {
                proof {
                    assert(spec_help(self.err) is None);
                    assert(s@ + Seq::<char>::empty() =~= s@);
                }
            },
        }
        proof {
            assert(s@ =~= diagnostic_text(
                self.spec_err(),
                self.spec_file(),
                self.spec_line(),
                self.spec_index(),
                self.spec_text(),
            ));
        }
        s
    }
}


/// The byte length of the first `n` characters of `cs`.
pub open spec fn byte_offset_of(cs: Seq<char>, n: int) -> int {
    utf8_len_of(cs.subrange(0, if n < 0 {
        0
    } else if n > cs.len() {
        cs.len() as int
    } else {
        n
    }))
}

/// A byte offset into a prefix never exceeds the whole encoding length.
proof fn lemma_byte_offset_le(cs: Seq<char>, n: int)
    ensures
        0 <= byte_offset_of(cs, n) <= utf8_len_of(cs),
{
    let k: int = if n < 0 {
        0
    } else if n > cs.len() {
        cs.len() as int
    } else {
        n
    };
    assert(cs =~= cs.subrange(0, k) + cs.subrange(k, cs.len() as int));
    crate::chars::lemma_encode_utf8_concat(cs.subrange(0, k), cs.subrange(k, cs.len() as int));
}

/// A compilation error's offset is a byte offset into the template.
proof fn lemma_spec_compile_err_bound(
    cs: Seq<char>,
    i: int,
    head: int,
    last: Option<int>,
    literal: Seq<char>,
    cmds: Seq<SimpleFormatCmd>,
)
    requires
        0 <= i,
    ensures
        spec_compile_from(cs, i, head, last, literal, cmds) matches Err((off, _)) ==> 0 <= off
            <= utf8_len_of(cs),
    decreases cs.len() - i,
{
    if i >= cs.len() {
    } else if cs[i] != '%' {
        lemma_spec_compile_err_bound(cs, i + 1, head, last, literal.push(cs[i]), cmds);
    } else {
        lemma_byte_offset_le(cs, i);
        match spec_parse(cs.subrange(i, cs.len() as int)) {
            Err(_) => {
            },
            Ok((n, cmd)) => {
                let step = if n < 1 {
                    1
                } else {
                    n
                };
                if cmd.kind == Kind::Newline {
                    lemma_spec_compile_err_bound(
                        cs,
                        i + step,
                        head,
                        last,
                        literal.push('\n'),
                        cmds,
                    );
                } else if cmd.kind == Kind::Percent {
                    lemma_spec_compile_err_bound(
                        cs,
                        i + step,
                        head,
                        last,
                        literal.push('%'),
                        cmds,
                    );
                } else {
                    match spec_process(head, last, cmd) {
                        Err(_) => {
                        },
                        Ok(((arg, upper), (head2, last2))) => {
                            lemma_spec_compile_err_bound(
                                cs,
                                i + step,
                                head2,
                                last2,
                                literal,
                                cmds.push(
                                    SimpleFormatCmd {
                                        string_start: utf8_len_of(literal) as usize,
                                        arg_index: arg as usize,
                                        upper,
                                    },
                                ),
                            );
                        },
                    }
                }
            },
        }
    }
}

/// Measures the byte length of the first `n` characters.
fn byte_offset(s: &str, n: usize) -> (r: usize)
    requires
        n <= s@.len(),
    ensures
        r == byte_offset_of(s@, n as int),
{
    let bs = s.as_bytes();
    let total = bs.len();
    proof {
        broadcast use vstd::slice::axiom_spec_len;

        assert(total == utf8_len_of(s@));
    }
    let mut i: usize = 0;
    let mut b: usize = 0;
    proof {
        assert(s@.subrange(0, 0) =~= Seq::<char>::empty());
    }
    loop
        invariant_except_break
            i <= n <= s@.len(),
            b == utf8_len_of(s@.subrange(0, i as int)),
            utf8_len_of(s@) == total,
        ensures
            b == byte_offset_of(s@, n as int),
        decreases n - i,
    {
        if i >= n {
            break ;
        }
        let c = s.get_char(i);
        proof {
            assert(s@.subrange(0, i as int + 1) =~= s@.subrange(0, i as int).push(c));
            crate::chars::lemma_utf8_len_push(s@.subrange(0, i as int), c);
            crate::chars::lemma_char_utf8_len_bounds(c);
            assert(s@ =~= s@.subrange(0, i as int + 1) + s@.subrange(
                i as int + 1,
                s@.len() as int,
            ));
            crate::chars::lemma_encode_utf8_concat(
                s@.subrange(0, i as int + 1),
                s@.subrange(i as int + 1, s@.len() as int),
            );
        }
        b = b + utf8_len(c);
        i = i + 1;
    }
    b
}

/// Why one whole line of a translation source file was rejected.
pub enum LineFailure {
    /// The line has no `=`, so it carries no value.
    NoValue,
    /// The value half failed to compile.
    Compile(LoadError),
}

/// Handles one line of a translation source file: a comment line carries
/// nothing, a line without `=` is a structural error, and otherwise the
/// value half is compiled under the key half. A compilation failure is
/// wrapped with the file name, the line number and the byte column of the
/// offending token within the whole line.
pub fn compile_line<'a>(line: &'a str, file: &str, line_number: usize) -> (r: Result<
    Option<(&'a str, Compiled)>,
    LineFailure,
>)
    requires
        !line_panics(line@),
    ensures
        line@.len() == 0 || line@[0] == '#' ==> r == Ok::<Option<(&'a str, Compiled)>, LineFailure>(
            None,
        ),
        !(line@.len() == 0 || line@[0] == '#') ==> ({
            let e1 = find_char(line@, 0, '=');
            if e1 == line@.len() {
                r matches Err(LineFailure::NoValue)
            } else {
                let e2 = find_char(line@, e1 + 1, '=');
                let key = line@.subrange(0, e1);
                let value = line@.subrange(e1 + 1, e2);
                match spec_compile(value) {
                    Ok(model) => (r matches Ok(Some((k, c))) && k@ == key && c.model() == model),
                    Err((off, err)) => (r matches Err(LineFailure::Compile(e)) && e.spec_err()
                        == err && e.spec_file() == file@ && e.spec_line() == line_number as int
                        && e.spec_text() == line@ && e.spec_index() == utf8_len_of(key) + 1
                        + off),
                }
            }
        }),
{
    match parse_line(line) {
        Ok(None) => Ok(None),
        Ok(Some((key, value))) => {
            match Compiled::compile(value) {
                Ok(compiled) => Ok(Some((key, compiled))),
                Err((off, err)) => {
                    let kb = byte_offset(key, key.unicode_len());
                    let ltotal = line.as_bytes().len();
                    proof {
                        broadcast use vstd::slice::axiom_spec_len;

                        assert(ltotal == utf8_len_of(line@));
                        assert(key@.subrange(0, key@.len() as int) =~= key@);
                        lemma_spec_compile_err_bound(
                            value@,
                            0,
                            1,
                            None,
                            Seq::empty(),
                            Seq::empty(),
                        );
                        assert(off as int <= utf8_len_of(value@));
                        let e1 = find_char(line@, 0, '=');
                        crate::chars::lemma_find_char_bounds(line@, 0, '=');
                        let e2 = find_char(line@, e1 + 1, '=');
                        crate::chars::lemma_find_char_bounds(line@, e1 + 1, '=');
                        let rest = line@.subrange(e2, line@.len() as int);
                        assert(line@ =~= key@ + seq!['='] + value@ + rest);
                        crate::chars::lemma_encode_utf8_concat(
                            key@ + seq!['='] + value@,
                            rest,
                        );
                        crate::chars::lemma_encode_utf8_concat(key@ + seq!['='], value@);
                        crate::chars::lemma_encode_utf8_concat(key@, seq!['=']);
                        assert(utf8_len_of(seq!['=']) == 1) by {
                            assert(seq!['='] =~= Seq::<char>::empty().push('='));
                            crate::chars::lemma_utf8_len_push(Seq::<char>::empty(), '=');
                        }
                        assert(kb + 1 + off <= ltotal);
                    }
                    Err(
                        LineFailure::Compile(
                            LoadError::new(err, file, line_number, kb + 1 + off, line),
                        ),
                    )
                },
            }
        },
        Err(_) => Err(LineFailure::NoValue),
    }
}

/// The lines on which the legacy loader died: the value half reaches a
/// token one of whose digit runs does not fit in `usize`.
pub open spec fn line_panics(cs: Seq<char>) -> bool {
    if cs.len() == 0 || cs[0] == '#' {
        false
    } else {
        let e1 = find_char(cs, 0, '=');
        if e1 == cs.len() {
            false
        } else {
            let e2 = find_char(cs, e1 + 1, '=');
            spec_compile_panics(cs.subrange(e1 + 1, e2))
        }
    }
}


/// Whether a line is a comment: empty, or starting with `#`.
pub open spec fn is_comment(cs: Seq<char>) -> bool {
    cs.len() == 0 || cs[0] == '#'
}

/// The key half of a line that has one.
pub open spec fn line_key(cs: Seq<char>) -> Seq<char> {
    cs.subrange(0, find_char(cs, 0, '='))
}

/// The value half of a line that has one: between the first `=` and the
/// second one or the end.
pub open spec fn line_value(cs: Seq<char>) -> Seq<char> {
    let e1 = find_char(cs, 0, '=');
    cs.subrange(e1 + 1, find_char(cs, e1 + 1, '='))
}

/// What a line contributes, if it compiles: its key and the compiled model.
pub open spec fn good_line(cs: Seq<char>) -> Option<(Seq<char>, (Seq<char>, Seq<SimpleFormatCmd>))> {
    if is_comment(cs) || find_char(cs, 0, '=') == cs.len() {
        None
    } else {
        match spec_compile(line_value(cs)) {
            Ok(model) => Some((line_key(cs), model)),
            Err(_) => None,
        }
    }
}

/// How a line fails, if it does: `None` stands for a missing `=`, and a
/// pair carries the byte column and the compiler error.
pub open spec fn line_failure_of(cs: Seq<char>) -> Option<Option<(int, ProcessError)>> {
    if is_comment(cs) {
        None
    } else if find_char(cs, 0, '=') == cs.len() {
        Some(None)
    } else {
        match spec_compile(line_value(cs)) {
            Ok(_) => None,
            Err((off, err)) => Some(Some((utf8_len_of(line_key(cs)) + 1 + off, err))),
        }
    }
}

/// The failures of the lines from `i` on, each with its line index.
pub open spec fn failures_of(lines: Seq<Seq<char>>, i: int) -> Seq<(int, Option<(int, ProcessError)>)>
    decreases lines.len() - i,
{
    if i < 0 || i >= lines.len() {
        Seq::empty()
    } else {
        match line_failure_of(lines[i]) {
            None => failures_of(lines, i + 1),
            Some(f) => seq![(i, f)] + failures_of(lines, i + 1),
        }
    }
}

/// The compiled model the last good line among the first `i` stores under a
/// key whose segments match those of `key`, if any.
pub open spec fn last_good(lines: Seq<Seq<char>>, i: int, key: Seq<char>) -> Option<
    (Seq<char>, Seq<SimpleFormatCmd>),
>
    decreases i,
{
    if i <= 0 || i > lines.len() {
        None
    } else {
        match good_line(lines[i - 1]) {
            Some((k, model)) => if split_on(k, '.') == split_on(key, '.') {
                Some(model)
            } else {
                last_good(lines, i - 1, key)
            },
            None => last_good(lines, i - 1, key),
        }
    }
}

/// Loads a whole translation source file that has been split into lines:
/// every line that compiles is stored in the directory under its key, later
/// lines overwriting earlier ones, and every line that fails is collected
/// with its line index — a bad line never aborts the rest of the file.
pub fn load_lines(lines: &Vec<String>, file: &str) -> (r: (
    Directory<Compiled>,
    Vec<(usize, LineFailure)>,
))
    requires
        forall|i: int| 0 <= i < lines@.len() ==> !line_panics((#[trigger] lines@[i])@),
    ensures
        r.0.wf(),
        forall|key: Seq<char>|
            match last_good(lines.deep_view(), lines@.len() as int, key) {
                Some(model) => #[trigger] r.0.spec_get(key) matches Some(c) && c.model() == model,
                None => r.0.spec_get(key) is None,
            },
        ({
            let fs = failures_of(lines.deep_view(), 0);
            r.1@.len() == fs.len() && (forall|j: int|
                0 <= j < fs.len() ==> {
                    let (lineno, kind) = fs[j];
                    (#[trigger] r.1@[j]).0 == lineno && (match kind {
                        None => r.1@[j].1 is NoValue,
                        Some((col, err)) => r.1@[j].1 matches LineFailure::Compile(e)
                            && e.spec_err() == err && e.spec_file() == file@ && e.spec_line()
                            == lineno && e.spec_index() == col && e.spec_text()
                            == lines.deep_view()[lineno],
                    })
                })
        }),
{
    let ghost ls = lines.deep_view();
    let mut dir: Directory<Compiled> = Directory::new();
    let mut errs: Vec<(usize, LineFailure)> = Vec::new();
    let n = lines.len();
    let mut i: usize = 0;
    proof {
        assert(ls.len() == lines@.len());
    }
    loop
        invariant_except_break
            i <= n,
            n == lines@.len(),
            ls == lines.deep_view(),
            dir.wf(),
            forall|key: Seq<char>|
                match last_good(ls, i as int, key) {
                    Some(model) => #[trigger] dir.spec_get(key) matches Some(c) && c.model()
                        == model,
                    None => dir.spec_get(key) is None,
                },
            ({
                let fs = failures_of(ls, 0);
                fs.len() == errs@.len() + failures_of(ls, i as int).len() && (forall|j: int|
                    0 <= j < errs@.len() ==> {
                        let (lineno, kind) = fs[j];
                        (#[trigger] errs@[j]).0 == lineno && (match kind {
                            None => errs@[j].1 is NoValue,
                            Some((col, err)) => errs@[j].1 matches LineFailure::Compile(e)
                                && e.spec_err() == err && e.spec_file() == file@ && e.spec_line()
                                == lineno && e.spec_index() == col && e.spec_text() == ls[lineno],
                        })
                    }) && failures_of(ls, 0).subrange(errs@.len() as int, fs.len() as int)
                    == failures_of(ls, i as int)
            }),
            forall|k: int| 0 <= k < lines@.len() ==> !line_panics((#[trigger] lines@[k])@),
        ensures
            dir.wf(),
            forall|key: Seq<char>|
                match last_good(ls, n as int, key) {
                    Some(model) => #[trigger] dir.spec_get(key) matches Some(c) && c.model()
                        == model,
                    None => dir.spec_get(key) is None,
                },
            ({
                let fs = failures_of(ls, 0);
                fs.len() == errs@.len() && (forall|j: int|
                    0 <= j < errs@.len() ==> {
                        let (lineno, kind) = fs[j];
                        (#[trigger] errs@[j]).0 == lineno && (match kind {
                            None => errs@[j].1 is NoValue,
                            Some((col, err)) => errs@[j].1 matches LineFailure::Compile(e)
                                && e.spec_err() == err && e.spec_file() == file@ && e.spec_line()
                                == lineno && e.spec_index() == col && e.spec_text() == ls[lineno],
                        })
                    })
            }),
        decreases n - i,
    {
        if i >= n {
            break ;
        }
        let ghost fs = failures_of(ls, 0);
        let ghost pre_errs = errs@;
        let line = &lines[i];
        proof {
            assert(ls[i as int] == lines@[i as int]@);
        }
        match compile_line(line.as_str(), file, i) {
            Ok(None) => {
                proof {
                    assert(good_line(ls[i as int]) is None);
                    assert(line_failure_of(ls[i as int]) is None);
                    lemma_last_good_skip(ls, i as int);
                }
            },
            Ok(Some((key, compiled))) => {
                proof {
                    assert(good_line(ls[i as int]) == Some((key@, compiled.model())));
                    assert(line_failure_of(ls[i as int]) is None);
                }
                let ghost old_dir = dir;
                dir.insert(key, compiled);
                proof {
                    assert forall|key2: Seq<char>|
                        match last_good(ls, i as int + 1, key2) {
                            Some(model) => #[trigger] dir.spec_get(key2) matches Some(c)
                                && c.model() == model,
                            None => dir.spec_get(key2) is None,
                        } by {
                        if split_on(key2, '.') == split_on(key@, '.') {
                            assert(dir.spec_get(key2) == dir.spec_get(key@));
                            assert(last_good(ls, i as int + 1, key2) == Some(compiled.model()));
                        } else {
                            assert(dir.spec_get(key2) == old_dir.spec_get(key2));
                            assert(last_good(ls, i as int + 1, key2) == last_good(
                                ls,
                                i as int,
                                key2,
                            ));
                        }
                    }
                }
            },
            Err(failure) => {
                errs.push((i, failure));
                proof {
                    let here = failures_of(ls, i as int);
                    assert(here == seq![(i as int, line_failure_of(ls[i as int]).unwrap())]
                        + failures_of(ls, i as int + 1));
                    assert(here[0] == (i as int, line_failure_of(ls[i as int]).unwrap()));
                    assert(fs[pre_errs.len() as int] == here[0]) by {
                        assert(fs.subrange(pre_errs.len() as int, fs.len() as int) == here);
                    }
                    let p = pre_errs.len() as int;
                    let fl = fs.len() as int;
                    let rest = failures_of(ls, i as int + 1);
                    assert forall|m: int| 0 <= m < rest.len() implies fs.subrange(p + 1, fl)[m]
                        == rest[m] by {
                        assert(fs.subrange(p, fl) == here);
                        assert(fs.subrange(p + 1, fl)[m] == fs[p + 1 + m]);
                        assert(fs.subrange(p, fl)[m + 1] == fs[p + 1 + m]);
                        assert(here[m + 1] == (seq![
                            (i as int, line_failure_of(ls[i as int]).unwrap()),
                        ] + rest)[m + 1]);
                    }
                    assert(fs.subrange(p + 1, fl) =~= rest) by {
                        assert(fs.subrange(p, fl) == here);
                    }
                }
            },
        }
        i = i + 1;
    }
    (dir, errs)
}

/// A line that stores nothing leaves the backward search alone.
proof fn lemma_last_good_skip(ls: Seq<Seq<char>>, i: int)
    requires
        0 <= i < ls.len(),
        good_line(ls[i]) is None,
    ensures
        forall|key: Seq<char>| last_good(ls, i + 1, key) == last_good(ls, i, key),
{
}


impl Compiled {
    /// Whether [`Compiled::compile`] may be called on `source`: tests,
    /// without dying, for the templates on which the legacy compiler died —
    /// it walks the same tokens and checks each read digit run against
    /// `usize`, tolerating oversized runs that no reached token reads.
    pub fn compile_panics_exec(source: &str) -> (b: bool)
        ensures
            b == spec_compile_panics(source@),
    {
        let len = source.unicode_len();
        let mut processor = CmdProcessor::new();
        let mut emitted: usize = 0;
        let mut i: usize = 0;
        loop
            invariant_except_break
                i <= len,
                len == source@.len(),
                processor.head >= 1,
                processor.last matches Some(l) ==> l >= 1,
                processor.head as int <= 1 + emitted,
                2 * emitted <= i,
                spec_compile_panics(source@) == spec_compile_panics_from(
                    source@,
                    i as int,
                    processor.state().0,
                    processor.state().1,
                ),
            ensures
                !spec_compile_panics(source@),
            decreases len - i,
        {
            if i >= len {
                break ;
            }
            let c = source.get_char(i);
            if c == '%' {
                let sub = source.substring_char(i, len);
                proof {
                    assert(sub@ == source@.subrange(i as int, len as int));
                }
                if FormatCommand::parse_panics_exec(sub) {
                    return true;
                }
                proof {
                    lemma_spec_parse_ok_facts(sub@);
                }
                match FormatCommand::parse(sub) {
                    Err(_) => {
                        return false;
                    },
                    Ok((n, cmd)) => {
                        if matches!(cmd.kind, Kind::Newline) || matches!(cmd.kind, Kind::Percent) {
                            i = i + n;
                        } else {
                            match processor.process(0, cmd) {
                                Err(_) => {
                                    return false;
                                },
                                Ok(_) => {
                                    emitted = emitted + 1;
                                    i = i + n;
                                },
                            }
                        }
                    },
                }
            } else {
                i = i + 1;
            }
        }
        false
    }
}

/// Whether [`compile_line`] and [`load_lines`] may be called on this line:
/// tests, without dying, for the lines on which the legacy loader died. A
/// digit run outside the format tokens of the value half never dies,
/// however large.
pub fn line_panics_exec(line: &str) -> (b: bool)
    ensures
        b == line_panics(line@),
{
    let len = line.unicode_len();
    if len == 0 || line.get_char(0) == '#' {
        return false;
    }
    let e1 = find_char_exec(line, 0, '=');
    if e1 == len {
        return false;
    }
    let e2 = find_char_exec(line, e1 + 1, '=');
    let value = line.substring_char(e1 + 1, e2);
    Compiled::compile_panics_exec(value)
}

} // verus!
