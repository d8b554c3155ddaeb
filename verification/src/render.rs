use crate::config::Config;
use crate::format_stream::{
    CommitableFormatStream, FormatStream, Given, HighlightGroup, Tally,
};
use vstd::prelude::*;
use vstd::string::{StringExecFns, StringSliceAdditionalSpecFns};

verus! {

/// `later` has the marks of `earlier` as its first marks, and its step of
/// indent and its width limit.
pub open spec fn continues(later: Tally, earlier: Tally) -> bool {
    &&& later.indent == earlier.indent
    &&& later.max_width == earlier.max_width
    &&& earlier.marks.len() <= later.marks.len()
    &&& forall|i: int| 0 <= i < earlier.marks.len() ==> later.marks[i] == earlier.marks[i]
}

/// A piece of code with its role.
pub struct Piece {
    pub code: String,
    pub highlight_group: HighlightGroup,
}

/// What a piece holds.
pub struct Shown {
    pub code: Seq<char>,
    pub highlight_group: HighlightGroup,
}

impl View for Piece {
    type V = Shown;

    open spec fn view(&self) -> Shown {
        Shown { code: self.code@, highlight_group: self.highlight_group }
    }
}

/// What the pieces hold.
pub open spec fn shown(pieces: Seq<Piece>) -> Seq<Shown> {
    Seq::new(pieces.len(), |i: int| pieces[i]@)
}

/// The segments from `from` up to the segment before that at `upto`, each
/// as a segment that is not the last and followed by `::`.
pub open spec fn leading_segments(segments: Seq<String>, from: nat, upto: nat) -> Seq<Shown>
    decreases upto,
{
    if upto <= from || upto > segments.len() {
        Seq::empty()
    } else {
        leading_segments(segments, from, (upto - 1) as nat) + seq![
            Shown {
                code: segments[upto - 1]@,
                highlight_group: HighlightGroup::NonterminalPathSegment,
            },
            Shown { code: "::"@, highlight_group: HighlightGroup::Literal },
        ]
    }
}

/// Where the segments of a path start that are shown as segments: after a
/// first segment `lib`.
pub open spec fn after_lib(segments: Seq<String>) -> nat {
    if segments.len() > 0 && segments[0]@ == "lib"@ {
        1
    } else {
        0
    }
}

/// Where the segment stands that is shown as the last one: two before the
/// end of the path, or where the shown segments start if that is later.
pub open spec fn shown_last(segments: Seq<String>) -> nat {
    if segments.len() >= 2 && after_lib(segments) < segments.len() - 2 {
        (segments.len() - 2) as nat
    } else {
        after_lib(segments)
    }
}

/// A path can be shown where it has a segment that is shown as the last
/// one.
pub open spec fn path_can_be_shown(segments: Seq<String>) -> bool {
    shown_last(segments) < segments.len()
}

/// The pieces of a path: the keyword `lib` for a first segment `lib`, the
/// segments up to the one shown as the last, each followed by `::`, and that
/// one.
pub open spec fn path_shown(segments: Seq<String>) -> Seq<Shown> {
    let lib = if after_lib(segments) == 1 {
        seq![Shown { code: "lib"@, highlight_group: HighlightGroup::Keyword }]
    } else {
        Seq::empty()
    };
    lib + leading_segments(segments, after_lib(segments), shown_last(segments)) + seq![
        Shown {
            code: segments[shown_last(segments) as int]@,
            highlight_group: HighlightGroup::TerminalPathSegment,
        },
    ]
}

/// The pieces of the path `segments`.
pub fn path_pieces(segments: &Vec<String>) -> (pieces: Vec<Piece>)
    requires
        path_can_be_shown(segments@),
    ensures
        shown(pieces@) == path_shown(segments@),
{
    let mut pieces: Vec<Piece> = Vec::new();
    let mut i: usize = 0;
    let lib = String::from_str("lib");
    if segments[0] == lib {
        pieces.push(Piece { code: lib, highlight_group: HighlightGroup::Keyword });
        i += 1;
    }
    let ghost start = shown(pieces@);
    let ghost from = i as nat;
    proof {
        assert(from == after_lib(segments@));
        assert(shown(pieces@) =~= start + leading_segments(segments@, from, i as nat));
    }
    if segments.len() >= 2 {
        while i < segments.len() - 2
            invariant
                segments.len() >= 2,
                from <= i,
                i <= segments.len() - 2 || i == from,
                shown(pieces@) == start + leading_segments(segments@, from, i as nat),
            decreases segments.len() - i,
        {
            let ghost before = shown(pieces@);
            pieces.push(
                Piece {
                    code: segments[i].clone(),
                    highlight_group: HighlightGroup::NonterminalPathSegment,
                },
            );
            pieces.push(
                Piece { code: String::from_str("::"), highlight_group: HighlightGroup::Literal },
            );
            i += 1;
            proof {
                assert(shown(pieces@) =~= before + seq![
                    Shown {
                        code: segments@[i - 1]@,
                        highlight_group: HighlightGroup::NonterminalPathSegment,
                    },
                    Shown { code: "::"@, highlight_group: HighlightGroup::Literal },
                ]);
                assert(shown(pieces@) =~= start + leading_segments(segments@, from, i as nat));
            }
        }
    }
    proof {
        assert(i == shown_last(segments@));
    }
    let ghost before = shown(pieces@);
    pieces.push(
        Piece { code: segments[i].clone(), highlight_group: HighlightGroup::TerminalPathSegment },
    );
    proof {
        assert(shown(pieces@) =~= before + seq![
            Shown { code: segments@[i as int]@, highlight_group: HighlightGroup::TerminalPathSegment },
        ]);
    }
    pieces
}

/// The tally after the first `count` of `pieces` went through the stream.
pub open spec fn after_pieces(tally: Tally, pieces: Seq<Shown>, count: nat) -> Tally
    decreases count,
{
    if count == 0 || count > pieces.len() {
        tally
    } else {
        after_pieces(tally, pieces, (count - 1) as nat).after_code(
            pieces[count - 1].code,
            pieces[count - 1].highlight_group,
        )
    }
}

/// Whether a stream at `tally` takes the first `count` of `pieces`, each
/// where the ones before it left the stream.
pub open spec fn pieces_fit(tally: Tally, pieces: Seq<Shown>, count: nat) -> bool
    decreases count,
{
    if count == 0 || count > pieces.len() {
        true
    } else {
        &&& pieces_fit(tally, pieces, (count - 1) as nat)
        &&& after_pieces(tally, pieces, (count - 1) as nat).accepts(
            Given::Code(pieces[count - 1].code, pieces[count - 1].highlight_group),
        )
    }
}

/// Where the stream takes many pieces, it takes the first of them.
pub proof fn lemma_fewer_pieces_fit(tally: Tally, pieces: Seq<Shown>, fewer: nat, count: nat)
    requires
        fewer <= count <= pieces.len(),
        pieces_fit(tally, pieces, count),
    ensures
        pieces_fit(tally, pieces, fewer),
    decreases count,
{
    if fewer < count {
        lemma_fewer_pieces_fit(tally, pieces, fewer, (count - 1) as nat);
    }
}

/// What stands around and between the parts of an enclosed list.
pub struct Frame {
    pub open_symbol: Option<Seq<char>>,
    pub close_symbol: Option<Seq<char>>,
    pub delimiter_symbol: Option<Seq<char>>,
    pub tall: bool,
    pub even_delimiter: bool,
    pub trailing_delimiter: bool,
}

/// The characters of a symbol, where there is one.
pub open spec fn seen(symbol: Option<&str>) -> Option<Seq<char>> {
    match symbol {
        Some(symbol) => Some(symbol@),
        None => None,
    }
}

/// The tally after the symbol `symbol`, where there is one.
pub open spec fn symbol_shown(tally: Tally, symbol: Option<Seq<char>>) -> Tally {
    match symbol {
        Some(symbol) => tally.after_code(symbol, HighlightGroup::Literal),
        None => tally,
    }
}

/// Whether a stream at `tally` takes the symbol `symbol`.
pub open spec fn symbol_fits(tally: Tally, symbol: Option<Seq<char>>) -> bool {
    match symbol {
        Some(symbol) => tally.accepts(Given::Code(symbol, HighlightGroup::Literal)),
        None => true,
    }
}

/// The tally before the delimiter itself: after a space where the
/// delimiter is even.
pub open spec fn evened(tally: Tally, even_delimiter: bool) -> Tally {
    if even_delimiter {
        tally.after_code(" "@, HighlightGroup::Plain)
    } else {
        tally
    }
}

/// The tally after a delimiter: nothing where there is no symbol for it,
/// else the symbol, after a space where the delimiter is even.
pub open spec fn delimited(tally: Tally, symbol: Option<Seq<char>>, even_delimiter: bool) -> Tally {
    match symbol {
        Some(symbol) => evened(tally, even_delimiter).after_code(symbol, HighlightGroup::Literal),
        None => tally,
    }
}

/// Whether a stream at `tally` takes a delimiter.
pub open spec fn delimiter_fits(
    tally: Tally,
    symbol: Option<Seq<char>>,
    even_delimiter: bool,
) -> bool {
    match symbol {
        Some(symbol) => {
            &&& even_delimiter ==> tally.accepts(Given::Code(" "@, HighlightGroup::Plain))
            &&& evened(tally, even_delimiter).accepts(Given::Code(symbol, HighlightGroup::Literal))
        },
        None => true,
    }
}

/// The tally before the first part: after the opening symbol and, in a tall
/// list, one step deeper on a new line.
pub open spec fn opened(tally: Tally, frame: Frame) -> Tally {
    let shown = symbol_shown(tally, frame.open_symbol);
    if frame.tall {
        shown.deeper().after_newline()
    } else {
        shown
    }
}

/// The tally before a later part, where `tally` is the one after the part
/// before it: after the delimiter and a new line in a tall list, after the
/// delimiter and a space else.
pub open spec fn parted(tally: Tally, frame: Frame) -> Tally {
    let delimited = delimited(tally, frame.delimiter_symbol, frame.even_delimiter);
    if frame.tall {
        delimited.after_newline()
    } else {
        delimited.after_code(" "@, HighlightGroup::Plain)
    }
}

/// The tally after the list, where `tally` is the one after its last part
/// or, without parts, after its opening: in a tall list after the trailing
/// delimiter where one is asked for, a new line and a step back; then after
/// the closing symbol.
pub open spec fn finished(tally: Tally, frame: Frame) -> Tally {
    let ended = if frame.tall {
        let trailed = if frame.trailing_delimiter {
            delimited(tally, frame.delimiter_symbol, false)
        } else {
            tally
        };
        trailed.after_newline().shallower()
    } else {
        tally
    };
    symbol_shown(ended, frame.close_symbol)
}

/// Whether a stream at `tally` takes the opening of the frame.
pub open spec fn opening_fits(tally: Tally, frame: Frame) -> bool {
    &&& symbol_fits(tally, frame.open_symbol)
    &&& frame.tall ==> symbol_shown(tally, frame.open_symbol).accepts(Given::Indent)
}

/// Whether a stream at `tally` takes the closing of the frame.
pub open spec fn closing_fits(tally: Tally, frame: Frame) -> bool {
    let trailed = if frame.tall && frame.trailing_delimiter {
        delimited(tally, frame.delimiter_symbol, false)
    } else {
        tally
    };
    let ended = if frame.tall {
        trailed.after_newline().shallower()
    } else {
        tally
    };
    &&& frame.tall && frame.trailing_delimiter ==> delimiter_fits(
        tally,
        frame.delimiter_symbol,
        false,
    )
    &&& frame.tall ==> trailed.after_newline().accepts(Given::Dedent)
    &&& symbol_fits(ended, frame.close_symbol)
}

/// Whether a stream at `tally` takes a frame without parts.
pub open spec fn empty_fits(tally: Tally, frame: Frame) -> bool {
    opening_fits(tally, frame) && closing_fits(opened(tally, frame), frame)
}

/// The tally before part `i`, where `states` holds the tallies after the
/// parts before it.
pub open spec fn before_part(start: Tally, states: Seq<Tally>, frame: Frame, i: int) -> Tally {
    if i <= 0 {
        opened(start, frame)
    } else {
        parted(states[i - 1], frame)
    }
}

/// `states` are the tallies after each of the parts `parts` of a list that
/// was rendered from `start` to `end`: each part was rendered with success
/// from where the frame had brought the stream and kept the marks, and the
/// frame was closed after the last.
pub open spec fn enclosed_through<R: RenderInContext>(
    start: Tally,
    end: Tally,
    parts: Seq<R>,
    frame: Frame,
    states: Seq<Tally>,
) -> bool {
    &&& states.len() == parts.len()
    &&& forall|i: int|
        0 <= i < parts.len() ==> {
            &&& (#[trigger] states[i]).well_formed()
            &&& continues(states[i], before_part(start, states, frame, i))
            &&& parts[i].renders(before_part(start, states, frame, i), true, states[i])
        }
    &&& end == finished(
        if parts.len() == 0 {
            opened(start, frame)
        } else {
            states[parts.len() - 1]
        },
        frame,
    )
}

/// The list of the parts `parts` was rendered in the frame `frame`, from
/// `start` to `end`.
pub open spec fn enclosed_from<R: RenderInContext>(
    start: Tally,
    end: Tally,
    parts: Seq<R>,
    frame: Frame,
) -> bool {
    exists|states: Seq<Tally>| #[trigger] enclosed_through(start, end, parts, frame, states)
}

/// What rendering a list makes of a stream: on success the list was
/// rendered from `before` to `after`, and a stream that hands nothing on
/// takes a list without parts where the frame fits and only there.
pub open spec fn enclosed_renders<R: RenderInContext>(
    parts: Seq<R>,
    frame: Frame,
    before: Tally,
    ok: bool,
    after: Tally,
) -> bool {
    &&& ok ==> enclosed_from(before, after, parts, frame)
    &&& parts.len() == 0 && !before.should_commit ==> (ok <==> empty_fits(before, frame))
}

/// What a trial of `trial` leaves that ended with success at `tried`. The
/// trial began at `start` with one more mark and nothing handed on. Where a
/// line of the trial was too wide the answer is `false` and the stream is
/// back at the mark; else it went back to the mark and `trial` was rendered
/// once more from there, with the answer `true` or with a failure.
pub open spec fn tried_from<R: RenderInContext>(
    trial: R,
    start: Tally,
    tried: Tally,
    r: Result<bool, core::fmt::Error>,
    end: Tally,
) -> bool {
    let mark = start.marks.len();
    &&& tried.well_formed()
    &&& continues(tried, start.marked().holding())
    &&& trial.renders(start.marked().holding(), true, tried)
    &&& match r {
        Ok(committed) => {
            &&& committed == !tried.width_limit_failure
            &&& if committed {
                trial.renders(tried.returned_to(mark), true, end)
            } else {
                end == tried.returned_to(mark)
            }
        },
        Err(_) => {
            &&& !tried.width_limit_failure
            &&& trial.renders(tried.returned_to(mark), false, end)
        },
    }
}

/// What rendering is done in: a committing stream and the settings.
pub struct Context<'stream, 'config, F: FormatStream> {
    f: CommitableFormatStream<'stream, F>,
    config: &'config Config,
}

/// Something that can be rendered into a stream.
pub trait RenderInContext {
    /// What rendering makes of a stream: whether a stream with the tally
    /// `before` can have the tally `after` once `self` was rendered into
    /// it, with success where `ok` holds and with a failure else. What says
    /// nothing of itself allows every outcome.
    open spec fn renders(&self, before: Tally, ok: bool, after: Tally) -> bool {
        true
    }

    /// Renders `self`. The marks that were set before stay set.
    fn render_in_context<F: FormatStream>(&self, context: &mut Context<'_, '_, F>) -> (r: Result<
        (),
        core::fmt::Error,
    >)
        requires
            old(context)@.well_formed(),
        ensures
            final(context)@.well_formed(),
            continues(final(context)@, old(context)@),
            self.renders(old(context)@, r is Ok, final(context)@),
    ;
}

/// How what stands between two symbols is laid out.
pub enum EnclosedRenderStyle {
    /// On the line of the symbols.
    Line,
    /// On lines of its own, one step deeper.
    Tall,
}

impl<'stream, 'config, F: FormatStream> View for Context<'stream, 'config, F> {
    type V = Tally;

    closed spec fn view(&self) -> Tally {
        self.f@
    }
}

/// What is rendered between two symbols, and how.
pub struct Enclosed<'a, R: RenderInContext> {
    pub open_symbol: Option<&'a str>,
    pub close_symbol: Option<&'a str>,
    pub enclosed: &'a Vec<R>,
    pub delimiter_symbol: Option<&'a str>,
    pub enclosed_render_style: EnclosedRenderStyle,
    pub even_delimiter: bool,
    pub trailing_delimiter: bool,
}

impl<'a, R: RenderInContext> Enclosed<'a, R> {
    /// What stands around and between the parts.
    pub open spec fn frame(&self) -> Frame {
        Frame {
            open_symbol: seen(self.open_symbol),
            close_symbol: seen(self.close_symbol),
            delimiter_symbol: seen(self.delimiter_symbol),
            tall: self.enclosed_render_style is Tall,
            even_delimiter: self.even_delimiter,
            trailing_delimiter: self.trailing_delimiter,
        }
    }
}

impl<'a, R: RenderInContext> RenderInContext for Enclosed<'a, R> {
    /// On success the parts were rendered in the frame of `self`.
    open spec fn renders(&self, before: Tally, ok: bool, after: Tally) -> bool {
        enclosed_renders(self.enclosed@, self.frame(), before, ok, after)
    }

    /// Renders the parts in the frame, in the style of `self`.
    fn render_in_context<F: FormatStream>(&self, context: &mut Context<'_, '_, F>) -> (r: Result<
        (),
        core::fmt::Error,
    >) {
        let tall = match self.enclosed_render_style {
            EnclosedRenderStyle::Line => false,
            EnclosedRenderStyle::Tall => true,
        };
        context.render_enclosed_in(
            self.open_symbol,
            self.close_symbol,
            self.enclosed,
            self.delimiter_symbol,
            tall,
            self.even_delimiter,
            self.trailing_delimiter,
        )
    }
}

proof fn lemma_continues_transitive(last: Tally, middle: Tally, first: Tally)
    requires
        continues(last, middle),
        continues(middle, first),
    ensures
        continues(last, first),
{
    assert forall|i: int| 0 <= i < first.marks.len() implies last.marks[i] == first.marks[i] by {
        assert(middle.marks[i] == first.marks[i]);
    }
}

/// What a list leaves that is rendered as it fits: a trial on one line
/// from `start`, with one more mark and nothing handed on, led to `tried`;
/// from the mark the list was rendered to `end`, tall where a line of the
/// trial was too wide and on one line else. `line` is the frame of the
/// list on one line.
pub open spec fn fitted_from<R: RenderInContext>(
    start: Tally,
    tried: Tally,
    end: Tally,
    parts: Seq<R>,
    line: Frame,
) -> bool {
    &&& enclosed_from(start.marked().holding(), tried, parts, line)
    &&& enclosed_from(
        tried.returned_to(start.marks.len()),
        end,
        parts,
        (Frame { tall: tried.width_limit_failure, ..line }),
    )
}

/// Whether a stream at `start` takes a list without parts that is rendered
/// as it fits: the trial on one line and, from the mark, the frame in the
/// style that the trial has chosen.
pub open spec fn empty_fitted(start: Tally, line: Frame) -> bool {
    let held = start.marked().holding();
    let tried = finished(opened(held, line), line);
    &&& empty_fits(held, line)
    &&& empty_fits(
        tried.returned_to(start.marks.len()),
        (Frame { tall: tried.width_limit_failure, ..line }),
    )
}

/// A tally that continues a trial begun at `start` still holds the mark of
/// the trial, and going back to it gives a tally that continues `start`.
proof fn lemma_trial_keeps(start: Tally, tried: Tally)
    requires
        start.well_formed(),
        tried.well_formed(),
        continues(tried, start.marked().holding()),
    ensures
        start.marks.len() < tried.marks.len(),
        continues(tried, start),
        tried.returned_to(start.marks.len()).marks == start.marks,
        continues(tried.returned_to(start.marks.len()), start),
{
    let held = start.marked().holding();
    let mark = start.marks.len() as int;
    assert(held.marks.len() == mark + 1);
    assert forall|i: int| 0 <= i < start.marks.len() implies tried.marks[i] == start.marks[i] by {
        assert(held.marks[i] == start.marks[i]);
    }
    assert(tried.returned_to(start.marks.len()).marks =~= start.marks);
}

impl<'stream, 'config, F: FormatStream> Context<'stream, 'config, F> {
    /// A context over the stream `f`, with the indent and the width limit
    /// of `config`.
    pub fn new(f: &'stream mut F, config: &'config Config) -> (r: Self)
        ensures
            r@ == (Tally {
                indent: config.indent@,
                indent_level: 0,
                just_got_newline: false,
                should_commit: true,
                max_width: config.max_width@,
                width_limit_failure: false,
                lines: seq![1nat],
                marks: Seq::empty(),
                sent: Seq::empty(),
            }),
            r@.well_formed(),
            r.settings() == *config,
    {
        let f = CommitableFormatStream::new_with_config(
            f,
            config.indent.get(),
            config.max_width.get(),
        );
        Context { f, config }
    }

    /// The stream of the context.
    pub fn stream(&mut self) -> (f: &mut CommitableFormatStream<'stream, F>)
        ensures
            f@ == old(self)@,
            final(self)@ == final(f)@,
    {
        &mut self.f
    }

    /// The settings of the context.
    pub closed spec fn settings(&self) -> Config {
        *self.config
    }

    /// The settings of the context.
    pub fn config(&self) -> (config: &'config Config)
        ensures
            *config == self.settings(),
    {
        self.config
    }

    /// Hands `code` to the stream.
    fn code(
        &mut self,
        code: &str,
        highlight_group: HighlightGroup,
        Ghost(start): Ghost<Tally>,
    ) -> (r: Result<(), core::fmt::Error>)
        requires
            old(self)@.well_formed(),
            continues(old(self)@, start),
        ensures
            final(self)@.well_formed(),
            continues(final(self)@, start),
            r is Ok ==> final(self)@ == old(self)@.after_code(code@, highlight_group),
            !old(self)@.should_commit ==> (r is Ok <==> old(self)@.accepts(
                Given::Code(code@, highlight_group),
            )),
            r is Err ==> final(self)@ == old(self)@ || final(self)@ == old(self)@.after_code(
                code@,
                highlight_group,
            ),
    {
        let r = self.f.process_code(code, highlight_group);
        proof {
            lemma_continues_transitive(self@, old(self)@, start);
        }
        r
    }

    /// Ends the line of the stream.
    fn line_break(&mut self, Ghost(start): Ghost<Tally>) -> (r: Result<(), core::fmt::Error>)
        requires
            old(self)@.well_formed(),
            continues(old(self)@, start),
        ensures
            final(self)@.well_formed(),
            continues(final(self)@, start),
            final(self)@ == old(self)@.after_newline(),
            !old(self)@.should_commit ==> r is Ok,
    {
        let r = self.f.newline();
        proof {
            lemma_continues_transitive(self@, old(self)@, start);
        }
        r
    }

    /// Takes the stream one step deeper, or one step back.
    fn step(&mut self, deeper: bool, Ghost(start): Ghost<Tally>) -> (r: Result<
        (),
        core::fmt::Error,
    >)
        requires
            old(self)@.well_formed(),
            continues(old(self)@, start),
        ensures
            final(self)@.well_formed(),
            continues(final(self)@, start),
            r is Ok ==> final(self)@ == if deeper {
                old(self)@.deeper()
            } else {
                old(self)@.shallower()
            },
            !old(self)@.should_commit ==> (r is Ok <==> old(self)@.accepts(
                if deeper {
                    Given::Indent
                } else {
                    Given::Dedent
                },
            )),
            r is Err ==> final(self)@ == old(self)@ || final(self)@ == if deeper {
                old(self)@.deeper()
            } else {
                old(self)@.shallower()
            },
    {
        let r = if deeper {
            self.f.indent()
        } else {
            self.f.dedent()
        };
        proof {
            lemma_continues_transitive(self@, old(self)@, start);
        }
        r
    }

    /// Renders `part` into the context.
    fn part<R: RenderInContext>(&mut self, part: &R, Ghost(start): Ghost<Tally>) -> (r: Result<
        (),
        core::fmt::Error,
    >)
        requires
            old(self)@.well_formed(),
            continues(old(self)@, start),
        ensures
            final(self)@.well_formed(),
            continues(final(self)@, old(self)@),
            continues(final(self)@, start),
            part.renders(old(self)@, r is Ok, final(self)@),
    {
        let r = part.render_in_context(self);
        proof {
            lemma_continues_transitive(self@, old(self)@, start);
        }
        r
    }

    /// Renders a delimiter: nothing where there is no symbol for it, else
    /// the symbol, after a space where `even_delimiter` holds.
    fn delimiter(
        &mut self,
        delimiter_symbol: Option<&str>,
        even_delimiter: bool,
        Ghost(start): Ghost<Tally>,
    ) -> (r: Result<(), core::fmt::Error>)
        requires
            old(self)@.well_formed(),
            continues(old(self)@, start),
        ensures
            final(self)@.well_formed(),
            continues(final(self)@, start),
            r is Ok ==> final(self)@ == delimited(
                old(self)@,
                seen(delimiter_symbol),
                even_delimiter,
            ),
            !old(self)@.should_commit ==> (r is Ok <==> delimiter_fits(
                old(self)@,
                seen(delimiter_symbol),
                even_delimiter,
            )),
            delimiter_symbol is None ==> r is Ok,
    {
        match delimiter_symbol {
            Some(symbol) => {
                if even_delimiter {
                    self.code(" ", HighlightGroup::Plain, Ghost(start))?;
                }
                self.code(symbol, HighlightGroup::Literal, Ghost(start))
            },
            None => Ok(()),
        }
    }

    /// Renders `enclosed` between the symbols `open_symbol` and
    /// `close_symbol`, with `delimiter_symbol` between its parts, after a
    /// space where `even_delimiter` holds: on one line with a space before
    /// each part but the first, or, where `tall` holds, one step deeper with
    /// each part on a line of its own and, where `trailing_delimiter` holds,
    /// a delimiter after the last part. A failure of the stream ends the
    /// rendering and is handed on.
    pub fn render_enclosed_in<R: RenderInContext>(
        &mut self,
        open_symbol: Option<&str>,
        close_symbol: Option<&str>,
        enclosed: &Vec<R>,
        delimiter_symbol: Option<&str>,
        tall: bool,
        even_delimiter: bool,
        trailing_delimiter: bool,
    ) -> (r: Result<(), core::fmt::Error>)
        requires
            old(self)@.well_formed(),
        ensures
            final(self)@.well_formed(),
            continues(final(self)@, old(self)@),
            enclosed_renders(
                enclosed@,
                (Frame {
                    open_symbol: seen(open_symbol),
                    close_symbol: seen(close_symbol),
                    delimiter_symbol: seen(delimiter_symbol),
                    tall,
                    even_delimiter,
                    trailing_delimiter,
                }),
                old(self)@,
                r is Ok,
                final(self)@,
            ),
    {
        let ghost start = self@;
        let ghost frame = Frame {
            open_symbol: seen(open_symbol),
            close_symbol: seen(close_symbol),
            delimiter_symbol: seen(delimiter_symbol),
            tall,
            even_delimiter,
            trailing_delimiter,
        };
        if let Some(symbol) = open_symbol {
            self.code(symbol, HighlightGroup::Literal, Ghost(start))?;
        }
        if tall {
            self.step(true, Ghost(start))?;
            self.line_break(Ghost(start))?;
        }
        let ghost mut states: Seq<Tally> = Seq::empty();
        let mut i: usize = 0;
        while i < enclosed.len()
            invariant
                i <= enclosed.len(),
                self@.well_formed(),
                continues(self@, start),
                start == old(self)@,
                frame == (Frame {
                    open_symbol: seen(open_symbol),
                    close_symbol: seen(close_symbol),
                    delimiter_symbol: seen(delimiter_symbol),
                    tall,
                    even_delimiter,
                    trailing_delimiter,
                }),
                states.len() == i,
                forall|k: int|
                    0 <= k < i ==> {
                        &&& (#[trigger] states[k]).well_formed()
                        &&& continues(states[k], before_part(start, states, frame, k))
                        &&& enclosed@[k].renders(
                            before_part(start, states, frame, k),
                            true,
                            states[k],
                        )
                    },
                self@ == if i == 0 {
                    opened(start, frame)
                } else {
                    states[i - 1]
                },
            decreases enclosed.len() - i,
        {
            if i > 0 {
                self.delimiter(delimiter_symbol, even_delimiter, Ghost(start))?;
                if tall {
                    self.line_break(Ghost(start))?;
                } else {
                    self.code(" ", HighlightGroup::Plain, Ghost(start))?;
                }
            }
            let ghost before = self@;
            proof {
                assert(before == before_part(start, states, frame, i as int));
            }
            self.part(&enclosed[i], Ghost(start))?;
            proof {
                let earlier = states;
                states = states.push(self@);
                assert forall|k: int| 0 <= k <= i implies {
                    &&& (#[trigger] states[k]).well_formed()
                    &&& continues(states[k], before_part(start, states, frame, k))
                    &&& enclosed@[k].renders(before_part(start, states, frame, k), true, states[k])
                } by {
                    if k < i {
                        assert(states[k] == earlier[k]);
                        assert(before_part(start, states, frame, k) == before_part(
                            start,
                            earlier,
                            frame,
                            k,
                        ));
                    } else {
                        assert(before_part(start, states, frame, k) == before);
                    }
                }
            }
            i += 1;
        }
        if tall {
            if trailing_delimiter {
                self.delimiter(delimiter_symbol, false, Ghost(start))?;
            }
            self.line_break(Ghost(start))?;
            self.step(false, Ghost(start))?;
        }
        if let Some(symbol) = close_symbol {
            self.code(symbol, HighlightGroup::Literal, Ghost(start))?;
        }
        proof {
            assert(enclosed_through(start, self@, enclosed@, frame, states));
        }
        Ok(())
    }

    /// Renders the pieces `pieces`, one after the other. A failure of the
    /// stream ends the rendering and is handed on; a stream that hands
    /// nothing on fails only on a piece that it cannot take.
    pub fn render_pieces(&mut self, pieces: &Vec<Piece>) -> (r: Result<(), core::fmt::Error>)
        requires
            old(self)@.well_formed(),
        ensures
            final(self)@.well_formed(),
            continues(final(self)@, old(self)@),
            r is Ok ==> final(self)@ == after_pieces(old(self)@, shown(pieces@), pieces@.len()),
            !old(self)@.should_commit ==> (r is Ok <==> pieces_fit(
                old(self)@,
                shown(pieces@),
                pieces@.len(),
            )),
            r is Err ==> exists|count: nat|
                count <= pieces@.len() && final(self)@ == #[trigger] after_pieces(
                    old(self)@,
                    shown(pieces@),
                    count,
                ),
    {
        let ghost start = self@;
        let ghost all = shown(pieces@);
        let mut i: usize = 0;
        while i < pieces.len()
            invariant
                i <= pieces.len(),
                self@.well_formed(),
                continues(self@, start),
                start == old(self)@,
                all == shown(pieces@),
                all.len() == pieces@.len(),
                self@ == after_pieces(start, all, i as nat),
                self@.should_commit == start.should_commit,
                !start.should_commit ==> pieces_fit(start, all, i as nat),
            decreases pieces.len() - i,
        {
            proof {
                assert(all[i as int] == pieces@[i as int]@);
            }
            let code = pieces[i].code.as_str();
            match self.code(code, pieces[i].highlight_group, Ghost(start)) {
                Err(error) => {
                    proof {
                        assert(self@ == after_pieces(start, all, i as nat) || self@
                            == after_pieces(start, all, (i + 1) as nat));
                        if !start.should_commit && pieces_fit(start, all, all.len()) {
                            lemma_fewer_pieces_fit(start, all, (i + 1) as nat, all.len());
                        }
                    }
                    return Err(error);
                },
                Ok(()) => {},
            }
            i += 1;
        }
        Ok(())
    }

    /// Renders the path `segments`: the pieces that `path_pieces` gives.
    pub fn render_path(&mut self, segments: &Vec<String>) -> (r: Result<(), core::fmt::Error>)
        requires
            old(self)@.well_formed(),
            path_can_be_shown(segments@),
        ensures
            final(self)@.well_formed(),
            continues(final(self)@, old(self)@),
            r is Ok ==> final(self)@ == after_pieces(
                old(self)@,
                path_shown(segments@),
                path_shown(segments@).len(),
            ),
            !old(self)@.should_commit ==> (r is Ok <==> pieces_fit(
                old(self)@,
                path_shown(segments@),
                path_shown(segments@).len(),
            )),
            r is Err ==> exists|count: nat|
                count <= path_shown(segments@).len() && final(self)@ == #[trigger] after_pieces(
                    old(self)@,
                    path_shown(segments@),
                    count,
                ),
    {
        let pieces = path_pieces(segments);
        self.render_pieces(&pieces)
    }

    /// Renders `enclosed` between two symbols in the style
    /// `enclosed_render_style`.
    pub fn render_enclosed<R: RenderInContext>(
        &mut self,
        open_symbol: Option<&str>,
        close_symbol: Option<&str>,
        enclosed: &Vec<R>,
        delimiter_symbol: Option<&str>,
        enclosed_render_style: EnclosedRenderStyle,
        even_delimiter: bool,
        trailing_delimiter: bool,
    ) -> (r: Result<(), core::fmt::Error>)
        requires
            old(self)@.well_formed(),
        ensures
            final(self)@.well_formed(),
            continues(final(self)@, old(self)@),
            enclosed_renders(
                enclosed@,
                (Frame {
                    open_symbol: seen(open_symbol),
                    close_symbol: seen(close_symbol),
                    delimiter_symbol: seen(delimiter_symbol),
                    tall: enclosed_render_style is Tall,
                    even_delimiter,
                    trailing_delimiter,
                }),
                old(self)@,
                r is Ok,
                final(self)@,
            ),
    {
        let tall = match enclosed_render_style {
            EnclosedRenderStyle::Line => false,
            EnclosedRenderStyle::Tall => true,
        };
        self.render_enclosed_in(
            open_symbol,
            close_symbol,
            enclosed,
            delimiter_symbol,
            tall,
            even_delimiter,
            trailing_delimiter,
        )
    }

    /// Tries `trial` without handing anything on. Where a line of the trial
    /// exceeds the width limit, the stream goes back to where it was and the
    /// answer is `false`; else the stream goes back, `trial` is rendered for
    /// good, and the answer is `true`. A failure of the stream ends the
    /// rendering and is handed on: that of the trial leaves the stream where
    /// the trial ended.
    pub fn try_commit<R: RenderInContext>(&mut self, trial: &R) -> (r: Result<
        bool,
        core::fmt::Error,
    >)
        requires
            old(self)@.well_formed(),
        ensures
            final(self)@.well_formed(),
            continues(final(self)@, old(self)@),
            ({
                ||| r is Err && trial.renders(old(self)@.marked().holding(), false, final(self)@)
                ||| exists|tried: Tally| #[trigger]
                    tried_from(*trial, old(self)@, tried, r, final(self)@)
            }),
            r == Ok::<bool, core::fmt::Error>(false) ==> {
                &&& final(self)@.marks == old(self)@.marks
                &&& final(self)@.indent_level == old(self)@.indent_level
                &&& final(self)@.should_commit == old(self)@.should_commit
                &&& final(self)@.width_limit_failure == old(self)@.width_limit_failure
                &&& final(self)@.lines.len() == old(self)@.lines.len()
                &&& final(self)@.current_width() == old(self)@.current_width()
            },
    {
        let ghost start = self@;
        let mark = self.f.push_mark();
        self.f.disable_commit();
        match trial.render_in_context(self) {
            Err(error) => {
                proof {
                    lemma_trial_keeps(start, self@);
                }
                return Err(error);
            },
            Ok(()) => {},
        }
        let ghost tried = self@;
        proof {
            lemma_trial_keeps(start, tried);
        }
        let failed = self.f.width_limit_failure();
        self.f.return_to_mark(mark);
        let ghost before = self@;
        if failed {
            proof {
                assert(tried_from(*trial, start, tried, Ok::<bool, core::fmt::Error>(false), self@));
            }
            Ok(false)
        } else {
            match trial.render_in_context(self) {
                Err(error) => {
                    proof {
                        lemma_continues_transitive(self@, before, start);
                        assert(tried_from(
                            *trial,
                            start,
                            tried,
                            Err::<bool, core::fmt::Error>(error),
                            self@,
                        ));
                    }
                    Err(error)
                },
                Ok(()) => {
                    proof {
                        lemma_continues_transitive(self@, before, start);
                        assert(tried_from(
                            *trial,
                            start,
                            tried,
                            Ok::<bool, core::fmt::Error>(true),
                            self@,
                        ));
                    }
                    Ok(true)
                },
            }
        }
    }

    /// Renders `enclosed` between two symbols on one line where that fits
    /// the width limit, and on lines of its own else: the list is tried on
    /// one line and, where a line of the trial was too wide, rendered tall
    /// from where the trial began.
    pub fn render_enclosed_auto<R: RenderInContext>(
        &mut self,
        open_symbol: Option<&str>,
        close_symbol: Option<&str>,
        enclosed: &Vec<R>,
        delimiter_symbol: Option<&str>,
        even_delimiter: bool,
        trailing_delimiter: bool,
    ) -> (r: Result<(), core::fmt::Error>)
        requires
            old(self)@.well_formed(),
        ensures
            final(self)@.well_formed(),
            continues(final(self)@, old(self)@),
            r is Ok ==> exists|tried: Tally| #[trigger]
                fitted_from(
                    old(self)@,
                    tried,
                    final(self)@,
                    enclosed@,
                    (Frame {
                        open_symbol: seen(open_symbol),
                        close_symbol: seen(close_symbol),
                        delimiter_symbol: seen(delimiter_symbol),
                        tall: false,
                        even_delimiter,
                        trailing_delimiter,
                    }),
                ),
            enclosed@.len() == 0 && !old(self)@.should_commit ==> (r is Ok <==> empty_fitted(
                old(self)@,
                (Frame {
                    open_symbol: seen(open_symbol),
                    close_symbol: seen(close_symbol),
                    delimiter_symbol: seen(delimiter_symbol),
                    tall: false,
                    even_delimiter,
                    trailing_delimiter,
                }),
            )),
    {
        let ghost start = self@;
        let ghost frame = Frame {
            open_symbol: seen(open_symbol),
            close_symbol: seen(close_symbol),
            delimiter_symbol: seen(delimiter_symbol),
            tall: false,
            even_delimiter,
            trailing_delimiter,
        };
        let on_one_line = Enclosed {
            open_symbol,
            close_symbol,
            enclosed,
            delimiter_symbol,
            enclosed_render_style: EnclosedRenderStyle::Line,
            even_delimiter,
            trailing_delimiter,
        };
        proof {
            assert(on_one_line.frame() == frame);
        }
        let committed = match self.try_commit(&on_one_line) {
            Err(error) => {
                return Err(error);
            },
            Ok(committed) => committed,
        };
        let ghost tried = choose|tried: Tally|
            tried_from(
                on_one_line,
                start,
                tried,
                Ok::<bool, core::fmt::Error>(committed),
                self@,
            );
        if committed {
            proof {
                assert(fitted_from(start, tried, self@, enclosed@, frame));
            }
            Ok(())
        } else {
            let ghost before = self@;
            let r = self.render_enclosed(
                open_symbol,
                close_symbol,
                enclosed,
                delimiter_symbol,
                EnclosedRenderStyle::Tall,
                even_delimiter,
                trailing_delimiter,
            );
            proof {
                lemma_continues_transitive(self@, before, start);
                if r is Ok {
                    assert(fitted_from(start, tried, self@, enclosed@, frame));
                }
            }
            r
        }
    }
}

} // verus!
