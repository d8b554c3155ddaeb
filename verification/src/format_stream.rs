use vstd::prelude::*;
use vstd::string::StringSliceAdditionalSpecFns;

verus! {

/// The syntactic role of a piece of code, by which a stream picks its
/// style.
pub enum HighlightGroup {
    Plain,
    Identifier,
    Keyword,
    NonterminalPathSegment,
    TerminalPathSegment,
    TypeName,
    Literal,
    Symbol,
    Attribute,
}

impl Clone for HighlightGroup {
    fn clone(&self) -> (r: Self)
        ensures
            r == *self,
    {
        match self {
            HighlightGroup::Plain => HighlightGroup::Plain,
            HighlightGroup::Identifier => HighlightGroup::Identifier,
            HighlightGroup::Keyword => HighlightGroup::Keyword,
            HighlightGroup::NonterminalPathSegment => HighlightGroup::NonterminalPathSegment,
            HighlightGroup::TerminalPathSegment => HighlightGroup::TerminalPathSegment,
            HighlightGroup::TypeName => HighlightGroup::TypeName,
            HighlightGroup::Literal => HighlightGroup::Literal,
            HighlightGroup::Symbol => HighlightGroup::Symbol,
            HighlightGroup::Attribute => HighlightGroup::Attribute,
        }
    }
}

impl Copy for HighlightGroup {

}

/// A stream of formatted code. What a stream does with what it is given is
/// its own matter, and a failure of any of its methods is handed on by the
/// methods that are built on them.
pub trait FormatStream {
    /// What the stream makes of what it is given: whether the stream `self`
    /// can become `after` when it is given `given`, with success where `ok`
    /// holds and with a failure else. A stream that says nothing of itself
    /// allows every outcome.
    open spec fn takes(&self, given: Given, ok: bool, after: &Self) -> bool {
        true
    }

    /// Takes a step of indent inwards.
    fn indent(&mut self) -> (r: Result<(), core::fmt::Error>)
        ensures
            old(self).takes(Given::Indent, r is Ok, final(self)),
    ;

    /// Takes a step of indent outwards.
    fn dedent(&mut self) -> (r: Result<(), core::fmt::Error>)
        ensures
            old(self).takes(Given::Dedent, r is Ok, final(self)),
    ;

    /// Takes a line break.
    fn newline(&mut self) -> (r: Result<(), core::fmt::Error>)
        ensures
            old(self).takes(Given::Newline, r is Ok, final(self)),
    ;

    /// Takes the code `code` in the role `highlight_group`. `code` holds no
    /// line break.
    fn process_code(&mut self, code: &str, highlight_group: HighlightGroup) -> (r: Result<
        (),
        core::fmt::Error,
    >)
        ensures
            old(self).takes(Given::Code(code@, highlight_group), r is Ok, final(self)),
    ;

    /// Takes `name` as an identifier.
    fn identifier(&mut self, name: &str) -> (r: Result<(), core::fmt::Error>)
        ensures
            old(self).takes(Given::Code(name@, HighlightGroup::Identifier), r is Ok, final(self)),
    {
        self.process_code(name, HighlightGroup::Identifier)
    }

    /// Takes `keyword` as a keyword.
    fn keyword(&mut self, keyword: &str) -> (r: Result<(), core::fmt::Error>)
        ensures
            old(self).takes(Given::Code(keyword@, HighlightGroup::Keyword), r is Ok, final(self)),
    {
        self.process_code(keyword, HighlightGroup::Keyword)
    }

    /// Takes `segment` as a segment of a path that is not its last.
    fn nonterminal_segment(&mut self, segment: &str) -> (r: Result<(), core::fmt::Error>)
        ensures
            old(self).takes(Given::Code(segment@, HighlightGroup::NonterminalPathSegment), r is Ok, final(self)),
    {
        self.process_code(segment, HighlightGroup::NonterminalPathSegment)
    }

    /// Takes `segment` as the last segment of a path.
    fn terminal_segment(&mut self, segment: &str) -> (r: Result<(), core::fmt::Error>)
        ensures
            old(self).takes(Given::Code(segment@, HighlightGroup::TerminalPathSegment), r is Ok, final(self)),
    {
        self.process_code(segment, HighlightGroup::TerminalPathSegment)
    }

    /// Takes `name` as the name of a type.
    fn name_of_type(&mut self, name: &str) -> (r: Result<(), core::fmt::Error>)
        ensures
            old(self).takes(Given::Code(name@, HighlightGroup::TypeName), r is Ok, final(self)),
    {
        self.process_code(name, HighlightGroup::TypeName)
    }

    /// Takes `literal` as a literal.
    fn literal(&mut self, literal: &str) -> (r: Result<(), core::fmt::Error>)
        ensures
            old(self).takes(Given::Code(literal@, HighlightGroup::Literal), r is Ok, final(self)),
    {
        self.process_code(literal, HighlightGroup::Literal)
    }

    /// Takes `symbol` as a symbol, in the role of a literal.
    fn symbol(&mut self, symbol: &str) -> (r: Result<(), core::fmt::Error>)
        ensures
            old(self).takes(Given::Code(symbol@, HighlightGroup::Literal), r is Ok, final(self)),
    {
        self.process_code(symbol, HighlightGroup::Literal)
    }

    /// Takes `attribute` as an attribute: a hash, an opening bracket, the
    /// attribute and a closing bracket, the brackets as symbols. The first
    /// of the four that fails ends the call, and its failure is handed on.
    fn attribute(&mut self, attribute: &str) -> (r: Result<(), core::fmt::Error>)
        ensures
            r is Ok ==> exists|first: &Self, second: &Self, third: &Self|
                #![trigger
                    old(self).takes(Given::Code("#"@, HighlightGroup::Attribute), true, first),
                    second.takes(Given::Code(attribute@, HighlightGroup::Attribute), true, third)
                ]
                {
                    &&& old(self).takes(Given::Code("#"@, HighlightGroup::Attribute), true, first)
                    &&& first.takes(Given::Code("["@, HighlightGroup::Literal), true, second)
                    &&& second.takes(Given::Code(attribute@, HighlightGroup::Attribute), true, third)
                    &&& third.takes(Given::Code("]"@, HighlightGroup::Literal), true, final(self))
                },
            r is Err ==> {
                ||| old(self).takes(
                    Given::Code("#"@, HighlightGroup::Attribute),
                    false,
                    final(self),
                )
                ||| exists|first: &Self|
                    {
                        &&& #[trigger] old(self).takes(
                            Given::Code("#"@, HighlightGroup::Attribute),
                            true,
                            first,
                        )
                        &&& first.takes(
                            Given::Code("["@, HighlightGroup::Literal),
                            false,
                            final(self),
                        )
                    }
                ||| exists|first: &Self, second: &Self|
                    {
                        &&& old(self).takes(
                            Given::Code("#"@, HighlightGroup::Attribute),
                            true,
                            first,
                        )
                        &&& #[trigger] first.takes(
                            Given::Code("["@, HighlightGroup::Literal),
                            true,
                            second,
                        )
                        &&& second.takes(
                            Given::Code(attribute@, HighlightGroup::Attribute),
                            false,
                            final(self),
                        )
                    }
                ||| exists|first: &Self, second: &Self, third: &Self|
                    #![trigger
                        old(self).takes(Given::Code("#"@, HighlightGroup::Attribute), true, first),
                        second.takes(Given::Code(attribute@, HighlightGroup::Attribute), true, third)
                    ]
                    {
                        &&& old(self).takes(
                            Given::Code("#"@, HighlightGroup::Attribute),
                            true,
                            first,
                        )
                        &&& first.takes(Given::Code("["@, HighlightGroup::Literal), true, second)
                        &&& second.takes(
                            Given::Code(attribute@, HighlightGroup::Attribute),
                            true,
                            third,
                        )
                        &&& third.takes(
                            Given::Code("]"@, HighlightGroup::Literal),
                            false,
                            final(self),
                        )
                    }
            },
    {
        self.process_code("#", HighlightGroup::Attribute)?;
        let ghost first: &Self = self;
        self.symbol("[")?;
        let ghost second: &Self = self;
        self.process_code(attribute, HighlightGroup::Attribute)?;
        let ghost third: &Self = self;
        let r = self.symbol("]");
        proof {
            assert(old(self).takes(Given::Code("#"@, HighlightGroup::Attribute), true, first));
            assert(first.takes(Given::Code("["@, HighlightGroup::Literal), true, second));
            assert(second.takes(Given::Code(attribute@, HighlightGroup::Attribute), true, third));
        }
        r
    }

    /// Takes a space, in no role.
    fn space(&mut self) -> (r: Result<(), core::fmt::Error>)
        ensures
            old(self).takes(Given::Code(" "@, HighlightGroup::Plain), r is Ok, final(self)),
    {
        self.process_code(" ", HighlightGroup::Plain)
    }
}

/// What a mark has saved: the line and its width, the indent, whether the
/// stream was committing, and whether the width limit had been exceeded.
pub struct Saved {
    pub line: nat,
    pub column: nat,
    pub indent_level: nat,
    pub should_commit: bool,
    pub width_limit_failure: bool,
}

/// What a stream is given: a step of indent in or out, a line break, or a
/// piece of code with its role.
pub enum Given {
    Indent,
    Dedent,
    Newline,
    Code(Seq<char>, HighlightGroup),
}

/// What a committing stream keeps track of: the step of its indent and its
/// indent, whether a line has just begun, whether it hands on what it is
/// given, the width limit and whether a line has exceeded it while nothing
/// was handed on, the width of each line, its marks, and all that it has
/// handed on to the stream below.
pub struct Tally {
    pub indent: nat,
    pub indent_level: nat,
    pub just_got_newline: bool,
    pub should_commit: bool,
    pub max_width: nat,
    pub width_limit_failure: bool,
    pub lines: Seq<nat>,
    pub marks: Seq<Saved>,
    pub sent: Seq<Given>,
}

impl Tally {
    /// There is a line, every mark was set on a line that is there, and
    /// later marks were set on later lines.
    pub open spec fn well_formed(self) -> bool {
        &&& self.lines.len() >= 1
        &&& forall|i: int| 0 <= i < self.marks.len() ==> (#[trigger] self.marks[i]).line
            < self.lines.len()
        &&& forall|i: int, j: int|
            0 <= i < j < self.marks.len() ==> (#[trigger] self.marks[i]).line <= (
            #[trigger] self.marks[j]).line
    }

    /// The width of the last line.
    pub open spec fn current_width(self) -> nat {
        self.lines.last()
    }

    /// The failure flag after a line has reached `width`: raised where
    /// nothing is handed on and the width exceeds the limit.
    pub open spec fn failure_at(self, width: nat) -> bool {
        self.width_limit_failure || (!self.should_commit && width > self.max_width)
    }

    /// The tally with a mark set at the end of the last line.
    pub open spec fn marked(self) -> Tally {
        Tally {
            marks: self.marks.push(
                Saved {
                    line: (self.lines.len() - 1) as nat,
                    column: self.lines.last(),
                    indent_level: self.indent_level,
                    should_commit: self.should_commit,
                    width_limit_failure: self.width_limit_failure,
                },
            ),
            ..self
        }
    }

    /// The tally as it was when the mark `mark` was set, without that mark
    /// and the marks after it.
    pub open spec fn returned_to(self, mark: nat) -> Tally {
        let saved = self.marks[mark as int];
        Tally {
            indent: self.indent,
            indent_level: saved.indent_level,
            just_got_newline: self.just_got_newline,
            should_commit: saved.should_commit,
            max_width: self.max_width,
            width_limit_failure: saved.width_limit_failure,
            lines: self.lines.subrange(0, saved.line as int + 1).update(
                saved.line as int,
                saved.column,
            ),
            marks: self.marks.subrange(0, mark as int),
            sent: self.sent,
        }
    }

    /// The tally that hands on what it is given and has seen no failure.
    pub open spec fn committing(self) -> Tally {
        Tally { should_commit: true, width_limit_failure: false, ..self }
    }

    /// The tally that hands nothing on.
    pub open spec fn holding(self) -> Tally {
        Tally { should_commit: false, ..self }
    }

    /// All that has been handed on to the stream below once `given` has
    /// gone through: a stream that is committing hands it on.
    pub open spec fn handed(self, given: Given) -> Seq<Given> {
        if self.should_commit {
            self.sent.push(given)
        } else {
            self.sent
        }
    }

    /// The tally one step deeper.
    pub open spec fn deeper(self) -> Tally {
        Tally {
            indent_level: self.indent_level + self.indent,
            width_limit_failure: self.failure_at(self.current_width()),
            sent: self.handed(Given::Indent),
            ..self
        }
    }

    /// The tally one step shallower.
    pub open spec fn shallower(self) -> Tally {
        Tally {
            indent_level: (self.indent_level - self.indent) as nat,
            sent: self.handed(Given::Dedent),
            ..self
        }
    }

    /// The tally on a new, empty line.
    pub open spec fn after_newline(self) -> Tally {
        Tally {
            just_got_newline: true,
            lines: self.lines.push(0),
            sent: self.handed(Given::Newline),
            ..self
        }
    }

    /// The width of the last line after code of `length` columns: on a line
    /// that has just begun the indent comes first.
    pub open spec fn width_after(self, length: nat) -> nat {
        if self.just_got_newline {
            self.lines.last() + self.indent_level + length
        } else {
            self.lines.last() + length
        }
    }

    /// The tally after the code `code` of the role `highlight_group`.
    pub open spec fn after_code(self, code: Seq<char>, highlight_group: HighlightGroup) -> Tally {
        let length = vstd::utf8::encode_utf8(code).len();
        Tally {
            just_got_newline: false,
            width_limit_failure: self.failure_at(self.width_after(length)),
            lines: self.lines.update(self.lines.len() - 1, self.width_after(length)),
            sent: self.handed(Given::Code(code, highlight_group)),
            ..self
        }
    }

    /// The tally after `given` has gone through the stream.
    pub open spec fn after(self, given: Given) -> Tally {
        match given {
            Given::Indent => self.deeper(),
            Given::Dedent => self.shallower(),
            Given::Newline => self.after_newline(),
            Given::Code(code, highlight_group) => self.after_code(code, highlight_group),
        }
    }

    /// Whether the stream can take `given`: the indent and the width of the
    /// line that come of it fit a machine word, and a step out has a step to
    /// take back.
    pub open spec fn accepts(self, given: Given) -> bool {
        match given {
            Given::Indent => self.indent_level + self.indent <= usize::MAX,
            Given::Dedent => self.indent_level >= self.indent,
            Given::Newline => true,
            Given::Code(code, _) => self.width_after(vstd::utf8::encode_utf8(code).len())
                <= usize::MAX,
        }
    }
}

struct ConcreteMark {
    line: usize,
    column: usize,
    indent_level: usize,
    should_commit: bool,
    width_limit_failure: bool,
}

impl View for ConcreteMark {
    type V = Saved;

    closed spec fn view(&self) -> Saved {
        Saved {
            line: self.line as nat,
            column: self.column as nat,
            indent_level: self.indent_level as nat,
            should_commit: self.should_commit,
            width_limit_failure: self.width_limit_failure,
        }
    }
}

/// A mark of a committing stream. Its view is its place among the marks of
/// the stream.
pub struct Mark(usize);

impl View for Mark {
    type V = nat;

    closed spec fn view(&self) -> nat {
        self.0 as nat
    }
}

impl Clone for Mark {
    fn clone(&self) -> (r: Self)
        ensures
            r == *self,
    {
        Mark(self.0)
    }
}

impl Copy for Mark {

}

/// A stream that keeps the width of every line it is given, and hands on
/// to the stream below only while it is committing. While it is not, it
/// notes whether a line has exceeded the width limit, so that a layout can
/// be tried, undone by a return to a mark, and then done for good.
pub struct CommitableFormatStream<'stream, F: FormatStream> {
    inner: &'stream mut F,
    indent: usize,
    indent_level: usize,
    just_got_newline: bool,
    should_commit: bool,
    max_width: usize,
    width_limit_failure: bool,
    lines: Vec<usize>,
    marks: Vec<ConcreteMark>,
    sent: Ghost<Seq<Given>>,
}

/// Calls `default` of `core::fmt::Error`, which gives the one value of that
/// type.
#[verifier::external_body]
fn format_error() -> core::fmt::Error {
    core::fmt::Error::default()
}

impl<'stream, F: FormatStream> View for CommitableFormatStream<'stream, F> {
    type V = Tally;

    closed spec fn view(&self) -> Tally {
        Tally {
            indent: self.indent as nat,
            indent_level: self.indent_level as nat,
            just_got_newline: self.just_got_newline,
            should_commit: self.should_commit,
            max_width: self.max_width as nat,
            width_limit_failure: self.width_limit_failure,
            lines: Seq::new(self.lines@.len(), |i: int| self.lines@[i] as nat),
            marks: Seq::new(self.marks@.len(), |i: int| self.marks@[i]@),
            sent: self.sent@,
        }
    }
}

impl<'stream, F: FormatStream> CommitableFormatStream<'stream, F> {
    /// The stream below.
    pub closed spec fn below(&self) -> &F {
        &*self.inner
    }

    /// A committing stream over `inner`, on its first line, which counts
    /// one column, with no indent and no mark.
    pub fn new_with_config(inner: &'stream mut F, indent: usize, max_width: usize) -> (r: Self)
        ensures
            r@ == (Tally {
                indent: indent as nat,
                indent_level: 0,
                just_got_newline: false,
                should_commit: true,
                max_width: max_width as nat,
                width_limit_failure: false,
                lines: seq![1nat],
                marks: Seq::empty(),
                sent: Seq::empty(),
            }),
            r@.well_formed(),
            *r.below() == *old(inner),
    {
        let mut lines: Vec<usize> = Vec::new();
        lines.push(1);
        let r = CommitableFormatStream {
            inner,
            indent,
            indent_level: 0,
            just_got_newline: false,
            should_commit: true,
            max_width,
            width_limit_failure: false,
            lines,
            marks: Vec::new(),
            sent: Ghost(Seq::empty()),
        };
        proof {
            assert(r@.lines =~= seq![1nat]);
            assert(r@.marks =~= Seq::empty());
        }
        r
    }

    /// The width of the last line.
    pub fn current_width(&self) -> (width: usize)
        requires
            self@.well_formed(),
        ensures
            width == self@.current_width(),
    {
        let last_line = self.lines.len() - 1;
        self.lines[last_line]
    }

    /// Sets a mark at the end of the last line, which saves the indent,
    /// whether the stream is committing and whether the width limit has been
    /// exceeded.
    pub fn push_mark(&mut self) -> (mark: Mark)
        requires
            old(self)@.well_formed(),
        ensures
            final(self)@ == old(self)@.marked(),
            final(self)@.well_formed(),
            final(self).below() == old(self).below(),
            mark@ == old(self)@.marks.len(),
    {
        let current_line = self.lines.len() - 1;
        let ghost before = self@;
        self.marks.push(
            ConcreteMark {
                line: current_line,
                column: self.lines[current_line],
                indent_level: self.indent_level,
                should_commit: self.should_commit,
                width_limit_failure: self.width_limit_failure,
            },
        );
        proof {
            assert(self@.marks =~= before.marked().marks);
            assert(self@.lines =~= before.lines);
        }
        Mark(self.marks.len() - 1)
    }

    /// Goes back to the mark `mark`: the lines after the line of the mark
    /// are dropped, that line has again the width it had, and the indent and
    /// the flags are as they were. The mark and the marks set after it are
    /// gone.
    pub fn return_to_mark(&mut self, mark: Mark)
        requires
            old(self)@.well_formed(),
            mark@ < old(self)@.marks.len(),
        ensures
            final(self)@ == old(self)@.returned_to(mark@),
            final(self)@.well_formed(),
            final(self).below() == old(self).below(),
    {
        let ghost before = self@;
        let mark_index = mark.0;
        proof {
            assert(before.marks[mark_index as int] == self.marks@[mark_index as int]@);
            assert(before.marks[mark_index as int].line < before.lines.len());
        }
        let line = self.marks[mark_index].line;
        let column = self.marks[mark_index].column;
        let indent_level = self.marks[mark_index].indent_level;
        let should_commit = self.marks[mark_index].should_commit;
        let width_limit_failure = self.marks[mark_index].width_limit_failure;
        let total = self.lines.len();
        proof {
            assert(line as nat == before.marks[mark_index as int].line);
            assert(before.lines.len() == total);
            assert(line < total);
        }
        self.marks.truncate(mark_index);
        self.lines.truncate(line + 1);
        self.lines[line] = column;
        self.indent_level = indent_level;
        self.should_commit = should_commit;
        self.width_limit_failure = width_limit_failure;
        proof {
            let wanted = before.returned_to(mark@);
            assert(self@.lines =~= wanted.lines);
            assert(self@.marks =~= wanted.marks);
            assert forall|i: int| 0 <= i < self@.marks.len() implies (#[trigger] self@.marks[i]).line
                < self@.lines.len() by {
                assert(self@.marks[i] == before.marks[i]);
                assert(before.marks[i].line <= before.marks[mark_index as int].line);
            }
            assert forall|i: int, j: int| 0 <= i < j < self@.marks.len() implies (
            #[trigger] self@.marks[i]).line <= (#[trigger] self@.marks[j]).line by {
                assert(self@.marks[i] == before.marks[i]);
                assert(self@.marks[j] == before.marks[j]);
            }
        }
    }

    /// From now on the stream hands on what it is given, and has seen no
    /// failure.
    pub fn enable_commit(&mut self)
        ensures
            final(self)@ == old(self)@.committing(),
            final(self).below() == old(self).below(),
    {
        self.should_commit = true;
        self.width_limit_failure = false;
    }

    /// From now on the stream hands nothing on.
    pub fn disable_commit(&mut self)
        ensures
            final(self)@ == old(self)@.holding(),
            final(self).below() == old(self).below(),
    {
        self.should_commit = false;
    }

    /// Whether a line has exceeded the width limit while nothing was handed
    /// on.
    pub fn width_limit_failure(&self) -> (failed: bool)
        ensures
            failed == self@.width_limit_failure,
    {
        self.width_limit_failure
    }

    /// Whether the stream hands on what it is given.
    pub fn is_committing(&self) -> (committing: bool)
        ensures
            committing == self@.should_commit,
    {
        self.should_commit
    }
}

impl<F: FormatStream> FormatStream for CommitableFormatStream<'_, F> {
    /// The stream keeps its tally well formed. Where it succeeds its tally
    /// is the one after `given`; where it fails, that one or the one
    /// before. While it hands nothing on, it succeeds on what its tally
    /// accepts and on nothing else.
    open spec fn takes(&self, given: Given, ok: bool, after: &Self) -> bool {
        &&& self@.well_formed() ==> after@.well_formed()
        &&& self@.well_formed() && ok ==> after@ == self@.after(given)
        &&& self@.well_formed() && !self@.should_commit ==> (ok <==> self@.accepts(given))
        &&& !ok ==> after@ == self@ || after@ == self@.after(given)
        &&& if self@.should_commit && after@ == self@.after(given) {
            self.below().takes(given, ok, after.below())
        } else {
            after.below() == self.below()
        }
    }

    /// One step deeper. A committing stream hands the step on; one that is
    /// not notes whether the last line exceeds the width limit. Fails where
    /// the indent does not fit a machine word.
    fn indent(&mut self) -> (r: Result<(), core::fmt::Error>)
        ensures
            old(self)@.well_formed() ==> final(self)@.well_formed(),
            old(self)@.well_formed() && r is Ok ==> final(self)@ == old(self)@.deeper(),
            old(self)@.well_formed() && !old(self)@.should_commit ==> (r is Ok
                <==> old(self)@.indent_level + old(self)@.indent <= usize::MAX),
            r is Err ==> final(self)@ == old(self)@ || final(self)@ == old(self)@.deeper(),
    {
        if self.lines.len() == 0 || self.indent > usize::MAX - self.indent_level {
            proof {
                assert(self@.after(Given::Indent).sent.len() == self@.handed(Given::Indent).len());
            }
            return Err(format_error());
        }
        let ghost before = self@;
        self.indent_level += self.indent;
        let last_line = self.lines.len() - 1;
        if self.should_commit {
            self.sent = Ghost(self.sent@.push(Given::Indent));
            proof {
                assert(self@.lines =~= before.lines);
                assert(self@.marks =~= before.marks);
            }
            self.inner.indent()
        } else {
            if self.lines[last_line] > self.max_width {
                self.width_limit_failure = true;
            }
            proof {
                assert(self@.lines =~= before.lines);
                assert(self@.marks =~= before.marks);
            }
            Ok(())
        }
    }

    /// One step shallower. A committing stream hands the step on. Fails
    /// where the indent holds less than a step.
    fn dedent(&mut self) -> (r: Result<(), core::fmt::Error>)
        ensures
            old(self)@.well_formed() ==> final(self)@.well_formed(),
            r is Ok ==> final(self)@ == old(self)@.shallower() && old(self)@.indent_level >= old(
                self,
            )@.indent,
            !old(self)@.should_commit ==> (r is Ok <==> old(self)@.indent_level >= old(
                self,
            )@.indent),
            r is Err ==> final(self)@ == old(self)@ || final(self)@ == old(self)@.shallower(),
    {
        if self.indent > self.indent_level {
            proof {
                assert(self@.after(Given::Dedent).sent.len() == self@.handed(Given::Dedent).len());
            }
            return Err(format_error());
        }
        let ghost before = self@;
        self.indent_level -= self.indent;
        if self.should_commit {
            self.sent = Ghost(self.sent@.push(Given::Dedent));
            proof {
                assert(self@.lines =~= before.lines);
                assert(self@.marks =~= before.marks);
            }
            self.inner.dedent()
        } else {
            proof {
                assert(self@.lines =~= before.lines);
                assert(self@.marks =~= before.marks);
            }
            Ok(())
        }
    }

    /// A new, empty line begins. A committing stream hands the line break
    /// on.
    fn newline(&mut self) -> (r: Result<(), core::fmt::Error>)
        ensures
            final(self)@ == old(self)@.after_newline(),
            old(self)@.well_formed() ==> final(self)@.well_formed(),
            !old(self)@.should_commit ==> r is Ok,
    {
        let ghost before = self@;
        self.just_got_newline = true;
        self.lines.push(0);
        if self.should_commit {
            self.sent = Ghost(self.sent@.push(Given::Newline));
            proof {
                assert(self@.lines =~= before.lines.push(0));
                assert(self@.marks =~= before.marks);
            }
            self.inner.newline()
        } else {
            proof {
                assert(self@.lines =~= before.lines.push(0));
                assert(self@.marks =~= before.marks);
            }
            Ok(())
        }
    }

    /// The last line grows by the length of `code`, after the indent where
    /// the line has just begun. A committing stream hands the code on; one
    /// that is not notes whether the line exceeds the width limit. Fails
    /// where the width of the line does not fit a machine word.
    fn process_code(&mut self, code: &str, highlight_group: HighlightGroup) -> (r: Result<
        (),
        core::fmt::Error,
    >)
        ensures
            old(self)@.well_formed() ==> final(self)@.well_formed(),
            old(self)@.well_formed() && r is Ok ==> final(self)@ == old(self)@.after_code(
                code@,
                highlight_group,
            ),
            old(self)@.well_formed() && !old(self)@.should_commit ==> (r is Ok <==> old(
                self,
            )@.width_after(code.spec_bytes().len()) <= usize::MAX),
            r is Err ==> final(self)@ == old(self)@ || final(self)@ == old(self)@.after_code(
                code@,
                highlight_group,
            ),
    {
        if self.lines.len() == 0 {
            proof {
                assert(self@.after(Given::Code(code@, highlight_group)).sent.len()
                    == self@.handed(Given::Code(code@, highlight_group)).len());
            }
            return Err(format_error());
        }
        let ghost before = self@;
        let last_line = self.lines.len() - 1;
        let length = code.as_bytes().len();
        let mut width = self.lines[last_line];
        proof {
            assert(before.lines.last() == width);
        }
        if self.just_got_newline {
            if self.indent_level > usize::MAX - width {
                proof {
                    assert(self@.after(Given::Code(code@, highlight_group)).sent.len()
                        == self@.handed(Given::Code(code@, highlight_group)).len());
                }
                return Err(format_error());
            }
            width += self.indent_level;
        }
        if length > usize::MAX - width {
            proof {
                assert(self@.after(Given::Code(code@, highlight_group)).sent.len()
                    == self@.handed(Given::Code(code@, highlight_group)).len());
            }
            return Err(format_error());
        }
        width += length;
        self.just_got_newline = false;
        self.lines[last_line] = width;
        if self.should_commit {
            self.sent = Ghost(self.sent@.push(Given::Code(code@, highlight_group)));
            proof {
                assert(self@.lines =~= before.after_code(code@, highlight_group).lines);
                assert(self@.marks =~= before.marks);
            }
            self.inner.process_code(code, highlight_group)
        } else {
            if width > self.max_width {
                self.width_limit_failure = true;
            }
            proof {
                assert(self@.lines =~= before.after_code(code@, highlight_group).lines);
                assert(self@.marks =~= before.marks);
            }
            Ok(())
        }
    }
}

} // verus!
