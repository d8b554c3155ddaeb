use vstd::prelude::*;

verus! {

/// The type `inform::fmt::IndentFormatter`: a writer over a formatter that
/// puts the spaces of its indent at the start of each line. Nothing is known
/// of its fields.
#[verifier::external_type_specification]
#[verifier::external_body]
pub struct ExIndentFormatter<'a, 'b: 'a>(inform::fmt::IndentFormatter<'a, 'b>);

/// The type `core::fmt::Error`: the failure of a formatter, which says
/// nothing more.
#[verifier::external_type_specification]
#[verifier::external_body]
pub struct ExFmtError(core::fmt::Error);

/// The text that has gone through the formatter into the stream below it.
pub uninterp spec fn written(f: inform::fmt::IndentFormatter) -> Seq<char>;

/// The number of spaces that the formatter puts at the start of a line.
pub uninterp spec fn indent_width(f: inform::fmt::IndentFormatter) -> nat;

/// The number of spaces of one level of indent.
pub uninterp spec fn indent_step(f: inform::fmt::IndentFormatter) -> nat;

/// Whether the last character that went through the formatter ended a line.
pub uninterp spec fn at_line_start(f: inform::fmt::IndentFormatter) -> bool;

/// `count` spaces.
pub open spec fn spaces(count: nat) -> Seq<char> {
    Seq::new(count, |i: int| ' ')
}

/// The text of a stream that held `text` before `more` went through a
/// formatter with the indent `indent`: before each character that follows
/// the end of a line come `indent` spaces.
pub open spec fn indented_text(text: Seq<char>, pending: bool, indent: nat, more: Seq<char>) -> Seq<
    char,
>
    decreases more.len(),
{
    if more.len() == 0 {
        text
    } else {
        let start = if pending {
            text + spaces(indent)
        } else {
            text
        };
        indented_text(start.push(more[0]), more[0] == '\n', indent, more.drop_first())
    }
}

/// Whether the formatter is at the start of a line after `more` went
/// through it.
pub open spec fn pending_after(pending: bool, more: Seq<char>) -> bool {
    if more.len() == 0 {
        pending
    } else {
        more.last() == '\n'
    }
}

/// Calls `write_str` of `inform::fmt::IndentFormatter`, which sends the
/// characters of `text` one by one to the stream below, each one that
/// follows the end of a line after the spaces of the current indent. The
/// indent and its step stay as they are. Where the stream fails the call
/// fails, and what has been written is not known. With no character to
/// send, nothing reaches the stream and the call succeeds.
#[verifier::external_body]
pub(crate) fn emit(f: &mut inform::fmt::IndentFormatter, text: &str) -> (r: Result<
    (),
    core::fmt::Error,
>)
    ensures
        indent_width(*final(f)) == indent_width(*old(f)),
        indent_step(*final(f)) == indent_step(*old(f)),
        r is Ok ==> written(*final(f)) == indented_text(
            written(*old(f)),
            at_line_start(*old(f)),
            indent_width(*old(f)),
            text@,
        ),
        r is Ok ==> at_line_start(*final(f)) == pending_after(at_line_start(*old(f)), text@),
        text@.len() == 0 ==> r is Ok,
{
    core::fmt::Write::write_str(f, text)
}

/// Calls `increase_indent` of `inform::fmt::IndentFormatter`, which adds
/// one step of spaces to the indent and writes nothing.
#[verifier::external_body]
pub(crate) fn increase_indent(f: &mut inform::fmt::IndentFormatter)
    ensures
        indent_width(*final(f)) == indent_width(*old(f)) + indent_step(*old(f)),
        indent_step(*final(f)) == indent_step(*old(f)),
        written(*final(f)) == written(*old(f)),
        at_line_start(*final(f)) == at_line_start(*old(f)),
{
    f.increase_indent()
}

/// Calls `decrease_indent` of `inform::fmt::IndentFormatter`, which takes
/// one step of spaces from the indent, or all of it where it holds less,
/// and writes nothing.
#[verifier::external_body]
pub(crate) fn decrease_indent(f: &mut inform::fmt::IndentFormatter)
    ensures
        indent_width(*final(f)) == if indent_width(*old(f)) >= indent_step(*old(f)) {
            indent_width(*old(f)) - indent_step(*old(f))
        } else {
            0
        },
        indent_step(*final(f)) == indent_step(*old(f)),
        written(*final(f)) == written(*old(f)),
        at_line_start(*final(f)) == at_line_start(*old(f)),
{
    f.decrease_indent()
}

/// What is known of a formatter: the text that has gone through it, whether
/// it is at the start of a line, its indent, and the step of its indent.
pub struct Page {
    pub text: Seq<char>,
    pub at_line_start: bool,
    pub indent: nat,
    pub step: nat,
}

/// What is known of the formatter `f`.
pub open spec fn page_of(f: inform::fmt::IndentFormatter) -> Page {
    Page {
        text: written(f),
        at_line_start: at_line_start(f),
        indent: indent_width(f),
        step: indent_step(f),
    }
}

impl Page {
    /// The page after `more` went through the formatter.
    pub open spec fn wrote(self, more: Seq<char>) -> Page {
        Page {
            text: indented_text(self.text, self.at_line_start, self.indent, more),
            at_line_start: pending_after(self.at_line_start, more),
            indent: self.indent,
            step: self.step,
        }
    }

    /// The page with one more step of indent.
    pub open spec fn deeper(self) -> Page {
        Page {
            text: self.text,
            at_line_start: self.at_line_start,
            indent: self.indent + self.step,
            step: self.step,
        }
    }

    /// The page with one step of indent less, or with none where it has
    /// less than a step.
    pub open spec fn shallower(self) -> Page {
        Page {
            text: self.text,
            at_line_start: self.at_line_start,
            indent: if self.indent >= self.step {
                (self.indent - self.step) as nat
            } else {
                0
            },
            step: self.step,
        }
    }
}

} // verus!
