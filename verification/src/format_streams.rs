use crate::format_stream::HighlightGroup;
use vstd::prelude::*;
use vstd::string::StringExecFns;

verus! {

/// The styles of a theme.
pub enum ThemeSlot {
    Reset,
    Identifier,
    Keyword,
    SelfRelated,
    NonterminalPathSegment,
    TerminalPathSegment,
    TypeName,
    Symbol,
    Literal,
    Attribute,
}

/// The style of the code `code` of the role `highlight_group`: the style of
/// the role, but for the keyword `self` and the type name `Self`, which have
/// a style of their own.
pub open spec fn slot_for(code: Seq<char>, highlight_group: HighlightGroup) -> ThemeSlot {
    match highlight_group {
        HighlightGroup::Plain => ThemeSlot::Reset,
        HighlightGroup::Identifier => ThemeSlot::Identifier,
        HighlightGroup::Keyword => if code == "self"@ {
            ThemeSlot::SelfRelated
        } else {
            ThemeSlot::Keyword
        },
        HighlightGroup::NonterminalPathSegment => ThemeSlot::NonterminalPathSegment,
        HighlightGroup::TerminalPathSegment => ThemeSlot::TerminalPathSegment,
        HighlightGroup::TypeName => if code == "Self"@ {
            ThemeSlot::SelfRelated
        } else {
            ThemeSlot::TypeName
        },
        HighlightGroup::Literal => ThemeSlot::Literal,
        HighlightGroup::Symbol => ThemeSlot::Symbol,
        HighlightGroup::Attribute => ThemeSlot::Attribute,
    }
}

fn same_text(a: &str, b: &str) -> (r: bool)
    ensures
        r == (a@ == b@),
{
    String::from_str(a) == String::from_str(b)
}

impl ThemeSlot {
    /// The style of the code `code` of the role `highlight_group`.
    pub fn color_for(code: &str, highlight_group: HighlightGroup) -> (slot: ThemeSlot)
        ensures
            slot == slot_for(code@, highlight_group),
    {
        match highlight_group {
            HighlightGroup::Plain => ThemeSlot::Reset,
            HighlightGroup::Identifier => ThemeSlot::Identifier,
            HighlightGroup::Keyword => {
                if same_text(code, "self") {
                    ThemeSlot::SelfRelated
                } else {
                    ThemeSlot::Keyword
                }
            },
            HighlightGroup::NonterminalPathSegment => ThemeSlot::NonterminalPathSegment,
            HighlightGroup::TerminalPathSegment => ThemeSlot::TerminalPathSegment,
            HighlightGroup::TypeName => {
                if same_text(code, "Self") {
                    ThemeSlot::SelfRelated
                } else {
                    ThemeSlot::TypeName
                }
            },
            HighlightGroup::Literal => ThemeSlot::Literal,
            HighlightGroup::Symbol => ThemeSlot::Symbol,
            HighlightGroup::Attribute => ThemeSlot::Attribute,
        }
    }
}

} // verus!
