use crate::pretty_expressive::cost::Cost;
use crate::pretty_expressive::document::Tree;
use crate::pretty_expressive::frontier::lemma_merge_well_formed;
use crate::pretty_expressive::layout::{
    choiceless,
    followed,
    lifted_all,
    measured,
    measured_concat,
    pruned,
    resolved,
    resolved_concat,
    resolved_from,
    Lifting,
    Position,
};
use crate::pretty_expressive::lift::lemma_pruned_drawn;
use crate::pretty_expressive::measure::{Measured, MeasuredSet};
use crate::pretty_expressive::optimality::{
    layout_of,
    layout_of_all,
    lemma_concat_parts_sound,
    lemma_crossed_drawn,
    lemma_followed_from,
    lemma_members_are_realized,
    realized,
};
use crate::pretty_expressive::render::{
    blanks,
    column_after,
    laid_out,
    laid_out_all,
    lemma_column_after_blanks,
    lemma_column_after_both,
    lemma_column_after_text,
    lemma_space_is_one_byte,
    measure_is_where_the_text_ends,
    plain,
};
use crate::pretty_expressive::soundness::lemma_resolved_sound;
use vstd::prelude::*;
use vstd::utf8::encode_scalar;

verus! {

/// Every part of a document without choices, laid out at `at`, stays
/// inside the width limit: every text ends inside it, and at every line
/// break the column and the indent lie inside it.
pub open spec fn inside<C: Cost>(layout: Tree, at: Position, max_width: nat) -> bool
    decreases layout,
{
    match layout {
        Tree::Text(text) => at.column + crate::pretty_expressive::document::text_width(text)
            <= max_width && at.current_indent <= max_width,
        Tree::Newline => if at.should_flatten {
            at.column + 1 <= max_width && at.current_indent <= max_width
        } else {
            at.inside(max_width)
        },
        Tree::Concat(children) => inside_all::<C>(children, children.len(), at, max_width),
        Tree::Nest(amount, child) => inside::<C>(*child, at.nested(amount), max_width),
        Tree::Flatten(child) => inside::<C>(*child, at.flattened(), max_width),
        Tree::Union(first, _) => inside::<C>(*first, at, max_width),
    }
}

/// Every part of the first `count` of `children`, laid out one after the
/// other, stays inside the width limit.
pub open spec fn inside_all<C: Cost>(
    children: Seq<Tree>,
    count: nat,
    at: Position,
    max_width: nat,
) -> bool
    decreases children, count,
{
    if count == 0 || count > children.len() {
        at.inside(max_width)
    } else if count == 1 {
        inside::<C>(children[0], at, max_width)
    } else {
        inside_all::<C>(children, (count - 1) as nat, at, max_width) && inside::<C>(
            children[count - 1],
            at.at_column(
                measured_concat::<C>(children, (count - 1) as nat, at, max_width).last_line_width,
            ),
            max_width,
        )
    }
}

/// The widest column that `text` reaches from `column`.
pub open spec fn widest(column: nat, text: Seq<char>) -> nat
    decreases text.len(),
{
    if text.len() == 0 {
        column
    } else if text[0] == '\n' {
        if column >= widest(0, text.drop_first()) {
            column
        } else {
            widest(0, text.drop_first())
        }
    } else {
        widest(column + encode_scalar(text[0] as u32).len(), text.drop_first())
    }
}

proof fn lemma_widest_at_least(column: nat, text: Seq<char>)
    ensures
        widest(column, text) >= column,
        widest(column, text) >= column_after(column, text),
    decreases text.len(),
{
    if text.len() > 0 {
        if text[0] == '\n' {
            lemma_widest_at_least(0, text.drop_first());
        } else {
            lemma_widest_at_least(
                column + encode_scalar(text[0] as u32).len(),
                text.drop_first(),
            );
        }
    }
}

/// The widest column of two texts is the wider of the widest column of the
/// first and the widest column of the second from where the first ends.
pub proof fn lemma_widest_of_both(column: nat, first: Seq<char>, second: Seq<char>)
    ensures
        widest(column, first + second) == if widest(column, first) >= widest(
            column_after(column, first),
            second,
        ) {
            widest(column, first)
        } else {
            widest(column_after(column, first), second)
        },
    decreases first.len(),
{
    if first.len() == 0 {
        assert(first + second =~= second);
        lemma_widest_at_least(column, second);
    } else {
        assert((first + second).drop_first() =~= first.drop_first() + second);
        if first[0] == '\n' {
            lemma_widest_of_both(0, first.drop_first(), second);
        } else {
            lemma_widest_of_both(
                column + encode_scalar(first[0] as u32).len(),
                first.drop_first(),
                second,
            );
        }
    }
}

proof fn lemma_widest_of_text(column: nat, text: Seq<char>)
    requires
        !text.contains('\n'),
    ensures
        widest(column, text) == column_after(column, text),
    decreases text.len(),
{
    if text.len() > 0 {
        assert(text[0] != '\n');
        assert forall|i: int| 0 <= i < text.drop_first().len() implies text.drop_first()[i]
            != '\n' by {
            assert(text.drop_first()[i] == text[i + 1]);
        }
        lemma_widest_of_text(column + encode_scalar(text[0] as u32).len(), text.drop_first());
    }
}

proof fn lemma_blanks_are_plain(count: nat)
    ensures
        !blanks(count).contains('\n'),
{
}

/// No line of a layout that stays inside the width limit is wider than the
/// limit: laying out a document without choices, whose texts hold no line
/// break and whose parts all stay inside the limit, reaches no column
/// beyond it.
pub proof fn lemma_inside_layouts_fit_the_page<C: Cost>(
    layout: Tree,
    at: Position,
    max_width: nat,
)
    requires
        choiceless(layout),
        plain(layout),
        inside::<C>(layout, at, max_width),
    ensures
        widest(at.column, laid_out(layout, at.current_indent, at.should_flatten)) <= max_width,
    decreases layout,
{
    match layout {
        Tree::Text(text) => {
            lemma_widest_of_text(at.column, text);
            lemma_column_after_text(at.column, text);
        },
        Tree::Newline => {
            lemma_space_is_one_byte();
            if at.should_flatten {
                assert(seq![' '].drop_first() =~= Seq::<char>::empty());
                reveal_with_fuel(widest, 2);
            } else {
                let text = seq!['\n'] + blanks(at.current_indent);
                assert(text.drop_first() =~= blanks(at.current_indent));
                lemma_blanks_are_plain(at.current_indent);
                lemma_widest_of_text(0, blanks(at.current_indent));
                lemma_column_after_blanks(0, at.current_indent);
            }
        },
        Tree::Concat(children) => {
            lemma_all_inside_fit::<C>(children, children.len(), at, max_width);
        },
        Tree::Nest(amount, child) => {
            lemma_inside_layouts_fit_the_page::<C>(*child, at.nested(amount), max_width);
        },
        Tree::Flatten(child) => {
            lemma_inside_layouts_fit_the_page::<C>(*child, at.flattened(), max_width);
        },
        Tree::Union(_, _) => {},
    }
}

proof fn lemma_all_inside_fit<C: Cost>(
    children: Seq<Tree>,
    count: nat,
    at: Position,
    max_width: nat,
)
    requires
        count <= children.len(),
        forall|i: int| 0 <= i < children.len() ==> choiceless(#[trigger] children[i]),
        forall|i: int| 0 <= i < children.len() ==> plain(#[trigger] children[i]),
        inside_all::<C>(children, count, at, max_width),
    ensures
        widest(at.column, laid_out_all(children, count, at.current_indent, at.should_flatten))
            <= max_width,
        column_after(
            at.column,
            laid_out_all(children, count, at.current_indent, at.should_flatten),
        ) == if count == 0 {
            at.column
        } else {
            measured_concat::<C>(children, count, at, max_width).last_line_width
        },
    decreases children, count,
{
    if count == 0 {
    } else if count == 1 {
        lemma_inside_layouts_fit_the_page::<C>(children[0], at, max_width);
        measure_is_where_the_text_ends::<C>(children[0], at, max_width);
        assert(laid_out_all(children, 0, at.current_indent, at.should_flatten)
            =~= Seq::<char>::empty());
        assert(laid_out_all(children, 1, at.current_indent, at.should_flatten) =~= laid_out(
            children[0],
            at.current_indent,
            at.should_flatten,
        ));
    } else {
        let before = measured_concat::<C>(children, (count - 1) as nat, at, max_width);
        let place = at.at_column(before.last_line_width);
        let first = laid_out_all(
            children,
            (count - 1) as nat,
            at.current_indent,
            at.should_flatten,
        );
        let last = laid_out(children[count - 1], at.current_indent, at.should_flatten);
        lemma_all_inside_fit::<C>(children, (count - 1) as nat, at, max_width);
        lemma_inside_layouts_fit_the_page::<C>(children[count - 1], place, max_width);
        measure_is_where_the_text_ends::<C>(children[count - 1], place, max_width);
        lemma_widest_of_both(at.column, first, last);
        lemma_column_after_both(at.column, first, last);
    }
}

/// A layout of a document holds no choice, and no line break in a text
/// where the document holds none.
pub proof fn lemma_layouts_are_choiceless(layout: Tree, tree: Tree)
    requires
        layout_of(layout, tree),
    ensures
        choiceless(layout),
        plain(tree) ==> plain(layout),
    decreases tree,
{
    match tree {
        Tree::Text(_) => {},
        Tree::Newline => {},
        Tree::Concat(children) => {
            lemma_layouts_of_all_are_choiceless(layout, children, children.len());
        },
        Tree::Nest(amount, child) => {
            lemma_layouts_are_choiceless(*layout->Nest_1, *child);
        },
        Tree::Flatten(child) => {
            lemma_layouts_are_choiceless(*layout->Flatten_0, *child);
        },
        Tree::Union(first, second) => {
            if layout_of(layout, *first) {
                lemma_layouts_are_choiceless(layout, *first);
            } else {
                lemma_layouts_are_choiceless(layout, *second);
            }
        },
    }
}

proof fn lemma_layouts_of_all_are_choiceless(layout: Tree, children: Seq<Tree>, count: nat)
    requires
        layout_of_all(layout, children, count),
    ensures
        choiceless(layout),
        (forall|i: int| 0 <= i < children.len() ==> plain(#[trigger] children[i])) ==> plain(
            layout,
        ),
    decreases children, count,
{
    if count == 0 || count > children.len() {
    } else if count == 1 {
        lemma_layouts_are_choiceless(layout, children[0]);
    } else {
        let pair = layout->Concat_0;
        lemma_layouts_of_all_are_choiceless(pair[0], children, (count - 1) as nat);
        lemma_layouts_are_choiceless(pair[1], children[count - 1]);
        assert forall|i: int| 0 <= i < pair.len() implies choiceless(#[trigger] pair[i]) by {
            if i == 0 {
            } else {
                assert(i == 1);
            }
        }
        if forall|i: int| 0 <= i < children.len() ==> plain(#[trigger] children[i]) {
            assert forall|i: int| 0 <= i < pair.len() implies plain(#[trigger] pair[i]) by {
                if i == 0 {
                } else {
                    assert(i == 1);
                }
            }
        }
    }
}


proof fn lemma_pair_inside<C: Cost>(
    first: Measured<C, Tree>,
    last: Measured<C, Tree>,
    at: Position,
    max_width: nat,
)
    requires
        measured::<C>(first.document, at, max_width).last_line_width == first.last_line_width,
    ensures
        inside::<C>(Lifting::After(first).apply(last).document, at, max_width) == (inside::<C>(
            first.document,
            at,
            max_width,
        ) && inside::<C>(last.document, at.at_column(first.last_line_width), max_width)),
{
    let pair = seq![first.document, last.document];
    assert(pair[0] == first.document);
    assert(pair[1] == last.document);
    assert(measured_concat::<C>(pair, 1, at, max_width).last_line_width
        == first.last_line_width);
    assert(inside_all::<C>(pair, 1, at, max_width) == inside::<C>(first.document, at, max_width));
    assert(inside::<C>(Tree::Concat(pair), at, max_width) == inside_all::<C>(
        pair,
        2,
        at,
        max_width,
    ));
}

/// The documents of a clean set stay inside the width limit, and the
/// document of a tainted set does not.
pub proof fn lemma_members_are_inside<C: Cost>(tree: Tree, at: Position, max_width: nat, i: int)
    requires
        0 <= i < resolved::<C>(tree, at, max_width).members().len(),
    ensures
        inside::<C>(resolved::<C>(tree, at, max_width).members()[i].document, at, max_width)
            == (resolved::<C>(tree, at, max_width) is Clean),
    decreases tree,
{
    let set = resolved::<C>(tree, at, max_width);
    match tree {
        Tree::Text(_) => {},
        Tree::Newline => {},
        Tree::Concat(children) => {
            lemma_members_of_all_are_inside::<C>(children, children.len(), at, max_width, i);
        },
        Tree::Nest(amount, child) => {
            let inner = resolved::<C>(*child, at.nested(amount), max_width);
            lemma_members_are_inside::<C>(*child, at.nested(amount), max_width, i);
            assert(set.members()[i] == Lifting::<C>::Nest(amount).apply(inner.members()[i]));
        },
        Tree::Flatten(child) => {
            let inner = resolved::<C>(*child, at.flattened(), max_width);
            lemma_members_are_inside::<C>(*child, at.flattened(), max_width, i);
            assert(set.members()[i] == Lifting::<C>::Flatten.apply(inner.members()[i]));
        },
        Tree::Union(first, second) => {
            let a = resolved::<C>(*first, at, max_width);
            let b = resolved::<C>(*second, at, max_width);
            lemma_resolved_sound::<C>(*first, at, max_width);
            lemma_resolved_sound::<C>(*second, at, max_width);
            lemma_merge_well_formed(a, b);
            let m = set.members()[i];
            let from_first = match (a, b) {
                (MeasuredSet::Clean(_), MeasuredSet::Clean(_)) => a.members().contains(m),
                (MeasuredSet::Clean(_), MeasuredSet::Tainted(_)) => true,
                (MeasuredSet::Tainted(_), MeasuredSet::Clean(_)) => false,
                (MeasuredSet::Tainted(x), MeasuredSet::Tainted(y)) => m == x,
            };
            if from_first {
                if a is Clean && b is Tainted {
                    assert(a.members()[i] == m);
                }
                if a is Tainted {
                    assert(a.members()[0] == m);
                }
                let k = choose|k: int| 0 <= k < a.members().len() && a.members()[k] == m;
                lemma_members_are_inside::<C>(*first, at, max_width, k);
            } else {
                if a is Tainted && b is Clean {
                    assert(b.members()[i] == m);
                }
                if b is Tainted {
                    assert(b.members()[0] == m);
                }
                let k = choose|k: int| 0 <= k < b.members().len() && b.members()[k] == m;
                lemma_members_are_inside::<C>(*second, at, max_width, k);
            }
        },
    }
}

proof fn lemma_members_of_all_are_inside<C: Cost>(
    children: Seq<Tree>,
    count: nat,
    at: Position,
    max_width: nat,
    i: int,
)
    requires
        0 <= i < resolved_concat::<C>(children, count, at, max_width).members().len(),
    ensures
        inside::<C>(
            resolved_concat::<C>(children, count, at, max_width).members()[i].document,
            at,
            max_width,
        ) == (resolved_concat::<C>(children, count, at, max_width) is Clean),
    decreases children, count,
{
    let set = resolved_concat::<C>(children, count, at, max_width);
    if count == 0 || count > children.len() {
        let m = set.members()[i];
        assert(m.document == Tree::Concat(Seq::<Tree>::empty()));
        assert(inside::<C>(m.document, at, max_width) == inside_all::<C>(
            Seq::<Tree>::empty(),
            0,
            at,
            max_width,
        ));
    } else if count == 1 {
        lemma_members_are_inside::<C>(children[0], at, max_width, i);
    } else {
        let before = (count - 1) as nat;
        let so_far = resolved_concat::<C>(children, before, at, max_width);
        let child = children[count - 1];
        let next = resolved_from::<C>(child, at, max_width);
        lemma_concat_parts_sound::<C>(children, count, at, max_width);
        let m = set.members()[i];
        match so_far {
            MeasuredSet::Tainted(first) => {
                assert(so_far.members()[0] == first);
                let place = at.at_column(first.last_line_width);
                let following = resolved::<C>(child, place, max_width);
                let chosen = following.chosen();
                assert(following.members()[0] == chosen);
                lemma_members_of_all_are_inside::<C>(children, before, at, max_width, 0);
                lemma_prefix_width::<C>(children, before, at, max_width, 0);
                assert(m == Lifting::After(first).apply(chosen));
                lemma_pair_inside(first, chosen, at, max_width);
            },
            MeasuredSet::Clean(firsts) => {
                assert forall|k: int| 0 <= k < firsts.len() implies (#[trigger] followed(
                    firsts[k],
                    next(firsts[k].last_line_width),
                )).well_formed() by {
                    assert(so_far.members()[k] == firsts[k]);
                }
                let k = lemma_crossed_drawn(firsts, next, i);
                let first = firsts[k];
                assert(so_far.members()[k] == first);
                let place = at.at_column(first.last_line_width);
                let following = resolved::<C>(child, place, max_width);
                let j = lemma_followed_from(first, following, m);
                let last = following.members()[j];
                lemma_members_of_all_are_inside::<C>(children, before, at, max_width, k);
                lemma_members_are_inside::<C>(child, place, max_width, j);
                lemma_prefix_width::<C>(children, before, at, max_width, k);
                lemma_pair_inside(first, last, at, max_width);
            },
        }
    }
}

/// The document of a measure of the first children of a `Concat` ends where
/// the measure says.
proof fn lemma_prefix_width<C: Cost>(
    children: Seq<Tree>,
    count: nat,
    at: Position,
    max_width: nat,
    i: int,
)
    requires
        0 <= i < resolved_concat::<C>(children, count, at, max_width).members().len(),
    ensures
        measured::<C>(
            resolved_concat::<C>(children, count, at, max_width).members()[i].document,
            at,
            max_width,
        ).last_line_width == resolved_concat::<C>(
            children,
            count,
            at,
            max_width,
        ).members()[i].last_line_width,
{
    let tree = Tree::Concat(children.subrange(0, count as int));
    if count <= children.len() {
        lemma_concat_of_prefix::<C>(children, count, count, at, max_width);
        assert(resolved::<C>(tree, at, max_width) == resolved_concat::<C>(
            children,
            count,
            at,
            max_width,
        ));
        lemma_members_are_realized::<C>(tree, at, max_width, i);
    } else {
        let set = resolved_concat::<C>(children, count, at, max_width);
        assert(set.members()[i].document == Tree::Concat(Seq::<Tree>::empty()));
        assert(measured::<C>(Tree::Concat(Seq::<Tree>::empty()), at, max_width)
            == measured_concat::<C>(Seq::<Tree>::empty(), 0, at, max_width));
    }
}

/// Resolving the first children of a sequence does not look at the
/// children after them.
proof fn lemma_concat_of_prefix<C: Cost>(
    children: Seq<Tree>,
    upto: nat,
    count: nat,
    at: Position,
    max_width: nat,
)
    requires
        count <= upto <= children.len(),
    ensures
        resolved_concat::<C>(children.subrange(0, upto as int), count, at, max_width)
            == resolved_concat::<C>(children, count, at, max_width),
    decreases count,
{
    let front = children.subrange(0, upto as int);
    if count == 0 {
    } else if count == 1 {
        assert(front[0] == children[0]);
    } else {
        lemma_concat_of_prefix::<C>(children, upto, (count - 1) as nat, at, max_width);
        assert(front[count - 1] == children[count - 1]);
    }
}

/// Every line of a clean layout fits the page: the text of the document of
/// any measure of a clean set, laid out at the position of the set, reaches
/// no column beyond the width limit, where no text of the resolved document
/// holds a line break.
pub proof fn clean_layouts_fit_the_page<C: Cost>(tree: Tree, at: Position, max_width: nat, i: int)
    requires
        plain(tree),
        resolved::<C>(tree, at, max_width) is Clean,
        0 <= i < resolved::<C>(tree, at, max_width).members().len(),
    ensures
        widest(
            at.column,
            laid_out(
                resolved::<C>(tree, at, max_width).members()[i].document,
                at.current_indent,
                at.should_flatten,
            ),
        ) <= max_width,
{
    let measure = resolved::<C>(tree, at, max_width).members()[i];
    lemma_members_are_realized::<C>(tree, at, max_width, i);
    lemma_members_are_inside::<C>(tree, at, max_width, i);
    lemma_layouts_are_choiceless(measure.document, tree);
    lemma_inside_layouts_fit_the_page::<C>(measure.document, at, max_width);
}

} // verus!
