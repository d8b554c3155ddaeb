use crate::pretty_expressive::cost::Cost;
use crate::pretty_expressive::document::{text_width, Tree};
use crate::pretty_expressive::measure::{merge, Measured, MeasuredSet};
use vstd::prelude::*;

verus! {

/// Where a document is laid out: the column at which it starts, the indent
/// that follows a line break, and whether an enclosing `Flatten` is in
/// effect.
pub struct Position {
    pub column: nat,
    pub current_indent: nat,
    pub should_flatten: bool,
}

impl Position {
    /// The same position at another column.
    pub open spec fn at_column(self, column: nat) -> Position {
        Position { column, current_indent: self.current_indent, should_flatten: self.should_flatten }
    }

    /// The same position with the indent raised by `amount`.
    pub open spec fn nested(self, amount: nat) -> Position {
        Position {
            column: self.column,
            current_indent: self.current_indent + amount,
            should_flatten: self.should_flatten,
        }
    }

    /// The same position inside a `Flatten`.
    pub open spec fn flattened(self) -> Position {
        Position { column: self.column, current_indent: self.current_indent, should_flatten: true }
    }

    /// Neither the column nor the indent lies past `max_width`.
    pub open spec fn inside(self, max_width: nat) -> bool {
        self.column <= max_width && self.current_indent <= max_width
    }
}

/// The set of one measure: clean where `clean` holds, else tainted.
pub open spec fn single<C, D>(clean: bool, measure: Measured<C, D>) -> MeasuredSet<C, D> {
    if clean {
        MeasuredSet::Clean(seq![measure])
    } else {
        MeasuredSet::Tainted(measure)
    }
}

/// What is done to each measure of a child to get a measure of its parent.
pub enum Lifting<C> {
    /// The document is wrapped in a `Nest` of this amount.
    Nest(nat),
    /// The document is wrapped in a `Flatten`.
    Flatten,
    /// The layout follows this one: its cost is added to the cost of this
    /// one, and its document joined to the document of this one.
    After(Measured<C, Tree>),
}

impl<C: Cost> Lifting<C> {
    /// The measure of the parent from the measure `measure` of the child.
    pub open spec fn apply(self, measure: Measured<C, Tree>) -> Measured<C, Tree> {
        match self {
            Lifting::Nest(amount) => Measured {
                last_line_width: measure.last_line_width,
                cost: measure.cost,
                document: Tree::Nest(amount, Box::new(measure.document)),
            },
            Lifting::Flatten => Measured {
                last_line_width: measure.last_line_width,
                cost: measure.cost,
                document: Tree::Flatten(Box::new(measure.document)),
            },
            Lifting::After(first) => Measured {
                last_line_width: measure.last_line_width,
                cost: first.cost.plus(measure.cost),
                document: Tree::Concat(seq![first.document, measure.document]),
            },
        }
    }
}

/// The measures with `by` applied to each.
pub open spec fn lifted_all<C: Cost>(measures: Seq<Measured<C, Tree>>, by: Lifting<C>) -> Seq<
    Measured<C, Tree>,
> {
    Seq::new(measures.len(), |i: int| by.apply(measures[i]))
}

/// The set with `by` applied to each of its measures.
pub open spec fn lifted<C: Cost>(set: MeasuredSet<C, Tree>, by: Lifting<C>) -> MeasuredSet<
    C,
    Tree,
> {
    match set {
        MeasuredSet::Clean(measures) => MeasuredSet::Clean(lifted_all(measures, by)),
        MeasuredSet::Tainted(measure) => MeasuredSet::Tainted(by.apply(measure)),
    }
}

/// The measures without those that cost no less than the measure after
/// them, which is narrower.
pub open spec fn pruned<C: Cost, D>(measures: Seq<Measured<C, D>>) -> Seq<Measured<C, D>>
    decreases measures.len(),
{
    if measures.len() <= 1 {
        measures
    } else if measures[1].cost.le(measures[0].cost) {
        pruned(measures.drop_first())
    } else {
        seq![measures[0]] + pruned(measures.drop_first())
    }
}

/// The layouts of a document that follows the layout `first`, from the
/// layouts `next` of that document at the column where `first` ends.
pub open spec fn followed<C: Cost>(
    first: Measured<C, Tree>,
    next: MeasuredSet<C, Tree>,
) -> MeasuredSet<C, Tree> {
    match next {
        MeasuredSet::Clean(measures) => MeasuredSet::Clean(
            pruned(lifted_all(measures, Lifting::After(first))),
        ),
        MeasuredSet::Tainted(measure) => MeasuredSet::Tainted(Lifting::After(first).apply(measure)),
    }
}

/// The merge, from the first on, of what follows each of `firsts`, where
/// `next` gives the layouts of the following document for each column.
pub open spec fn crossed<C: Cost>(
    firsts: Seq<Measured<C, Tree>>,
    next: spec_fn(nat) -> MeasuredSet<C, Tree>,
) -> MeasuredSet<C, Tree>
    decreases firsts.len(),
{
    if firsts.len() == 0 {
        MeasuredSet::Clean(Seq::empty())
    } else if firsts.len() == 1 {
        followed(firsts[0], next(firsts[0].last_line_width))
    } else {
        merge(
            crossed(firsts.drop_last(), next),
            followed(firsts.last(), next(firsts.last().last_line_width)),
        )
    }
}

/// The layouts of a sequence of documents from the layouts `so_far` of all
/// but the last and the layouts `next` of the last for each column. After a
/// tainted layout comes the chosen layout of the last document, tainted.
pub open spec fn extended<C: Cost>(
    so_far: MeasuredSet<C, Tree>,
    next: spec_fn(nat) -> MeasuredSet<C, Tree>,
) -> MeasuredSet<C, Tree> {
    match so_far {
        MeasuredSet::Clean(firsts) => crossed(firsts, next),
        MeasuredSet::Tainted(first) => MeasuredSet::Tainted(
            Lifting::After(first).apply(next(first.last_line_width).chosen()),
        ),
    }
}

/// The layouts of `tree` at `at` that are worth keeping when lines should
/// not exceed `max_width`.
///
/// A text and a line break have one layout, clean where it stays inside the
/// width limit. A `Concat` is resolved from its first child on: each layout
/// of the children so far is followed by the layouts of the next child at
/// the column where it ends. `Nest` and `Flatten` resolve their child at the
/// changed position and wrap its documents. A `Union` merges the layouts of
/// its two branches.
pub open spec fn resolved<C: Cost>(tree: Tree, at: Position, max_width: nat) -> MeasuredSet<
    C,
    Tree,
>
    decreases tree, 0nat,
{
    match tree {
        Tree::Text(text) => single(
            at.column + text_width(text) <= max_width && at.current_indent <= max_width,
            Measured {
                last_line_width: at.column + text_width(text),
                cost: C::text(at.column, text_width(text), max_width),
                document: tree,
            },
        ),
        Tree::Newline => if at.should_flatten {
            single(
                at.column + 1 <= max_width && at.current_indent <= max_width,
                Measured {
                    last_line_width: at.column + 1,
                    cost: C::text(at.column, 1, max_width),
                    document: tree,
                },
            )
        } else {
            single(
                at.inside(max_width),
                Measured { last_line_width: at.current_indent, cost: C::newline(), document: tree },
            )
        },
        Tree::Concat(children) => resolved_concat(children, children.len(), at, max_width),
        Tree::Nest(amount, child) => lifted(
            resolved(*child, at.nested(amount), max_width),
            Lifting::Nest(amount),
        ),
        Tree::Flatten(child) => lifted(
            resolved(*child, at.flattened(), max_width),
            Lifting::Flatten,
        ),
        Tree::Union(first, second) => merge(
            resolved(*first, at, max_width),
            resolved(*second, at, max_width),
        ),
    }
}

/// The layouts of the first `count` of `children`, one after the other. No
/// child is laid out as empty text; one child as itself.
pub open spec fn resolved_concat<C: Cost>(
    children: Seq<Tree>,
    count: nat,
    at: Position,
    max_width: nat,
) -> MeasuredSet<C, Tree>
    decreases children, count,
{
    if count == 0 || count > children.len() {
        single(
            at.inside(max_width),
            Measured {
                last_line_width: at.column,
                cost: C::text(at.column, 0, max_width),
                document: Tree::Concat(Seq::empty()),
            },
        )
    } else if count == 1 {
        resolved(children[0], at, max_width)
    } else {
        extended(
            resolved_concat(children, (count - 1) as nat, at, max_width),
            resolved_from(children[count - 1], at, max_width),
        )
    }
}

/// The layouts of `tree` at each column of the line of `at`.
pub open spec fn resolved_from<C: Cost>(tree: Tree, at: Position, max_width: nat) -> spec_fn(
    nat,
) -> MeasuredSet<C, Tree>
    decreases tree, 1nat,
{
    |column: nat| resolved(tree, at.at_column(column), max_width)
}

/// The one layout of a document without choices: where its last line ends,
/// what it costs, and the document itself. Of a choice only the first branch
/// is measured.
pub open spec fn measured<C: Cost>(tree: Tree, at: Position, max_width: nat) -> Measured<C, Tree>
    decreases tree,
{
    match tree {
        Tree::Text(text) => Measured {
            last_line_width: at.column + text_width(text),
            cost: C::text(at.column, text_width(text), max_width),
            document: tree,
        },
        Tree::Newline => if at.should_flatten {
            Measured {
                last_line_width: at.column + 1,
                cost: C::text(at.column, 1, max_width),
                document: tree,
            }
        } else {
            Measured { last_line_width: at.current_indent, cost: C::newline(), document: tree }
        },
        Tree::Concat(children) => measured_concat(children, children.len(), at, max_width),
        Tree::Nest(amount, child) => Lifting::Nest(amount).apply(
            measured(*child, at.nested(amount), max_width),
        ),
        Tree::Flatten(child) => Lifting::Flatten.apply(measured(*child, at.flattened(), max_width)),
        Tree::Union(first, _) => measured(*first, at, max_width),
    }
}

/// The one layout of the first `count` of `children`, one after the other:
/// each child starts where the one before it ends, and the costs are added
/// from the first on.
pub open spec fn measured_concat<C: Cost>(
    children: Seq<Tree>,
    count: nat,
    at: Position,
    max_width: nat,
) -> Measured<C, Tree>
    decreases children, count,
{
    if count == 0 || count > children.len() {
        Measured {
            last_line_width: at.column,
            cost: C::text(at.column, 0, max_width),
            document: Tree::Concat(Seq::empty()),
        }
    } else if count == 1 {
        let only = measured::<C>(children[0], at, max_width);
        Measured {
            last_line_width: only.last_line_width,
            cost: only.cost,
            document: Tree::Concat(seq![only.document]),
        }
    } else {
        let before = measured_concat::<C>(children, (count - 1) as nat, at, max_width);
        let last = measured::<C>(
            children[count - 1],
            at.at_column(before.last_line_width),
            max_width,
        );
        Measured {
            last_line_width: last.last_line_width,
            cost: before.cost.plus(last.cost),
            document: Tree::Concat(before.document->Concat_0.push(last.document)),
        }
    }
}

/// The document holds no choice.
pub open spec fn choiceless(tree: Tree) -> bool
    decreases tree,
{
    match tree {
        Tree::Text(_) => true,
        Tree::Newline => true,
        Tree::Concat(children) => forall|i: int|
            0 <= i < children.len() ==> choiceless(#[trigger] children[i]),
        Tree::Nest(_, child) => choiceless(*child),
        Tree::Flatten(child) => choiceless(*child),
        Tree::Union(_, _) => false,
    }
}

/// A bound on how far any layout of the document can move the column: the
/// widths of all its texts, one for each line break, and all its indents.
pub open spec fn weight(tree: Tree) -> nat
    decreases tree,
{
    match tree {
        Tree::Text(text) => text_width(text),
        Tree::Newline => 1,
        Tree::Concat(children) => total_weight(children, children.len()),
        Tree::Nest(amount, child) => amount + weight(*child),
        Tree::Flatten(child) => weight(*child),
        Tree::Union(first, second) => weight(*first) + weight(*second),
    }
}

/// The weight of the first `count` of `children`.
pub open spec fn total_weight(children: Seq<Tree>, count: nat) -> nat
    decreases children, count,
{
    if count == 0 || count > children.len() {
        0
    } else {
        total_weight(children, (count - 1) as nat) + weight(children[count - 1])
    }
}

/// The least number above all of `keys`.
pub open spec fn supremum(keys: Seq<nat>) -> nat
    decreases keys.len(),
{
    if keys.len() == 0 {
        0
    } else if keys.last() + 1 > supremum(keys.drop_last()) {
        keys.last() + 1
    } else {
        supremum(keys.drop_last())
    }
}

/// Every key lies below the supremum of its sequence.
pub proof fn lemma_below_supremum(keys: Seq<nat>, i: int)
    requires
        0 <= i < keys.len(),
    ensures
        keys[i] < supremum(keys),
    decreases keys.len(),
{
    if i < keys.len() - 1 {
        lemma_below_supremum(keys.drop_last(), i);
    }
}

/// A bound above all of `keys` is no less than their supremum.
pub proof fn lemma_supremum_least(keys: Seq<nat>, bound: nat)
    requires
        forall|i: int| 0 <= i < keys.len() ==> keys[i] < bound,
    ensures
        supremum(keys) <= bound,
    decreases keys.len(),
{
    if keys.len() > 0 {
        assert forall|i: int| 0 <= i < keys.drop_last().len() implies keys.drop_last()[i]
            < bound by {
            assert(keys.drop_last()[i] == keys[i]);
        }
        lemma_supremum_least(keys.drop_last(), bound);
    }
}

/// A document without choices is laid out as itself.
pub proof fn lemma_measured_document<C: Cost>(tree: Tree, at: Position, max_width: nat)
    requires
        choiceless(tree),
    ensures
        measured::<C>(tree, at, max_width).document == tree,
    decreases tree,
{
    match tree {
        Tree::Text(_) => {},
        Tree::Newline => {},
        Tree::Concat(children) => {
            lemma_measured_concat_document::<C>(children, children.len(), at, max_width);
            assert(children.subrange(0, children.len() as int) =~= children);
        },
        Tree::Nest(amount, child) => {
            lemma_measured_document::<C>(*child, at.nested(amount), max_width);
        },
        Tree::Flatten(child) => {
            lemma_measured_document::<C>(*child, at.flattened(), max_width);
        },
        Tree::Union(_, _) => {},
    }
}

/// The first `count` children without choices are laid out as themselves.
pub proof fn lemma_measured_concat_document<C: Cost>(
    children: Seq<Tree>,
    count: nat,
    at: Position,
    max_width: nat,
)
    requires
        count <= children.len(),
        forall|i: int| 0 <= i < children.len() ==> choiceless(#[trigger] children[i]),
    ensures
        measured_concat::<C>(children, count, at, max_width).document == Tree::Concat(
            children.subrange(0, count as int),
        ),
    decreases children, count,
{
    if count == 0 {
        assert(children.subrange(0, 0) =~= Seq::<Tree>::empty());
    } else if count == 1 {
        lemma_measured_document::<C>(children[0], at, max_width);
        assert(children.subrange(0, 1) =~= seq![children[0]]);
    } else {
        let before = measured_concat::<C>(children, (count - 1) as nat, at, max_width);
        lemma_measured_concat_document::<C>(children, (count - 1) as nat, at, max_width);
        lemma_measured_document::<C>(
            children[count - 1],
            at.at_column(before.last_line_width),
            max_width,
        );
        assert(children.subrange(0, count - 1).push(children[count - 1]) =~= children.subrange(
            0,
            count as int,
        ));
    }
}

/// No layout of a document without choices ends beyond the reach of its
/// position.
pub proof fn lemma_measured_reach<C: Cost>(tree: Tree, at: Position, max_width: nat)
    ensures
        measured::<C>(tree, at, max_width).last_line_width <= reach(at, weight(tree)),
    decreases tree,
{
    match tree {
        Tree::Text(_) => {},
        Tree::Newline => {},
        Tree::Concat(children) => {
            lemma_measured_concat_reach::<C>(children, children.len(), at, max_width);
        },
        Tree::Nest(amount, child) => {
            lemma_measured_reach::<C>(*child, at.nested(amount), max_width);
        },
        Tree::Flatten(child) => {
            lemma_measured_reach::<C>(*child, at.flattened(), max_width);
        },
        Tree::Union(first, _) => {
            lemma_measured_reach::<C>(*first, at, max_width);
        },
    }
}

/// The same for the first `count` children of a `Concat`.
pub proof fn lemma_measured_concat_reach<C: Cost>(
    children: Seq<Tree>,
    count: nat,
    at: Position,
    max_width: nat,
)
    ensures
        measured_concat::<C>(children, count, at, max_width).last_line_width <= reach(
            at,
            total_weight(children, count),
        ),
    decreases children, count,
{
    if count == 0 || count > children.len() {
    } else if count == 1 {
        lemma_measured_reach::<C>(children[0], at, max_width);
        assert(total_weight(children, 0) == 0);
    } else {
        let before = measured_concat::<C>(children, (count - 1) as nat, at, max_width);
        lemma_measured_concat_reach::<C>(children, (count - 1) as nat, at, max_width);
        lemma_measured_reach::<C>(
            children[count - 1],
            at.at_column(before.last_line_width),
            max_width,
        );
    }
}

/// The column that no layout at `at` of a document of weight `weight` ends
/// beyond.
pub open spec fn reach(at: Position, weight: nat) -> nat {
    if at.column >= at.current_indent {
        at.column + weight
    } else {
        at.current_indent + weight
    }
}

} // verus!
