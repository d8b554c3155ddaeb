use crate::pretty_expressive::cost::Cost;
use crate::pretty_expressive::document::{text_width, Tree};
use crate::pretty_expressive::laws::cheaper_when_wider;
use crate::pretty_expressive::frontier::{
    covered_by,
    lemma_covers_itself,
    lemma_covers_transitive,
    lemma_merge_well_formed,
    lemma_merged_frontier,
};
use crate::pretty_expressive::layout::{
    choiceless,
    crossed,
    followed,
    lifted_all,
    measured,
    measured_concat,
    pruned,
    reach,
    resolved,
    resolved_concat,
    resolved_from,
    weight,
    Lifting,
    Position,
};
use crate::pretty_expressive::lift::lemma_pruned_drawn;
use crate::pretty_expressive::measure::{covers, frontier, Measured, MeasuredSet};
use crate::pretty_expressive::soundness::{
    lemma_followed_sound,
    lemma_resolved_concat_sound,
    lemma_resolved_sound,
    ordered,
};
use vstd::prelude::*;

verus! {

/// What one way of laying out a document comes to: where its last line
/// ends, what it costs, and whether every part of it stays inside the width
/// limit.
pub struct Outcome<C> {
    pub last_line_width: nat,
    pub cost: C,
    pub fits: bool,
}

/// The outcome of two layouts, one after the other.
pub open spec fn joined<C: Cost>(first: Outcome<C>, last: Outcome<C>) -> Outcome<C> {
    Outcome {
        last_line_width: last.last_line_width,
        cost: first.cost.plus(last.cost),
        fits: first.fits && last.fits,
    }
}

/// `outcome` is what some way of laying out `tree` at `at` comes to, with
/// one branch taken of every choice.
pub open spec fn outcome_of<C: Cost>(
    tree: Tree,
    at: Position,
    max_width: nat,
    outcome: Outcome<C>,
) -> bool
    decreases tree,
{
    match tree {
        Tree::Text(text) => outcome == (Outcome::<C> {
            last_line_width: at.column + text_width(text),
            cost: C::text(at.column, text_width(text), max_width),
            fits: at.column + text_width(text) <= max_width && at.current_indent <= max_width,
        }),
        Tree::Newline => if at.should_flatten {
            outcome == (Outcome::<C> {
                last_line_width: at.column + 1,
                cost: C::text(at.column, 1, max_width),
                fits: at.column + 1 <= max_width && at.current_indent <= max_width,
            })
        } else {
            outcome == (Outcome::<C> {
                last_line_width: at.current_indent,
                cost: C::newline(),
                fits: at.inside(max_width),
            })
        },
        Tree::Concat(children) => outcome_of_all(children, children.len(), at, max_width, outcome),
        Tree::Nest(amount, child) => outcome_of(*child, at.nested(amount), max_width, outcome),
        Tree::Flatten(child) => outcome_of(*child, at.flattened(), max_width, outcome),
        Tree::Union(first, second) => outcome_of(*first, at, max_width, outcome) || outcome_of(
            *second,
            at,
            max_width,
            outcome,
        ),
    }
}

/// `outcome` is what some way of laying out the first `count` of `children`
/// comes to, one after the other.
pub open spec fn outcome_of_all<C: Cost>(
    children: Seq<Tree>,
    count: nat,
    at: Position,
    max_width: nat,
    outcome: Outcome<C>,
) -> bool
    decreases children, count,
{
    if count == 0 || count > children.len() {
        outcome == (Outcome::<C> {
            last_line_width: at.column,
            cost: C::text(at.column, 0, max_width),
            fits: at.inside(max_width),
        })
    } else if count == 1 {
        outcome_of(children[0], at, max_width, outcome)
    } else {
        exists|first: Outcome<C>, last: Outcome<C>|
            #![trigger joined(first, last)]
            {
                &&& outcome_of_all(children, (count - 1) as nat, at, max_width, first)
                &&& outcome_of(
                    children[count - 1],
                    at.at_column(first.last_line_width),
                    max_width,
                    last,
                )
                &&& outcome == joined(first, last)
            }
    }
}

/// `a` ends no further right than `b` and costs no more, and fits where `b`
/// fits.
pub open spec fn no_worse<C: Cost>(a: Outcome<C>, b: Outcome<C>) -> bool {
    &&& a.last_line_width <= b.last_line_width
    &&& a.cost.le(b.cost)
    &&& b.fits ==> a.fits
}

/// `left` is `right` at a column that lies no further right.
pub open spec fn left_of(left: Position, right: Position) -> bool {
    &&& left.column <= right.column
    &&& left.current_indent == right.current_indent
    &&& left.should_flatten == right.should_flatten
}

proof fn lemma_joined_no_worse<C: Cost>(
    first: Outcome<C>,
    last: Outcome<C>,
    other_first: Outcome<C>,
    other_last: Outcome<C>,
)
    requires
        no_worse(first, other_first),
        no_worse(last, other_last),
    ensures
        no_worse(joined(first, last), joined(other_first, other_last)),
{
    C::plus_is_monotone(first.cost, other_first.cost, last.cost);
    C::plus_is_monotone(last.cost, other_last.cost, other_first.cost);
    C::le_is_transitive(
        first.cost.plus(last.cost),
        other_first.cost.plus(last.cost),
        other_first.cost.plus(other_last.cost),
    );
}

/// Starting further left never hurts: for every way of laying out a
/// document there is a way of laying it out from a column further left that
/// is no worse.
pub proof fn lemma_further_left_is_no_worse<C: Cost>(
    tree: Tree,
    left: Position,
    right: Position,
    max_width: nat,
    outcome: Outcome<C>,
) -> (better: Outcome<C>)
    requires
        left_of(left, right),
        outcome_of(tree, right, max_width, outcome),
    ensures
        outcome_of(tree, left, max_width, better),
        no_worse(better, outcome),
    decreases tree,
{
    match tree {
        Tree::Text(text) => {
            C::text_is_monotone(left.column, right.column, text_width(text), max_width);
            Outcome {
                last_line_width: left.column + text_width(text),
                cost: C::text(left.column, text_width(text), max_width),
                fits: left.column + text_width(text) <= max_width && left.current_indent
                    <= max_width,
            }
        },
        Tree::Newline => {
            if left.should_flatten {
                C::text_is_monotone(left.column, right.column, 1, max_width);
                Outcome {
                    last_line_width: left.column + 1,
                    cost: C::text(left.column, 1, max_width),
                    fits: left.column + 1 <= max_width && left.current_indent <= max_width,
                }
            } else {
                C::le_is_total(C::newline(), C::newline());
                Outcome {
                    last_line_width: left.current_indent,
                    cost: C::newline(),
                    fits: left.inside(max_width),
                }
            }
        },
        Tree::Concat(children) => lemma_all_further_left::<C>(
            children,
            children.len(),
            left,
            right,
            max_width,
            outcome,
        ),
        Tree::Nest(amount, child) => lemma_further_left_is_no_worse::<C>(
            *child,
            left.nested(amount),
            right.nested(amount),
            max_width,
            outcome,
        ),
        Tree::Flatten(child) => lemma_further_left_is_no_worse::<C>(
            *child,
            left.flattened(),
            right.flattened(),
            max_width,
            outcome,
        ),
        Tree::Union(first, second) => {
            if outcome_of(*first, right, max_width, outcome) {
                lemma_further_left_is_no_worse::<C>(*first, left, right, max_width, outcome)
            } else {
                lemma_further_left_is_no_worse::<C>(*second, left, right, max_width, outcome)
            }
        },
    }
}

proof fn lemma_all_further_left<C: Cost>(
    children: Seq<Tree>,
    count: nat,
    left: Position,
    right: Position,
    max_width: nat,
    outcome: Outcome<C>,
) -> (better: Outcome<C>)
    requires
        left_of(left, right),
        outcome_of_all(children, count, right, max_width, outcome),
    ensures
        outcome_of_all(children, count, left, max_width, better),
        no_worse(better, outcome),
    decreases children, count,
{
    if count == 0 || count > children.len() {
        C::text_of_nothing(left.column, max_width);
        C::text_of_nothing(right.column, max_width);
        C::le_is_total(C::zero(), C::zero());
        Outcome {
            last_line_width: left.column,
            cost: C::text(left.column, 0, max_width),
            fits: left.inside(max_width),
        }
    } else if count == 1 {
        lemma_further_left_is_no_worse::<C>(children[0], left, right, max_width, outcome)
    } else {
        let (first, last): (Outcome<C>, Outcome<C>) = choose|first: Outcome<C>, last: Outcome<C>|
            #![trigger joined(first, last)]
            {
                &&& outcome_of_all(children, (count - 1) as nat, right, max_width, first)
                &&& outcome_of(
                    children[count - 1],
                    right.at_column(first.last_line_width),
                    max_width,
                    last,
                )
                &&& outcome == joined(first, last)
            };
        let better_first = lemma_all_further_left::<C>(
            children,
            (count - 1) as nat,
            left,
            right,
            max_width,
            first,
        );
        let better_last = lemma_further_left_is_no_worse::<C>(
            children[count - 1],
            left.at_column(better_first.last_line_width),
            right.at_column(first.last_line_width),
            max_width,
            last,
        );
        lemma_joined_no_worse(better_first, better_last, first, last);
        let better = joined(better_first, better_last);
        assert(outcome_of_all(children, count, left, max_width, better));
        better
    }
}


/// Pruning drops only measures that a kept measure covers.
pub proof fn lemma_pruned_covers<C: Cost, D>(measures: Seq<Measured<C, D>>, k: int) -> (j: int)
    requires
        ordered(measures),
        0 <= k < measures.len(),
    ensures
        0 <= j < pruned(measures).len(),
        covers(pruned(measures)[j], measures[k]),
    decreases measures.len(),
{
    if measures.len() <= 1 {
        lemma_covers_itself(measures[k]);
        k
    } else {
        let tail = measures.drop_first();
        assert(ordered(tail)) by {
            assert forall|i: int, j: int| 0 <= i < j < tail.len() implies {
                &&& (#[trigger] tail[i]).last_line_width > (#[trigger] tail[j]).last_line_width
                &&& tail[i].cost.le(tail[j].cost)
            } by {
                assert(tail[i] == measures[i + 1]);
                assert(tail[j] == measures[j + 1]);
            }
        }
        let dropped = measures[1].cost.le(measures[0].cost);
        if k == 0 && !dropped {
            lemma_covers_itself(measures[0]);
            0
        } else {
            let at = if k == 0 {
                0
            } else {
                k - 1
            };
            let j = lemma_pruned_covers(tail, at);
            assert(tail[at] == measures[at + 1]);
            if k == 0 {
                assert(measures[0].last_line_width > measures[1].last_line_width);
                lemma_covers_transitive(pruned(tail)[j], measures[1], measures[0]);
            }
            if dropped {
                j
            } else {
                assert(pruned(measures)[j + 1] == pruned(tail)[j]);
                j + 1
            }
        }
    }
}

/// Every measure of what follows the layouts of a clean set follows one of
/// them, in a set that is clean exactly when the whole is.
pub proof fn lemma_crossed_drawn<C: Cost>(
    firsts: Seq<Measured<C, Tree>>,
    next: spec_fn(nat) -> MeasuredSet<C, Tree>,
    i: int,
) -> (k: int)
    requires
        firsts.len() > 0,
        0 <= i < crossed(firsts, next).members().len(),
        forall|k: int|
            0 <= k < firsts.len() ==> (#[trigger] followed(
                firsts[k],
                next(firsts[k].last_line_width),
            )).well_formed(),
    ensures
        0 <= k < firsts.len(),
        followed(firsts[k], next(firsts[k].last_line_width)).members().contains(
            crossed(firsts, next).members()[i],
        ),
        followed(firsts[k], next(firsts[k].last_line_width)) is Clean <==> crossed(firsts, next)
            is Clean,
    decreases firsts.len(),
{
    let whole = crossed(firsts, next);
    if firsts.len() == 1 {
        assert(whole.members()[i] == followed(
            firsts[0],
            next(firsts[0].last_line_width),
        ).members()[i]);
        0
    } else {
        let front = firsts.drop_last();
        let last = firsts.len() - 1;
        let before = crossed(front, next);
        let after = followed(firsts[last], next(firsts[last].last_line_width));
        assert(firsts.last() == firsts[last]);
        assert forall|k: int| 0 <= k < front.len() implies (#[trigger] followed(
            front[k],
            next(front[k].last_line_width),
        )).well_formed() by {
            assert(front[k] == firsts[k]);
            assert(followed(firsts[k], next(firsts[k].last_line_width)).well_formed());
        }
        lemma_crossed_well_formed(front, next);
        assert(after.well_formed());
        lemma_merge_well_formed(before, after);
        let m = whole.members()[i];
        let from_before = match (before, after) {
            (MeasuredSet::Clean(_), MeasuredSet::Clean(_)) => before.members().contains(m),
            (MeasuredSet::Clean(_), MeasuredSet::Tainted(_)) => true,
            (MeasuredSet::Tainted(_), MeasuredSet::Clean(_)) => false,
            (MeasuredSet::Tainted(x), MeasuredSet::Tainted(y)) => m == x,
        };
        if from_before {
            if before is Clean && after is Tainted {
                assert(before.members()[i] == m);
            }
            if before is Tainted {
                assert(before.members()[0] == m);
            }
            let at = choose|at: int| 0 <= at < before.members().len() && before.members()[at] == m;
            let k = lemma_crossed_drawn(front, next, at);
            assert(front[k] == firsts[k]);
            k
        } else {
            if before is Tainted && after is Clean {
                assert(after.members()[i] == m);
            }
            if after is Tainted {
                assert(after.members()[0] == m);
            }
            last
        }
    }
}

/// What follows the layouts of a clean set is well formed where what
/// follows each of them is.
pub proof fn lemma_crossed_well_formed<C: Cost>(
    firsts: Seq<Measured<C, Tree>>,
    next: spec_fn(nat) -> MeasuredSet<C, Tree>,
)
    requires
        firsts.len() > 0,
        forall|k: int|
            0 <= k < firsts.len() ==> (#[trigger] followed(
                firsts[k],
                next(firsts[k].last_line_width),
            )).well_formed(),
    ensures
        crossed(firsts, next).well_formed(),
    decreases firsts.len(),
{
    if firsts.len() == 1 {
        assert(followed(firsts[0], next(firsts[0].last_line_width)).well_formed());
    } else {
        let front = firsts.drop_last();
        let last = firsts.len() - 1;
        assert(firsts.last() == firsts[last]);
        assert forall|k: int| 0 <= k < front.len() implies (#[trigger] followed(
            front[k],
            next(front[k].last_line_width),
        )).well_formed() by {
            assert(front[k] == firsts[k]);
            assert(followed(firsts[k], next(firsts[k].last_line_width)).well_formed());
        }
        lemma_crossed_well_formed(front, next);
        assert(followed(firsts[last], next(firsts[last].last_line_width)).well_formed());
        lemma_merge_well_formed(
            crossed(front, next),
            followed(firsts[last], next(firsts[last].last_line_width)),
        );
    }
}

/// Where what follows one layout of a clean set is clean, what follows all
/// of them is clean and has for each of its measures one that is no worse.
pub proof fn lemma_crossed_covers<C: Cost>(
    firsts: Seq<Measured<C, Tree>>,
    next: spec_fn(nat) -> MeasuredSet<C, Tree>,
    k: int,
    i: int,
) -> (j: int)
    requires
        0 <= k < firsts.len(),
        forall|k: int|
            0 <= k < firsts.len() ==> (#[trigger] followed(
                firsts[k],
                next(firsts[k].last_line_width),
            )).well_formed(),
        followed(firsts[k], next(firsts[k].last_line_width)) is Clean,
        0 <= i < followed(firsts[k], next(firsts[k].last_line_width)).members().len(),
    ensures
        crossed(firsts, next) is Clean,
        0 <= j < crossed(firsts, next).members().len(),
        covers(
            crossed(firsts, next).members()[j],
            followed(firsts[k], next(firsts[k].last_line_width)).members()[i],
        ),
    decreases firsts.len(),
{
    let target = followed(firsts[k], next(firsts[k].last_line_width)).members()[i];
    if firsts.len() == 1 {
        lemma_covers_itself(target);
        i
    } else {
        let front = firsts.drop_last();
        let last = firsts.len() - 1;
        let before = crossed(front, next);
        let after = followed(firsts[last], next(firsts[last].last_line_width));
        assert(firsts.last() == firsts[last]);
        assert forall|k: int| 0 <= k < front.len() implies (#[trigger] followed(
            front[k],
            next(front[k].last_line_width),
        )).well_formed() by {
            assert(front[k] == firsts[k]);
            assert(followed(firsts[k], next(firsts[k].last_line_width)).well_formed());
        }
        lemma_crossed_well_formed(front, next);
        assert(after.well_formed());
        if k == last {
            match before {
                MeasuredSet::Clean(x) => {
                    lemma_merged_frontier(x, after->Clean_0);
                    let whole = crossed(firsts, next)->Clean_0;
                    assert(covered_by(whole, after->Clean_0[i]));
                    choose|j: int| 0 <= j < whole.len() && covers(#[trigger] whole[j], target)
                },
                MeasuredSet::Tainted(_) => {
                    lemma_covers_itself(target);
                    i
                },
            }
        } else {
            assert(front[k] == firsts[k]);
            let at = lemma_crossed_covers(front, next, k, i);
            match after {
                MeasuredSet::Clean(y) => {
                    let x = before->Clean_0;
                    lemma_merged_frontier(x, y);
                    let whole = crossed(firsts, next)->Clean_0;
                    assert(covered_by(whole, x[at]));
                    let j = choose|j: int|
                        0 <= j < whole.len() && covers(#[trigger] whole[j], x[at]);
                    lemma_covers_transitive(whole[j], x[at], target);
                    j
                },
                MeasuredSet::Tainted(_) => at,
            }
        }
    }
}


/// What a measure comes to, in a set that is clean or not.
pub open spec fn as_outcome<C: Cost>(measure: Measured<C, Tree>, fits: bool) -> Outcome<C> {
    Outcome { last_line_width: measure.last_line_width, cost: measure.cost, fits }
}

/// The measure ends no further right than the outcome and costs no more.
pub open spec fn beats<C: Cost>(measure: Measured<C, Tree>, outcome: Outcome<C>) -> bool {
    measure.last_line_width <= outcome.last_line_width && measure.cost.le(outcome.cost)
}

proof fn lemma_joined_ordered<C: Cost>(first: Measured<C, Tree>, measures: Seq<Measured<C, Tree>>)
    requires
        frontier(measures),
    ensures
        ordered(lifted_all(measures, Lifting::After(first))),
{
    let joined = lifted_all(measures, Lifting::After(first));
    assert forall|i: int, j: int| 0 <= i < j < joined.len() implies {
        &&& (#[trigger] joined[i]).last_line_width > (#[trigger] joined[j]).last_line_width
        &&& joined[i].cost.le(joined[j].cost)
    } by {
        assert(measures[i].last_line_width > measures[j].last_line_width);
        C::plus_is_monotone(measures[i].cost, measures[j].cost, first.cost);
    }
}

/// In the layouts of the children of a `Concat` before the last, what
/// follows each layout is well formed.
pub proof fn lemma_concat_parts_sound<C: Cost>(
    children: Seq<Tree>,
    count: nat,
    at: Position,
    max_width: nat,
)
    requires
        2 <= count <= children.len(),
    ensures
        resolved_concat::<C>(children, (count - 1) as nat, at, max_width).well_formed(),
        forall|k: int|
            0 <= k < resolved_concat::<C>(
                children,
                (count - 1) as nat,
                at,
                max_width,
            ).members().len() ==> {
                let first = #[trigger] resolved_concat::<C>(
                    children,
                    (count - 1) as nat,
                    at,
                    max_width,
                ).members()[k];
                let following = resolved::<C>(
                    children[count - 1],
                    at.at_column(first.last_line_width),
                    max_width,
                );
                &&& choiceless(first.document)
                &&& following.well_formed()
                &&& following.members().len() > 0
                &&& followed(first, following).well_formed()
                &&& followed(first, following) is Clean <==> following is Clean
            },
{
    let so_far = resolved_concat::<C>(children, (count - 1) as nat, at, max_width);
    let child = children[count - 1];
    lemma_resolved_concat_sound::<C>(children, (count - 1) as nat, at, max_width);
    assert forall|k: int| 0 <= k < so_far.members().len() implies {
        let first = #[trigger] so_far.members()[k];
        let following = resolved::<C>(child, at.at_column(first.last_line_width), max_width);
        &&& choiceless(first.document)
        &&& following.well_formed()
        &&& following.members().len() > 0
        &&& followed(first, following).well_formed()
        &&& followed(first, following) is Clean <==> following is Clean
    } by {
        let first = so_far.members()[k];
        let place = at.at_column(first.last_line_width);
        lemma_resolved_sound::<C>(child, place, max_width);
        lemma_followed_sound(
            first,
            resolved::<C>(child, place, max_width),
            reach(place, weight(child)),
            max_width,
        );
    }
}

/// Every measure of a resolved set is what some way of laying out the
/// document comes to, and that way fits exactly where the set is clean.
pub proof fn lemma_members_are_outcomes<C: Cost>(tree: Tree, at: Position, max_width: nat, i: int)
    requires
        0 <= i < resolved::<C>(tree, at, max_width).members().len(),
    ensures
        outcome_of(
            tree,
            at,
            max_width,
            as_outcome(
                resolved::<C>(tree, at, max_width).members()[i],
                resolved::<C>(tree, at, max_width) is Clean,
            ),
        ),
    decreases tree,
{
    let set = resolved::<C>(tree, at, max_width);
    match tree {
        Tree::Text(_) => {},
        Tree::Newline => {},
        Tree::Concat(children) => {
            lemma_members_of_all::<C>(children, children.len(), at, max_width, i);
        },
        Tree::Nest(amount, child) => {
            let inner = resolved::<C>(*child, at.nested(amount), max_width);
            lemma_members_are_outcomes::<C>(*child, at.nested(amount), max_width, i);
            assert(set.members()[i] == Lifting::<C>::Nest(amount).apply(inner.members()[i]));
        },
        Tree::Flatten(child) => {
            let inner = resolved::<C>(*child, at.flattened(), max_width);
            lemma_members_are_outcomes::<C>(*child, at.flattened(), max_width, i);
            assert(set.members()[i] == Lifting::<C>::Flatten.apply(inner.members()[i]));
        },
        Tree::Union(first, second) => {
            let a = resolved::<C>(*first, at, max_width);
            let b = resolved::<C>(*second, at, max_width);
            lemma_resolved_sound::<C>(*first, at, max_width);
            lemma_resolved_sound::<C>(*second, at, max_width);
            lemma_merge_well_formed(a, b);
            let m = set.members()[i];
            let from_first = match (a, b) {
                (MeasuredSet::Clean(_), MeasuredSet::Clean(_)) => a.members().contains(m),
                (MeasuredSet::Clean(_), MeasuredSet::Tainted(_)) => true,
                (MeasuredSet::Tainted(_), MeasuredSet::Clean(_)) => false,
                (MeasuredSet::Tainted(x), MeasuredSet::Tainted(y)) => m == x,
            };
            if from_first {
                if a is Clean && b is Tainted {
                    assert(a.members()[i] == m);
                }
                if a is Tainted {
                    assert(a.members()[0] == m);
                }
                let at_first = choose|k: int| 0 <= k < a.members().len() && a.members()[k] == m;
                lemma_members_are_outcomes::<C>(*first, at, max_width, at_first);
            } else {
                if a is Tainted && b is Clean {
                    assert(b.members()[i] == m);
                }
                if b is Tainted {
                    assert(b.members()[0] == m);
                }
                let at_second = choose|k: int| 0 <= k < b.members().len() && b.members()[k] == m;
                lemma_members_are_outcomes::<C>(*second, at, max_width, at_second);
            }
        },
    }
}

proof fn lemma_members_of_all<C: Cost>(
    children: Seq<Tree>,
    count: nat,
    at: Position,
    max_width: nat,
    i: int,
)
    requires
        0 <= i < resolved_concat::<C>(children, count, at, max_width).members().len(),
    ensures
        outcome_of_all(
            children,
            count,
            at,
            max_width,
            as_outcome(
                resolved_concat::<C>(children, count, at, max_width).members()[i],
                resolved_concat::<C>(children, count, at, max_width) is Clean,
            ),
        ),
    decreases children, count,
{
    let set = resolved_concat::<C>(children, count, at, max_width);
    if count == 0 || count > children.len() {
    } else if count == 1 {
        lemma_members_are_outcomes::<C>(children[0], at, max_width, i);
    } else {
        let before = (count - 1) as nat;
        let so_far = resolved_concat::<C>(children, before, at, max_width);
        let child = children[count - 1];
        let next = resolved_from::<C>(child, at, max_width);
        lemma_concat_parts_sound::<C>(children, count, at, max_width);
        let m = set.members()[i];
        match so_far {
            MeasuredSet::Tainted(first) => {
                assert(so_far.members()[0] == first);
                let following = resolved::<C>(
                    child,
                    at.at_column(first.last_line_width),
                    max_width,
                );
                let chosen = following.chosen();
                assert(following.members()[0] == chosen);
                lemma_members_of_all::<C>(children, before, at, max_width, 0);
                lemma_members_are_outcomes::<C>(
                    child,
                    at.at_column(first.last_line_width),
                    max_width,
                    0,
                );
                let a = as_outcome(first, false);
                let b = as_outcome(chosen, following is Clean);
                assert(as_outcome(m, false) == joined(a, b));
            },
            MeasuredSet::Clean(firsts) => {
                assert forall|k: int| 0 <= k < firsts.len() implies (#[trigger] followed(
                    firsts[k],
                    next(firsts[k].last_line_width),
                )).well_formed() by {
                    assert(so_far.members()[k] == firsts[k]);
                }
                let k = lemma_crossed_drawn(firsts, next, i);
                let first = firsts[k];
                assert(so_far.members()[k] == first);
                let following = resolved::<C>(
                    child,
                    at.at_column(first.last_line_width),
                    max_width,
                );
                let after = followed(first, following);
                assert(after.members().contains(m));
                lemma_members_of_all::<C>(children, before, at, max_width, k);
                let a = as_outcome(first, true);
                match following {
                    MeasuredSet::Clean(measures) => {
                        let all = lifted_all(measures, Lifting::After(first));
                        lemma_pruned_drawn(all);
                        let p = choose|p: int| 0 <= p < pruned(all).len() && pruned(all)[p] == m;
                        let j = choose|j: int| 0 <= j < all.len() && all[j] == m;
                        assert(all[j] == Lifting::After(first).apply(measures[j]));
                        lemma_members_are_outcomes::<C>(
                            child,
                            at.at_column(first.last_line_width),
                            max_width,
                            j,
                        );
                        let b = as_outcome(measures[j], true);
                        assert(as_outcome(m, true) == joined(a, b));
                    },
                    MeasuredSet::Tainted(measure) => {
                        assert(after.members()[0] == Lifting::After(first).apply(measure));
                        let at_member = choose|p: int|
                            0 <= p < after.members().len() && after.members()[p] == m;
                        lemma_members_are_outcomes::<C>(
                            child,
                            at.at_column(first.last_line_width),
                            max_width,
                            0,
                        );
                        let b = as_outcome(measure, false);
                        assert(as_outcome(m, false) == joined(a, b));
                    },
                }
            },
        }
    }
}


proof fn lemma_beats_through<C: Cost>(
    best: Measured<C, Tree>,
    middle: Measured<C, Tree>,
    outcome: Outcome<C>,
)
    requires
        covers(best, middle),
        beats(middle, outcome),
    ensures
        beats(best, outcome),
{
    C::le_is_transitive(best.cost, middle.cost, outcome.cost);
}

/// The resolver loses no layout that fits: for every way of laying out the
/// document that stays inside the width limit, the resolved set is clean
/// and holds a measure that ends no further right and costs no more.
pub proof fn lemma_fitting_outcomes_are_beaten<C: Cost>(
    tree: Tree,
    at: Position,
    max_width: nat,
    outcome: Outcome<C>,
) -> (i: int)
    requires
        outcome_of(tree, at, max_width, outcome),
        outcome.fits,
    ensures
        resolved::<C>(tree, at, max_width) is Clean,
        0 <= i < resolved::<C>(tree, at, max_width).members().len(),
        beats(resolved::<C>(tree, at, max_width).members()[i], outcome),
    decreases tree,
{
    let set = resolved::<C>(tree, at, max_width);
    match tree {
        Tree::Text(_) => {
            C::le_is_total(outcome.cost, outcome.cost);
            0
        },
        Tree::Newline => {
            C::le_is_total(outcome.cost, outcome.cost);
            0
        },
        Tree::Concat(children) => lemma_fitting_of_all::<C>(
            children,
            children.len(),
            at,
            max_width,
            outcome,
        ),
        Tree::Nest(amount, child) => {
            let inner = resolved::<C>(*child, at.nested(amount), max_width);
            let i = lemma_fitting_outcomes_are_beaten::<C>(
                *child,
                at.nested(amount),
                max_width,
                outcome,
            );
            assert(set.members()[i] == Lifting::<C>::Nest(amount).apply(inner.members()[i]));
            i
        },
        Tree::Flatten(child) => {
            let inner = resolved::<C>(*child, at.flattened(), max_width);
            let i = lemma_fitting_outcomes_are_beaten::<C>(
                *child,
                at.flattened(),
                max_width,
                outcome,
            );
            assert(set.members()[i] == Lifting::<C>::Flatten.apply(inner.members()[i]));
            i
        },
        Tree::Union(first, second) => {
            let a = resolved::<C>(*first, at, max_width);
            let b = resolved::<C>(*second, at, max_width);
            lemma_resolved_sound::<C>(*first, at, max_width);
            lemma_resolved_sound::<C>(*second, at, max_width);
            if outcome_of(*first, at, max_width, outcome) {
                let i = lemma_fitting_outcomes_are_beaten::<C>(*first, at, max_width, outcome);
                match b {
                    MeasuredSet::Clean(y) => {
                        let x = a->Clean_0;
                        lemma_merged_frontier(x, y);
                        let whole = set->Clean_0;
                        assert(covered_by(whole, x[i]));
                        let j = choose|j: int|
                            0 <= j < whole.len() && covers(#[trigger] whole[j], x[i]);
                        lemma_beats_through(whole[j], x[i], outcome);
                        j
                    },
                    MeasuredSet::Tainted(_) => i,
                }
            } else {
                let i = lemma_fitting_outcomes_are_beaten::<C>(*second, at, max_width, outcome);
                match a {
                    MeasuredSet::Clean(x) => {
                        let y = b->Clean_0;
                        lemma_merged_frontier(x, y);
                        let whole = set->Clean_0;
                        assert(covered_by(whole, y[i]));
                        let j = choose|j: int|
                            0 <= j < whole.len() && covers(#[trigger] whole[j], y[i]);
                        lemma_beats_through(whole[j], y[i], outcome);
                        j
                    },
                    MeasuredSet::Tainted(_) => i,
                }
            }
        },
    }
}

proof fn lemma_fitting_of_all<C: Cost>(
    children: Seq<Tree>,
    count: nat,
    at: Position,
    max_width: nat,
    outcome: Outcome<C>,
) -> (i: int)
    requires
        outcome_of_all(children, count, at, max_width, outcome),
        outcome.fits,
    ensures
        resolved_concat::<C>(children, count, at, max_width) is Clean,
        0 <= i < resolved_concat::<C>(children, count, at, max_width).members().len(),
        beats(resolved_concat::<C>(children, count, at, max_width).members()[i], outcome),
    decreases children, count,
{
    if count == 0 || count > children.len() {
        C::le_is_total(outcome.cost, outcome.cost);
        0
    } else if count == 1 {
        lemma_fitting_outcomes_are_beaten::<C>(children[0], at, max_width, outcome)
    } else {
        let before = (count - 1) as nat;
        let so_far = resolved_concat::<C>(children, before, at, max_width);
        let child = children[count - 1];
        let next = resolved_from::<C>(child, at, max_width);
        let (first, last): (Outcome<C>, Outcome<C>) = choose|first: Outcome<C>, last: Outcome<C>|
            #![trigger joined(first, last)]
            {
                &&& outcome_of_all(children, before, at, max_width, first)
                &&& outcome_of(child, at.at_column(first.last_line_width), max_width, last)
                &&& outcome == joined(first, last)
            };
        lemma_concat_parts_sound::<C>(children, count, at, max_width);
        let k = lemma_fitting_of_all::<C>(children, before, at, max_width, first);
        let firsts = so_far->Clean_0;
        let head = firsts[k];
        assert(so_far.members()[k] == head);
        let place = at.at_column(head.last_line_width);
        let nearer = lemma_further_left_is_no_worse::<C>(
            child,
            place,
            at.at_column(first.last_line_width),
            max_width,
            last,
        );
        let j = lemma_fitting_outcomes_are_beaten::<C>(child, place, max_width, nearer);
        let following = resolved::<C>(child, place, max_width);
        let measures = following->Clean_0;
        let all = lifted_all(measures, Lifting::After(head));
        lemma_joined_ordered(head, measures);
        let p = lemma_pruned_covers(all, j);
        assert(all[j] == Lifting::After(head).apply(measures[j]));
        let after = followed(head, following);
        assert(after.members()[p] == pruned(all)[p]);
        assert forall|k: int| 0 <= k < firsts.len() implies (#[trigger] followed(
            firsts[k],
            next(firsts[k].last_line_width),
        )).well_formed() by {
            assert(so_far.members()[k] == firsts[k]);
        }
        let i = lemma_crossed_covers(firsts, next, k, p);
        let whole = resolved_concat::<C>(children, count, at, max_width);
        let best = whole.members()[i];
        C::le_is_transitive(measures[j].cost, nearer.cost, last.cost);
        C::plus_is_monotone(head.cost, first.cost, measures[j].cost);
        C::plus_is_monotone(measures[j].cost, last.cost, first.cost);
        C::le_is_transitive(
            head.cost.plus(measures[j].cost),
            first.cost.plus(measures[j].cost),
            first.cost.plus(last.cost),
        );
        C::le_is_transitive(pruned(all)[p].cost, all[j].cost, outcome.cost);
        C::le_is_transitive(best.cost, pruned(all)[p].cost, outcome.cost);
        i
    }
}

/// A tainted set is the fallback where nothing fits: where the resolved set
/// is tainted, no way of laying out the document stays inside the width
/// limit.
pub proof fn tainted_only_where_nothing_fits<C: Cost>(
    tree: Tree,
    at: Position,
    max_width: nat,
    outcome: Outcome<C>,
)
    requires
        resolved::<C>(tree, at, max_width) is Tainted,
        outcome_of(tree, at, max_width, outcome),
    ensures
        !outcome.fits,
{
    if outcome.fits {
        lemma_fitting_outcomes_are_beaten::<C>(tree, at, max_width, outcome);
    }
}

/// The selected layout of a clean set is the cheapest layout that fits: no
/// way of laying out the document inside the width limit costs less than
/// the chosen measure, which is itself such a way.
pub proof fn selected_is_cheapest_that_fits<C: Cost>(
    tree: Tree,
    at: Position,
    max_width: nat,
    outcome: Outcome<C>,
)
    requires
        outcome_of(tree, at, max_width, outcome),
        outcome.fits,
    ensures
        resolved::<C>(tree, at, max_width) is Clean,
        resolved::<C>(tree, at, max_width).chosen().cost.le(outcome.cost),
        outcome_of(
            tree,
            at,
            max_width,
            as_outcome(resolved::<C>(tree, at, max_width).chosen(), true),
        ),
{
    let set = resolved::<C>(tree, at, max_width);
    let i = lemma_fitting_outcomes_are_beaten::<C>(tree, at, max_width, outcome);
    lemma_resolved_sound::<C>(tree, at, max_width);
    lemma_members_are_outcomes::<C>(tree, at, max_width, 0);
    if i != 0 {
        C::le_is_transitive(set.members()[0].cost, set.members()[i].cost, outcome.cost);
    }
}


/// `a` ends where `b` ends and costs no more, and fits where `b` fits.
pub open spec fn as_wide_and_no_worse<C: Cost>(a: Outcome<C>, b: Outcome<C>) -> bool {
    a.last_line_width == b.last_line_width && no_worse(a, b)
}

/// A way of laying out a document under a width limit is a way of laying it
/// out under a larger one, where it ends at the same column and costs no
/// more, as long as text costs no more under the larger limit.
pub proof fn lemma_outcome_under_wider_limit<C: Cost>(
    tree: Tree,
    at: Position,
    narrow: nat,
    wide: nat,
    outcome: Outcome<C>,
) -> (wider: Outcome<C>)
    requires
        narrow <= wide,
        cheaper_when_wider::<C>(narrow, wide),
        outcome_of(tree, at, narrow, outcome),
    ensures
        outcome_of(tree, at, wide, wider),
        as_wide_and_no_worse(wider, outcome),
    decreases tree,
{
    match tree {
        Tree::Text(text) => {
            assert(C::text(at.column, text_width(text), wide).le(
                C::text(at.column, text_width(text), narrow),
            ));
            Outcome {
                last_line_width: at.column + text_width(text),
                cost: C::text(at.column, text_width(text), wide),
                fits: at.column + text_width(text) <= wide && at.current_indent <= wide,
            }
        },
        Tree::Newline => {
            if at.should_flatten {
                assert(C::text(at.column, 1, wide).le(C::text(at.column, 1, narrow)));
                Outcome {
                    last_line_width: at.column + 1,
                    cost: C::text(at.column, 1, wide),
                    fits: at.column + 1 <= wide && at.current_indent <= wide,
                }
            } else {
                C::le_is_total(C::newline(), C::newline());
                Outcome {
                    last_line_width: at.current_indent,
                    cost: C::newline(),
                    fits: at.inside(wide),
                }
            }
        },
        Tree::Concat(children) => lemma_all_under_wider_limit::<C>(
            children,
            children.len(),
            at,
            narrow,
            wide,
            outcome,
        ),
        Tree::Nest(amount, child) => lemma_outcome_under_wider_limit::<C>(
            *child,
            at.nested(amount),
            narrow,
            wide,
            outcome,
        ),
        Tree::Flatten(child) => lemma_outcome_under_wider_limit::<C>(
            *child,
            at.flattened(),
            narrow,
            wide,
            outcome,
        ),
        Tree::Union(first, second) => {
            if outcome_of(*first, at, narrow, outcome) {
                lemma_outcome_under_wider_limit::<C>(*first, at, narrow, wide, outcome)
            } else {
                lemma_outcome_under_wider_limit::<C>(*second, at, narrow, wide, outcome)
            }
        },
    }
}

proof fn lemma_all_under_wider_limit<C: Cost>(
    children: Seq<Tree>,
    count: nat,
    at: Position,
    narrow: nat,
    wide: nat,
    outcome: Outcome<C>,
) -> (wider: Outcome<C>)
    requires
        narrow <= wide,
        cheaper_when_wider::<C>(narrow, wide),
        outcome_of_all(children, count, at, narrow, outcome),
    ensures
        outcome_of_all(children, count, at, wide, wider),
        as_wide_and_no_worse(wider, outcome),
    decreases children, count,
{
    if count == 0 || count > children.len() {
        assert(C::text(at.column, 0, wide).le(C::text(at.column, 0, narrow)));
        Outcome {
            last_line_width: at.column,
            cost: C::text(at.column, 0, wide),
            fits: at.inside(wide),
        }
    } else if count == 1 {
        lemma_outcome_under_wider_limit::<C>(children[0], at, narrow, wide, outcome)
    } else {
        let (first, last): (Outcome<C>, Outcome<C>) = choose|first: Outcome<C>, last: Outcome<C>|
            #![trigger joined(first, last)]
            {
                &&& outcome_of_all(children, (count - 1) as nat, at, narrow, first)
                &&& outcome_of(
                    children[count - 1],
                    at.at_column(first.last_line_width),
                    narrow,
                    last,
                )
                &&& outcome == joined(first, last)
            };
        let wider_first = lemma_all_under_wider_limit::<C>(
            children,
            (count - 1) as nat,
            at,
            narrow,
            wide,
            first,
        );
        let wider_last = lemma_outcome_under_wider_limit::<C>(
            children[count - 1],
            at.at_column(first.last_line_width),
            narrow,
            wide,
            last,
        );
        lemma_joined_no_worse(wider_first, wider_last, first, last);
        let wider = joined(wider_first, wider_last);
        assert(outcome_of_all(children, count, at, wide, wider));
        wider
    }
}

/// A larger width limit never raises the cost of the selected layout of a
/// document that has a layout inside the smaller limit: where the set that
/// is resolved under the smaller limit is clean, so is the set under the
/// larger one, and its chosen measure costs no more, as long as text costs
/// no more under the larger limit.
pub proof fn wider_limit_never_raises_selected_cost<C: Cost>(
    tree: Tree,
    at: Position,
    narrow: nat,
    wide: nat,
)
    requires
        narrow <= wide,
        cheaper_when_wider::<C>(narrow, wide),
        resolved::<C>(tree, at, narrow) is Clean,
    ensures
        resolved::<C>(tree, at, wide) is Clean,
        resolved::<C>(tree, at, wide).chosen().cost.le(resolved::<C>(tree, at, narrow).chosen().cost),
{
    let before = resolved::<C>(tree, at, narrow);
    lemma_resolved_sound::<C>(tree, at, narrow);
    lemma_members_are_outcomes::<C>(tree, at, narrow, 0);
    let outcome = as_outcome(before.members()[0], true);
    let wider = lemma_outcome_under_wider_limit::<C>(tree, at, narrow, wide, outcome);
    selected_is_cheapest_that_fits::<C>(tree, at, wide, wider);
    C::le_is_transitive(
        resolved::<C>(tree, at, wide).chosen().cost,
        wider.cost,
        outcome.cost,
    );
}


/// `layout` is `tree` with one branch taken of every choice, and with the
/// children of every `Concat` joined in pairs from the first on.
pub open spec fn layout_of(layout: Tree, tree: Tree) -> bool
    decreases tree,
{
    match tree {
        Tree::Text(_) => layout == tree,
        Tree::Newline => layout == tree,
        Tree::Concat(children) => layout_of_all(layout, children, children.len()),
        Tree::Nest(amount, child) => layout matches Tree::Nest(same, inner) && same == amount
            && layout_of(*inner, *child),
        Tree::Flatten(child) => layout matches Tree::Flatten(inner) && layout_of(*inner, *child),
        Tree::Union(first, second) => layout_of(layout, *first) || layout_of(layout, *second),
    }
}

/// `layout` is the first `count` of `children`, each with one branch taken
/// of every choice, joined in pairs from the first on.
pub open spec fn layout_of_all(layout: Tree, children: Seq<Tree>, count: nat) -> bool
    decreases children, count,
{
    if count == 0 || count > children.len() {
        layout == Tree::Concat(Seq::empty())
    } else if count == 1 {
        layout_of(layout, children[0])
    } else {
        layout matches Tree::Concat(pair) && pair.len() == 2 && layout_of_all(
            pair[0],
            children,
            (count - 1) as nat,
        ) && layout_of(pair[1], children[count - 1])
    }
}

/// The document of the measure is a layout of `tree`, and laid out at `at`
/// it has the width and the cost of the measure.
pub open spec fn realized<C: Cost>(
    measure: Measured<C, Tree>,
    tree: Tree,
    at: Position,
    max_width: nat,
) -> bool {
    &&& layout_of(measure.document, tree)
    &&& measured::<C>(measure.document, at, max_width).last_line_width == measure.last_line_width
    &&& measured::<C>(measure.document, at, max_width).cost == measure.cost
}

/// The same for the first `count` children of a `Concat`.
pub open spec fn realized_all<C: Cost>(
    measure: Measured<C, Tree>,
    children: Seq<Tree>,
    count: nat,
    at: Position,
    max_width: nat,
) -> bool {
    &&& layout_of_all(measure.document, children, count)
    &&& measured::<C>(measure.document, at, max_width).last_line_width == measure.last_line_width
    &&& measured::<C>(measure.document, at, max_width).cost == measure.cost
}

proof fn lemma_pair_measured<C: Cost>(
    first: Measured<C, Tree>,
    last: Measured<C, Tree>,
    at: Position,
    max_width: nat,
)
    requires
        measured::<C>(first.document, at, max_width).last_line_width == first.last_line_width,
        measured::<C>(first.document, at, max_width).cost == first.cost,
        measured::<C>(
            last.document,
            at.at_column(first.last_line_width),
            max_width,
        ).last_line_width == last.last_line_width,
        measured::<C>(last.document, at.at_column(first.last_line_width), max_width).cost
            == last.cost,
    ensures
        measured::<C>(
            Lifting::After(first).apply(last).document,
            at,
            max_width,
        ).last_line_width == last.last_line_width,
        measured::<C>(Lifting::After(first).apply(last).document, at, max_width).cost
            == first.cost.plus(last.cost),
{
    let pair = seq![first.document, last.document];
    assert(pair[0] == first.document);
    assert(pair[1] == last.document);
    let before = measured_concat::<C>(pair, 1, at, max_width);
    assert(before.last_line_width == first.last_line_width);
    assert(before.cost == first.cost);
    assert(measured::<C>(Tree::Concat(pair), at, max_width) == measured_concat::<C>(
        pair,
        2,
        at,
        max_width,
    ));
}

/// Every measure of a resolved set holds a layout of the document that has,
/// at the position, the width and the cost of the measure.
pub proof fn lemma_members_are_realized<C: Cost>(tree: Tree, at: Position, max_width: nat, i: int)
    requires
        0 <= i < resolved::<C>(tree, at, max_width).members().len(),
    ensures
        realized(resolved::<C>(tree, at, max_width).members()[i], tree, at, max_width),
    decreases tree,
{
    let set = resolved::<C>(tree, at, max_width);
    match tree {
        Tree::Text(_) => {},
        Tree::Newline => {},
        Tree::Concat(children) => {
            lemma_members_of_all_are_realized::<C>(children, children.len(), at, max_width, i);
        },
        Tree::Nest(amount, child) => {
            let inner = resolved::<C>(*child, at.nested(amount), max_width);
            lemma_members_are_realized::<C>(*child, at.nested(amount), max_width, i);
            assert(set.members()[i] == Lifting::<C>::Nest(amount).apply(inner.members()[i]));
        },
        Tree::Flatten(child) => {
            let inner = resolved::<C>(*child, at.flattened(), max_width);
            lemma_members_are_realized::<C>(*child, at.flattened(), max_width, i);
            assert(set.members()[i] == Lifting::<C>::Flatten.apply(inner.members()[i]));
        },
        Tree::Union(first, second) => {
            let a = resolved::<C>(*first, at, max_width);
            let b = resolved::<C>(*second, at, max_width);
            lemma_resolved_sound::<C>(*first, at, max_width);
            lemma_resolved_sound::<C>(*second, at, max_width);
            lemma_merge_well_formed(a, b);
            let m = set.members()[i];
            if a.members().contains(m) {
                let k = choose|k: int| 0 <= k < a.members().len() && a.members()[k] == m;
                lemma_members_are_realized::<C>(*first, at, max_width, k);
            } else {
                let k = choose|k: int| 0 <= k < b.members().len() && b.members()[k] == m;
                lemma_members_are_realized::<C>(*second, at, max_width, k);
            }
        },
    }
}

proof fn lemma_joined_realized<C: Cost>(
    first: Measured<C, Tree>,
    last: Measured<C, Tree>,
    children: Seq<Tree>,
    count: nat,
    at: Position,
    max_width: nat,
)
    requires
        2 <= count <= children.len(),
        realized_all(first, children, (count - 1) as nat, at, max_width),
        realized(last, children[count - 1], at.at_column(first.last_line_width), max_width),
    ensures
        realized_all(Lifting::After(first).apply(last), children, count, at, max_width),
{
    let m = Lifting::After(first).apply(last);
    lemma_pair_measured(first, last, at, max_width);
    let pair = m.document->Concat_0;
    assert(pair[0] == first.document);
    assert(pair[1] == last.document);
}

/// The measure of what follows `first` that is `measure` comes from a
/// measure of the following set.
pub proof fn lemma_followed_from<C: Cost>(
    first: Measured<C, Tree>,
    following: MeasuredSet<C, Tree>,
    measure: Measured<C, Tree>,
) -> (j: int)
    requires
        followed(first, following).members().contains(measure),
    ensures
        0 <= j < following.members().len(),
        measure == Lifting::After(first).apply(following.members()[j]),
{
    let after = followed(first, following);
    match following {
        MeasuredSet::Clean(measures) => {
            let all = lifted_all(measures, Lifting::After(first));
            lemma_pruned_drawn(all);
            let p = choose|p: int| 0 <= p < pruned(all).len() && pruned(all)[p] == measure;
            let j = choose|j: int| 0 <= j < all.len() && all[j] == measure;
            assert(all[j] == Lifting::After(first).apply(measures[j]));
            j
        },
        MeasuredSet::Tainted(single) => {
            assert(after.members()[0] == Lifting::After(first).apply(single));
            let p = choose|p: int| 0 <= p < after.members().len() && after.members()[p] == measure;
            assert(following.members()[0] == single);
            0
        },
    }
}

proof fn lemma_members_of_all_are_realized<C: Cost>(
    children: Seq<Tree>,
    count: nat,
    at: Position,
    max_width: nat,
    i: int,
)
    requires
        0 <= i < resolved_concat::<C>(children, count, at, max_width).members().len(),
    ensures
        realized_all(
            resolved_concat::<C>(children, count, at, max_width).members()[i],
            children,
            count,
            at,
            max_width,
        ),
    decreases children, count,
{
    let set = resolved_concat::<C>(children, count, at, max_width);
    if count == 0 || count > children.len() {
        let m = set.members()[i];
        assert(m.document == Tree::Concat(Seq::<Tree>::empty()));
        assert(measured::<C>(m.document, at, max_width) == measured_concat::<C>(
            Seq::<Tree>::empty(),
            0,
            at,
            max_width,
        ));
    } else if count == 1 {
        lemma_members_are_realized::<C>(children[0], at, max_width, i);
    } else {
        let before = (count - 1) as nat;
        let so_far = resolved_concat::<C>(children, before, at, max_width);
        let child = children[count - 1];
        let next = resolved_from::<C>(child, at, max_width);
        lemma_concat_parts_sound::<C>(children, count, at, max_width);
        let m = set.members()[i];
        match so_far {
            MeasuredSet::Tainted(first) => {
                assert(so_far.members()[0] == first);
                let place = at.at_column(first.last_line_width);
                let following = resolved::<C>(child, place, max_width);
                let chosen = following.chosen();
                assert(following.members()[0] == chosen);
                lemma_members_of_all_are_realized::<C>(children, before, at, max_width, 0);
                lemma_members_are_realized::<C>(child, place, max_width, 0);
                assert(m == Lifting::After(first).apply(chosen));
                lemma_joined_realized(first, chosen, children, count, at, max_width);
            },
            MeasuredSet::Clean(firsts) => {
                assert forall|k: int| 0 <= k < firsts.len() implies (#[trigger] followed(
                    firsts[k],
                    next(firsts[k].last_line_width),
                )).well_formed() by {
                    assert(so_far.members()[k] == firsts[k]);
                }
                let k = lemma_crossed_drawn(firsts, next, i);
                let first = firsts[k];
                assert(so_far.members()[k] == first);
                let place = at.at_column(first.last_line_width);
                let following = resolved::<C>(child, place, max_width);
                let j = lemma_followed_from(first, following, m);
                let last = following.members()[j];
                lemma_members_of_all_are_realized::<C>(children, before, at, max_width, k);
                lemma_members_are_realized::<C>(child, place, max_width, j);
                lemma_joined_realized(first, last, children, count, at, max_width);
            },
        }
    }
}

} // verus!
