use crate::pretty_expressive::cost::Cost;
use crate::pretty_expressive::document::Tree;
use crate::pretty_expressive::frontier::lemma_merge_well_formed;
use crate::pretty_expressive::layout::{
    choiceless,
    crossed,
    extended,
    followed,
    lifted,
    lifted_all,
    pruned,
    reach,
    resolved,
    resolved_concat,
    resolved_from,
    total_weight,
    weight,
    Lifting,
    Position,
};
use crate::pretty_expressive::measure::{frontier, merge, Measured, MeasuredSet};
use vstd::prelude::*;

verus! {

/// What holds of every resolved set: it is well formed, its documents hold
/// no choice, its widths stay below `bound`, and the widths of a clean set
/// stay inside `max_width`.
pub open spec fn sound<C: Cost>(set: MeasuredSet<C, Tree>, bound: nat, max_width: nat) -> bool {
    &&& set.well_formed()
    &&& forall|i: int|
        0 <= i < set.members().len() ==> choiceless((#[trigger] set.members()[i]).document)
            && set.members()[i].last_line_width <= bound
    &&& set is Clean ==> forall|i: int|
        0 <= i < set.members().len() ==> (#[trigger] set.members()[i]).last_line_width
            <= max_width
}

/// The measures stand in strictly falling width and in rising cost.
pub open spec fn ordered<C: Cost, D>(measures: Seq<Measured<C, D>>) -> bool {
    forall|i: int, j: int|
        0 <= i < j < measures.len() ==> {
            &&& (#[trigger] measures[i]).last_line_width > (#[trigger] measures[j]).last_line_width
            &&& measures[i].cost.le(measures[j].cost)
        }
}

proof fn lemma_sound_weaken<C: Cost>(
    set: MeasuredSet<C, Tree>,
    bound: nat,
    larger: nat,
    max_width: nat,
)
    requires
        sound(set, bound, max_width),
        bound <= larger,
    ensures
        sound(set, larger, max_width),
{
}

/// Pruning measures in falling width and rising cost leaves a frontier of
/// them that ends with their last.
pub proof fn lemma_pruned_frontier<C: Cost, D>(measures: Seq<Measured<C, D>>)
    requires
        ordered(measures),
    ensures
        frontier(pruned(measures)),
        forall|i: int|
            0 <= i < pruned(measures).len() ==> measures.contains(#[trigger] pruned(measures)[i]),
        measures.len() > 0 ==> pruned(measures).len() > 0,
    decreases measures.len(),
{
    let r = pruned(measures);
    if measures.len() <= 1 {
        assert forall|i: int| 0 <= i < r.len() implies measures.contains(#[trigger] r[i]) by {
            assert(measures[i] == r[i]);
        }
    } else {
        let tail = measures.drop_first();
        let rest = pruned(tail);
        assert(ordered(tail)) by {
            assert forall|i: int, j: int| 0 <= i < j < tail.len() implies {
                &&& (#[trigger] tail[i]).last_line_width > (#[trigger] tail[j]).last_line_width
                &&& tail[i].cost.le(tail[j].cost)
            } by {
                assert(tail[i] == measures[i + 1]);
                assert(tail[j] == measures[j + 1]);
            }
        }
        lemma_pruned_frontier(tail);
        assert forall|i: int| 0 <= i < rest.len() implies measures.contains(
            #[trigger] rest[i],
        ) by {
            let k = choose|k: int| 0 <= k < tail.len() && tail[k] == rest[i];
            assert(measures[k + 1] == rest[i]);
        }
        if measures[1].cost.le(measures[0].cost) {
        } else {
            let head = measures[0];
            assert(r == seq![head] + rest);
            assert forall|i: int, j: int| 0 <= i < j < r.len() implies {
                &&& (#[trigger] r[i]).last_line_width > (#[trigger] r[j]).last_line_width
                &&& r[i].cost.le(r[j].cost)
                &&& r[i].cost != r[j].cost
            } by {
                if i == 0 {
                    assert(r[j] == rest[j - 1]);
                    let k = choose|k: int| 0 <= k < tail.len() && tail[k] == rest[j - 1];
                    assert(measures[k + 1] == r[j]);
                    assert(measures[0].last_line_width > measures[k + 1].last_line_width);
                    if head.cost == r[j].cost {
                        if k == 0 {
                            C::le_is_total(measures[1].cost, measures[1].cost);
                        } else {
                            assert(measures[1].last_line_width > measures[k + 1].last_line_width);
                        }
                    }
                } else {
                    assert(r[i] == rest[i - 1]);
                    assert(r[j] == rest[j - 1]);
                }
            }
            assert forall|i: int| 0 <= i < r.len() implies measures.contains(#[trigger] r[i]) by {
                if i == 0 {
                    assert(measures[0] == r[0]);
                } else {
                    assert(r[i] == rest[i - 1]);
                }
            }
        }
    }
}

/// Wrapping the documents of a sound set keeps it sound.
pub proof fn lemma_wrapped_sound<C: Cost>(
    set: MeasuredSet<C, Tree>,
    by: Lifting<C>,
    bound: nat,
    max_width: nat,
)
    requires
        sound(set, bound, max_width),
        by is Nest || by is Flatten,
    ensures
        sound(lifted(set, by), bound, max_width),
{
    let r = lifted(set, by);
    assert forall|i: int| 0 <= i < r.members().len() implies choiceless(
        (#[trigger] r.members()[i]).document,
    ) && r.members()[i].last_line_width <= bound && (set is Clean ==> r.members()[i].last_line_width
        <= max_width) by {
        let m = set.members()[i];
        assert(r.members()[i] == by.apply(m));
        assert(choiceless(m.document));
    }
    match set {
        MeasuredSet::Clean(measures) => {
            let wrapped = lifted_all(measures, by);
            assert forall|i: int, j: int| 0 <= i < j < wrapped.len() implies {
                &&& (#[trigger] wrapped[i]).last_line_width > (
                #[trigger] wrapped[j]).last_line_width
                &&& wrapped[i].cost.le(wrapped[j].cost)
                &&& wrapped[i].cost != wrapped[j].cost
            } by {
                assert(measures[i].last_line_width > measures[j].last_line_width);
            }
        },
        MeasuredSet::Tainted(_) => {},
    }
}

/// What follows a choice-free layout, from a sound set, is sound.
pub proof fn lemma_followed_sound<C: Cost>(
    first: Measured<C, Tree>,
    next: MeasuredSet<C, Tree>,
    bound: nat,
    max_width: nat,
)
    requires
        choiceless(first.document),
        sound(next, bound, max_width),
    ensures
        sound(followed(first, next), bound, max_width),
        next is Clean <==> followed(first, next) is Clean,
{
    let by = Lifting::After(first);
    match next {
        MeasuredSet::Clean(measures) => {
            let joined = lifted_all(measures, by);
            assert forall|i: int, j: int| 0 <= i < j < joined.len() implies {
                &&& (#[trigger] joined[i]).last_line_width > (#[trigger] joined[j]).last_line_width
                &&& joined[i].cost.le(joined[j].cost)
            } by {
                assert(measures[i].last_line_width > measures[j].last_line_width);
                C::plus_is_monotone(measures[i].cost, measures[j].cost, first.cost);
            }
            lemma_pruned_frontier(joined);
            let r = pruned(joined);
            assert forall|i: int| 0 <= i < r.len() implies choiceless((#[trigger] r[i]).document)
                && r[i].last_line_width <= bound && r[i].last_line_width <= max_width by {
                let k = choose|k: int| 0 <= k < joined.len() && joined[k] == r[i];
                assert(joined[k] == by.apply(measures[k]));
                assert(next.members()[k] == measures[k]);
                assert(choiceless(measures[k].document));
                lemma_pair_choiceless(first.document, measures[k].document);
            }
            assert(followed(first, next).members() == r);
        },
        MeasuredSet::Tainted(measure) => {
            assert(next.members()[0] == measure);
            lemma_pair_choiceless(first.document, measure.document);
            assert(followed(first, next).members()[0] == by.apply(measure));
        },
    }
}

proof fn lemma_pair_choiceless(first: Tree, second: Tree)
    requires
        choiceless(first),
        choiceless(second),
    ensures
        choiceless(Tree::Concat(seq![first, second])),
{
    let pair = seq![first, second];
    assert forall|i: int| 0 <= i < pair.len() implies choiceless(#[trigger] pair[i]) by {
        if i == 0 {
        } else {
        }
    }
}

/// Merging sound sets gives a sound set.
pub proof fn lemma_merge_sound<C: Cost>(
    a: MeasuredSet<C, Tree>,
    b: MeasuredSet<C, Tree>,
    bound: nat,
    max_width: nat,
)
    requires
        sound(a, bound, max_width),
        sound(b, bound, max_width),
    ensures
        sound(merge(a, b), bound, max_width),
{
    lemma_merge_well_formed(a, b);
    let r = merge(a, b);
    assert forall|i: int| 0 <= i < r.members().len() implies choiceless(
        (#[trigger] r.members()[i]).document,
    ) && r.members()[i].last_line_width <= bound by {
        let m = r.members()[i];
        if a.members().contains(m) {
            let k = choose|k: int| 0 <= k < a.members().len() && a.members()[k] == m;
            assert(choiceless(a.members()[k].document));
        } else {
            let k = choose|k: int| 0 <= k < b.members().len() && b.members()[k] == m;
            assert(choiceless(b.members()[k].document));
        }
    }
    if r is Clean {
        assert forall|i: int| 0 <= i < r.members().len() implies (
        #[trigger] r.members()[i]).last_line_width <= max_width by {
            let m = r.members()[i];
            match (a, b) {
                (MeasuredSet::Clean(x), MeasuredSet::Clean(y)) => {
                    if x.contains(m) {
                        let k = choose|k: int| 0 <= k < x.len() && x[k] == m;
                        assert(a.members()[k] == m);
                    } else {
                        let k = choose|k: int| 0 <= k < y.len() && y[k] == m;
                        assert(b.members()[k] == m);
                    }
                },
                (MeasuredSet::Clean(x), MeasuredSet::Tainted(_)) => {
                    assert(a.members()[i] == m);
                },
                (MeasuredSet::Tainted(_), MeasuredSet::Clean(y)) => {
                    assert(b.members()[i] == m);
                },
                (MeasuredSet::Tainted(_), MeasuredSet::Tainted(_)) => {},
            }
        }
    }
}

/// What follows the layouts of a clean set is sound where the layouts of
/// the following document are sound at each of their columns.
pub proof fn lemma_crossed_sound<C: Cost>(
    firsts: Seq<Measured<C, Tree>>,
    next: spec_fn(nat) -> MeasuredSet<C, Tree>,
    bound: nat,
    max_width: nat,
)
    requires
        firsts.len() > 0,
        forall|k: int| 0 <= k < firsts.len() ==> choiceless((#[trigger] firsts[k]).document),
        forall|k: int|
            0 <= k < firsts.len() ==> sound(
                next((#[trigger] firsts[k]).last_line_width),
                bound,
                max_width,
            ),
    ensures
        sound(crossed(firsts, next), bound, max_width),
    decreases firsts.len(),
{
    if firsts.len() == 1 {
        assert(choiceless(firsts[0].document));
        lemma_followed_sound(firsts[0], next(firsts[0].last_line_width), bound, max_width);
    } else {
        let front = firsts.drop_last();
        assert forall|k: int| 0 <= k < front.len() implies choiceless(
            (#[trigger] front[k]).document,
        ) && sound(next(front[k].last_line_width), bound, max_width) by {
            assert(front[k] == firsts[k]);
        }
        lemma_crossed_sound(front, next, bound, max_width);
        let last = firsts.last();
        assert(last == firsts[firsts.len() - 1]);
        assert(choiceless(last.document));
        lemma_followed_sound(last, next(last.last_line_width), bound, max_width);
        lemma_merge_sound(
            crossed(front, next),
            followed(last, next(last.last_line_width)),
            bound,
            max_width,
        );
    }
}

/// A sequence of documents keeps its layouts sound when one more document
/// is put at its end.
pub proof fn lemma_extended_sound<C: Cost>(
    so_far: MeasuredSet<C, Tree>,
    next: spec_fn(nat) -> MeasuredSet<C, Tree>,
    bound: nat,
    max_width: nat,
)
    requires
        so_far.well_formed(),
        forall|k: int|
            0 <= k < so_far.members().len() ==> choiceless(
                (#[trigger] so_far.members()[k]).document,
            ),
        forall|k: int|
            0 <= k < so_far.members().len() ==> sound(
                next((#[trigger] so_far.members()[k]).last_line_width),
                bound,
                max_width,
            ),
    ensures
        sound(extended(so_far, next), bound, max_width),
{
    match so_far {
        MeasuredSet::Clean(firsts) => {
            lemma_crossed_sound(firsts, next, bound, max_width);
        },
        MeasuredSet::Tainted(first) => {
            assert(so_far.members()[0] == first);
            let following = next(first.last_line_width);
            assert(sound(following, bound, max_width));
            let chosen = following.chosen();
            assert(following.members()[0] == chosen);
            lemma_pair_choiceless(first.document, chosen.document);
            let r = extended(so_far, next);
            assert(r.members()[0] == Lifting::After(first).apply(chosen));
        },
    }
}

/// Every resolved set is sound: a clean set is a Pareto frontier in order
/// whose layouts all end inside the width limit, and no document of any
/// measure holds a choice. No layout ends beyond the reach of the position.
pub proof fn lemma_resolved_sound<C: Cost>(tree: Tree, at: Position, max_width: nat)
    ensures
        sound(resolved::<C>(tree, at, max_width), reach(at, weight(tree)), max_width),
    decreases tree,
{
    let r = resolved::<C>(tree, at, max_width);
    let bound = reach(at, weight(tree));
    match tree {
        Tree::Text(text) => {
            assert(r.members()[0].document == tree);
        },
        Tree::Newline => {
            assert(r.members()[0].document == tree);
        },
        Tree::Concat(children) => {
            lemma_resolved_concat_sound::<C>(children, children.len(), at, max_width);
        },
        Tree::Nest(amount, child) => {
            lemma_resolved_sound::<C>(*child, at.nested(amount), max_width);
            lemma_sound_weaken(
                resolved::<C>(*child, at.nested(amount), max_width),
                reach(at.nested(amount), weight(*child)),
                bound,
                max_width,
            );
            lemma_wrapped_sound(
                resolved::<C>(*child, at.nested(amount), max_width),
                Lifting::Nest(amount),
                bound,
                max_width,
            );
        },
        Tree::Flatten(child) => {
            lemma_resolved_sound::<C>(*child, at.flattened(), max_width);
            lemma_wrapped_sound(
                resolved::<C>(*child, at.flattened(), max_width),
                Lifting::Flatten,
                bound,
                max_width,
            );
        },
        Tree::Union(first, second) => {
            lemma_resolved_sound::<C>(*first, at, max_width);
            lemma_resolved_sound::<C>(*second, at, max_width);
            lemma_sound_weaken(
                resolved::<C>(*first, at, max_width),
                reach(at, weight(*first)),
                bound,
                max_width,
            );
            lemma_sound_weaken(
                resolved::<C>(*second, at, max_width),
                reach(at, weight(*second)),
                bound,
                max_width,
            );
            lemma_merge_sound(
                resolved::<C>(*first, at, max_width),
                resolved::<C>(*second, at, max_width),
                bound,
                max_width,
            );
        },
    }
}

/// The same for the first `count` children of a `Concat`.
pub proof fn lemma_resolved_concat_sound<C: Cost>(
    children: Seq<Tree>,
    count: nat,
    at: Position,
    max_width: nat,
)
    ensures
        sound(
            resolved_concat::<C>(children, count, at, max_width),
            reach(at, total_weight(children, count)),
            max_width,
        ),
    decreases children, count,
{
    let r = resolved_concat::<C>(children, count, at, max_width);
    let bound = reach(at, total_weight(children, count));
    if count == 0 || count > children.len() {
        assert(r.members()[0].document == Tree::Concat(Seq::empty()));
        assert(choiceless(Tree::Concat(Seq::empty())));
        assert(sound(r, bound, max_width));
    } else if count == 1 {
        lemma_resolved_sound::<C>(children[0], at, max_width);
        assert(total_weight(children, 0) == 0);
        assert(total_weight(children, 1) == weight(children[0]));
        assert(sound(r, bound, max_width));
    } else {
        let before = (count - 1) as nat;
        let so_far = resolved_concat::<C>(children, before, at, max_width);
        let child = children[count - 1];
        let next = resolved_from::<C>(child, at, max_width);
        lemma_resolved_concat_sound::<C>(children, before, at, max_width);
        assert forall|k: int| 0 <= k < so_far.members().len() implies sound(
            next((#[trigger] so_far.members()[k]).last_line_width),
            bound,
            max_width,
        ) by {
            let column = so_far.members()[k].last_line_width;
            lemma_resolved_sound::<C>(child, at.at_column(column), max_width);
            lemma_sound_weaken(
                resolved::<C>(child, at.at_column(column), max_width),
                reach(at.at_column(column), weight(child)),
                bound,
                max_width,
            );
        }
        lemma_extended_sound(so_far, next, bound, max_width);
        assert(r == extended(so_far, next));
    }
}

} // verus!
