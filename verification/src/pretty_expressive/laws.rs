use crate::pretty_expressive::cost::Cost;
use crate::pretty_expressive::frontier::{
    all_covered_by,
    covered_by,
    drawn_from,
    lemma_covers_transitive,
    lemma_frontier_is_antichain,
    lemma_frontier_tail,
    lemma_merged_frontier,
};
use crate::pretty_expressive::cost::{excess, squared_overflow, Example3_5};
use crate::pretty_expressive::document::Tree;
use crate::pretty_expressive::layout::{
    choiceless,
    crossed,
    followed,
    lifted,
    lifted_all,
    measured,
    measured_concat,
    pruned,
    resolved,
    resolved_concat,
    resolved_from,
    Lifting,
    Position,
};
use crate::pretty_expressive::measure::{
    better,
    covers,
    dominates,
    frontier,
    merge,
    merged,
    tainted,
    Measured,
    MeasuredSet,
};
use vstd::prelude::*;

verus! {

/// The widths and costs of the measures, in order, without their documents.
pub open spec fn outline<C, D>(measures: Seq<Measured<C, D>>) -> Seq<(nat, C)> {
    Seq::new(measures.len(), |i: int| (measures[i].last_line_width, measures[i].cost))
}

/// Two sets hold the same frontier: both are clean or both are tainted, and
/// their measures have the same widths and costs in the same order.
pub open spec fn same_frontier<C: Cost, D>(a: MeasuredSet<C, D>, b: MeasuredSet<C, D>) -> bool {
    (a is Clean <==> b is Clean) && outline(a.members()) == outline(b.members())
}

proof fn lemma_tails_cover<C: Cost, D>(r: Seq<Measured<C, D>>, s: Seq<Measured<C, D>>)
    requires
        frontier(r),
        frontier(s),
        r.len() > 0,
        s.len() > 0,
        all_covered_by(s, r),
        r[0].last_line_width == s[0].last_line_width,
        r[0].cost == s[0].cost,
    ensures
        all_covered_by(s.drop_first(), r.drop_first()),
{
    let rt = r.drop_first();
    let st = s.drop_first();
    assert forall|i: int| 0 <= i < rt.len() implies covered_by(st, #[trigger] rt[i]) by {
        assert(rt[i] == r[i + 1]);
        assert(covered_by(s, r[i + 1]));
        let j = choose|j: int| 0 <= j < s.len() && covers(#[trigger] s[j], r[i + 1]);
        if j == 0 {
            assert(covers(r[0], r[i + 1]));
            lemma_frontier_is_antichain(r, 0, i + 1);
        }
        assert(st[j - 1] == s[j]);
        assert(covers(st[j - 1], rt[i]));
    }
}

/// The head of a frontier has the width and cost of a measure of any
/// frontier that covers it and is covered by it.
proof fn lemma_head_matched<C: Cost, D>(r: Seq<Measured<C, D>>, s: Seq<Measured<C, D>>) -> (j: int)
    requires
        frontier(r),
        frontier(s),
        r.len() > 0,
        all_covered_by(s, r),
        all_covered_by(r, s),
    ensures
        0 <= j < s.len(),
        s[j].last_line_width == r[0].last_line_width,
        s[j].cost == r[0].cost,
{
    assert(covered_by(s, r[0]));
    let j = choose|j: int| 0 <= j < s.len() && covers(#[trigger] s[j], r[0]);
    assert(covered_by(r, s[j]));
    let i = choose|i: int| 0 <= i < r.len() && covers(#[trigger] r[i], s[j]);
    lemma_covers_transitive(r[i], s[j], r[0]);
    if i != 0 {
        lemma_frontier_is_antichain(r, i, 0);
    }
    C::le_is_antisymmetric(r[0].cost, s[j].cost);
    j
}

proof fn lemma_heads_equal<C: Cost, D>(r: Seq<Measured<C, D>>, s: Seq<Measured<C, D>>)
    requires
        frontier(r),
        frontier(s),
        r.len() > 0,
        all_covered_by(s, r),
        all_covered_by(r, s),
    ensures
        s.len() > 0,
        s[0].last_line_width == r[0].last_line_width,
        s[0].cost == r[0].cost,
{
    let j = lemma_head_matched(r, s);
    let i = lemma_head_matched(s, r);
    if j != 0 {
        assert(s[0].last_line_width > s[j].last_line_width);
        if i != 0 {
            assert(r[0].last_line_width > r[i].last_line_width);
        }
    }
}

proof fn lemma_outline_tail<C: Cost, D>(r: Seq<Measured<C, D>>, s: Seq<Measured<C, D>>)
    requires
        r.len() > 0,
        s.len() > 0,
        s[0].last_line_width == r[0].last_line_width,
        s[0].cost == r[0].cost,
        outline(r.drop_first()) == outline(s.drop_first()),
    ensures
        outline(r) == outline(s),
{
    let a = outline(r);
    let b = outline(s);
    assert(outline(r.drop_first()).len() == r.len() - 1);
    assert(outline(s.drop_first()).len() == s.len() - 1);
    assert(a.len() == b.len());
    assert forall|k: int| 0 <= k < a.len() implies a[k] == b[k] by {
        if k > 0 {
            assert(outline(r.drop_first())[k - 1] == outline(s.drop_first())[k - 1]);
            assert(r.drop_first()[k - 1] == r[k]);
            assert(s.drop_first()[k - 1] == s[k]);
        }
    }
    assert(a =~= b);
}

/// Two frontiers, each of which has for every measure of the other one that
/// is no worse, have the same widths and costs in the same order.
pub proof fn lemma_frontier_unique<C: Cost, D>(r: Seq<Measured<C, D>>, s: Seq<Measured<C, D>>)
    requires
        frontier(r),
        frontier(s),
        all_covered_by(s, r),
        all_covered_by(r, s),
    ensures
        outline(r) == outline(s),
    decreases r.len(),
{
    if r.len() == 0 {
        if s.len() > 0 {
            assert(covered_by(r, s[0]));
        }
        assert(outline(r) =~= outline(s));
    } else {
        lemma_heads_equal(r, s);
        lemma_tails_cover(r, s);
        lemma_tails_cover(s, r);
        lemma_frontier_tail(r);
        lemma_frontier_tail(s);
        lemma_frontier_unique(r.drop_first(), s.drop_first());
        lemma_outline_tail(r, s);
    }
}

proof fn lemma_drawn_covered<C: Cost, D>(
    part: Seq<Measured<C, D>>,
    a: Seq<Measured<C, D>>,
    b: Seq<Measured<C, D>>,
    above: Seq<Measured<C, D>>,
)
    requires
        drawn_from(part, a, b),
        all_covered_by(above, a),
        all_covered_by(above, b),
    ensures
        all_covered_by(above, part),
{
    assert forall|i: int| 0 <= i < part.len() implies covered_by(above, #[trigger] part[i]) by {
        if a.contains(part[i]) {
            let k = choose|k: int| 0 <= k < a.len() && a[k] == part[i];
            assert(covered_by(above, a[k]));
        } else {
            let k = choose|k: int| 0 <= k < b.len() && b[k] == part[i];
            assert(covered_by(above, b[k]));
        }
    }
}

proof fn lemma_covered_through<C: Cost, D>(
    below: Seq<Measured<C, D>>,
    middle: Seq<Measured<C, D>>,
    above: Seq<Measured<C, D>>,
)
    requires
        all_covered_by(middle, below),
        all_covered_by(above, middle),
    ensures
        all_covered_by(above, below),
{
    assert forall|i: int| 0 <= i < below.len() implies covered_by(above, #[trigger] below[i]) by {
        assert(covered_by(middle, below[i]));
        let j = choose|j: int| 0 <= j < middle.len() && covers(#[trigger] middle[j], below[i]);
        assert(covered_by(above, middle[j]));
        let k = choose|k: int| 0 <= k < above.len() && covers(#[trigger] above[k], middle[j]);
        lemma_covers_transitive(above[k], middle[j], below[i]);
    }
}

/// Merging two frontiers gives the same widths and costs in either order.
pub proof fn lemma_merged_commutative<C: Cost, D>(a: Seq<Measured<C, D>>, b: Seq<Measured<C, D>>)
    requires
        frontier(a),
        frontier(b),
    ensures
        outline(merged(a, b)) == outline(merged(b, a)),
{
    lemma_merged_frontier(a, b);
    lemma_merged_frontier(b, a);
    lemma_drawn_covered(merged(a, b), a, b, merged(b, a));
    lemma_drawn_covered(merged(b, a), b, a, merged(a, b));
    lemma_frontier_unique(merged(a, b), merged(b, a));
}

/// Merging three frontiers gives the same widths and costs however the
/// merges are grouped.
pub proof fn lemma_merged_associative<C: Cost, D>(
    a: Seq<Measured<C, D>>,
    b: Seq<Measured<C, D>>,
    c: Seq<Measured<C, D>>,
)
    requires
        frontier(a),
        frontier(b),
        frontier(c),
    ensures
        outline(merged(merged(a, b), c)) == outline(merged(a, merged(b, c))),
{
    let ab = merged(a, b);
    let bc = merged(b, c);
    let left = merged(ab, c);
    let right = merged(a, bc);
    lemma_merged_frontier(a, b);
    lemma_merged_frontier(b, c);
    lemma_merged_frontier(ab, c);
    lemma_merged_frontier(a, bc);
    lemma_covered_through(b, bc, right);
    lemma_covered_through(c, bc, right);
    lemma_covered_through(a, ab, left);
    lemma_covered_through(b, ab, left);
    lemma_drawn_covered(ab, a, b, right);
    lemma_drawn_covered(left, ab, c, right);
    lemma_drawn_covered(bc, b, c, left);
    lemma_drawn_covered(right, a, bc, left);
    lemma_frontier_unique(left, right);
}

/// The better of two measures has the same width and cost whichever comes
/// first.
pub proof fn lemma_better_commutative<C: Cost, D>(x: Measured<C, D>, y: Measured<C, D>)
    ensures
        better(x, y).last_line_width == better(y, x).last_line_width,
        better(x, y).cost == better(y, x).cost,
{
    C::le_is_total(x.cost, y.cost);
    if x.cost.le(y.cost) && y.cost.le(x.cost) {
        C::le_is_antisymmetric(x.cost, y.cost);
    }
}

/// The best of three measures has the same width and cost however the
/// comparisons are grouped.
pub proof fn lemma_better_associative<C: Cost, D>(
    x: Measured<C, D>,
    y: Measured<C, D>,
    z: Measured<C, D>,
)
    ensures
        better(better(x, y), z).last_line_width == better(x, better(y, z)).last_line_width,
        better(better(x, y), z).cost == better(x, better(y, z)).cost,
{
    C::le_is_total(x.cost, y.cost);
    C::le_is_total(y.cost, z.cost);
    C::le_is_total(x.cost, z.cost);
    if x.cost.le(y.cost) && y.cost.le(x.cost) {
        C::le_is_antisymmetric(x.cost, y.cost);
    }
    if y.cost.le(z.cost) && z.cost.le(y.cost) {
        C::le_is_antisymmetric(y.cost, z.cost);
    }
    if x.cost.le(z.cost) && z.cost.le(x.cost) {
        C::le_is_antisymmetric(x.cost, z.cost);
    }
    if x.cost.le(y.cost) && y.cost.le(z.cost) {
        C::le_is_transitive(x.cost, y.cost, z.cost);
    }
    if x.cost.le(z.cost) && z.cost.le(y.cost) {
        C::le_is_transitive(x.cost, z.cost, y.cost);
    }
    if y.cost.le(x.cost) && x.cost.le(z.cost) {
        C::le_is_transitive(y.cost, x.cost, z.cost);
    }
    if y.cost.le(z.cost) && z.cost.le(x.cost) {
        C::le_is_transitive(y.cost, z.cost, x.cost);
    }
    if z.cost.le(x.cost) && x.cost.le(y.cost) {
        C::le_is_transitive(z.cost, x.cost, y.cost);
    }
    if z.cost.le(y.cost) && y.cost.le(x.cost) {
        C::le_is_transitive(z.cost, y.cost, x.cost);
    }
}

/// Merging measure sets is commutative: the two orders give the same
/// frontier.
pub proof fn merge_is_commutative<C: Cost, D>(a: MeasuredSet<C, D>, b: MeasuredSet<C, D>)
    requires
        a.well_formed(),
        b.well_formed(),
    ensures
        same_frontier(merge(a, b), merge(b, a)),
{
    match (a, b) {
        (MeasuredSet::Clean(x), MeasuredSet::Clean(y)) => {
            lemma_merged_commutative(x, y);
        },
        (MeasuredSet::Tainted(x), MeasuredSet::Tainted(y)) => {
            lemma_better_commutative(x, y);
            assert(outline(seq![better(x, y)]) =~= outline(seq![better(y, x)]));
        },
        _ => {},
    }
}

/// Merging measure sets is associative: the two groupings give the same
/// frontier.
pub proof fn merge_is_associative<C: Cost, D>(
    a: MeasuredSet<C, D>,
    b: MeasuredSet<C, D>,
    c: MeasuredSet<C, D>,
)
    requires
        a.well_formed(),
        b.well_formed(),
        c.well_formed(),
    ensures
        same_frontier(merge(merge(a, b), c), merge(a, merge(b, c))),
{
    match (a, b, c) {
        (MeasuredSet::Clean(x), MeasuredSet::Clean(y), MeasuredSet::Clean(z)) => {
            lemma_merged_associative(x, y, z);
        },
        (MeasuredSet::Tainted(x), MeasuredSet::Tainted(y), MeasuredSet::Tainted(z)) => {
            lemma_better_associative(x, y, z);
            assert(outline(seq![better(better(x, y), z)]) =~= outline(
                seq![better(x, better(y, z))],
            ));
        },
        _ => {},
    }
}

/// Tainting a set twice is tainting it once.
pub proof fn taint_is_idempotent<C: Cost, D>(set: MeasuredSet<C, D>)
    ensures
        tainted(tainted(set)) == tainted(set),
{
}

/// Dominance is a strict partial order: no measure dominates itself, and a
/// measure that dominates a second, which dominates a third, dominates the
/// third.
pub proof fn dominance_is_partial_order<C: Cost, D>(
    x: Measured<C, D>,
    y: Measured<C, D>,
    z: Measured<C, D>,
)
    ensures
        !dominates(x, x),
        dominates(x, y) ==> !dominates(y, x),
        dominates(x, y) && dominates(y, z) ==> dominates(x, z),
{
    if dominates(x, y) {
        if dominates(y, x) {
            C::le_is_antisymmetric(x.cost, y.cost);
        }
        if dominates(y, z) {
            C::le_is_transitive(x.cost, y.cost, z.cost);
            if x.last_line_width == z.last_line_width && x.cost == z.cost {
                C::le_is_antisymmetric(x.cost, y.cost);
            }
        }
    }
}

/// No measure of a well-formed set dominates another measure of it.
pub proof fn clean_sets_hold_no_dominated_measure<C: Cost, D>(
    set: MeasuredSet<C, D>,
    i: int,
    j: int,
)
    requires
        set.well_formed(),
        0 <= i < set.members().len(),
        0 <= j < set.members().len(),
    ensures
        !dominates(set.members()[i], set.members()[j]),
{
    if i != j {
        match set {
            MeasuredSet::Clean(measures) => {
                lemma_frontier_is_antichain(measures, i, j);
            },
            MeasuredSet::Tainted(_) => {},
        }
    }
}

/// The chosen measure of a well-formed set is its cheapest, and no measure
/// of the set costs as little.
pub proof fn chosen_is_cheapest<C: Cost, D>(set: MeasuredSet<C, D>, i: int)
    requires
        set.well_formed(),
        0 <= i < set.members().len(),
    ensures
        set.chosen().cost.le(set.members()[i].cost),
        i != 0 ==> set.chosen().cost != set.members()[i].cost,
{
    C::le_is_total(set.chosen().cost, set.chosen().cost);
}


/// A `Flatten` directly inside a `Flatten` changes no layout: the layouts of
/// `Flatten(Flatten(d))` are those of `Flatten(d)`, measure for measure,
/// with one more `Flatten` around each document.
pub proof fn flatten_is_idempotent<C: Cost>(tree: Tree, at: Position, max_width: nat)
    ensures
        resolved::<C>(Tree::Flatten(Box::new(Tree::Flatten(Box::new(tree)))), at, max_width)
            == lifted(
            resolved::<C>(Tree::Flatten(Box::new(tree)), at, max_width),
            Lifting::Flatten,
        ),
        same_frontier(
            resolved::<C>(Tree::Flatten(Box::new(Tree::Flatten(Box::new(tree)))), at, max_width),
            resolved::<C>(Tree::Flatten(Box::new(tree)), at, max_width),
        ),
{
    let once = Tree::Flatten(Box::new(tree));
    let twice = Tree::Flatten(Box::new(once));
    assert(at.flattened().flattened() == at.flattened());
    assert(resolved::<C>(twice, at, max_width) == lifted(
        resolved::<C>(once, at.flattened(), max_width),
        Lifting::Flatten,
    ));
    assert(resolved::<C>(once, at.flattened(), max_width) == resolved::<C>(
        once,
        at,
        max_width,
    ));
    let inner = resolved::<C>(once, at, max_width);
    lemma_lifted_same_frontier(inner, Lifting::Flatten);
}

/// Wrapping the documents of a set changes no width and no cost.
pub proof fn lemma_lifted_same_frontier<C: Cost>(set: MeasuredSet<C, Tree>, by: Lifting<C>)
    requires
        by is Nest || by is Flatten,
    ensures
        same_frontier(lifted(set, by), set),
{
    match set {
        MeasuredSet::Clean(measures) => {
            assert(outline(lifted_all(measures, by)) =~= outline(measures));
        },
        MeasuredSet::Tainted(measure) => {
            assert(outline(seq![by.apply(measure)]) =~= outline(seq![measure]));
        },
    }
}

/// The set holds one measure, which has the width and the cost of
/// `measure`.
pub open spec fn only<C: Cost>(set: MeasuredSet<C, Tree>, measure: Measured<C, Tree>) -> bool {
    &&& set.members().len() == 1
    &&& set.chosen().last_line_width == measure.last_line_width
    &&& set.chosen().cost == measure.cost
}

/// A document without choices has one layout: resolving it gives one
/// measure, with the width and the cost that measuring it gives.
pub proof fn choiceless_resolves_to_its_measure<C: Cost>(tree: Tree, at: Position, max_width: nat)
    requires
        choiceless(tree),
    ensures
        only(resolved::<C>(tree, at, max_width), measured::<C>(tree, at, max_width)),
    decreases tree,
{
    match tree {
        Tree::Text(_) => {},
        Tree::Newline => {},
        Tree::Concat(children) => {
            lemma_choiceless_concat::<C>(children, children.len(), at, max_width);
        },
        Tree::Nest(amount, child) => {
            choiceless_resolves_to_its_measure::<C>(*child, at.nested(amount), max_width);
        },
        Tree::Flatten(child) => {
            choiceless_resolves_to_its_measure::<C>(*child, at.flattened(), max_width);
        },
        Tree::Union(_, _) => {},
    }
}

proof fn lemma_choiceless_concat<C: Cost>(
    children: Seq<Tree>,
    count: nat,
    at: Position,
    max_width: nat,
)
    requires
        forall|i: int| 0 <= i < children.len() ==> choiceless(#[trigger] children[i]),
    ensures
        only(
            resolved_concat::<C>(children, count, at, max_width),
            measured_concat::<C>(children, count, at, max_width),
        ),
    decreases children, count,
{
    if count == 0 || count > children.len() {
    } else if count == 1 {
        choiceless_resolves_to_its_measure::<C>(children[0], at, max_width);
    } else {
        let so_far = resolved_concat::<C>(children, (count - 1) as nat, at, max_width);
        let before = measured_concat::<C>(children, (count - 1) as nat, at, max_width);
        lemma_choiceless_concat::<C>(children, (count - 1) as nat, at, max_width);
        let child = children[count - 1];
        let first = so_far.chosen();
        let column = first.last_line_width;
        let next = resolved::<C>(child, at.at_column(column), max_width);
        choiceless_resolves_to_its_measure::<C>(child, at.at_column(column), max_width);
        let by = Lifting::After(first);
        assert(resolved_from::<C>(child, at, max_width)(column) == next);
        match so_far {
            MeasuredSet::Clean(firsts) => {
                assert(firsts.len() == 1);
                assert(crossed(firsts, resolved_from::<C>(child, at, max_width)) == followed(
                    first,
                    next,
                ));
                match next {
                    MeasuredSet::Clean(measures) => {
                        assert(measures.len() == 1);
                        let joined = lifted_all(measures, by);
                        assert(joined.len() == 1);
                        assert(pruned(joined) == joined);
                        assert(joined[0] == by.apply(measures[0]));
                    },
                    MeasuredSet::Tainted(_) => {},
                }
            },
            MeasuredSet::Tainted(_) => {},
        }
    }
}

/// Text costs no more under `wide` than under `narrow`.
pub open spec fn cheaper_when_wider<C: Cost>(narrow: nat, wide: nat) -> bool {
    forall|column: nat, length: nat| #[trigger]
        C::text(column, length, wide).le(C::text(column, length, narrow))
}

/// For a document without choices, a larger width limit never raises the
/// cost of its layout, and never moves the end of its last line, where text
/// costs no more under the larger limit.
pub proof fn wider_never_costs_more<C: Cost>(tree: Tree, at: Position, narrow: nat, wide: nat)
    requires
        cheaper_when_wider::<C>(narrow, wide),
    ensures
        measured::<C>(tree, at, wide).cost.le(measured::<C>(tree, at, narrow).cost),
        measured::<C>(tree, at, wide).last_line_width == measured::<C>(
            tree,
            at,
            narrow,
        ).last_line_width,
    decreases tree,
{
    match tree {
        Tree::Text(_) => {},
        Tree::Newline => {
            C::le_is_total(C::newline(), C::newline());
        },
        Tree::Concat(children) => {
            lemma_wider_concat::<C>(children, children.len(), at, narrow, wide);
        },
        Tree::Nest(amount, child) => {
            wider_never_costs_more::<C>(*child, at.nested(amount), narrow, wide);
        },
        Tree::Flatten(child) => {
            wider_never_costs_more::<C>(*child, at.flattened(), narrow, wide);
        },
        Tree::Union(first, _) => {
            wider_never_costs_more::<C>(*first, at, narrow, wide);
        },
    }
}

proof fn lemma_wider_concat<C: Cost>(
    children: Seq<Tree>,
    count: nat,
    at: Position,
    narrow: nat,
    wide: nat,
)
    requires
        cheaper_when_wider::<C>(narrow, wide),
    ensures
        measured_concat::<C>(children, count, at, wide).cost.le(
            measured_concat::<C>(children, count, at, narrow).cost,
        ),
        measured_concat::<C>(children, count, at, wide).last_line_width == measured_concat::<C>(
            children,
            count,
            at,
            narrow,
        ).last_line_width,
    decreases children, count,
{
    if count == 0 || count > children.len() {
    } else if count == 1 {
        wider_never_costs_more::<C>(children[0], at, narrow, wide);
    } else {
        let before_wide = measured_concat::<C>(children, (count - 1) as nat, at, wide);
        let before_narrow = measured_concat::<C>(children, (count - 1) as nat, at, narrow);
        lemma_wider_concat::<C>(children, (count - 1) as nat, at, narrow, wide);
        let next = at.at_column(before_wide.last_line_width);
        wider_never_costs_more::<C>(children[count - 1], next, narrow, wide);
        let last_wide = measured::<C>(children[count - 1], next, wide);
        let last_narrow = measured::<C>(children[count - 1], next, narrow);
        C::plus_is_monotone(before_wide.cost, before_narrow.cost, last_wide.cost);
        C::plus_is_monotone(last_wide.cost, last_narrow.cost, before_narrow.cost);
        C::le_is_transitive(
            before_wide.cost.plus(last_wide.cost),
            before_narrow.cost.plus(last_wide.cost),
            before_narrow.cost.plus(last_narrow.cost),
        );
    }
}

proof fn lemma_squares_shrink(x: nat, y: nat, x2: nat, y2: nat)
    requires
        x <= y,
        x2 <= y2,
        x2 <= x,
        y2 <= y,
        y2 - x2 <= y - x,
    ensures
        y2 * y2 - x2 * x2 <= y * y - x * x,
        0 <= y2 * y2 - x2 * x2,
{
    assert(y * y - x * x == (y - x) * (y + x)) by (nonlinear_arith);
    assert(y2 * y2 - x2 * x2 == (y2 - x2) * (y2 + x2)) by (nonlinear_arith);
    assert((y2 - x2) * (y2 + x2) <= (y - x) * (y + x)) by (nonlinear_arith)
        requires
            0 <= y2 - x2 <= y - x,
            0 <= y2 + x2 <= y + x,
    ;
    assert(0 <= (y2 - x2) * (y2 + x2)) by (nonlinear_arith)
        requires
            0 <= y2 - x2,
            0 <= y2 + x2,
    ;
}

/// Under the squared-overflow cost, text costs no more under a larger width
/// limit.
pub proof fn example_is_cheaper_when_wider(narrow: nat, wide: nat)
    requires
        narrow <= wide,
    ensures
        cheaper_when_wider::<Example3_5>(narrow, wide),
{
    assert forall|column: nat, length: nat| #[trigger]
        Example3_5::text(column, length, wide).le(Example3_5::text(column, length, narrow)) by {
        lemma_squares_shrink(
            excess(column, narrow),
            excess(column + length, narrow),
            excess(column, wide),
            excess(column + length, wide),
        );
        let a = squared_overflow(column, length, wide);
        let b = squared_overflow(column, length, narrow);
        assert(a <= b);
        assert(a * 0x1_0000_0000_0000_0000 <= b * 0x1_0000_0000_0000_0000) by (nonlinear_arith)
            requires
                a <= b,
        ;
    }
}

} // verus!
