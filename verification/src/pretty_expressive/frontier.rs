use crate::pretty_expressive::cost::Cost;
use crate::pretty_expressive::measure::{
    better,
    covers,
    dominates,
    frontier,
    merge,
    merged,
    Measured,
    MeasuredSet,
};
use vstd::prelude::*;

verus! {

/// Some measure of `measures` is no worse than `x` in width and in cost.
pub open spec fn covered_by<C: Cost, D>(measures: Seq<Measured<C, D>>, x: Measured<C, D>) -> bool {
    exists|k: int| 0 <= k < measures.len() && covers(#[trigger] measures[k], x)
}

/// Every measure of `below` has some measure of `above` that is no worse.
pub open spec fn all_covered_by<C: Cost, D>(
    above: Seq<Measured<C, D>>,
    below: Seq<Measured<C, D>>,
) -> bool {
    forall|i: int| 0 <= i < below.len() ==> covered_by(above, #[trigger] below[i])
}

/// Every measure of `part` is a measure of `a` or of `b`.
pub open spec fn drawn_from<C: Cost, D>(
    part: Seq<Measured<C, D>>,
    a: Seq<Measured<C, D>>,
    b: Seq<Measured<C, D>>,
) -> bool {
    forall|i: int| 0 <= i < part.len() ==> a.contains(#[trigger] part[i]) || b.contains(part[i])
}

/// Every measure covers itself.
pub proof fn lemma_covers_itself<C: Cost, D>(x: Measured<C, D>)
    ensures
        covers(x, x),
{
    C::le_is_total(x.cost, x.cost);
}

/// A measure covers what is covered by a measure that it covers.
pub proof fn lemma_covers_transitive<C: Cost, D, E, F>(
    x: Measured<C, D>,
    y: Measured<C, E>,
    z: Measured<C, F>,
)
    requires
        covers(x, y),
        covers(y, z),
    ensures
        covers(x, z),
{
    C::le_is_transitive(x.cost, y.cost, z.cost);
}

/// No measure of a frontier dominates another, nor is it as wide and as
/// costly as another.
pub proof fn lemma_frontier_is_antichain<C: Cost, D>(measures: Seq<Measured<C, D>>, i: int, j: int)
    requires
        frontier(measures),
        0 <= i < measures.len(),
        0 <= j < measures.len(),
        i != j,
    ensures
        !covers(measures[i], measures[j]),
        !dominates(measures[i], measures[j]),
{
    if i < j {
        assert(measures[i].last_line_width > measures[j].last_line_width);
    } else {
        assert(measures[j].last_line_width > measures[i].last_line_width);
        assert(measures[j].cost.le(measures[i].cost));
        if measures[i].cost.le(measures[j].cost) {
            C::le_is_antisymmetric(measures[i].cost, measures[j].cost);
        }
    }
}

/// The measures of a frontier after its first are a frontier.
pub proof fn lemma_frontier_tail<C: Cost, D>(measures: Seq<Measured<C, D>>)
    requires
        frontier(measures),
        measures.len() > 0,
    ensures
        frontier(measures.drop_first()),
{
    let tail = measures.drop_first();
    assert forall|i: int, j: int| 0 <= i < j < tail.len() implies {
        &&& (#[trigger] tail[i]).last_line_width > (#[trigger] tail[j]).last_line_width
        &&& tail[i].cost.le(tail[j].cost)
        &&& tail[i].cost != tail[j].cost
    } by {
        assert(tail[i] == measures[i + 1]);
        assert(tail[j] == measures[j + 1]);
    }
}

/// The head `x` of one frontier comes before every measure of `rest`, where
/// `rest` is drawn from the tail of that frontier and from a second frontier
/// whose head is narrower than `x` and not covered by nor covering it.
proof fn lemma_head_before_rest<C: Cost, D>(
    own: Seq<Measured<C, D>>,
    other: Seq<Measured<C, D>>,
    rest: Seq<Measured<C, D>>,
)
    requires
        frontier(own),
        frontier(other),
        own.len() > 0,
        other.len() > 0,
        !covers(other[0], own[0]),
        own[0].last_line_width >= other[0].last_line_width,
        own[0].last_line_width > other[0].last_line_width || !covers(own[0], other[0]),
        drawn_from(rest, own.drop_first(), other),
        frontier(rest),
    ensures
        frontier(seq![own[0]] + rest),
{
    let x = own[0];
    let whole = seq![x] + rest;
    C::le_is_total(x.cost, other[0].cost);
    assert(x.cost.le(other[0].cost));
    assert(x.cost != other[0].cost) by {
        if x.cost == other[0].cost {
            C::le_is_total(x.cost, x.cost);
        }
    }
    assert(x.last_line_width > other[0].last_line_width);
    assert forall|i: int, j: int| 0 <= i < j < whole.len() implies {
        &&& (#[trigger] whole[i]).last_line_width > (#[trigger] whole[j]).last_line_width
        &&& whole[i].cost.le(whole[j].cost)
        &&& whole[i].cost != whole[j].cost
    } by {
        if i == 0 {
            let y = rest[j - 1];
            assert(whole[j] == y);
            assert(own.drop_first().contains(y) || other.contains(y));
            if own.drop_first().contains(y) {
                let k = choose|k: int| 0 <= k < own.drop_first().len() && own.drop_first()[k] == y;
                assert(own[k + 1] == y);
                assert(own[0].last_line_width > own[k + 1].last_line_width);
            } else {
                let k = choose|k: int| 0 <= k < other.len() && other[k] == y;
                if k > 0 {
                    assert(other[0].last_line_width > other[k].last_line_width);
                    C::le_is_transitive(x.cost, other[0].cost, y.cost);
                    if x.cost == y.cost {
                        C::le_is_antisymmetric(other[0].cost, y.cost);
                    }
                }
            }
        } else {
            assert(whole[i] == rest[i - 1]);
            assert(whole[j] == rest[j - 1]);
        }
    }
}

/// What merging two frontiers gives: a frontier again, made of measures of
/// the two, in which every measure of the two has one that is no worse.
pub proof fn lemma_merged_frontier<C: Cost, D>(a: Seq<Measured<C, D>>, b: Seq<Measured<C, D>>)
    requires
        frontier(a),
        frontier(b),
    ensures
        frontier(merged(a, b)),
        drawn_from(merged(a, b), a, b),
        all_covered_by(merged(a, b), a),
        all_covered_by(merged(a, b), b),
        a.len() + b.len() > 0 ==> merged(a, b).len() > 0,
    decreases a.len() + b.len(),
{
    let r = merged(a, b);
    if a.len() == 0 {
        assert forall|i: int| 0 <= i < b.len() implies covered_by(r, #[trigger] b[i]) by {
            lemma_covers_itself(b[i]);
            assert(covers(r[i], b[i]));
        }
    } else if b.len() == 0 {
        assert forall|i: int| 0 <= i < a.len() implies covered_by(r, #[trigger] a[i]) by {
            lemma_covers_itself(a[i]);
            assert(covers(r[i], a[i]));
        }
    } else if covers(a[0], b[0]) {
        let tail = b.drop_first();
        lemma_frontier_tail(b);
        lemma_merged_frontier(a, tail);
        assert forall|i: int| 0 <= i < r.len() implies a.contains(#[trigger] r[i]) || b.contains(
            r[i],
        ) by {
            if tail.contains(r[i]) {
                let k = choose|k: int| 0 <= k < tail.len() && tail[k] == r[i];
                assert(b[k + 1] == r[i]);
            }
        }
        assert forall|i: int| 0 <= i < b.len() implies covered_by(r, #[trigger] b[i]) by {
            if i == 0 {
                assert(covered_by(r, a[0]));
                let k = choose|k: int| 0 <= k < r.len() && covers(#[trigger] r[k], a[0]);
                lemma_covers_transitive(r[k], a[0], b[0]);
            } else {
                assert(tail[i - 1] == b[i]);
                assert(covered_by(r, tail[i - 1]));
            }
        }
    } else if covers(b[0], a[0]) {
        let tail = a.drop_first();
        lemma_frontier_tail(a);
        lemma_merged_frontier(tail, b);
        assert forall|i: int| 0 <= i < r.len() implies a.contains(#[trigger] r[i]) || b.contains(
            r[i],
        ) by {
            if tail.contains(r[i]) {
                let k = choose|k: int| 0 <= k < tail.len() && tail[k] == r[i];
                assert(a[k + 1] == r[i]);
            }
        }
        assert forall|i: int| 0 <= i < a.len() implies covered_by(r, #[trigger] a[i]) by {
            if i == 0 {
                assert(covered_by(r, b[0]));
                let k = choose|k: int| 0 <= k < r.len() && covers(#[trigger] r[k], b[0]);
                lemma_covers_transitive(r[k], b[0], a[0]);
            } else {
                assert(tail[i - 1] == a[i]);
                assert(covered_by(r, tail[i - 1]));
            }
        }
    } else if a[0].last_line_width > b[0].last_line_width {
        let tail = a.drop_first();
        let rest = merged(tail, b);
        lemma_frontier_tail(a);
        lemma_merged_frontier(tail, b);
        lemma_head_before_rest(a, b, rest);
        assert(r == seq![a[0]] + rest);
        assert forall|i: int| 0 <= i < r.len() implies a.contains(#[trigger] r[i]) || b.contains(
            r[i],
        ) by {
            if i == 0 {
                assert(a[0] == r[0]);
            } else {
                assert(r[i] == rest[i - 1]);
                if tail.contains(rest[i - 1]) {
                    let k = choose|k: int| 0 <= k < tail.len() && tail[k] == rest[i - 1];
                    assert(a[k + 1] == r[i]);
                }
            }
        }
        assert forall|i: int| 0 <= i < a.len() implies covered_by(r, #[trigger] a[i]) by {
            if i == 0 {
                lemma_covers_itself(a[0]);
                assert(covers(r[0], a[0]));
            } else {
                assert(tail[i - 1] == a[i]);
                assert(covered_by(rest, tail[i - 1]));
                let k = choose|k: int| 0 <= k < rest.len() && covers(#[trigger] rest[k], a[i]);
                assert(r[k + 1] == rest[k]);
                assert(covers(r[k + 1], a[i]));
            }
        }
        assert forall|i: int| 0 <= i < b.len() implies covered_by(r, #[trigger] b[i]) by {
            assert(covered_by(rest, b[i]));
            let k = choose|k: int| 0 <= k < rest.len() && covers(#[trigger] rest[k], b[i]);
            assert(r[k + 1] == rest[k]);
            assert(covers(r[k + 1], b[i]));
        }
    } else {
        let tail = b.drop_first();
        let rest = merged(a, tail);
        lemma_frontier_tail(b);
        lemma_merged_frontier(a, tail);
        assert(drawn_from(rest, tail, a));
        lemma_head_before_rest(b, a, rest);
        assert(r == seq![b[0]] + rest);
        assert forall|i: int| 0 <= i < r.len() implies a.contains(#[trigger] r[i]) || b.contains(
            r[i],
        ) by {
            if i == 0 {
                assert(b[0] == r[0]);
            } else {
                assert(r[i] == rest[i - 1]);
                if tail.contains(rest[i - 1]) {
                    let k = choose|k: int| 0 <= k < tail.len() && tail[k] == rest[i - 1];
                    assert(b[k + 1] == r[i]);
                }
            }
        }
        assert forall|i: int| 0 <= i < b.len() implies covered_by(r, #[trigger] b[i]) by {
            if i == 0 {
                lemma_covers_itself(b[0]);
                assert(covers(r[0], b[0]));
            } else {
                assert(tail[i - 1] == b[i]);
                assert(covered_by(rest, tail[i - 1]));
                let k = choose|k: int| 0 <= k < rest.len() && covers(#[trigger] rest[k], b[i]);
                assert(r[k + 1] == rest[k]);
                assert(covers(r[k + 1], b[i]));
            }
        }
        assert forall|i: int| 0 <= i < a.len() implies covered_by(r, #[trigger] a[i]) by {
            assert(covered_by(rest, a[i]));
            let k = choose|k: int| 0 <= k < rest.len() && covers(#[trigger] rest[k], a[i]);
            assert(r[k + 1] == rest[k]);
            assert(covers(r[k + 1], a[i]));
        }
    }
}

/// Merging well-formed sets gives a well-formed set.
pub proof fn lemma_merge_well_formed<C: Cost, D>(a: MeasuredSet<C, D>, b: MeasuredSet<C, D>)
    requires
        a.well_formed(),
        b.well_formed(),
    ensures
        merge(a, b).well_formed(),
        forall|i: int|
            0 <= i < merge(a, b).members().len() ==> a.members().contains(
                #[trigger] merge(a, b).members()[i],
            ) || b.members().contains(merge(a, b).members()[i]),
{
    match (a, b) {
        (MeasuredSet::Clean(x), MeasuredSet::Clean(y)) => {
            lemma_merged_frontier(x, y);
        },
        (MeasuredSet::Clean(x), MeasuredSet::Tainted(_)) => {
            assert forall|i: int| 0 <= i < x.len() implies x.contains(#[trigger] x[i]) by {}
        },
        (MeasuredSet::Tainted(_), MeasuredSet::Clean(y)) => {
            assert forall|i: int| 0 <= i < y.len() implies y.contains(#[trigger] y[i]) by {}
        },
        (MeasuredSet::Tainted(x), MeasuredSet::Tainted(y)) => {
            assert(seq![x][0] == x);
            assert(seq![y][0] == y);
            assert(merge(a, b).members()[0] == better(x, y));
        },
    }
}

} // verus!
