use crate::pretty_expressive::cost::Cost;
use crate::pretty_expressive::document::{
    grown_from,
    lemma_tree_of_grown,
    positions,
    tree_of,
    trees_of,
    Document,
    Node,
};
use crate::pretty_expressive::interned_map::InternedMap;
use crate::pretty_expressive::layout::{followed, lifted, lifted_all, pruned, Lifting};
use crate::pretty_expressive::measure::{
    frontier,
    merged,
    reading,
    retold,
    retold_all,
    retold_set,
    views,
    Measure,
    MeasureSet,
    Measured,
    MeasuredSet,
};
use vstd::prelude::*;

verus! {

/// What is done to each measure of a child to get a measure of its parent.
pub enum Lift<C: Cost> {
    /// The document is wrapped in a `Nest` of this amount.
    Nest(usize),
    /// The document is wrapped in a `Flatten`.
    Flatten,
    /// The layout follows this one.
    After(Measure<C>),
}

impl<C: Cost> Lift<C> {
    /// The lift with its document read in `arena`.
    pub open spec fn read_in(&self, arena: Seq<Node>) -> Lifting<C> {
        match *self {
            Lift::Nest(amount) => Lifting::Nest(amount as nat),
            Lift::Flatten => Lifting::Flatten,
            Lift::After(first) => Lifting::After(first.read_in(arena)),
        }
    }

    /// The document of the lift is a key of `arena`.
    pub open spec fn within(&self, arena: Seq<Node>) -> bool {
        match *self {
            Lift::After(first) => first.document@ < arena.len(),
            _ => true,
        }
    }
}

/// A measure reads the same in an arena that has grown.
pub proof fn lemma_measure_read_in_grown<C: Cost>(
    measure: Measure<C>,
    later: Seq<Node>,
    earlier: Seq<Node>,
)
    requires
        grown_from(later, earlier),
        measure.document@ < earlier.len(),
    ensures
        measure.read_in(later) == measure.read_in(earlier),
{
    lemma_tree_of_grown(later, earlier, measure.document@);
}

/// A measure set reads the same in an arena that has grown.
pub proof fn lemma_read_in_grown<C: Cost>(set: MeasureSet<C>, later: Seq<Node>, earlier: Seq<Node>)
    requires
        grown_from(later, earlier),
        set.within(earlier),
    ensures
        set.read_in(later) == set.read_in(earlier),
        set.within(later),
{
    match set {
        MeasureSet::Clean(measures) => {
            let a = retold_all(views(measures@), reading(later));
            let b = retold_all(views(measures@), reading(earlier));
            assert forall|i: int| 0 <= i < a.len() implies a[i] == b[i] by {
                assert(set@.members()[i] == measures@[i]@);
                lemma_measure_read_in_grown(measures@[i], later, earlier);
            }
            assert(a =~= b);
        },
        MeasureSet::Tainted(measure) => {
            assert(set@.members()[0] == measure@);
            lemma_measure_read_in_grown(measure, later, earlier);
        },
    }
}

/// Retelling documents changes no width and no cost: a set is well formed
/// exactly when it is after retelling.
pub proof fn lemma_retold_well_formed<C: Cost, D, E>(set: MeasuredSet<C, D>, f: spec_fn(D) -> E)
    ensures
        retold_set(set, f).well_formed() == set.well_formed(),
        retold_set(set, f).members() == retold_all(set.members(), f),
        retold_set(set, f) is Clean == set is Clean,
{
    match set {
        MeasuredSet::Clean(measures) => {
            let told = retold_all(measures, f);
            if frontier(measures) {
                assert forall|i: int, j: int| 0 <= i < j < told.len() implies {
                    &&& (#[trigger] told[i]).last_line_width > (#[trigger] told[j]).last_line_width
                    &&& told[i].cost.le(told[j].cost)
                    &&& told[i].cost != told[j].cost
                } by {
                    assert(measures[i].last_line_width > measures[j].last_line_width);
                }
            }
            if frontier(told) {
                assert forall|i: int, j: int| 0 <= i < j < measures.len() implies {
                    &&& (#[trigger] measures[i]).last_line_width > (
                    #[trigger] measures[j]).last_line_width
                    &&& measures[i].cost.le(measures[j].cost)
                    &&& measures[i].cost != measures[j].cost
                } by {
                    assert(told[i].last_line_width > told[j].last_line_width);
                }
            }
        },
        MeasuredSet::Tainted(measure) => {
            assert(retold_all(seq![measure], f) =~= seq![retold(measure, f)]);
        },
    }
}

/// Pruning looks at costs alone: it does not matter whether the documents
/// are retold before it or after it.
pub proof fn lemma_pruned_retold<C: Cost, D, E>(measures: Seq<Measured<C, D>>, f: spec_fn(D) -> E)
    ensures
        retold_all(pruned(measures), f) == pruned(retold_all(measures, f)),
    decreases measures.len(),
{
    let told = retold_all(measures, f);
    if measures.len() <= 1 {
        assert(retold_all(pruned(measures), f) =~= pruned(told));
    } else {
        assert(told[0] == retold(measures[0], f));
        assert(told[1] == retold(measures[1], f));
        assert(retold_all(measures.drop_first(), f) =~= told.drop_first());
        lemma_pruned_retold(measures.drop_first(), f);
        if measures[1].cost.le(measures[0].cost) {
        } else {
            assert(retold_all(seq![measures[0]] + pruned(measures.drop_first()), f) =~= seq![
                told[0],
            ] + retold_all(pruned(measures.drop_first()), f));
        }
    }
}

/// One measure, lifted: its document is wrapped or joined in the arena.
pub fn lift_measure<C: Cost>(
    document_context: &mut InternedMap<Document>,
    by: &Lift<C>,
    measure: &Measure<C>,
) -> (r: Measure<C>)
    requires
        old(document_context).valid(),
        by.within(old(document_context)@),
        measure.document@ < old(document_context)@.len(),
    ensures
        final(document_context).valid(),
        grown_from(final(document_context)@, old(document_context)@),
        r.document@ < final(document_context)@.len(),
        r.read_in(final(document_context)@) == by.read_in(old(document_context)@).apply(
            measure.read_in(old(document_context)@),
        ),
        r.last_line_width == measure.last_line_width,
{
    match by {
        Lift::Nest(amount) => {
            let document = document_context.nest(*amount, measure.document);
            Measure {
                last_line_width: measure.last_line_width,
                cost: measure.clone().cost,
                document,
            }
        },
        Lift::Flatten => {
            let document = document_context.flatten(measure.document);
            Measure {
                last_line_width: measure.last_line_width,
                cost: measure.clone().cost,
                document,
            }
        },
        Lift::After(first) => {
            let mut pair: Vec<crate::pretty_expressive::document::DocumentRef> = Vec::new();
            pair.push(first.document);
            pair.push(measure.document);
            proof {
                assert(trees_of(document_context@, positions(pair@)) =~= seq![
                    tree_of(document_context@, first.document@),
                    tree_of(document_context@, measure.document@),
                ]);
            }
            let document = document_context.concat(pair);
            let cost = first.clone().cost.add(measure.clone().cost);
            Measure { last_line_width: measure.last_line_width, cost, document }
        },
    }
}

/// The measures without those that cost no less than the measure after
/// them.
pub fn prune<C: Cost>(measures: &Vec<Measure<C>>) -> (r: Vec<Measure<C>>)
    ensures
        views(r@) == pruned(views(measures@)),
{
    let ghost all = views(measures@);
    let mut r: Vec<Measure<C>> = Vec::new();
    let mut i: usize = 0;
    proof {
        assert(all.skip(0) =~= all);
        assert(views(r@) + pruned(all) =~= pruned(all));
    }
    while i < measures.len()
        invariant
            i <= measures.len(),
            all == views(measures@),
            views(r@) + pruned(all.skip(i as int)) == pruned(all),
        decreases measures.len() - i,
    {
        let ghost rest = all.skip(i as int);
        let ghost before = views(r@);
        proof {
            assert(rest[0] == measures@[i as int]@);
            assert(rest.drop_first() =~= all.skip(i + 1));
        }
        if i + 1 < measures.len() && measures[i + 1].cost.less_eq(&measures[i].cost) {
            proof {
                assert(rest[1] == measures@[i + 1]@);
            }
        } else {
            r.push(measures[i].clone());
            proof {
                assert(views(r@) =~= before + seq![rest[0]]);
                if i + 1 < measures.len() {
                    assert(rest[1] == measures@[i + 1]@);
                    assert(before + (seq![rest[0]] + pruned(rest.drop_first())) =~= views(r@)
                        + pruned(rest.drop_first()));
                } else {
                    assert(rest.len() == 1);
                    assert(pruned(rest) == rest);
                    assert(rest =~= seq![rest[0]]);
                    assert(pruned(all.skip(i + 1)) =~= Seq::empty());
                    assert(views(r@) + pruned(all.skip(i + 1)) =~= before + rest);
                }
            }
        }
        i += 1;
    }
    proof {
        assert(pruned(all.skip(i as int)) =~= Seq::empty());
        assert(views(r@) + pruned(all.skip(i as int)) =~= views(r@));
    }
    r
}

impl<C: Cost> MeasureSet<C> {
    /// Does `by` to every measure of the set, and keeps the set clean or
    /// tainted as it is.
    pub fn lift(self, document_context: &mut InternedMap<Document>, by: &Lift<C>) -> (r: Self)
        requires
            old(document_context).valid(),
            by.within(old(document_context)@),
            self.within(old(document_context)@),
        ensures
            final(document_context).valid(),
            grown_from(final(document_context)@, old(document_context)@),
            r.within(final(document_context)@),
            r.read_in(final(document_context)@) == lifted(
                self.read_in(old(document_context)@),
                by.read_in(old(document_context)@),
            ),
    {
        let ghost start = document_context@;
        match self {
            MeasureSet::Clean(measures) => {
                let ghost wanted = lifted_all(
                    retold_all(views(measures@), reading(start)),
                    by.read_in(start),
                );
                let mut r: Vec<Measure<C>> = Vec::new();
                let mut i: usize = 0;
                while i < measures.len()
                    invariant
                        i <= measures.len(),
                        r.len() == i,
                        document_context.valid(),
                        grown_from(document_context@, start),
                        by.within(start),
                        MeasureSet::Clean(measures).within(start),
                        wanted == lifted_all(
                            retold_all(views(measures@), reading(start)),
                            by.read_in(start),
                        ),
                        forall|k: int|
                            0 <= k < i ==> (#[trigger] r@[k]).document@ < document_context@.len()
                                && r@[k].read_in(document_context@) == wanted[k],
                    decreases measures.len() - i,
                {
                    let ghost before = document_context@;
                    proof {
                        assert(MeasureSet::Clean(measures)@.members()[i as int]
                            == measures@[i as int]@);
                        lemma_measure_read_in_grown(measures@[i as int], before, start);
                        if by is After {
                            lemma_measure_read_in_grown(by->After_0, before, start);
                        }
                    }
                    let lifted_one = lift_measure(document_context, by, &measures[i]);
                    proof {
                        assert forall|k: int| 0 <= k < i implies (#[trigger] r@[k]).document@
                            < document_context@.len() && r@[k].read_in(document_context@)
                            == wanted[k] by {
                            lemma_measure_read_in_grown(r@[k], document_context@, before);
                        }
                    }
                    r.push(lifted_one);
                    i += 1;
                }
                let result = MeasureSet::Clean(r);
                proof {
                    let told = retold_all(views(r@), reading(document_context@));
                    assert forall|k: int| 0 <= k < told.len() implies told[k] == wanted[k] by {
                        assert(r@[k].read_in(document_context@) == wanted[k]);
                    }
                    assert(told =~= wanted);
                    assert forall|k: int| 0 <= k < result@.members().len() implies (
                    #[trigger] result@.members()[k]).document < document_context@.len() by {
                        assert(result@.members()[k] == r@[k]@);
                    }
                }
                result
            },
            MeasureSet::Tainted(measure) => {
                proof {
                    assert(self@.members()[0] == measure@);
                }
                let lifted_one = lift_measure(document_context, by, &measure);
                let result = MeasureSet::Tainted(lifted_one);
                proof {
                    assert forall|k: int| 0 <= k < result@.members().len() implies (
                    #[trigger] result@.members()[k]).document < document_context@.len() by {
                        assert(result@.members()[k] == lifted_one@);
                    }
                }
                result
            },
        }
    }

    /// The layouts of a document that follows the layout `first`, from the
    /// layouts of that document at the column where `first` ends: each is
    /// joined to `first`, and of a clean set only the frontier is kept.
    pub fn follow(self, document_context: &mut InternedMap<Document>, first: &Measure<C>) -> (r:
        Self)
        requires
            old(document_context).valid(),
            first.document@ < old(document_context)@.len(),
            self.within(old(document_context)@),
        ensures
            final(document_context).valid(),
            grown_from(final(document_context)@, old(document_context)@),
            r.within(final(document_context)@),
            r.read_in(final(document_context)@) == followed(
                first.read_in(old(document_context)@),
                self.read_in(old(document_context)@),
            ),
    {
        let ghost start = document_context@;
        let ghost input = self.read_in(start);
        let by = Lift::After(first.clone());
        let joined = self.lift(document_context, &by);
        match joined {
            MeasureSet::Clean(measures) => {
                let kept = prune(&measures);
                let result = MeasureSet::Clean(kept);
                proof {
                    lemma_pruned_retold(views(measures@), reading(document_context@));
                    lemma_pruned_drawn(views(measures@));
                    assert forall|k: int| 0 <= k < result@.members().len() implies (
                    #[trigger] result@.members()[k]).document < document_context@.len() by {
                        let m = result@.members()[k];
                        assert(views(measures@).contains(m));
                        let j = choose|j: int|
                            0 <= j < views(measures@).len() && views(measures@)[j] == m;
                        assert(joined@.members()[j] == m);
                    }
                }
                result
            },
            MeasureSet::Tainted(measure) => MeasureSet::Tainted(measure),
        }
    }
}

/// Pruning keeps only measures that were there.
pub proof fn lemma_pruned_drawn<C: Cost, D>(measures: Seq<Measured<C, D>>)
    ensures
        forall|i: int|
            0 <= i < pruned(measures).len() ==> measures.contains(#[trigger] pruned(measures)[i]),
    decreases measures.len(),
{
    let r = pruned(measures);
    if measures.len() <= 1 {
        assert forall|i: int| 0 <= i < r.len() implies measures.contains(#[trigger] r[i]) by {
            assert(measures[i] == r[i]);
        }
    } else {
        let tail = measures.drop_first();
        let rest = pruned(tail);
        lemma_pruned_drawn(tail);
        assert forall|i: int| 0 <= i < rest.len() implies measures.contains(
            #[trigger] rest[i],
        ) by {
            let k = choose|k: int| 0 <= k < tail.len() && tail[k] == rest[i];
            assert(measures[k + 1] == rest[i]);
        }
        if measures[1].cost.le(measures[0].cost) {
        } else {
            assert forall|i: int| 0 <= i < r.len() implies measures.contains(#[trigger] r[i]) by {
                if i == 0 {
                    assert(measures[0] == r[0]);
                } else {
                    assert(r[i] == rest[i - 1]);
                }
            }
        }
    }
}

/// Merging keeps only measures that were there.
pub proof fn lemma_merged_drawn<C: Cost, D>(a: Seq<Measured<C, D>>, b: Seq<Measured<C, D>>)
    ensures
        forall|i: int|
            0 <= i < merged(a, b).len() ==> a.contains(#[trigger] merged(a, b)[i]) || b.contains(
                merged(a, b)[i],
            ),
    decreases a.len() + b.len(),
{
    let r = merged(a, b);
    if a.len() == 0 {
    } else if b.len() == 0 {
    } else {
        let (x, y) = if covers_first(a, b) {
            (a, b.drop_first())
        } else if covers_second(a, b) {
            (a.drop_first(), b)
        } else if a[0].last_line_width > b[0].last_line_width {
            (a.drop_first(), b)
        } else {
            (a, b.drop_first())
        };
        lemma_merged_drawn(x, y);
        let rest = merged(x, y);
        assert forall|i: int| 0 <= i < rest.len() implies a.contains(#[trigger] rest[i])
            || b.contains(rest[i]) by {
            if x.contains(rest[i]) {
                let k = choose|k: int| 0 <= k < x.len() && x[k] == rest[i];
                if x.len() < a.len() {
                    assert(a[k + 1] == rest[i]);
                }
            } else {
                let k = choose|k: int| 0 <= k < y.len() && y[k] == rest[i];
                if y.len() < b.len() {
                    assert(b[k + 1] == rest[i]);
                }
            }
        }
        assert forall|i: int| 0 <= i < r.len() implies a.contains(#[trigger] r[i]) || b.contains(
            r[i],
        ) by {
            if r.len() == rest.len() {
                assert(r == rest);
            } else {
                if i == 0 {
                    assert(r[0] == a[0] || r[0] == b[0]);
                } else {
                    assert(r[i] == rest[i - 1]);
                }
            }
        }
    }
}

spec fn covers_first<C: Cost, D>(a: Seq<Measured<C, D>>, b: Seq<Measured<C, D>>) -> bool {
    crate::pretty_expressive::measure::covers(a[0], b[0])
}

spec fn covers_second<C: Cost, D>(a: Seq<Measured<C, D>>, b: Seq<Measured<C, D>>) -> bool {
    crate::pretty_expressive::measure::covers(b[0], a[0])
}

} // verus!
