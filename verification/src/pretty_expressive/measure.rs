use crate::pretty_expressive::cost::Cost;
use crate::pretty_expressive::document::{tree_of, DocumentRef, Node, Tree};
use vstd::prelude::*;

verus! {

/// What a measure says of one layout: the column at which its last line
/// ends, its cost, and the choice-free document that is laid out. The
/// document is a key where measures are handled, and a tree where they are
/// read in an arena.
pub struct Measured<C, D> {
    pub last_line_width: nat,
    pub cost: C,
    pub document: D,
}

/// What a measure set says: the measures of a clean set, or the one measure
/// of a tainted set.
pub enum MeasuredSet<C, D> {
    Clean(Seq<Measured<C, D>>),
    Tainted(Measured<C, D>),
}

/// `a` is no worse than `b` in width and in cost.
pub open spec fn covers<C: Cost, D, E>(a: Measured<C, D>, b: Measured<C, E>) -> bool {
    a.last_line_width <= b.last_line_width && a.cost.le(b.cost)
}

/// `a` is no worse than `b` in width and in cost, and better in one of them.
pub open spec fn dominates<C: Cost, D, E>(a: Measured<C, D>, b: Measured<C, E>) -> bool {
    covers(a, b) && (a.last_line_width < b.last_line_width || a.cost != b.cost)
}

/// The measures stand in strictly falling width and strictly rising cost.
pub open spec fn frontier<C: Cost, D>(measures: Seq<Measured<C, D>>) -> bool {
    forall|i: int, j: int|
        0 <= i < j < measures.len() ==> {
            &&& (#[trigger] measures[i]).last_line_width > (#[trigger] measures[j]).last_line_width
            &&& measures[i].cost.le(measures[j].cost)
            &&& measures[i].cost != measures[j].cost
        }
}

impl<C: Cost, D> MeasuredSet<C, D> {
    /// A clean set holds at least one measure, and its measures are a Pareto
    /// frontier in order.
    pub open spec fn well_formed(self) -> bool {
        match self {
            MeasuredSet::Clean(measures) => measures.len() > 0 && frontier(measures),
            MeasuredSet::Tainted(_) => true,
        }
    }

    /// The measures of the set, in order.
    pub open spec fn members(self) -> Seq<Measured<C, D>> {
        match self {
            MeasuredSet::Clean(measures) => measures,
            MeasuredSet::Tainted(measure) => seq![measure],
        }
    }

    /// The measure that is chosen from the set: its first.
    pub open spec fn chosen(self) -> Measured<C, D> {
        match self {
            MeasuredSet::Clean(measures) => measures[0],
            MeasuredSet::Tainted(measure) => measure,
        }
    }
}

/// The set with its chosen measure alone, tainted.
pub open spec fn tainted<C: Cost, D>(set: MeasuredSet<C, D>) -> MeasuredSet<C, D> {
    MeasuredSet::Tainted(set.chosen())
}

/// The better of two tainted measures: the cheaper, then the narrower, then
/// the first.
pub open spec fn better<C: Cost, D>(a: Measured<C, D>, b: Measured<C, D>) -> Measured<C, D> {
    if a.cost.le(b.cost) && (a.cost != b.cost || a.last_line_width <= b.last_line_width) {
        a
    } else {
        b
    }
}

/// The merge of two frontiers in order. Of two heads, one that the other
/// covers is dropped; else the wider head comes first.
pub open spec fn merged<C: Cost, D>(a: Seq<Measured<C, D>>, b: Seq<Measured<C, D>>) -> Seq<
    Measured<C, D>,
>
    decreases a.len() + b.len(),
{
    if a.len() == 0 {
        b
    } else if b.len() == 0 {
        a
    } else if covers(a[0], b[0]) {
        merged(a, b.drop_first())
    } else if covers(b[0], a[0]) {
        merged(a.drop_first(), b)
    } else if a[0].last_line_width > b[0].last_line_width {
        seq![a[0]] + merged(a.drop_first(), b)
    } else {
        seq![b[0]] + merged(a, b.drop_first())
    }
}

/// The merge of two measure sets. A clean set wins over a tainted one; of
/// two tainted sets the better measure stays; two clean sets are merged into
/// one frontier.
pub open spec fn merge<C: Cost, D>(a: MeasuredSet<C, D>, b: MeasuredSet<C, D>) -> MeasuredSet<
    C,
    D,
> {
    match (a, b) {
        (MeasuredSet::Clean(x), MeasuredSet::Clean(y)) => MeasuredSet::Clean(merged(x, y)),
        (MeasuredSet::Clean(x), MeasuredSet::Tainted(_)) => MeasuredSet::Clean(x),
        (MeasuredSet::Tainted(_), MeasuredSet::Clean(y)) => MeasuredSet::Clean(y),
        (MeasuredSet::Tainted(x), MeasuredSet::Tainted(y)) => MeasuredSet::Tainted(better(x, y)),
    }
}

/// The measure with its document retold by `f`.
pub open spec fn retold<C, D, E>(measure: Measured<C, D>, f: spec_fn(D) -> E) -> Measured<C, E> {
    Measured {
        last_line_width: measure.last_line_width,
        cost: measure.cost,
        document: f(measure.document),
    }
}

/// The measures with their documents retold by `f`.
pub open spec fn retold_all<C, D, E>(measures: Seq<Measured<C, D>>, f: spec_fn(D) -> E) -> Seq<
    Measured<C, E>,
> {
    Seq::new(measures.len(), |i: int| retold(measures[i], f))
}

/// The set with the documents of its measures retold by `f`.
pub open spec fn retold_set<C, D, E>(set: MeasuredSet<C, D>, f: spec_fn(D) -> E) -> MeasuredSet<
    C,
    E,
> {
    match set {
        MeasuredSet::Clean(measures) => MeasuredSet::Clean(retold_all(measures, f)),
        MeasuredSet::Tainted(measure) => MeasuredSet::Tainted(retold(measure, f)),
    }
}

/// Merging looks at widths and costs alone: it does not matter whether the
/// documents are retold before the merge or after it.
pub proof fn lemma_merged_retold<C: Cost, D, E>(
    a: Seq<Measured<C, D>>,
    b: Seq<Measured<C, D>>,
    f: spec_fn(D) -> E,
)
    ensures
        retold_all(merged(a, b), f) == merged(retold_all(a, f), retold_all(b, f)),
    decreases a.len() + b.len(),
{
    let x = retold_all(a, f);
    let y = retold_all(b, f);
    if a.len() == 0 {
    } else if b.len() == 0 {
    } else {
        assert(x[0] == retold(a[0], f));
        assert(y[0] == retold(b[0], f));
        assert(retold_all(a.drop_first(), f) =~= x.drop_first());
        assert(retold_all(b.drop_first(), f) =~= y.drop_first());
        if covers(a[0], b[0]) {
            lemma_merged_retold(a, b.drop_first(), f);
        } else if covers(b[0], a[0]) {
            lemma_merged_retold(a.drop_first(), b, f);
        } else if a[0].last_line_width > b[0].last_line_width {
            lemma_merged_retold(a.drop_first(), b, f);
            assert(retold_all(seq![a[0]] + merged(a.drop_first(), b), f) =~= seq![x[0]]
                + retold_all(merged(a.drop_first(), b), f));
        } else {
            lemma_merged_retold(a, b.drop_first(), f);
            assert(retold_all(seq![b[0]] + merged(a, b.drop_first()), f) =~= seq![y[0]]
                + retold_all(merged(a, b.drop_first()), f));
        }
    }
}

/// The same for whole sets.
pub proof fn lemma_merge_retold<C: Cost, D, E>(
    a: MeasuredSet<C, D>,
    b: MeasuredSet<C, D>,
    f: spec_fn(D) -> E,
)
    ensures
        retold_set(merge(a, b), f) == merge(retold_set(a, f), retold_set(b, f)),
{
    match (a, b) {
        (MeasuredSet::Clean(x), MeasuredSet::Clean(y)) => {
            lemma_merged_retold(x, y, f);
        },
        _ => {},
    }
}

/// One layout of a document at one position. Its view holds the position of
/// its document in the arena.
pub struct Measure<C: Cost> {
    pub last_line_width: usize,
    pub cost: C,
    pub document: DocumentRef,
}

impl<C: Cost> View for Measure<C> {
    type V = Measured<C, nat>;

    open spec fn view(&self) -> Measured<C, nat> {
        Measured {
            last_line_width: self.last_line_width as nat,
            cost: self.cost,
            document: self.document@,
        }
    }
}

/// The tree that each key stands for in `arena`.
pub open spec fn reading(arena: Seq<Node>) -> spec_fn(nat) -> Tree {
    |key: nat| tree_of(arena, key)
}

impl<C: Cost> Measure<C> {
    /// What the measure says, with its document read in `arena`.
    pub open spec fn read_in(&self, arena: Seq<Node>) -> Measured<C, Tree> {
        retold(self@, reading(arena))
    }

    /// Whether this measure is no worse than `other` in width and in cost.
    pub fn covers(&self, other: &Self) -> (r: bool)
        ensures
            r == covers(self@, other@),
    {
        self.last_line_width <= other.last_line_width && self.cost.less_eq(&other.cost)
    }

    /// Whether this measure is no worse than `other` in width and in cost,
    /// and better in one of them.
    pub fn dominates(&self, other: &Self) -> (r: bool)
        ensures
            r == dominates(self@, other@),
    {
        if self.last_line_width <= other.last_line_width && self.cost.less_eq(&other.cost) {
            if self.last_line_width < other.last_line_width {
                true
            } else {
                let back = other.cost.less_eq(&self.cost);
                proof {
                    if back {
                        C::le_is_antisymmetric(self.cost, other.cost);
                    } else {
                        C::le_is_total(self.cost, self.cost);
                    }
                }
                !back
            }
        } else {
            false
        }
    }
}

impl<C: Cost> Clone for Measure<C> {
    fn clone(&self) -> (r: Self)
        ensures
            r == *self,
    {
        let cost = self.cost.clone();
        proof {
            C::clone_is_exact(self.cost, cost);
        }
        Measure { last_line_width: self.last_line_width, cost, document: self.document }
    }
}

/// The views of `measures`.
pub open spec fn views<C: Cost>(measures: Seq<Measure<C>>) -> Seq<Measured<C, nat>> {
    Seq::new(measures.len(), |i: int| measures[i]@)
}

/// The layouts of one document at one position that are worth keeping: a
/// clean set of measures that all fit the width limit, or one tainted
/// measure where none fits.
pub enum MeasureSet<C: Cost> {
    /// Measures in strictly falling width and strictly rising cost.
    Clean(Vec<Measure<C>>),
    Tainted(Measure<C>),
}

impl<C: Cost> View for MeasureSet<C> {
    type V = MeasuredSet<C, nat>;

    open spec fn view(&self) -> MeasuredSet<C, nat> {
        match *self {
            MeasureSet::Clean(measures) => MeasuredSet::Clean(views(measures@)),
            MeasureSet::Tainted(measure) => MeasuredSet::Tainted(measure@),
        }
    }
}

impl<C: Cost> Clone for MeasureSet<C> {
    fn clone(&self) -> (r: Self)
        ensures
            r@ == self@,
    {
        match self {
            MeasureSet::Clean(measures) => {
                let mut copy: Vec<Measure<C>> = Vec::new();
                let mut i: usize = 0;
                while i < measures.len()
                    invariant
                        i <= measures.len(),
                        copy@ == measures@.subrange(0, i as int),
                    decreases measures.len() - i,
                {
                    copy.push(measures[i].clone());
                    i += 1;
                    proof {
                        assert(copy@ =~= measures@.subrange(0, i as int));
                    }
                }
                proof {
                    assert(measures@.subrange(0, measures.len() as int) =~= measures@);
                }
                MeasureSet::Clean(copy)
            },
            MeasureSet::Tainted(measure) => MeasureSet::Tainted(measure.clone()),
        }
    }
}

fn merge_frontiers<C: Cost>(a: &Vec<Measure<C>>, b: &Vec<Measure<C>>) -> (r: Vec<Measure<C>>)
    ensures
        views(r@) == merged(views(a@), views(b@)),
{
    let ghost x = views(a@);
    let ghost y = views(b@);
    let mut r: Vec<Measure<C>> = Vec::new();
    let mut i: usize = 0;
    let mut j: usize = 0;
    proof {
        assert(x.skip(0) =~= x);
        assert(y.skip(0) =~= y);
        assert(views(r@) + merged(x, y) =~= merged(x, y));
    }
    while i < a.len() && j < b.len()
        invariant
            i <= a.len(),
            j <= b.len(),
            x == views(a@),
            y == views(b@),
            views(r@) + merged(x.skip(i as int), y.skip(j as int)) == merged(x, y),
        decreases a.len() - i + b.len() - j,
    {
        let ghost rest_a = x.skip(i as int);
        let ghost rest_b = y.skip(j as int);
        let ghost before = views(r@);
        proof {
            assert(rest_a[0] == a@[i as int]@);
            assert(rest_b[0] == b@[j as int]@);
            assert(rest_a.drop_first() =~= x.skip(i + 1));
            assert(rest_b.drop_first() =~= y.skip(j + 1));
        }
        if a[i].covers(&b[j]) {
            j += 1;
        } else if b[j].covers(&a[i]) {
            i += 1;
        } else if a[i].last_line_width > b[j].last_line_width {
            r.push(a[i].clone());
            proof {
                assert(views(r@) =~= before + seq![rest_a[0]]);
                assert(views(r@) + merged(rest_a.drop_first(), rest_b) =~= before + (seq![
                    rest_a[0],
                ] + merged(rest_a.drop_first(), rest_b)));
            }
            i += 1;
        } else {
            r.push(b[j].clone());
            proof {
                assert(views(r@) =~= before + seq![rest_b[0]]);
                assert(views(r@) + merged(rest_a, rest_b.drop_first()) =~= before + (seq![
                    rest_b[0],
                ] + merged(rest_a, rest_b.drop_first())));
            }
            j += 1;
        }
    }
    while i < a.len()
        invariant
            i <= a.len(),
            j <= b.len(),
            i == a.len() || j == b.len(),
            x == views(a@),
            y == views(b@),
            views(r@) + merged(x.skip(i as int), y.skip(j as int)) == merged(x, y),
        decreases a.len() - i,
    {
        let ghost rest_a = x.skip(i as int);
        let ghost before = views(r@);
        proof {
            assert(y.skip(j as int).len() == 0);
            assert(merged(rest_a, y.skip(j as int)) == rest_a);
            assert(rest_a[0] == a@[i as int]@);
        }
        r.push(a[i].clone());
        proof {
            assert(views(r@) =~= before + seq![rest_a[0]]);
            assert(merged(x.skip(i + 1), y.skip(j as int)) == x.skip(i + 1));
            assert(views(r@) + x.skip(i + 1) =~= before + rest_a);
        }
        i += 1;
    }
    while j < b.len()
        invariant
            i == a.len(),
            j <= b.len(),
            x == views(a@),
            y == views(b@),
            views(r@) + merged(x.skip(i as int), y.skip(j as int)) == merged(x, y),
        decreases b.len() - j,
    {
        let ghost rest_b = y.skip(j as int);
        let ghost before = views(r@);
        proof {
            assert(x.skip(i as int).len() == 0);
            assert(merged(x.skip(i as int), rest_b) == rest_b);
            assert(rest_b[0] == b@[j as int]@);
        }
        r.push(b[j].clone());
        proof {
            assert(views(r@) =~= before + seq![rest_b[0]]);
            assert(merged(x.skip(i as int), y.skip(j + 1)) == y.skip(j + 1));
            assert(views(r@) + y.skip(j + 1) =~= before + rest_b);
        }
        j += 1;
    }
    proof {
        assert(merged(x.skip(i as int), y.skip(j as int)).len() == 0);
        assert(views(r@) + merged(x.skip(i as int), y.skip(j as int)) =~= views(r@));
    }
    r
}

impl<C: Cost> MeasureSet<C> {
    /// What the set says, with its documents read in `arena`.
    pub open spec fn read_in(&self, arena: Seq<Node>) -> MeasuredSet<C, Tree> {
        retold_set(self@, reading(arena))
    }

    /// Every document of the set is a key of `arena`.
    pub open spec fn within(&self, arena: Seq<Node>) -> bool {
        forall|i: int|
            0 <= i < self@.members().len() ==> (#[trigger] self@.members()[i]).document
                < arena.len()
    }

    /// The set with its chosen measure alone, tainted: the first measure of a
    /// clean set, which is its cheapest, or the measure of a tainted set.
    pub fn tainted(self) -> (r: Self)
        requires
            self@.well_formed(),
        ensures
            r@ == tainted(self@),
    {
        match self {
            MeasureSet::Clean(measures) => {
                let first = measures[0].clone();
                MeasureSet::Tainted(first)
            },
            MeasureSet::Tainted(measure) => MeasureSet::Tainted(measure),
        }
    }

    /// The measure to lay out: the cheapest of the set, and among equally
    /// cheap ones the narrowest.
    pub fn select(&self) -> (r: Measure<C>)
        requires
            self@.well_formed(),
        ensures
            r@ == self@.chosen(),
    {
        match self {
            MeasureSet::Clean(measures) => measures[0].clone(),
            MeasureSet::Tainted(measure) => measure.clone(),
        }
    }

    /// Merges two measure sets.
    pub fn merge_with(self, other: Self) -> (r: Self)
        ensures
            r@ == merge(self@, other@),
    {
        match self {
            MeasureSet::Clean(a) => match other {
                MeasureSet::Clean(b) => MeasureSet::Clean(merge_frontiers(&a, &b)),
                MeasureSet::Tainted(_) => MeasureSet::Clean(a),
            },
            MeasureSet::Tainted(a) => match other {
                MeasureSet::Clean(b) => MeasureSet::Clean(b),
                MeasureSet::Tainted(b) => {
                    let forth = a.cost.less_eq(&b.cost);
                    let back = b.cost.less_eq(&a.cost);
                    proof {
                        if forth && back {
                            C::le_is_antisymmetric(a.cost, b.cost);
                        }
                        if a.cost == b.cost {
                            C::le_is_total(a.cost, a.cost);
                        }
                    }
                    if forth && (!back || a.last_line_width <= b.last_line_width) {
                        MeasureSet::Tainted(a)
                    } else {
                        MeasureSet::Tainted(b)
                    }
                },
            },
        }
    }
}

} // verus!
