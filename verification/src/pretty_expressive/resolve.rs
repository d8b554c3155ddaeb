use crate::pretty_expressive::cost::Cost;
use crate::pretty_expressive::document::{
    grown_from,
    lemma_concat_tree,
    lemma_tree_of_grown,
    node_ok,
    positions,
    tree_of,
    trees_of,
    Document,
    DocumentRef,
    Node,
    Tree,
};
use crate::pretty_expressive::interned_map::{
    distinct,
    interned_at,
    with_interned,
    Interned,
    InternedInfoMap,
    InternedMap,
};
use crate::pretty_expressive::layout::{
    choiceless,
    crossed,
    extended,
    followed,
    lemma_below_supremum,
    lemma_measured_concat_document,
    lemma_measured_concat_reach,
    lemma_measured_document,
    lemma_supremum_least,
    measured,
    measured_concat,
    reach,
    resolved,
    resolved_concat,
    resolved_from,
    single,
    supremum,
    total_weight,
    weight,
    Lifting,
    Position,
};
use crate::pretty_expressive::lift::{
    lemma_measure_read_in_grown,
    lemma_merged_drawn,
    lemma_read_in_grown,
    lemma_retold_well_formed,
    lift_measure,
    Lift,
};
use crate::pretty_expressive::measure::{
    lemma_merge_retold,
    merge,
    reading,
    retold_all,
    views,
    Measure,
    MeasureSet,
    Measured,
    MeasuredSet,
};
use crate::pretty_expressive::soundness::{
    lemma_resolved_concat_sound,
    lemma_resolved_sound,
    sound,
};
use vstd::prelude::*;
use vstd::string::StringSliceAdditionalSpecFns;

verus! {

/// What is asked of a layout.
pub struct PrintingConfig {
    /// The column that lines should not exceed.
    pub max_width: usize,
    /// The number of columns of one level of indent.
    pub indent_amount: usize,
}

/// Where a document is laid out.
pub struct PrintingContext {
    /// The column at which the document starts.
    pub column: usize,
    /// The column at which a line starts after a line break.
    pub current_indent: usize,
    /// Whether an enclosing `Flatten` is in effect.
    pub should_flatten: bool,
}

impl Clone for PrintingContext {
    fn clone(&self) -> (r: Self)
        ensures
            r == *self,
    {
        PrintingContext {
            column: self.column,
            current_indent: self.current_indent,
            should_flatten: self.should_flatten,
        }
    }
}

impl Copy for PrintingContext {

}

impl View for PrintingContext {
    type V = Position;

    open spec fn view(&self) -> Position {
        Position {
            column: self.column as nat,
            current_indent: self.current_indent as nat,
            should_flatten: self.should_flatten,
        }
    }
}

impl PrintingContext {
    /// The start of a page: column 0, no indent, not flattened.
    pub fn new() -> (r: Self)
        ensures
            r@ == (Position { column: 0, current_indent: 0, should_flatten: false }),
    {
        PrintingContext { column: 0, current_indent: 0, should_flatten: false }
    }
}

/// A measure that was taken of a document, with the width limit and the
/// position at which it was taken.
pub struct Taken<C: Cost> {
    max_width: usize,
    context: PrintingContext,
    measure: Measure<C>,
}

/// The layouts that were found for a document, with the width limit and
/// the position for which they were found.
pub struct Found<C: Cost> {
    max_width: usize,
    context: PrintingContext,
    set: MeasureSet<C>,
}

/// The state of a resolver over one arena: the measures that it has taken
/// of documents without choices, one for each document, and the layouts
/// that it has found for documents, for each document one for each width
/// limit and position at which it was resolved.
pub struct ChoicelessContext<C: Cost> {
    measures: InternedInfoMap<DocumentRef, Taken<C>>,
    results: Vec<Vec<Found<C>>>,
}

/// What was found is what resolving the document at `key` gives.
spec fn found_ok<C: Cost>(found: Found<C>, arena: Seq<Node>, key: nat) -> bool {
    &&& key < arena.len()
    &&& found.set.within(arena)
    &&& found.set.read_in(arena) == resolved::<C>(
        tree_of(arena, key),
        found.context@,
        found.max_width as nat,
    )
}

/// `set` holds the layouts of `tree` at `at`, with its documents in `after`,
/// which has grown from `before`.
pub open spec fn resolves<C: Cost>(
    set: MeasureSet<C>,
    before: Seq<Node>,
    after: InternedMap<Document>,
    tree: Tree,
    at: Position,
    max_width: nat,
) -> bool {
    &&& after.valid()
    &&& grown_from(after@, before)
    &&& set.within(after@)
    &&& set.read_in(after@) == resolved::<C>(tree, at, max_width)
}

/// Sets with the same view read the same.
proof fn lemma_same_view_same_reading<C: Cost>(a: MeasureSet<C>, b: MeasureSet<C>, arena: Seq<Node>)
    requires
        a@ == b@,
    ensures
        a.read_in(arena) == b.read_in(arena),
        a.within(arena) == b.within(arena),
{
}

/// A merged set holds only documents that the merged sets held.
proof fn lemma_merge_within<C: Cost>(
    a: MeasureSet<C>,
    b: MeasureSet<C>,
    r: MeasureSet<C>,
    arena: Seq<Node>,
)
    requires
        a.within(arena),
        b.within(arena),
        r@ == merge(a@, b@),
    ensures
        r.within(arena),
{
    match (a@, b@) {
        (MeasuredSet::Clean(x), MeasuredSet::Clean(y)) => {
            lemma_merged_drawn(x, y);
            assert forall|i: int| 0 <= i < r@.members().len() implies (
            #[trigger] r@.members()[i]).document < arena.len() by {
                let m = r@.members()[i];
                if x.contains(m) {
                    let k = choose|k: int| 0 <= k < x.len() && x[k] == m;
                    assert(a@.members()[k] == m);
                } else {
                    let k = choose|k: int| 0 <= k < y.len() && y[k] == m;
                    assert(b@.members()[k] == m);
                }
            }
        },
        (MeasuredSet::Clean(x), MeasuredSet::Tainted(_)) => {
            assert forall|i: int| 0 <= i < r@.members().len() implies (
            #[trigger] r@.members()[i]).document < arena.len() by {
                assert(a@.members()[i] == r@.members()[i]);
            }
        },
        (MeasuredSet::Tainted(_), MeasuredSet::Clean(y)) => {
            assert forall|i: int| 0 <= i < r@.members().len() implies (
            #[trigger] r@.members()[i]).document < arena.len() by {
                assert(b@.members()[i] == r@.members()[i]);
            }
        },
        (MeasuredSet::Tainted(x), MeasuredSet::Tainted(y)) => {
            assert(a@.members()[0] == x);
            assert(b@.members()[0] == y);
            assert forall|i: int| 0 <= i < r@.members().len() implies (
            #[trigger] r@.members()[i]).document < arena.len() by {
                assert(r@.members()[0] == x || r@.members()[0] == y);
            }
        },
    }
}

proof fn lemma_total_weight_grows(children: Seq<Tree>, fewer: nat, more: nat)
    requires
        fewer <= more <= children.len(),
    ensures
        total_weight(children, fewer) <= total_weight(children, more),
    decreases more,
{
    if fewer < more {
        lemma_total_weight_grows(children, fewer, (more - 1) as nat);
    }
}

/// What was found was found for the width limit `max_width` at `context`.
spec fn found_for<C: Cost>(found: Found<C>, max_width: usize, context: PrintingContext) -> bool {
    found.max_width == max_width && found.context == context
}

impl<C: Cost> ChoicelessContext<C> {
    spec fn measures_ok(&self, arena: Seq<Node>) -> bool {
        forall|k: int|
            0 <= k < self.measures@.len() && (#[trigger] self.measures@[k]).is_some() ==> {
                let taken = self.measures@[k].unwrap();
                &&& k < arena.len()
                &&& taken.measure.document@ < arena.len()
                &&& taken.measure.read_in(arena) == measured::<C>(
                    tree_of(arena, k as nat),
                    taken.context@,
                    taken.max_width as nat,
                )
            }
    }

    spec fn results_ok(&self, arena: Seq<Node>) -> bool {
        forall|k: int, j: int|
            0 <= k < self.results@.len() && 0 <= j < self.results@[k]@.len() ==> found_ok(
                #[trigger] self.results@[k]@[j],
                arena,
                k as nat,
            )
    }

    /// Every measure that was taken is the measure of its document in
    /// `arena`, at the position and for the width limit kept with it, and
    /// all layouts that were found are the layouts of their document in
    /// `arena`.
    pub closed spec fn valid_for(&self, arena: Seq<Node>) -> bool {
        self.measures_ok(arena) && self.results_ok(arena)
    }

    /// What was taken and found stays valid when the arena grows.
    pub proof fn lemma_valid_for_grown(&self, later: Seq<Node>, earlier: Seq<Node>)
        requires
            self.valid_for(earlier),
            grown_from(later, earlier),
        ensures
            self.valid_for(later),
    {
        assert forall|k: int|
            0 <= k < self.measures@.len() && (#[trigger] self.measures@[k]).is_some() implies {
            let taken = self.measures@[k].unwrap();
            &&& k < later.len()
            &&& taken.measure.document@ < later.len()
            &&& taken.measure.read_in(later) == measured::<C>(
                tree_of(later, k as nat),
                taken.context@,
                taken.max_width as nat,
            )
        } by {
            let taken = self.measures@[k].unwrap();
            lemma_tree_of_grown(later, earlier, k as nat);
            lemma_measure_read_in_grown(taken.measure, later, earlier);
        }
        assert forall|k: int, j: int|
            0 <= k < self.results@.len() && 0 <= j < self.results@[k]@.len() implies found_ok(
            #[trigger] self.results@[k]@[j],
            later,
            k as nat,
        ) by {
            let found = self.results@[k]@[j];
            assert(found_ok(found, earlier, k as nat));
            lemma_tree_of_grown(later, earlier, k as nat);
            lemma_read_in_grown(found.set, later, earlier);
        }
    }

    /// A resolver that has taken no measure yet, for the documents of
    /// `document_context`.
    pub fn new(document_context: &InternedMap<Document>) -> (r: Self)
        ensures
            forall|arena: Seq<Node>| r.valid_for(arena),
    {
        let length = document_context.len();
        let mut results: Vec<Vec<Found<C>>> = Vec::new();
        while results.len() < length
            invariant
                forall|k: int| 0 <= k < results@.len() ==> (#[trigger] results@[k])@.len() == 0,
            decreases length - results.len(),
        {
            results.push(Vec::new());
        }
        ChoicelessContext { measures: InternedInfoMap::aligned_with(document_context), results }
    }

    /// The layouts that were found before for the document `document` at
    /// `printing_context` for the width limit of `config`: a copy of the
    /// first that were kept for them, and nothing where none were kept.
    fn recall(
        &self,
        config: &PrintingConfig,
        printing_context: &PrintingContext,
        document: DocumentRef,
        Ghost(arena): Ghost<Seq<Node>>,
    ) -> (r: Option<MeasureSet<C>>)
        requires
            self.valid_for(arena),
        ensures
            r matches Some(set) ==> set.within(arena) && set.read_in(arena) == resolved::<C>(
                tree_of(arena, document@),
                printing_context@,
                config.max_width as nat,
            ),
            r is None <==> (document@ < self.results@.len() ==> forall|j: int|
                0 <= j < self.results@[document@ as int]@.len() ==> !found_for(
                    #[trigger] self.results@[document@ as int]@[j],
                    config.max_width,
                    *printing_context,
                )),
            r matches Some(set) ==> exists|j: int|
                {
                    &&& 0 <= j < self.results@[document@ as int]@.len()
                    &&& found_for(
                        #[trigger] self.results@[document@ as int]@[j],
                        config.max_width,
                        *printing_context,
                    )
                    &&& set@ == self.results@[document@ as int]@[j].set@
                    &&& forall|i: int|
                        0 <= i < j ==> !found_for(
                            #[trigger] self.results@[document@ as int]@[i],
                            config.max_width,
                            *printing_context,
                        )
                },
    {
        if document.index() >= self.results.len() {
            return None;
        }
        let row = &self.results[document.index()];
        let mut j: usize = 0;
        while j < row.len()
            invariant
                j <= row.len(),
                document@ < self.results@.len(),
                *row == self.results@[document@ as int],
                self.valid_for(arena),
                forall|i: int|
                    0 <= i < j ==> !found_for(
                        #[trigger] self.results@[document@ as int]@[i],
                        config.max_width,
                        *printing_context,
                    ),
            decreases row.len() - j,
        {
            let found = &row[j];
            if found.max_width == config.max_width && found.context.column
                == printing_context.column && found.context.current_indent
                == printing_context.current_indent && found.context.should_flatten
                == printing_context.should_flatten {
                let set = found.set.clone();
                proof {
                    assert(found_ok(self.results@[document@ as int]@[j as int], arena, document@));
                    assert(found.context@ == printing_context@);
                    lemma_same_view_same_reading(set, found.set, arena);
                    assert(found_for(
                        self.results@[document@ as int]@[j as int],
                        config.max_width,
                        *printing_context,
                    ));
                }
                return Some(set);
            }
            j += 1;
        }
        None
    }

    /// Keeps a copy of the layouts `set` that were found for the document
    /// `document`, with the width limit and the position for which they were
    /// found, after what was kept for that document before. Nothing is kept
    /// for a document that the resolver was not made for.
    fn keep(
        &mut self,
        config: &PrintingConfig,
        printing_context: &PrintingContext,
        document: DocumentRef,
        set: &MeasureSet<C>,
        Ghost(arena): Ghost<Seq<Node>>,
    )
        requires
            old(self).valid_for(arena),
            document@ < arena.len(),
            set.within(arena),
            set.read_in(arena) == resolved::<C>(
                tree_of(arena, document@),
                printing_context@,
                config.max_width as nat,
            ),
        ensures
            final(self).valid_for(arena),
            final(self).measures == old(self).measures,
            final(self).results@.len() == old(self).results@.len(),
            forall|k: int|
                0 <= k < old(self).results@.len() && k != document@ ==> final(self).results@[k]
                    == old(self).results@[k],
            document@ < old(self).results@.len() ==> {
                let row = final(self).results@[document@ as int]@;
                let before = old(self).results@[document@ as int]@;
                &&& row.len() == before.len() + 1
                &&& row.subrange(0, before.len() as int) == before
                &&& found_for(row.last(), config.max_width, *printing_context)
                &&& row.last().set@ == set@
            },
    {
        if document.index() < self.results.len() {
            let copy = set.clone();
            proof {
                lemma_same_view_same_reading(copy, *set, arena);
            }
            let found = Found { max_width: config.max_width, context: *printing_context, set: copy };
            let ghost before = self.results@;
            self.results[document.index()].push(found);
            proof {
                assert(self.measures == old(self).measures);
                assert(before == old(self).results@);
                assert forall|k: int, j: int|
                    0 <= k < self.results@.len() && 0 <= j < self.results@[k]@.len() implies found_ok(
                    #[trigger] self.results@[k]@[j],
                    arena,
                    k as nat,
                ) by {
                    if k == document@ {
                        if j < before[k]@.len() {
                            assert(self.results@[k]@[j] == before[k]@[j]);
                            assert(found_ok(before[k]@[j], arena, k as nat));
                        } else {
                            assert(self.results@[k]@[j] == found);
                        }
                    } else {
                        assert(self.results@[k] == before[k]);
                        assert(found_ok(before[k]@[j], arena, k as nat));
                    }
                }
                assert(self.results@[document@ as int]@.subrange(
                    0,
                    before[document@ as int]@.len() as int,
                ) =~= before[document@ as int]@);
            }
        }
    }

    /// The measure of the text `text` at `printing_context`.
    pub fn measure_text(
        &mut self,
        config: &PrintingConfig,
        printing_context: &PrintingContext,
        document: DocumentRef,
        text: &str,
    ) -> (r: Measure<C>)
        requires
            printing_context.column + text.spec_bytes().len() <= usize::MAX,
        ensures
            *final(self) == *old(self),
            r@ == (Measured {
                last_line_width: printing_context.column as nat + text.spec_bytes().len(),
                cost: C::text(
                    printing_context.column as nat,
                    text.spec_bytes().len(),
                    config.max_width as nat,
                ),
                document: document@,
            }),
    {
        Measure {
            last_line_width: printing_context.column + text.len(),
            cost: C::for_text(printing_context.column, text.len(), config.max_width),
            document,
        }
    }

    /// The measure of a line break that is not flattened: the next line
    /// starts at the indent.
    pub fn measure_newline(&mut self, printing_context: &PrintingContext, document: DocumentRef) -> (r:
        Measure<C>)
        ensures
            *final(self) == *old(self),
            r@ == (Measured {
                last_line_width: printing_context.current_indent as nat,
                cost: C::newline(),
                document: document@,
            }),
    {
        Measure {
            last_line_width: printing_context.current_indent,
            cost: C::newline_cost(),
            document,
        }
    }

    /// The measure of a flattened line break: one space.
    pub fn measure_space(
        &mut self,
        config: &PrintingConfig,
        printing_context: &PrintingContext,
        document: DocumentRef,
    ) -> (r: Measure<C>)
        requires
            printing_context.column + 1 <= usize::MAX,
        ensures
            *final(self) == *old(self),
            r@ == (Measured {
                last_line_width: printing_context.column as nat + 1,
                cost: C::text(printing_context.column as nat, 1, config.max_width as nat),
                document: document@,
            }),
    {
        Measure {
            last_line_width: printing_context.column + 1,
            cost: C::for_text(printing_context.column, 1, config.max_width),
            document,
        }
    }

    /// The layouts of the text `text`: its one measure, clean where the text
    /// ends inside the width limit and the indent lies inside it.
    pub fn resolve_text(
        &mut self,
        config: &PrintingConfig,
        printing_context: PrintingContext,
        document: DocumentRef,
        text: &str,
    ) -> (set: MeasureSet<C>)
        requires
            printing_context.column + text.spec_bytes().len() <= usize::MAX,
        ensures
            *final(self) == *old(self),
            set@ == single(
                printing_context.column + text.spec_bytes().len() <= config.max_width
                    && printing_context.current_indent <= config.max_width,
                Measured {
                    last_line_width: printing_context.column as nat + text.spec_bytes().len(),
                    cost: C::text(
                        printing_context.column as nat,
                        text.spec_bytes().len(),
                        config.max_width as nat,
                    ),
                    document: document@,
                },
            ),
    {
        let measure = self.measure_text(config, &printing_context, document, text);
        if printing_context.column + text.len() <= config.max_width
            && printing_context.current_indent <= config.max_width {
            let mut measures: Vec<Measure<C>> = Vec::new();
            measures.push(measure);
            proof {
                assert(views(measures@) =~= seq![measure@]);
            }
            MeasureSet::Clean(measures)
        } else {
            MeasureSet::Tainted(measure)
        }
    }

    /// The layouts of a line break: its one measure. Flattened, it is one
    /// space, clean where the space ends inside the width limit; else the
    /// next line starts at the indent, and the measure is clean where the
    /// column lies inside the width limit. The indent must lie inside it
    /// too.
    pub fn resolve_newline(
        &mut self,
        config: &PrintingConfig,
        printing_context: PrintingContext,
        document: DocumentRef,
    ) -> (set: MeasureSet<C>)
        requires
            printing_context.should_flatten ==> printing_context.column + 1 <= usize::MAX,
        ensures
            *final(self) == *old(self),
            printing_context.should_flatten ==> set@ == single(
                printing_context.column + 1 <= config.max_width && printing_context.current_indent
                    <= config.max_width,
                Measured {
                    last_line_width: printing_context.column as nat + 1,
                    cost: C::text(printing_context.column as nat, 1, config.max_width as nat),
                    document: document@,
                },
            ),
            !printing_context.should_flatten ==> set@ == single(
                printing_context.column <= config.max_width && printing_context.current_indent
                    <= config.max_width,
                Measured {
                    last_line_width: printing_context.current_indent as nat,
                    cost: C::newline(),
                    document: document@,
                },
            ),
    {
        if printing_context.should_flatten {
            let measure = self.measure_space(config, &printing_context, document);
            if printing_context.column + 1 <= config.max_width && printing_context.current_indent
                <= config.max_width {
                let mut measures: Vec<Measure<C>> = Vec::new();
                measures.push(measure);
                proof {
                    assert(views(measures@) =~= seq![measure@]);
                }
                MeasureSet::Clean(measures)
            } else {
                MeasureSet::Tainted(measure)
            }
        } else {
            let measure = self.measure_newline(&printing_context, document);
            if printing_context.column <= config.max_width && printing_context.current_indent
                <= config.max_width {
                let mut measures: Vec<Measure<C>> = Vec::new();
                measures.push(measure);
                proof {
                    assert(views(measures@) =~= seq![measure@]);
                }
                MeasureSet::Clean(measures)
            } else {
                MeasureSet::Tainted(measure)
            }
        }
    }
}


proof fn lemma_single_read<C: Cost>(clean: bool, measure: Measure<C>, arena: Seq<Node>)
    ensures
        crate::pretty_expressive::measure::retold_set(single(clean, measure@), reading(arena))
            == single(clean, measure.read_in(arena)),
{
    assert(retold_all(seq![measure@], reading(arena)) =~= seq![measure.read_in(arena)]);
}

proof fn lemma_single_within<C: Cost>(set: MeasureSet<C>, clean: bool, measure: Measure<C>, arena: Seq<Node>)
    requires
        set@ == single(clean, measure@),
        measure.document@ < arena.len(),
    ensures
        set.within(arena),
{
    assert forall|i: int| 0 <= i < set@.members().len() implies (
    #[trigger] set@.members()[i]).document < arena.len() by {
        assert(set@.members()[i] == measure@);
    }
}

impl<C: Cost> ChoicelessContext<C> {
    /// The layouts of the document `document` at `printing_context` that
    /// are worth keeping: the Pareto frontier of its layouts that stay
    /// inside the width limit, or one tainted layout where none does. The
    /// documents of the measures are put into the arena. What was found
    /// before for the same document, position and width limit is handed out
    /// again; what is found for a document that is no text and no line break
    /// is kept.
    pub fn resolve_document(
        &mut self,
        config: &PrintingConfig,
        document_context: &mut InternedMap<Document>,
        printing_context: PrintingContext,
        document: DocumentRef,
    ) -> (set: MeasureSet<C>)
        requires
            old(self).valid_for(old(document_context)@),
            old(document_context).valid(),
            document@ < old(document_context)@.len(),
            reach(printing_context@, weight(old(document_context).tree(document))) <= usize::MAX,
        ensures
            final(self).valid_for(final(document_context)@),
            resolves(
                set,
                old(document_context)@,
                *final(document_context),
                old(document_context).tree(document),
                printing_context@,
                config.max_width as nat,
            ),
            sound(
                set.read_in(final(document_context)@),
                reach(printing_context@, weight(old(document_context).tree(document))),
                config.max_width as nat,
            ),
            set@.well_formed(),
        decreases document@, 3nat,
    {
        let ghost start = document_context@;
        let ghost tree = tree_of(start, document@);
        let node = document_context.get(document).duplicate();
        proof {
            assert(node_ok(start[document@ as int], document@));
            lemma_resolved_sound::<C>(tree, printing_context@, config.max_width as nat);
        }
        let leaf = match &node {
            Document::Text(_) => true,
            Document::Newline => true,
            _ => false,
        };
        if !leaf {
            match self.recall(config, &printing_context, document, Ghost(start)) {
                Some(set) => {
                    proof {
                        lemma_retold_well_formed(set@, reading(start));
                    }
                    return set;
                },
                None => {},
            }
        }
        let set = match node {
            Document::Text(text) => {
                let slice = text.as_str();
                let set = self.resolve_text(config, printing_context, document, slice);
                proof {
                    let width = slice.spec_bytes().len();
                    let clean = printing_context.column + width <= config.max_width
                        && printing_context.current_indent <= config.max_width;
                    let measure = Measure::<C> {
                        last_line_width: (printing_context.column + width) as usize,
                        cost: C::text(printing_context.column as nat, width, config.max_width as nat),
                        document,
                    };
                    lemma_single_read(clean, measure, start);
                    lemma_single_within(set, clean, measure, start);
                }
                set
            },
            Document::Newline => {
                let set = self.resolve_newline(config, printing_context, document);
                proof {
                    if printing_context.should_flatten {
                        let clean = printing_context.column + 1 <= config.max_width
                            && printing_context.current_indent <= config.max_width;
                        let measure = Measure::<C> {
                            last_line_width: (printing_context.column + 1) as usize,
                            cost: C::text(
                                printing_context.column as nat,
                                1,
                                config.max_width as nat,
                            ),
                            document,
                        };
                        lemma_single_read(clean, measure, start);
                        lemma_single_within(set, clean, measure, start);
                    } else {
                        let clean = printing_context.column <= config.max_width
                            && printing_context.current_indent <= config.max_width;
                        let measure = Measure::<C> {
                            last_line_width: printing_context.current_indent,
                            cost: C::newline(),
                            document,
                        };
                        lemma_single_read(clean, measure, start);
                        lemma_single_within(set, clean, measure, start);
                    }
                }
                set
            },
            Document::Concat(children) => self.resolve_concat(
                config,
                printing_context,
                document_context,
                document,
                children,
            ),
            Document::Nest { add_indent_amount, child } => self.resolve_nest(
                config,
                printing_context,
                document_context,
                document,
                add_indent_amount,
                child,
            ),
            Document::Flatten(child) => self.resolve_flatten(
                config,
                printing_context,
                document_context,
                document,
                child,
            ),
            Document::Union(first, second) => self.resolve_union(
                config,
                printing_context,
                document_context,
                document,
                first,
                second,
            ),
        };
        proof {
            lemma_retold_well_formed(set@, reading(document_context@));
            lemma_tree_of_grown(document_context@, start, document@);
        }
        if !leaf {
            self.keep(config, &printing_context, document, &set, Ghost(document_context@));
        }
        set
    }

    /// The layouts of the `Nest` node `document`: those of its child at the
    /// raised indent, with their documents wrapped in the same `Nest`.
    pub fn resolve_nest(
        &mut self,
        config: &PrintingConfig,
        printing_context: PrintingContext,
        document_context: &mut InternedMap<Document>,
        document: DocumentRef,
        add_indent_amount: usize,
        child: DocumentRef,
    ) -> (set: MeasureSet<C>)
        requires
            old(self).valid_for(old(document_context)@),
            old(document_context).valid(),
            document@ < old(document_context)@.len(),
            old(document_context)@[document@ as int] == (Node::Nest {
                add_indent_amount: add_indent_amount as nat,
                child: child@,
            }),
            reach(printing_context@, weight(old(document_context).tree(document))) <= usize::MAX,
        ensures
            final(self).valid_for(final(document_context)@),
            resolves(
                set,
                old(document_context)@,
                *final(document_context),
                old(document_context).tree(document),
                printing_context@,
                config.max_width as nat,
            ),
            sound(
                set.read_in(final(document_context)@),
                reach(printing_context@, weight(old(document_context).tree(document))),
                config.max_width as nat,
            ),
        decreases document@, 0nat,
    {
        let ghost start = document_context@;
        proof {
            lemma_resolved_sound::<C>(
                tree_of(start, document@),
                printing_context@,
                config.max_width as nat,
            );
        }
        proof {
            assert(node_ok(start[document@ as int], document@));
        }
        let inner_context = PrintingContext {
            column: printing_context.column,
            current_indent: printing_context.current_indent + add_indent_amount,
            should_flatten: printing_context.should_flatten,
        };
        let inner = self.resolve_document(config, document_context, inner_context, child);
        let ghost middle = document_context@;
        let set = inner.lift(document_context, &Lift::Nest(add_indent_amount));
        proof {
            self.lemma_valid_for_grown(document_context@, middle);
        }
        set
    }

    /// The layouts of the `Flatten` node `document`: those of its child
    /// with line breaks as spaces, with their documents wrapped in
    /// `Flatten`.
    pub fn resolve_flatten(
        &mut self,
        config: &PrintingConfig,
        printing_context: PrintingContext,
        document_context: &mut InternedMap<Document>,
        document: DocumentRef,
        child: DocumentRef,
    ) -> (set: MeasureSet<C>)
        requires
            old(self).valid_for(old(document_context)@),
            old(document_context).valid(),
            document@ < old(document_context)@.len(),
            old(document_context)@[document@ as int] == Node::Flatten(child@),
            reach(printing_context@, weight(old(document_context).tree(document))) <= usize::MAX,
        ensures
            final(self).valid_for(final(document_context)@),
            resolves(
                set,
                old(document_context)@,
                *final(document_context),
                old(document_context).tree(document),
                printing_context@,
                config.max_width as nat,
            ),
            sound(
                set.read_in(final(document_context)@),
                reach(printing_context@, weight(old(document_context).tree(document))),
                config.max_width as nat,
            ),
        decreases document@, 0nat,
    {
        let ghost start = document_context@;
        proof {
            lemma_resolved_sound::<C>(
                tree_of(start, document@),
                printing_context@,
                config.max_width as nat,
            );
        }
        proof {
            assert(node_ok(start[document@ as int], document@));
        }
        let inner_context = PrintingContext {
            column: printing_context.column,
            current_indent: printing_context.current_indent,
            should_flatten: true,
        };
        let inner = self.resolve_document(config, document_context, inner_context, child);
        let ghost middle = document_context@;
        let set = inner.lift(document_context, &Lift::Flatten);
        proof {
            self.lemma_valid_for_grown(document_context@, middle);
        }
        set
    }

    /// The layouts of the `Union` node `document`: the merge of the layouts
    /// of its two branches at the same position.
    pub fn resolve_union(
        &mut self,
        config: &PrintingConfig,
        printing_context: PrintingContext,
        document_context: &mut InternedMap<Document>,
        document: DocumentRef,
        first: DocumentRef,
        second: DocumentRef,
    ) -> (set: MeasureSet<C>)
        requires
            old(self).valid_for(old(document_context)@),
            old(document_context).valid(),
            document@ < old(document_context)@.len(),
            old(document_context)@[document@ as int] == Node::Union(first@, second@),
            reach(printing_context@, weight(old(document_context).tree(document))) <= usize::MAX,
        ensures
            final(self).valid_for(final(document_context)@),
            resolves(
                set,
                old(document_context)@,
                *final(document_context),
                old(document_context).tree(document),
                printing_context@,
                config.max_width as nat,
            ),
            sound(
                set.read_in(final(document_context)@),
                reach(printing_context@, weight(old(document_context).tree(document))),
                config.max_width as nat,
            ),
        decreases document@, 0nat,
    {
        let ghost start = document_context@;
        proof {
            lemma_resolved_sound::<C>(
                tree_of(start, document@),
                printing_context@,
                config.max_width as nat,
            );
        }
        proof {
            assert(node_ok(start[document@ as int], document@));
        }
        let a = self.resolve_document(config, document_context, printing_context, first);
        let ghost middle = document_context@;
        proof {
            lemma_tree_of_grown(middle, start, second@);
        }
        let b = self.resolve_document(config, document_context, printing_context, second);
        proof {
            lemma_read_in_grown(a, document_context@, middle);
            lemma_merge_retold(a@, b@, reading(document_context@));
        }
        let set = a.merge_with(b);
        proof {
            lemma_merge_within(a, b, set, document_context@);
        }
        set
    }

    /// The layouts of the `Concat` node `document`, whose children are
    /// `children`: the children are resolved from the first on, each at the
    /// columns where the layouts of those before it end.
    pub fn resolve_concat(
        &mut self,
        config: &PrintingConfig,
        printing_context: PrintingContext,
        document_context: &mut InternedMap<Document>,
        document: DocumentRef,
        children: Vec<DocumentRef>,
    ) -> (set: MeasureSet<C>)
        requires
            old(self).valid_for(old(document_context)@),
            old(document_context).valid(),
            document@ < old(document_context)@.len(),
            old(document_context)@[document@ as int] == Node::Concat(positions(children@)),
            reach(printing_context@, weight(old(document_context).tree(document))) <= usize::MAX,
        ensures
            final(self).valid_for(final(document_context)@),
            resolves(
                set,
                old(document_context)@,
                *final(document_context),
                old(document_context).tree(document),
                printing_context@,
                config.max_width as nat,
            ),
            sound(
                set.read_in(final(document_context)@),
                reach(printing_context@, weight(old(document_context).tree(document))),
                config.max_width as nat,
            ),
        decreases document@, 0nat,
    {
        let ghost start = document_context@;
        proof {
            lemma_resolved_sound::<C>(
                tree_of(start, document@),
                printing_context@,
                config.max_width as nat,
            );
        }
        let ghost keys = positions(children@);
        let ghost trees = trees_of(start, keys);
        let ghost at = printing_context@;
        let ghost max_width = config.max_width as nat;
        proof {
            assert(node_ok(start[document@ as int], document@));
            lemma_concat_tree(start, document@, keys);
        }
        if children.len() == 0 {
            let key = document_context.concat(children);
            proof {
                assert(trees_of(start, keys) =~= Seq::<Tree>::empty());
                self.lemma_valid_for_grown(document_context@, start);
            }
            let measure = Measure {
                last_line_width: printing_context.column,
                cost: C::for_text(printing_context.column, 0, config.max_width),
                document: key,
            };
            let clean = printing_context.column <= config.max_width
                && printing_context.current_indent <= config.max_width;
            let set = if clean {
                let mut measures: Vec<Measure<C>> = Vec::new();
                measures.push(measure);
                proof {
                    assert(views(measures@) =~= seq![measure@]);
                }
                MeasureSet::Clean(measures)
            } else {
                MeasureSet::Tainted(measure)
            };
            proof {
                lemma_single_read(clean, measure, document_context@);
                lemma_single_within(set, clean, measure, document_context@);
                assert(trees.len() == 0);
                assert(measure.read_in(document_context@).document == Tree::Concat(
                    Seq::<Tree>::empty(),
                ));
                assert(resolved::<C>(tree_of(start, document@), at, max_width)
                    == resolved_concat::<C>(trees, 0, at, max_width));
            }
            return set;
        }
        proof {
            assert(keys[0] == children@[0]@);
            assert(keys[0] < document@);
            assert(trees[0] == tree_of(start, keys[0]));
            lemma_total_weight_grows(trees, 1, trees.len());
            assert(total_weight(trees, 0) == 0);
            assert(total_weight(trees, 1) == weight(trees[0]));
        }
        let mut running = self.resolve_document(
            config,
            document_context,
            printing_context,
            children[0],
        );
        let mut k: usize = 1;
        while k < children.len()
            invariant
                1 <= k <= children.len(),
                self.valid_for(document_context@),
                document_context.valid(),
                grown_from(document_context@, start),
                running.within(document_context@),
                running.read_in(document_context@) == resolved_concat::<C>(
                    trees,
                    k as nat,
                    at,
                    max_width,
                ),
                keys == positions(children@),
                trees == trees_of(start, keys),
                at == printing_context@,
                max_width == config.max_width as nat,
                forall|i: int| 0 <= i < keys.len() ==> keys[i] < document@,
                document@ < start.len(),
                reach(at, total_weight(trees, trees.len())) <= usize::MAX,
            decreases children.len() - k,
        {
            let ghost before = document_context@;
            let ghost child_tree = trees[k as int];
            proof {
                assert(keys[k as int] == children@[k as int]@);
                assert(child_tree == tree_of(start, keys[k as int]));
                lemma_tree_of_grown(before, start, keys[k as int]);
                lemma_resolved_concat_sound::<C>(trees, k as nat, at, max_width);
                lemma_total_weight_grows(trees, (k + 1) as nat, trees.len());
                lemma_retold_well_formed(running@, reading(before));
                let so_far = running.read_in(before);
                assert forall|i: int| 0 <= i < running@.members().len() implies reach(
                    at.at_column((#[trigger] running@.members()[i]).last_line_width),
                    weight(child_tree),
                ) <= usize::MAX by {
                    assert(so_far.members()[i].last_line_width
                        == running@.members()[i].last_line_width);
                    assert(so_far.members()[i].last_line_width <= reach(
                        at,
                        total_weight(trees, k as nat),
                    ));
                }
            }
            running = self.extend(
                config,
                printing_context,
                document_context,
                running,
                children[k],
            );
            k += 1;
        }
        running
    }

    /// The layouts of a sequence of documents from the layouts `so_far` of
    /// all but the last, and the last document `child`: each layout so far
    /// is followed by the layouts of `child` at the column where it ends.
    pub fn extend(
        &mut self,
        config: &PrintingConfig,
        printing_context: PrintingContext,
        document_context: &mut InternedMap<Document>,
        so_far: MeasureSet<C>,
        child: DocumentRef,
    ) -> (set: MeasureSet<C>)
        requires
            old(self).valid_for(old(document_context)@),
            old(document_context).valid(),
            child@ < old(document_context)@.len(),
            so_far.within(old(document_context)@),
            so_far@.well_formed(),
            forall|i: int|
                0 <= i < so_far@.members().len() ==> reach(
                    printing_context@.at_column(
                        (#[trigger] so_far@.members()[i]).last_line_width,
                    ),
                    weight(old(document_context).tree(child)),
                ) <= usize::MAX,
        ensures
            final(self).valid_for(final(document_context)@),
            final(document_context).valid(),
            grown_from(final(document_context)@, old(document_context)@),
            set.within(final(document_context)@),
            set.read_in(final(document_context)@) == extended(
                so_far.read_in(old(document_context)@),
                resolved_from::<C>(
                    old(document_context).tree(child),
                    printing_context@,
                    config.max_width as nat,
                ),
            ),
        decreases child@, 4nat,
    {
        let ghost start = document_context@;
        let ghost tree = tree_of(start, child@);
        let ghost at = printing_context@;
        let ghost max_width = config.max_width as nat;
        let ghost next = resolved_from::<C>(tree, at, max_width);
        match so_far {
            MeasureSet::Tainted(first) => {
                proof {
                    assert(so_far@.members()[0] == first@);
                }
                let context = PrintingContext {
                    column: first.last_line_width,
                    current_indent: printing_context.current_indent,
                    should_flatten: printing_context.should_flatten,
                };
                let following = self.resolve_document(config, document_context, context, child);
                let ghost middle = document_context@;
                let chosen = following.select();
                proof {
                    assert(following@.members()[0] == chosen@);
                    lemma_measure_read_in_grown(first, middle, start);
                    lemma_retold_well_formed(following@, reading(middle));
                    assert(following.read_in(middle).members()[0] == chosen.read_in(middle));
                }
                let joined = lift_measure(document_context, &Lift::After(first), &chosen);
                let set = MeasureSet::Tainted(joined);
                proof {
                    self.lemma_valid_for_grown(document_context@, middle);
                    assert forall|i: int| 0 <= i < set@.members().len() implies (
                    #[trigger] set@.members()[i]).document < document_context@.len() by {
                        assert(set@.members()[i] == joined@);
                    }
                }
                set
            },
            MeasureSet::Clean(firsts) => {
                let ghost heads = retold_all(views(firsts@), reading(start));
                proof {
                    assert(so_far@.members()[0] == firsts@[0]@);
                    assert(heads[0] == firsts@[0].read_in(start));
                }
                let context = PrintingContext {
                    column: firsts[0].last_line_width,
                    current_indent: printing_context.current_indent,
                    should_flatten: printing_context.should_flatten,
                };
                let following = self.resolve_document(config, document_context, context, child);
                let ghost middle = document_context@;
                proof {
                    lemma_measure_read_in_grown(firsts@[0], middle, start);
                }
                let mut set = following.follow(document_context, &firsts[0]);
                proof {
                    self.lemma_valid_for_grown(document_context@, middle);
                    assert(heads.subrange(0, 1).len() == 1);
                    assert(heads.subrange(0, 1)[0] == heads[0]);
                }
                let mut j: usize = 1;
                while j < firsts.len()
                    invariant
                        1 <= j <= firsts.len(),
                        self.valid_for(document_context@),
                        document_context.valid(),
                        grown_from(document_context@, start),
                        set.within(document_context@),
                        set.read_in(document_context@) == crossed(
                            heads.subrange(0, j as int),
                            next,
                        ),
                        heads == retold_all(views(firsts@), reading(start)),
                        next == resolved_from::<C>(tree, at, max_width),
                        tree == tree_of(start, child@),
                        at == printing_context@,
                        max_width == config.max_width as nat,
                        child@ < start.len(),
                        MeasureSet::Clean(firsts).within(start),
                        so_far == MeasureSet::Clean(firsts),
                        forall|i: int|
                            0 <= i < so_far@.members().len() ==> reach(
                                at.at_column((#[trigger] so_far@.members()[i]).last_line_width),
                                weight(tree),
                            ) <= usize::MAX,
                    decreases firsts.len() - j,
                {
                    let ghost before = document_context@;
                    proof {
                        assert(so_far@.members()[j as int] == firsts@[j as int]@);
                        lemma_tree_of_grown(before, start, child@);
                    }
                    let context = PrintingContext {
                        column: firsts[j].last_line_width,
                        current_indent: printing_context.current_indent,
                        should_flatten: printing_context.should_flatten,
                    };
                    let following = self.resolve_document(
                        config,
                        document_context,
                        context,
                        child,
                    );
                    let ghost middle = document_context@;
                    proof {
                        lemma_measure_read_in_grown(firsts@[j as int], middle, start);
                        assert(heads[j as int] == firsts@[j as int].read_in(start));
                    }
                    let more = following.follow(document_context, &firsts[j]);
                    proof {
                        self.lemma_valid_for_grown(document_context@, middle);
                        lemma_read_in_grown(set, middle, before);
                        lemma_read_in_grown(set, document_context@, middle);
                        lemma_merge_retold(set@, more@, reading(document_context@));
                        let taken = heads.subrange(0, j + 1);
                        assert(taken.drop_last() =~= heads.subrange(0, j as int));
                        assert(taken.last() == heads[j as int]);
                    }
                    let ghost previous = set;
                    set = set.merge_with(more);
                    proof {
                        lemma_merge_within(previous, more, set, document_context@);
                    }
                    j += 1;
                }
                proof {
                    assert(heads.subrange(0, j as int) =~= heads);
                }
                set
            },
        }
    }
}


/// In an arena without repeated nodes, a node is interned where it stands.
proof fn lemma_interned_in_place(arena: Seq<Node>, key: nat, later: Seq<Node>)
    requires
        distinct(arena),
        key < arena.len(),
        with_interned(arena, arena[key as int], later),
    ensures
        later == arena,
        interned_at(arena, arena[key as int]) == key,
{
    assert(arena.contains(arena[key as int]));
    let found = arena.index_of(arena[key as int]);
    assert(0 <= found < arena.len() && arena[found] == arena[key as int]);
}

impl<C: Cost> ChoicelessContext<C> {
    /// The measure of the one layout of a document without choices. A
    /// measure that was taken before of the same document, at the same
    /// position and for the same width limit, is handed out again; a new one
    /// is kept. The measured document is the document itself, and the arena
    /// stays as it is.
    pub fn measure_document_memoized(
        &mut self,
        config: &PrintingConfig,
        printing_context: PrintingContext,
        document_context: &mut InternedMap<Document>,
        document: DocumentRef,
    ) -> (r: Measure<C>)
        requires
            old(self).valid_for(old(document_context)@),
            old(document_context).valid(),
            document@ < old(document_context)@.len(),
            choiceless(old(document_context).tree(document)),
            reach(printing_context@, weight(old(document_context).tree(document))) <= usize::MAX,
        ensures
            final(self).valid_for(final(document_context)@),
            final(document_context).valid(),
            final(document_context)@ == old(document_context)@,
            r.document@ == document@,
            r.read_in(final(document_context)@) == measured::<C>(
                old(document_context).tree(document),
                printing_context@,
                config.max_width as nat,
            ),
        decreases document@, 1nat,
    {
        let ghost start = document_context@;
        let ghost tree = tree_of(start, document@);
        let ghost at = printing_context@;
        let ghost max_width = config.max_width as nat;
        proof {
            lemma_measured_document::<C>(tree, at, max_width);
        }
        if self.measures.contains_key(document) {
            let taken = self.measures.get(document);
            if taken.max_width == config.max_width && taken.context.column
                == printing_context.column && taken.context.current_indent
                == printing_context.current_indent && taken.context.should_flatten
                == printing_context.should_flatten {
                let measure = taken.measure.clone();
                proof {
                    assert(self.measures@[document@ as int].is_some());
                    assert(taken.context@ == at);
                    document_context.keys_are_canonical(measure.document, document);
                }
                return measure;
            }
        }
        let node = document_context.get(document).duplicate();
        proof {
            assert(node_ok(start[document@ as int], document@));
        }
        let measure: Measure<C> = match node {
            Document::Text(text) => {
                let slice = text.as_str();
                self.measure_text(config, &printing_context, document, slice)
            },
            Document::Newline => {
                if printing_context.should_flatten {
                    self.measure_space(config, &printing_context, document)
                } else {
                    self.measure_newline(&printing_context, document)
                }
            },
            Document::Concat(children) => {
                proof {
                    let keys = positions(children@);
                    lemma_concat_tree(start, document@, keys);
                    lemma_supremum_least(keys, document@);
                    let trees = trees_of(start, keys);
                    assert forall|i: int| 0 <= i < children@.len() implies children@[i]@
                        < start.len() && choiceless(tree_of(start, (#[trigger] children@[i])@)) by {
                        assert(keys[i] == children@[i]@);
                        assert(tree->Concat_0[i] == trees[i]);
                    }
                }
                let measure = self.measure_concat(
                    config,
                    printing_context,
                    document_context,
                    children.as_slice(),
                );
                proof {
                    lemma_interned_in_place(start, document@, document_context@);
                }
                measure
            },
            Document::Nest { add_indent_amount, child } => {
                let measure = self.measure_nest(
                    config,
                    printing_context,
                    document_context,
                    add_indent_amount,
                    child,
                );
                proof {
                    lemma_interned_in_place(start, document@, document_context@);
                }
                measure
            },
            Document::Flatten(child) => {
                let measure = self.measure_flatten(
                    config,
                    printing_context,
                    document_context,
                    child,
                );
                proof {
                    lemma_interned_in_place(start, document@, document_context@);
                }
                measure
            },
            Document::Union(_, _) => {
                proof {
                    assert(false);
                }
                self.measure_newline(&printing_context, document)
            },
        };
        if document.index() < self.measures.len() {
            let taken = Taken {
                max_width: config.max_width,
                context: printing_context,
                measure: measure.clone(),
            };
            self.measures.init(document, taken);
        }
        measure
    }

    /// The measure of the children `children` laid out one after the other,
    /// none of which holds a choice: each child starts where the one before
    /// it ends, and the costs are added from the first on. The `Concat` of
    /// the children is interned as the measured document.
    pub fn measure_concat(
        &mut self,
        config: &PrintingConfig,
        printing_context: PrintingContext,
        document_context: &mut InternedMap<Document>,
        children: &[DocumentRef],
    ) -> (r: Measure<C>)
        requires
            old(self).valid_for(old(document_context)@),
            old(document_context).valid(),
            forall|i: int| 0 <= i < children@.len() ==> children@[i]@ < old(document_context)@.len(),
            forall|i: int|
                0 <= i < children@.len() ==> choiceless(
                    old(document_context).tree(#[trigger] children@[i]),
                ),
            reach(
                printing_context@,
                total_weight(
                    trees_of(old(document_context)@, positions(children@)),
                    children@.len(),
                ),
            ) <= usize::MAX,
        ensures
            final(self).valid_for(final(document_context)@),
            final(document_context).valid(),
            with_interned(
                old(document_context)@,
                Node::Concat(positions(children@)),
                final(document_context)@,
            ),
            r.document@ == interned_at(old(document_context)@, Node::Concat(positions(children@))),
            r.read_in(final(document_context)@) == measured_concat::<C>(
                trees_of(old(document_context)@, positions(children@)),
                children@.len(),
                printing_context@,
                config.max_width as nat,
            ),
        decreases supremum(positions(children@)), 0nat,
    {
        let ghost start = document_context@;
        let ghost keys = positions(children@);
        let ghost trees = trees_of(start, keys);
        let ghost at = printing_context@;
        let ghost max_width = config.max_width as nat;
        let mut documents: Vec<DocumentRef> = Vec::new();
        proof {
            assert forall|i: int| 0 <= i < trees.len() implies choiceless(#[trigger] trees[i]) by {
                assert(trees[i] == tree_of(start, children@[i]@));
            }
            lemma_measured_concat_document::<C>(trees, trees.len(), at, max_width);
            assert(trees.subrange(0, trees.len() as int) =~= trees);
        }
        if children.len() == 0 {
            proof {
                assert(positions(documents@) =~= keys);
            }
            let key = document_context.concat(documents);
            proof {
                self.lemma_valid_for_grown(document_context@, start);
            }
            return Measure {
                last_line_width: printing_context.column,
                cost: C::for_text(printing_context.column, 0, config.max_width),
                document: key,
            };
        }
        proof {
            assert(keys[0] == children@[0]@);
            lemma_below_supremum(keys, 0);
            assert(trees[0] == tree_of(start, keys[0]));
            lemma_total_weight_grows(trees, 1, trees.len());
            assert(total_weight(trees, 0) == 0);
            assert(total_weight(trees, 1) == weight(trees[0]));
        }
        let first = self.measure_document_memoized(
            config,
            printing_context,
            document_context,
            children[0],
        );
        documents.push(first.document);
        let mut column = first.last_line_width;
        let mut cost = first.cost;
        let mut k: usize = 1;
        proof {
            assert(positions(documents@) =~= keys.subrange(0, 1));
        }
        while k < children.len()
            invariant
                1 <= k <= children.len(),
                self.valid_for(start),
                document_context.valid(),
                document_context@ == start,
                keys == positions(children@),
                trees == trees_of(start, keys),
                at == printing_context@,
                max_width == config.max_width as nat,
                forall|i: int| 0 <= i < keys.len() ==> #[trigger] keys[i] < start.len(),
                forall|i: int| 0 <= i < trees.len() ==> choiceless(#[trigger] trees[i]),
                reach(at, total_weight(trees, trees.len())) <= usize::MAX,
                documents.len() == k,
                positions(documents@) == keys.subrange(0, k as int),
                column == measured_concat::<C>(trees, k as nat, at, max_width).last_line_width,
                cost == measured_concat::<C>(trees, k as nat, at, max_width).cost,
            decreases children.len() - k,
        {
            proof {
                assert(keys[k as int] == children@[k as int]@);
                lemma_below_supremum(keys, k as int);
                assert(trees[k as int] == tree_of(start, keys[k as int]));
                lemma_measured_concat_reach::<C>(trees, k as nat, at, max_width);
                lemma_total_weight_grows(trees, (k + 1) as nat, trees.len());
            }
            let context = PrintingContext {
                column,
                current_indent: printing_context.current_indent,
                should_flatten: printing_context.should_flatten,
            };
            let next = self.measure_document_memoized(
                config,
                context,
                document_context,
                children[k],
            );
            cost = cost.add(next.cost);
            column = next.last_line_width;
            let ghost before = documents@;
            documents.push(next.document);
            proof {
                assert forall|i: int| 0 <= i < k + 1 implies positions(documents@)[i]
                    == keys.subrange(0, k + 1)[i] by {
                    if i < k {
                        assert(positions(before)[i] == keys.subrange(0, k as int)[i]);
                    }
                }
                assert(positions(documents@) =~= keys.subrange(0, k + 1));
            }
            k += 1;
        }
        proof {
            assert(keys.subrange(0, k as int) =~= keys);
            assert forall|i: int| 0 <= i < documents@.len() implies documents@[i]@
                < document_context@.len() by {
                assert(positions(documents@)[i] == keys[i]);
            }
        }
        let key = document_context.concat(documents);
        proof {
            self.lemma_valid_for_grown(document_context@, start);
        }
        Measure { last_line_width: column, cost, document: key }
    }

    /// The measure of `child`, which holds no choice, at the indent raised
    /// by `add_indent_amount`. The `Nest` of the child is interned as the
    /// measured document.
    pub fn measure_nest(
        &mut self,
        config: &PrintingConfig,
        printing_context: PrintingContext,
        document_context: &mut InternedMap<Document>,
        add_indent_amount: usize,
        child: DocumentRef,
    ) -> (r: Measure<C>)
        requires
            old(self).valid_for(old(document_context)@),
            old(document_context).valid(),
            child@ < old(document_context)@.len(),
            choiceless(old(document_context).tree(child)),
            reach(
                printing_context@.nested(add_indent_amount as nat),
                weight(old(document_context).tree(child)),
            ) <= usize::MAX,
        ensures
            final(self).valid_for(final(document_context)@),
            final(document_context).valid(),
            with_interned(
                old(document_context)@,
                Node::Nest { add_indent_amount: add_indent_amount as nat, child: child@ },
                final(document_context)@,
            ),
            r.document@ == interned_at(
                old(document_context)@,
                Node::Nest { add_indent_amount: add_indent_amount as nat, child: child@ },
            ),
            r.read_in(final(document_context)@) == Lifting::<C>::Nest(
                add_indent_amount as nat,
            ).apply(
                measured::<C>(
                    old(document_context).tree(child),
                    printing_context@.nested(add_indent_amount as nat),
                    config.max_width as nat,
                ),
            ),
        decreases child@ + 1, 0nat,
    {
        let ghost start = document_context@;
        let context = PrintingContext {
            column: printing_context.column,
            current_indent: printing_context.current_indent + add_indent_amount,
            should_flatten: printing_context.should_flatten,
        };
        let child_measure = self.measure_document_memoized(
            config,
            context,
            document_context,
            child,
        );
        let document = document_context.nest(add_indent_amount, child_measure.document);
        proof {
            self.lemma_valid_for_grown(document_context@, start);
        }
        Measure {
            last_line_width: child_measure.last_line_width,
            cost: child_measure.cost,
            document,
        }
    }

    /// The measure of `child`, which holds no choice, with its line breaks
    /// as spaces. The `Flatten` of the child is interned as the measured
    /// document.
    pub fn measure_flatten(
        &mut self,
        config: &PrintingConfig,
        printing_context: PrintingContext,
        document_context: &mut InternedMap<Document>,
        child: DocumentRef,
    ) -> (r: Measure<C>)
        requires
            old(self).valid_for(old(document_context)@),
            old(document_context).valid(),
            child@ < old(document_context)@.len(),
            choiceless(old(document_context).tree(child)),
            reach(printing_context@, weight(old(document_context).tree(child))) <= usize::MAX,
        ensures
            final(self).valid_for(final(document_context)@),
            final(document_context).valid(),
            with_interned(old(document_context)@, Node::Flatten(child@), final(document_context)@),
            r.document@ == interned_at(old(document_context)@, Node::Flatten(child@)),
            r.read_in(final(document_context)@) == Lifting::<C>::Flatten.apply(
                measured::<C>(
                    old(document_context).tree(child),
                    printing_context@.flattened(),
                    config.max_width as nat,
                ),
            ),
        decreases child@ + 1, 0nat,
    {
        let ghost start = document_context@;
        let context = PrintingContext {
            column: printing_context.column,
            current_indent: printing_context.current_indent,
            should_flatten: true,
        };
        let child_measure = self.measure_document_memoized(
            config,
            context,
            document_context,
            child,
        );
        let document = document_context.flatten(child_measure.document);
        proof {
            self.lemma_valid_for_grown(document_context@, start);
        }
        Measure {
            last_line_width: child_measure.last_line_width,
            cost: child_measure.cost,
            document,
        }
    }
}

} // verus!
