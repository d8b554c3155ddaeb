use crate::pretty_expressive::cost::Cost;
use crate::pretty_expressive::document::{
    grown_from,
    lemma_concat_tree,
    node_ok,
    positions,
    tree_of,
    trees_of,
    Document,
    DocumentRef,
    Node,
};
use crate::pretty_expressive::interned_map::{InternedKey, InternedMap};
use crate::pretty_expressive::layout::{resolved, total_weight, weight, Position};
use crate::pretty_expressive::measure::Measure;
use crate::pretty_expressive::resolve::{ChoicelessContext, PrintingConfig, PrintingContext};
use vstd::prelude::*;

verus! {

/// `found` is `weight` where that fits a machine word, and nothing where it
/// does not.
pub open spec fn weighs(found: Option<usize>, weight: nat) -> bool {
    match found {
        Some(w) => w == weight,
        None => weight > usize::MAX,
    }
}

/// The sum of two weights, where both are there and the sum fits.
pub open spec fn weights_added(a: Option<usize>, b: Option<usize>) -> Option<usize> {
    match (a, b) {
        (Some(x), Some(y)) => if x + y <= usize::MAX {
            Some((x + y) as usize)
        } else {
            None
        },
        _ => None,
    }
}

fn add_weights(a: Option<usize>, b: Option<usize>) -> (r: Option<usize>)
    ensures
        r == weights_added(a, b),
{
    match (a, b) {
        (Some(x), Some(y)) => x.checked_add(y),
        _ => None,
    }
}

proof fn lemma_weights_added(a: Option<usize>, b: Option<usize>, x: nat, y: nat)
    requires
        weighs(a, x),
        weighs(b, y),
    ensures
        weighs(weights_added(a, b), x + y),
{
}

/// The weights of the documents before `upto` are in `weights`.
spec fn weighed(arena: Seq<Node>, weights: Seq<Option<usize>>, upto: nat) -> bool {
    &&& weights.len() == upto
    &&& forall|k: int|
        0 <= k < upto ==> weighs(#[trigger] weights[k], weight(tree_of(arena, k as nat)))
}

fn weigh_children(
    document_context: &InternedMap<Document>,
    weights: &Vec<Option<usize>>,
    children: &Vec<DocumentRef>,
    Ghost(at): Ghost<nat>,
) -> (found: Option<usize>)
    requires
        weighed(document_context@, weights@, at),
        forall|k: int| 0 <= k < children@.len() ==> (#[trigger] children@[k])@ < at,
    ensures
        weighs(
            found,
            total_weight(
                trees_of(document_context@, positions(children@)),
                children@.len(),
            ),
        ),
{
    let ghost arena = document_context@;
    let ghost keys = positions(children@);
    let ghost trees = trees_of(arena, keys);
    let mut total: Option<usize> = Some(0);
    let mut j: usize = 0;
    while j < children.len()
        invariant
            j <= children.len(),
            arena == document_context@,
            keys == positions(children@),
            trees == trees_of(arena, keys),
            forall|k: int| 0 <= k < children@.len() ==> (#[trigger] children@[k])@ < at,
            weighed(arena, weights@, at),
            weighs(total, total_weight(trees, j as nat)),
        decreases children.len() - j,
    {
        proof {
            assert(children@[j as int]@ < at);
            assert(keys[j as int] == children@[j as int]@);
            assert(trees[j as int] == tree_of(arena, keys[j as int]));
            assert(weighs(weights@[children@[j as int]@ as int], weight(trees[j as int])));
            lemma_weights_added(
                total,
                weights@[children@[j as int]@ as int],
                total_weight(trees, j as nat),
                weight(trees[j as int]),
            );
        }
        total = add_weights(total, weights[children[j].index()]);
        j += 1;
    }
    total
}

fn weigh_node(
    document_context: &InternedMap<Document>,
    weights: &Vec<Option<usize>>,
    i: usize,
) -> (found: Option<usize>)
    requires
        document_context.valid(),
        i < document_context@.len(),
        weighed(document_context@, weights@, i as nat),
    ensures
        weighs(found, weight(tree_of(document_context@, i as nat))),
{
    let ghost arena = document_context@;
    let node = document_context.get(InternedKey::at(i));
    proof {
        assert(node_ok(arena[i as int], i as nat));
    }
    match node {
        Document::Text(text) => Some(text.as_str().as_bytes().len()),
        Document::Newline => Some(1),
        Document::Concat(children) => {
            proof {
                let keys = positions(children@);
                lemma_concat_tree(arena, i as nat, keys);
                assert forall|k: int| 0 <= k < children@.len() implies (#[trigger] children@[k])@
                    < i by {
                    assert(keys[k] == children@[k]@);
                }
            }
            weigh_children(document_context, weights, children, Ghost(i as nat))
        },
        Document::Nest { add_indent_amount, child } => {
            proof {
                assert(weighs(weights@[child@ as int], weight(tree_of(arena, child@))));
                lemma_weights_added(
                    Some(*add_indent_amount),
                    weights@[child@ as int],
                    *add_indent_amount as nat,
                    weight(tree_of(arena, child@)),
                );
            }
            add_weights(Some(*add_indent_amount), weights[child.index()])
        },
        Document::Flatten(child) => {
            proof {
                assert(weighs(weights@[child@ as int], weight(tree_of(arena, child@))));
            }
            weights[child.index()]
        },
        Document::Union(first, second) => {
            proof {
                assert(weighs(weights@[first@ as int], weight(tree_of(arena, first@))));
                assert(weighs(weights@[second@ as int], weight(tree_of(arena, second@))));
                lemma_weights_added(
                    weights@[first@ as int],
                    weights@[second@ as int],
                    weight(tree_of(arena, first@)),
                    weight(tree_of(arena, second@)),
                );
            }
            add_weights(weights[first.index()], weights[second.index()])
        },
    }
}

/// The weight of the document `document`, which bounds how far any of its
/// layouts can move the column; nothing where the weight does not fit a
/// machine word.
pub fn weigh(document_context: &InternedMap<Document>, document: DocumentRef) -> (found: Option<
    usize,
>)
    requires
        document_context.valid(),
        document@ < document_context@.len(),
    ensures
        weighs(found, weight(document_context.tree(document))),
{
    let ghost arena = document_context@;
    let length = document_context.len();
    let mut weights: Vec<Option<usize>> = Vec::new();
    let mut i: usize = 0;
    while i <= document.index()
        invariant
            i <= document@ + 1,
            arena.len() == length,
            document@ < arena.len(),
            arena == document_context@,
            document_context.valid(),
            weighed(arena, weights@, i as nat),
        decreases document@ + 1 - i,
    {
        let found = weigh_node(document_context, &weights, i);
        weights.push(found);
        i += 1;
    }
    weights[document.index()]
}

/// The start of a page: column 0, no indent, not flattened.
pub open spec fn page_start() -> Position {
    Position { column: 0, current_indent: 0, should_flatten: false }
}

/// Lays out the document `document` from the start of a page: resolves it
/// and selects its cheapest layout, and among equally cheap ones the
/// narrowest. The document of the selected measure holds no choice. Nothing
/// is laid out where `document` is no key of the arena or its weight does
/// not fit a machine word.
pub fn select_layout<C: Cost>(
    config: &PrintingConfig,
    document_context: &mut InternedMap<Document>,
    document: DocumentRef,
) -> (selected: Option<Measure<C>>)
    requires
        old(document_context).valid(),
    ensures
        final(document_context).valid(),
        grown_from(final(document_context)@, old(document_context)@),
        selected is Some <==> document@ < old(document_context)@.len() && weight(
            old(document_context).tree(document),
        ) <= usize::MAX,
        selected matches Some(measure) ==> measure.document@ < final(document_context)@.len()
            && measure.read_in(final(document_context)@) == resolved::<C>(
            old(document_context).tree(document),
            page_start(),
            config.max_width as nat,
        ).chosen(),
{
    if document.index() >= document_context.len() {
        return None;
    }
    match weigh(document_context, document) {
        None => None,
        Some(_) => {
            let mut resolver: ChoicelessContext<C> = ChoicelessContext::new(document_context);
            let set = resolver.resolve_document(
                config,
                document_context,
                PrintingContext::new(),
                document,
            );
            let measure = set.select();
            proof {
                assert(set@.members()[0] == measure@);
            }
            Some(measure)
        },
    }
}

} // verus!
