use crate::config::{signed_decimal, signed_decimal_string};
use crate::document::{
    child_shape,
    places,
    settled,
    shape_of,
    shapes_of,
    Document,
    DocumentIdx,
    Entry,
    InternedDocumentStore,
    Shape,
};
use crate::writer::{decrease_indent, emit, increase_indent, page_of, Page};
use vstd::prelude::*;

verus! {

/// Why a document was not printed.
pub enum RenderError {
    /// The document holds a `TryCatch`, or a key that leads to no earlier
    /// document of its store.
    InvariantViolation,
    /// The stream below the formatter failed.
    Writer(core::fmt::Error),
}

/// The page after `shape` went through the formatter. A line break is one
/// space where `flattened` holds, and the end of a line else. A `Nest` of a
/// positive amount prints its body one step deeper, one of a negative
/// amount one step shallower, and both restore the indent by the opposite
/// step. A `Flatten` prints its body flattened.
pub open spec fn printed(shape: Shape, flattened: bool, page: Page) -> Page
    decreases shape,
{
    match shape {
        Shape::Newline => if flattened {
            page.wrote(seq![' '])
        } else {
            page.wrote(seq!['\n'])
        },
        Shape::Text(text) => page.wrote(text),
        Shape::Nest(body, by) => if by > 0 {
            printed(*body, flattened, page.deeper()).shallower()
        } else if by < 0 {
            printed(*body, flattened, page.shallower()).deeper()
        } else {
            printed(*body, flattened, page)
        },
        Shape::Flatten(body) => printed(*body, true, page),
        Shape::List(children) => printed_list(children, children.len(), flattened, page),
        Shape::TryCatch(_, _) => page,
        Shape::Missing => page,
    }
}

/// The page after the first `count` of `children` went through the
/// formatter, one after the other.
pub open spec fn printed_list(children: Seq<Shape>, count: nat, flattened: bool, page: Page) -> Page
    decreases children, count,
{
    if count == 0 || count > children.len() {
        page
    } else {
        printed(
            children[count - 1],
            flattened,
            printed_list(children, (count - 1) as nat, flattened, page),
        )
    }
}

/// Nothing of `shape` reaches the formatter: it holds no line break and no
/// text but the empty one.
pub open spec fn silent(shape: Shape) -> bool
    decreases shape,
{
    match shape {
        Shape::Newline => false,
        Shape::Text(text) => text.len() == 0,
        Shape::Nest(body, _) => silent(*body),
        Shape::Flatten(body) => silent(*body),
        Shape::List(children) => forall|i: int|
            0 <= i < children.len() ==> silent(#[trigger] children[i]),
        Shape::TryCatch(_, _) => true,
        Shape::Missing => true,
    }
}

proof fn lemma_list_shape(store: Seq<Entry>, key: nat, children: Seq<nat>)
    requires
        key < store.len(),
        store[key as int] == Entry::List(children),
        settled(shape_of(store, key)),
    ensures
        shape_of(store, key) == Shape::List(shapes_of(store, children)),
        forall|i: int| 0 <= i < children.len() ==> (#[trigger] children[i]) < key,
        forall|i: int|
            0 <= i < children.len() ==> settled(shape_of(store, (#[trigger] children[i]))),
{
    assert(store[key as int]->List_0 == children);
    let shapes = shape_of(store, key)->List_0;
    assert forall|i: int| 0 <= i < children.len() implies (#[trigger] children[i]) < key
        && settled(shape_of(store, children[i])) by {
        assert(settled(shapes[i]));
    }
    assert(shapes =~= shapes_of(store, children));
}

proof fn lemma_body_shape(store: Seq<Entry>, key: nat, body: nat)
    requires
        key < store.len(),
        store[key as int] is Nest && store[key as int]->Nest_0 == body || store[key as int]
            is Flatten && store[key as int]->Flatten_0 == body,
    ensures
        store[key as int] is Nest ==> shape_of(store, key) == Shape::Nest(
            Box::new(child_shape(store, key, body)),
            store[key as int]->Nest_1,
        ),
        store[key as int] is Flatten ==> shape_of(store, key) == Shape::Flatten(
            Box::new(child_shape(store, key, body)),
        ),
        settled(shape_of(store, key)) <==> body < key && settled(shape_of(store, body)),
{
    assert(child_shape(store, key, body) == if body < key {
        shape_of(store, body)
    } else {
        Shape::Missing
    });
    assert(!settled(Shape::Missing));
    assert(settled(shape_of(store, key)) == settled(child_shape(store, key, body)));
}

/// Whether the document at `idx` can be printed: it holds no `TryCatch`,
/// and every key in it leads to an earlier document of the store.
pub fn can_print(store: &InternedDocumentStore, idx: DocumentIdx) -> (r: bool)
    ensures
        r == settled(store.shape(idx)),
    decreases idx@,
{
    if idx.index() >= store.len() {
        return false;
    }
    match store.get(idx) {
        Document::Newline => true,
        Document::Text(_) => true,
        Document::Nest(body, _) => {
            proof {
                lemma_body_shape(store@, idx@, body@);
            }
            body.index() < idx.index() && can_print(store, *body)
        },
        Document::Flatten(body) => {
            proof {
                lemma_body_shape(store@, idx@, body@);
            }
            body.index() < idx.index() && can_print(store, *body)
        },
        Document::List(children) => {
            let ghost keys = places(children@);
            let ghost shapes = shape_of(store@, idx@)->List_0;
            proof {
                assert(store@[idx@ as int]->List_0 == keys);
            }
            let mut i: usize = 0;
            while i < children.len()
                invariant
                    i <= children.len(),
                    idx@ < store@.len(),
                    keys == places(children@),
                    store@[idx@ as int] == Entry::List(keys),
                    shapes == shape_of(store@, idx@)->List_0,
                    shape_of(store@, idx@) is List,
                    shapes.len() == keys.len(),
                    forall|k: int| 0 <= k < i ==> settled(#[trigger] shapes[k]),
                decreases children.len() - i,
            {
                proof {
                    assert(keys[i as int] == children@[i as int]@);
                    assert(shapes[i as int] == if keys[i as int] < idx@ {
                        shape_of(store@, keys[i as int])
                    } else {
                        Shape::Missing
                    });
                }
                if children[i].index() >= idx.index() || !can_print(store, children[i]) {
                    proof {
                        assert(!settled(shapes[i as int]));
                    }
                    return false;
                }
                i += 1;
            }
            true
        },
        Document::TryCatch(_, _) => false,
    }
}

/// Prints a document that can be printed.
fn print_settled(
    store: &InternedDocumentStore,
    f: &mut inform::fmt::IndentFormatter,
    idx: DocumentIdx,
    flattened: bool,
) -> (r: Result<(), core::fmt::Error>)
    requires
        idx@ < store@.len(),
        settled(store.shape(idx)),
    ensures
        page_of(*final(f)).step == page_of(*old(f)).step,
        r is Ok ==> page_of(*final(f)) == printed(store.shape(idx), flattened, page_of(*old(f))),
        silent(store.shape(idx)) ==> r is Ok,
    decreases idx@,
{
    match store.get(idx) {
        Document::Newline => {
            if flattened {
                proof {
                    reveal_strlit(" ");
                    assert(" "@ =~= seq![' ']);
                }
                emit(f, " ")
            } else {
                proof {
                    reveal_strlit("\n");
                    assert("\n"@ =~= seq!['\n']);
                }
                emit(f, "\n")
            }
        },
        Document::Text(text) => emit(f, text.as_str()),
        Document::Nest(body, by) => {
            proof {
                lemma_body_shape(store@, idx@, body@);
            }
            if *by > 0 {
                increase_indent(f);
            } else if *by < 0 {
                decrease_indent(f);
            }
            match print_settled(store, f, *body, flattened) {
                Err(error) => {
                    return Err(error);
                },
                Ok(()) => {},
            }
            if *by > 0 {
                decrease_indent(f);
            } else if *by < 0 {
                increase_indent(f);
            }
            Ok(())
        },
        Document::Flatten(body) => {
            proof {
                lemma_body_shape(store@, idx@, body@);
            }
            print_settled(store, f, *body, true)
        },
        Document::List(children) => {
            let ghost keys = places(children@);
            let ghost shapes = shapes_of(store@, keys);
            proof {
                lemma_list_shape(store@, idx@, keys);
                assert(store.shape(idx)->List_0 == shapes);
                if silent(store.shape(idx)) {
                    assert forall|k: int| 0 <= k < shapes.len() implies silent(
                        #[trigger] shapes[k],
                    ) by {
                        assert(silent(store.shape(idx)->List_0[k]));
                    }
                }
            }
            let mut i: usize = 0;
            while i < children.len()
                invariant
                    i <= children.len(),
                    idx@ < store@.len(),
                    keys == places(children@),
                    shapes == shapes_of(store@, keys),
                    forall|k: int| 0 <= k < keys.len() ==> (#[trigger] keys[k]) < idx@,
                    forall|k: int|
                        0 <= k < keys.len() ==> settled(shape_of(store@, (#[trigger] keys[k]))),
                    page_of(*f).step == page_of(*old(f)).step,
                    page_of(*f) == printed_list(shapes, i as nat, flattened, page_of(*old(f))),
                    silent(store.shape(idx)) ==> forall|k: int|
                        0 <= k < shapes.len() ==> silent(#[trigger] shapes[k]),
                decreases children.len() - i,
            {
                proof {
                    assert(keys[i as int] == children@[i as int]@);
                    assert(shapes[i as int] == shape_of(store@, keys[i as int]));
                }
                match print_settled(store, f, children[i], flattened) {
                    Err(error) => {
                        return Err(error);
                    },
                    Ok(()) => {},
                }
                i += 1;
            }
            Ok(())
        },
        Document::TryCatch(_, _) => Ok(()),
    }
}

/// Prints the document at `idx` through the formatter `f`. A document that
/// holds a `TryCatch` or misses a part is not printed at all. A failure of
/// the stream below the formatter ends the printing and is handed on.
pub fn print_resolved(
    store: &InternedDocumentStore,
    f: &mut inform::fmt::IndentFormatter,
    idx: DocumentIdx,
    flattened: bool,
) -> (r: Result<(), RenderError>)
    ensures
        page_of(*final(f)).step == page_of(*old(f)).step,
        !settled(store.shape(idx)) ==> r == Err::<(), RenderError>(
            RenderError::InvariantViolation,
        ) && *final(f) == *old(f),
        settled(store.shape(idx)) ==> (r is Ok || r matches Err(RenderError::Writer(_))),
        settled(store.shape(idx)) && silent(store.shape(idx)) ==> r is Ok,
        r is Ok ==> page_of(*final(f)) == printed(store.shape(idx), flattened, page_of(*old(f))),
{
    if !can_print(store, idx) {
        return Err(RenderError::InvariantViolation);
    }
    match print_settled(store, f, idx, flattened) {
        Ok(()) => Ok(()),
        Err(error) => Err(RenderError::Writer(error)),
    }
}


/// The document misses no part.
pub open spec fn complete(shape: Shape) -> bool
    decreases shape,
{
    match shape {
        Shape::Newline => true,
        Shape::Text(_) => true,
        Shape::Nest(body, _) => complete(*body),
        Shape::Flatten(body) => complete(*body),
        Shape::List(children) => forall|i: int|
            0 <= i < children.len() ==> complete(#[trigger] children[i]),
        Shape::TryCatch(try_body, catch_body) => complete(*try_body) && complete(*catch_body),
        Shape::Missing => false,
    }
}

/// The page after the structure of `shape` went through the formatter: the
/// name of each node, and in brackets, one step deeper and each on a line
/// of its own, what the node holds. An empty list leaves no trace.
pub open spec fn debugged(shape: Shape, page: Page) -> Page
    decreases shape,
{
    match shape {
        Shape::Newline => page.wrote("Newline"@),
        Shape::Text(text) => page.wrote("Text(\""@).wrote(text).wrote("\")"@),
        Shape::Nest(body, by) => debugged(*body, page.wrote("Nest(\n"@).deeper()).wrote(
            ",\n"@,
        ).wrote(signed_decimal(by)).wrote("\n"@).shallower().wrote(")"@),
        Shape::Flatten(body) => debugged(*body, page.wrote("Flatten(\n"@).deeper()).wrote(
            "\n"@,
        ).shallower().wrote(")"@),
        Shape::List(children) => if children.len() == 0 {
            page
        } else {
            debugged_list(
                children,
                children.len(),
                page.wrote("List(\n"@).deeper(),
            ).shallower().wrote(")"@)
        },
        Shape::TryCatch(try_body, catch_body) => debugged(
            *catch_body,
            debugged(*try_body, page.wrote("TryCatch(\n"@).deeper()).wrote(",\n"@),
        ).wrote(",\n"@).shallower().wrote(")"@),
        Shape::Missing => page,
    }
}

/// The page after the structure of the first `count` of `children` went
/// through the formatter, each followed by a comma and the end of the line.
pub open spec fn debugged_list(children: Seq<Shape>, count: nat, page: Page) -> Page
    decreases children, count,
{
    if count == 0 || count > children.len() {
        page
    } else {
        debugged(children[count - 1], debugged_list(children, (count - 1) as nat, page)).wrote(
            ",\n"@,
        )
    }
}

proof fn lemma_pair_shape(store: Seq<Entry>, key: nat)
    requires
        key < store.len(),
        store[key as int] is TryCatch,
    ensures
        shape_of(store, key) == Shape::TryCatch(
            Box::new(child_shape(store, key, store[key as int]->TryCatch_0)),
            Box::new(child_shape(store, key, store[key as int]->TryCatch_1)),
        ),
        complete(shape_of(store, key)) <==> {
            &&& store[key as int]->TryCatch_0 < key
            &&& store[key as int]->TryCatch_1 < key
            &&& complete(shape_of(store, store[key as int]->TryCatch_0))
            &&& complete(shape_of(store, store[key as int]->TryCatch_1))
        },
{
    let first = store[key as int]->TryCatch_0;
    let second = store[key as int]->TryCatch_1;
    assert(child_shape(store, key, first) == if first < key {
        shape_of(store, first)
    } else {
        Shape::Missing
    });
    assert(child_shape(store, key, second) == if second < key {
        shape_of(store, second)
    } else {
        Shape::Missing
    });
    assert(!complete(Shape::Missing));
    assert(complete(shape_of(store, key)) == (complete(child_shape(store, key, first))
        && complete(child_shape(store, key, second))));
}

proof fn lemma_body_complete(store: Seq<Entry>, key: nat, body: nat)
    requires
        key < store.len(),
        store[key as int] is Nest && store[key as int]->Nest_0 == body || store[key as int]
            is Flatten && store[key as int]->Flatten_0 == body,
    ensures
        complete(shape_of(store, key)) <==> body < key && complete(shape_of(store, body)),
{
    lemma_body_shape(store, key, body);
    assert(child_shape(store, key, body) == if body < key {
        shape_of(store, body)
    } else {
        Shape::Missing
    });
    assert(!complete(Shape::Missing));
    assert(complete(shape_of(store, key)) == complete(child_shape(store, key, body)));
}

proof fn lemma_list_complete(store: Seq<Entry>, key: nat, children: Seq<nat>)
    requires
        key < store.len(),
        store[key as int] == Entry::List(children),
        complete(shape_of(store, key)),
    ensures
        shape_of(store, key) == Shape::List(shapes_of(store, children)),
        forall|i: int| 0 <= i < children.len() ==> (#[trigger] children[i]) < key,
        forall|i: int|
            0 <= i < children.len() ==> complete(shape_of(store, (#[trigger] children[i]))),
{
    assert(store[key as int]->List_0 == children);
    let shapes = shape_of(store, key)->List_0;
    assert forall|i: int| 0 <= i < children.len() implies (#[trigger] children[i]) < key
        && complete(shape_of(store, children[i])) by {
        assert(complete(shapes[i]));
    }
    assert(shapes =~= shapes_of(store, children));
}

/// Whether the document at `idx` misses no part: every key in it leads to
/// an earlier document of the store.
pub fn is_complete(store: &InternedDocumentStore, idx: DocumentIdx) -> (r: bool)
    ensures
        r == complete(store.shape(idx)),
    decreases idx@,
{
    if idx.index() >= store.len() {
        return false;
    }
    match store.get(idx) {
        Document::Newline => true,
        Document::Text(_) => true,
        Document::Nest(body, _) => {
            proof {
                lemma_body_complete(store@, idx@, body@);
            }
            body.index() < idx.index() && is_complete(store, *body)
        },
        Document::Flatten(body) => {
            proof {
                lemma_body_complete(store@, idx@, body@);
            }
            body.index() < idx.index() && is_complete(store, *body)
        },
        Document::List(children) => {
            let ghost keys = places(children@);
            let ghost shapes = shape_of(store@, idx@)->List_0;
            proof {
                assert(store@[idx@ as int]->List_0 == keys);
            }
            let mut i: usize = 0;
            while i < children.len()
                invariant
                    i <= children.len(),
                    idx@ < store@.len(),
                    keys == places(children@),
                    store@[idx@ as int] == Entry::List(keys),
                    shapes == shape_of(store@, idx@)->List_0,
                    shape_of(store@, idx@) is List,
                    shapes.len() == keys.len(),
                    forall|k: int| 0 <= k < i ==> complete(#[trigger] shapes[k]),
                decreases children.len() - i,
            {
                proof {
                    assert(keys[i as int] == children@[i as int]@);
                    assert(shapes[i as int] == if keys[i as int] < idx@ {
                        shape_of(store@, keys[i as int])
                    } else {
                        Shape::Missing
                    });
                }
                if children[i].index() >= idx.index() || !is_complete(store, children[i]) {
                    proof {
                        assert(!complete(shapes[i as int]));
                    }
                    return false;
                }
                i += 1;
            }
            true
        },
        Document::TryCatch(try_body, catch_body) => {
            proof {
                lemma_pair_shape(store@, idx@);
            }
            try_body.index() < idx.index() && catch_body.index() < idx.index() && is_complete(
                store,
                *try_body,
            ) && is_complete(store, *catch_body)
        },
    }
}

/// Sends `text` through the formatter, whose step of indent is `step`.
fn emit_from(f: &mut inform::fmt::IndentFormatter, text: &str, Ghost(step): Ghost<nat>) -> (r:
    Result<(), core::fmt::Error>)
    requires
        page_of(*old(f)).step == step,
    ensures
        page_of(*final(f)).step == step,
        r is Ok ==> page_of(*final(f)) == page_of(*old(f)).wrote(text@),
        text@.len() == 0 ==> r is Ok,
{
    emit(f, text)
}

/// Prints the structure of a document that misses no part.
fn debug_complete(
    store: &InternedDocumentStore,
    f: &mut inform::fmt::IndentFormatter,
    idx: DocumentIdx,
) -> (r: Result<(), core::fmt::Error>)
    requires
        idx@ < store@.len(),
        complete(store.shape(idx)),
    ensures
        page_of(*final(f)).step == page_of(*old(f)).step,
        r is Ok ==> page_of(*final(f)) == debugged(store.shape(idx), page_of(*old(f))),
        store.shape(idx) == Shape::List(Seq::empty()) ==> r is Ok && *final(f) == *old(f),
    decreases idx@,
{
    let ghost step = page_of(*f).step;
    match store.get(idx) {
        Document::Newline => emit(f, "Newline"),
        Document::Text(text) => {
            emit_from(f, "Text(\"", Ghost(step))?;
            emit_from(f, text.as_str(), Ghost(step))?;
            emit(f, "\")")
        },
        Document::Nest(body, by) => {
            proof {
                lemma_body_complete(store@, idx@, body@);
                lemma_body_shape(store@, idx@, body@);
            }
            emit_from(f, "Nest(\n", Ghost(step))?;
            increase_indent(f);
            debug_complete(store, f, *body)?;
            emit_from(f, ",\n", Ghost(step))?;
            let amount = signed_decimal_string(*by);
            emit_from(f, amount.as_str(), Ghost(step))?;
            emit_from(f, "\n", Ghost(step))?;
            decrease_indent(f);
            emit(f, ")")
        },
        Document::Flatten(body) => {
            proof {
                lemma_body_complete(store@, idx@, body@);
                lemma_body_shape(store@, idx@, body@);
            }
            emit_from(f, "Flatten(\n", Ghost(step))?;
            increase_indent(f);
            debug_complete(store, f, *body)?;
            emit_from(f, "\n", Ghost(step))?;
            decrease_indent(f);
            emit(f, ")")
        },
        Document::List(children) => {
            let ghost keys = places(children@);
            let ghost shapes = shapes_of(store@, keys);
            proof {
                lemma_list_complete(store@, idx@, keys);
            }
            if children.len() == 0 {
                return Ok(());
            }
            proof {
                assert(store.shape(idx)->List_0.len() == children@.len());
            }
            emit_from(f, "List(\n", Ghost(step))?;
            increase_indent(f);
            let ghost start = page_of(*f);
            let mut i: usize = 0;
            while i < children.len()
                invariant
                    i <= children.len(),
                    idx@ < store@.len(),
                    keys == places(children@),
                    shapes == shapes_of(store@, keys),
                    forall|k: int| 0 <= k < keys.len() ==> (#[trigger] keys[k]) < idx@,
                    forall|k: int|
                        0 <= k < keys.len() ==> complete(shape_of(store@, (#[trigger] keys[k]))),
                    page_of(*f).step == step,
                    step == page_of(*old(f)).step,
                    page_of(*f) == debugged_list(shapes, i as nat, start),
                    store.shape(idx)->List_0.len() > 0,
                decreases children.len() - i,
            {
                proof {
                    assert(keys[i as int] == children@[i as int]@);
                    assert(shapes[i as int] == shape_of(store@, keys[i as int]));
                }
                debug_complete(store, f, children[i])?;
                emit_from(f, ",\n", Ghost(step))?;
                i += 1;
            }
            decrease_indent(f);
            emit(f, ")")
        },
        Document::TryCatch(try_body, catch_body) => {
            proof {
                lemma_pair_shape(store@, idx@);
            }
            emit_from(f, "TryCatch(\n", Ghost(step))?;
            increase_indent(f);
            debug_complete(store, f, *try_body)?;
            emit_from(f, ",\n", Ghost(step))?;
            debug_complete(store, f, *catch_body)?;
            emit_from(f, ",\n", Ghost(step))?;
            decrease_indent(f);
            emit(f, ")")
        },
    }
}

/// Prints the structure of the document at `idx` through the formatter
/// `f`. A document that misses a part is not printed at all. A failure of
/// the stream below the formatter ends the printing and is handed on.
pub fn debug_print(
    store: &InternedDocumentStore,
    f: &mut inform::fmt::IndentFormatter,
    idx: DocumentIdx,
) -> (r: Result<(), RenderError>)
    ensures
        page_of(*final(f)).step == page_of(*old(f)).step,
        !complete(store.shape(idx)) ==> r == Err::<(), RenderError>(
            RenderError::InvariantViolation,
        ) && *final(f) == *old(f),
        complete(store.shape(idx)) ==> (r is Ok || r matches Err(RenderError::Writer(_))),
        store.shape(idx) == Shape::List(Seq::empty()) ==> r is Ok && *final(f) == *old(f),
        r is Ok ==> page_of(*final(f)) == debugged(store.shape(idx), page_of(*old(f))),
{
    if !is_complete(store, idx) {
        return Err(RenderError::InvariantViolation);
    }
    match debug_complete(store, f, idx) {
        Ok(()) => Ok(()),
        Err(error) => Err(RenderError::Writer(error)),
    }
}

} // verus!
