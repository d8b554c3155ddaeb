use crate::document::{
    child_shape,
    entry_ok,
    kept,
    lemma_kept_transitive,
    lemma_list_shape,
    lemma_shape_of_kept,
    places,
    settled,
    shape_of,
    shapes_of,
    Document,
    DocumentIdx,
    Entry,
    InternedDocumentStore,
    Shape,
};
use vstd::prelude::*;

verus! {

/// The state of a walk over a document: the width limit, the column that
/// the walk has reached, the indent that follows a line break, whether an
/// enclosing `Flatten` is in effect, whether the walk is inside the first
/// body of a `TryCatch`, and whether a column has exceeded the width limit.
pub struct Walk {
    pub max_width: nat,
    pub column: nat,
    pub current_indent: nat,
    pub flatten: bool,
    pub trying: bool,
    pub tainted: bool,
}

impl Walk {
    /// The walk at `column`, tainted where that exceeds the width limit.
    pub open spec fn moved_to(self, column: nat) -> Walk {
        Walk {
            max_width: self.max_width,
            column,
            current_indent: self.current_indent,
            flatten: self.flatten,
            trying: self.trying,
            tainted: self.tainted || column > self.max_width,
        }
    }

    /// The walk after a line break: one column further where flattened,
    /// else at the indent.
    pub open spec fn after_newline(self) -> Walk {
        if self.flatten {
            self.moved_to(self.column + 1)
        } else {
            self.moved_to(self.current_indent)
        }
    }

    /// The walk after a text of `length` columns.
    pub open spec fn after_text(self, length: nat) -> Walk {
        self.moved_to(self.column + length)
    }

    /// The walk with the indent changed by `by`.
    pub open spec fn indented(self, by: int) -> Walk {
        Walk {
            max_width: self.max_width,
            column: self.column,
            current_indent: (self.current_indent + by) as nat,
            flatten: self.flatten,
            trying: self.trying,
            tainted: self.tainted,
        }
    }

    /// The walk inside or outside a `Flatten`.
    pub open spec fn with_flatten(self, flatten: bool) -> Walk {
        Walk {
            max_width: self.max_width,
            column: self.column,
            current_indent: self.current_indent,
            flatten,
            trying: self.trying,
            tainted: self.tainted,
        }
    }

    /// The walk inside or outside a trial.
    pub open spec fn with_trying(self, trying: bool) -> Walk {
        Walk {
            max_width: self.max_width,
            column: self.column,
            current_indent: self.current_indent,
            flatten: self.flatten,
            trying,
            tainted: self.tainted,
        }
    }

    /// Whether the indent changed by `by` is an indent that a machine word
    /// holds.
    pub open spec fn can_indent(self, by: int) -> bool {
        0 <= self.current_indent + by <= usize::MAX
    }
}

/// The width of a text: the number of bytes of its UTF-8 form.
pub open spec fn width_of(text: Seq<char>) -> nat {
    vstd::utf8::encode_utf8(text).len()
}

/// What one walk over `shape` from `walk` gives: the document with every
/// `TryCatch` replaced by one of its bodies, and the state in which the walk
/// ends. At a `TryCatch` the first body is walked as a trial; where the trial
/// ends tainted and the walk is in no outer trial, the second body is walked
/// from the state before the trial and taken, else the first is taken.
/// Nothing is given where a column or an indent does not fit a machine
/// word, or where the document is missing a part.
pub open spec fn speculated(shape: Shape, walk: Walk) -> Option<(Shape, Walk)>
    decreases shape,
{
    match shape {
        Shape::Newline => if walk.flatten && walk.column + 1 > usize::MAX {
            None
        } else {
            Some((Shape::Newline, walk.after_newline()))
        },
        Shape::Text(text) => if walk.column + width_of(text) > usize::MAX {
            None
        } else {
            Some((shape, walk.after_text(width_of(text))))
        },
        Shape::Nest(body, by) => if !walk.can_indent(by) {
            None
        } else {
            match speculated(*body, walk.indented(by)) {
                None => None,
                Some((new_body, after)) => if !after.can_indent(-by) {
                    None
                } else {
                    Some((Shape::Nest(Box::new(new_body), by), after.indented(-by)))
                },
            }
        },
        Shape::Flatten(body) => match speculated(*body, walk.with_flatten(true)) {
            None => None,
            Some((new_body, after)) => Some(
                (Shape::Flatten(Box::new(new_body)), after.with_flatten(walk.flatten)),
            ),
        },
        Shape::List(children) => match speculated_list(children, children.len(), walk) {
            None => None,
            Some((new_children, after)) => Some((Shape::List(new_children), after)),
        },
        Shape::TryCatch(try_body, catch_body) => match speculated(
            *try_body,
            walk.with_trying(true),
        ) {
            None => None,
            Some((new_try, tried)) => if tried.tainted && !walk.trying {
                speculated(*catch_body, walk)
            } else {
                Some((new_try, tried.with_trying(walk.trying)))
            },
        },
        Shape::Missing => None,
    }
}

/// What one walk over the first `count` of `children` gives, one after the
/// other.
pub open spec fn speculated_list(children: Seq<Shape>, count: nat, walk: Walk) -> Option<
    (Seq<Shape>, Walk),
>
    decreases children, count,
{
    if count == 0 || count > children.len() {
        Some((Seq::empty(), walk))
    } else {
        match speculated_list(children, (count - 1) as nat, walk) {
            None => None,
            Some((done, reached)) => match speculated(children[count - 1], reached) {
                None => None,
                Some((new_child, after)) => Some((done.push(new_child), after)),
            },
        }
    }
}

/// Every walk gives a document without `TryCatch`.
pub proof fn lemma_speculated_settled(shape: Shape, walk: Walk)
    requires
        speculated(shape, walk) is Some,
    ensures
        settled(speculated(shape, walk).unwrap().0),
    decreases shape,
{
    match shape {
        Shape::Newline => {},
        Shape::Text(_) => {},
        Shape::Nest(body, by) => {
            lemma_speculated_settled(*body, walk.indented(by));
        },
        Shape::Flatten(body) => {
            lemma_speculated_settled(*body, walk.with_flatten(true));
        },
        Shape::List(children) => {
            lemma_speculated_list_settled(children, children.len(), walk);
        },
        Shape::TryCatch(try_body, catch_body) => {
            lemma_speculated_settled(*try_body, walk.with_trying(true));
            let tried = speculated(*try_body, walk.with_trying(true)).unwrap().1;
            if tried.tainted && !walk.trying {
                lemma_speculated_settled(*catch_body, walk);
            }
        },
        Shape::Missing => {},
    }
}

/// The same for the first `count` children of a `List`.
pub proof fn lemma_speculated_list_settled(children: Seq<Shape>, count: nat, walk: Walk)
    requires
        speculated_list(children, count, walk) is Some,
    ensures
        forall|i: int|
            0 <= i < speculated_list(children, count, walk).unwrap().0.len() ==> settled(
                #[trigger] speculated_list(children, count, walk).unwrap().0[i],
            ),
        speculated_list(children, count, walk).unwrap().0.len() == if count > children.len() {
            0
        } else {
            count
        },
    decreases children, count,
{
    if count == 0 || count > children.len() {
    } else {
        lemma_speculated_list_settled(children, (count - 1) as nat, walk);
        let (done, reached) = speculated_list(children, (count - 1) as nat, walk).unwrap();
        lemma_speculated_settled(children[count - 1], reached);
    }
}

/// The state of a walk over a document.
pub struct PrintingContext {
    max_width: usize,
    column: usize,
    current_indent: usize,
    flatten: bool,
    trying: bool,
    tainted: bool,
}

impl View for PrintingContext {
    type V = Walk;

    closed spec fn view(&self) -> Walk {
        Walk {
            max_width: self.max_width as nat,
            column: self.column as nat,
            current_indent: self.current_indent as nat,
            flatten: self.flatten,
            trying: self.trying,
            tainted: self.tainted,
        }
    }
}

impl Clone for PrintingContext {
    fn clone(&self) -> (r: Self)
        ensures
            r == *self,
    {
        PrintingContext {
            max_width: self.max_width,
            column: self.column,
            current_indent: self.current_indent,
            flatten: self.flatten,
            trying: self.trying,
            tainted: self.tainted,
        }
    }
}

impl Default for PrintingContext {
    fn default() -> (r: Self)
        ensures
            r@ == (Walk {
                max_width: 0,
                column: 0,
                current_indent: 0,
                flatten: false,
                trying: false,
                tainted: false,
            }),
    {
        PrintingContext {
            max_width: 0,
            column: 0,
            current_indent: 0,
            flatten: false,
            trying: false,
            tainted: false,
        }
    }
}

/// The indent `indent` changed by `by`, where a machine word holds it.
fn shifted(indent: usize, by: isize, back: bool) -> (r: Option<usize>)
    ensures
        !back ==> r == if 0 <= indent + by <= usize::MAX {
            Some((indent + by) as usize)
        } else {
            None
        },
        back ==> r == if 0 <= indent - by <= usize::MAX {
            Some((indent - by) as usize)
        } else {
            None
        },
{
    let from: i128 = indent as i128;
    let change: i128 = by as i128;
    let to: i128 = if back {
        from - change
    } else {
        from + change
    };
    if to < 0 || to > usize::MAX as i128 {
        None
    } else {
        Some(to as usize)
    }
}

impl PrintingContext {
    /// The start of a walk: column 0, no indent, not flattened, in no trial,
    /// not tainted.
    pub fn new(max_width: usize) -> (r: Self)
        ensures
            r@ == (Walk {
                max_width: max_width as nat,
                column: 0,
                current_indent: 0,
                flatten: false,
                trying: false,
                tainted: false,
            }),
    {
        PrintingContext {
            max_width,
            column: 0,
            current_indent: 0,
            flatten: false,
            trying: false,
            tainted: false,
        }
    }

    /// Whether a column of the walk has exceeded the width limit.
    pub fn is_tainted(&self) -> (r: bool)
        ensures
            r == self@.tainted,
    {
        self.tainted
    }

    /// The column that the walk has reached.
    pub fn column(&self) -> (r: usize)
        ensures
            r == self@.column,
    {
        self.column
    }

    /// The indent that follows a line break.
    pub fn current_indent(&self) -> (r: usize)
        ensures
            r == self@.current_indent,
    {
        self.current_indent
    }

    /// Walks over a line break.
    pub fn newline(&mut self)
        requires
            old(self)@.flatten ==> old(self)@.column + 1 <= usize::MAX,
        ensures
            final(self)@ == old(self)@.after_newline(),
    {
        if self.flatten {
            self.column += 1;
        } else {
            self.column = self.current_indent;
        }
        if self.column > self.max_width {
            self.tainted = true;
        }
    }

    /// Changes the indent by `by`.
    pub fn indent(&mut self, by: isize)
        requires
            old(self)@.can_indent(by as int),
        ensures
            final(self)@ == old(self)@.indented(by as int),
    {
        match shifted(self.current_indent, by, false) {
            Some(indent) => {
                self.current_indent = indent;
            },
            None => {},
        }
    }

    /// Walks over a text of `length` columns.
    pub fn push(&mut self, length: usize)
        requires
            old(self)@.column + length <= usize::MAX,
        ensures
            final(self)@ == old(self)@.after_text(length as nat),
    {
        self.column += length;
        if self.column > self.max_width {
            self.tainted = true;
        }
    }

    /// Enters a `Flatten`.
    pub fn set_flattened(&mut self)
        ensures
            final(self)@ == old(self)@.with_flatten(true),
    {
        self.flatten = true;
    }
}

/// What `found` must be for the walk over the document at `idx`: the key of
/// the walked document and the state at the end of the walk, or nothing
/// where the walk gives nothing.
pub open spec fn walked(
    found: Option<DocumentIdx>,
    before: Seq<Entry>,
    idx: DocumentIdx,
    from: Walk,
    after: Seq<Entry>,
    to: Walk,
) -> bool {
    match speculated(shape_of(before, idx@), from) {
        Some((shape, walk)) => {
            &&& found is Some
            &&& found.unwrap()@ < after.len()
            &&& shape_of(after, found.unwrap()@) == shape
            &&& to == walk
        },
        None => found is None,
    }
}

/// Walks once over the document at `idx` and replaces every `TryCatch` by
/// one of its bodies: the first where it fits the width or the walk is
/// inside an outer trial, else the second. Gives nothing where a column or
/// an indent of the walk does not fit a machine word.
pub fn try_resolve_try_catch(
    store: &mut InternedDocumentStore,
    idx: DocumentIdx,
    context: &mut PrintingContext,
) -> (found: Option<DocumentIdx>)
    requires
        old(store).valid(),
        idx@ < old(store)@.len(),
    ensures
        final(store).valid(),
        kept(final(store)@, old(store)@),
        walked(found, old(store)@, idx, old(context)@, final(store)@, final(context)@),
    decreases idx@,
{
    let ghost start = store@;
    let ghost from = context@;
    let document = store.get(idx).clone();
    proof {
        assert(entry_ok(start[idx@ as int], idx@));
    }
    match document {
        Document::Newline => {
            if context.flatten && context.column == usize::MAX {
                return None;
            }
            context.newline();
            Some(idx)
        },
        Document::Text(text) => {
            let length = text.as_str().as_bytes().len();
            if length > usize::MAX - context.column {
                return None;
            }
            context.push(length);
            Some(idx)
        },
        Document::Nest(body_idx, by) => {
            proof {
                assert(child_shape(start, idx@, body_idx@) == shape_of(start, body_idx@));
            }
            match shifted(context.current_indent, by, false) {
                None => {
                    return None;
                },
                Some(indent) => {
                    context.current_indent = indent;
                },
            }
            let new_body_idx = match try_resolve_try_catch(store, body_idx, context) {
                None => {
                    return None;
                },
                Some(key) => key,
            };
            match shifted(context.current_indent, by, true) {
                None => {
                    return None;
                },
                Some(indent) => {
                    context.current_indent = indent;
                },
            }
            let ghost middle = store@;
            let key = store.add(Document::Nest(new_body_idx, by));
            proof {
                InternedDocumentStore::lemma_stored_valid(
                    middle,
                    Entry::Nest(new_body_idx@, by as int),
                    store@,
                    key@,
                );
                lemma_shape_of_kept(store@, middle, new_body_idx@);
                assert(child_shape(store@, key@, new_body_idx@) == shape_of(
                    store@,
                    new_body_idx@,
                ));
            }
            Some(key)
        },
        Document::Flatten(body_idx) => {
            proof {
                assert(child_shape(start, idx@, body_idx@) == shape_of(start, body_idx@));
            }
            let mut flattened_context = context.clone();
            flattened_context.set_flattened();
            let new_body_idx = match try_resolve_try_catch(
                store,
                body_idx,
                &mut flattened_context,
            ) {
                None => {
                    return None;
                },
                Some(key) => key,
            };
            flattened_context.flatten = context.flatten;
            *context = flattened_context;
            let ghost middle = store@;
            let key = store.add(Document::Flatten(new_body_idx));
            proof {
                InternedDocumentStore::lemma_stored_valid(
                    middle,
                    Entry::Flatten(new_body_idx@),
                    store@,
                    key@,
                );
                lemma_shape_of_kept(store@, middle, new_body_idx@);
                assert(child_shape(store@, key@, new_body_idx@) == shape_of(
                    store@,
                    new_body_idx@,
                ));
            }
            Some(key)
        },
        Document::List(children) => {
            let ghost keys = places(children@);
            let ghost shapes = shapes_of(start, keys);
            proof {
                lemma_list_shape(start, idx@, keys);
            }
            let mut new_children: Vec<DocumentIdx> = Vec::new();
            let mut i: usize = 0;
            while i < children.len()
                invariant
                    i <= children.len(),
                    store.valid(),
                    start == old(store)@,
                    from == old(context)@,
                    shape_of(start, idx@) == Shape::List(shapes),
                    kept(store@, start),
                    keys == places(children@),
                    shapes == shapes_of(start, keys),
                    idx@ < start.len(),
                    forall|k: int| 0 <= k < keys.len() ==> (#[trigger] keys[k]) < idx@,
                    new_children.len() == i,
                    forall|k: int| 0 <= k < i ==> (#[trigger] new_children@[k])@ < store@.len(),
                    speculated_list(shapes, i as nat, from) == Some(
                        (shapes_of(store@, places(new_children@)), context@),
                    ),
                decreases children.len() - i,
            {
                let ghost before = store@;
                let ghost done = shapes_of(before, places(new_children@));
                let ghost reached = context@;
                proof {
                    assert(keys[i as int] == children@[i as int]@);
                    assert(shapes[i as int] == shape_of(start, keys[i as int]));
                    lemma_shape_of_kept(before, start, keys[i as int]);
                }
                let found = try_resolve_try_catch(store, children[i], context);
                proof {
                    lemma_kept_transitive(store@, before, start);
                }
                let new_child = match found {
                    None => {
                        proof {
                            assert(speculated(shapes[i as int], reached) is None);
                            lemma_speculated_list_none(shapes, (i + 1) as nat, from);
                            assert(speculated_list(shapes, shapes.len(), from) is None);
                        }
                        return None;
                    },
                    Some(key) => key,
                };
                let ghost old_children = new_children@;
                new_children.push(new_child);
                proof {
                    let now = shapes_of(store@, places(new_children@));
                    assert forall|k: int| 0 <= k < now.len() implies now[k] == done.push(
                        shape_of(store@, new_child@),
                    )[k] by {
                        if k < i {
                            assert(places(new_children@)[k] == places(old_children)[k]);
                            lemma_shape_of_kept(store@, before, old_children[k]@);
                        }
                    }
                    assert(now =~= done.push(shape_of(store@, new_child@)));
                }
                i += 1;
            }
            let ghost middle = store@;
            let ghost new_keys = places(new_children@);
            proof {
                assert forall|k: int| 0 <= k < new_keys.len() implies (#[trigger] new_keys[k])
                    < middle.len() by {
                    assert(new_keys[k] == new_children@[k]@);
                }
            }
            let key = store.add(Document::List(new_children));
            proof {
                InternedDocumentStore::lemma_stored_valid(
                    middle,
                    Entry::List(new_keys),
                    store@,
                    key@,
                );
                lemma_list_shape(store@, key@, new_keys);
                assert forall|k: int| 0 <= k < new_keys.len() implies shapes_of(
                    store@,
                    new_keys,
                )[k] == shapes_of(middle, new_keys)[k] by {
                    lemma_shape_of_kept(store@, middle, new_keys[k]);
                }
                assert(shapes_of(store@, new_keys) =~= shapes_of(middle, new_keys));
            }
            Some(key)
        },
        Document::TryCatch(try_body_idx, catch_body_idx) => {
            proof {
                assert(child_shape(start, idx@, try_body_idx@) == shape_of(start, try_body_idx@));
                assert(child_shape(start, idx@, catch_body_idx@) == shape_of(
                    start,
                    catch_body_idx@,
                ));
            }
            let mut try_context = context.clone();
            try_context.trying = true;
            let new_try_body_idx = match try_resolve_try_catch(
                store,
                try_body_idx,
                &mut try_context,
            ) {
                None => {
                    return None;
                },
                Some(key) => key,
            };
            if try_context.tainted && !context.trying {
                let ghost middle = store@;
                proof {
                    lemma_shape_of_kept(middle, start, catch_body_idx@);
                }
                let mut catch_context = context.clone();
                let new_catch_body_idx = match try_resolve_try_catch(
                    store,
                    catch_body_idx,
                    &mut catch_context,
                ) {
                    None => {
                        return None;
                    },
                    Some(key) => key,
                };
                *context = catch_context;
                Some(new_catch_body_idx)
            } else {
                try_context.trying = context.trying;
                *context = try_context;
                Some(new_try_body_idx)
            }
        },
    }
}

proof fn lemma_speculated_list_none(children: Seq<Shape>, count: nat, walk: Walk)
    requires
        1 <= count <= children.len(),
        speculated_list(children, (count - 1) as nat, walk) is Some,
        speculated(
            children[count - 1],
            speculated_list(children, (count - 1) as nat, walk).unwrap().1,
        ) is None,
    ensures
        forall|more: nat|
            count <= more <= children.len() ==> #[trigger] speculated_list(children, more, walk)
                is None,
{
    assert forall|more: nat| count <= more <= children.len() implies #[trigger] speculated_list(
        children,
        more,
        walk,
    ) is None by {
        lemma_speculated_list_stays_none(children, count, more, walk);
    }
}

proof fn lemma_speculated_list_stays_none(children: Seq<Shape>, count: nat, more: nat, walk: Walk)
    requires
        count <= more <= children.len(),
        speculated_list(children, count, walk) is None,
    ensures
        speculated_list(children, more, walk) is None,
    decreases more,
{
    if count < more {
        lemma_speculated_list_stays_none(children, count, (more - 1) as nat, walk);
    }
}

/// Walks once over the document at `idx` and replaces every `TryCatch` by
/// one of its bodies: the first where it fits the width or the walk is
/// inside an outer trial, else the second. The document that comes out
/// holds no `TryCatch`.
pub fn resolve_try_catch(
    store: &mut InternedDocumentStore,
    idx: DocumentIdx,
    context: &mut PrintingContext,
) -> (resolved: DocumentIdx)
    requires
        old(store).valid(),
        idx@ < old(store)@.len(),
        speculated(old(store).shape(idx), old(context)@) is Some,
    ensures
        final(store).valid(),
        kept(final(store)@, old(store)@),
        resolved@ < final(store)@.len(),
        final(store).shape(resolved) == speculated(old(store).shape(idx), old(context)@).unwrap().0,
        final(context)@ == speculated(old(store).shape(idx), old(context)@).unwrap().1,
        settled(final(store).shape(resolved)),
{
    proof {
        lemma_speculated_settled(old(store).shape(idx), old(context)@);
    }
    match try_resolve_try_catch(store, idx, context) {
        Some(resolved) => resolved,
        None => idx,
    }
}

} // verus!
