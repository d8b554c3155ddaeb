use crate::document::{
    child_shape,
    entry_ok,
    kept,
    lemma_kept_transitive,
    lemma_list_shape,
    lemma_shape_of_kept,
    places,
    shape_of,
    shapes_of,
    stored,
    Document,
    DocumentIdx,
    Entry,
    InternedDocumentStore,
    Shape,
};
use vstd::prelude::*;
use vstd::string::StringExecFns;

verus! {

/// Builds documents in a store of its own.
pub struct DocumentBuilder {
    indent: isize,
    inner: InternedDocumentStore,
}

/// Something that a builder can turn into a document.
pub trait BuildAsDocument {
    /// Builds the document of `self` in the store of `builder`, and leaves
    /// what the store holds in place.
    fn build(&self, builder: &mut DocumentBuilder) -> (idx: DocumentIdx)
        requires
            old(builder).valid(),
        ensures
            final(builder).valid(),
            final(builder).indent() == old(builder).indent(),
            kept(final(builder)@, old(builder)@),
            idx@ < final(builder)@.len(),
    ;
}

impl BuildAsDocument for DocumentIdx {
    /// A key of the store is built already. A key of another store is built
    /// as an empty list.
    fn build(&self, builder: &mut DocumentBuilder) -> (idx: DocumentIdx)
        ensures
            self@ < old(builder)@.len() ==> idx == *self && final(builder)@ == old(builder)@,
    {
        if self.index() < builder.inner.len() {
            *self
        } else {
            builder.list(Vec::new())
        }
    }
}

/// The shapes `items` with `between` and a line break before each but the
/// first.
pub open spec fn separated(items: Seq<Shape>, between: Option<Seq<char>>, count: nat) -> Seq<Shape>
    decreases count,
{
    if count == 0 || count > items.len() {
        Seq::empty()
    } else if count == 1 {
        seq![items[0]]
    } else {
        match between {
            Some(text) => separated(items, between, (count - 1) as nat) + seq![
                Shape::Text(text),
                Shape::Newline,
                items[count - 1],
            ],
            None => separated(items, between, (count - 1) as nat).push(items[count - 1]),
        }
    }
}

/// The body of a group: the items with `between` and a line break between
/// them.
pub open spec fn group_body(items: Seq<Shape>, between: Option<Seq<char>>) -> Shape {
    Shape::List(separated(items, between, items.len()))
}

/// The body of a group on one line.
pub open spec fn group_flat(items: Seq<Shape>, between: Option<Seq<char>>) -> Shape {
    Shape::Flatten(Box::new(group_body(items, between)))
}

/// The body of a group on lines of its own, one level deeper, with a comma
/// after the last item where the items are separated by commas.
pub open spec fn group_nested(items: Seq<Shape>, between: Option<Seq<char>>, indent: int) -> Shape {
    let nested = Shape::Nest(Box::new(group_body(items, between)), indent);
    if between == Some(","@) {
        Shape::List(seq![Shape::Newline, nested, Shape::Text(","@), Shape::Newline])
    } else {
        Shape::List(seq![Shape::Newline, nested, Shape::Newline])
    }
}

/// A group between `open` and `close`: on one line where that fits, else on
/// lines of its own.
pub open spec fn group_shape(
    open: Seq<char>,
    items: Seq<Shape>,
    between: Option<Seq<char>>,
    close: Seq<char>,
    indent: int,
) -> Shape {
    Shape::TryCatch(
        Box::new(
            Shape::List(seq![Shape::Text(open), group_flat(items, between), Shape::Text(close)]),
        ),
        Box::new(
            Shape::List(
                seq![Shape::Text(open), group_nested(items, between, indent), Shape::Text(close)],
            ),
        ),
    )
}

/// The view of an optional separator.
pub open spec fn separator(between: Option<&str>) -> Option<Seq<char>> {
    match between {
        Some(text) => Some(text@),
        None => None,
    }
}

impl View for DocumentBuilder {
    type V = Seq<Entry>;

    closed spec fn view(&self) -> Seq<Entry> {
        self.inner@
    }
}

impl DocumentBuilder {
    /// The store of the builder is valid.
    pub closed spec fn valid(&self) -> bool {
        self.inner.valid()
    }

    /// The amount of one level of indent.
    pub closed spec fn indent(&self) -> int {
        self.indent as int
    }

    /// The tree that `idx` stands for in the store of the builder.
    pub open spec fn shape(&self, idx: DocumentIdx) -> Shape {
        shape_of(self@, idx@)
    }

    /// A builder with an empty store, which nests by `indent`.
    pub fn new(indent: isize) -> (r: Self)
        ensures
            r.valid(),
            r@ == Seq::<Entry>::empty(),
            r.indent() == indent,
    {
        DocumentBuilder { indent, inner: Default::default() }
    }

    /// The amount of one level of indent.
    pub fn indent_amount(&self) -> (amount: isize)
        ensures
            amount == self.indent(),
    {
        self.indent
    }

    /// The store with all that was built.
    pub fn into_store(self) -> (store: InternedDocumentStore)
        ensures
            store@ == self@,
            store.valid() == self.valid(),
    {
        self.inner
    }

    fn add(&mut self, document: Document) -> (idx: DocumentIdx)
        requires
            old(self).valid(),
            entry_ok(document@, old(self)@.len()),
        ensures
            final(self).valid(),
            final(self).indent() == old(self).indent(),
            kept(final(self)@, old(self)@),
            stored(old(self)@, document@, final(self)@, idx@),
            entry_ok(document@, idx@),
    {
        let ghost entry = document@;
        let idx = self.inner.add(document);
        proof {
            InternedDocumentStore::lemma_stored_valid(old(self)@, entry, self@, idx@);
        }
        idx
    }

    /// The document that is one line break.
    pub fn newline(&mut self) -> (idx: DocumentIdx)
        requires
            old(self).valid(),
        ensures
            final(self).valid(),
            final(self).indent() == old(self).indent(),
            kept(final(self)@, old(self)@),
            idx@ < final(self)@.len(),
            final(self).shape(idx) == Shape::Newline,
    {
        self.add(Document::Newline)
    }

    /// The document that is the text `text`.
    pub fn text(&mut self, text: String) -> (idx: DocumentIdx)
        requires
            old(self).valid(),
            !text@.contains('\n'),
        ensures
            final(self).valid(),
            final(self).indent() == old(self).indent(),
            kept(final(self)@, old(self)@),
            idx@ < final(self)@.len(),
            final(self).shape(idx) == Shape::Text(text@),
    {
        self.add(Document::Text(text))
    }

    /// The document that is the text of a token.
    pub fn token(&mut self, text: &str) -> (idx: DocumentIdx)
        requires
            old(self).valid(),
            !text@.contains('\n'),
        ensures
            final(self).valid(),
            final(self).indent() == old(self).indent(),
            kept(final(self)@, old(self)@),
            idx@ < final(self)@.len(),
            final(self).shape(idx) == Shape::Text(text@),
    {
        self.text(String::from_str(text))
    }

    /// The document that lays out `body` with the indent changed by `by`.
    pub fn nest(&mut self, body: DocumentIdx, by: isize) -> (idx: DocumentIdx)
        requires
            old(self).valid(),
            body@ < old(self)@.len(),
        ensures
            final(self).valid(),
            final(self).indent() == old(self).indent(),
            kept(final(self)@, old(self)@),
            idx@ < final(self)@.len(),
            final(self).shape(idx) == Shape::Nest(Box::new(old(self).shape(body)), by as int),
    {
        let idx = self.add(Document::Nest(body, by));
        proof {
            lemma_shape_of_kept(self@, old(self)@, body@);
            assert(child_shape(self@, idx@, body@) == shape_of(self@, body@));
        }
        idx
    }

    /// The document that lays out `body` with its line breaks as spaces.
    pub fn flatten(&mut self, body: DocumentIdx) -> (idx: DocumentIdx)
        requires
            old(self).valid(),
            body@ < old(self)@.len(),
        ensures
            final(self).valid(),
            final(self).indent() == old(self).indent(),
            kept(final(self)@, old(self)@),
            idx@ < final(self)@.len(),
            final(self).shape(idx) == Shape::Flatten(Box::new(old(self).shape(body))),
    {
        let idx = self.add(Document::Flatten(body));
        proof {
            lemma_shape_of_kept(self@, old(self)@, body@);
            assert(child_shape(self@, idx@, body@) == shape_of(self@, body@));
        }
        idx
    }

    /// The document that is laid out as `try_body` where that fits the
    /// width, and as `catch_body` else.
    pub fn try_catch(&mut self, try_body: DocumentIdx, catch_body: DocumentIdx) -> (idx:
        DocumentIdx)
        requires
            old(self).valid(),
            try_body@ < old(self)@.len(),
            catch_body@ < old(self)@.len(),
        ensures
            final(self).valid(),
            final(self).indent() == old(self).indent(),
            kept(final(self)@, old(self)@),
            idx@ < final(self)@.len(),
            final(self).shape(idx) == Shape::TryCatch(
                Box::new(old(self).shape(try_body)),
                Box::new(old(self).shape(catch_body)),
            ),
    {
        let idx = self.add(Document::TryCatch(try_body, catch_body));
        proof {
            lemma_shape_of_kept(self@, old(self)@, try_body@);
            lemma_shape_of_kept(self@, old(self)@, catch_body@);
            assert(child_shape(self@, idx@, try_body@) == shape_of(self@, try_body@));
            assert(child_shape(self@, idx@, catch_body@) == shape_of(self@, catch_body@));
        }
        idx
    }

    /// The document that lays out the documents of `list` one after the
    /// other.
    pub fn list(&mut self, list: Vec<DocumentIdx>) -> (idx: DocumentIdx)
        requires
            old(self).valid(),
            forall|i: int| 0 <= i < list@.len() ==> (#[trigger] list@[i])@ < old(self)@.len(),
        ensures
            final(self).valid(),
            final(self).indent() == old(self).indent(),
            kept(final(self)@, old(self)@),
            idx@ < final(self)@.len(),
            final(self).shape(idx) == Shape::List(shapes_of(old(self)@, places(list@))),
    {
        let ghost keys = places(list@);
        proof {
            assert forall|i: int| 0 <= i < keys.len() implies (#[trigger] keys[i]) < old(
                self,
            )@.len() by {
                assert(keys[i] == list@[i]@);
            }
        }
        let idx = self.add(Document::List(list));
        proof {
            lemma_list_shape(self@, idx@, keys);
            assert forall|i: int| 0 <= i < keys.len() implies shapes_of(self@, keys)[i]
                == shapes_of(old(self)@, keys)[i] by {
                lemma_shape_of_kept(self@, old(self)@, keys[i]);
            }
            assert(shapes_of(self@, keys) =~= shapes_of(old(self)@, keys));
        }
        idx
    }
}


fn is_comma(between: Option<&str>) -> (r: bool)
    ensures
        r == (separator(between) == Some(","@)),
{
    match between {
        Some(text) => {
            let given = String::from_str(text);
            let comma = String::from_str(",");
            given == comma
        },
        None => false,
    }
}

proof fn lemma_shapes_kept(later: Seq<Entry>, earlier: Seq<Entry>, keys: Seq<nat>)
    requires
        kept(later, earlier),
        forall|i: int| 0 <= i < keys.len() ==> (#[trigger] keys[i]) < earlier.len(),
    ensures
        shapes_of(later, keys) == shapes_of(earlier, keys),
{
    assert forall|i: int| 0 <= i < keys.len() implies shapes_of(later, keys)[i] == shapes_of(
        earlier,
        keys,
    )[i] by {
        lemma_shape_of_kept(later, earlier, keys[i]);
    }
    assert(shapes_of(later, keys) =~= shapes_of(earlier, keys));
}

impl DocumentBuilder {
    /// The items `items` with `between` and a line break between them, as
    /// the bodies of a group: on one line, and on lines of their own one
    /// level deeper, there with a comma after the last item where `between`
    /// is a comma.
    pub fn group_raw_built(&mut self, items: Vec<DocumentIdx>, between: Option<&str>) -> (r: (
        DocumentIdx,
        DocumentIdx,
    ))
        requires
            old(self).valid(),
            forall|i: int| 0 <= i < items@.len() ==> (#[trigger] items@[i])@ < old(self)@.len(),
            between matches Some(text) ==> !text@.contains('\n'),
        ensures
            final(self).valid(),
            final(self).indent() == old(self).indent(),
            kept(final(self)@, old(self)@),
            r.0@ < final(self)@.len(),
            r.1@ < final(self)@.len(),
            final(self).shape(r.0) == group_flat(
                shapes_of(old(self)@, places(items@)),
                separator(between),
            ),
            final(self).shape(r.1) == group_nested(
                shapes_of(old(self)@, places(items@)),
                separator(between),
                old(self).indent(),
            ),
    {
        let ghost start = self@;
        let ghost keys = places(items@);
        let ghost shapes = shapes_of(start, keys);
        let ghost sep = separator(between);
        let mut list: Vec<DocumentIdx> = Vec::new();
        let mut i: usize = 0;
        proof {
            assert(shapes_of(self@, places(list@)) =~= separated(shapes, sep, 0));
        }
        while i < items.len()
            invariant
                i <= items.len(),
                self.valid(),
                self.indent() == old(self).indent(),
                kept(self@, start),
                keys == places(items@),
                shapes == shapes_of(start, keys),
                sep == separator(between),
                between matches Some(text) ==> !text@.contains('\n'),
                forall|k: int| 0 <= k < items@.len() ==> (#[trigger] items@[k])@ < start.len(),
                forall|k: int| 0 <= k < list@.len() ==> (#[trigger] list@[k])@ < self@.len(),
                shapes_of(self@, places(list@)) == separated(shapes, sep, i as nat),
            decreases items.len() - i,
        {
            let ghost before = self@;
            let ghost done = shapes_of(before, places(list@));
            let ghost old_list = list@;
            proof {
                assert(keys[i as int] == items@[i as int]@);
                assert(shapes[i as int] == shape_of(start, keys[i as int]));
            }
            if i > 0 {
                match between {
                    Some(text) => {
                        let token = self.token(text);
                        let ghost middle = self@;
                        let newline = self.newline();
                        list.push(token);
                        list.push(newline);
                        proof {
                            lemma_kept_transitive(self@, middle, before);
                            lemma_kept_transitive(self@, before, start);
                            lemma_shape_of_kept(self@, middle, token@);
                        }
                    },
                    None => {},
                }
            }
            list.push(items[i]);
            proof {
                let now = shapes_of(self@, places(list@));
                let wanted = separated(shapes, sep, (i + 1) as nat);
                lemma_shape_of_kept(self@, start, keys[i as int]);
                assert forall|k: int| 0 <= k < old_list.len() implies now[k] == done[k] by {
                    assert(places(list@)[k] == places(old_list)[k]);
                    lemma_shape_of_kept(self@, before, old_list[k]@);
                }
                assert forall|k: int| 0 <= k < list@.len() implies (#[trigger] list@[k])@
                    < self@.len() by {
                    if k < old_list.len() {
                        assert(list@[k] == old_list[k]);
                    }
                }
                assert(now =~= wanted);
            }
            i += 1;
        }
        let ghost built = self@;
        let doc_contents = self.list(list);
        let ghost after_list = self@;
        let newline = self.newline();
        let ghost after_newline = self@;
        let nested = self.nest(doc_contents, self.indent);
        let ghost after_nest = self@;
        let mut nest_list: Vec<DocumentIdx> = Vec::new();
        nest_list.push(newline);
        nest_list.push(nested);
        let comma = is_comma(between);
        if comma {
            proof {
                reveal_strlit(",");
                assert(!","@.contains('\n'));
            }
            let token = self.token(",");
            nest_list.push(token);
        }
        let ghost after_comma = self@;
        let last = self.newline();
        nest_list.push(last);
        let ghost after_last = self@;
        proof {
            lemma_kept_transitive(after_newline, after_list, built);
            lemma_kept_transitive(after_nest, after_newline, after_list);
            lemma_kept_transitive(after_comma, after_nest, after_list);
            lemma_kept_transitive(after_last, after_comma, after_list);
            lemma_kept_transitive(after_last, after_comma, after_nest);
            lemma_kept_transitive(after_comma, after_nest, after_newline);
            lemma_kept_transitive(after_last, after_comma, after_newline);
            lemma_shape_of_kept(after_nest, after_list, doc_contents@);
            lemma_shape_of_kept(after_last, after_nest, nested@);
            lemma_shape_of_kept(after_last, after_newline, newline@);
            lemma_shape_of_kept(after_last, after_list, doc_contents@);
            if comma {
                lemma_shape_of_kept(after_last, after_comma, nest_list@[2]@);
            }
        }
        let flat = self.flatten(doc_contents);
        let ghost after_flat = self@;
        proof {
            lemma_kept_transitive(after_flat, after_last, after_list);
            assert forall|k: int| 0 <= k < nest_list@.len() implies (#[trigger] nest_list@[k])@
                < after_flat.len() by {}
            lemma_shapes_kept(after_flat, after_last, places(nest_list@));
            let parts = shapes_of(after_last, places(nest_list@));
            let body = group_body(shapes, sep);
            assert(shape_of(after_list, doc_contents@) == body);
            lemma_shape_of_kept(after_newline, after_list, doc_contents@);
            assert(parts[0] == shape_of(after_last, newline@));
            assert(parts[1] == shape_of(after_last, nested@));
            assert(parts[1] == Shape::Nest(Box::new(body), old(self).indent()));
            assert(parts[nest_list@.len() - 1] == shape_of(after_last, last@));
            if comma {
                assert(parts =~= seq![
                    Shape::Newline,
                    Shape::Nest(Box::new(body), old(self).indent()),
                    Shape::Text(","@),
                    Shape::Newline,
                ]);
            } else {
                assert(parts =~= seq![
                    Shape::Newline,
                    Shape::Nest(Box::new(body), old(self).indent()),
                    Shape::Newline,
                ]);
            }
        }
        let nest = self.list(nest_list);
        proof {
            lemma_kept_transitive(self@, after_flat, after_list);
            lemma_kept_transitive(after_list, built, start);
            lemma_kept_transitive(self@, after_list, start);
            lemma_shape_of_kept(self@, after_flat, flat@);
        }
        (flat, nest)
    }

    /// Builds each of `contents` and groups what was built as
    /// `group_raw_built` does.
    pub fn group_raw<B: BuildAsDocument>(&mut self, contents: &Vec<B>, between: Option<&str>) -> (r:
        (DocumentIdx, DocumentIdx))
        requires
            old(self).valid(),
            between matches Some(text) ==> !text@.contains('\n'),
        ensures
            final(self).valid(),
            final(self).indent() == old(self).indent(),
            kept(final(self)@, old(self)@),
            r.0@ < final(self)@.len(),
            r.1@ < final(self)@.len(),
            exists|items: Seq<Shape>|
                {
                    &&& items.len() == contents@.len()
                    &&& final(self).shape(r.0) == #[trigger] group_flat(items, separator(between))
                    &&& final(self).shape(r.1) == group_nested(
                        items,
                        separator(between),
                        old(self).indent(),
                    )
                },
    {
        let ghost start = self@;
        let items = self.build_all(contents);
        let ghost middle = self@;
        let ghost shapes = shapes_of(middle, places(items@));
        let r = self.group_raw_built(items, between);
        proof {
            lemma_kept_transitive(self@, middle, start);
            assert(self.shape(r.0) == group_flat(shapes, separator(between)));
        }
        r
    }

    /// Builds each of `contents`, from the first on.
    pub fn build_all<B: BuildAsDocument>(&mut self, contents: &Vec<B>) -> (items: Vec<DocumentIdx>)
        requires
            old(self).valid(),
        ensures
            final(self).valid(),
            final(self).indent() == old(self).indent(),
            kept(final(self)@, old(self)@),
            items@.len() == contents@.len(),
            forall|i: int| 0 <= i < items@.len() ==> (#[trigger] items@[i])@ < final(self)@.len(),
    {
        let ghost start = self@;
        let mut items: Vec<DocumentIdx> = Vec::new();
        let mut i: usize = 0;
        while i < contents.len()
            invariant
                i <= contents.len(),
                items@.len() == i,
                self.valid(),
                self.indent() == old(self).indent(),
                kept(self@, start),
                forall|k: int| 0 <= k < items@.len() ==> (#[trigger] items@[k])@ < self@.len(),
            decreases contents.len() - i,
        {
            let ghost before = self@;
            let ghost old_items = items@;
            let item = contents[i].build(self);
            items.push(item);
            proof {
                lemma_kept_transitive(self@, before, start);
                assert forall|k: int| 0 <= k < items@.len() implies (#[trigger] items@[k])@
                    < self@.len() by {
                    if k < old_items.len() {
                        assert(items@[k] == old_items[k]);
                    }
                }
            }
            i += 1;
        }
        items
    }

    /// The group of `items` between `open` and `close`: on one line where
    /// that fits the width, else on lines of its own.
    pub fn group_built(
        &mut self,
        open: String,
        items: Vec<DocumentIdx>,
        between: Option<&str>,
        close: String,
    ) -> (idx: DocumentIdx)
        requires
            old(self).valid(),
            forall|i: int| 0 <= i < items@.len() ==> (#[trigger] items@[i])@ < old(self)@.len(),
            between matches Some(text) ==> !text@.contains('\n'),
            !open@.contains('\n'),
            !close@.contains('\n'),
        ensures
            final(self).valid(),
            final(self).indent() == old(self).indent(),
            kept(final(self)@, old(self)@),
            idx@ < final(self)@.len(),
            final(self).shape(idx) == group_shape(
                open@,
                shapes_of(old(self)@, places(items@)),
                separator(between),
                close@,
                old(self).indent(),
            ),
    {
        let ghost start = self@;
        let ghost shapes = shapes_of(start, places(items@));
        let ghost sep = separator(between);
        let (try_body_idx, catch_body_idx) = self.group_raw_built(items, between);
        let ghost s0 = self@;
        let mut try_list: Vec<DocumentIdx> = Vec::new();
        let mut catch_list: Vec<DocumentIdx> = Vec::new();
        let open_try = self.text(open.clone());
        let ghost s1 = self@;
        let open_catch = self.text(open);
        let ghost s2 = self@;
        try_list.push(open_try);
        catch_list.push(open_catch);
        try_list.push(try_body_idx);
        catch_list.push(catch_body_idx);
        let close_try = self.text(close.clone());
        let ghost s3 = self@;
        let close_catch = self.text(close);
        let ghost s4 = self@;
        try_list.push(close_try);
        catch_list.push(close_catch);
        proof {
            lemma_kept_transitive(s2, s1, s0);
            lemma_kept_transitive(s3, s2, s0);
            lemma_kept_transitive(s4, s3, s0);
            lemma_kept_transitive(s4, s3, s2);
            lemma_kept_transitive(s3, s2, s1);
            lemma_kept_transitive(s4, s3, s1);
            lemma_shape_of_kept(s4, s1, open_try@);
            lemma_shape_of_kept(s4, s2, open_catch@);
            lemma_shape_of_kept(s4, s0, try_body_idx@);
            lemma_shape_of_kept(s4, s0, catch_body_idx@);
            lemma_shape_of_kept(s4, s3, close_try@);
            assert(shapes_of(s4, places(try_list@)) =~= seq![
                Shape::Text(open@),
                group_flat(shapes, sep),
                Shape::Text(close@),
            ]);
            assert(shapes_of(s4, places(catch_list@)) =~= seq![
                Shape::Text(open@),
                group_nested(shapes, sep, old(self).indent()),
                Shape::Text(close@),
            ]);
        }
        let try_idx = self.list(try_list);
        let ghost s5 = self@;
        proof {
            lemma_kept_transitive(s5, s4, s0);
            assert forall|k: int| 0 <= k < catch_list@.len() implies (#[trigger] catch_list@[k])@
                < s5.len() by {}
            lemma_shapes_kept(s5, s4, places(catch_list@));
        }
        let catch_idx = self.list(catch_list);
        let ghost s6 = self@;
        proof {
            lemma_kept_transitive(s6, s5, s0);
            lemma_kept_transitive(s6, s0, start);
            lemma_shape_of_kept(s6, s5, try_idx@);
        }
        let idx = self.try_catch(try_idx, catch_idx);
        proof {
            lemma_kept_transitive(self@, s6, start);
        }
        idx
    }

    /// Builds each of `contents` and groups what was built as `group_built`
    /// does.
    pub fn group<B: BuildAsDocument>(
        &mut self,
        open: String,
        contents: &Vec<B>,
        between: Option<&str>,
        close: String,
    ) -> (idx: DocumentIdx)
        requires
            old(self).valid(),
            between matches Some(text) ==> !text@.contains('\n'),
            !open@.contains('\n'),
            !close@.contains('\n'),
        ensures
            final(self).valid(),
            final(self).indent() == old(self).indent(),
            kept(final(self)@, old(self)@),
            idx@ < final(self)@.len(),
            exists|items: Seq<Shape>|
                items.len() == contents@.len() && final(self).shape(idx) == #[trigger] group_shape(
                    open@,
                    items,
                    separator(between),
                    close@,
                    old(self).indent(),
                ),
    {
        let ghost start = self@;
        let items = self.build_all(contents);
        let ghost middle = self@;
        let ghost shapes = shapes_of(middle, places(items@));
        let idx = self.group_built(open, items, between, close);
        proof {
            lemma_kept_transitive(self@, middle, start);
            assert(self.shape(idx) == group_shape(
                open@,
                shapes,
                separator(between),
                close@,
                old(self).indent(),
            ));
        }
        idx
    }
}

} // verus!
