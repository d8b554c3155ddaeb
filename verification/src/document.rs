use vstd::prelude::*;

verus! {

/// The key of a `Document` in an `InternedDocumentStore`. Its view is its
/// position in the store.
pub struct DocumentIdx(usize);

impl View for DocumentIdx {
    type V = nat;

    closed spec fn view(&self) -> nat {
        self.0 as nat
    }
}

impl Clone for DocumentIdx {
    fn clone(&self) -> (r: Self)
        ensures
            r == *self,
    {
        DocumentIdx(self.0)
    }
}

impl Copy for DocumentIdx {

}

impl DocumentIdx {
    /// The key of the document at `index`.
    pub fn at(index: usize) -> (r: Self)
        ensures
            r@ == index,
    {
        DocumentIdx(index)
    }

    /// The position of the key in its store.
    pub fn index(&self) -> (index: usize)
        ensures
            index == self@,
    {
        self.0
    }

    /// Keys with the same position are the same key.
    pub proof fn same_position_same_key(a: Self, b: Self)
        requires
            a@ == b@,
        ensures
            a == b,
    {
    }
}

/// One node of a document. Its children are keys into the store that holds
/// the node.
pub enum Document {
    /// A line break, or one space where an enclosing `Flatten` is in effect.
    Newline,
    /// A piece of text without a line break.
    Text(String),
    /// The body, with the indent changed by the amount.
    Nest(DocumentIdx, isize),
    /// The body, with every line break in it laid out as one space.
    Flatten(DocumentIdx),
    /// The children, one after the other.
    List(Vec<DocumentIdx>),
    /// The first body where it fits the width, else the second.
    TryCatch(DocumentIdx, DocumentIdx),
}

/// What a `Document` node holds: its text or number, and the positions of
/// its children.
pub enum Entry {
    Newline,
    Text(Seq<char>),
    Nest(nat, int),
    Flatten(nat),
    List(Seq<nat>),
    TryCatch(nat, nat),
}

/// A document written out as a tree, with the children in place of their
/// keys. `Missing` stands where a key leads to no earlier document of the
/// store.
pub enum Shape {
    Newline,
    Text(Seq<char>),
    Nest(Box<Shape>, int),
    Flatten(Box<Shape>),
    List(Seq<Shape>),
    TryCatch(Box<Shape>, Box<Shape>),
    Missing,
}

/// The positions that a sequence of keys stands for.
pub open spec fn places(keys: Seq<DocumentIdx>) -> Seq<nat> {
    Seq::new(keys.len(), |i: int| keys[i]@)
}

impl View for Document {
    type V = Entry;

    open spec fn view(&self) -> Entry {
        match *self {
            Document::Newline => Entry::Newline,
            Document::Text(text) => Entry::Text(text@),
            Document::Nest(body, by) => Entry::Nest(body@, by as int),
            Document::Flatten(body) => Entry::Flatten(body@),
            Document::List(children) => Entry::List(places(children@)),
            Document::TryCatch(try_body, catch_body) => Entry::TryCatch(try_body@, catch_body@),
        }
    }
}

fn same_keys(a: &Vec<DocumentIdx>, b: &Vec<DocumentIdx>) -> (r: bool)
    ensures
        r == (places(a@) == places(b@)),
{
    if a.len() != b.len() {
        proof {
            assert(places(a@).len() != places(b@).len());
        }
        return false;
    }
    let mut i: usize = 0;
    while i < a.len()
        invariant
            i <= a.len(),
            a.len() == b.len(),
            forall|k: int| 0 <= k < i ==> a@[k]@ == b@[k]@,
        decreases a.len() - i,
    {
        if a[i].index() != b[i].index() {
            proof {
                assert(places(a@)[i as int] != places(b@)[i as int]);
            }
            return false;
        }
        i += 1;
    }
    proof {
        assert(places(a@) =~= places(b@));
    }
    true
}

fn copy_keys(a: &Vec<DocumentIdx>) -> (r: Vec<DocumentIdx>)
    ensures
        r@ == a@,
{
    let mut r: Vec<DocumentIdx> = Vec::new();
    let mut i: usize = 0;
    while i < a.len()
        invariant
            i <= a.len(),
            r@ == a@.subrange(0, i as int),
        decreases a.len() - i,
    {
        r.push(a[i]);
        i += 1;
        proof {
            assert(r@ =~= a@.subrange(0, i as int));
        }
    }
    proof {
        assert(a@.subrange(0, a.len() as int) =~= a@);
    }
    r
}

impl Document {
    /// Whether two nodes hold the same.
    pub fn same(&self, other: &Self) -> (r: bool)
        ensures
            r == (self@ == other@),
    {
        match (self, other) {
            (Document::Newline, Document::Newline) => true,
            (Document::Text(a), Document::Text(b)) => *a == *b,
            (Document::Nest(a, x), Document::Nest(b, y)) => a.index() == b.index() && *x == *y,
            (Document::Flatten(a), Document::Flatten(b)) => a.index() == b.index(),
            (Document::List(a), Document::List(b)) => same_keys(a, b),
            (Document::TryCatch(a, b), Document::TryCatch(c, d)) => a.index() == c.index()
                && b.index() == d.index(),
            _ => false,
        }
    }
}

impl Clone for Document {
    fn clone(&self) -> (r: Self)
        ensures
            r@ == self@,
    {
        match self {
            Document::Newline => Document::Newline,
            Document::Text(text) => Document::Text(text.clone()),
            Document::Nest(body, by) => Document::Nest(*body, *by),
            Document::Flatten(body) => Document::Flatten(*body),
            Document::List(children) => Document::List(copy_keys(children)),
            Document::TryCatch(try_body, catch_body) => Document::TryCatch(*try_body, *catch_body),
        }
    }
}

/// A node that may stand at position `at` of a store: its children stand
/// before it.
pub open spec fn entry_ok(entry: Entry, at: nat) -> bool {
    match entry {
        Entry::Newline => true,
        Entry::Text(_) => true,
        Entry::Nest(body, _) => body < at,
        Entry::Flatten(body) => body < at,
        Entry::List(children) => forall|i: int|
            0 <= i < children.len() ==> (#[trigger] children[i]) < at,
        Entry::TryCatch(try_body, catch_body) => try_body < at && catch_body < at,
    }
}

/// Every node of the store stands after its children, so that the store
/// holds no cycle and no dangling key.
pub open spec fn entries_ok(store: Seq<Entry>) -> bool {
    forall|i: int| 0 <= i < store.len() ==> entry_ok(#[trigger] store[i], i as nat)
}

/// The tree that stands at `key` in `store`.
pub open spec fn shape_of(store: Seq<Entry>, key: nat) -> Shape
    decreases key, 1nat,
{
    if key >= store.len() {
        Shape::Missing
    } else {
        match store[key as int] {
            Entry::Newline => Shape::Newline,
            Entry::Text(text) => Shape::Text(text),
            Entry::Nest(body, by) => Shape::Nest(Box::new(child_shape(store, key, body)), by),
            Entry::Flatten(body) => Shape::Flatten(Box::new(child_shape(store, key, body))),
            Entry::List(children) => Shape::List(
                Seq::new(
                    children.len(),
                    |i: int|
                        if 0 <= i < children.len() && children[i] < key {
                            shape_of(store, children[i])
                        } else {
                            Shape::Missing
                        },
                ),
            ),
            Entry::TryCatch(try_body, catch_body) => Shape::TryCatch(
                Box::new(child_shape(store, key, try_body)),
                Box::new(child_shape(store, key, catch_body)),
            ),
        }
    }
}

/// The tree of the child `child` of the node at `key`: `Missing` where the
/// child does not stand before the node.
pub open spec fn child_shape(store: Seq<Entry>, key: nat, child: nat) -> Shape
    decreases key, 0nat,
{
    if child < key {
        shape_of(store, child)
    } else {
        Shape::Missing
    }
}


/// `later` holds everything that `earlier` holds, at the same keys.
pub open spec fn kept(later: Seq<Entry>, earlier: Seq<Entry>) -> bool {
    &&& earlier.len() <= later.len()
    &&& forall|i: int| 0 <= i < earlier.len() ==> later[i] == earlier[i]
}

/// A key keeps its tree when the store grows.
pub proof fn lemma_shape_of_kept(later: Seq<Entry>, earlier: Seq<Entry>, key: nat)
    requires
        kept(later, earlier),
        key < earlier.len(),
    ensures
        shape_of(later, key) == shape_of(earlier, key),
    decreases key,
{
    match earlier[key as int] {
        Entry::Newline => {},
        Entry::Text(_) => {},
        Entry::Nest(body, _) => {
            if body < key {
                lemma_shape_of_kept(later, earlier, body);
            }
            assert(child_shape(later, key, body) == child_shape(earlier, key, body));
        },
        Entry::Flatten(body) => {
            if body < key {
                lemma_shape_of_kept(later, earlier, body);
            }
            assert(child_shape(later, key, body) == child_shape(earlier, key, body));
        },
        Entry::List(children) => {
            let a = shape_of(later, key)->List_0;
            let b = shape_of(earlier, key)->List_0;
            assert forall|i: int| 0 <= i < children.len() implies a[i] == b[i] by {
                if children[i] < key {
                    lemma_shape_of_kept(later, earlier, children[i]);
                }
            }
            assert(a =~= b);
        },
        Entry::TryCatch(try_body, catch_body) => {
            if try_body < key {
                lemma_shape_of_kept(later, earlier, try_body);
            }
            if catch_body < key {
                lemma_shape_of_kept(later, earlier, catch_body);
            }
            assert(child_shape(later, key, try_body) == child_shape(earlier, key, try_body));
            assert(child_shape(later, key, catch_body) == child_shape(earlier, key, catch_body));
        },
    }
}

/// What is kept through two growths is kept.
pub proof fn lemma_kept_transitive(last: Seq<Entry>, middle: Seq<Entry>, first: Seq<Entry>)
    requires
        kept(last, middle),
        kept(middle, first),
    ensures
        kept(last, first),
{
    assert forall|i: int| 0 <= i < first.len() implies last[i] == first[i] by {
        assert(middle[i] == first[i]);
    }
}

/// The children of a `List` node stand for the children of its tree.
pub proof fn lemma_list_shape(store: Seq<Entry>, key: nat, children: Seq<nat>)
    requires
        key < store.len(),
        store[key as int] == Entry::List(children),
        entry_ok(store[key as int], key),
    ensures
        shape_of(store, key) == Shape::List(shapes_of(store, children)),
{
    assert(store[key as int]->List_0 == children);
    assert(shape_of(store, key)->List_0 =~= shapes_of(store, children));
}

/// The trees that stand at `keys` in `store`.
pub open spec fn shapes_of(store: Seq<Entry>, keys: Seq<nat>) -> Seq<Shape> {
    Seq::new(keys.len(), |i: int| shape_of(store, keys[i]))
}

/// `later` is `earlier` with `entry` interned in it at `key`: `key` is the
/// first place of `entry` in `earlier`, or `entry` is put at the end of
/// `earlier`, which is then `key`.
pub open spec fn stored(earlier: Seq<Entry>, entry: Entry, later: Seq<Entry>, key: nat) -> bool {
    &&& key < later.len()
    &&& later[key as int] == entry
    &&& forall|i: int| 0 <= i < key && i < earlier.len() ==> earlier[i] != entry
    &&& if key < earlier.len() {
        later == earlier
    } else {
        later == earlier.push(entry)
    }
}

/// An arena that gives equal documents equal keys. Its view is the
/// sequence of what its documents hold, in the order in which they were
/// first added.
pub struct InternedDocumentStore {
    documents: Vec<Document>,
}

impl View for InternedDocumentStore {
    type V = Seq<Entry>;

    closed spec fn view(&self) -> Seq<Entry> {
        Seq::new(self.documents@.len(), |i: int| self.documents@[i]@)
    }
}

impl Default for InternedDocumentStore {
    fn default() -> (store: Self)
        ensures
            store@ == Seq::<Entry>::empty(),
    {
        InternedDocumentStore { documents: Vec::new() }
    }
}

impl InternedDocumentStore {
    /// Every document of the store stands after its children.
    pub open spec fn valid(&self) -> bool {
        entries_ok(self@)
    }

    /// The tree that `idx` stands for in this store.
    pub open spec fn shape(&self, idx: DocumentIdx) -> Shape {
        shape_of(self@, idx@)
    }

    /// The number of documents of the store.
    pub fn len(&self) -> (len: usize)
        ensures
            len == self@.len(),
    {
        self.documents.len()
    }

    /// Interns `document`: returns the key of the first equal document of
    /// the store, or puts `document` at the end of the store and returns its
    /// key.
    pub fn add(&mut self, document: Document) -> (idx: DocumentIdx)
        ensures
            stored(old(self)@, document@, final(self)@, idx@),
    {
        let mut index: usize = 0;
        while index < self.documents.len()
            invariant
                index <= self.documents.len(),
                *self == *old(self),
                forall|i: int| 0 <= i < index ==> self@[i] != document@,
            decreases self.documents.len() - index,
        {
            if self.documents[index].same(&document) {
                proof {
                    assert(self@[index as int] == document@);
                }
                return DocumentIdx(index);
            }
            index += 1;
        }
        let ghost before = self@;
        self.documents.push(document);
        proof {
            assert(self@ =~= before.push(document@));
        }
        DocumentIdx(index)
    }

    /// The document that `idx` stands for.
    pub fn get(&self, idx: DocumentIdx) -> (document: &Document)
        requires
            idx@ < self@.len(),
        ensures
            document@ == self@[idx@ as int],
    {
        &self.documents[idx.0]
    }

    /// The document that `idx` stands for, to be changed in place. A change
    /// may leave the store with equal documents at two keys, or with a
    /// document that stands before its children.
    pub fn get_mut(&mut self, idx: DocumentIdx) -> (document: &mut Document)
        requires
            idx@ < old(self)@.len(),
        ensures
            document@ == old(self)@[idx@ as int],
            final(self)@ == old(self)@.update(idx@ as int, final(document)@),
    {
        &mut self.documents[idx.0]
    }

    /// Whether every document of the store stands after its children.
    pub fn is_valid(&self) -> (r: bool)
        ensures
            r == self.valid(),
    {
        let mut index: usize = 0;
        while index < self.documents.len()
            invariant
                index <= self.documents.len(),
                forall|i: int| 0 <= i < index ==> entry_ok(#[trigger] self@[i], i as nat),
            decreases self.documents.len() - index,
        {
            if !in_order(&self.documents[index], index) {
                proof {
                    assert(!entry_ok(self@[index as int], index as nat));
                }
                return false;
            }
            index += 1;
        }
        true
    }

    /// Interning a document whose children are keys of a valid store keeps
    /// the store valid and the trees of its keys, and gives the key of the
    /// interned document.
    pub proof fn lemma_stored_valid(earlier: Seq<Entry>, entry: Entry, later: Seq<Entry>, key: nat)
        requires
            entries_ok(earlier),
            entry_ok(entry, earlier.len()),
            stored(earlier, entry, later, key),
        ensures
            entries_ok(later),
            kept(later, earlier),
            entry_ok(entry, key),
    {
        assert forall|i: int| 0 <= i < later.len() implies entry_ok(
            #[trigger] later[i],
            i as nat,
        ) by {
            if i < earlier.len() {
                assert(later[i] == earlier[i]);
            }
        }
        if key < earlier.len() {
            assert(entry_ok(earlier[key as int], key));
        }
    }
}

fn in_order(document: &Document, index: usize) -> (r: bool)
    ensures
        r == entry_ok(document@, index as nat),
{
    match document {
        Document::Newline => true,
        Document::Text(_) => true,
        Document::Nest(body, _) => body.0 < index,
        Document::Flatten(body) => body.0 < index,
        Document::List(children) => all_below(children, index),
        Document::TryCatch(try_body, catch_body) => try_body.0 < index && catch_body.0 < index,
    }
}

proof fn lemma_list_out_of_order(keys: Seq<nat>, at: nat, i: int)
    requires
        0 <= i < keys.len(),
        keys[i] >= at,
    ensures
        !entry_ok(Entry::List(keys), at),
{
    assert(Entry::List(keys)->List_0 == keys);
}

fn all_below(children: &Vec<DocumentIdx>, bound: usize) -> (r: bool)
    ensures
        r == entry_ok(Entry::List(places(children@)), bound as nat),
{
    let ghost keys = places(children@);
    let mut i: usize = 0;
    while i < children.len()
        invariant
            i <= children.len(),
            keys == places(children@),
            forall|k: int| 0 <= k < i ==> keys[k] < bound,
        decreases children.len() - i,
    {
        if children[i].0 >= bound {
            proof {
                assert(keys[i as int] == children@[i as int]@);
                lemma_list_out_of_order(keys, bound as nat, i as int);
            }
            return false;
        }
        i += 1;
    }
    true
}


/// The document holds no `TryCatch` and misses no part.
pub open spec fn settled(shape: Shape) -> bool
    decreases shape,
{
    match shape {
        Shape::Newline => true,
        Shape::Text(_) => true,
        Shape::Nest(body, _) => settled(*body),
        Shape::Flatten(body) => settled(*body),
        Shape::List(children) => forall|i: int|
            0 <= i < children.len() ==> settled(#[trigger] children[i]),
        Shape::TryCatch(_, _) => false,
        Shape::Missing => false,
    }
}


} // verus!
