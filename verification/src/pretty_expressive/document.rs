use crate::pretty_expressive::interned_map::{
    distinct,
    interned_at,
    with_interned,
    Interned,
    InternedKey,
    InternedMap,
};
use vstd::prelude::*;

verus! {

/// The key of a `Document` in an `InternedMap<Document>`.
pub type DocumentRef = InternedKey<Document>;

/// One node of a document. Its children are keys into the arena that holds
/// the node.
pub enum Document {
    /// A piece of text without a line break.
    Text(String),
    /// A line break, or one space where an enclosing `Flatten` is in effect.
    Newline,
    /// The children, one after the other.
    Concat(Vec<DocumentRef>),
    /// The child, with the indent raised by `add_indent_amount`.
    Nest { add_indent_amount: usize, child: DocumentRef },
    /// The child, with every line break in it laid out as one space.
    Flatten(DocumentRef),
    /// A choice between two documents.
    Union(DocumentRef, DocumentRef),
}

/// What a `Document` node holds: its text or number, and the positions of
/// its children.
pub enum Node {
    Text(Seq<char>),
    Newline,
    Concat(Seq<nat>),
    Nest { add_indent_amount: nat, child: nat },
    Flatten(nat),
    Union(nat, nat),
}

/// A document written out as a tree, with the children in place of their
/// keys.
pub enum Tree {
    Text(Seq<char>),
    Newline,
    Concat(Seq<Tree>),
    Nest(nat, Box<Tree>),
    Flatten(Box<Tree>),
    Union(Box<Tree>, Box<Tree>),
}

/// The positions that a sequence of keys stands for.
pub open spec fn positions(keys: Seq<DocumentRef>) -> Seq<nat> {
    Seq::new(keys.len(), |i: int| keys[i]@)
}

impl View for Document {
    type V = Node;

    open spec fn view(&self) -> Node {
        match *self {
            Document::Text(text) => Node::Text(text@),
            Document::Newline => Node::Newline,
            Document::Concat(children) => Node::Concat(positions(children@)),
            Document::Nest { add_indent_amount, child } => Node::Nest {
                add_indent_amount: add_indent_amount as nat,
                child: child@,
            },
            Document::Flatten(child) => Node::Flatten(child@),
            Document::Union(first, second) => Node::Union(first@, second@),
        }
    }
}

fn same_keys(a: &Vec<DocumentRef>, b: &Vec<DocumentRef>) -> (r: bool)
    ensures
        r == (positions(a@) == positions(b@)),
{
    if a.len() != b.len() {
        proof {
            assert(positions(a@).len() != positions(b@).len());
        }
        return false;
    }
    let mut i: usize = 0;
    while i < a.len()
        invariant
            i <= a.len(),
            a.len() == b.len(),
            forall|k: int| 0 <= k < i ==> a@[k]@ == b@[k]@,
        decreases a.len() - i,
    {
        if a[i].index() != b[i].index() {
            proof {
                assert(positions(a@)[i as int] != positions(b@)[i as int]);
            }
            return false;
        }
        i += 1;
    }
    proof {
        assert(positions(a@) =~= positions(b@));
    }
    true
}

fn copy_keys(a: &Vec<DocumentRef>) -> (r: Vec<DocumentRef>)
    ensures
        r@ == a@,
{
    let mut r: Vec<DocumentRef> = Vec::new();
    let mut i: usize = 0;
    while i < a.len()
        invariant
            i <= a.len(),
            r@ == a@.subrange(0, i as int),
        decreases a.len() - i,
    {
        r.push(a[i]);
        i += 1;
        proof {
            assert(r@ =~= a@.subrange(0, i as int));
        }
    }
    proof {
        assert(a@.subrange(0, a.len() as int) =~= a@);
    }
    r
}

impl Interned for Document {
    fn same(&self, other: &Self) -> (r: bool) {
        match (self, other) {
            (Document::Text(a), Document::Text(b)) => *a == *b,
            (Document::Newline, Document::Newline) => true,
            (Document::Concat(a), Document::Concat(b)) => same_keys(a, b),
            (
                Document::Nest { add_indent_amount: a, child: c },
                Document::Nest { add_indent_amount: b, child: d },
            ) => *a == *b && c.index() == d.index(),
            (Document::Flatten(a), Document::Flatten(b)) => a.index() == b.index(),
            (Document::Union(a, b), Document::Union(c, d)) => a.index() == c.index() && b.index()
                == d.index(),
            _ => false,
        }
    }

    fn duplicate(&self) -> (r: Self) {
        match self {
            Document::Text(text) => Document::Text(text.clone()),
            Document::Newline => Document::Newline,
            Document::Concat(children) => Document::Concat(copy_keys(children)),
            Document::Nest { add_indent_amount, child } => Document::Nest {
                add_indent_amount: *add_indent_amount,
                child: *child,
            },
            Document::Flatten(child) => Document::Flatten(*child),
            Document::Union(first, second) => Document::Union(*first, *second),
        }
    }
}

/// Whether `text` holds a line break.
pub fn has_line_break(text: &str) -> (r: bool)
    ensures
        r == text@.contains('\n'),
{
    let mut found = false;
    for c in it: text.chars()
        invariant
            it.seq() == text@,
            found == exists|k: int| 0 <= k < it.index() && it.seq()[k] == '\n',
    {
        if c == '\n' {
            found = true;
        }
    }
    found
}

/// The width of a text: the number of bytes of its UTF-8 form.
pub open spec fn text_width(text: Seq<char>) -> nat {
    vstd::utf8::encode_utf8(text).len()
}

/// A node that may stand at position `at` of an arena: its text holds no line
/// break, and its children stand before it.
pub open spec fn node_ok(node: Node, at: nat) -> bool {
    match node {
        Node::Text(text) => !text.contains('\n'),
        Node::Newline => true,
        Node::Concat(children) => forall|i: int| 0 <= i < children.len() ==> children[i] < at,
        Node::Nest { add_indent_amount, child } => child < at,
        Node::Flatten(child) => child < at,
        Node::Union(first, second) => first < at && second < at,
    }
}

/// Every node of the arena stands after its children, so that the arena
/// holds no cycle and no dangling key.
pub open spec fn nodes_ok(arena: Seq<Node>) -> bool {
    forall|i: int| 0 <= i < arena.len() ==> node_ok(#[trigger] arena[i], i as nat)
}

/// The tree that stands at `key` in `arena`.
pub open spec fn tree_of(arena: Seq<Node>, key: nat) -> Tree
    decreases key,
{
    if key >= arena.len() {
        Tree::Newline
    } else {
        match arena[key as int] {
            Node::Text(text) => Tree::Text(text),
            Node::Newline => Tree::Newline,
            Node::Concat(children) => Tree::Concat(
                Seq::new(
                    children.len(),
                    |i: int|
                        if 0 <= i < children.len() && children[i] < key {
                            tree_of(arena, children[i])
                        } else {
                            Tree::Newline
                        },
                ),
            ),
            Node::Nest { add_indent_amount, child } => if child < key {
                Tree::Nest(add_indent_amount, Box::new(tree_of(arena, child)))
            } else {
                Tree::Newline
            },
            Node::Flatten(child) => if child < key {
                Tree::Flatten(Box::new(tree_of(arena, child)))
            } else {
                Tree::Newline
            },
            Node::Union(first, second) => if first < key && second < key {
                Tree::Union(Box::new(tree_of(arena, first)), Box::new(tree_of(arena, second)))
            } else {
                Tree::Newline
            },
        }
    }
}

/// The trees that stand at `keys` in `arena`.
pub open spec fn trees_of(arena: Seq<Node>, keys: Seq<nat>) -> Seq<Tree> {
    Seq::new(keys.len(), |i: int| tree_of(arena, keys[i]))
}

/// `later` holds everything that `earlier` holds, at the same keys.
pub open spec fn grown_from(later: Seq<Node>, earlier: Seq<Node>) -> bool {
    &&& earlier.len() <= later.len()
    &&& forall|i: int| 0 <= i < earlier.len() ==> later[i] == earlier[i]
}

/// A key keeps its tree when the arena grows.
pub proof fn lemma_tree_of_grown(later: Seq<Node>, earlier: Seq<Node>, key: nat)
    requires
        grown_from(later, earlier),
        key < earlier.len(),
    ensures
        tree_of(later, key) == tree_of(earlier, key),
    decreases key,
{
    match earlier[key as int] {
        Node::Text(text) => {},
        Node::Newline => {},
        Node::Concat(children) => {
            let a = tree_of(later, key)->Concat_0;
            let b = tree_of(earlier, key)->Concat_0;
            assert forall|i: int| 0 <= i < children.len() implies a[i] == b[i] by {
                if children[i] < key {
                    lemma_tree_of_grown(later, earlier, children[i]);
                }
            }
            assert(a =~= b);
        },
        Node::Nest { add_indent_amount, child } => {
            if child < key {
                lemma_tree_of_grown(later, earlier, child);
            }
        },
        Node::Flatten(child) => {
            if child < key {
                lemma_tree_of_grown(later, earlier, child);
            }
        },
        Node::Union(first, second) => {
            if first < key && second < key {
                lemma_tree_of_grown(later, earlier, first);
                lemma_tree_of_grown(later, earlier, second);
            }
        },
    }
}

/// The children of a `Concat` node stand for the children of its tree.
pub proof fn lemma_concat_tree(arena: Seq<Node>, key: nat, children: Seq<nat>)
    requires
        key < arena.len(),
        arena[key as int] == Node::Concat(children),
        node_ok(arena[key as int], key),
    ensures
        tree_of(arena, key) == Tree::Concat(trees_of(arena, children)),
{
    assert(tree_of(arena, key)->Concat_0 =~= trees_of(arena, children));
}

/// In an arena without repeated nodes, two keys that stand for the same tree
/// are the same key: a key is equal to another exactly when the whole
/// contents below them are equal.
pub proof fn lemma_equal_trees_equal_keys(arena: Seq<Node>, a: nat, b: nat)
    requires
        nodes_ok(arena),
        distinct(arena),
        a < arena.len(),
        b < arena.len(),
        tree_of(arena, a) == tree_of(arena, b),
    ensures
        a == b,
    decreases a + b,
{
    let x = arena[a as int];
    let y = arena[b as int];
    assert(node_ok(x, a));
    assert(node_ok(y, b));
    match x {
        Node::Text(text) => {
            assert(x == y);
        },
        Node::Newline => {
            assert(x == y);
        },
        Node::Concat(children) => {
            assert(y is Concat);
            let others = y->Concat_0;
            let s = tree_of(arena, a)->Concat_0;
            let t = tree_of(arena, b)->Concat_0;
            assert(s.len() == children.len());
            assert(t.len() == others.len());
            assert forall|i: int| 0 <= i < children.len() implies children[i] == others[i] by {
                assert(s[i] == tree_of(arena, children[i]));
                assert(t[i] == tree_of(arena, others[i]));
                lemma_equal_trees_equal_keys(arena, children[i], others[i]);
            }
            assert(children =~= others);
            assert(x == y);
        },
        Node::Nest { add_indent_amount, child } => {
            assert(y is Nest);
            lemma_equal_trees_equal_keys(arena, child, y->child);
            assert(x == y);
        },
        Node::Flatten(child) => {
            assert(y is Flatten);
            lemma_equal_trees_equal_keys(arena, child, y->Flatten_0);
            assert(x == y);
        },
        Node::Union(first, second) => {
            assert(y is Union);
            lemma_equal_trees_equal_keys(arena, first, y->Union_0);
            lemma_equal_trees_equal_keys(arena, second, y->Union_1);
            assert(x == y);
        },
    }
}

impl InternedMap<Document> {
    /// The arena interns its nodes and every node stands after its children.
    pub open spec fn valid(&self) -> bool {
        self.well_formed() && nodes_ok(self@)
    }

    /// The tree that `key` stands for in this arena.
    pub open spec fn tree(&self, key: DocumentRef) -> Tree {
        tree_of(self@, key@)
    }

    /// Interns a node whose children are keys of this arena.
    pub fn intern(&mut self, document: Document) -> (key: DocumentRef)
        requires
            old(self).valid(),
            node_ok(document@, old(self)@.len()),
        ensures
            final(self).valid(),
            grown_from(final(self)@, old(self)@),
            with_interned(old(self)@, document@, final(self)@),
            key@ == interned_at(old(self)@, document@),
            key@ < final(self)@.len(),
            final(self)@[key@ as int] == document@,
    {
        let ghost node = document@;
        let key = self.add(document);
        proof {
            assert forall|i: int| 0 <= i < self@.len() implies node_ok(
                #[trigger] self@[i],
                i as nat,
            ) by {
                if i < old(self)@.len() {
                    assert(self@[i] == old(self)@[i]);
                }
            }
        }
        key
    }

    /// The document that is the text `text`.
    pub fn text(&mut self, text: String) -> (key: DocumentRef)
        requires
            old(self).valid(),
            !text@.contains('\n'),
        ensures
            final(self).valid(),
            grown_from(final(self)@, old(self)@),
            with_interned(old(self)@, Node::Text(text@), final(self)@),
            key@ == interned_at(old(self)@, Node::Text(text@)),
            key@ < final(self)@.len(),
            final(self).tree(key) == Tree::Text(text@),
    {
        self.intern(Document::Text(text))
    }

    /// The document that is one line break.
    pub fn newline(&mut self) -> (key: DocumentRef)
        requires
            old(self).valid(),
        ensures
            final(self).valid(),
            grown_from(final(self)@, old(self)@),
            with_interned(old(self)@, Node::Newline, final(self)@),
            key@ == interned_at(old(self)@, Node::Newline),
            key@ < final(self)@.len(),
            final(self).tree(key) == Tree::Newline,
    {
        self.intern(Document::Newline)
    }

    /// The document that lays out `children` one after the other.
    pub fn concat(&mut self, children: Vec<DocumentRef>) -> (key: DocumentRef)
        requires
            old(self).valid(),
            forall|i: int| 0 <= i < children@.len() ==> children@[i]@ < old(self)@.len(),
        ensures
            final(self).valid(),
            grown_from(final(self)@, old(self)@),
            with_interned(old(self)@, Node::Concat(positions(children@)), final(self)@),
            key@ == interned_at(old(self)@, Node::Concat(positions(children@))),
            key@ < final(self)@.len(),
            final(self).tree(key) == Tree::Concat(trees_of(old(self)@, positions(children@))),
    {
        let ghost keys = positions(children@);
        let key = self.intern(Document::Concat(children));
        proof {
            let built = tree_of(self@, key@)->Concat_0;
            let wanted = trees_of(old(self)@, keys);
            assert(node_ok(self@[key@ as int], key@));
            assert forall|i: int| 0 <= i < keys.len() implies built[i] == wanted[i] by {
                lemma_tree_of_grown(self@, old(self)@, keys[i]);
            }
            assert(built =~= wanted);
        }
        key
    }

    /// The document that lays out `child` with the indent raised by
    /// `add_indent_amount`.
    pub fn nest(&mut self, add_indent_amount: usize, child: DocumentRef) -> (key: DocumentRef)
        requires
            old(self).valid(),
            child@ < old(self)@.len(),
        ensures
            final(self).valid(),
            grown_from(final(self)@, old(self)@),
            with_interned(
                old(self)@,
                Node::Nest { add_indent_amount: add_indent_amount as nat, child: child@ },
                final(self)@,
            ),
            key@ == interned_at(
                old(self)@,
                Node::Nest { add_indent_amount: add_indent_amount as nat, child: child@ },
            ),
            key@ < final(self)@.len(),
            final(self).tree(key) == Tree::Nest(
                add_indent_amount as nat,
                Box::new(old(self).tree(child)),
            ),
    {
        let key = self.intern(Document::Nest { add_indent_amount, child });
        proof {
            assert(node_ok(self@[key@ as int], key@));
            lemma_tree_of_grown(self@, old(self)@, child@);
        }
        key
    }

    /// The document that lays out `child` with its line breaks as spaces.
    pub fn flatten(&mut self, child: DocumentRef) -> (key: DocumentRef)
        requires
            old(self).valid(),
            child@ < old(self)@.len(),
        ensures
            final(self).valid(),
            grown_from(final(self)@, old(self)@),
            with_interned(old(self)@, Node::Flatten(child@), final(self)@),
            key@ == interned_at(old(self)@, Node::Flatten(child@)),
            key@ < final(self)@.len(),
            final(self).tree(key) == Tree::Flatten(Box::new(old(self).tree(child))),
    {
        let key = self.intern(Document::Flatten(child));
        proof {
            assert(node_ok(self@[key@ as int], key@));
            lemma_tree_of_grown(self@, old(self)@, child@);
        }
        key
    }

    /// The document that is laid out as `first` or as `second`.
    pub fn choice(&mut self, first: DocumentRef, second: DocumentRef) -> (key: DocumentRef)
        requires
            old(self).valid(),
            first@ < old(self)@.len(),
            second@ < old(self)@.len(),
        ensures
            final(self).valid(),
            grown_from(final(self)@, old(self)@),
            with_interned(old(self)@, Node::Union(first@, second@), final(self)@),
            key@ == interned_at(old(self)@, Node::Union(first@, second@)),
            key@ < final(self)@.len(),
            final(self).tree(key) == Tree::Union(
                Box::new(old(self).tree(first)),
                Box::new(old(self).tree(second)),
            ),
    {
        let key = self.intern(Document::Union(first, second));
        proof {
            assert(node_ok(self@[key@ as int], key@));
            lemma_tree_of_grown(self@, old(self)@, first@);
            lemma_tree_of_grown(self@, old(self)@, second@);
        }
        key
    }

    /// Equal keys stand for equal trees, and equal trees have equal keys.
    pub proof fn keys_are_canonical(self, a: DocumentRef, b: DocumentRef)
        requires
            self.valid(),
            a@ < self@.len(),
            b@ < self@.len(),
        ensures
            a@ == b@ <==> self.tree(a) == self.tree(b),
    {
        if self.tree(a) == self.tree(b) {
            lemma_equal_trees_equal_keys(self@, a@, b@);
        }
    }
}

} // verus!
