use crate::pretty_expressive::cost::Cost;
use crate::pretty_expressive::document::{
    lemma_concat_tree,
    node_ok,
    nodes_ok,
    positions,
    tree_of,
    trees_of,
    Document,
    DocumentRef,
    Node,
    Tree,
};
use crate::pretty_expressive::interned_map::InternedMap;
use crate::pretty_expressive::layout::{
    choiceless,
    measured,
    measured_concat,
    Position,
};
use vstd::prelude::*;
use vstd::string::StringExecFns;
use vstd::utf8::{encode_scalar, encode_utf8};

verus! {

/// `count` spaces.
pub open spec fn blanks(count: nat) -> Seq<char> {
    Seq::new(count, |i: int| ' ')
}

/// The text of a document without choices: its texts in order, for each
/// line break the end of a line and the spaces of the indent, or one space
/// where flattened. Of a choice the first branch is laid out.
pub open spec fn laid_out(tree: Tree, indent: nat, flatten: bool) -> Seq<char>
    decreases tree,
{
    match tree {
        Tree::Text(text) => text,
        Tree::Newline => if flatten {
            seq![' ']
        } else {
            seq!['\n'] + blanks(indent)
        },
        Tree::Concat(children) => laid_out_all(children, children.len(), indent, flatten),
        Tree::Nest(amount, child) => laid_out(*child, indent + amount, flatten),
        Tree::Flatten(child) => laid_out(*child, indent, true),
        Tree::Union(first, _) => laid_out(*first, indent, flatten),
    }
}

/// The text of the first `count` of `children`, one after the other.
pub open spec fn laid_out_all(children: Seq<Tree>, count: nat, indent: nat, flatten: bool) -> Seq<
    char,
>
    decreases children, count,
{
    if count == 0 || count > children.len() {
        Seq::empty()
    } else {
        laid_out_all(children, (count - 1) as nat, indent, flatten) + laid_out(
            children[count - 1],
            indent,
            flatten,
        )
    }
}

/// Why a document was not rendered.
pub enum Malformed {
    /// The key is no key of the arena.
    MissingKey,
    /// The document holds a choice.
    Choice,
    /// An indent of the document does not fit a machine word.
    TooDeep,
}

/// A `Flatten` inside a flattened document changes nothing of its text.
pub proof fn flatten_inside_flatten_changes_no_text(tree: Tree, indent: nat, flatten: bool)
    ensures
        laid_out(Tree::Flatten(Box::new(Tree::Flatten(Box::new(tree)))), indent, flatten)
            == laid_out(Tree::Flatten(Box::new(tree)), indent, flatten),
        laid_out(Tree::Flatten(Box::new(tree)), indent, true) == laid_out(tree, indent, true),
{
}

/// The column that is reached from `column` by `text`: each character
/// moves it by the bytes of its UTF-8 form, and the end of a line takes it
/// back to 0.
pub open spec fn column_after(column: nat, text: Seq<char>) -> nat
    decreases text.len(),
{
    if text.len() == 0 {
        column
    } else if text[0] == '\n' {
        column_after(0, text.drop_first())
    } else {
        column_after(column + encode_scalar(text[0] as u32).len(), text.drop_first())
    }
}

/// Every text of the document is free of line breaks.
pub open spec fn plain(tree: Tree) -> bool
    decreases tree,
{
    match tree {
        Tree::Text(text) => !text.contains('\n'),
        Tree::Newline => true,
        Tree::Concat(children) => forall|i: int|
            0 <= i < children.len() ==> plain(#[trigger] children[i]),
        Tree::Nest(_, child) => plain(*child),
        Tree::Flatten(child) => plain(*child),
        Tree::Union(first, second) => plain(*first) && plain(*second),
    }
}

/// The column after two texts is the column after the second, from the
/// column after the first.
pub proof fn lemma_column_after_both(column: nat, first: Seq<char>, second: Seq<char>)
    ensures
        column_after(column, first + second) == column_after(column_after(column, first), second),
    decreases first.len(),
{
    if first.len() == 0 {
        assert(first + second =~= second);
    } else {
        assert((first + second).drop_first() =~= first.drop_first() + second);
        if first[0] == '\n' {
            lemma_column_after_both(0, first.drop_first(), second);
        } else {
            lemma_column_after_both(
                column + encode_scalar(first[0] as u32).len(),
                first.drop_first(),
                second,
            );
        }
    }
}

/// A text without line breaks moves the column by its width.
pub proof fn lemma_column_after_text(column: nat, text: Seq<char>)
    requires
        !text.contains('\n'),
    ensures
        column_after(column, text) == column + encode_utf8(text).len(),
    decreases text.len(),
{
    if text.len() > 0 {
        assert(text[0] != '\n');
        assert forall|i: int| 0 <= i < text.drop_first().len() implies text.drop_first()[i]
            != '\n' by {
            assert(text.drop_first()[i] == text[i + 1]);
        }
        lemma_column_after_text(
            column + encode_scalar(text[0] as u32).len(),
            text.drop_first(),
        );
    }
}

/// A space is one byte of UTF-8, and no line break.
pub proof fn lemma_space_is_one_byte()
    ensures
        encode_scalar(' ' as u32).len() == 1,
        ' ' != '\n',
{
    assert(' ' as u32 == 32u32);
    assert(vstd::utf8::has_width_1_encoding(32u32));
}

/// Spaces move the column by their number.
pub proof fn lemma_column_after_blanks(column: nat, count: nat)
    ensures
        column_after(column, blanks(count)) == column + count,
    decreases count,
{
    if count > 0 {
        lemma_space_is_one_byte();
        assert(blanks(count).drop_first() =~= blanks((count - 1) as nat));
        lemma_column_after_blanks(column + 1, (count - 1) as nat);
    }
}

/// The measure of a document says where its text ends: laying out a
/// document without choices, whose texts hold no line break, from a column
/// takes the column to the width of the measure of the document there.
pub proof fn measure_is_where_the_text_ends<C: Cost>(tree: Tree, at: Position, max_width: nat)
    requires
        choiceless(tree),
        plain(tree),
    ensures
        column_after(at.column, laid_out(tree, at.current_indent, at.should_flatten))
            == measured::<C>(tree, at, max_width).last_line_width,
    decreases tree,
{
    match tree {
        Tree::Text(text) => {
            lemma_column_after_text(at.column, text);
        },
        Tree::Newline => {
            lemma_space_is_one_byte();
            if at.should_flatten {
                assert(seq![' '].drop_first() =~= Seq::<char>::empty());
                reveal_with_fuel(column_after, 2);
            } else {
                let text = seq!['\n'] + blanks(at.current_indent);
                assert(text.drop_first() =~= blanks(at.current_indent));
                lemma_column_after_blanks(0, at.current_indent);
            }
        },
        Tree::Concat(children) => {
            lemma_measure_all::<C>(children, children.len(), at, max_width);
        },
        Tree::Nest(amount, child) => {
            measure_is_where_the_text_ends::<C>(*child, at.nested(amount), max_width);
        },
        Tree::Flatten(child) => {
            measure_is_where_the_text_ends::<C>(*child, at.flattened(), max_width);
        },
        Tree::Union(_, _) => {},
    }
}

proof fn lemma_measure_all<C: Cost>(children: Seq<Tree>, count: nat, at: Position, max_width: nat)
    requires
        forall|i: int| 0 <= i < children.len() ==> choiceless(#[trigger] children[i]),
        forall|i: int| 0 <= i < children.len() ==> plain(#[trigger] children[i]),
    ensures
        column_after(
            at.column,
            laid_out_all(children, count, at.current_indent, at.should_flatten),
        ) == measured_concat::<C>(children, count, at, max_width).last_line_width,
    decreases children, count,
{
    if count == 0 || count > children.len() {
    } else if count == 1 {
        measure_is_where_the_text_ends::<C>(children[0], at, max_width);
        assert(laid_out_all(children, 0, at.current_indent, at.should_flatten)
            =~= Seq::<char>::empty());
        assert(laid_out_all(children, 1, at.current_indent, at.should_flatten) =~= laid_out(
            children[0],
            at.current_indent,
            at.should_flatten,
        ));
    } else {
        let before = measured_concat::<C>(children, (count - 1) as nat, at, max_width);
        lemma_measure_all::<C>(children, (count - 1) as nat, at, max_width);
        measure_is_where_the_text_ends::<C>(
            children[count - 1],
            at.at_column(before.last_line_width),
            max_width,
        );
        lemma_column_after_both(
            at.column,
            laid_out_all(children, (count - 1) as nat, at.current_indent, at.should_flatten),
            laid_out(children[count - 1], at.current_indent, at.should_flatten),
        );
    }
}

fn push_blanks(out: &mut String, count: usize)
    ensures
        final(out)@ == old(out)@ + blanks(count as nat),
{
    let mut i: usize = 0;
    proof {
        assert(out@ + blanks(0) =~= out@);
    }
    while i < count
        invariant
            i <= count,
            out@ == old(out)@ + blanks(i as nat),
        decreases count - i,
    {
        proof {
            reveal_strlit(" ");
        }
        out.append(" ");
        i += 1;
        proof {
            assert(out@ =~= old(out)@ + blanks(i as nat));
        }
    }
}

/// The first fault that laying out the document meets: a choice, or a `Nest`
/// whose indent does not fit a machine word.
pub open spec fn fault(tree: Tree, indent: nat) -> Option<Malformed>
    decreases tree,
{
    match tree {
        Tree::Text(_) => None,
        Tree::Newline => None,
        Tree::Concat(children) => fault_of(children, children.len(), indent),
        Tree::Nest(amount, child) => if indent + amount > usize::MAX {
            Some(Malformed::TooDeep)
        } else {
            fault(*child, indent + amount)
        },
        Tree::Flatten(child) => fault(*child, indent),
        Tree::Union(_, _) => Some(Malformed::Choice),
    }
}

/// The first fault that laying out the first `count` of `children` meets.
pub open spec fn fault_of(children: Seq<Tree>, count: nat, indent: nat) -> Option<Malformed>
    decreases children, count,
{
    if count == 0 || count > children.len() {
        None
    } else {
        match fault_of(children, (count - 1) as nat, indent) {
            Some(fault) => Some(fault),
            None => fault(children[count - 1], indent),
        }
    }
}

/// A document that is laid out without a fault holds no choice, and a
/// document without choices has no choice as its fault.
pub proof fn lemma_fault_and_choices(tree: Tree, indent: nat)
    ensures
        fault(tree, indent) is None ==> choiceless(tree),
        choiceless(tree) ==> fault(tree, indent) != Some(Malformed::Choice),
    decreases tree,
{
    match tree {
        Tree::Text(_) => {},
        Tree::Newline => {},
        Tree::Concat(children) => {
            lemma_faults_and_choices(children, children.len(), indent);
        },
        Tree::Nest(amount, child) => {
            lemma_fault_and_choices(*child, indent + amount);
        },
        Tree::Flatten(child) => {
            lemma_fault_and_choices(*child, indent);
        },
        Tree::Union(_, _) => {},
    }
}

proof fn lemma_faults_and_choices(children: Seq<Tree>, count: nat, indent: nat)
    requires
        count <= children.len(),
    ensures
        fault_of(children, count, indent) is None ==> forall|i: int|
            0 <= i < count ==> choiceless(#[trigger] children[i]),
        (forall|i: int| 0 <= i < count ==> choiceless(#[trigger] children[i])) ==> fault_of(
            children,
            count,
            indent,
        ) != Some(Malformed::Choice),
    decreases children, count,
{
    if count > 0 {
        lemma_faults_and_choices(children, (count - 1) as nat, indent);
        lemma_fault_and_choices(children[count - 1], indent);
    }
}

/// The texts of a valid arena hold no line break.
pub proof fn lemma_valid_arena_is_plain(arena: Seq<Node>, key: nat)
    requires
        nodes_ok(arena),
        key < arena.len(),
    ensures
        plain(tree_of(arena, key)),
    decreases key,
{
    assert(node_ok(arena[key as int], key));
    match arena[key as int] {
        Node::Text(_) => {},
        Node::Newline => {},
        Node::Concat(children) => {
            let trees = tree_of(arena, key)->Concat_0;
            assert forall|i: int| 0 <= i < trees.len() implies plain(#[trigger] trees[i]) by {
                lemma_valid_arena_is_plain(arena, children[i]);
            }
        },
        Node::Nest { add_indent_amount, child } => {
            lemma_valid_arena_is_plain(arena, child);
        },
        Node::Flatten(child) => {
            lemma_valid_arena_is_plain(arena, child);
        },
        Node::Union(first, second) => {
            lemma_valid_arena_is_plain(arena, first);
            lemma_valid_arena_is_plain(arena, second);
        },
    }
}

proof fn lemma_fault_of_stays(children: Seq<Tree>, count: nat, more: nat, indent: nat)
    requires
        count <= more <= children.len(),
        fault_of(children, count, indent) is Some,
    ensures
        fault_of(children, more, indent) == fault_of(children, count, indent),
    decreases more,
{
    if count < more {
        lemma_fault_of_stays(children, count, (more - 1) as nat, indent);
    }
}

fn render_into(
    arena: &InternedMap<Document>,
    key: DocumentRef,
    indent: usize,
    flatten: bool,
    out: &mut String,
) -> (r: Result<(), Malformed>)
    requires
        arena.valid(),
        key@ < arena@.len(),
    ensures
        r == match fault(arena.tree(key), indent as nat) {
            Some(fault) => Err::<(), Malformed>(fault),
            None => Ok::<(), Malformed>(()),
        },
        r is Ok ==> final(out)@ == old(out)@ + laid_out(arena.tree(key), indent as nat, flatten),
    decreases key@,
{
    proof {
        assert(node_ok(arena@[key@ as int], key@));
    }
    match arena.get(key) {
        Document::Text(text) => {
            out.append(text.as_str());
            Ok(())
        },
        Document::Newline => {
            if flatten {
                proof {
                    reveal_strlit(" ");
                    assert(" "@ =~= seq![' ']);
                }
                out.append(" ");
            } else {
                proof {
                    reveal_strlit("\n");
                    assert("\n"@ =~= seq!['\n']);
                }
                out.append("\n");
                push_blanks(out, indent);
                proof {
                    assert(out@ =~= old(out)@ + (seq!['\n'] + blanks(indent as nat)));
                }
            }
            Ok(())
        },
        Document::Concat(children) => {
            let ghost keys = positions(children@);
            let ghost trees = trees_of(arena@, keys);
            proof {
                lemma_concat_tree(arena@, key@, keys);
                assert(out@ + laid_out_all(trees, 0, indent as nat, flatten) =~= out@);
            }
            let mut i: usize = 0;
            while i < children.len()
                invariant
                    i <= children.len(),
                    arena.valid(),
                    key@ < arena@.len(),
                    keys == positions(children@),
                    trees == trees_of(arena@, keys),
                    tree_of(arena@, key@) == Tree::Concat(trees),
                    forall|k: int| 0 <= k < keys.len() ==> (#[trigger] keys[k]) < key@,
                    fault_of(trees, i as nat, indent as nat) is None,
                    out@ == old(out)@ + laid_out_all(trees, i as nat, indent as nat, flatten),
                decreases children.len() - i,
            {
                let ghost before = out@;
                proof {
                    assert(keys[i as int] == children@[i as int]@);
                    assert(trees[i as int] == tree_of(arena@, keys[i as int]));
                }
                match render_into(arena, children[i], indent, flatten, out) {
                    Err(found) => {
                        proof {
                            assert(fault(trees[i as int], indent as nat) == Some(found));
                            assert(fault_of(trees, (i + 1) as nat, indent as nat) == Some(found));
                            lemma_fault_of_stays(
                                trees,
                                (i + 1) as nat,
                                trees.len(),
                                indent as nat,
                            );
                        }
                        return Err(found);
                    },
                    Ok(()) => {},
                }
                proof {
                    assert(out@ =~= old(out)@ + laid_out_all(
                        trees,
                        (i + 1) as nat,
                        indent as nat,
                        flatten,
                    ));
                }
                i += 1;
            }
            Ok(())
        },
        Document::Nest { add_indent_amount, child } => {
            match indent.checked_add(*add_indent_amount) {
                None => Err(Malformed::TooDeep),
                Some(deeper) => render_into(arena, *child, deeper, flatten, out),
            }
        },
        Document::Flatten(child) => render_into(arena, *child, indent, true, out),
        Document::Union(_, _) => Err(Malformed::Choice),
    }
}

/// The text of the document `key`, laid out from the start of a page with
/// spaces for indents. A document that holds a choice is not rendered, nor
/// one with an indent that does not fit a machine word, nor one whose key is
/// no key of the arena.
pub fn render(arena: &InternedMap<Document>, key: DocumentRef) -> (r: Result<String, Malformed>)
    requires
        arena.valid(),
    ensures
        key@ >= arena@.len() ==> r == Err::<String, Malformed>(Malformed::MissingKey),
        key@ < arena@.len() ==> match fault(arena.tree(key), 0) {
            Some(fault) => r == Err::<String, Malformed>(fault),
            None => r is Ok && r->Ok_0@ == laid_out(arena.tree(key), 0, false),
        },
{
    if key.index() >= arena.len() {
        return Err(Malformed::MissingKey);
    }
    let mut out = String::new();
    match render_into(arena, key, 0, false, &mut out) {
        Ok(()) => {
            proof {
                assert(Seq::<char>::empty() + laid_out(arena.tree(key), 0, false) =~= laid_out(
                    arena.tree(key),
                    0,
                    false,
                ));
            }
            Ok(out)
        },
        Err(fault) => Err(fault),
    }
}

} // verus!
