use spadefmt::pretty_expressive::cost::{Cost, Example3_5, COST_LIMIT, OVERFLOW_UNIT};
use spadefmt::pretty_expressive::document::{has_line_break, Document, DocumentRef};
use spadefmt::pretty_expressive::interned_map::{InternedInfoMap, InternedKey, InternedMap};
use spadefmt::pretty_expressive::lift::{prune, Lift};
use spadefmt::pretty_expressive::measure::{Measure, MeasureSet};
use spadefmt::pretty_expressive::render::{render, Malformed};
use spadefmt::pretty_expressive::resolve::{ChoicelessContext, PrintingConfig, PrintingContext};
use spadefmt::pretty_expressive::select::{select_layout, weigh};

fn cost(overflow: u128, height: u128) -> Example3_5 {
    Example3_5(overflow * OVERFLOW_UNIT + height)
}

fn measure(width: usize, overflow: u128, height: u128) -> Measure<Example3_5> {
    Measure { last_line_width: width, cost: cost(overflow, height), document: InternedKey::at(0) }
}

fn clean(members: &[(usize, u128, u128)]) -> MeasureSet<Example3_5> {
    MeasureSet::Clean(members.iter().map(|m| measure(m.0, m.1, m.2)).collect())
}

fn tainted(width: usize, overflow: u128, height: u128) -> MeasureSet<Example3_5> {
    MeasureSet::Tainted(measure(width, overflow, height))
}

fn outline(set: &MeasureSet<Example3_5>) -> (bool, Vec<(usize, u128)>) {
    match set {
        MeasureSet::Clean(measures) => {
            (true, measures.iter().map(|m| (m.last_line_width, m.cost.0)).collect())
        }
        MeasureSet::Tainted(m) => (false, vec![(m.last_line_width, m.cost.0)]),
    }
}

fn samples() -> Vec<MeasureSet<Example3_5>> {
    vec![
        clean(&[(9, 0, 0), (5, 0, 1), (2, 0, 3)]),
        clean(&[(8, 0, 0), (5, 0, 2), (1, 0, 4)]),
        clean(&[(9, 0, 1), (4, 0, 2)]),
        clean(&[(3, 0, 0)]),
        clean(&[(9, 0, 0)]),
        tainted(20, 4, 0),
        tainted(20, 4, 1),
        tainted(12, 4, 0),
        tainted(30, 1, 9),
    ]
}

#[test]
fn cost_of_text_is_the_growth_of_the_squared_overflow() {
    assert_eq!(Example3_5::for_text(0, 3, 80), cost(0, 0));
    assert_eq!(Example3_5::for_text(0, 10, 6), cost(16, 0));
    assert_eq!(Example3_5::for_text(6, 4, 6), cost(16, 0));
    assert_eq!(Example3_5::for_text(8, 2, 6), cost(12, 0));
    assert_eq!(Example3_5::for_text(8, 0, 6), cost(0, 0));
    assert_eq!(Example3_5::for_text(5, 1, 6), cost(0, 0));
    assert_eq!(Example3_5::for_text(5, 2, 6), cost(1, 0));
    assert_eq!(Example3_5::newline_cost(), cost(0, 1));
    assert_eq!(Example3_5::zero_cost(), cost(0, 0));
    assert_eq!(Example3_5::zero_cost().add(cost(3, 4)), cost(3, 4));
    assert_eq!(cost(3, 4).add(Example3_5::zero_cost()), cost(3, 4));
    assert_eq!(Example3_5::for_text(0, 10, 6).overflow(), 16);
    assert_eq!(Example3_5::newline_cost().height(), 1);
}

#[test]
fn cost_of_text_obeys_its_laws() {
    let w = 6;
    for column in 0..12usize {
        for length in 0..8usize {
            let here = Example3_5::for_text(column, length, w);
            let further = Example3_5::for_text(column + 1, length, w);
            assert!(here.less_eq(&further));
            for second in 0..5usize {
                let whole = Example3_5::for_text(column, length + second, w);
                let parts = here.add(Example3_5::for_text(column + length, second, w));
                assert_eq!(whole, parts);
            }
            let wider = Example3_5::for_text(column, length, w + 3);
            assert!(wider.less_eq(&here));
        }
        assert_eq!(Example3_5::for_text(column, 0, w), Example3_5::for_text(0, 0, w));
    }
}

#[test]
fn cost_holds_at_its_limit() {
    let huge = Example3_5::for_text(usize::MAX, usize::MAX, 0);
    assert_eq!(huge, Example3_5(COST_LIMIT));
    assert_eq!(huge.add(cost(1, 1)), Example3_5(COST_LIMIT));
    assert_eq!(cost(1, 1).add(huge), Example3_5(COST_LIMIT));
    assert!(cost(7, 9).less_eq(&huge));
    assert_eq!(cost(1, 2).add(cost(3, 4)), cost(4, 6));
    assert!(cost(1, 9).less_eq(&cost(2, 0)));
    assert!(!cost(2, 0).less_eq(&cost(1, 9)));
    assert!(cost(1, 1).less_eq(&cost(1, 1)));
}

#[test]
fn merge_keeps_the_frontier() {
    let a = clean(&[(9, 0, 0), (5, 0, 1), (2, 0, 3)]);
    let b = clean(&[(8, 0, 0), (5, 0, 2), (1, 0, 4)]);
    let merged = a.merge_with(b);
    assert_eq!(outline(&merged), (true, vec![(8, 0), (5, 1), (2, 3), (1, 4)]));
}

#[test]
fn a_clean_set_wins_over_a_tainted_one() {
    let set = clean(&[(9, 0, 5)]);
    assert_eq!(outline(&set.clone().merge_with(tainted(1, 0, 0))), outline(&set));
    assert_eq!(outline(&tainted(1, 0, 0).merge_with(set.clone())), outline(&set));
}

#[test]
fn of_two_tainted_sets_the_better_measure_stays() {
    assert_eq!(outline(&tainted(20, 4, 0).merge_with(tainted(30, 1, 9))).1, vec![(30, cost(1, 9).0)]);
    assert_eq!(outline(&tainted(20, 4, 0).merge_with(tainted(12, 4, 0))).1, vec![(12, cost(4, 0).0)]);
    assert_eq!(outline(&tainted(12, 4, 0).merge_with(tainted(20, 4, 0))).1, vec![(12, cost(4, 0).0)]);
    assert!(!outline(&tainted(12, 4, 0).merge_with(tainted(20, 4, 0))).0);
}

#[test]
fn merge_is_commutative_on_samples() {
    for a in samples() {
        for b in samples() {
            let forth = a.clone().merge_with(b.clone());
            let back = b.clone().merge_with(a.clone());
            assert_eq!(outline(&forth), outline(&back));
        }
    }
}

#[test]
fn merge_is_associative_on_samples() {
    for a in samples() {
        for b in samples() {
            for c in samples() {
                let left = a.clone().merge_with(b.clone()).merge_with(c.clone());
                let right = a.clone().merge_with(b.clone().merge_with(c.clone()));
                assert_eq!(outline(&left), outline(&right));
            }
        }
    }
}

#[test]
fn dominance_is_strict() {
    let a = measure(3, 0, 1);
    let b = measure(5, 0, 1);
    let c = measure(5, 0, 2);
    assert!(a.dominates(&b));
    assert!(b.dominates(&c));
    assert!(a.dominates(&c));
    assert!(!b.dominates(&a));
    assert!(!a.dominates(&a));
    assert!(a.covers(&a));
    assert!(!measure(3, 0, 2).dominates(&measure(5, 0, 1)));
    assert!(!measure(5, 0, 1).dominates(&measure(3, 0, 2)));
}

#[test]
fn no_member_of_a_merged_set_dominates_another() {
    for a in samples() {
        for b in samples() {
            if let MeasureSet::Clean(members) = a.clone().merge_with(b.clone()) {
                for (i, x) in members.iter().enumerate() {
                    for (j, y) in members.iter().enumerate() {
                        if i != j {
                            assert!(!x.dominates(y));
                        }
                    }
                }
            }
        }
    }
}

#[test]
fn taint_and_select_take_the_first_measure() {
    let set = clean(&[(9, 0, 0), (5, 0, 1)]);
    assert_eq!(outline(&set.clone().tainted()), (false, vec![(9, 0)]));
    assert_eq!(outline(&tainted(3, 1, 0).tainted()), (false, vec![(3, cost(1, 0).0)]));
    assert_eq!(outline(&set.clone().tainted().tainted()), outline(&set.clone().tainted()));
    assert_eq!(set.select().last_line_width, 9);
    assert_eq!(tainted(3, 1, 0).select().last_line_width, 3);
}

#[test]
fn prune_drops_what_costs_no_less_than_the_next() {
    let kept = prune(&vec![measure(9, 0, 1), measure(7, 0, 1), measure(5, 0, 2), measure(3, 0, 2)]);
    let widths: Vec<usize> = kept.iter().map(|m| m.last_line_width).collect();
    assert_eq!(widths, vec![7, 3]);
    assert!(prune::<Example3_5>(&vec![]).is_empty());
}

#[test]
fn lift_wraps_and_joins() {
    let mut arena: InternedMap<Document> = InternedMap::new();
    let a = arena.text("a".to_string());
    let b = arena.text("b".to_string());
    let at = |document: DocumentRef, width: usize, height: u128| Measure {
        last_line_width: width,
        cost: cost(0, height),
        document,
    };
    let set = MeasureSet::Clean(vec![at(a, 5, 1), at(b, 3, 2)]);
    let nested = set.clone().lift(&mut arena, &Lift::Nest(2));
    let flat = set.clone().lift(&mut arena, &Lift::Flatten);
    let after = set.clone().lift(&mut arena, &Lift::After(at(b, 7, 4)));
    assert_eq!(outline(&nested), outline(&set));
    assert_eq!(outline(&flat), outline(&set));
    assert_eq!(outline(&after), (true, vec![(5, 5), (3, 6)]));
    let docs = |set: &MeasureSet<Example3_5>| match set {
        MeasureSet::Clean(measures) => measures.iter().map(|m| m.document).collect::<Vec<_>>(),
        MeasureSet::Tainted(m) => vec![m.document],
    };
    assert!(matches!(arena.get(docs(&nested)[0]), Document::Nest { add_indent_amount: 2, child } if child.index() == a.index()));
    assert!(matches!(arena.get(docs(&flat)[1]), Document::Flatten(child) if child.index() == b.index()));
    assert!(matches!(arena.get(docs(&after)[0]), Document::Concat(children)
        if children.len() == 2 && children[0].index() == b.index() && children[1].index() == a.index()));
    let followed = set.follow(&mut arena, &at(b, 7, 4));
    assert_eq!(outline(&followed), outline(&after));
}

#[test]
fn equal_contents_have_equal_keys() {
    let mut arena: InternedMap<Document> = InternedMap::new();
    let a = arena.text("a".to_string());
    let newline = arena.newline();
    let again = arena.text("a".to_string());
    let other = arena.text("b".to_string());
    assert_eq!(a.index(), again.index());
    assert_ne!(a.index(), other.index());
    let first = arena.concat(vec![a, newline, other]);
    let second = arena.concat(vec![again, newline, other]);
    let third = arena.concat(vec![other, newline, a]);
    assert_eq!(first.index(), second.index());
    assert_ne!(first.index(), third.index());
    let nest = arena.nest(2, first);
    assert_eq!(arena.nest(2, second).index(), nest.index());
    assert_ne!(arena.nest(3, second).index(), nest.index());
    let flat = arena.flatten(first);
    assert_eq!(arena.flatten(second).index(), flat.index());
    let choice = arena.choice(first, third);
    assert_eq!(arena.choice(second, third).index(), choice.index());
    assert_ne!(arena.choice(third, first).index(), choice.index());
    assert_eq!(arena.len(), 10);
    assert_eq!(arena.add(Document::Newline).index(), newline.index());
    assert_eq!(arena.intern(Document::Flatten(first)).index(), flat.index());
}

#[test]
fn lookup_gives_nothing_for_a_key_of_another_arena() {
    let mut arena: InternedMap<Document> = InternedMap::new();
    let a = arena.text("a".to_string());
    assert!(matches!(arena.lookup(a), Some(Document::Text(text)) if text == "a"));
    assert!(arena.lookup(InternedKey::at(1)).is_none());
}

#[test]
fn an_arena_is_walked_in_key_order() {
    let mut arena: InternedMap<Document> = InternedMap::new();
    let a = arena.text("a".to_string());
    let newline = arena.newline();
    let mut iter = arena.iter();
    let (first, document) = iter.next().unwrap();
    assert_eq!(first.index(), a.index());
    assert!(matches!(document, Document::Text(text) if text == "a"));
    let (second, document) = iter.next().unwrap();
    assert_eq!(second.index(), newline.index());
    assert!(matches!(document, Document::Newline));
    assert!(iter.next().is_none());
    assert!(iter.next().is_none());
}

#[test]
fn a_side_table_holds_what_was_put_there() {
    let mut arena: InternedMap<Document> = InternedMap::new();
    let a = arena.text("a".to_string());
    let b = arena.newline();
    let mut table: InternedInfoMap<DocumentRef, u32> = InternedInfoMap::aligned_with(&arena);
    assert_eq!(table.len(), 2);
    assert!(!table.contains_key(a));
    assert!(!table.contains_key(InternedKey::at(7)));
    table.init(b, 5);
    assert!(table.contains_key(b));
    assert!(!table.contains_key(a));
    assert_eq!(*table.get(b), 5);
    table.init(b, 6);
    assert_eq!(*table.get(b), 6);
}

fn config(max_width: usize) -> PrintingConfig {
    PrintingConfig { max_width, indent_amount: 4 }
}

#[test]
fn measuring_a_document_without_choices() {
    let mut arena: InternedMap<Document> = InternedMap::new();
    let ab = arena.text("ab".to_string());
    let newline = arena.newline();
    let cde = arena.text("cde".to_string());
    let lines = arena.concat(vec![ab, newline, cde]);
    let nest = arena.nest(4, lines);
    let flat = arena.flatten(lines);
    let empty = arena.concat(vec![]);
    let before = arena.len();
    let mut resolver: ChoicelessContext<Example3_5> = ChoicelessContext::new(&arena);
    let start = PrintingContext::new();
    let at = PrintingContext { column: 3, current_indent: 1, should_flatten: false };

    let m = resolver.measure_document_memoized(&config(80), start, &mut arena, lines);
    assert_eq!((m.last_line_width, m.cost, m.document.index()), (3, cost(0, 1), lines.index()));
    let again = resolver.measure_document_memoized(&config(80), start, &mut arena, lines);
    assert_eq!((again.last_line_width, again.cost), (3, cost(0, 1)));
    let moved = resolver.measure_document_memoized(&config(80), at, &mut arena, lines);
    assert_eq!((moved.last_line_width, moved.cost), (4, cost(0, 1)));
    let narrow = resolver.measure_document_memoized(&config(4), at, &mut arena, lines);
    assert_eq!((narrow.last_line_width, narrow.cost), (4, cost(1, 1)));

    let m = resolver.measure_document_memoized(&config(80), start, &mut arena, nest);
    assert_eq!((m.last_line_width, m.cost, m.document.index()), (7, cost(0, 1), nest.index()));
    let m = resolver.measure_document_memoized(&config(80), start, &mut arena, flat);
    assert_eq!((m.last_line_width, m.cost, m.document.index()), (6, cost(0, 0), flat.index()));
    let m = resolver.measure_document_memoized(&config(80), at, &mut arena, empty);
    assert_eq!((m.last_line_width, m.cost, m.document.index()), (3, cost(0, 0), empty.index()));
    assert_eq!(arena.len(), before);

    let m = resolver.measure_concat(&config(80), at, &mut arena, &[cde, ab]);
    assert_eq!((m.last_line_width, m.cost), (8, cost(0, 0)));
    assert_eq!(arena.len(), before + 1);
    let m = resolver.measure_nest(&config(80), start, &mut arena, 2, newline);
    assert_eq!((m.last_line_width, m.cost), (2, cost(0, 1)));
    let m = resolver.measure_flatten(&config(80), at, &mut arena, newline);
    assert_eq!((m.last_line_width, m.cost), (4, cost(0, 0)));
    let m = resolver.measure_text(&config(4), &at, ab, "ab");
    assert_eq!((m.last_line_width, m.cost), (5, cost(1, 0)));
    let m = resolver.measure_newline(&at, newline);
    assert_eq!((m.last_line_width, m.cost), (1, cost(0, 1)));
    let m = resolver.measure_space(&config(80), &at, newline);
    assert_eq!((m.last_line_width, m.cost), (4, cost(0, 0)));
}

#[test]
fn resolving_the_parts_of_a_document() {
    let mut arena: InternedMap<Document> = InternedMap::new();
    let ab = arena.text("ab".to_string());
    let newline = arena.newline();
    let mut resolver: ChoicelessContext<Example3_5> = ChoicelessContext::new(&arena);
    let at = PrintingContext { column: 3, current_indent: 1, should_flatten: false };
    let flat = PrintingContext { column: 3, current_indent: 1, should_flatten: true };
    let deep = PrintingContext { column: 3, current_indent: 9, should_flatten: false };

    assert_eq!(outline(&resolver.resolve_text(&config(5), at, ab, "ab")), (true, vec![(5, 0)]));
    assert_eq!(
        outline(&resolver.resolve_text(&config(4), at, ab, "ab")),
        (false, vec![(5, cost(1, 0).0)])
    );
    assert_eq!(outline(&resolver.resolve_text(&config(5), deep, ab, "ab")), (false, vec![(5, 0)]));
    assert_eq!(outline(&resolver.resolve_newline(&config(5), at, newline)), (true, vec![(1, 1)]));
    assert_eq!(outline(&resolver.resolve_newline(&config(2), at, newline)), (false, vec![(1, 1)]));
    assert_eq!(outline(&resolver.resolve_newline(&config(5), deep, newline)), (false, vec![(9, 1)]));
    assert_eq!(outline(&resolver.resolve_newline(&config(5), flat, newline)), (true, vec![(4, 0)]));
    assert_eq!(
        outline(&resolver.resolve_newline(&config(3), flat, newline)),
        (false, vec![(4, cost(1, 0).0)])
    );

    let empty = arena.concat(vec![]);
    let set = resolver.resolve_document(&config(5), &mut arena, at, empty);
    assert_eq!(outline(&set), (true, vec![(3, 0)]));
    let set = resolver.resolve_document(&config(2), &mut arena, at, empty);
    assert_eq!(outline(&set), (false, vec![(3, 0)]));
}

#[test]
fn flatten_inside_flatten_changes_no_layout() {
    let mut arena: InternedMap<Document> = InternedMap::new();
    let a = arena.text("aaaa".to_string());
    let newline = arena.newline();
    let b = arena.text("bbbb".to_string());
    let lines = arena.concat(vec![a, newline, b]);
    let short = arena.text("c".to_string());
    let choice = arena.choice(lines, short);
    let once = arena.flatten(choice);
    let twice = arena.flatten(once);
    for width in [0usize, 3, 8, 9, 80] {
        let mut resolver: ChoicelessContext<Example3_5> = ChoicelessContext::new(&arena);
        let first = resolver.resolve_document(&config(width), &mut arena, PrintingContext::new(), once);
        let second = resolver.resolve_document(&config(width), &mut arena, PrintingContext::new(), twice);
        assert_eq!(outline(&first), outline(&second));
    }
}

#[test]
fn a_wider_limit_never_raises_the_cost_of_a_document_without_choices() {
    let mut arena: InternedMap<Document> = InternedMap::new();
    let a = arena.text("aaaaaaa".to_string());
    let newline = arena.newline();
    let b = arena.text("bbbbbbbbbbb".to_string());
    let lines = arena.concat(vec![a, newline, b, a]);
    let nest = arena.nest(3, lines);
    let mut last: Option<Example3_5> = None;
    for width in (0..40usize).rev() {
        let chosen: Measure<Example3_5> = select_layout(&config(width), &mut arena, nest).unwrap();
        if let Some(wider) = last {
            assert!(wider.less_eq(&chosen.cost));
        }
        last = Some(chosen.cost);
    }
}

#[test]
fn shared_documents_are_resolved_once() {
    let mut arena: InternedMap<Document> = InternedMap::new();
    let mut document = arena.text("a".to_string());
    let other = arena.text("b".to_string());
    for _ in 0..48 {
        let left = arena.concat(vec![document]);
        let right = arena.nest(0, document);
        let both = arena.choice(left, right);
        document = arena.choice(both, other);
    }
    assert_eq!(weigh(&arena, document), Some((1usize << 49) - 1));
    let chosen: Measure<Example3_5> = select_layout(&config(80), &mut arena, document).unwrap();
    assert_eq!((chosen.last_line_width, chosen.cost), (1, cost(0, 0)));
}

#[test]
fn a_document_too_heavy_for_a_machine_word_is_not_laid_out() {
    let mut arena: InternedMap<Document> = InternedMap::new();
    let text = arena.text("a".to_string());
    let deep = arena.nest(usize::MAX, text);
    assert_eq!(weigh(&arena, deep), None);
    assert_eq!(weigh(&arena, text), Some(1));
    assert!(select_layout::<Example3_5>(&config(80), &mut arena, deep).is_none());
    assert!(select_layout::<Example3_5>(&config(80), &mut arena, InternedKey::at(99)).is_none());
    assert!(select_layout::<Example3_5>(&config(80), &mut arena, text).is_some());
}

#[test]
fn rendering_lays_out_text_with_spaces_for_indents() {
    let mut arena: InternedMap<Document> = InternedMap::new();
    let a = arena.text("a".to_string());
    let newline = arena.newline();
    let b = arena.text("b".to_string());
    let lines = arena.concat(vec![a, newline, b]);
    let nest = arena.nest(4, lines);
    let deeper = arena.nest(2, nest);
    let flat = arena.flatten(deeper);
    let inside = arena.concat(vec![a, flat, newline, deeper]);
    let choice = arena.choice(a, b);
    let hidden = arena.concat(vec![a, choice]);
    let too_deep = arena.nest(usize::MAX, nest);
    assert_eq!(render(&arena, lines).ok().unwrap(), "a\nb");
    assert_eq!(render(&arena, nest).ok().unwrap(), "a\n    b");
    assert_eq!(render(&arena, deeper).ok().unwrap(), "a\n      b");
    assert_eq!(render(&arena, flat).ok().unwrap(), "a b");
    assert_eq!(render(&arena, inside).ok().unwrap(), "aa b\na\n      b");
    assert!(matches!(render(&arena, choice), Err(Malformed::Choice)));
    assert!(matches!(render(&arena, hidden), Err(Malformed::Choice)));
    assert!(matches!(render(&arena, too_deep), Err(Malformed::TooDeep)));
    assert!(matches!(render(&arena, InternedKey::at(99)), Err(Malformed::MissingKey)));
}

#[test]
fn the_measure_of_the_selected_layout_is_where_its_text_ends() {
    let mut arena: InternedMap<Document> = InternedMap::new();
    let open = arena.text("call(".to_string());
    let first = arena.text("first_argument,".to_string());
    let second = arena.text("second_argument".to_string());
    let close = arena.text(")".to_string());
    let newline = arena.newline();
    let space = arena.text(" ".to_string());
    let inline = arena.concat(vec![open, first, space, second, close]);
    let body = arena.concat(vec![newline, first, newline, second]);
    let nested = arena.nest(4, body);
    let broken = arena.concat(vec![open, nested, newline, close]);
    let document = arena.choice(inline, broken);
    for (width, expected) in [
        (80usize, "call(first_argument, second_argument)"),
        (20, "call(\n    first_argument,\n    second_argument\n)"),
    ] {
        let chosen: Measure<Example3_5> = select_layout(&config(width), &mut arena, document).unwrap();
        let text = render(&arena, chosen.document).ok().unwrap();
        assert_eq!(text, expected);
        let last_line = text.rsplit('\n').next().unwrap();
        assert_eq!(chosen.last_line_width, last_line.len());
        assert_eq!(chosen.cost.height() as usize, text.matches('\n').count());
        assert_eq!(chosen.cost.overflow(), 0);
    }
}

#[test]
fn a_wider_limit_never_raises_the_cost_of_a_layout_that_fits() {
    let mut arena: InternedMap<Document> = InternedMap::new();
    let mut parts = Vec::new();
    for width in [9usize, 7, 5] {
        let long = arena.text("x".repeat(width));
        let half = arena.text("x".repeat(width / 2));
        let newline = arena.newline();
        let broken = arena.concat(vec![half, newline, half]);
        parts.push(arena.choice(long, broken));
    }
    let document = arena.concat(parts);
    let mut narrower: Option<Example3_5> = None;
    for width in 0..40usize {
        let mut resolver: ChoicelessContext<Example3_5> = ChoicelessContext::new(&arena);
        let set = resolver.resolve_document(&config(width), &mut arena, PrintingContext::new(), document);
        let cost = set.select().cost;
        if let Some(before) = narrower {
            assert!(cost.less_eq(&before));
        }
        narrower = if matches!(set, MeasureSet::Clean(_)) { Some(cost) } else { None };
    }
    assert_eq!(narrower, Some(cost(0, 0)));
}

#[test]
fn a_wider_limit_can_raise_the_cost_where_nothing_fits() {
    let mut arena: InternedMap<Document> = InternedMap::new();
    let long = arena.text("aaaaaaaaaaa".to_string());
    let newline = arena.newline();
    let deep = arena.nest(20, newline);
    let back = arena.concat(vec![deep, newline]);
    let choice = arena.choice(long, back);
    let tail = arena.text("ttttt".to_string());
    let document = arena.concat(vec![choice, tail]);

    let narrow: Measure<Example3_5> = select_layout(&config(10), &mut arena, document).unwrap();
    assert_eq!((narrow.last_line_width, narrow.cost), (5, cost(0, 2)));
    let wide: Measure<Example3_5> = select_layout(&config(11), &mut arena, document).unwrap();
    assert_eq!((wide.last_line_width, wide.cost), (16, cost(25, 0)));

    let mut resolver: ChoicelessContext<Example3_5> = ChoicelessContext::new(&arena);
    let set = resolver.resolve_document(&config(10), &mut arena, PrintingContext::new(), document);
    assert!(matches!(set, MeasureSet::Tainted(_)));
    let set = resolver.resolve_document(&config(11), &mut arena, PrintingContext::new(), document);
    assert!(matches!(set, MeasureSet::Tainted(_)));
}

#[test]
fn a_set_is_tainted_only_where_no_combination_fits() {
    let mut arena: InternedMap<Document> = InternedMap::new();
    let mut parts = Vec::new();
    let mut alternatives: Vec<[usize; 2]> = Vec::new();
    for (long, short) in [(6usize, 2usize), (5, 1), (4, 3)] {
        let a = arena.text("x".repeat(long));
        let b = arena.text("y".repeat(short));
        parts.push(arena.choice(a, b));
        alternatives.push([long, short]);
    }
    let document = arena.concat(parts);
    for width in 0..20usize {
        let mut fitting: Vec<usize> = Vec::new();
        for pick in 0..8usize {
            let total: usize = (0..3).map(|i| alternatives[i][(pick >> i) & 1]).sum();
            if total <= width {
                fitting.push(total);
            }
        }
        let mut resolver: ChoicelessContext<Example3_5> = ChoicelessContext::new(&arena);
        let set = resolver.resolve_document(&config(width), &mut arena, PrintingContext::new(), document);
        match set {
            MeasureSet::Clean(measures) => {
                let narrowest = fitting.iter().min().copied();
                assert_eq!(measures.len(), 1);
                assert_eq!(Some(measures[0].last_line_width), narrowest);
                assert_eq!(measures[0].cost, cost(0, 0));
            }
            MeasureSet::Tainted(_) => assert!(fitting.is_empty()),
        }
    }
}

#[test]
fn line_breaks_are_found() {
    assert!(!has_line_break(""));
    assert!(!has_line_break("abc d"));
    assert!(has_line_break("\n"));
    assert!(has_line_break("ab\ncd"));
    assert!(has_line_break("héllo\n"));
}

#[test]
fn every_line_of_a_clean_layout_fits_the_page() {
    let mut arena: InternedMap<Document> = InternedMap::new();
    let open = arena.text("call(".to_string());
    let first = arena.text("first_argument,".to_string());
    let second = arena.text("second_argument".to_string());
    let close = arena.text(")".to_string());
    let newline = arena.newline();
    let space = arena.text(" ".to_string());
    let inline = arena.concat(vec![open, first, space, second, close]);
    let body = arena.concat(vec![newline, first, newline, second]);
    let nested = arena.nest(4, body);
    let broken = arena.concat(vec![open, nested, newline, close]);
    let call = arena.choice(inline, broken);
    let twice = arena.concat(vec![call, newline, call]);
    let document = arena.nest(2, twice);
    let mut clean = 0;
    for width in 0..60usize {
        let mut resolver: ChoicelessContext<Example3_5> = ChoicelessContext::new(&arena);
        let set = resolver.resolve_document(&config(width), &mut arena, PrintingContext::new(), document);
        if let MeasureSet::Clean(measures) = set {
            clean += 1;
            for measure in measures {
                let text = render(&arena, measure.document).ok().unwrap();
                for line in text.split('\n') {
                    assert!(line.len() <= width);
                }
                assert_eq!(measure.cost.overflow(), 0);
            }
        }
    }
    assert!(clean > 0);
}
