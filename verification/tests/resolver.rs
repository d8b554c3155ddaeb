use spadefmt::pretty_expressive::cost::{Cost, Example3_5};
use spadefmt::pretty_expressive::document::{Document, DocumentRef};
use spadefmt::pretty_expressive::interned_map::InternedMap;
use spadefmt::pretty_expressive::measure::{Measure, MeasureSet};
use spadefmt::pretty_expressive::resolve::{ChoicelessContext, PrintingConfig, PrintingContext};
use spadefmt::pretty_expressive::select::{select_layout, weigh};

fn show(arena: &InternedMap<Document>, key: DocumentRef) -> String {
    match arena.get(key) {
        Document::Text(text) => format!("Text({:?})", text),
        Document::Newline => "Newline".to_string(),
        Document::Concat(children) => {
            let parts: Vec<String> = children.iter().map(|child| show(arena, *child)).collect();
            format!("Concat([{}])", parts.join(", "))
        }
        Document::Nest { add_indent_amount, child } => {
            format!("Nest({}, {})", add_indent_amount, show(arena, *child))
        }
        Document::Flatten(child) => format!("Flatten({})", show(arena, *child)),
        Document::Union(first, second) => {
            format!("Union({}, {})", show(arena, *first), show(arena, *second))
        }
    }
}

fn config(max_width: usize) -> PrintingConfig {
    PrintingConfig { max_width, indent_amount: 4 }
}

fn resolve(
    arena: &mut InternedMap<Document>,
    max_width: usize,
    context: PrintingContext,
    key: DocumentRef,
) -> MeasureSet<Example3_5> {
    let mut resolver: ChoicelessContext<Example3_5> = ChoicelessContext::new(arena);
    resolver.resolve_document(&config(max_width), arena, context, key)
}

fn members(set: &MeasureSet<Example3_5>) -> Vec<(usize, u64, u64)> {
    let of = |m: &Measure<Example3_5>| (m.last_line_width, m.cost.overflow(), m.cost.height());
    match set {
        MeasureSet::Clean(measures) => measures.iter().map(of).collect(),
        MeasureSet::Tainted(measure) => vec![of(measure)],
    }
}

fn is_clean(set: &MeasureSet<Example3_5>) -> bool {
    matches!(set, MeasureSet::Clean(_))
}

#[test]
fn text_resolves_to_one_clean_measure() {
    let mut arena = InternedMap::new();
    let abc = arena.text("abc".to_string());
    let set = resolve(&mut arena, 80, PrintingContext::new(), abc);
    assert!(is_clean(&set));
    assert_eq!(members(&set), vec![(3, 0, 0)]);
    let chosen = set.select();
    assert_eq!(chosen.cost, Example3_5::for_text(0, 3, 80));
    assert_eq!(show(&arena, chosen.document), "Text(\"abc\")");
}

#[test]
fn choice_prefers_the_branch_that_fits() {
    let mut arena = InternedMap::new();
    let long = arena.text("aaaaaaaaaa".to_string());
    let half = arena.text("aaaaa".to_string());
    let newline = arena.newline();
    let broken = arena.concat(vec![half, newline, half]);
    let choice = arena.choice(long, broken);

    let alone = resolve(&mut arena, 6, PrintingContext::new(), long);
    assert!(!is_clean(&alone));
    assert_eq!(members(&alone), vec![(10, 16, 0)]);

    let other = resolve(&mut arena, 6, PrintingContext::new(), broken);
    assert!(is_clean(&other));
    assert_eq!(members(&other), vec![(5, 0, 1)]);

    let set = resolve(&mut arena, 6, PrintingContext::new(), choice);
    assert!(is_clean(&set));
    assert_eq!(members(&set), vec![(5, 0, 1)]);
    let chosen = set.select();
    assert_eq!(
        show(&arena, chosen.document),
        "Concat([Concat([Text(\"aaaaa\"), Newline]), Text(\"aaaaa\")])"
    );
}

#[test]
fn nest_indents_the_line_after_a_break() {
    let mut arena = InternedMap::new();
    let newline = arena.newline();
    let x = arena.text("x".to_string());
    let body = arena.concat(vec![newline, x]);
    let nest = arena.nest(4, body);
    let set = resolve(&mut arena, 80, PrintingContext::new(), nest);
    assert!(is_clean(&set));
    assert_eq!(members(&set), vec![(5, 0, 1)]);
    let chosen = set.select();
    assert_eq!(show(&arena, chosen.document), "Nest(4, Concat([Newline, Text(\"x\")]))");
}

#[test]
fn flatten_lays_a_break_out_as_a_space() {
    let mut arena = InternedMap::new();
    let a = arena.text("a".to_string());
    let newline = arena.newline();
    let b = arena.text("b".to_string());
    let body = arena.concat(vec![a, newline, b]);
    let flat = arena.flatten(body);
    let set = resolve(&mut arena, 80, PrintingContext::new(), flat);
    assert!(is_clean(&set));
    assert_eq!(members(&set), vec![(3, 0, 0)]);

    let text = arena.text("a b".to_string());
    let same = resolve(&mut arena, 80, PrintingContext::new(), text);
    assert_eq!(members(&same), members(&set));
}

#[test]
fn of_two_fitting_branches_the_narrower_is_selected() {
    let mut arena = InternedMap::new();
    let wide = arena.text("aa".to_string());
    let narrow = arena.text("a".to_string());
    let choice = arena.choice(wide, narrow);
    let set = resolve(&mut arena, 80, PrintingContext::new(), choice);
    assert!(is_clean(&set));
    assert_eq!(members(&set), vec![(1, 0, 0)]);
    assert_eq!(show(&arena, set.select().document), "Text(\"a\")");
}

fn three_choices(arena: &mut InternedMap<Document>) -> DocumentRef {
    let mut parts = Vec::new();
    for letter in ["a", "b", "c"] {
        let long = arena.text(letter.repeat(4));
        let short = arena.text(letter.to_string());
        parts.push(arena.choice(long, short));
    }
    arena.concat(parts)
}

#[test]
fn the_one_fitting_combination_of_three_choices_is_found() {
    let mut arena = InternedMap::new();
    let document = three_choices(&mut arena);
    let set = resolve(&mut arena, 3, PrintingContext::new(), document);
    assert!(is_clean(&set));
    assert_eq!(members(&set), vec![(3, 0, 0)]);
    assert_eq!(
        show(&arena, set.select().document),
        "Concat([Concat([Text(\"a\"), Text(\"b\")]), Text(\"c\")])"
    );
}

#[test]
fn no_fitting_combination_gives_a_tainted_fallback() {
    let mut arena = InternedMap::new();
    let document = three_choices(&mut arena);
    let set = resolve(&mut arena, 2, PrintingContext::new(), document);
    assert!(!is_clean(&set));
    assert_eq!(members(&set).len(), 1);
}

#[test]
fn clean_sets_are_strictly_ordered_frontiers() {
    let mut arena = InternedMap::new();
    let mut parts = Vec::new();
    for width in [9usize, 7, 5] {
        let long = arena.text("x".repeat(width));
        let half = arena.text("x".repeat(width / 2));
        let newline = arena.newline();
        let broken = arena.concat(vec![half, newline, half]);
        parts.push(arena.choice(long, broken));
    }
    let document = arena.concat(parts);
    let set = resolve(&mut arena, 30, PrintingContext::new(), document);
    assert!(is_clean(&set));
    let all = members(&set);
    assert!(all.len() >= 2);
    for pair in all.windows(2) {
        assert!(pair[0].0 > pair[1].0);
        assert!((pair[0].1, pair[0].2) < (pair[1].1, pair[1].2));
    }
    for member in &all {
        assert!(member.0 <= 30);
    }
}

#[test]
fn select_layout_picks_the_cheapest_layout_from_the_start_of_a_page() {
    let mut arena = InternedMap::new();
    let long = arena.text("aaaaaaaaaa".to_string());
    let half = arena.text("aaaaa".to_string());
    let newline = arena.newline();
    let broken = arena.concat(vec![half, newline, half]);
    let choice = arena.choice(long, broken);
    assert_eq!(weigh(&arena, choice), Some(21));
    let chosen: Measure<Example3_5> = select_layout(&config(6), &mut arena, choice).unwrap();
    assert_eq!((chosen.last_line_width, chosen.cost.overflow(), chosen.cost.height()), (5, 0, 1));
    let wide: Measure<Example3_5> = select_layout(&config(60), &mut arena, choice).unwrap();
    assert_eq!((wide.last_line_width, wide.cost.overflow(), wide.cost.height()), (10, 0, 0));
    assert_eq!(show(&arena, wide.document), "Text(\"aaaaaaaaaa\")");
}
