use std::fmt;

use spadefmt::config::{
    bytes_of, decimal_string, signed_decimal_string, string16, to_string, BoundedConfigUsize,
    BoundedIntegerParseError, ColourMode, Config, FunctionSignatureStyle, CHARACTER_COUNT,
};
use spadefmt::document::{Document, DocumentIdx, InternedDocumentStore};
use spadefmt::document_builder::{BuildAsDocument, DocumentBuilder};
use spadefmt::print::{can_print, debug_print, is_complete, print_resolved, RenderError};
use spadefmt::resolve_try_catch::{resolve_try_catch, try_resolve_try_catch, PrintingContext};

struct Printed<'a> {
    store: &'a InternedDocumentStore,
    idx: DocumentIdx,
    indent: usize,
    flattened: bool,
}

impl fmt::Display for Printed<'_> {
    fn fmt(&self, f: &mut fmt::Formatter<'_>) -> fmt::Result {
        let mut writer = inform::fmt::IndentFormatter::new(f, self.indent);
        match print_resolved(self.store, &mut writer, self.idx, self.flattened) {
            Ok(()) => Ok(()),
            Err(RenderError::InvariantViolation) => f.write_str("<invariant violation>"),
            Err(RenderError::Writer(error)) => Err(error),
        }
    }
}

struct Debugged<'a> {
    store: &'a InternedDocumentStore,
    idx: DocumentIdx,
    indent: usize,
}

impl fmt::Display for Debugged<'_> {
    fn fmt(&self, f: &mut fmt::Formatter<'_>) -> fmt::Result {
        let mut writer = inform::fmt::IndentFormatter::new(f, self.indent);
        match debug_print(self.store, &mut writer, self.idx) {
            Ok(()) => Ok(()),
            Err(RenderError::InvariantViolation) => f.write_str("<invariant violation>"),
            Err(RenderError::Writer(error)) => Err(error),
        }
    }
}

fn print(store: &InternedDocumentStore, idx: DocumentIdx) -> String {
    format!("{}", Printed { store, idx, indent: 4, flattened: false })
}

fn debug(store: &InternedDocumentStore, idx: DocumentIdx) -> String {
    format!("{}", Debugged { store, idx, indent: 2 })
}

fn pair_group(builder: &mut DocumentBuilder) -> DocumentIdx {
    let a = builder.text("a".to_string());
    let b = builder.text("b".to_string());
    builder.group_built("(".to_string(), vec![a, b], Some(","), ")".to_string())
}

#[test]
fn store_interns_equal_documents_once() {
    let mut store = InternedDocumentStore::default();
    let first = store.add(Document::Text("a".to_string()));
    let second = store.add(Document::Newline);
    let again = store.add(Document::Text("a".to_string()));
    assert_eq!(first.index(), 0);
    assert_eq!(second.index(), 1);
    assert_eq!(again.index(), 0);
    assert_eq!(store.len(), 2);
    assert!(matches!(store.get(first), Document::Text(text) if text == "a"));
    assert!(store.is_valid());
}

#[test]
fn get_mut_changes_a_document_in_place() {
    let mut store = InternedDocumentStore::default();
    let first = store.add(Document::Text("a".to_string()));
    *store.get_mut(first) = Document::Nest(DocumentIdx::at(3), 4);
    assert!(matches!(store.get(first), Document::Nest(body, 4) if body.index() == 3));
    assert!(!store.is_valid());
    assert!(!can_print(&store, first));
    assert!(!is_complete(&store, first));
    assert_eq!(print(&store, first), "<invariant violation>");
    assert_eq!(debug(&store, first), "<invariant violation>");
}

#[test]
fn a_group_that_fits_stays_on_one_line() {
    let mut builder = DocumentBuilder::new(4);
    let group = pair_group(&mut builder);
    let mut store = builder.into_store();
    assert!(!can_print(&store, group));
    let mut context = PrintingContext::new(80);
    let resolved = resolve_try_catch(&mut store, group, &mut context);
    assert!(can_print(&store, resolved));
    assert!(!context.is_tainted());
    assert_eq!(context.column(), 6);
    assert_eq!(print(&store, resolved), "(a, b)");
}

#[test]
fn a_group_that_does_not_fit_is_nested() {
    let mut builder = DocumentBuilder::new(4);
    let group = pair_group(&mut builder);
    let mut store = builder.into_store();
    let mut context = PrintingContext::new(3);
    let resolved = resolve_try_catch(&mut store, group, &mut context);
    assert!(can_print(&store, resolved));
    assert_eq!(print(&store, resolved), "(\n    a,\n    b,\n)");
    assert_eq!(context.column(), 1);
    assert_eq!(context.current_indent(), 0);
}

#[test]
fn an_inner_trial_is_not_caught_inside_an_outer_trial() {
    let mut builder = DocumentBuilder::new(2);
    let long = builder.text("xxxxxxxx".to_string());
    let short = builder.text("y".to_string());
    let inner = builder.try_catch(long, short);
    let fallback = builder.text("z".to_string());
    let outer = builder.try_catch(inner, fallback);
    let mut store = builder.into_store();

    let mut context = PrintingContext::new(4);
    let alone = resolve_try_catch(&mut store, inner, &mut context);
    assert_eq!(print(&store, alone), "y");

    let mut context = PrintingContext::new(4);
    let resolved = resolve_try_catch(&mut store, outer, &mut context);
    assert_eq!(print(&store, resolved), "z");
    assert!(!context.is_tainted());
}

#[test]
fn a_walk_past_the_machine_word_gives_nothing() {
    let mut builder = DocumentBuilder::new(4);
    let text = builder.text("abc".to_string());
    let out = builder.nest(text, -1);
    let mut store = builder.into_store();
    let mut context = PrintingContext::new(80);
    assert!(try_resolve_try_catch(&mut store, out, &mut context).is_none());
    let mut context = PrintingContext::new(80);
    let walked = try_resolve_try_catch(&mut store, text, &mut context).unwrap();
    assert_eq!(walked.index(), text.index());
    assert_eq!(context.column(), 3);
}

#[test]
fn printing_flattens_and_nests() {
    let mut builder = DocumentBuilder::new(4);
    let a = builder.text("a".to_string());
    let newline = builder.newline();
    let b = builder.text("b".to_string());
    let lines = builder.list(vec![a, newline, b]);
    let nested = builder.nest(lines, 4);
    let unnested = builder.nest(lines, 0);
    let lifted = builder.nest(lines, -4);
    let deep = builder.nest(lifted, 4);
    let flat = builder.flatten(nested);
    let empty = builder.list(vec![]);
    let store = builder.into_store();
    assert_eq!(print(&store, lines), "a\nb");
    assert_eq!(print(&store, nested), "a\n    b");
    assert_eq!(print(&store, unnested), "a\nb");
    assert_eq!(print(&store, lifted), "a\nb");
    assert_eq!(print(&store, deep), "a\nb");
    assert_eq!(print(&store, flat), "a b");
    assert_eq!(print(&store, empty), "");
    assert_eq!(
        format!("{}", Printed { store: &store, idx: lines, indent: 4, flattened: true }),
        "a b"
    );
    assert_eq!(
        format!("{}", Printed { store: &store, idx: nested, indent: 2, flattened: false }),
        "a\n  b"
    );
}

#[test]
fn printing_refuses_a_try_catch_and_a_missing_key() {
    let mut builder = DocumentBuilder::new(4);
    let a = builder.text("a".to_string());
    let b = builder.text("b".to_string());
    let choice = builder.try_catch(a, b);
    let list = builder.list(vec![a, choice]);
    let store = builder.into_store();
    assert!(!can_print(&store, choice));
    assert!(!can_print(&store, list));
    assert!(!can_print(&store, DocumentIdx::at(99)));
    assert!(is_complete(&store, list));
    assert!(!is_complete(&store, DocumentIdx::at(99)));
    assert_eq!(print(&store, list), "<invariant violation>");
    assert_eq!(print(&store, DocumentIdx::at(99)), "<invariant violation>");
}

#[test]
fn debug_print_shows_the_structure() {
    let mut builder = DocumentBuilder::new(4);
    let a = builder.text("a".to_string());
    let newline = builder.newline();
    let list = builder.list(vec![a, newline]);
    let nest = builder.nest(list, -3);
    let flat = builder.flatten(a);
    let choice = builder.try_catch(nest, flat);
    let empty = builder.list(vec![]);
    let store = builder.into_store();
    assert_eq!(debug(&store, a), "Text(\"a\")");
    assert_eq!(debug(&store, newline), "Newline");
    assert_eq!(debug(&store, empty), "");
    assert_eq!(debug(&store, list), "List(\n  Text(\"a\"),\n  Newline,\n)");
    assert_eq!(debug(&store, flat), "Flatten(\n  Text(\"a\")\n)");
    assert_eq!(
        debug(&store, nest),
        "Nest(\n  List(\n    Text(\"a\"),\n    Newline,\n  ),\n  -3\n)"
    );
    assert_eq!(
        debug(&store, choice),
        "TryCatch(\n  Nest(\n    List(\n      Text(\"a\"),\n      Newline,\n    ),\n    -3\n  ),\n  Flatten(\n    Text(\"a\")\n  ),\n)"
    );
}

struct Word(&'static str);

impl BuildAsDocument for Word {
    fn build(&self, builder: &mut DocumentBuilder) -> DocumentIdx {
        builder.text(self.0.to_string())
    }
}

#[test]
fn groups_are_built_from_what_can_be_built() {
    let mut builder = DocumentBuilder::new(2);
    let group = builder.group("[".to_string(), &vec![Word("x"), Word("y"), Word("z")], None, "]".to_string());
    let (flat, nested) = builder.group_raw(&vec![Word("p"), Word("q")], Some(";"));
    let key = builder.text("k".to_string());
    let kept = key.build(&mut builder);
    assert_eq!(kept.index(), key.index());
    let mut store = builder.into_store();
    assert_eq!(print(&store, flat), "p; q");
    assert_eq!(print(&store, nested), "\n    p;\n    q\n");

    let mut wide = PrintingContext::new(80);
    let on_one_line = resolve_try_catch(&mut store, group, &mut wide);
    assert_eq!(print(&store, on_one_line), "[xyz]");
    let mut narrow = PrintingContext::new(2);
    let on_lines = resolve_try_catch(&mut store, group, &mut narrow);
    assert_eq!(print(&store, on_lines), "[\n    xyz\n]");
}

#[test]
fn string16_packs_the_first_byte_lowest() {
    assert_eq!(string16(""), 0);
    assert_eq!(string16("a"), 0x61);
    assert_eq!(string16("ab"), 0x6261);
    assert_eq!(string16("character count"), CHARACTER_COUNT);
    assert_eq!(string16("0123456789abcdef"), 0x66656463626139383736353433323130);
}

#[test]
fn to_string_unpacks_as_far_as_the_first_zero_byte() {
    assert_eq!(to_string(0), "");
    assert_eq!(to_string(0x6261), "ab");
    assert_eq!(to_string(0x62_00_61), "a");
    assert_eq!(to_string(CHARACTER_COUNT), "character count");
    assert_eq!(to_string(string16("0123456789abcdef")), "0123456789abcdef");
    assert_eq!(to_string(string16("héllo")), "héllo");
    assert_eq!(to_string(0xff), "\u{fffd}");
    assert_eq!(bytes_of(0x6261), vec![0x61, 0x62]);
}

#[test]
fn decimal_strings() {
    assert_eq!(decimal_string(0), "0");
    assert_eq!(decimal_string(7), "7");
    assert_eq!(decimal_string(100), "100");
    assert_eq!(decimal_string(usize::MAX), usize::MAX.to_string());
    assert_eq!(signed_decimal_string(-3), "-3");
    assert_eq!(signed_decimal_string(42), "42");
    assert_eq!(signed_decimal_string(isize::MIN), isize::MIN.to_string());
}

#[test]
fn bounded_settings_refuse_what_breaks_a_bound() {
    type Small = BoundedConfigUsize<1, 5, 1, CHARACTER_COUNT>;
    assert_eq!(Small::default().get(), 1);
    assert_eq!(Small::try_from(3).ok().map(|setting| setting.get()), Some(3));
    assert_eq!(Small::try_from(1).ok().map(|setting| setting.get()), Some(1));
    assert_eq!(Small::try_from(5).ok().map(|setting| setting.get()), Some(5));
    match Small::try_from(0) {
        Err(error) => {
            assert!(matches!(error, BoundedIntegerParseError::TooLow(CHARACTER_COUNT, 0, 1)));
            assert_eq!(
                error.message(),
                "cannot have character count of 0: 1 is the minimum allowed"
            );
        }
        Ok(_) => panic!("0 lies below the lower bound"),
    }
    match Small::try_from(6) {
        Err(error) => {
            assert!(matches!(error, BoundedIntegerParseError::TooHigh(CHARACTER_COUNT, 6, 5)));
            assert_eq!(
                error.message(),
                "cannot have character count of 6: 5 is the maximum allowed"
            );
        }
        Ok(_) => panic!("6 lies above the upper bound"),
    }
}

#[test]
fn the_default_settings() {
    let config = Config::default();
    assert_eq!(config.max_width.get(), 100);
    assert_eq!(config.indent.get(), 4);
    assert!(matches!(config.colour_mode, ColourMode::Auto));
    assert!(matches!(FunctionSignatureStyle::default(), FunctionSignatureStyle::Tall));
    assert!(ColourMode::Auto.colours(true));
    assert!(!ColourMode::Auto.colours(false));
    assert!(ColourMode::Always.colours(false));
    assert!(!ColourMode::Never.colours(true));
}

#[test]
fn a_document_without_text_prints_nothing() {
    let mut builder = DocumentBuilder::new(4);
    let nothing = builder.text(String::new());
    let empty = builder.list(vec![]);
    let both = builder.list(vec![nothing, empty]);
    let nest = builder.nest(both, 2);
    let flat = builder.flatten(nest);
    let store = builder.into_store();
    assert!(can_print(&store, flat));
    assert_eq!(print(&store, flat), "");
    assert_eq!(print(&store, nothing), "");
    assert_eq!(debug(&store, empty), "");
}
