use std::fmt;

use spadefmt::cli::wants_version;
use spadefmt::config::{ColourMode, Config};
use spadefmt::format_stream::{CommitableFormatStream, FormatStream, HighlightGroup};
use spadefmt::format_streams::ThemeSlot;
use spadefmt::render::{Context, EnclosedRenderStyle, RenderInContext};
use spadefmt::with_context::{contextual_message, ProduceString, WithContext};

#[derive(Default)]
struct Recorder {
    events: Vec<String>,
    fail_on: Option<usize>,
}

impl Recorder {
    fn record(&mut self, event: String) -> fmt::Result {
        if self.fail_on == Some(self.events.len()) {
            return Err(fmt::Error);
        }
        self.events.push(event);
        Ok(())
    }

    fn text(&self) -> String {
        self.events.join("")
    }
}

fn name(group: HighlightGroup) -> &'static str {
    match group {
        HighlightGroup::Plain => "plain",
        HighlightGroup::Identifier => "identifier",
        HighlightGroup::Keyword => "keyword",
        HighlightGroup::NonterminalPathSegment => "nonterminal",
        HighlightGroup::TerminalPathSegment => "terminal",
        HighlightGroup::TypeName => "type",
        HighlightGroup::Literal => "literal",
        HighlightGroup::Symbol => "symbol",
        HighlightGroup::Attribute => "attribute",
    }
}

impl FormatStream for Recorder {
    fn indent(&mut self) -> fmt::Result {
        self.record(">".to_string())
    }

    fn dedent(&mut self) -> fmt::Result {
        self.record("<".to_string())
    }

    fn newline(&mut self) -> fmt::Result {
        self.record("\n".to_string())
    }

    fn process_code(&mut self, code: &str, _highlight_group: HighlightGroup) -> fmt::Result {
        self.record(code.to_string())
    }
}

#[derive(Default)]
struct Roles(Vec<(String, &'static str)>);

impl FormatStream for Roles {
    fn indent(&mut self) -> fmt::Result {
        Ok(())
    }

    fn dedent(&mut self) -> fmt::Result {
        Ok(())
    }

    fn newline(&mut self) -> fmt::Result {
        Ok(())
    }

    fn process_code(&mut self, code: &str, highlight_group: HighlightGroup) -> fmt::Result {
        self.0.push((code.to_string(), name(highlight_group)));
        Ok(())
    }
}

#[test]
fn the_roles_of_the_pieces_of_code() {
    let mut roles = Roles::default();
    roles.identifier("x").unwrap();
    roles.keyword("fn").unwrap();
    roles.nonterminal_segment("std").unwrap();
    roles.terminal_segment("mem").unwrap();
    roles.name_of_type("T").unwrap();
    roles.literal("1").unwrap();
    roles.symbol("(").unwrap();
    roles.space().unwrap();
    roles.attribute("inline").unwrap();
    let expected = vec![
        ("x", "identifier"),
        ("fn", "keyword"),
        ("std", "nonterminal"),
        ("mem", "terminal"),
        ("T", "type"),
        ("1", "literal"),
        ("(", "literal"),
        (" ", "plain"),
        ("#", "attribute"),
        ("[", "literal"),
        ("inline", "attribute"),
        ("]", "literal"),
    ];
    let got: Vec<(&str, &str)> = roles.0.iter().map(|(code, role)| (code.as_str(), *role)).collect();
    assert_eq!(got, expected);
}

#[test]
fn a_committing_stream_keeps_the_width_of_each_line() {
    let mut recorder = Recorder::default();
    let mut stream = CommitableFormatStream::new_with_config(&mut recorder, 4, 10);
    assert_eq!(stream.current_width(), 1);
    assert!(stream.is_committing());
    stream.process_code("abc", HighlightGroup::Plain).unwrap();
    assert_eq!(stream.current_width(), 4);
    stream.indent().unwrap();
    stream.newline().unwrap();
    assert_eq!(stream.current_width(), 0);
    stream.process_code("de", HighlightGroup::Keyword).unwrap();
    assert_eq!(stream.current_width(), 6);
    stream.process_code("f", HighlightGroup::Keyword).unwrap();
    assert_eq!(stream.current_width(), 7);
    stream.dedent().unwrap();
    assert!(stream.dedent().is_err());
    assert!(!stream.width_limit_failure());
    assert_eq!(recorder.text(), "abc>\ndef<");
}

#[test]
fn a_stream_that_does_not_commit_notes_a_line_that_is_too_wide() {
    let mut recorder = Recorder::default();
    let mut stream = CommitableFormatStream::new_with_config(&mut recorder, 2, 5);
    stream.process_code("ab", HighlightGroup::Plain).unwrap();
    let mark = stream.push_mark();
    stream.disable_commit();
    assert!(!stream.is_committing());
    stream.process_code("cd", HighlightGroup::Plain).unwrap();
    assert!(!stream.width_limit_failure());
    assert_eq!(stream.current_width(), 5);
    stream.newline().unwrap();
    stream.process_code("e", HighlightGroup::Plain).unwrap();
    assert!(!stream.width_limit_failure());
    stream.process_code("fghij", HighlightGroup::Plain).unwrap();
    assert!(stream.width_limit_failure());
    assert_eq!(stream.current_width(), 6);
    stream.return_to_mark(mark);
    assert!(stream.is_committing());
    assert!(!stream.width_limit_failure());
    assert_eq!(stream.current_width(), 3);
    stream.disable_commit();
    stream.indent().unwrap();
    assert!(!stream.width_limit_failure());
    stream.process_code("xyz", HighlightGroup::Plain).unwrap();
    assert!(stream.width_limit_failure());
    stream.enable_commit();
    assert!(!stream.width_limit_failure());
    assert!(stream.is_committing());
    assert_eq!(recorder.text(), "ab");
}

#[test]
fn a_failure_of_the_stream_below_is_handed_on() {
    let mut recorder = Recorder { events: Vec::new(), fail_on: Some(1) };
    let mut stream = CommitableFormatStream::new_with_config(&mut recorder, 2, 5);
    assert!(stream.process_code("a", HighlightGroup::Plain).is_ok());
    assert!(stream.process_code("b", HighlightGroup::Plain).is_err());
    assert_eq!(recorder.text(), "a");
}

struct Word(&'static str);

impl RenderInContext for Word {
    fn render_in_context<F: FormatStream>(&self, context: &mut Context<'_, '_, F>) -> fmt::Result {
        context.stream().identifier(self.0)
    }
}

#[test]
fn enclosed_parts_on_a_line_and_on_lines_of_their_own() {
    let config = Config::default();
    let words = vec![Word("a"), Word("b"), Word("c")];

    let mut recorder = Recorder::default();
    let mut context = Context::new(&mut recorder, &config);
    context
        .render_enclosed(Some("("), Some(")"), &words, Some(","), EnclosedRenderStyle::Line, false, true)
        .unwrap();
    assert_eq!(recorder.text(), "(a, b, c)");

    let mut recorder = Recorder::default();
    let mut context = Context::new(&mut recorder, &config);
    context
        .render_enclosed(Some("("), Some(")"), &words, Some("+"), EnclosedRenderStyle::Line, true, false)
        .unwrap();
    assert_eq!(recorder.text(), "(a + b + c)");

    let mut recorder = Recorder::default();
    let mut context = Context::new(&mut recorder, &config);
    context
        .render_enclosed(None, None, &words, None, EnclosedRenderStyle::Line, false, false)
        .unwrap();
    assert_eq!(recorder.text(), "a b c");

    let mut recorder = Recorder::default();
    let mut context = Context::new(&mut recorder, &config);
    context
        .render_enclosed(Some("{"), Some("}"), &words, Some(","), EnclosedRenderStyle::Tall, false, true)
        .unwrap();
    assert_eq!(recorder.text(), "{>\na,\nb,\nc,\n<}");

    let mut recorder = Recorder::default();
    let mut context = Context::new(&mut recorder, &config);
    context
        .render_enclosed(Some("{"), Some("}"), &words, Some(","), EnclosedRenderStyle::Tall, false, false)
        .unwrap();
    assert_eq!(recorder.text(), "{>\na,\nb,\nc\n<}");
}

#[test]
fn enclosed_parts_go_on_a_line_where_they_fit() {
    let words = vec![Word("alpha"), Word("beta"), Word("gamma")];
    let wide = Config::default();
    let mut recorder = Recorder::default();
    let mut context = Context::new(&mut recorder, &wide);
    context.render_enclosed_auto(Some("("), Some(")"), &words, Some(","), false, true).unwrap();
    assert_eq!(recorder.text(), "(alpha, beta, gamma)");

    let narrow = Config {
        max_width: spadefmt::config::BoundedConfigUsize::try_from(10).ok().unwrap(),
        indent: spadefmt::config::BoundedConfigUsize::try_from(2).ok().unwrap(),
        colour_mode: ColourMode::Never,
    };
    let mut recorder = Recorder::default();
    let mut context = Context::new(&mut recorder, &narrow);
    context.render_enclosed_auto(Some("("), Some(")"), &words, Some(","), false, true).unwrap();
    assert_eq!(recorder.text(), "(>\nalpha,\nbeta,\ngamma,\n<)");

    let mut recorder = Recorder::default();
    let mut context = Context::new(&mut recorder, &narrow);
    assert_eq!(context.try_commit(&Word("short")), Ok(true));
    assert_eq!(context.try_commit(&Word("much too long")), Ok(false));
    assert_eq!(context.config().indent.get(), 2);
    assert_eq!(recorder.text(), "short");
}

#[test]
fn messages_in_context() {
    assert_eq!(
        contextual_message("reading the file", "not found"),
        "Error: reading the file\n\nCaused by:\n    not found"
    );
    let failed: Result<u8, String> = Err("not found".to_string());
    assert_eq!(
        failed.with_context("reading"),
        Err("Error: reading\n\nCaused by:\n    not found".to_string())
    );
    let fine: Result<u8, String> = Ok(3);
    assert_eq!(fine.with_context("reading".to_string()), Ok(3));
    assert_eq!("x".produce_string(), "x");
    assert_eq!("y".to_string().produce_string(), "y");
}

#[test]
fn the_style_of_self_is_its_own() {
    assert!(matches!(ThemeSlot::color_for("self", HighlightGroup::Keyword), ThemeSlot::SelfRelated));
    assert!(matches!(ThemeSlot::color_for("fn", HighlightGroup::Keyword), ThemeSlot::Keyword));
    assert!(matches!(ThemeSlot::color_for("Self", HighlightGroup::TypeName), ThemeSlot::SelfRelated));
    assert!(matches!(ThemeSlot::color_for("self", HighlightGroup::TypeName), ThemeSlot::TypeName));
    assert!(matches!(ThemeSlot::color_for("self", HighlightGroup::Identifier), ThemeSlot::Identifier));
    assert!(matches!(ThemeSlot::color_for(" ", HighlightGroup::Plain), ThemeSlot::Reset));
    assert!(matches!(ThemeSlot::color_for("(", HighlightGroup::Symbol), ThemeSlot::Symbol));
    assert!(matches!(ThemeSlot::color_for("1", HighlightGroup::Literal), ThemeSlot::Literal));
    assert!(matches!(ThemeSlot::color_for("#", HighlightGroup::Attribute), ThemeSlot::Attribute));
    assert!(matches!(
        ThemeSlot::color_for("a", HighlightGroup::NonterminalPathSegment),
        ThemeSlot::NonterminalPathSegment
    ));
    assert!(matches!(
        ThemeSlot::color_for("b", HighlightGroup::TerminalPathSegment),
        ThemeSlot::TerminalPathSegment
    ));
}

#[test]
fn the_version_is_asked_for_by_one_flag_alone() {
    let args = |list: &[&str]| list.iter().map(|arg| arg.to_string()).collect::<Vec<String>>();
    assert!(wants_version(&args(&["spadefmt", "-v"])));
    assert!(wants_version(&args(&["spadefmt", "--version"])));
    assert!(!wants_version(&args(&["spadefmt"])));
    assert!(!wants_version(&args(&["spadefmt", "-v", "file"])));
    assert!(!wants_version(&args(&["spadefmt", "file"])));
}

struct Shout(&'static str);

impl ProduceString for Shout {
    fn produce_string(&self) -> String {
        self.0.to_uppercase()
    }
}

#[test]
fn a_context_of_ones_own_making() {
    let failed: Result<u8, String> = Err("gone".to_string());
    assert_eq!(
        failed.with_context(Shout("reading")),
        Err("Error: READING\n\nCaused by:\n    gone".to_string())
    );
}

#[test]
fn a_list_without_parts_is_its_frame() {
    let config = Config::default();
    let none: Vec<Word> = Vec::new();

    let mut recorder = Recorder::default();
    let mut context = Context::new(&mut recorder, &config);
    context
        .render_enclosed(Some("("), Some(")"), &none, Some(","), EnclosedRenderStyle::Line, false, true)
        .unwrap();
    assert_eq!(recorder.text(), "()");

    let mut recorder = Recorder::default();
    let mut context = Context::new(&mut recorder, &config);
    context
        .render_enclosed(Some("{"), Some("}"), &none, Some(","), EnclosedRenderStyle::Tall, false, true)
        .unwrap();
    assert_eq!(recorder.text(), "{>\n,\n<}");

    let mut recorder = Recorder::default();
    let mut context = Context::new(&mut recorder, &config);
    context
        .render_enclosed(Some("{"), Some("}"), &none, Some(","), EnclosedRenderStyle::Tall, false, false)
        .unwrap();
    assert_eq!(recorder.text(), "{>\n\n<}");

    let mut recorder = Recorder::default();
    let mut context = Context::new(&mut recorder, &config);
    context.render_enclosed_auto(Some("["), Some("]"), &none, Some(","), false, true).unwrap();
    assert_eq!(recorder.text(), "[]");
}

#[test]
fn a_stream_that_hands_nothing_on_takes_a_list_that_the_stream_below_refuses() {
    let config = Config::default();
    let none: Vec<Word> = Vec::new();
    let mut recorder = Recorder { events: Vec::new(), fail_on: Some(0) };
    let mut context = Context::new(&mut recorder, &config);
    context.stream().disable_commit();
    assert!(context
        .render_enclosed(Some("("), Some(")"), &none, None, EnclosedRenderStyle::Tall, false, true)
        .is_ok());
    assert_eq!(context.stream().current_width(), 1);
    context.stream().enable_commit();
    assert!(context
        .render_enclosed(Some("("), Some(")"), &none, None, EnclosedRenderStyle::Line, false, true)
        .is_err());
    assert_eq!(recorder.text(), "");
}

#[test]
fn an_attribute_ends_at_the_first_piece_that_fails() {
    let mut recorder = Recorder { events: Vec::new(), fail_on: Some(2) };
    assert!(recorder.attribute("inline").is_err());
    assert_eq!(recorder.events, vec!["#".to_string(), "[".to_string()]);

    let mut recorder = Recorder::default();
    assert!(recorder.attribute("inline").is_ok());
    assert_eq!(recorder.text(), "#[inline]");
}

#[test]
fn a_failure_after_a_trial_is_handed_on() {
    let config = Config::default();
    let mut recorder = Recorder { events: Vec::new(), fail_on: Some(0) };
    let mut context = Context::new(&mut recorder, &config);
    assert!(context.try_commit(&Word("a")).is_err());
    assert_eq!(recorder.text(), "");
}
