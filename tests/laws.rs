use synless::boundset::BoundSet;
use synless::document::{layouts_of, pretty_print, Doc, PrettyError};
use synless::geometry::Bound;
use synless::layout::text_bounds;
use synless::notation::{child, choice, flush, horz, literal, no_wrap, text, vert, Notation};
use synless::notationset::{Language, NotationSet};
use synless::pretty::PlainText;
use synless::style::Style;

fn lit(s: &str) -> Notation {
    literal(s, Style::plain())
}

fn b(width: u32, indent: u32, height: u32) -> Bound {
    Bound { width, indent, height }
}

fn one_notation(name: &str, n: Notation) -> NotationSet {
    NotationSet::new(&Language::new("Laws"), vec![(name.to_string(), n)])
}

fn render(doc: &Doc, ns: &NotationSet, width: usize) -> Result<String, PrettyError> {
    let mut screen = PlainText::new(width);
    pretty_print(doc, ns, &mut screen).map(|_| screen.contents())
}

#[test]
fn concat_is_associative_with_identity() {
    let x = b(4, 2, 1);
    let y = b(3, 3, 0);
    let z = b(5, 1, 2);
    assert_eq!(x.concat(y).concat(z), x.concat(y.concat(z)));
    assert_eq!(x.concat(y), b(5, 5, 1));
    assert_eq!(Bound::empty().concat(x), x);
    assert_eq!(x.concat(Bound::empty()), x);
}

#[test]
fn flush_and_literal_bounds() {
    assert_eq!(b(4, 2, 1).flush(), b(4, 0, 2));
    assert_eq!(text_bounds("Schrödinger").first(), b(11, 11, 0));
}

#[test]
fn pareto_insertion() {
    let mut set: BoundSet<u32> = BoundSet::new();
    set.insert(b(5, 5, 0), 1);
    set.insert(b(6, 6, 0), 2); // dominated: dropped
    assert_eq!(set.len(), 1);
    set.insert(b(3, 1, 1), 3); // narrower but taller: kept
    assert_eq!(set.len(), 2);
    set.insert(b(2, 2, 0), 4); // dominates both
    assert_eq!(set.len(), 1);
    assert_eq!(set.first(), b(2, 2, 0));
    set.insert(b(2, 0, 0), 5); // same width and height: the first one stays
    assert_eq!(set.len(), 1);
    assert_eq!(*set.value(0), 4);
}

#[test]
fn selection_prefers_fewer_lines_then_narrower() {
    let mut set: BoundSet<char> = BoundSet::new();
    set.insert(b(10, 10, 0), 'a');
    set.insert(b(6, 3, 1), 'b');
    set.insert(b(4, 2, 3), 'c');
    assert_eq!(*set.fit_width(80), 'a');
    assert_eq!(*set.fit_width(10), 'a');
    assert_eq!(*set.fit_width(9), 'b');
    assert_eq!(*set.fit_width(4), 'c');
    // nothing fits: the narrowest
    assert_eq!(*set.fit_width(2), 'c');
}

#[test]
fn selected_height_never_grows_with_width() {
    let ns = one_notation(
        "f",
        choice(
            horz(lit("abcdef"), lit("ghijkl")),
            choice(vert(lit("abcdef"), lit("ghijkl")), vert(vert(lit("abc"), lit("def")), lit("gh"))),
        ),
    );
    let doc = Doc::new_branch("f", vec![]);
    let layouts = layouts_of(&doc, &ns).unwrap();
    let mut last = u32::MAX;
    for w in 0..20u32 {
        let h = layouts.bound(layouts.pick(w)).height;
        assert!(h <= last);
        last = h;
    }
    assert_eq!(layouts.bound(layouts.pick(12)).height, 0);
    assert_eq!(layouts.bound(layouts.pick(6)).height, 1);
    assert_eq!(layouts.bound(layouts.pick(3)).height, 2);
}

#[test]
fn single_line_round_trip() {
    let ns = one_notation("kw", horz(horz(lit("let"), lit(" ")), lit("x = 1")));
    let doc = Doc::new_branch("kw", vec![]);
    assert_eq!(render(&doc, &ns, 80).unwrap(), "let x = 1");
    assert_eq!(render(&doc, &ns, 9).unwrap(), "let x = 1");
}

#[test]
fn unknown_construct_is_an_error() {
    let ns = one_notation("kw", lit("a"));
    let doc = Doc::new_branch("other", vec![]);
    assert_eq!(render(&doc, &ns, 80), Err(PrettyError::UnknownConstruct));
}

#[test]
fn missing_child_is_an_error() {
    let ns = one_notation("pair", horz(child(0), child(1)));
    let ns2 = NotationSet::new(
        &Language::new("Laws"),
        vec![("pair".to_string(), horz(child(0), child(1))), ("t".to_string(), text(Style::plain()))],
    );
    let doc = Doc::new_branch("pair", vec![Doc::new_text("t", "x")]);
    assert_eq!(render(&doc, &ns2, 80), Err(PrettyError::BadNotation));
    assert_eq!(render(&Doc::new_branch("pair", vec![]), &ns, 80), Err(PrettyError::BadNotation));
}

#[test]
fn no_single_line_layout_is_an_error() {
    let ns = one_notation("v", no_wrap(vert(lit("a"), lit("b"))));
    let doc = Doc::new_branch("v", vec![]);
    assert_eq!(render(&doc, &ns, 80), Err(PrettyError::NoLayout));
}

#[test]
fn text_and_empty_text() {
    let ns = NotationSet::new(
        &Language::new("Laws"),
        vec![(
            "iden".to_string(),
            synless::notation::if_empty_text(horz(text(Style::plain()), lit("?")), text(Style::plain())),
        )],
    );
    assert_eq!(render(&Doc::new_text("iden", "name"), &ns, 80).unwrap(), "name");
    assert_eq!(render(&Doc::new_text("iden", ""), &ns, 80).unwrap(), "?");
}

#[test]
fn later_notation_of_a_name_wins() {
    let ns = NotationSet::new(
        &Language::new("Laws"),
        vec![("x".to_string(), lit("first")), ("x".to_string(), lit("second"))],
    );
    assert_eq!(ns.lookup("x").unwrap().bound(vec![], false).first(), b(6, 6, 0));
    assert!(ns.lookup("y").is_none());
    let doc = Doc::new_branch("x", vec![]);
    assert_eq!(render(&doc, &ns, 80).unwrap(), "second");
}

#[test]
fn flush_returns_to_the_start_column() {
    let ns = one_notation("f", horz(lit("ab"), horz(flush(lit("cd")), lit("e"))));
    let doc = Doc::new_branch("f", vec![]);
    assert_eq!(render(&doc, &ns, 80).unwrap(), "abcd\n  e");
}

#[test]
fn screen_pads_with_spaces() {
    let mut screen = PlainText::new(10);
    screen.write_str(1, 3, "x");
    screen.write_str(0, 0, "ab");
    screen.write_char(0, 1, 'z');
    assert_eq!(screen.contents(), "az\n   x");
}
