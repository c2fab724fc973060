use synless::boundset::BoundSet;
use synless::document::{pretty_print, Doc};
use synless::geometry::Bound;
use synless::layout::{Lay, LayoutRegion};
use synless::notation::{
    child, choice, empty, flush, if_empty_text, literal, repeat, star, text, vert, horz, Notation,
    Repeat,
};
use synless::notationset::{Language, NotationSet};
use synless::pretty::PlainText;
use synless::style::{Color, Emph, Shade, Style};

fn lit(s: &str) -> Notation {
    literal(s, Style::plain())
}

fn bound_of(n: &Notation, child_bounds: Vec<&BoundSet<()>>, len: usize) -> BoundSet<()> {
    n.bound(child_bounds, len == 0)
}

fn layouts_of(n: &Notation, child_bounds: Vec<&BoundSet<()>>, len: usize) -> BoundSet<LayoutRegion> {
    n.lay_out(child_bounds, len == 0)
}

fn example_notation() -> Notation {
    vert(
        vert(
            horz(lit("if "), lit("true")),
            horz(horz(lit("  "), lit("* ")), vert(lit("bulleted"), lit("list"))),
        ),
        lit("end"),
    )
}

fn example_repeat_notation() -> Notation {
    repeat(Repeat {
        empty: lit("[]"),
        lone: horz(horz(lit("["), star()), lit("]")),
        first: horz(lit("["), vert(horz(star(), lit(",")), empty())),
        middle: vert(horz(star(), lit(",")), empty()),
        last: horz(star(), lit("]")),
    })
}

#[test]
fn test_bound_construction() {
    let sty = Style::plain();
    let actual = <Bound as Lay>::literal(&"abc".to_string(), sty).vert(
        <Bound as Lay>::literal(&"Schrödinger".to_string(), sty).horz(
            <Bound as Lay>::literal(&"I".to_string(), sty)
                .horz(<Bound as Lay>::literal(&" am indented".to_string(), sty))
                .vert(<Bound as Lay>::literal(&"me too".to_string(), sty)),
        ),
    );
    let expected = Bound { width: 24, indent: 17, height: 2 };
    assert_eq!(actual, expected);
}

#[test]
fn test_bound() {
    let actual = bound_of(&example_notation(), vec![], 0).first();
    let expected = Bound { width: 12, indent: 3, height: 3 };
    assert_eq!(actual, expected);
}

#[test]
fn test_bound_2() {
    let actual = bound_of(&vert(lit("abc"), lit("de")), vec![], 0).first();
    let expected = Bound { width: 3, indent: 2, height: 1 };
    assert_eq!(actual, expected);
    assert_eq!(actual.debug_string(), "***\n**");
}

#[test]
fn test_bound_3() {
    let actual = bound_of(&if_empty_text(lit("a"), lit("bc")), vec![], 0).first();
    let expected = Bound { width: 1, indent: 1, height: 0 };
    assert_eq!(actual, expected);
}

#[test]
fn test_bound_4() {
    let actual = bound_of(&if_empty_text(lit("a"), lit("bc")), vec![], 1).first();
    let expected = Bound { width: 2, indent: 2, height: 0 };
    assert_eq!(actual, expected);
}

#[test]
fn test_show_layout() {
    let syn = horz(lit("abc"), vert(lit("def"), lit("g")));
    let lay = layouts_of(&syn, vec![], 0);
    assert_eq!(lay.fit_width(80).debug_string(), "abcdef\n   g");
}

#[test]
fn test_expand_notation() {
    let r = bound_of(&vert(lit("abc"), lit("de")), vec![], 0);
    let syn = example_repeat_notation();
    let zero = layouts_of(&syn, vec![], 0);
    let one = layouts_of(&syn, vec![&r], 1);
    let two = layouts_of(&syn, vec![&r, &r], 2);
    let three = layouts_of(&syn, vec![&r, &r, &r], 3);
    let four = layouts_of(&syn, vec![&r, &r, &r, &r], 4);
    assert_eq!(zero.fit_width(80).debug_string(), "[]");
    assert_eq!(one.fit_width(80).debug_string(), "[000\n 00]");
    assert_eq!(two.fit_width(80).debug_string(), "[000\n 00,\n 111\n 11]");
    assert_eq!(three.fit_width(80).debug_string(), "[000\n 00,\n 111\n 11,\n 222\n 22]");
    assert_eq!(
        four.fit_width(80).debug_string(),
        "[000\n 00,\n 111\n 11,\n 222\n 22,\n 333\n 33]"
    );
}

fn punct(s: &str) -> Notation {
    literal(s, Style::color(Color::Base0A))
}

fn word(s: &str) -> Notation {
    literal(s, Style::color(Color::Base0B))
}

fn txt() -> Notation {
    text(Style::new(Color::Base0D, Emph::underlined(), Shade::black(), false))
}

fn cat(parts: Vec<Notation>) -> Notation {
    let mut it = parts.into_iter();
    let mut acc = it.next().unwrap();
    for p in it {
        acc = horz(acc, p);
    }
    acc
}

fn example_notations() -> NotationSet {
    let language = Language::new("TestLang");
    let plus = choice(
        cat(vec![child(0), punct(" + "), child(1)]),
        cat(vec![flush(child(0)), punct("+ "), child(1)]),
    );
    let args = choice(
        repeat(Repeat {
            empty: empty(),
            lone: star(),
            first: horz(star(), punct(", ")),
            middle: horz(star(), punct(", ")),
            last: star(),
        }),
        repeat(Repeat {
            empty: empty(),
            lone: star(),
            first: flush(horz(star(), punct(","))),
            middle: flush(horz(star(), punct(","))),
            last: star(),
        }),
    );
    let func = choice(
        choice(
            cat(vec![
                word("func "),
                child(0),
                punct("("),
                child(1),
                punct(") { "),
                child(2),
                punct(" }"),
            ]),
            cat(vec![
                flush(cat(vec![word("func "), child(0), punct("("), child(1), punct(") {")])),
                flush(cat(vec![word("  "), child(2)])),
                punct("}"),
            ]),
        ),
        cat(vec![
            flush(cat(vec![word("func "), child(0), punct("(")])),
            flush(cat(vec![word("  "), child(1), punct(")")])),
            flush(punct("{")),
            flush(cat(vec![word("  "), child(2)])),
            punct("}"),
        ]),
    );
    let iden = if_empty_text(horz(txt(), punct("·")), txt());
    let strn = cat(vec![punct("'"), txt(), punct("'")]);
    NotationSet::new(
        &language,
        vec![
            ("plus".to_string(), plus),
            ("args".to_string(), args),
            ("func".to_string(), func),
            ("iden".to_string(), iden),
            ("strn".to_string(), strn),
        ],
    )
}

fn make_example_tree() -> Doc {
    let foo = Doc::new_text("iden", "foo");
    let abc = Doc::new_text("iden", "abc");
    let def = Doc::new_text("iden", "def");
    let args = Doc::new_branch("args", vec![abc, def]);
    let abcdef1 = Doc::new_text("strn", "abcdef");
    let abcdef2 = Doc::new_text("strn", "abcdef");
    let body = Doc::new_branch("plus", vec![abcdef1, abcdef2]);
    Doc::new_branch("func", vec![foo, args, body])
}

fn write(doc: &Doc, notations: &NotationSet, width: usize) -> String {
    let mut screen = PlainText::new(width);
    pretty_print(doc, notations, &mut screen).unwrap();
    screen.contents()
}

#[test]
fn test_lay_out() {
    let doc = make_example_tree();
    let ns = example_notations();
    assert_eq!(write(&doc, &ns, 80), "func foo(abc, def) { 'abcdef' + 'abcdef' }");
    assert_eq!(write(&doc, &ns, 42), "func foo(abc, def) { 'abcdef' + 'abcdef' }");
    assert_eq!(
        write(&doc, &ns, 41),
        "func foo(abc, def) { 'abcdef'
                     + 'abcdef' }"
    );
    assert_eq!(
        write(&doc, &ns, 33),
        "func foo(abc, def) { 'abcdef'
                     + 'abcdef' }"
    );
    assert_eq!(
        write(&doc, &ns, 32),
        "func foo(abc, def) {
  'abcdef' + 'abcdef'
}"
    );
    assert_eq!(
        write(&doc, &ns, 21),
        "func foo(abc, def) {
  'abcdef' + 'abcdef'
}"
    );
    assert_eq!(
        write(&doc, &ns, 20),
        "func foo(abc, def) {
  'abcdef'
  + 'abcdef'
}"
    );
    assert_eq!(
        write(&doc, &ns, 19),
        "func foo(abc,
         def) {
  'abcdef'
  + 'abcdef'
}"
    );
    assert_eq!(
        write(&doc, &ns, 15),
        "func foo(abc,
         def) {
  'abcdef'
  + 'abcdef'
}"
    );
    assert_eq!(
        write(&doc, &ns, 14),
        "func foo(
  abc, def)
{
  'abcdef'
  + 'abcdef'
}"
    );
    assert_eq!(
        write(&doc, &ns, 12),
        "func foo(
  abc, def)
{
  'abcdef'
  + 'abcdef'
}"
    );
}

#[test]
fn overflow_is_reported() {
    let doc = make_example_tree();
    let ns = example_notations();
    let mut wide = PlainText::new(14);
    assert_eq!(pretty_print(&doc, &ns, &mut wide), Ok(true));
    let mut narrow = PlainText::new(11);
    assert_eq!(pretty_print(&doc, &ns, &mut narrow), Ok(false));
    assert_eq!(wide.contents(), narrow.contents());
}
