use codespan_reporting::render::{combine, repeat};
use codespan_reporting::{Document, Each, IfSome, Join, Line, Render, Section};

#[test]
fn into_fragment_holds_exactly_the_fragment() {
    let doc = Section("s", "x").into_fragment();
    assert_eq!(format!("{:?}", doc.tree().unwrap()), "[OpenSection(\"s\"), Text(\"x\"), CloseSection]");
}

struct Point(i32, i32);

#[test]
fn test_each() {
    let items = vec![Point(10, 20), Point(5, 10), Point(6, 42)];

    let document = Document::empty().add(Each(&items[..], |item: &Point| {
        Line(combine(
            combine(combine(combine("Point(", item.0.to_string()), ","), item.1.to_string()),
            ")",
        ))
    }));

    assert_eq!(document.to_string(), "Point(10,20)\nPoint(5,10)\nPoint(6,42)\n");
}

#[test]
fn test_join() {
    let items = vec![Point(10, 20), Point(5, 10), Point(6, 42)];

    let document = Document::empty().add(Join(&items[..], "\n", |item: &Point| {
        combine(
            combine(combine(combine("Point(", item.0.to_string()), ","), item.1.to_string()),
            ")",
        )
    }));

    assert_eq!(document.to_string(), "Point(10,20)\nPoint(5,10)\nPoint(6,42)");
}

#[test]
fn join_of_no_items_is_empty() {
    let items: Vec<Point> = vec![];
    let document = Document::empty().add(Join(&items[..], ", ", |item: &Point| item.0.to_string()));
    assert!(document.into_tree().is_none());
}

#[test]
fn join_of_one_item_has_no_joiner() {
    let items = vec![Point(1, 2)];
    let document = Document::empty().add(Join(&items[..], ", ", |item: &Point| item.0.to_string()));
    assert_eq!(document.to_string(), "1");
}

#[test]
fn join_with_comma() {
    let items = vec![Point(10, 20), Point(5, 10), Point(6, 42)];
    let document = Document::empty().add(Join(&items[..], ", ", |item: &Point| {
        combine(
            combine(combine(combine("Point(", item.0.to_string()), ","), item.1.to_string()),
            ")",
        )
    }));
    assert_eq!(document.to_string(), "Point(10,20), Point(5,10), Point(6,42)");
}

#[test]
fn section_wraps_its_content() {
    let document = Section("hello", "Hello").render(Document::empty());
    let tree = document.into_tree().unwrap();
    assert_eq!(format!("{:?}", tree), "[OpenSection(\"hello\"), Text(\"Hello\"), CloseSection]");
}

#[test]
fn line_appends_a_newline() {
    let document = Document::empty().add(Line("a")).add(Line("b"));
    assert_eq!(document.to_string(), "a\nb\n");
    let tree = document.into_tree().unwrap();
    assert_eq!(tree.len(), 4);
}

#[test]
fn composing_is_additive_and_keeps_order() {
    let first = Document::empty().add("one");
    let second = first.add(Section("s", "two")).add(Line("three"));
    assert_eq!(
        format!("{:?}", second.tree().unwrap()),
        "[Text(\"one\"), OpenSection(\"s\"), Text(\"two\"), CloseSection, Text(\"three\"), Newline]"
    );
}

fn build() -> Document {
    let items = vec![Point(1, 2), Point(3, 4)];
    Document::empty()
        .add(Section("outer", combine("x", Line(Section("inner", "y")))))
        .add(Each(&items[..], |p: &Point| Section("point", p.1.to_string())))
}

#[test]
fn composing_twice_gives_identical_nodes() {
    let a = build();
    let b = build();
    assert_eq!(format!("{:?}", a.tree()), format!("{:?}", b.tree()));
    assert_eq!(a.to_string(), "xy\n24");
}

#[test]
fn empty_document_is_identity_of_extend() {
    let doc = Document::empty().add("a").add(Line("b"));
    let left = Document::empty().extend(Document::empty().add("a").add(Line("b")));
    let right = Document::empty().add("a").add(Line("b")).extend(Document::empty());
    assert_eq!(format!("{:?}", doc.tree()), format!("{:?}", left.tree()));
    assert_eq!(format!("{:?}", doc.tree()), format!("{:?}", right.tree()));
    assert!(Document::empty().extend(Document::empty()).tree().is_none());
}

#[test]
fn if_some_renders_only_a_present_value() {
    let none: Option<&str> = None;
    assert!(IfSome(none).into_tree().is_none());
    assert_eq!(IfSome(Some("here")).to_string(), "here");
}

#[test]
fn repeat_writes_the_text_size_times() {
    let r = repeat("ab", 3);
    assert_eq!(r.as_string(), "ababab");
    assert_eq!(Document::empty().add(repeat(" ", 4)).to_string(), "    ");
    assert_eq!(repeat("x", 0).as_string(), "");
}

#[test]
fn format_renders_the_produced_text() {
    let n = 42;
    let f = codespan_reporting::render::format(|| format!("n = {}", n));
    assert_eq!(Document::empty().add(f).to_string(), "n = 42");
}

#[test]
fn extend_nodes_appends_in_order() {
    let doc = Document::empty().add("a");
    let more = Document::empty().add("b").add(Line("c")).into_tree().unwrap();
    assert_eq!(doc.extend_nodes(more).to_string(), "abc\n");
}
