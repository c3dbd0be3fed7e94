use codespan_reporting::render::combine;
use codespan_reporting::{
    ColorValue, Document, Instruction, Line, Node, Section, Style, Stylesheet, Unbalanced,
};

fn shown(v: &[Instruction]) -> String {
    format!("{:?}", v)
}

#[test]
fn sections_resolve_styles_per_text_run() {
    let sheet = Stylesheet::new()
        .add_rule("error primary", "fg: red")
        .unwrap()
        .add_rule("** gutter", "fg: blue")
        .unwrap();
    let doc = Document::empty().add(Section(
        "error",
        combine(Section("primary", "boom"), Section("gutter", "| ")),
    ));
    let out = doc.write_with(&sheet).unwrap();
    let red = Style::empty().fg(ColorValue::Red);
    let blue = Style::empty().fg(ColorValue::Blue);
    assert_eq!(out.len(), 5);
    assert!(matches!(out[0], Instruction::Reset));
    assert!(matches!(out[1], Instruction::SetStyle(s) if s == red));
    assert!(matches!(out[2], Instruction::Write(ref t) if t == "boom"));
    assert!(matches!(out[3], Instruction::SetStyle(s) if s == blue));
    assert!(matches!(out[4], Instruction::Write(ref t) if t == "| "));
}

#[test]
fn unclosed_section_fails_the_pass() {
    let sheet = Stylesheet::new();
    let doc = Document::empty().add_node(Node::OpenSection("x".to_string())).add("text");
    assert!(matches!(doc.write_with(&sheet), Err(Unbalanced::Unclosed)));
}

#[test]
fn stray_close_fails_the_pass() {
    let sheet = Stylesheet::new();
    let doc = Document::empty().add("text").add_node(Node::CloseSection).add("more");
    assert!(matches!(doc.write_with(&sheet), Err(Unbalanced::StrayClose)));
}

#[test]
fn balanced_document_is_written_whole() {
    let sheet = Stylesheet::new().add_rule("a", "weight: bold").unwrap();
    let doc = Document::empty()
        .add(Line(Section("a", combine("x", Section("b", "y")))))
        .add("")
        .add("z");
    let out = doc.write_with(&sheet).unwrap();
    let bold = Style::empty().bold();
    assert_eq!(
        shown(&out),
        format!(
            "[Reset, SetStyle({:?}), Write(\"x\"), Reset, Write(\"y\"), Reset, Newline, Reset, Write(\"z\")]",
            bold
        )
    );
}

#[test]
fn empty_document_writes_only_a_reset() {
    let out = Document::empty().write_with(&Stylesheet::new()).unwrap();
    assert_eq!(shown(&out), "[Reset]");
}
