use codespan_reporting::render::repeat;
use codespan_reporting::{
    Attributes, ColorValue, ComponentNode, ComponentNodeBuilder, DocumentNode, Instruction,
    LineNode, Style,
};

#[test]
fn line_builder_styles_each_run() {
    let line = LineNode::build()
        .style(Style::empty().fg(ColorValue::Red))
        .add("error")
        .close_style()
        .add(": ")
        .attrs(Attributes::Bold)
        .add("message")
        .add("")
        .build();
    assert_eq!(line.parts.len(), 3);
    assert_eq!(line.parts[0].data.as_string(), "error");
    assert_eq!(line.parts[0].style, Style::empty().fg(ColorValue::Red));
    assert_eq!(line.parts[1].style, Style::empty());
    assert_eq!(line.parts[2].style, Style::empty().bold());
}

#[test]
fn line_builder_closes_slots() {
    let line = LineNode::build()
        .style(Style::empty().fg(ColorValue::Red).bg(ColorValue::White).bold())
        .close_fg()
        .close_bg()
        .close_attrs(Attributes::Bold)
        .add("x")
        .build();
    assert_eq!(line.parts[0].style, Style::empty().unbold());
}

#[test]
fn add_option_calls_back_only_for_a_value() {
    let some = Some(String::from("yes"));
    let none: Option<String> = None;
    let line = LineNode::build()
        .add_option(&some, |b, v| b.add(v.as_str()))
        .add_option(&none, |b, v| b.add(v.as_str()))
        .build();
    assert_eq!(line.parts.len(), 1);
    assert_eq!(line.parts[0].data.as_string(), "yes");
}

#[test]
fn add_formatted_keeps_even_empty_runs() {
    let line = LineNode::build().add_formatted(repeat("-", 3)).add_formatted(repeat("-", 0)).build();
    assert_eq!(line.parts.len(), 2);
    assert_eq!(line.parts[0].data.as_string(), "---");
}

#[test]
fn document_node_writes_line_by_line() {
    let component = ComponentNode::build()
        .line(LineNode::build().style(Style::empty().bold()).add("a").add("b"))
        .push(LineNode::build())
        .build();
    let second = ComponentNodeBuilder::new().line(LineNode::build().add("c")).build();
    let doc = DocumentNode::build().add(component).add(second).build();
    let out = doc.write();
    let bold = Style::empty().bold();
    let empty = Style::empty();
    assert_eq!(
        format!("{:?}", out),
        format!(
            "[Reset, SetStyle({:?}), Write(\"a\"), SetStyle({:?}), Write(\"b\"), Newline, Reset, Newline, Reset, SetStyle({:?}), Write(\"c\"), Newline]",
            bold, bold, empty
        )
    );
    assert!(matches!(out[0], Instruction::Reset));
}
