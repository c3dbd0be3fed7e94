//! Pre-styled output: lines of text runs that each carry their own style,
//! grouped into components and documents, and written line by line.

use vstd::prelude::*;
use crate::document::{Instruction, InstructionView, instruction_views};
use crate::render::FormattedText;
use crate::style::{empty_style, Attributes, Style};

verus! {

/// A text run and the style it is written in.
pub struct TextNode {
    pub data: FormattedText,
    pub style: Style,
}

impl View for TextNode {
    type V = (Seq<char>, Style);

    open spec fn view(&self) -> (Seq<char>, Style) {
        (self.data.text(), self.style)
    }
}

/// The values of a sequence of text runs.
pub open spec fn run_views(s: Seq<TextNode>) -> Seq<(Seq<char>, Style)> {
    s.map_values(|t: TextNode| t@)
}

/// One line of styled text runs.
pub struct LineNode {
    pub parts: Vec<TextNode>,
}

impl View for LineNode {
    type V = Seq<(Seq<char>, Style)>;

    open spec fn view(&self) -> Seq<(Seq<char>, Style)> {
        run_views(self.parts@)
    }
}

/// The values of a sequence of lines.
pub open spec fn line_views(s: Seq<LineNode>) -> Seq<Seq<(Seq<char>, Style)>> {
    s.map_values(|l: LineNode| l@)
}

/// Builds a line: text added to it takes the builder's current style.
#[must_use]
pub struct LineNodeBuilder {
    parts: Vec<TextNode>,
    style: Style,
}

/// The runs built so far, and the style that the next run takes.
pub struct LineDraft {
    pub parts: Seq<(Seq<char>, Style)>,
    pub style: Style,
}

impl View for LineNodeBuilder {
    type V = LineDraft;

    closed spec fn view(&self) -> LineDraft {
        LineDraft { parts: run_views(self.parts@), style: self.style }
    }
}

impl LineNode {
    /// A builder with no runs and the empty style.
    pub fn build() -> (r: LineNodeBuilder)
        ensures
            r@ == (LineDraft { parts: Seq::empty(), style: empty_style() }),
    {
        let r = LineNodeBuilder { parts: Vec::new(), style: Style::empty() };
        proof {
            assert(r@.parts =~= Seq::<(Seq<char>, Style)>::empty());
        }
        r
    }
}

impl LineNodeBuilder {
    /// The builder with `style` as its current style.
    pub fn style(self, style: Style) -> (r: LineNodeBuilder)
        ensures
            r@ == (LineDraft { style, ..self@ }),
    {
        LineNodeBuilder { style, ..self }
    }

    /// The builder with the empty style as its current style.
    pub fn close_style(self) -> (r: LineNodeBuilder)
        ensures
            r@ == (LineDraft { style: empty_style(), ..self@ }),
    {
        LineNodeBuilder { style: Style::empty(), ..self }
    }

    /// The builder with attribute `a` turned on in its current style.
    pub fn attrs(self, a: Attributes) -> (r: LineNodeBuilder)
        ensures
            r@ == (LineDraft { style: self@.style.with_attribute(a, true), ..self@ }),
    {
        let style = self.style.add_attributes(a);
        LineNodeBuilder { style, ..self }
    }

    /// The builder with attribute `a` turned off in its current style.
    pub fn close_attrs(self, a: Attributes) -> (r: LineNodeBuilder)
        ensures
            r@ == (LineDraft { style: self@.style.with_attribute(a, false), ..self@ }),
    {
        let style = self.style.remove_attributes(a);
        LineNodeBuilder { style, ..self }
    }

    /// The builder without a foreground in its current style.
    pub fn close_fg(self) -> (r: LineNodeBuilder)
        ensures
            r@ == (LineDraft { style: (Style { foreground: None, ..self@.style }), ..self@ }),
    {
        let style = self.style.clear_fg();
        LineNodeBuilder { style, ..self }
    }

    /// The builder without a background in its current style.
    pub fn close_bg(self) -> (r: LineNodeBuilder)
        ensures
            r@ == (LineDraft { style: (Style { background: None, ..self@.style }), ..self@ }),
    {
        let style = self.style.clear_bg();
        LineNodeBuilder { style, ..self }
    }

    /// The builder with the run `item` in its current style appended; an
    /// empty text adds nothing.
    pub fn add(self, item: &str) -> (r: LineNodeBuilder)
        ensures
            r@ == (if item@.len() == 0 {
                self@
            } else {
                LineDraft { parts: self@.parts.push((item@, self@.style)), ..self@ }
            }),
    {
        if item.is_empty() {
            return self;
        }
        let mut parts = self.parts;
        let ghost before = parts@;
        parts.push(TextNode { data: FormattedText::String(item.to_owned()), style: self.style });
        proof {
            assert(run_views(parts@) =~= run_views(before).push((item@, self.style)));
        }
        LineNodeBuilder { parts, style: self.style }
    }

    /// What `cb` makes of the builder and the value of `item`, or the
    /// builder unchanged when `item` is absent.
    pub fn add_option<T, F: FnOnce(LineNodeBuilder, &T) -> LineNodeBuilder>(
        self,
        item: &Option<T>,
        cb: F,
    ) -> (r: LineNodeBuilder)
        requires
            forall|v: &T, b: LineNodeBuilder| cb.requires((b, v)),
        ensures
            match item {
                Some(v) => cb.ensures((self, v), r),
                None => r == self,
            },
    {
        match item {
            Some(v) => cb(self, v),
            None => self,
        }
    }

    /// The builder with the run `item` in its current style appended.
    pub fn add_formatted(self, item: FormattedText) -> (r: LineNodeBuilder)
        ensures
            r@ == (LineDraft { parts: self@.parts.push((item.text(), self@.style)), ..self@ }),
    {
        let mut parts = self.parts;
        let ghost before = parts@;
        let ghost text = item.text();
        parts.push(TextNode { data: item, style: self.style });
        proof {
            assert(run_views(parts@) =~= run_views(before).push((text, self.style)));
        }
        LineNodeBuilder { parts, style: self.style }
    }

    /// The finished line.
    pub fn build(self) -> (r: LineNode)
        ensures
            r@ == self@.parts,
    {
        LineNode { parts: self.parts }
    }
}

/// A group of lines.
pub struct ComponentNode {
    pub lines: Vec<LineNode>,
}

impl View for ComponentNode {
    type V = Seq<Seq<(Seq<char>, Style)>>;

    open spec fn view(&self) -> Seq<Seq<(Seq<char>, Style)>> {
        line_views(self.lines@)
    }
}

/// Builds a component line by line.
pub struct ComponentNodeBuilder {
    lines: Vec<LineNode>,
}

impl View for ComponentNodeBuilder {
    type V = Seq<Seq<(Seq<char>, Style)>>;

    closed spec fn view(&self) -> Seq<Seq<(Seq<char>, Style)>> {
        line_views(self.lines@)
    }
}

impl ComponentNode {
    /// A builder with no lines.
    pub fn build() -> (r: ComponentNodeBuilder)
        ensures
            r@ == Seq::<Seq<(Seq<char>, Style)>>::empty(),
    {
        ComponentNodeBuilder::new()
    }
}

impl ComponentNodeBuilder {
    /// A builder with no lines.
    pub fn new() -> (r: ComponentNodeBuilder)
        ensures
            r@ == Seq::<Seq<(Seq<char>, Style)>>::empty(),
    {
        let r = ComponentNodeBuilder { lines: Vec::new() };
        proof {
            assert(r@ =~= Seq::<Seq<(Seq<char>, Style)>>::empty());
        }
        r
    }

    /// The builder with the finished `line` appended.
    pub fn line(self, line: LineNodeBuilder) -> (r: ComponentNodeBuilder)
        ensures
            r@ == self@.push(line@.parts),
    {
        self.push(line)
    }

    /// The builder with the finished `line` appended.
    pub fn push(self, line: LineNodeBuilder) -> (r: ComponentNodeBuilder)
        ensures
            r@ == self@.push(line@.parts),
    {
        let mut lines = self.lines;
        let ghost before = lines@;
        let built = line.build();
        lines.push(built);
        let r = ComponentNodeBuilder { lines };
        proof {
            assert(r@ =~= line_views(before).push(line@.parts));
        }
        r
    }

    /// The finished component.
    pub fn build(self) -> (r: ComponentNode)
        ensures
            r@ == self@,
    {
        ComponentNode { lines: self.lines }
    }
}

/// The values of a sequence of components.
pub open spec fn component_views(s: Seq<ComponentNode>) -> Seq<Seq<Seq<(Seq<char>, Style)>>> {
    s.map_values(|c: ComponentNode| c@)
}

/// A sequence of components.
pub struct DocumentNode {
    components: Vec<ComponentNode>,
}

impl View for DocumentNode {
    type V = Seq<Seq<Seq<(Seq<char>, Style)>>>;

    closed spec fn view(&self) -> Seq<Seq<Seq<(Seq<char>, Style)>>> {
        component_views(self.components@)
    }
}

/// Builds a document component by component.
pub struct DocumentNodeBuilder {
    components: Vec<ComponentNode>,
}

impl View for DocumentNodeBuilder {
    type V = Seq<Seq<Seq<(Seq<char>, Style)>>>;

    closed spec fn view(&self) -> Seq<Seq<Seq<(Seq<char>, Style)>>> {
        component_views(self.components@)
    }
}

/// The instructions for the runs of one line, each in its own style.
pub open spec fn runs_instructions(runs: Seq<(Seq<char>, Style)>) -> Seq<InstructionView>
    decreases runs.len(),
{
    if runs.len() == 0 {
        Seq::empty()
    } else {
        runs_instructions(runs.drop_last()) + seq![
            InstructionView::SetStyle(runs.last().1),
            InstructionView::Write(runs.last().0),
        ]
    }
}

/// The instructions for one line: a reset, its runs, a line break.
pub open spec fn line_instructions(line: Seq<(Seq<char>, Style)>) -> Seq<InstructionView> {
    seq![InstructionView::Reset] + runs_instructions(line) + seq![InstructionView::Newline]
}

/// The instructions for a sequence of lines.
pub open spec fn lines_instructions(lines: Seq<Seq<(Seq<char>, Style)>>) -> Seq<InstructionView>
    decreases lines.len(),
{
    if lines.len() == 0 {
        Seq::empty()
    } else {
        lines_instructions(lines.drop_last()) + line_instructions(lines.last())
    }
}

/// The instructions for a sequence of components.
pub open spec fn components_instructions(cs: Seq<Seq<Seq<(Seq<char>, Style)>>>) -> Seq<InstructionView>
    decreases cs.len(),
{
    if cs.len() == 0 {
        Seq::empty()
    } else {
        components_instructions(cs.drop_last()) + lines_instructions(cs.last())
    }
}

impl DocumentNode {
    /// A builder with no components.
    pub fn build() -> (r: DocumentNodeBuilder)
        ensures
            r@ == Seq::<Seq<Seq<(Seq<char>, Style)>>>::empty(),
    {
        let r = DocumentNodeBuilder { components: Vec::new() };
        proof {
            assert(r@ =~= Seq::<Seq<Seq<(Seq<char>, Style)>>>::empty());
        }
        r
    }

    /// The instructions that write every line of every component.
    pub fn write(&self) -> (r: Vec<Instruction>)
        ensures
            instruction_views(r@) == components_instructions(self@),
    {
        let mut out: Vec<Instruction> = Vec::new();
        let mut c: usize = 0;
        proof {
            assert(self@.take(0) =~= Seq::<Seq<Seq<(Seq<char>, Style)>>>::empty());
            assert(instruction_views(out@) =~= Seq::<InstructionView>::empty());
        }
        while c < self.components.len()
            invariant
                c <= self.components@.len(),
                self@ == component_views(self.components@),
                instruction_views(out@) == components_instructions(self@.take(c as int)),
            decreases self.components@.len() - c,
        {
            let component = &self.components[c];
            let ghost at_component = instruction_views(out@);
            let ghost lines = component@;
            let mut l: usize = 0;
            proof {
                assert(lines.take(0) =~= Seq::<Seq<(Seq<char>, Style)>>::empty());
                assert(at_component + lines_instructions(lines.take(0)) =~= at_component);
            }
            while l < component.lines.len()
                invariant
                    l <= component.lines@.len(),
                    lines == line_views(component.lines@),
                    instruction_views(out@) == at_component + lines_instructions(lines.take(l as int)),
                decreases component.lines@.len() - l,
            {
                let line = &component.lines[l];
                let ghost at_line = instruction_views(out@);
                let ghost runs = line@;
                out.push(Instruction::Reset);
                let mut p: usize = 0;
                proof {
                    assert(runs.take(0) =~= Seq::<(Seq<char>, Style)>::empty());
                    assert(instruction_views(out@) =~= at_line + seq![InstructionView::Reset]
                        + runs_instructions(runs.take(0)));
                }
                while p < line.parts.len()
                    invariant
                        p <= line.parts@.len(),
                        runs == run_views(line.parts@),
                        instruction_views(out@) == at_line + seq![InstructionView::Reset]
                            + runs_instructions(runs.take(p as int)),
                    decreases line.parts@.len() - p,
                {
                    let part = &line.parts[p];
                    let ghost before = instruction_views(out@);
                    out.push(Instruction::SetStyle(part.style));
                    out.push(Instruction::Write(part.data.as_string()));
                    proof {
                        assert(runs.take(p + 1).drop_last() =~= runs.take(p as int));
                        assert(runs.take(p + 1).last() == part@);
                        assert(instruction_views(out@) =~= before + seq![
                            InstructionView::SetStyle(part.style),
                            InstructionView::Write(part.data.text()),
                        ]);
                        assert(instruction_views(out@) =~= at_line + seq![InstructionView::Reset]
                            + runs_instructions(runs.take(p + 1)));
                    }
                    p = p + 1;
                }
                let ghost before_newline = instruction_views(out@);
                out.push(Instruction::Newline);
                proof {
                    assert(runs.take(p as int) =~= runs);
                    assert(instruction_views(out@) =~= before_newline + seq![InstructionView::Newline]);
                    assert(lines.take(l + 1).drop_last() =~= lines.take(l as int));
                    assert(lines.take(l + 1).last() == runs);
                    assert(instruction_views(out@) =~= at_line + line_instructions(runs));
                    assert(lines_instructions(lines.take(l + 1)) == lines_instructions(lines.take(l as int))
                        + line_instructions(runs));
                    assert(instruction_views(out@) =~= at_component + lines_instructions(lines.take(l + 1)));
                }
                l = l + 1;
            }
            proof {
                assert(lines.take(l as int) =~= lines);
                assert(self@.take(c + 1).drop_last() =~= self@.take(c as int));
                assert(self@.take(c + 1).last() == lines);
            }
            c = c + 1;
        }
        proof {
            assert(self@.take(c as int) =~= self@);
        }
        out
    }
}

impl DocumentNodeBuilder {
    /// The builder with `component` appended.
    pub fn add(self, component: ComponentNode) -> (r: DocumentNodeBuilder)
        ensures
            r@ == self@.push(component@),
    {
        let mut components = self.components;
        let ghost before = components@;
        let ghost added = component@;
        components.push(component);
        let r = DocumentNodeBuilder { components };
        proof {
            assert(r@ =~= component_views(before).push(added));
        }
        r
    }

    /// The finished document.
    pub fn build(self) -> (r: DocumentNode)
        ensures
            r@ == self@,
    {
        DocumentNode { components: self.components }
    }
}

} // verus!
