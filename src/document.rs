//! The document model: an ordered sequence of text runs, section markers and
//! line breaks, and the writer pass that turns a finished document into
//! styled output instructions.

use vstd::prelude::*;
use vstd::string::*;
use crate::style::Style;
use crate::stylesheet::{resolve, Stylesheet};

verus! {

/// One primitive node of a document.
#[derive(Clone, Debug)]
pub enum Node {
    /// A run of text.
    Text(String),
    /// The start of a named section.
    OpenSection(String),
    /// The end of the innermost open section.
    CloseSection,
    /// A line break.
    Newline,
}

/// The mathematical form of a [`Node`].
pub enum NodeView {
    Text(Seq<char>),
    Open(Seq<char>),
    Close,
    Newline,
}

impl View for Node {
    type V = NodeView;

    open spec fn view(&self) -> NodeView {
        match self {
            Node::Text(s) => NodeView::Text(s@),
            Node::OpenSection(n) => NodeView::Open(n@),
            Node::CloseSection => NodeView::Close,
            Node::Newline => NodeView::Newline,
        }
    }
}

/// The values of a sequence of nodes.
pub open spec fn node_views(s: Seq<Node>) -> Seq<NodeView> {
    s.map_values(|n: Node| n@)
}

/// The text that a sequence of nodes reads as without styling: its text
/// runs, with a line break for each newline.
pub open spec fn plain_text(s: Seq<NodeView>) -> Seq<char>
    decreases s.len(),
{
    if s.len() == 0 {
        Seq::empty()
    } else {
        plain_text(s.drop_last()) + match s.last() {
            NodeView::Text(t) => t,
            NodeView::Newline => seq!['\n'],
            _ => Seq::empty(),
        }
    }
}

/// An ordered sequence of nodes. Every operation consumes the document and
/// returns the extended one.
#[derive(Clone, Debug)]
pub struct Document {
    nodes: Vec<Node>,
}

impl View for Document {
    type V = Seq<NodeView>;

    closed spec fn view(&self) -> Seq<NodeView> {
        node_views(self.nodes@)
    }
}

impl Document {
    /// The document with no nodes.
    pub fn empty() -> (r: Document)
        ensures
            r@ == Seq::<NodeView>::empty(),
    {
        let r = Document { nodes: Vec::new() };
        proof {
            assert(r@ =~= Seq::<NodeView>::empty());
        }
        r
    }

    /// The nodes of the document, or `None` for an empty document.
    pub fn into_tree(self) -> (r: Option<Vec<Node>>)
        ensures
            match r {
                None => self@.len() == 0,
                Some(v) => self@.len() > 0 && node_views(v@) == self@,
            },
    {
        if self.nodes.len() == 0 {
            None
        } else {
            Some(self.nodes)
        }
    }

    /// The nodes of the document, or `None` for an empty document.
    pub fn tree(&self) -> (r: Option<&[Node]>)
        ensures
            match r {
                None => self@.len() == 0,
                Some(v) => self@.len() > 0 && node_views(v@) == self@,
            },
    {
        if self.nodes.len() == 0 {
            None
        } else {
            Some(self.nodes.as_slice())
        }
    }

    /// The document with `node` appended.
    pub fn add_node(self, node: Node) -> (r: Document)
        ensures
            r@ == self@.push(node@),
    {
        let mut nodes = self.nodes;
        let ghost before = nodes@;
        nodes.push(node);
        let r = Document { nodes };
        proof {
            assert(r@ =~= node_views(before).push(node@));
        }
        r
    }

    /// The document with the nodes of `other` appended in order.
    pub fn extend_nodes(self, other: Vec<Node>) -> (r: Document)
        ensures
            r@ == self@ + node_views(other@),
    {
        let mut nodes = self.nodes;
        let mut other = other;
        let ghost a = nodes@;
        let ghost b = other@;
        nodes.append(&mut other);
        let r = Document { nodes };
        proof {
            assert(r@ =~= node_views(a) + node_views(b));
        }
        r
    }

    /// The document with the nodes of `fragment` appended in order.
    pub fn extend(self, fragment: Document) -> (r: Document)
        ensures
            r@ == self@ + fragment@,
    {
        if fragment.nodes.len() == 0 {
            proof {
                assert(self@ + fragment@ =~= self@);
            }
            self
        } else if self.nodes.len() == 0 {
            proof {
                assert(self@ + fragment@ =~= fragment@);
            }
            fragment
        } else {
            self.extend_nodes(fragment.nodes)
        }
    }

    /// The text of the document without styling.
    pub fn to_string(&self) -> (r: String)
        ensures
            r@ == plain_text(self@),
    {
        let mut out = String::new();
        let mut i: usize = 0;
        proof {
            reveal_strlit("\n");
            assert(self@.take(0) =~= Seq::<NodeView>::empty());
        }
        while i < self.nodes.len()
            invariant
                i <= self.nodes@.len(),
                self@ == node_views(self.nodes@),
                out@ == plain_text(self@.take(i as int)),
            decreases self.nodes@.len() - i,
        {
            proof {
                assert(self@.take(i + 1).drop_last() =~= self@.take(i as int));
                assert(self@.take(i + 1).last() == self.nodes@[i as int]@);
            }
            match &self.nodes[i] {
                Node::Text(s) => {
                    out.append(s.as_str());
                },
                Node::Newline => {
                    proof {
                        reveal_strlit("\n");
                    }
                    out.append("\n");
                },
                _ => {
                    proof {
                        assert(out@ + Seq::<char>::empty() =~= out@);
                    }
                },
            }
            i = i + 1;
        }
        proof {
            assert(self@.take(self.nodes@.len() as int) =~= self@);
        }
        out
    }
}

/// One instruction to a styled text sink.
#[derive(Debug)]
pub enum Instruction {
    /// Return to the default style.
    Reset,
    /// Adopt a style.
    SetStyle(Style),
    /// Write text in the current style.
    Write(String),
    /// End the line.
    Newline,
}

/// The mathematical form of an [`Instruction`].
pub enum InstructionView {
    Reset,
    SetStyle(Style),
    Write(Seq<char>),
    Newline,
}

impl View for Instruction {
    type V = InstructionView;

    open spec fn view(&self) -> InstructionView {
        match self {
            Instruction::Reset => InstructionView::Reset,
            Instruction::SetStyle(s) => InstructionView::SetStyle(*s),
            Instruction::Write(t) => InstructionView::Write(t@),
            Instruction::Newline => InstructionView::Newline,
        }
    }
}

/// The values of a sequence of instructions.
pub open spec fn instruction_views(s: Seq<Instruction>) -> Seq<InstructionView> {
    s.map_values(|i: Instruction| i@)
}

/// Why a document could not be written: its sections are not balanced.
#[derive(Clone, Copy, Debug, PartialEq, Eq, Structural)]
pub enum Unbalanced {
    /// A section was closed while none was open.
    StrayClose,
    /// Sections were still open at the end.
    Unclosed,
}

/// `pre` followed by the instructions of `r`, if it holds any.
pub open spec fn prepend(pre: Seq<InstructionView>, r: Result<Seq<InstructionView>, Unbalanced>) -> Result<
    Seq<InstructionView>,
    Unbalanced,
> {
    match r {
        Ok(s) => Ok(pre + s),
        Err(e) => Err(e),
    }
}

/// The instruction that selects a resolved style.
pub open spec fn style_instruction(s: Option<Style>) -> InstructionView {
    match s {
        Some(st) => InstructionView::SetStyle(st),
        None => InstructionView::Reset,
    }
}

/// The instructions for `nodes` with the sections of `stack` open: a text
/// run in the style that the rules give to the open sections, a reset
/// before each line break; an error for a close with nothing open, or for
/// sections left open at the end.
pub open spec fn run(
    rules: Map<Seq<crate::stylesheet::Seg>, Style>,
    stack: Seq<Seq<char>>,
    nodes: Seq<NodeView>,
) -> Result<Seq<InstructionView>, Unbalanced>
    decreases nodes.len(),
{
    if nodes.len() == 0 {
        if stack.len() == 0 {
            Ok(Seq::empty())
        } else {
            Err(Unbalanced::Unclosed)
        }
    } else {
        let rest = nodes.drop_first();
        match nodes[0] {
            NodeView::Text(t) => if t.len() == 0 {
                run(rules, stack, rest)
            } else {
                prepend(
                    seq![style_instruction(resolve(rules, stack)), InstructionView::Write(t)],
                    run(rules, stack, rest),
                )
            },
            NodeView::Open(n) => run(rules, stack.push(n), rest),
            NodeView::Close => if stack.len() == 0 {
                Err(Unbalanced::StrayClose)
            } else {
                run(rules, stack.drop_last(), rest)
            },
            NodeView::Newline => prepend(
                seq![InstructionView::Reset, InstructionView::Newline],
                run(rules, stack, rest),
            ),
        }
    }
}

/// The instructions that write `nodes` with `rules`: a reset first, then
/// those of [`run`] from no open section.
pub open spec fn rendered(rules: Map<Seq<crate::stylesheet::Seg>, Style>, nodes: Seq<NodeView>) -> Result<
    Seq<InstructionView>,
    Unbalanced,
> {
    prepend(seq![InstructionView::Reset], run(rules, Seq::empty(), nodes))
}

impl Document {
    /// The instructions that write the document with `stylesheet`, or the
    /// imbalance of its sections; on an imbalance nothing is written.
    pub fn write_with(self, stylesheet: &Stylesheet) -> (r: Result<Vec<Instruction>, Unbalanced>)
        requires
            stylesheet.wf(),
        ensures
            match r {
                Ok(v) => rendered(stylesheet@, self@) == Ok::<Seq<InstructionView>, Unbalanced>(
                    instruction_views(v@),
                ),
                Err(e) => rendered(stylesheet@, self@) == Err::<Seq<InstructionView>, Unbalanced>(e),
            },
    {
        let ghost nodes = self@;
        let mut out: Vec<Instruction> = Vec::new();
        out.push(Instruction::Reset);
        let mut nesting: Vec<String> = Vec::new();
        let mut i: usize = 0;
        proof {
            assert(nodes.skip(0) =~= nodes);
            assert(nesting.deep_view() =~= Seq::<Seq<char>>::empty());
            assert(instruction_views(out@) =~= seq![InstructionView::Reset]);
        }
        while i < self.nodes.len()
            invariant
                nodes == self@,
                nodes == node_views(self.nodes@),
                stylesheet.wf(),
                i <= self.nodes@.len(),
                rendered(stylesheet@, nodes) == prepend(
                    instruction_views(out@),
                    run(stylesheet@, nesting.deep_view(), nodes.skip(i as int)),
                ),
            decreases self.nodes@.len() - i,
        {
            let ghost rest = nodes.skip(i as int);
            let ghost before = instruction_views(out@);
            proof {
                assert(rest[0] == self.nodes@[i as int]@);
                assert(rest.drop_first() =~= nodes.skip(i + 1));
            }
            match &self.nodes[i] {
                Node::Text(s) => {
                    if !s.as_str().is_empty() {
                        let style = stylesheet.lookup(&nesting);
                        match style {
                            Some(st) => out.push(Instruction::SetStyle(st)),
                            None => out.push(Instruction::Reset),
                        }
                        out.push(Instruction::Write(s.clone()));
                        proof {
                            assert(instruction_views(out@) =~= before + seq![
                                style_instruction(style),
                                InstructionView::Write(s@),
                            ]);
                            lemma_prepend_assoc(
                                before,
                                seq![style_instruction(style), InstructionView::Write(s@)],
                                run(stylesheet@, nesting.deep_view(), nodes.skip(i + 1)),
                            );
                        }
                    }
                },
                Node::OpenSection(n) => {
                    let ghost open_before = nesting.deep_view();
                    nesting.push(n.clone());
                    proof {
                        assert(nesting.deep_view() =~= open_before.push(n@));
                    }
                },
                Node::CloseSection => {
                    if nesting.len() == 0 {
                        return Err(Unbalanced::StrayClose);
                    }
                    let ghost open_before = nesting.deep_view();
                    nesting.pop();
                    proof {
                        assert(nesting.deep_view() =~= open_before.drop_last());
                    }
                },
                Node::Newline => {
                    out.push(Instruction::Reset);
                    out.push(Instruction::Newline);
                    proof {
                        assert(instruction_views(out@) =~= before + seq![
                            InstructionView::Reset,
                            InstructionView::Newline,
                        ]);
                        lemma_prepend_assoc(
                            before,
                            seq![InstructionView::Reset, InstructionView::Newline],
                            run(stylesheet@, nesting.deep_view(), nodes.skip(i + 1)),
                        );
                    }
                },
            }
            i = i + 1;
        }
        if nesting.len() != 0 {
            return Err(Unbalanced::Unclosed);
        }
        proof {
            assert(instruction_views(out@) + Seq::<InstructionView>::empty() =~= instruction_views(out@));
        }
        Ok(out)
    }
}

proof fn lemma_prepend_assoc(
    a: Seq<InstructionView>,
    b: Seq<InstructionView>,
    r: Result<Seq<InstructionView>, Unbalanced>,
)
    ensures
        prepend(a, prepend(b, r)) == prepend(a + b, r),
{
    if let Ok(s) = r {
        assert(a + (b + s) =~= (a + b) + s);
    }
}

/// How a node changes the number of open sections.
pub open spec fn depth_change(n: NodeView) -> int {
    match n {
        NodeView::Open(_) => 1,
        NodeView::Close => -1,
        _ => 0,
    }
}

/// Opened sections minus closed sections in `s`.
pub open spec fn depth(s: Seq<NodeView>) -> int
    decreases s.len(),
{
    if s.len() == 0 {
        0
    } else {
        depth_change(s[0]) + depth(s.drop_first())
    }
}

/// Whether the sections of `s` form a balanced bracket sequence: no prefix
/// closes more sections than it opens, and the whole closes all it opens.
pub open spec fn balanced(s: Seq<NodeView>) -> bool {
    &&& depth(s) == 0
    &&& forall|k: int| 0 <= k <= s.len() ==> depth(#[trigger] s.take(k)) >= 0
}

proof fn lemma_depth_take(s: Seq<NodeView>, k: int)
    requires
        s.len() > 0,
        0 <= k < s.len(),
    ensures
        depth(s.take(k + 1)) == depth_change(s[0]) + depth(s.drop_first().take(k)),
{
    assert(s.take(k + 1)[0] == s[0]);
    assert(s.take(k + 1).drop_first() =~= s.drop_first().take(k));
}

proof fn lemma_run_ok(rules: Map<Seq<crate::stylesheet::Seg>, Style>, stack: Seq<Seq<char>>, s: Seq<NodeView>)
    ensures
        run(rules, stack, s) is Ok <==> (stack.len() + depth(s) == 0 && forall|k: int|
            0 <= k <= s.len() ==> stack.len() + depth(#[trigger] s.take(k)) >= 0),
    decreases s.len(),
{
    assert(s.take(0) =~= Seq::<NodeView>::empty());
    if s.len() > 0 {
        let rest = s.drop_first();
        let inner = match s[0] {
            NodeView::Open(n) => stack.push(n),
            NodeView::Close => if stack.len() > 0 {
                stack.drop_last()
            } else {
                stack
            },
            _ => stack,
        };
        assert(s.take(1).drop_first() =~= Seq::<NodeView>::empty());
        assert(s.take(1)[0] == s[0]);
        assert(depth(s.take(1).drop_first()) == 0);
        assert(depth(s.take(1)) == depth_change(s[0]));
        if s[0] == NodeView::Close && stack.len() == 0 {
            assert(!(stack.len() + depth(s.take(1)) >= 0));
        } else {
            lemma_run_ok(rules, inner, rest);
            assert(inner.len() == stack.len() + depth_change(s[0]));
            assert(run(rules, stack, s) is Ok <==> run(rules, inner, rest) is Ok);
            if run(rules, inner, rest) is Ok {
                assert forall|k: int| 0 <= k <= s.len() implies stack.len() + depth(#[trigger] s.take(k)) >= 0 by {
                    if k > 0 {
                        lemma_depth_take(s, k - 1);
                        assert(inner.len() + depth(rest.take(k - 1)) >= 0);
                    }
                }
            } else if stack.len() + depth(s) == 0 {
                assert(!(forall|k: int| 0 <= k <= rest.len() ==> inner.len() + depth(#[trigger] rest.take(k)) >= 0));
                let k = choose|k: int| 0 <= k <= rest.len() && !(inner.len() + depth(#[trigger] rest.take(k)) >= 0);
                if k < rest.len() {
                    lemma_depth_take(s, k);
                } else {
                    assert(rest.take(k) =~= rest);
                    assert(s.take(k + 1) =~= s);
                }
                assert(!(stack.len() + depth(s.take(k + 1)) >= 0));
            }
        }
    }
}

/// The writer pass succeeds exactly on documents whose sections are
/// balanced: on those it never closes a section that is not open and
/// leaves none open; on any other it fails and writes nothing.
pub proof fn lemma_writer_ok_iff_balanced(rules: Map<Seq<crate::stylesheet::Seg>, Style>, nodes: Seq<NodeView>)
    ensures
        rendered(rules, nodes) is Ok <==> balanced(nodes),
{
    lemma_run_ok(rules, Seq::empty(), nodes);
}

} // verus!
