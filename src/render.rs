//! The composition protocol: everything that can append itself to a
//! document, and the composables built from others (sections, lines,
//! repetitions, joins, optional values, concatenations).

use vstd::prelude::*;
use vstd::string::*;
use crate::document::{Document, Node, NodeView};

verus! {

/// A value that can append itself to a document. Appending only adds: the
/// nodes already in the document stay as they were, followed by the
/// composable's own fragment, which depends on the composable alone.
pub trait Render: Sized {
    /// The nodes this composable appends.
    spec fn fragment(&self) -> Seq<NodeView>;

    /// `into` with this composable's fragment appended.
    fn render(self, into: Document) -> (r: Document)
        ensures
            r@ == into@ + self.fragment(),
    ;

    /// A document holding exactly this composable's fragment.
    fn into_fragment(self) -> (r: Document)
        ensures
            r@ == self.fragment(),
    {
        let ghost f = self.fragment();
        let r = self.render(Document::empty());
        proof {
            assert(Seq::<NodeView>::empty() + f =~= f);
        }
        r
    }

}

impl Document {
    /// The document with `item` appended.
    pub fn add<R: Render>(self, item: R) -> (r: Document)
        ensures
            r@ == self@ + item.fragment(),
    {
        item.render(self)
    }
}

impl Render for Node {
    open spec fn fragment(&self) -> Seq<NodeView> {
        seq![self@]
    }

    fn render(self, into: Document) -> (r: Document) {
        let r = into.add_node(self);
        proof {
            assert(r@ =~= into@ + seq![self@]);
        }
        r
    }
}

impl Render for Document {
    open spec fn fragment(&self) -> Seq<NodeView> {
        self@
    }

    fn render(self, into: Document) -> (r: Document) {
        into.extend(self)
    }
}

impl Render for String {
    open spec fn fragment(&self) -> Seq<NodeView> {
        seq![NodeView::Text(self@)]
    }

    fn render(self, into: Document) -> (r: Document) {
        let r = into.add_node(Node::Text(self));
        proof {
            assert(r@ =~= into@ + seq![NodeView::Text(self@)]);
        }
        r
    }
}

impl<'a> Render for &'a str {
    open spec fn fragment(&self) -> Seq<NodeView> {
        seq![NodeView::Text(self@)]
    }

    fn render(self, into: Document) -> (r: Document) {
        let r = into.add_node(Node::Text(self.to_owned()));
        proof {
            assert(r@ =~= into@ + seq![NodeView::Text(self@)]);
        }
        r
    }
}

/// Two composables, one after the other.
pub struct Combine<L: Render, R: Render> {
    pub left: L,
    pub right: R,
}

impl<L: Render, R: Render> Render for Combine<L, R> {
    open spec fn fragment(&self) -> Seq<NodeView> {
        self.left.fragment() + self.right.fragment()
    }

    fn render(self, into: Document) -> (r: Document) {
        let ghost (a, b) = (self.left.fragment(), self.right.fragment());
        let r = into.add(self.left).add(self.right);
        proof {
            assert(r@ =~= into@ + (a + b));
        }
        r
    }
}

/// `left` followed by `right`.
pub fn combine<L: Render, R: Render>(left: L, right: R) -> (r: Combine<L, R>)
    ensures
        r.fragment() == left.fragment() + right.fragment(),
{
    Combine { left, right }
}

/// A named section around a composable.
pub struct Section<T: Render> {
    pub name: String,
    pub content: T,
}

impl<T: Render> Render for Section<T> {
    open spec fn fragment(&self) -> Seq<NodeView> {
        seq![NodeView::Open(self.name@)] + self.content.fragment() + seq![NodeView::Close]
    }

    fn render(self, into: Document) -> (r: Document) {
        let ghost (n, c) = (self.name@, self.content.fragment());
        let r = into.add_node(Node::OpenSection(self.name)).add(self.content).add_node(Node::CloseSection);
        proof {
            assert(r@ =~= into@ + (seq![NodeView::Open(n)] + c + seq![NodeView::Close]));
        }
        r
    }
}

/// The section `name` around `content`; sections are invisible, but
/// stylesheet selectors match their names.
#[allow(non_snake_case)]
pub fn Section<T: Render>(name: &str, content: T) -> (r: Section<T>)
    ensures
        r.fragment() == seq![NodeView::Open(name@)] + content.fragment() + seq![NodeView::Close],
{
    Section { name: name.to_owned(), content }
}

/// A composable followed by a line break.
pub struct Line<T: Render> {
    pub content: T,
}

impl<T: Render> Render for Line<T> {
    open spec fn fragment(&self) -> Seq<NodeView> {
        self.content.fragment().push(NodeView::Newline)
    }

    fn render(self, into: Document) -> (r: Document) {
        let ghost c = self.content.fragment();
        let r = into.add(self.content).add_node(Node::Newline);
        proof {
            assert(r@ =~= into@ + c.push(NodeView::Newline));
        }
        r
    }
}

/// `content` followed by a line break.
#[allow(non_snake_case)]
pub fn Line<T: Render>(content: T) -> (r: Line<T>)
    ensures
        r.fragment() == content.fragment().push(NodeView::Newline),
{
    Line { content }
}

/// The fragments of `parts`, one after another.
pub open spec fn concat(parts: Seq<Seq<NodeView>>) -> Seq<NodeView>
    decreases parts.len(),
{
    if parts.len() == 0 {
        Seq::empty()
    } else {
        concat(parts.drop_last()) + parts.last()
    }
}

/// The fragments of `parts` with a `joiner` text between neighbours.
pub open spec fn joined(parts: Seq<Seq<NodeView>>, joiner: Seq<char>) -> Seq<NodeView>
    decreases parts.len(),
{
    if parts.len() == 0 {
        Seq::empty()
    } else if parts.len() == 1 {
        parts[0]
    } else {
        joined(parts.drop_last(), joiner) + seq![NodeView::Text(joiner)] + parts.last()
    }
}

/// The fragments of a sequence of composables.
pub open spec fn fragments<D: Render>(parts: Seq<D>) -> Seq<Seq<NodeView>> {
    parts.map_values(|d: D| d.fragment())
}

/// The renderings of a list of items, one after another.
pub struct Each<D: Render> {
    pub parts: Vec<D>,
}

impl<D: Render> Render for Each<D> {
    open spec fn fragment(&self) -> Seq<NodeView> {
        concat(fragments(self.parts@))
    }

    fn render(self, into: Document) -> (r: Document) {
        let ghost all = fragments(self.parts@);
        let ghost start = into@;
        let mut parts = self.parts;
        let mut into = into;
        let mut k: usize = 0;
        let n = parts.len();
        proof {
            assert(all.take(0) =~= Seq::<Seq<NodeView>>::empty());
            assert(start + concat(Seq::<Seq<NodeView>>::empty()) =~= start);
            assert(fragments(parts@) =~= all.skip(0));
        }
        while parts.len() > 0
            invariant
                n == all.len(),
                k + parts@.len() == n,
                fragments(parts@) == all.skip(k as int),
                into@ == start + concat(all.take(k as int)),
            decreases parts@.len(),
        {
            let ghost rest = parts@;
            let part = parts.remove(0);
            proof {
                assert(fragments(rest)[0] == part.fragment());
                assert(all[k as int] == part.fragment());
                assert(parts@ =~= rest.drop_first());
                assert(fragments(parts@) =~= fragments(rest).drop_first());
                assert(all.skip(k as int).drop_first() =~= all.skip(k + 1));
                assert(all.take(k + 1).drop_last() =~= all.take(k as int));
            }
            into = into.add(part);
            k = k + 1;
            proof {
                assert(into@ =~= start + concat(all.take(k as int)));
            }
        }
        proof {
            assert(all.take(n as int) =~= all);
        }
        into
    }
}

/// For each item of `items` in order, the composable that `callback` makes
/// of it.
#[allow(non_snake_case)]
pub fn Each<U, D: Render, F: Fn(&U) -> D>(items: &[U], callback: F) -> (r: Each<D>)
    requires
        forall|i: int| 0 <= i < items@.len() ==> callback.requires((&items@[i],)),
    ensures
        r.parts@.len() == items@.len(),
        forall|i: int| 0 <= i < items@.len() ==> callback.ensures((&items@[i],), #[trigger] r.parts@[i]),
{
    let mut parts: Vec<D> = Vec::new();
    let mut k: usize = 0;
    while k < items.len()
        invariant
            k <= items@.len(),
            parts@.len() == k,
            forall|i: int| 0 <= i < items@.len() ==> callback.requires((&items@[i],)),
            forall|i: int| 0 <= i < k ==> callback.ensures((&items@[i],), #[trigger] parts@[i]),
        decreases items@.len() - k,
    {
        let part = callback(&items[k]);
        parts.push(part);
        k = k + 1;
    }
    Each { parts }
}

/// The renderings of a list of items with a separator text between
/// neighbours (not before the first, not after the last).
pub struct Join<D: Render> {
    pub parts: Vec<D>,
    pub joiner: String,
}

impl<D: Render> Render for Join<D> {
    open spec fn fragment(&self) -> Seq<NodeView> {
        joined(fragments(self.parts@), self.joiner@)
    }

    fn render(self, into: Document) -> (r: Document) {
        let ghost all = fragments(self.parts@);
        let ghost start = into@;
        let joiner = self.joiner;
        let mut parts = self.parts;
        let mut into = into;
        let mut k: usize = 0;
        let n = parts.len();
        proof {
            assert(all.take(0) =~= Seq::<Seq<NodeView>>::empty());
            assert(start + joined(Seq::<Seq<NodeView>>::empty(), joiner@) =~= start);
            assert(fragments(parts@) =~= all.skip(0));
        }
        while parts.len() > 0
            invariant
                n == all.len(),
                k + parts@.len() == n,
                fragments(parts@) == all.skip(k as int),
                into@ == start + joined(all.take(k as int), joiner@),
            decreases parts@.len(),
        {
            let ghost rest = parts@;
            let ghost before = into@;
            let part = parts.remove(0);
            proof {
                assert(fragments(rest)[0] == part.fragment());
                assert(all[k as int] == part.fragment());
                assert(parts@ =~= rest.drop_first());
                assert(fragments(parts@) =~= fragments(rest).drop_first());
                assert(all.skip(k as int).drop_first() =~= all.skip(k + 1));
                assert(all.take(k + 1).drop_last() =~= all.take(k as int));
                assert(all.take(k + 1).last() == part.fragment());
            }
            if k > 0 {
                into = into.add_node(Node::Text(joiner.clone()));
            }
            into = into.add(part);
            k = k + 1;
            proof {
                if k == 1 {
                    assert(all.take(1)[0] == all[0]);
                    assert(joined(Seq::<Seq<NodeView>>::empty(), joiner@) =~= Seq::<NodeView>::empty());
                    assert(before =~= start);
                }
                assert(into@ =~= start + joined(all.take(k as int), joiner@));
            }
        }
        proof {
            assert(all.take(n as int) =~= all);
        }
        into
    }
}

/// For each item of `items` in order, the composable that `callback` makes
/// of it, with the text `joiner` between neighbours.
#[allow(non_snake_case)]
pub fn Join<U, D: Render, F: Fn(&U) -> D>(items: &[U], joiner: &str, callback: F) -> (r: Join<D>)
    requires
        forall|i: int| 0 <= i < items@.len() ==> callback.requires((&items@[i],)),
    ensures
        r.joiner@ == joiner@,
        r.parts@.len() == items@.len(),
        forall|i: int| 0 <= i < items@.len() ==> callback.ensures((&items@[i],), #[trigger] r.parts@[i]),
{
    let each = Each(items, callback);
    Join { parts: each.parts, joiner: joiner.to_owned() }
}

/// The rendering of the value of `option`, or nothing when it is absent.
#[allow(non_snake_case)]
pub fn IfSome<T: Render>(option: Option<T>) -> (r: Document)
    ensures
        r@ == match option {
            Some(v) => v.fragment(),
            None => Seq::empty(),
        },
{
    match option {
        Some(v) => v.into_fragment(),
        None => Document::empty(),
    }
}

/// `s` written `n` times.
pub open spec fn repeated(s: Seq<char>, n: nat) -> Seq<char>
    decreases n,
{
    if n == 0 {
        Seq::empty()
    } else {
        repeated(s, (n - 1) as nat) + s
    }
}

/// Text whose content is computed when it is rendered.
#[derive(Debug)]
pub enum FormattedText {
    /// A text as it stands.
    String(String),
    /// A text written a number of times in a row.
    Repeat(String, usize),
}

impl FormattedText {
    /// The characters of the text.
    pub open spec fn text(&self) -> Seq<char> {
        match self {
            FormattedText::String(s) => s@,
            FormattedText::Repeat(s, n) => repeated(s@, *n as nat),
        }
    }

    /// The text, written out.
    pub fn as_string(&self) -> (r: String)
        ensures
            r@ == self.text(),
    {
        match self {
            FormattedText::String(s) => s.clone(),
            FormattedText::Repeat(s, n) => {
                let mut out = String::new();
                let mut k: usize = 0;
                while k < *n
                    invariant
                        k <= *n,
                        out@ == repeated(s@, k as nat),
                    decreases *n - k,
                {
                    out.append(s.as_str());
                    k = k + 1;
                }
                out
            },
        }
    }
}

impl Render for FormattedText {
    open spec fn fragment(&self) -> Seq<NodeView> {
        seq![NodeView::Text(self.text())]
    }

    fn render(self, into: Document) -> (r: Document) {
        let text = self.as_string();
        let r = into.add_node(Node::Text(text));
        proof {
            assert(r@ =~= into@ + seq![NodeView::Text(self.text())]);
        }
        r
    }
}

/// The text `item` written `size` times, as one text run.
pub fn repeat(item: &str, size: usize) -> (r: FormattedText)
    ensures
        r.text() == repeated(item@, size as nat),
{
    FormattedText::Repeat(item.to_owned(), size)
}

/// The text that `f` produces, as a composable.
pub fn format<F: Fn() -> String>(f: F) -> (r: FormattedText)
    requires
        f.requires(()),
    ensures
        (r is String),
        f.ensures((), r->String_0),
{
    FormattedText::String(f())
}

/// Concatenation of composables is associative.
pub proof fn lemma_combine_associative<A: Render, B: Render, C: Render>(a: A, b: B, c: C)
    ensures
        (Combine { left: (Combine { left: a, right: b }), right: c }).fragment() == (Combine {
            left: a,
            right: (Combine { left: b, right: c }),
        }).fragment(),
{
    assert((a.fragment() + b.fragment()) + c.fragment() =~= a.fragment() + (b.fragment() + c.fragment()));
}

/// The empty document is an identity of concatenation on either side.
pub proof fn lemma_empty_is_identity<A: Render>(a: A, e: Document)
    requires
        e@ == Seq::<NodeView>::empty(),
    ensures
        (Combine { left: e, right: a }).fragment() == a.fragment(),
        (Combine { left: a, right: e }).fragment() == a.fragment(),
{
    assert(e@ + a.fragment() =~= a.fragment());
    assert(a.fragment() + e@ =~= a.fragment());
}

} // verus!
