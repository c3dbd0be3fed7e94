//! The selector stylesheet: a trie of selector segments whose nodes may carry
//! a style, and the cascade that merges the styles matching a nesting path.
//!
//! A stylesheet is modelled by the map from each registered pattern to its
//! style. A trie node stands for a prefix of some registered pattern (the
//! root for the empty prefix), so lookup is specified over that map.

use vstd::prelude::*;
use crate::error::{ConfigError, ConfigFault};
use crate::style::{style_of, Style};
use crate::text::{split, split_text, same_text};

verus! {

/// One segment of a selector pattern.
#[derive(Debug)]
pub enum Segment {
    /// `*`: exactly one section name.
    Star,
    /// `**`: zero or more section names.
    Glob,
    /// A section name, matched exactly.
    Name(String),
}

/// The mathematical form of a [`Segment`].
pub enum Seg {
    Star,
    Glob,
    Name(Seq<char>),
}

impl View for Segment {
    type V = Seg;

    open spec fn view(&self) -> Seg {
        match self {
            Segment::Star => Seg::Star,
            Segment::Glob => Seg::Glob,
            Segment::Name(n) => Seg::Name(n@),
        }
    }
}

/// The segments of a pattern, as values.
pub open spec fn seg_views(s: Seq<Segment>) -> Seq<Seg> {
    s.map_values(|x: Segment| x@)
}

/// The segment that a token of a pattern stands for.
pub open spec fn segment_of(t: Seq<char>) -> Seg {
    if t == "**"@ {
        Seg::Glob
    } else if t == "*"@ {
        Seg::Star
    } else {
        Seg::Name(t)
    }
}

/// The pattern that a selector text denotes: its space-separated tokens,
/// or `None` where a token is empty.
pub open spec fn selector_of(text: Seq<char>) -> Option<Seq<Seg>> {
    let toks = split(text, ' ');
    if exists|k: int| 0 <= k < toks.len() && (#[trigger] toks[k]).len() == 0 {
        None
    } else {
        Some(toks.map_values(|t: Seq<char>| segment_of(t)))
    }
}

/// Whether `q` is a prefix of `p`.
pub open spec fn is_prefix(q: Seq<Seg>, p: Seq<Seg>) -> bool {
    q.len() <= p.len() && p.take(q.len() as int) == q
}

/// Whether the trie of `rules` has a node for the prefix `q`: the root, or a
/// prefix of a registered pattern.
pub open spec fn has_node(rules: Map<Seq<Seg>, Style>, q: Seq<Seg>) -> bool {
    q.len() == 0 || exists|p: Seq<Seg>| #[trigger] rules.contains_key(p) && is_prefix(q, p)
}

/// Whether the node `q` has no children.
pub open spec fn is_leaf(rules: Map<Seq<Seg>, Style>, q: Seq<Seg>) -> bool {
    forall|x: Seg| !has_node(rules, #[trigger] q.push(x))
}

/// The style stored at node `q`.
pub open spec fn style_at(rules: Map<Seq<Seg>, Style>, q: Seq<Seg>) -> Option<Style> {
    if rules.contains_key(q) {
        Some(rules[q])
    } else {
        None
    }
}

/// Whether the node `q` was reached through a glob.
pub open spec fn ends_in_glob(q: Seq<Seg>) -> bool {
    q.len() > 0 && q.last() == Seg::Glob
}

/// The style of node `q` once the path is used up: its glob child's if it
/// has one, its own if it has no children, else none.
pub open spec fn terminal_style(rules: Map<Seq<Seg>, Style>, q: Seq<Seg>) -> Option<Style> {
    if has_node(rules, q.push(Seg::Glob)) {
        style_at(rules, q.push(Seg::Glob))
    } else if is_leaf(rules, q) {
        style_at(rules, q)
    } else {
        None
    }
}

/// Two optional styles merged, the second taking precedence.
pub open spec fn merge_opt(a: Option<Style>, b: Option<Style>) -> Option<Style> {
    match (a, b) {
        (Some(x), Some(y)) => Some(x.merged(y)),
        (Some(x), None) => Some(x),
        (None, _) => b,
    }
}

/// The style resolved at node `q` for the remaining section names: the
/// matches through a glob, a star, a glob skipped over and a literal name,
/// merged in that order of rising precedence.
pub open spec fn resolve_at(
    rules: Map<Seq<Seg>, Style>,
    q: Seq<Seg>,
    names: Seq<Seq<char>>,
) -> Option<Style>
    decreases names.len(),
{
    if names.len() == 0 {
        terminal_style(rules, q)
    } else {
        let next = Seg::Name(names[0]);
        let rest = names.drop_first();
        let glob = if ends_in_glob(q) {
            resolve_at(rules, q, rest)
        } else if has_node(rules, q.push(Seg::Glob)) {
            resolve_at(rules, q.push(Seg::Glob), rest)
        } else {
            None
        };
        let star = if has_node(rules, q.push(Seg::Star)) {
            resolve_at(rules, q.push(Seg::Star), rest)
        } else {
            None
        };
        let skipped = if !ends_in_glob(q) && has_node(rules, q.push(Seg::Glob).push(next)) {
            resolve_at(rules, q.push(Seg::Glob).push(next), rest)
        } else {
            None
        };
        let literal = if has_node(rules, q.push(next)) {
            resolve_at(rules, q.push(next), rest)
        } else {
            None
        };
        merge_opt(merge_opt(merge_opt(glob, star), skipped), literal)
    }
}

/// The style that the rules give to a nesting path (outermost name first).
pub open spec fn resolve(rules: Map<Seq<Seg>, Style>, names: Seq<Seq<char>>) -> Option<Style> {
    resolve_at(rules, Seq::empty(), names)
}

/// Whether some node has the prefix `q`.
pub open spec fn holds(paths: Seq<Seq<Seg>>, q: Seq<Seg>) -> bool {
    exists|i: int| 0 <= i < paths.len() && paths[i] == q
}

/// An edge of the trie: `child` is reached from `parent` through `segment`.
struct Edge {
    parent: usize,
    segment: Segment,
    child: usize,
}

/// A set of rules from selector patterns to styles, held as a trie whose
/// nodes are numbered; node 0 is the root.
pub struct Stylesheet {
    styles: Vec<Option<Style>>,
    globs: Vec<bool>,
    edges: Vec<Edge>,
    paths: Ghost<Seq<Seq<Seg>>>,
    rules: Ghost<Map<Seq<Seg>, Style>>,
}

impl View for Stylesheet {
    type V = Map<Seq<Seg>, Style>;

    closed spec fn view(&self) -> Map<Seq<Seg>, Style> {
        self.rules@
    }
}

proof fn lemma_key_is_node(rules: Map<Seq<Seg>, Style>, q: Seq<Seg>)
    requires
        rules.contains_key(q),
    ensures
        has_node(rules, q),
{
    assert(q.take(q.len() as int) =~= q);
}

proof fn lemma_push_inj(a: Seq<Seg>, x: Seg, b: Seq<Seg>, y: Seg)
    requires
        a.push(x) == b.push(y),
    ensures
        a == b,
        x == y,
{
    assert(a.push(x).drop_last() =~= a);
    assert(b.push(y).drop_last() =~= b);
    assert(a.push(x).last() == x);
}

fn same_segment(a: &Segment, b: &Segment) -> (r: bool)
    ensures
        r == (a@ == b@),
{
    match (a, b) {
        (Segment::Star, Segment::Star) => true,
        (Segment::Glob, Segment::Glob) => true,
        (Segment::Name(x), Segment::Name(y)) => same_text(x.as_str(), y.as_str()),
        _ => false,
    }
}

fn copy_segment(a: &Segment) -> (r: Segment)
    ensures
        r@ == a@,
{
    match a {
        Segment::Star => Segment::Star,
        Segment::Glob => Segment::Glob,
        Segment::Name(x) => Segment::Name(x.clone()),
    }
}

/// The segment that one token of a selector text stands for.
fn segment_from(t: &String) -> (r: Segment)
    ensures
        r@ == segment_of(t@),
{
    if same_text(t.as_str(), "**") {
        Segment::Glob
    } else if same_text(t.as_str(), "*") {
        Segment::Star
    } else {
        Segment::Name(t.clone())
    }
}

/// Parses a selector text into its segments.
pub fn parse_selector(text: &str) -> (r: Result<Vec<Segment>, ConfigError>)
    ensures
        match r {
            Ok(v) => selector_of(text@) == Some(seg_views(v@)),
            Err(e) => selector_of(text@) is None && e@ == ConfigFault::MalformedSelector(text@),
        },
{
    let toks = split_text(text, ' ');
    let ghost tv = toks.deep_view();
    let mut segs: Vec<Segment> = Vec::new();
    let mut k: usize = 0;
    while k < toks.len()
        invariant
            tv == toks.deep_view(),
            tv == split(text@, ' '),
            k <= toks.len(),
            segs.len() == k,
            forall|j: int| 0 <= j < k ==> (#[trigger] tv[j]).len() > 0,
            forall|j: int| 0 <= j < k ==> (#[trigger] segs@[j])@ == segment_of(tv[j]),
        decreases toks.len() - k,
    {
        let t = &toks[k];
        assert(tv[k as int] == t@);
        if t.as_str().unicode_len() == 0 {
            return Err(ConfigError::MalformedSelector(text.to_owned()));
        }
        let s = segment_from(t);
        segs.push(s);
        k = k + 1;
    }
    proof {
        assert(seg_views(segs@) =~= tv.map_values(|t: Seq<char>| segment_of(t)));
    }
    Ok(segs)
}

/// The style of two optional styles merged, `right` taking precedence.
pub fn union(left: Option<Style>, right: Option<Style>) -> (r: Option<Style>)
    ensures
        r == merge_opt(left, right),
{
    match (left, right) {
        (Some(l), Some(r)) => Some(l.union(&r)),
        (Some(l), None) => Some(l),
        (None, r) => r,
    }
}

impl Stylesheet {
    spec fn node_count(&self) -> int {
        self.styles@.len() as int
    }

    spec fn edge_ok(&self, e: Edge) -> bool {
        &&& e.parent < self.node_count()
        &&& e.child < self.node_count()
        &&& self.paths@[e.child as int] == self.paths@[e.parent as int].push(e.segment@)
    }

    spec fn reached(&self, j: int) -> bool {
        exists|e: int| 0 <= e < self.edges@.len() && (#[trigger] self.edges@[e]).child == j
    }

    /// The shape of the trie: numbered nodes with distinct prefixes, and
    /// an edge into every node but the root.
    spec fn shape_ok(&self) -> bool {
        let n = self.node_count();
        &&& n >= 1
        &&& self.globs@.len() == n
        &&& self.paths@.len() == n
        &&& self.paths@[0] == Seq::<Seg>::empty()
        &&& forall|i: int, j: int|
            0 <= i < n && 0 <= j < n && #[trigger] self.paths@[i] == #[trigger] self.paths@[j]
                ==> i == j
        &&& forall|e: int| 0 <= e < self.edges@.len() ==> self.edge_ok(#[trigger] self.edges@[e])
        &&& forall|j: int| 0 < j < n ==> #[trigger] self.reached(j)
        &&& forall|i: int| 0 <= i < n ==> #[trigger] self.globs@[i] == ends_in_glob(self.paths@[i])
    }

    /// The trie holds exactly the nodes and styles of the rules.
    pub closed spec fn wf(&self) -> bool {
        let n = self.node_count();
        &&& self.shape_ok()
        &&& forall|i: int| 0 <= i < n ==> #[trigger] self.styles@[i] == style_at(self.rules@, self.paths@[i])
        &&& forall|i: int| 0 <= i < n ==> has_node(self.rules@, #[trigger] self.paths@[i])
        &&& forall|q: Seq<Seg>| has_node(self.rules@, q) ==> #[trigger] holds(self.paths@, q)
    }

    proof fn lemma_incoming(&self, i: int, x: Seg)
        requires
            self.shape_ok(),
            0 <= i < self.node_count(),
            holds(self.paths@, self.paths@[i].push(x)),
        ensures
            exists|f: int|
                0 <= f < self.edges@.len() && (#[trigger] self.edges@[f]).parent == i
                    && self.edges@[f].segment@ == x,
    {
        let q = self.paths@[i].push(x);
        let j = choose|j: int| 0 <= j < self.paths@.len() && self.paths@[j] == q;
        assert(j != 0) by {
            assert(self.paths@[j].len() > 0);
        }
        assert(self.reached(j));
        let f = choose|f: int| 0 <= f < self.edges@.len() && (#[trigger] self.edges@[f]).child == j;
        let e = self.edges@[f];
        assert(self.edge_ok(e));
        lemma_push_inj(self.paths@[e.parent as int], e.segment@, self.paths@[i], x);
    }

    /// The stylesheet with no rules.
    pub fn new() -> (r: Stylesheet)
        ensures
            r.wf(),
            r@ == Map::<Seq<Seg>, Style>::empty(),
    {
        let mut styles: Vec<Option<Style>> = Vec::new();
        styles.push(None);
        let mut globs: Vec<bool> = Vec::new();
        globs.push(false);
        let r = Stylesheet {
            styles,
            globs,
            edges: Vec::new(),
            paths: Ghost(Seq::<Seq<Seg>>::empty().push(Seq::<Seg>::empty())),
            rules: Ghost(Map::empty()),
        };
        proof {
            assert forall|q: Seq<Seg>| has_node(r.rules@, q) implies #[trigger] holds(r.paths@, q) by {
                assert(r.paths@[0] == q);
            }
        }
        r
    }

    /// The child of node `i` through segment `x`, if there is one.
    fn child(&self, i: usize, x: &Segment) -> (r: Option<usize>)
        requires
            self.shape_ok(),
            i < self.node_count(),
        ensures
            match r {
                Some(j) => j < self.node_count() && self.paths@[j as int] == self.paths@[i as int].push(x@),
                None => !holds(self.paths@, self.paths@[i as int].push(x@)),
            },
    {
        let mut e: usize = 0;
        while e < self.edges.len()
            invariant
                self.shape_ok(),
                i < self.node_count(),
                e <= self.edges@.len(),
                forall|f: int|
                    0 <= f < e ==> !((#[trigger] self.edges@[f]).parent == i && self.edges@[f].segment@ == x@),
            decreases self.edges@.len() - e,
        {
            let edge = &self.edges[e];
            if edge.parent == i && same_segment(&edge.segment, x) {
                assert(self.edge_ok(self.edges@[e as int]));
                return Some(edge.child);
            }
            e = e + 1;
        }
        proof {
            if holds(self.paths@, self.paths@[i as int].push(x@)) {
                self.lemma_incoming(i as int, x@);
            }
        }
        None
    }

    /// Whether node `i` has any child.
    fn has_children(&self, i: usize) -> (r: bool)
        requires
            self.wf(),
            i < self.node_count(),
        ensures
            r == !is_leaf(self.rules@, self.paths@[i as int]),
    {
        let ghost q = self.paths@[i as int];
        let mut e: usize = 0;
        while e < self.edges.len()
            invariant
                self.wf(),
                i < self.node_count(),
                q == self.paths@[i as int],
                e <= self.edges@.len(),
                forall|f: int| 0 <= f < e ==> (#[trigger] self.edges@[f]).parent != i,
            decreases self.edges@.len() - e,
        {
            if self.edges[e].parent == i {
                proof {
                    let ed = self.edges@[e as int];
                    assert(self.edge_ok(ed));
                    assert(has_node(self.rules@, self.paths@[ed.child as int]));
                    assert(has_node(self.rules@, q.push(ed.segment@)));
                }
                return true;
            }
            e = e + 1;
        }
        proof {
            assert forall|x: Seg| !has_node(self.rules@, #[trigger] q.push(x)) by {
                if has_node(self.rules@, q.push(x)) {
                    assert(holds(self.paths@, q.push(x)));
                    self.lemma_incoming(i as int, x);
                }
            }
        }
        false
    }

    /// Whether node `i` has a child through `x`, and which.
    fn child_in_rules(&self, i: usize, x: &Segment) -> (r: Option<usize>)
        requires
            self.wf(),
            i < self.node_count(),
        ensures
            match r {
                Some(j) => j < self.node_count() && self.paths@[j as int] == self.paths@[i as int].push(x@)
                    && has_node(self.rules@, self.paths@[i as int].push(x@)),
                None => !has_node(self.rules@, self.paths@[i as int].push(x@)),
            },
    {
        let r = self.child(i, x);
        proof {
            if r is Some {
                assert(has_node(self.rules@, self.paths@[r->Some_0 as int]));
            } else if has_node(self.rules@, self.paths@[i as int].push(x@)) {
                assert(holds(self.paths@, self.paths@[i as int].push(x@)));
            }
        }
        r
    }

    /// The style resolved at node `i` for the names of `names` from `pos` on.
    fn find(&self, i: usize, names: &Vec<Segment>, pos: usize, Ghost(path): Ghost<Seq<Seq<char>>>) -> (r:
        Option<Style>)
        requires
            self.wf(),
            i < self.node_count(),
            pos <= names.len(),
            names.len() == path.len(),
            forall|k: int| 0 <= k < names.len() ==> (#[trigger] names@[k])@ == Seg::Name(path[k]),
        ensures
            r == resolve_at(self.rules@, self.paths@[i as int], path.skip(pos as int)),
        decreases names.len() - pos,
    {
        let ghost q = self.paths@[i as int];
        let ghost rest = path.skip(pos as int);
        let glob_child = self.child_in_rules(i, &Segment::Glob);
        if pos == names.len() {
            assert(rest.len() == 0);
            match glob_child {
                Some(g) => {
                    return self.styles[g];
                },
                None => {
                    if self.has_children(i) {
                        return None;
                    } else {
                        return self.styles[i];
                    }
                },
            }
        }
        let next = &names[pos];
        proof {
            assert(rest[0] == path[pos as int]);
            assert(rest.drop_first() =~= path.skip(pos + 1));
            assert(next@ == Seg::Name(rest[0]));
        }
        let own_glob = self.globs[i];
        let mut style: Option<Style> = None;
        if own_glob {
            style = union(style, self.find(i, names, pos + 1, Ghost(path)));
        } else if let Some(g) = glob_child {
            style = union(style, self.find(g, names, pos + 1, Ghost(path)));
        }
        if let Some(s) = self.child_in_rules(i, &Segment::Star) {
            style = union(style, self.find(s, names, pos + 1, Ghost(path)));
        }
        if !own_glob {
            if let Some(g) = glob_child {
                if let Some(k) = self.child_in_rules(g, next) {
                    style = union(style, self.find(k, names, pos + 1, Ghost(path)));
                }
            } else {
                proof {
                    if has_node(self.rules@, q.push(Seg::Glob).push(next@)) {
                        assert(holds(self.paths@, q.push(Seg::Glob).push(next@)));
                        let j = choose|j: int| 0 <= j < self.paths@.len() && self.paths@[j] == q.push(Seg::Glob).push(next@);
                        assert(j != 0) by { assert(self.paths@[j].len() > 0); }
                        assert(self.reached(j));
                        let f = choose|f: int| 0 <= f < self.edges@.len() && (#[trigger] self.edges@[f]).child == j;
                        let e = self.edges@[f];
                        assert(self.edge_ok(e));
                        lemma_push_inj(self.paths@[e.parent as int], e.segment@, q.push(Seg::Glob), next@);
                        assert(has_node(self.rules@, self.paths@[e.parent as int]));
                    }
                }
            }
        }
        if let Some(l) = self.child_in_rules(i, next) {
            style = union(style, self.find(l, names, pos + 1, Ghost(path)));
        }
        style
    }

    /// Registers `style` under the pattern `segs`, replacing the style of an
    /// equal pattern.
    fn insert(&mut self, segs: &Vec<Segment>, style: Style)
        requires
            old(self).wf(),
        ensures
            final(self).wf(),
            final(self)@ == old(self)@.insert(seg_views(segs@), style),
    {
        let ghost p = seg_views(segs@);
        let ghost r0 = self.rules@;
        let ghost r1 = r0.insert(p, style);
        let mut cur: usize = 0;
        let mut k: usize = 0;
        proof {
            assert(p.take(0) =~= Seq::<Seg>::empty());
            assert forall|m: int| 0 <= m <= 0 implies #[trigger] holds(self.paths@, p.take(m)) by {
                assert(self.paths@[0] == p.take(m));
            }
            assert forall|i: int| 0 <= i < self.node_count() implies has_node(r1, #[trigger] self.paths@[i]) by {
                assert(has_node(r0, self.paths@[i]));
                if self.paths@[i].len() > 0 {
                    let w = choose|w: Seq<Seg>| #[trigger] r0.contains_key(w) && is_prefix(self.paths@[i], w);
                    assert(r1.contains_key(w));
                }
            }
        }
        while k < segs.len()
            invariant
                self.shape_ok(),
                self.rules@ == r0,
                r1 == r0.insert(p, style),
                p == seg_views(segs@),
                k <= segs.len(),
                cur < self.node_count(),
                self.paths@[cur as int] == p.take(k as int),
                forall|i: int| 0 <= i < self.node_count() ==> #[trigger] self.styles@[i] == style_at(r0, self.paths@[i]),
                forall|i: int| 0 <= i < self.node_count() ==> has_node(r1, #[trigger] self.paths@[i]),
                forall|q: Seq<Seg>| has_node(r0, q) ==> #[trigger] holds(self.paths@, q),
                forall|m: int| 0 <= m <= k ==> #[trigger] holds(self.paths@, p.take(m)),
            decreases segs.len() - k,
        {
            proof {
                assert(p.take(k + 1) =~= p.take(k as int).push(segs@[k as int]@));
            }
            match self.child(cur, &segs[k]) {
                Some(j) => {
                    cur = j;
                },
                None => {
                    let ghost old_paths = self.paths@;
                    let ghost old_self = *self;
                    let n = self.styles.len();
                    let seg = copy_segment(&segs[k]);
                    let g = match &seg {
                        Segment::Glob => true,
                        _ => false,
                    };
                    self.styles.push(None);
                    self.globs.push(g);
                    self.edges.push(Edge { parent: cur, segment: seg, child: n });
                    self.paths = Ghost(self.paths@.push(p.take(k + 1)));
                    proof {
                        let np = self.paths@;
                        assert(np[n as int] == p.take(k + 1));
                        assert forall|i: int| 0 <= i < n implies #[trigger] np[i] == old_paths[i] by {}
                        assert forall|i: int, j: int|
                            0 <= i < n + 1 && 0 <= j < n + 1 && #[trigger] np[i] == #[trigger] np[j] implies i == j by {
                            if i < n && j == n {
                                assert(holds(old_paths, p.take(k + 1)));
                            }
                            if j < n && i == n {
                                assert(holds(old_paths, p.take(k + 1)));
                            }
                        }
                        assert forall|e: int| 0 <= e < self.edges@.len() implies self.edge_ok(#[trigger] self.edges@[e]) by {
                            if e < old_self.edges@.len() {
                                assert(old_self.edge_ok(old_self.edges@[e]));
                            }
                        }
                        assert forall|j: int| 0 < j < n + 1 implies #[trigger] self.reached(j) by {
                            if j < n {
                                assert(old_self.reached(j));
                                let f = choose|f: int| 0 <= f < old_self.edges@.len() && (#[trigger] old_self.edges@[f]).child == j;
                                assert(self.edges@[f] == old_self.edges@[f]);
                            } else {
                                assert(self.edges@[self.edges@.len() - 1].child == j);
                            }
                        }
                        assert forall|i: int| 0 <= i < n + 1 implies #[trigger] self.globs@[i] == ends_in_glob(np[i]) by {
                            if i == n {
                                assert(np[i].last() == segs@[k as int]@);
                            } else {
                                assert(old_self.globs@[i] == ends_in_glob(old_paths[i]));
                            }
                        }
                        assert(!has_node(r0, p.take(k + 1))) by {
                            if has_node(r0, p.take(k + 1)) {
                                assert(holds(old_paths, p.take(k + 1)));
                            }
                        }
                        assert(!r0.contains_key(p.take(k + 1))) by {
                            if r0.contains_key(p.take(k + 1)) {
                                lemma_key_is_node(r0, p.take(k + 1));
                            }
                        }
                        assert forall|i: int| 0 <= i < n + 1 implies #[trigger] self.styles@[i] == style_at(r0, np[i]) by {
                            if i < n {
                                assert(old_self.styles@[i] == style_at(r0, old_paths[i]));
                            }
                        }
                        assert forall|i: int| 0 <= i < n + 1 implies has_node(r1, #[trigger] np[i]) by {
                            if i < n {
                                assert(has_node(r1, old_paths[i]));
                            } else {
                                assert(r1.contains_key(p));
                                assert(is_prefix(p.take(k + 1), p));
                            }
                        }
                        assert forall|q: Seq<Seg>| has_node(r0, q) implies #[trigger] holds(np, q) by {
                            assert(holds(old_paths, q));
                            let i = choose|i: int| 0 <= i < old_paths.len() && old_paths[i] == q;
                            assert(np[i] == q);
                        }
                        assert forall|m: int| 0 <= m <= k + 1 implies #[trigger] holds(np, p.take(m)) by {
                            if m <= k {
                                assert(holds(old_paths, p.take(m)));
                                let i = choose|i: int| 0 <= i < old_paths.len() && old_paths[i] == p.take(m);
                                assert(np[i] == p.take(m));
                            } else {
                                assert(np[n as int] == p.take(m));
                            }
                        }
                    }
                    cur = n;
                },
            }
            k = k + 1;
            proof {
                assert(holds(self.paths@, p.take(k as int))) by {
                    assert(self.paths@[cur as int] == p.take(k as int));
                }
            }
        }
        let ghost pre = *self;
        self.styles.set(cur, Some(style));
        self.rules = Ghost(r1);
        proof {
            assert(p.take(segs.len() as int) =~= p);
            let n = self.node_count();
            assert forall|i: int| 0 <= i < n implies #[trigger] self.styles@[i] == style_at(r1, self.paths@[i]) by {
                if i != cur {
                    assert(pre.styles@[i] == style_at(r0, pre.paths@[i]));
                    assert(self.paths@[i] != p);
                }
            }
            assert forall|q: Seq<Seg>| has_node(r1, q) implies #[trigger] holds(self.paths@, q) by {
                if q.len() > 0 {
                    let w = choose|w: Seq<Seg>| #[trigger] r1.contains_key(w) && is_prefix(q, w);
                    if w == p {
                        assert(q == p.take(q.len() as int));
                        assert(holds(pre.paths@, p.take(q.len() as int)));
                    } else {
                        assert(r0.contains_key(w));
                        assert(has_node(r0, q));
                    }
                } else {
                    assert(self.paths@[0] == q);
                }
            }
            assert(self.edges@ == pre.edges@);
            assert forall|e: int| 0 <= e < self.edges@.len() implies self.edge_ok(#[trigger] self.edges@[e]) by {
                assert(pre.edge_ok(pre.edges@[e]));
            }
            assert forall|j: int| 0 < j < n implies #[trigger] self.reached(j) by {
                assert(pre.reached(j));
            }
        }
    }

    /// Adds the rule `pattern -> style`. A later rule for an equal pattern
    /// replaces the earlier one. A pattern with an empty segment is refused.
    pub fn add(self, pattern: &str, style: Style) -> (r: Result<Stylesheet, ConfigError>)
        requires
            self.wf(),
        ensures
            match r {
                Ok(s) => s.wf() && selector_of(pattern@) is Some
                    && s@ == self@.insert(selector_of(pattern@)->Some_0, style),
                Err(e) => selector_of(pattern@) is None && e@ == ConfigFault::MalformedSelector(pattern@),
            },
    {
        match parse_selector(pattern) {
            Ok(segs) => {
                let mut sheet = self;
                sheet.insert(&segs, style);
                Ok(sheet)
            },
            Err(e) => Err(e),
        }
    }

    /// The style that the stylesheet gives to the nesting path `names`.
    pub(crate) fn lookup(&self, names: &Vec<String>) -> (r: Option<Style>)
        requires
            self.wf(),
        ensures
            r == resolve(self@, names.deep_view()),
    {
        let ghost path = names.deep_view();
        let mut segs: Vec<Segment> = Vec::new();
        let mut k: usize = 0;
        while k < names.len()
            invariant
                path == names.deep_view(),
                k <= names.len(),
                segs.len() == k,
                forall|j: int| 0 <= j < k ==> (#[trigger] segs@[j])@ == Seg::Name(path[j]),
            decreases names.len() - k,
        {
            segs.push(Segment::Name(names[k].clone()));
            k = k + 1;
        }
        proof {
            assert(path.skip(0) =~= path);
        }
        self.find(0, &segs, 0, Ghost(path))
    }

    /// Adds the rule `pattern -> style` where the style is written as text
    /// (see [`Style::parse`]); refuses a malformed pattern first, then a
    /// malformed style.
    pub fn add_rule(self, pattern: &str, style: &str) -> (r: Result<Stylesheet, ConfigError>)
        requires
            self.wf(),
        ensures
            match r {
                Ok(s) => s.wf() && selector_of(pattern@) is Some && style_of(style@) is Ok
                    && s@ == self@.insert(selector_of(pattern@)->Some_0, style_of(style@)->Ok_0),
                Err(e) => if selector_of(pattern@) is None {
                    e@ == ConfigFault::MalformedSelector(pattern@)
                } else {
                    style_of(style@) == Err::<Style, ConfigFault>(e@)
                },
            },
    {
        let segs = match parse_selector(pattern) {
            Ok(segs) => segs,
            Err(e) => return Err(e),
        };
        let st = match Style::parse(style) {
            Ok(st) => st,
            Err(e) => return Err(e),
        };
        let mut sheet = self;
        sheet.insert(&segs, st);
        Ok(sheet)
    }

    /// The style that the stylesheet gives to a nesting path of section
    /// names, outermost first; `None` where no rule matches.
    pub fn get(&self, names: &[&str]) -> (r: Option<Style>)
        requires
            self.wf(),
        ensures
            r == resolve(self@, names@.map_values(|n: &str| n@)),
    {
        let ghost path = names@.map_values(|n: &str| n@);
        let mut segs: Vec<Segment> = Vec::new();
        let mut k: usize = 0;
        while k < names.len()
            invariant
                path == names@.map_values(|n: &str| n@),
                k <= names.len(),
                segs.len() == k,
                forall|j: int| 0 <= j < k ==> (#[trigger] segs@[j])@ == Seg::Name(path[j]),
            decreases names.len() - k,
        {
            segs.push(Segment::Name(names[k].to_owned()));
            k = k + 1;
        }
        proof {
            assert(path.skip(0) =~= path);
        }
        self.find(0, &segs, 0, Ghost(path))
    }
}

} // verus!
