//! Laws of the cascade: what lookup gives for literal rules, trailing globs,
//! globs that absorb nothing, and rules of different specificity.

use vstd::prelude::*;
use crate::style::Style;
use crate::stylesheet::{has_node, is_leaf, is_prefix, resolve, resolve_at, style_at, terminal_style, Seg};

verus! {

/// The pattern of literal segments that names exactly `names`.
pub open spec fn literal_pattern(names: Seq<Seq<char>>) -> Seq<Seg> {
    names.map_values(|n: Seq<char>| Seg::Name(n))
}

/// The rules that hold the single rule `p -> s`.
pub open spec fn single_rule(p: Seq<Seg>, s: Style) -> Map<Seq<Seg>, Style> {
    Map::<Seq<Seg>, Style>::empty().insert(p, s)
}

/// The trie of one rule has a node for exactly the prefixes of its pattern.
proof fn lemma_single_nodes(p: Seq<Seg>, s: Style, q: Seq<Seg>)
    ensures
        has_node(single_rule(p, s), q) == is_prefix(q, p),
{
    let r = single_rule(p, s);
    assert(r.contains_key(p));
    if q.len() == 0 {
        assert(p.take(0) =~= q);
    } else if has_node(r, q) {
        let w = choose|w: Seq<Seg>| #[trigger] r.contains_key(w) && is_prefix(q, w);
        assert(w == p);
    }
}

/// A prefix of `p` extended by `x` is a prefix of `p` only where `x` is the
/// next segment of `p`.
proof fn lemma_prefix_step(p: Seq<Seg>, m: int, x: Seg)
    requires
        0 <= m <= p.len(),
        is_prefix(p.take(m).push(x), p),
    ensures
        m < p.len(),
        p[m] == x,
{
    assert(p.take(m).push(x).len() == m + 1);
    assert(p.take(m + 1)[m] == p[m]);
    assert(p.take(m).push(x)[m] == x);
}

proof fn lemma_literal_walk(names: Seq<Seq<char>>, s: Style, m: int)
    requires
        0 <= m <= names.len(),
    ensures
        resolve_at(single_rule(literal_pattern(names), s), literal_pattern(names).take(m), names.skip(m))
            == Some(s),
    decreases names.len() - m,
{
    let p = literal_pattern(names);
    let r = single_rule(p, s);
    let q = p.take(m);
    if m == names.len() {
        assert(q =~= p);
        lemma_single_nodes(p, s, q.push(Seg::Glob));
        assert forall|x: Seg| !has_node(r, #[trigger] q.push(x)) by {
            lemma_single_nodes(p, s, q.push(x));
        }
        assert(is_leaf(r, q));
        assert(names.skip(m).len() == 0);
    } else {
        let rest = names.skip(m);
        let next = Seg::Name(rest[0]);
        assert(rest[0] == names[m]);
        assert(rest.drop_first() =~= names.skip(m + 1));
        lemma_literal_walk(names, s, m + 1);
        assert(!(q.len() > 0 && q.last() == Seg::Glob)) by {
            if q.len() > 0 {
                assert(q.last() == p[m - 1]);
            }
        }
        lemma_single_nodes(p, s, q.push(Seg::Glob));
        if is_prefix(q.push(Seg::Glob), p) {
            lemma_prefix_step(p, m, Seg::Glob);
        }
        lemma_single_nodes(p, s, q.push(Seg::Star));
        if is_prefix(q.push(Seg::Star), p) {
            lemma_prefix_step(p, m, Seg::Star);
        }
        lemma_single_nodes(p, s, q.push(Seg::Glob).push(next));
        if is_prefix(q.push(Seg::Glob).push(next), p) {
            assert(p.take(m + 2)[m] == p[m]);
            assert(q.push(Seg::Glob).push(next)[m] == Seg::Glob);
        }
        assert(q.push(next) =~= p.take(m + 1));
        lemma_single_nodes(p, s, q.push(next));
    }
}

/// A rule of literal segments alone gives its style to the path of exactly
/// those names.
pub proof fn lemma_literal_rule_matches(names: Seq<Seq<char>>, s: Style)
    ensures
        resolve(single_rule(literal_pattern(names), s), names) == Some(s),
{
    lemma_literal_walk(names, s, 0);
    assert(literal_pattern(names).take(0) =~= Seq::<Seg>::empty());
    assert(names.skip(0) =~= names);
}

/// Extending a prefix of `p` by `x` stays a prefix exactly where `x` is the
/// segment of `p` that follows.
proof fn lemma_push_prefix(q: Seq<Seg>, x: Seg, p: Seq<Seg>)
    ensures
        is_prefix(q.push(x), p) == (is_prefix(q, p) && q.len() < p.len() && p[q.len() as int] == x),
{
    let n = q.len() as int;
    if is_prefix(q.push(x), p) {
        assert(p.take(n + 1).drop_last() =~= p.take(n));
        assert(q.push(x).drop_last() =~= q);
        assert(q.push(x)[n] == x);
    }
    if is_prefix(q, p) && n < p.len() && p[n] == x {
        assert(p.take(n + 1) =~= p.take(n).push(p[n]));
    }
}

/// Below the glob at the end of a rule, every path has the rule's style.
proof fn lemma_trailing_glob_loop(p: Seq<Seg>, s: Style, t: Seq<Seq<char>>)
    requires
        p.len() > 0,
        p.last() == Seg::Glob,
    ensures
        resolve_at(single_rule(p, s), p, t) == Some(s),
    decreases t.len(),
{
    let r = single_rule(p, s);
    assert(p.take(p.len() as int) =~= p);
    assert forall|x: Seg| !has_node(r, #[trigger] p.push(x)) by {
        lemma_single_nodes(p, s, p.push(x));
    }
    if t.len() > 0 {
        let next = Seg::Name(t[0]);
        lemma_trailing_glob_loop(p, s, t.drop_first());
        assert(!has_node(r, p.push(Seg::Star)));
        assert(!has_node(r, p.push(next)));
    } else {
        assert(!has_node(r, p.push(Seg::Glob)));
        assert(is_leaf(r, p));
    }
}

proof fn lemma_trailing_glob_walk(a: Seq<Seq<char>>, extra: Seq<Seq<char>>, s: Style, m: int)
    requires
        0 <= m <= a.len(),
    ensures
        resolve_at(
            single_rule(literal_pattern(a).push(Seg::Glob), s),
            literal_pattern(a).push(Seg::Glob).take(m),
            (a + extra).skip(m),
        ) == Some(s),
    decreases a.len() - m,
{
    let p = literal_pattern(a).push(Seg::Glob);
    let r = single_rule(p, s);
    let q = p.take(m);
    let t = (a + extra).skip(m);
    assert(is_prefix(q, p));
    assert(!(q.len() > 0 && q.last() == Seg::Glob)) by {
        if q.len() > 0 {
            assert(q.last() == p[m - 1]);
        }
    }
    lemma_single_nodes(p, s, q.push(Seg::Glob));
    lemma_push_prefix(q, Seg::Glob, p);
    lemma_single_nodes(p, s, q.push(Seg::Star));
    lemma_push_prefix(q, Seg::Star, p);
    if m < a.len() {
        let next = Seg::Name(t[0]);
        assert(t[0] == a[m]);
        assert(t.drop_first() =~= (a + extra).skip(m + 1));
        lemma_trailing_glob_walk(a, extra, s, m + 1);
        lemma_single_nodes(p, s, q.push(Seg::Glob).push(next));
        lemma_push_prefix(q.push(Seg::Glob), next, p);
        lemma_push_prefix(q, Seg::Glob, p);
        lemma_single_nodes(p, s, q.push(next));
        lemma_push_prefix(q, next, p);
        assert(q.push(next) =~= p.take(m + 1));
    } else {
        assert(q.push(Seg::Glob) =~= p);
        assert(t =~= extra);
        if t.len() > 0 {
            let next = Seg::Name(t[0]);
            lemma_trailing_glob_loop(p, s, t.drop_first());
            lemma_single_nodes(p, s, q.push(Seg::Glob).push(next));
            assert(q.push(Seg::Glob).push(next).len() > p.len());
            lemma_single_nodes(p, s, q.push(next));
            lemma_push_prefix(q, next, p);
        }
    }
}

/// A rule that ends in a glob gives its style to every path that starts
/// with the rule's literal names, however many names follow, none included.
pub proof fn lemma_trailing_glob_is_terminal(a: Seq<Seq<char>>, extra: Seq<Seq<char>>, s: Style)
    ensures
        resolve(single_rule(literal_pattern(a).push(Seg::Glob), s), a + extra) == Some(s),
{
    lemma_trailing_glob_walk(a, extra, s, 0);
    assert(literal_pattern(a).push(Seg::Glob).take(0) =~= Seq::<Seg>::empty());
    assert((a + extra).skip(0) =~= a + extra);
}

/// The pattern `a ** b`.
pub open spec fn glob_between(a: Seq<char>, b: Seq<char>) -> Seq<Seg> {
    seq![Seg::Name(a), Seg::Glob, Seg::Name(b)]
}

/// At the node `a b` of the rule `a ** b`, nothing is left to match.
proof fn lemma_glob_between_end(a: Seq<char>, b: Seq<char>, s: Style, t: Seq<Seq<char>>)
    ensures
        resolve_at(single_rule(glob_between(a, b), s), glob_between(a, b), t) == if t.len() == 0 {
            Some(s)
        } else {
            None
        },
{
    let p = glob_between(a, b);
    let r = single_rule(p, s);
    assert(p.take(3) =~= p);
    assert forall|x: Seg| !has_node(r, #[trigger] p.push(x)) by {
        lemma_single_nodes(p, s, p.push(x));
    }
    assert(is_leaf(r, p));
    if t.len() > 0 {
        let next = Seg::Name(t[0]);
        assert(!has_node(r, p.push(Seg::Glob)));
        assert(!has_node(r, p.push(Seg::Star)));
        assert(!has_node(r, p.push(next)));
        assert(!has_node(r, p.push(Seg::Glob).push(next))) by {
            lemma_single_nodes(p, s, p.push(Seg::Glob).push(next));
        }
    }
}

/// At the glob node of the rule `a ** b`, every path that ends in `b` has
/// the rule's style.
proof fn lemma_glob_between_loop(a: Seq<char>, b: Seq<char>, s: Style, t: Seq<Seq<char>>)
    requires
        t.len() > 0,
        t.last() == b,
    ensures
        resolve_at(single_rule(glob_between(a, b), s), glob_between(a, b).take(2), t) == Some(s),
    decreases t.len(),
{
    let p = glob_between(a, b);
    let r = single_rule(p, s);
    let q = p.take(2);
    let next = Seg::Name(t[0]);
    assert(q.last() == Seg::Glob);
    assert(is_prefix(q, p));
    lemma_single_nodes(p, s, q.push(Seg::Star));
    lemma_push_prefix(q, Seg::Star, p);
    lemma_single_nodes(p, s, q.push(next));
    lemma_push_prefix(q, next, p);
    lemma_single_nodes(p, s, q.push(Seg::Glob));
    lemma_push_prefix(q, Seg::Glob, p);
    if next == p[2] {
        assert(q.push(next) =~= p);
        lemma_glob_between_end(a, b, s, t.drop_first());
    }
    if t.len() == 1 {
        assert(q.push(next) =~= p);
        assert(!is_leaf(r, q)) by {
            assert(has_node(r, q.push(next)));
        }
    } else {
        lemma_glob_between_loop(a, b, s, t.drop_first());
    }
}

/// The rule `a ** b` gives its style to `a` followed by `b`, with any
/// names between them, none included.
pub proof fn lemma_glob_matches_zero_or_more(a: Seq<char>, b: Seq<char>, mid: Seq<Seq<char>>, s: Style)
    ensures
        resolve(single_rule(glob_between(a, b), s), seq![a] + mid + seq![b]) == Some(s),
{
    let p = glob_between(a, b);
    let r = single_rule(p, s);
    let names = seq![a] + mid + seq![b];
    let root = Seq::<Seg>::empty();
    let q1 = p.take(1);
    let n1 = names.drop_first();
    assert(names[0] == a);
    assert(n1 =~= mid + seq![b]);
    assert(is_prefix(root, p)) by {
        assert(p.take(0) =~= root);
    }
    assert(root.push(Seg::Name(a)) =~= q1);
    lemma_single_nodes(p, s, root.push(Seg::Glob));
    lemma_push_prefix(root, Seg::Glob, p);
    lemma_single_nodes(p, s, root.push(Seg::Star));
    lemma_push_prefix(root, Seg::Star, p);
    lemma_single_nodes(p, s, root.push(Seg::Name(a)));
    lemma_push_prefix(root, Seg::Name(a), p);
    lemma_single_nodes(p, s, root.push(Seg::Glob).push(Seg::Name(a)));
    lemma_push_prefix(root.push(Seg::Glob), Seg::Name(a), p);
    lemma_push_prefix(root, Seg::Glob, p);
    // at the node `a`
    let next = Seg::Name(n1[0]);
    assert(is_prefix(q1, p));
    assert(q1.push(Seg::Glob) =~= p.take(2));
    lemma_single_nodes(p, s, q1.push(Seg::Glob));
    lemma_push_prefix(q1, Seg::Glob, p);
    lemma_single_nodes(p, s, q1.push(Seg::Star));
    lemma_push_prefix(q1, Seg::Star, p);
    lemma_single_nodes(p, s, q1.push(next));
    lemma_push_prefix(q1, next, p);
    lemma_single_nodes(p, s, q1.push(Seg::Glob).push(next));
    lemma_push_prefix(q1.push(Seg::Glob), next, p);
    if next == p[2] {
        assert(q1.push(Seg::Glob).push(next) =~= p);
        lemma_glob_between_end(a, b, s, n1.drop_first());
    }
    if mid.len() == 0 {
        assert(n1 =~= seq![b]);
        assert(n1.drop_first().len() == 0);
        assert(q1.push(Seg::Glob).push(next) =~= p);
        assert(!is_leaf(r, p.take(2))) by {
            assert(p.take(2).push(Seg::Name(b)) =~= p);
            assert(has_node(r, p.take(2).push(Seg::Name(b))));
        }
        assert(!has_node(r, p.take(2).push(Seg::Glob))) by {
            lemma_single_nodes(p, s, p.take(2).push(Seg::Glob));
            lemma_push_prefix(p.take(2), Seg::Glob, p);
        }
    } else {
        assert(n1.drop_first().last() == b);
        lemma_glob_between_loop(a, b, s, n1.drop_first());
    }
    assert(resolve_at(r, q1, n1) == Some(s));
    assert(resolve_at(r, root, names) == Some(s));
    assert(resolve(r, names) == Some(s));
}

/// The rules `a ** c -> s1`, `a b * c -> s2` and `a b e c -> s3`, added in
/// that order.
pub open spec fn three_rules(
    a: Seq<char>,
    b: Seq<char>,
    e: Seq<char>,
    c: Seq<char>,
    s1: Style,
    s2: Style,
    s3: Style,
) -> Map<Seq<Seg>, Style> {
    Map::<Seq<Seg>, Style>::empty().insert(seq![Seg::Name(a), Seg::Glob, Seg::Name(c)], s1).insert(
        seq![Seg::Name(a), Seg::Name(b), Seg::Star, Seg::Name(c)],
        s2,
    ).insert(seq![Seg::Name(a), Seg::Name(b), Seg::Name(e), Seg::Name(c)], s3)
}

proof fn lemma_three_child(
    a: Seq<char>,
    b: Seq<char>,
    e: Seq<char>,
    c: Seq<char>,
    s1: Style,
    s2: Style,
    s3: Style,
    q: Seq<Seg>,
    x: Seg,
)
    ensures
        ({
            let glob_rule = seq![Seg::Name(a), Seg::Glob, Seg::Name(c)];
            let star_rule = seq![Seg::Name(a), Seg::Name(b), Seg::Star, Seg::Name(c)];
            let literal_rule = seq![Seg::Name(a), Seg::Name(b), Seg::Name(e), Seg::Name(c)];
            has_node(three_rules(a, b, e, c, s1, s2, s3), q.push(x)) == (is_prefix(q.push(x), glob_rule)
                || is_prefix(q.push(x), star_rule) || is_prefix(q.push(x), literal_rule))
        }),
{
    let glob_rule = seq![Seg::Name(a), Seg::Glob, Seg::Name(c)];
    let star_rule = seq![Seg::Name(a), Seg::Name(b), Seg::Star, Seg::Name(c)];
    let literal_rule = seq![Seg::Name(a), Seg::Name(b), Seg::Name(e), Seg::Name(c)];
    let r = three_rules(a, b, e, c, s1, s2, s3);
    let q2 = q.push(x);
    assert(r.contains_key(glob_rule) && r.contains_key(star_rule) && r.contains_key(literal_rule));
    if has_node(r, q2) {
        let w = choose|w: Seq<Seg>| #[trigger] r.contains_key(w) && is_prefix(q2, w);
        assert(w == glob_rule || w == star_rule || w == literal_rule);
    }
    lemma_push_prefix(q, x, glob_rule);
    lemma_push_prefix(q, x, star_rule);
    lemma_push_prefix(q, x, literal_rule);
}

/// Of the rules `a ** c`, `a b * c` and `a b e c`, each matches the path
/// `a b e c`, and their styles merge with the literal rule over the star
/// rule over the glob rule: a slot set by a more specific rule wins, and a
/// slot that only one rule sets keeps that rule's value.
pub proof fn lemma_specificity(
    a: Seq<char>,
    b: Seq<char>,
    e: Seq<char>,
    c: Seq<char>,
    s1: Style,
    s2: Style,
    s3: Style,
)
    requires
        a != b,
        a != e,
        a != c,
        b != e,
        b != c,
        e != c,
    ensures
        resolve(three_rules(a, b, e, c, s1, s2, s3), seq![a, b, e, c]) == Some(
            s1.merged(s2).merged(s3),
        ),
{
    let glob_rule = seq![Seg::Name(a), Seg::Glob, Seg::Name(c)];
    let star_rule = seq![Seg::Name(a), Seg::Name(b), Seg::Star, Seg::Name(c)];
    let literal_rule = seq![Seg::Name(a), Seg::Name(b), Seg::Name(e), Seg::Name(c)];
    let r = three_rules(a, b, e, c, s1, s2, s3);
    let na = Seg::Name(a);
    let nb = Seg::Name(b);
    let ne = Seg::Name(e);
    let nc = Seg::Name(c);
    let root = Seq::<Seg>::empty();
    let qa = root.push(na);
    let qag = qa.push(Seg::Glob);
    let qab = qa.push(nb);
    let qabs = qab.push(Seg::Star);
    let qabe = qab.push(ne);
    let path = seq![a, b, e, c];
    let t1 = path.drop_first();
    let t2 = t1.drop_first();
    let t3 = t2.drop_first();
    assert(t1 =~= seq![b, e, c]);
    assert(t2 =~= seq![e, c]);
    assert(t3 =~= seq![c]);
    assert(t3.drop_first() =~= Seq::<Seq<char>>::empty());
    assert(qag.push(nc) =~= glob_rule);
    assert(qabs.push(nc) =~= star_rule);
    assert(qabe.push(nc) =~= literal_rule);
    assert(is_prefix(root, glob_rule)) by { assert(glob_rule.take(0) =~= root); }
    assert(is_prefix(root, star_rule)) by { assert(star_rule.take(0) =~= root); }
    assert(is_prefix(root, literal_rule)) by { assert(literal_rule.take(0) =~= root); }
    assert(glob_rule.take(3) =~= glob_rule);
    assert(star_rule.take(4) =~= star_rule);
    assert(literal_rule.take(4) =~= literal_rule);
    // the leaves
    assert forall|p: Seq<Seg>, x: Seg| (p == glob_rule || p == star_rule || p == literal_rule) implies !has_node(r, #[trigger] p.push(x)) by {
        lemma_three_child(a, b, e, c, s1, s2, s3, p, x);
        lemma_push_prefix(p, x, glob_rule);
        lemma_push_prefix(p, x, star_rule);
        lemma_push_prefix(p, x, literal_rule);
    }
    assert(is_leaf(r, glob_rule));
    assert(is_leaf(r, star_rule));
    assert(is_leaf(r, literal_rule));
    lemma_key_in(r, glob_rule);
    lemma_key_in(r, star_rule);
    lemma_key_in(r, literal_rule);
    assert(resolve_at(r, glob_rule, t3.drop_first()) == Some(s1));
    assert(resolve_at(r, star_rule, t3.drop_first()) == Some(s2));
    assert(resolve_at(r, literal_rule, t3.drop_first()) == Some(s3));
    // the node `a ** c` is reached from `a **` on `c`
    lemma_push_prefix(root, na, glob_rule);
    lemma_push_prefix(root, na, star_rule);
    lemma_push_prefix(root, na, literal_rule);
    lemma_push_prefix(qa, Seg::Glob, glob_rule);
    lemma_push_prefix(qa, Seg::Glob, star_rule);
    lemma_push_prefix(qa, Seg::Glob, literal_rule);
    lemma_push_prefix(qa, nb, glob_rule);
    lemma_push_prefix(qa, nb, star_rule);
    lemma_push_prefix(qa, nb, literal_rule);
    lemma_push_prefix(qab, Seg::Star, star_rule);
    lemma_push_prefix(qab, Seg::Star, literal_rule);
    lemma_push_prefix(qab, ne, star_rule);
    lemma_push_prefix(qab, ne, literal_rule);
    lemma_three_child(a, b, e, c, s1, s2, s3, qag, Seg::Glob);
    lemma_three_child(a, b, e, c, s1, s2, s3, qag, Seg::Star);
    lemma_three_child(a, b, e, c, s1, s2, s3, qag, nc);
    lemma_three_child(a, b, e, c, s1, s2, s3, qag, ne);
    lemma_push_prefix(qag, Seg::Glob, glob_rule);
    lemma_push_prefix(qag, Seg::Star, glob_rule);
    lemma_push_prefix(qag, ne, glob_rule);
    assert(!is_leaf(r, qag)) by {
        assert(has_node(r, qag.push(nc)));
    }
    assert(t3[0] == c);
    assert(terminal_style(r, qag) == None::<Style>);
    assert(resolve_at(r, qag, t3.drop_first()) == None::<Style>);
    assert(resolve_at(r, qag.push(nc), t3.drop_first()) == Some(s1));
    assert(resolve_at(r, qag, t3) == Some(s1));
    assert(resolve_at(r, qag, t2) == Some(s1));
    // the node `a b *` and `a b e`
    lemma_three_child(a, b, e, c, s1, s2, s3, qabs, Seg::Glob);
    lemma_three_child(a, b, e, c, s1, s2, s3, qabs, Seg::Star);
    lemma_three_child(a, b, e, c, s1, s2, s3, qabs, nc);
    lemma_push_prefix(qabs, Seg::Glob, star_rule);
    lemma_push_prefix(qabs, Seg::Star, star_rule);
    assert(resolve_at(r, qabs, t3) == Some(s2));
    lemma_three_child(a, b, e, c, s1, s2, s3, qabe, Seg::Glob);
    lemma_three_child(a, b, e, c, s1, s2, s3, qabe, Seg::Star);
    lemma_three_child(a, b, e, c, s1, s2, s3, qabe, nc);
    lemma_push_prefix(qabe, Seg::Glob, literal_rule);
    lemma_push_prefix(qabe, Seg::Star, literal_rule);
    assert(resolve_at(r, qabe, t3) == Some(s3));
    // the node `a b`
    lemma_three_child(a, b, e, c, s1, s2, s3, qab, Seg::Glob);
    lemma_three_child(a, b, e, c, s1, s2, s3, qab, Seg::Star);
    lemma_three_child(a, b, e, c, s1, s2, s3, qab, ne);
    lemma_three_child(a, b, e, c, s1, s2, s3, qab.push(Seg::Glob), ne);
    lemma_push_prefix(qab, Seg::Glob, star_rule);
    lemma_push_prefix(qab, Seg::Glob, literal_rule);
    lemma_push_prefix(qab.push(Seg::Glob), ne, star_rule);
    lemma_push_prefix(qab.push(Seg::Glob), ne, literal_rule);
    assert(resolve_at(r, qab, t2) == Some(s2.merged(s3)));
    // the node `a`
    lemma_three_child(a, b, e, c, s1, s2, s3, qa, Seg::Glob);
    lemma_three_child(a, b, e, c, s1, s2, s3, qa, Seg::Star);
    lemma_three_child(a, b, e, c, s1, s2, s3, qa, nb);
    lemma_three_child(a, b, e, c, s1, s2, s3, qag, nb);
    lemma_push_prefix(qa, Seg::Star, glob_rule);
    lemma_push_prefix(qa, Seg::Star, star_rule);
    lemma_push_prefix(qa, Seg::Star, literal_rule);
    lemma_push_prefix(qag, nb, glob_rule);
    assert(resolve_at(r, qa, t1) == Some(s1.merged(s2.merged(s3))));
    // the root
    lemma_three_child(a, b, e, c, s1, s2, s3, root, Seg::Glob);
    lemma_three_child(a, b, e, c, s1, s2, s3, root, Seg::Star);
    lemma_three_child(a, b, e, c, s1, s2, s3, root, na);
    lemma_three_child(a, b, e, c, s1, s2, s3, root.push(Seg::Glob), na);
    lemma_push_prefix(root, Seg::Glob, glob_rule);
    lemma_push_prefix(root, Seg::Glob, star_rule);
    lemma_push_prefix(root, Seg::Glob, literal_rule);
    lemma_push_prefix(root, Seg::Star, glob_rule);
    lemma_push_prefix(root, Seg::Star, star_rule);
    lemma_push_prefix(root, Seg::Star, literal_rule);
    assert(resolve_at(r, root, path) == Some(s1.merged(s2.merged(s3))));
    assert(s1.merged(s2.merged(s3)) == s1.merged(s2).merged(s3));
}

proof fn lemma_key_in(r: Map<Seq<Seg>, Style>, k: Seq<Seg>)
    requires
        r.contains_key(k),
    ensures
        style_at(r, k) == Some(r[k]),
{
}

} // verus!
