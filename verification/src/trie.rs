//! The label trie and the matcher built on it.
//!
//! Rules are stored along paths of reversed labels: the path of
//! `store.apple.com` is `com -> apple -> store`.  A node carries the payload
//! of the rule that ends exactly there, if any, and the children created for
//! deeper rules.

use crate::domain::good_prefix_len;
use crate::domain::lemma_good_prefix_len;
use crate::domain::lines_of;
use crate::domain::parse_domain;
use crate::domain::parse_domain_bytes;
use crate::domain::split_lines;
use crate::domain::views_of;
use crate::domain::MalformedDomain;
use vstd::prelude::*;
use vstd::slice::slice_to_vec;
use vstd::string::StringSliceAdditionalSpecFns;
use vstd::utf8::encode_utf8;

verus! {

/// One node of the label trie: the payload of the rule ending here, if any,
/// and the children, keyed by label bytes.
#[derive(Debug)]
pub(crate) struct LevelNode<T: Copy> {
    dst: Option<T>,
    next_lvs: Vec<(Vec<u8>, LevelNode<T>)>,
}

/// The first child of `s` whose key is `l`, if any.
spec fn seq_find<T: Copy>(
    s: Seq<(Vec<u8>, LevelNode<T>)>,
    l: Seq<u8>,
) -> Option<LevelNode<T>>
    decreases s.len(),
{
    if s.len() == 0 {
        None
    } else if s[0].0@ == l {
        Some(s[0].1)
    } else {
        seq_find(s.drop_first(), l)
    }
}

/// The node reached from `n` along the path `p`, if the path exists.
spec fn node_at<T: Copy>(n: LevelNode<T>, p: Seq<Seq<u8>>) -> Option<LevelNode<T>>
    decreases p.len(),
{
    if p.len() == 0 {
        Some(n)
    } else {
        match seq_find(n.next_lvs@, p[0]) {
            None => None,
            Some(c) => node_at(c, p.drop_first()),
        }
    }
}

/// The payload stored at the end of the path `p` below `n`, if any.
spec fn rule_at<T: Copy>(n: LevelNode<T>, p: Seq<Seq<u8>>) -> Option<T> {
    match node_at(n, p) {
        Some(m) => m.dst,
        None => None,
    }
}

/// The rules stored below `n`: each path that ends at a payload, mapped to
/// that payload.
spec fn node_rules<T: Copy>(n: LevelNode<T>) -> Map<Seq<Seq<u8>>, T> {
    Map::new(|p: Seq<Seq<u8>>| rule_at(n, p) is Some, |p: Seq<Seq<u8>>| rule_at(n, p).unwrap())
}

/// No two children share a key.
spec fn keys_unique<T: Copy>(s: Seq<(Vec<u8>, LevelNode<T>)>) -> bool {
    forall|i: int, j: int| 0 <= i < j < s.len() ==> s[i].0@ != s[j].0@
}

/// Well-formedness of the trie below `n`: every node's children carry unique
/// keys, and every node besides the root lies on the path of some rule.
spec fn node_wf<T: Copy>(n: LevelNode<T>) -> bool {
    &&& forall|p: Seq<Seq<u8>>|
        (#[trigger] node_at(n, p)) is Some ==> keys_unique(node_at(n, p).unwrap().next_lvs@)
    &&& forall|p: Seq<Seq<u8>>|
        p.len() > 0 && (#[trigger] node_at(n, p)) is Some ==> exists|e: Seq<Seq<u8>>|
            (#[trigger] rule_at(n, p + e)) is Some
}

/// The walk of the query path `q` down the trie below `n`: it stops with the
/// current node's payload as soon as the node has no children or the query is
/// exhausted, and fails on the first label with no matching child.
spec fn walk_node<T: Copy>(n: LevelNode<T>, q: Seq<Seq<u8>>) -> Option<T>
    decreases q.len(),
{
    if n.next_lvs@.len() == 0 {
        n.dst
    } else if q.len() == 0 {
        n.dst
    } else {
        match seq_find(n.next_lvs@, q[0]) {
            None => None,
            Some(c) => walk_node(c, q.drop_first()),
        }
    }
}

/// The rules after inserting the first `c` lines of `lines`, in order, each
/// with the payload `dst`; a line that does not parse changes nothing.
pub open spec fn rules_after_lines<T>(
    m: Map<Seq<Seq<u8>>, T>,
    lines: Seq<Seq<u8>>,
    c: int,
    dst: T,
) -> Map<Seq<Seq<u8>>, T>
    decreases c,
{
    if c <= 0 {
        m
    } else {
        let prev = rules_after_lines(m, lines, c - 1, dst);
        match parse_domain(lines[c - 1]) {
            Some(labels) => prev.insert(labels.reverse(), dst),
            None => prev,
        }
    }
}

/// The payload that `rules` associates with the exact path `p`, if any.
pub open spec fn map_get<T>(m: Map<Seq<Seq<u8>>, T>, p: Seq<Seq<u8>>) -> Option<T> {
    if m.dom().contains(p) {
        Some(m[p])
    } else {
        None
    }
}

/// True when some rule of `rules` lies strictly below the current position.
pub open spec fn has_proper_rule<T>(rules: Map<Seq<Seq<u8>>, T>) -> bool {
    exists|p: Seq<Seq<u8>>| #[trigger] rules.dom().contains(p) && p.len() > 0
}

/// The rules that remain after stepping down the edge labelled `l`.
pub open spec fn descend<T>(rules: Map<Seq<Seq<u8>>, T>, l: Seq<u8>) -> Map<Seq<Seq<u8>>, T> {
    Map::new(
        |p: Seq<Seq<u8>>| rules.dom().contains(seq![l] + p),
        |p: Seq<Seq<u8>>| rules[seq![l] + p],
    )
}

/// The payload that the suffix walk yields for the reversed-label query path
/// `q` against the rule set `rules`.  The walk returns the payload at the
/// current position as soon as no rule lies strictly below it or the query is
/// exhausted, and otherwise steps down along the next query label.
pub open spec fn suffix_lookup<T>(rules: Map<Seq<Seq<u8>>, T>, q: Seq<Seq<u8>>) -> Option<T>
    decreases q.len(),
{
    if !has_proper_rule(rules) || q.len() == 0 {
        map_get(rules, Seq::empty())
    } else {
        suffix_lookup(descend(rules, q[0]), q.drop_first())
    }
}

/// No query matches against an empty rule set.
pub proof fn lemma_lookup_empty<T>(q: Seq<Seq<u8>>)
    ensures
        suffix_lookup(Map::<Seq<Seq<u8>>, T>::empty(), q) == None::<T>,
{
}

/// `map_get` reads `node_rules` back as `rule_at`.
proof fn lemma_node_rules_get<T: Copy>(n: LevelNode<T>, p: Seq<Seq<u8>>)
    ensures
        map_get(node_rules(n), p) == rule_at(n, p),
{
}

/// Dropping the first child keeps the keys unique.
proof fn lemma_keys_unique_drop_first<T: Copy>(s: Seq<(Vec<u8>, LevelNode<T>)>)
    requires
        keys_unique(s),
        s.len() > 0,
    ensures
        keys_unique(s.drop_first()),
{
    assert forall|i: int, j: int| 0 <= i < j < s.drop_first().len() implies s.drop_first()[i].0@
        != s.drop_first()[j].0@ by {
        assert(s.drop_first()[i] == s[i + 1]);
        assert(s.drop_first()[j] == s[j + 1]);
    }
}

/// With unique keys, the child found for a key is the one at any index that
/// carries that key.
proof fn lemma_seq_find_at<T: Copy>(s: Seq<(Vec<u8>, LevelNode<T>)>, j: int, l: Seq<u8>)
    requires
        keys_unique(s),
        0 <= j < s.len(),
        s[j].0@ == l,
    ensures
        seq_find(s, l) == Some(s[j].1),
    decreases s.len(),
{
    if j == 0 {
    } else {
        assert(s[0].0@ != l);
        lemma_keys_unique_drop_first(s);
        assert(s.drop_first()[j - 1] == s[j]);
        lemma_seq_find_at(s.drop_first(), j - 1, l);
    }
}

/// When no child is found, no child carries the key.
proof fn lemma_seq_find_none<T: Copy>(s: Seq<(Vec<u8>, LevelNode<T>)>, l: Seq<u8>)
    requires
        seq_find(s, l) is None,
    ensures
        forall|i: int| 0 <= i < s.len() ==> (#[trigger] s[i]).0@ != l,
    decreases s.len(),
{
    if s.len() == 0 {
    } else {
        lemma_seq_find_none(s.drop_first(), l);
        assert forall|i: int| 0 <= i < s.len() implies (#[trigger] s[i]).0@ != l by {
            if i > 0 {
                assert(s.drop_first()[i - 1] == s[i]);
            }
        }
    }
}

/// Updating one child does not change what is found for other keys.
proof fn lemma_seq_find_update_other<T: Copy>(
    s: Seq<(Vec<u8>, LevelNode<T>)>,
    j: int,
    x: (Vec<u8>, LevelNode<T>),
    l: Seq<u8>,
)
    requires
        0 <= j < s.len(),
        l != s[j].0@,
        l != x.0@,
    ensures
        seq_find(s.update(j, x), l) == seq_find(s, l),
    decreases s.len(),
{
    let s2 = s.update(j, x);
    if j == 0 {
        assert(s2[0] == x);
        assert(s2.drop_first() =~= s.drop_first());
    } else {
        assert(s2[0] == s[0]);
        if s[0].0@ == l {
        } else {
            assert(s2.drop_first() =~= s.drop_first().update(j - 1, x));
            assert(s.drop_first()[j - 1] == s[j]);
            lemma_seq_find_update_other(s.drop_first(), j - 1, x, l);
        }
    }
}

/// What a pushed child changes in the find: nothing for keys already present,
/// and the new child for its own key.
proof fn lemma_seq_find_push<T: Copy>(
    s: Seq<(Vec<u8>, LevelNode<T>)>,
    x: (Vec<u8>, LevelNode<T>),
    l: Seq<u8>,
)
    ensures
        seq_find(s.push(x), l) == (match seq_find(s, l) {
            Some(c) => Some(c),
            None => if x.0@ == l {
                Some(x.1)
            } else {
                None
            },
        }),
    decreases s.len(),
{
    let s2 = s.push(x);
    if s.len() == 0 {
        assert(s2[0] == x);
        assert(s2.drop_first() =~= Seq::<(Vec<u8>, LevelNode<T>)>::empty());
    } else {
        assert(s2[0] == s[0]);
        assert(s2.drop_first() =~= s.drop_first().push(x));
        lemma_seq_find_push(s.drop_first(), x, l);
    }
}

/// Stepping down the found child shortens the path by its first label.
proof fn lemma_node_at_child<T: Copy>(
    n: LevelNode<T>,
    c: LevelNode<T>,
    l: Seq<u8>,
    p: Seq<Seq<u8>>,
)
    requires
        seq_find(n.next_lvs@, l) == Some(c),
    ensures
        node_at(n, seq![l] + p) == node_at(c, p),
{
    let lp = seq![l] + p;
    assert(lp[0] == l);
    assert(lp.drop_first() =~= p);
}

/// A found child of a well-formed node is well-formed.
proof fn lemma_child_wf<T: Copy>(n: LevelNode<T>, c: LevelNode<T>, l: Seq<u8>)
    requires
        node_wf(n),
        seq_find(n.next_lvs@, l) == Some(c),
    ensures
        node_wf(c),
{
    assert forall|p: Seq<Seq<u8>>| (#[trigger] node_at(c, p)) is Some implies keys_unique(
        node_at(c, p).unwrap().next_lvs@,
    ) by {
        lemma_node_at_child(n, c, l, p);
        assert(node_at(n, seq![l] + p) is Some);
    }
    assert forall|p: Seq<Seq<u8>>| p.len() > 0 && (#[trigger] node_at(c, p)) is Some implies exists|
        e: Seq<Seq<u8>>,
    | (#[trigger] rule_at(c, p + e)) is Some by {
        lemma_node_at_child(n, c, l, p);
        let lp = seq![l] + p;
        assert(node_at(n, lp) is Some && lp.len() > 0);
        let e = choose|e: Seq<Seq<u8>>| (#[trigger] rule_at(n, lp + e)) is Some;
        assert(lp + e =~= seq![l] + (p + e));
        lemma_node_at_child(n, c, l, p + e);
        assert(rule_at(c, p + e) is Some);
    }
}

/// Descending the rules along a found edge yields the child's rules.
proof fn lemma_descend_found<T: Copy>(n: LevelNode<T>, c: LevelNode<T>, l: Seq<u8>)
    requires
        seq_find(n.next_lvs@, l) == Some(c),
    ensures
        descend(node_rules(n), l) =~= node_rules(c),
{
    let d = descend(node_rules(n), l);
    assert forall|p: Seq<Seq<u8>>|
        #[trigger] d.dom().contains(p) == node_rules(c).dom().contains(p) by {
        lemma_node_at_child(n, c, l, p);
        lemma_node_rules_get(n, seq![l] + p);
        lemma_node_rules_get(c, p);
    }
    assert forall|p: Seq<Seq<u8>>| node_rules(c).dom().contains(p) implies #[trigger] d[p]
        == node_rules(c)[p] by {
        lemma_node_at_child(n, c, l, p);
        lemma_node_rules_get(n, seq![l] + p);
        lemma_node_rules_get(c, p);
    }
    assert(d.dom() =~= node_rules(c).dom());
}

/// Descending the rules along a missing edge leaves no rule.
proof fn lemma_descend_missing<T: Copy>(n: LevelNode<T>, l: Seq<u8>)
    requires
        seq_find(n.next_lvs@, l) is None,
    ensures
        descend(node_rules(n), l) =~= Map::<Seq<Seq<u8>>, T>::empty(),
{
    let d = descend(node_rules(n), l);
    assert forall|p: Seq<Seq<u8>>| !(#[trigger] d.dom().contains(p)) by {
        let lp = seq![l] + p;
        assert(lp[0] == l);
        assert(node_at(n, lp) is None);
        lemma_node_rules_get(n, lp);
    }
    assert(d.dom() =~= Set::<Seq<Seq<u8>>>::empty());
}

/// A node without children has no rule strictly below it.
proof fn lemma_no_children_no_proper<T: Copy>(n: LevelNode<T>)
    requires
        n.next_lvs@.len() == 0,
    ensures
        !has_proper_rule(node_rules(n)),
{
    assert forall|p: Seq<Seq<u8>>| #[trigger] node_rules(n).dom().contains(p) implies p.len()
        == 0 by {
        if p.len() > 0 {
            assert(node_at(n, p) is None);
            lemma_node_rules_get(n, p);
        }
    }
}

/// A well-formed node with children has a rule strictly below it.
proof fn lemma_children_proper<T: Copy>(n: LevelNode<T>)
    requires
        node_wf(n),
        n.next_lvs@.len() > 0,
    ensures
        has_proper_rule(node_rules(n)),
{
    let l = n.next_lvs@[0].0@;
    let c = n.next_lvs@[0].1;
    assert(seq_find(n.next_lvs@, l) == Some(c));
    lemma_node_at_child(n, c, l, Seq::empty());
    assert(seq![l] + Seq::<Seq<u8>>::empty() =~= seq![l]);
    assert(node_at(n, seq![l]) == Some(c));
    let e = choose|e: Seq<Seq<u8>>| (#[trigger] rule_at(n, seq![l] + e)) is Some;
    lemma_node_rules_get(n, seq![l] + e);
    assert(node_rules(n).dom().contains(seq![l] + e));
    assert((seq![l] + e).len() > 0);
}

/// The structural walk of a well-formed trie computes the suffix lookup over
/// its rules.
proof fn lemma_walk_is_lookup<T: Copy>(n: LevelNode<T>, q: Seq<Seq<u8>>)
    requires
        node_wf(n),
    ensures
        walk_node(n, q) == suffix_lookup(node_rules(n), q),
    decreases q.len(),
{
    assert(node_at(n, Seq::<Seq<u8>>::empty()) == Some(n));
    lemma_node_rules_get(n, Seq::empty());
    if n.next_lvs@.len() == 0 {
        lemma_no_children_no_proper(n);
    } else if q.len() == 0 {
    } else {
        lemma_children_proper(n);
        let l = q[0];
        if seq_find(n.next_lvs@, l) is Some {
            let c = seq_find(n.next_lvs@, l).unwrap();
            lemma_descend_found(n, c, l);
            lemma_child_wf(n, c, l);
            lemma_walk_is_lookup(c, q.drop_first());
        } else {
            lemma_descend_missing(n, l);
            lemma_lookup_empty::<T>(q.drop_first());
        }
    }
}

/// A node with no payload and no children holds no rules and is well-formed.
proof fn lemma_fresh_node<T: Copy>(n: LevelNode<T>)
    requires
        n.dst is None,
        n.next_lvs@.len() == 0,
    ensures
        node_wf(n),
        node_rules(n) =~= Map::<Seq<Seq<u8>>, T>::empty(),
{
    assert forall|p: Seq<Seq<u8>>| p.len() > 0 implies (#[trigger] node_at(n, p)) is None by {}
    assert(node_at(n, Seq::<Seq<u8>>::empty()) == Some(n));
    assert forall|p: Seq<Seq<u8>>| !(#[trigger] node_rules(n).dom().contains(p)) by {
        lemma_node_rules_get(n, p);
        if p.len() == 0 {
            assert(p =~= Seq::<Seq<u8>>::empty());
        }
    }
    assert(node_rules(n).dom() =~= Set::<Seq<Seq<u8>>>::empty());
}

/// Byte-for-byte equality of two labels.
fn bytes_eq(a: &Vec<u8>, b: &Vec<u8>) -> (r: bool)
    ensures
        r == (a@ == b@),
{
    if a.len() != b.len() {
        return false;
    }
    let mut i: usize = 0;
    while i < a.len()
        invariant
            i <= a@.len(),
            a@.len() == b@.len(),
            forall|j: int| 0 <= j < i ==> a@[j] == b@[j],
        decreases a@.len() - i,
    {
        if a[i] != b[i] {
            return false;
        }
        i = i + 1;
    }
    proof {
        assert(a@ =~= b@);
    }
    true
}

/// The index of the child carrying the key `l`, searched from `i` on.
fn find_child<T: Copy>(children: &Vec<(Vec<u8>, LevelNode<T>)>, l: &Vec<u8>, i: usize) -> (r:
    Option<usize>)
    requires
        i <= children@.len(),
    ensures
        match r {
            Some(j) => i <= j < children@.len() && children@[j as int].0@ == l@ && seq_find(
                children@.skip(i as int),
                l@,
            ) == Some(children@[j as int].1),
            None => seq_find(children@.skip(i as int), l@) is None,
        },
    decreases children@.len() - i,
{
    if i == children.len() {
        proof {
            assert(children@.skip(i as int) =~= Seq::<(Vec<u8>, LevelNode<T>)>::empty());
        }
        None
    } else {
        proof {
            assert(children@.skip(i as int)[0] == children@[i as int]);
            assert(children@.skip(i as int).drop_first() =~= children@.skip(i as int + 1));
        }
        let pair = &children[i];
        if bytes_eq(&pair.0, l) {
            Some(i)
        } else {
            find_child(children, l, i + 1)
        }
    }
}

/// The walk of the query labels `q[i..]` below `n`.
fn walk_from<T: Copy>(n: &LevelNode<T>, q: &Vec<Vec<u8>>, i: usize) -> (r: Option<T>)
    requires
        i <= q@.len(),
    ensures
        r == walk_node(*n, views_of(q@).skip(i as int)),
    decreases q@.len() - i,
{
    if n.next_lvs.len() == 0 {
        n.dst
    } else if i == q.len() {
        proof {
            assert(views_of(q@).skip(i as int) =~= Seq::<Seq<u8>>::empty());
        }
        n.dst
    } else {
        proof {
            assert(views_of(q@).skip(i as int)[0] == q@[i as int]@);
            assert(views_of(q@).skip(i as int).drop_first() =~= views_of(q@).skip(i as int + 1));
        }
        match find_child(&n.next_lvs, &q[i], 0) {
            Some(j) => {
                proof {
                    assert(n.next_lvs@.skip(0) =~= n.next_lvs@);
                }
                let pair = &n.next_lvs[j];
                walk_from(&pair.1, q, i + 1)
            },
            None => {
                proof {
                    assert(n.next_lvs@.skip(0) =~= n.next_lvs@);
                }
                None
            },
        }
    }
}

/// The labels of `v` in reverse order.
fn reverse_labels(v: Vec<Vec<u8>>) -> (r: Vec<Vec<u8>>)
    ensures
        views_of(r@) =~= views_of(v@).reverse(),
{
    let ghost v0 = v@;
    let mut rest = v;
    let mut r: Vec<Vec<u8>> = Vec::new();
    while rest.len() > 0
        invariant
            rest@.len() <= v0.len(),
            rest@ =~= v0.take(rest@.len() as int),
            views_of(r@) =~= views_of(v0.skip(rest@.len() as int)).reverse(),
        decreases rest@.len(),
    {
        let ghost k = rest@.len() as int;
        let ghost r0s = r@;
        let x = rest.pop().unwrap();
        r.push(x);
        proof {
            assert(x == v0[k - 1]);
            assert(rest@ =~= v0.take(k - 1));
            let tail = views_of(v0.skip(k - 1)).reverse();
            let prev = views_of(v0.skip(k)).reverse();
            assert(views_of(r0s) == prev);
            assert(views_of(r@).len() == views_of(r0s).len() + 1);
            assert(views_of(v0.skip(k - 1)).len() == v0.len() - k + 1);
            assert(tail.len() == views_of(v0.skip(k - 1)).len());
            assert(views_of(r@).len() == tail.len());
            assert forall|i: int| 0 <= i < views_of(r@).len() implies views_of(r@)[i]
                == tail[i] by {
                assert(tail[i] == views_of(v0.skip(k - 1))[tail.len() - 1 - i]);
                assert(tail[i] == v0[k - 1 + tail.len() - 1 - i]@);
                if i < views_of(r@).len() - 1 {
                    assert(views_of(r@)[i] == views_of(r0s)[i]);
                    assert(views_of(r0s)[i] == prev[i]);
                    assert(prev[i] == views_of(v0.skip(k))[prev.len() - 1 - i]);
                    assert(prev[i] == v0[k + prev.len() - 1 - i]@);
                } else {
                    assert(views_of(r@)[i] == x@);
                }
            }
            assert(views_of(r@) =~= views_of(v0.skip(rest@.len() as int)).reverse());
        }
    }
    proof {
        assert(v0.skip(0) =~= v0);
    }
    r
}

/// The suffix matcher: a set of rule domains, each carrying a payload, held
/// in a label trie.
#[derive(Debug)]
pub struct Dmatcher<T: Copy> {
    root: LevelNode<T>,
}

impl<T: Copy> Default for Dmatcher<T> {
    /// An empty matcher.
    fn default() -> (r: Self)
        ensures
            r.wf(),
            r@ == Map::<Seq<Seq<u8>>, T>::empty(),
    {
        Dmatcher::new()
    }
}

impl<T: Copy> View for Dmatcher<T> {
    type V = Map<Seq<Seq<u8>>, T>;

    /// The rules held by the matcher: each inserted reversed-label path,
    /// mapped to the payload most recently inserted for it.
    closed spec fn view(&self) -> Map<Seq<Seq<u8>>, T> {
        node_rules(self.root)
    }
}

impl<T: Copy> LevelNode<T> {
    /// A node with no payload and no children.
    fn new() -> (r: Self)
        ensures
            r.dst is None,
            r.next_lvs@.len() == 0,
    {
        LevelNode { dst: None, next_lvs: Vec::new() }
    }
}

/// Two nodes that find the same child for the first label of a path reach
/// the same node along it.
proof fn lemma_node_at_same_find<T: Copy>(n1: LevelNode<T>, n2: LevelNode<T>, p: Seq<Seq<u8>>)
    requires
        p.len() > 0,
        seq_find(n2.next_lvs@, p[0]) == seq_find(n1.next_lvs@, p[0]),
    ensures
        node_at(n2, p) == node_at(n1, p),
{
}

/// Setting the payload of the root inserts the empty path into its rules.
proof fn lemma_insert_set_payload<T: Copy>(n1: LevelNode<T>, n2: LevelNode<T>, dst: T)
    requires
        node_wf(n1),
        n2.dst == Some(dst),
        n2.next_lvs == n1.next_lvs,
    ensures
        node_wf(n2),
        node_rules(n2) =~= node_rules(n1).insert(Seq::empty(), dst),
{
    let m2 = node_rules(n2);
    let tgt = node_rules(n1).insert(Seq::empty(), dst);
    assert(node_at(n1, Seq::<Seq<u8>>::empty()) == Some(n1));
    assert(node_at(n2, Seq::<Seq<u8>>::empty()) == Some(n2));
    assert forall|p: Seq<Seq<u8>>| p.len() > 0 implies #[trigger] node_at(n2, p) == node_at(
        n1,
        p,
    ) by {
        lemma_node_at_same_find(n1, n2, p);
    }
    assert forall|p: Seq<Seq<u8>>|
        #[trigger] m2.dom().contains(p) == tgt.dom().contains(p) by {
        lemma_node_rules_get(n1, p);
        lemma_node_rules_get(n2, p);
        if p.len() == 0 {
            assert(p =~= Seq::<Seq<u8>>::empty());
        }
    }
    assert forall|p: Seq<Seq<u8>>| m2.dom().contains(p) implies #[trigger] m2[p] == tgt[p] by {
        lemma_node_rules_get(n1, p);
        lemma_node_rules_get(n2, p);
        if p.len() == 0 {
            assert(p =~= Seq::<Seq<u8>>::empty());
        }
    }
    assert(m2.dom() =~= tgt.dom());
    assert(m2 =~= tgt);
    assert forall|p: Seq<Seq<u8>>| (#[trigger] node_at(n2, p)) is Some implies keys_unique(
        node_at(n2, p).unwrap().next_lvs@,
    ) by {
        if p.len() > 0 {
            lemma_node_at_same_find(n1, n2, p);
        }
    }
    assert forall|p: Seq<Seq<u8>>| p.len() > 0 && (#[trigger] node_at(n2, p)) is Some implies exists|
        e: Seq<Seq<u8>>,
    | (#[trigger] rule_at(n2, p + e)) is Some by {
        lemma_node_at_same_find(n1, n2, p);
        let e = choose|e: Seq<Seq<u8>>| (#[trigger] rule_at(n1, p + e)) is Some;
        lemma_node_at_same_find(n1, n2, p + e);
        assert(rule_at(n2, p + e) is Some);
    }
}

/// Replacing the found child for a label by one whose rules carry one more
/// path inserts that path, extended by the label, into the node's rules.
#[verifier::rlimit(100)]
proof fn lemma_insert_child_update<T: Copy>(
    n1: LevelNode<T>,
    n2: LevelNode<T>,
    c1: LevelNode<T>,
    c2: LevelNode<T>,
    k: Vec<u8>,
    j: int,
    l: Seq<u8>,
    sfx: Seq<Seq<u8>>,
    dst: T,
)
    requires
        node_wf(n1),
        node_wf(c2),
        0 <= j < n1.next_lvs@.len(),
        n1.next_lvs@[j].0@ == l,
        c1 == n1.next_lvs@[j].1,
        k@ == l,
        node_rules(c2) =~= node_rules(c1).insert(sfx, dst),
        n2.dst == n1.dst,
        n2.next_lvs@ == n1.next_lvs@.update(j, (k, c2)),
    ensures
        node_wf(n2),
        node_rules(n2) =~= node_rules(n1).insert(seq![l] + sfx, dst),
{
    let m2 = node_rules(n2);
    let tgt = node_rules(n1).insert(seq![l] + sfx, dst);
    assert(node_at(n1, Seq::<Seq<u8>>::empty()) == Some(n1));
    assert(node_at(n2, Seq::<Seq<u8>>::empty()) == Some(n2));
    assert(keys_unique(n1.next_lvs@));
    assert(keys_unique(n2.next_lvs@)) by {
        assert forall|i1: int, i2: int| 0 <= i1 < i2 < n2.next_lvs@.len() implies n2.next_lvs@[i1].0@
            != n2.next_lvs@[i2].0@ by {
            assert(n2.next_lvs@[i1].0@ == n1.next_lvs@[i1].0@);
            assert(n2.next_lvs@[i2].0@ == n1.next_lvs@[i2].0@);
        }
    }
    lemma_seq_find_at(n1.next_lvs@, j, l);
    assert(n2.next_lvs@[j].0@ == l);
    lemma_seq_find_at(n2.next_lvs@, j, l);
    assert(seq_find(n1.next_lvs@, l) == Some(c1));
    assert(seq_find(n2.next_lvs@, l) == Some(c2));
    assert((seq![l] + sfx).drop_first() =~= sfx);
    assert((seq![l] + sfx)[0] == l);
    // the two rule sets agree everywhere
    assert forall|p: Seq<Seq<u8>>| #[trigger] map_get(m2, p) == map_get(tgt, p) by {
        lemma_node_rules_get(n1, p);
        lemma_node_rules_get(n2, p);
        if p.len() == 0 {
            assert(p =~= Seq::<Seq<u8>>::empty());
            assert(p != seq![l] + sfx);
        } else {
            let m0 = p[0];
            let pr = p.drop_first();
            assert(p =~= seq![m0] + pr);
            if m0 == l {
                lemma_node_at_child(n1, c1, l, pr);
                lemma_node_at_child(n2, c2, l, pr);
                lemma_node_rules_get(c1, pr);
                lemma_node_rules_get(c2, pr);
                if pr =~= sfx {
                    assert(p == seq![l] + sfx);
                    assert(map_get(node_rules(c2), sfx) == Some(dst));
                } else {
                    assert(p != seq![l] + sfx);
                    assert(map_get(node_rules(c2), pr) == map_get(node_rules(c1), pr));
                }
            } else {
                lemma_seq_find_update_other(n1.next_lvs@, j, (k, c2), m0);
                lemma_node_at_same_find(n1, n2, p);
                assert(p != seq![l] + sfx);
            }
        }
    }
    assert forall|p: Seq<Seq<u8>>|
        #[trigger] m2.dom().contains(p) == tgt.dom().contains(p) by {
        assert(map_get(m2, p) == map_get(tgt, p));
    }
    assert forall|p: Seq<Seq<u8>>| m2.dom().contains(p) implies #[trigger] m2[p] == tgt[p] by {
        assert(map_get(m2, p) == map_get(tgt, p));
    }
    assert(m2.dom() =~= tgt.dom());
    assert(m2 =~= tgt);
    // well-formedness of the updated node
    assert forall|p: Seq<Seq<u8>>| (#[trigger] node_at(n2, p)) is Some implies keys_unique(
        node_at(n2, p).unwrap().next_lvs@,
    ) by {
        if p.len() > 0 {
            let m0 = p[0];
            let pr = p.drop_first();
            assert(p =~= seq![m0] + pr);
            if m0 == l {
                lemma_node_at_child(n2, c2, l, pr);
            } else {
                lemma_seq_find_update_other(n1.next_lvs@, j, (k, c2), m0);
                lemma_node_at_same_find(n1, n2, p);
            }
        }
    }
    assert forall|p: Seq<Seq<u8>>| p.len() > 0 && (#[trigger] node_at(n2, p)) is Some implies exists|
        e: Seq<Seq<u8>>,
    | (#[trigger] rule_at(n2, p + e)) is Some by {
        let m0 = p[0];
        let pr = p.drop_first();
        assert(p =~= seq![m0] + pr);
        if m0 == l {
            lemma_node_at_child(n2, c2, l, pr);
            if pr.len() > 0 {
                let e = choose|e: Seq<Seq<u8>>| (#[trigger] rule_at(c2, pr + e)) is Some;
                assert(p + e =~= seq![l] + (pr + e));
                lemma_node_at_child(n2, c2, l, pr + e);
                assert(rule_at(n2, p + e) is Some);
            } else {
                lemma_node_rules_get(c2, sfx);
                assert(map_get(node_rules(c2), sfx) == Some(dst));
                assert(p + sfx =~= seq![l] + sfx);
                lemma_node_at_child(n2, c2, l, sfx);
                assert(rule_at(n2, p + sfx) is Some);
            }
        } else {
            lemma_seq_find_update_other(n1.next_lvs@, j, (k, c2), m0);
            lemma_node_at_same_find(n1, n2, p);
            let e = choose|e: Seq<Seq<u8>>| (#[trigger] rule_at(n1, p + e)) is Some;
            assert((p + e).len() > 0 && (p + e)[0] == m0);
            lemma_node_at_same_find(n1, n2, p + e);
            assert(rule_at(n2, p + e) is Some);
        }
    }
}

/// Pushing a fresh child holding exactly one path inserts that path,
/// extended by the new label, into the node's rules.
#[verifier::rlimit(100)]
proof fn lemma_insert_child_push<T: Copy>(
    n1: LevelNode<T>,
    n2: LevelNode<T>,
    c2: LevelNode<T>,
    k: Vec<u8>,
    l: Seq<u8>,
    sfx: Seq<Seq<u8>>,
    dst: T,
)
    requires
        node_wf(n1),
        node_wf(c2),
        seq_find(n1.next_lvs@, l) is None,
        k@ == l,
        node_rules(c2) =~= Map::<Seq<Seq<u8>>, T>::empty().insert(sfx, dst),
        n2.dst == n1.dst,
        n2.next_lvs@ == n1.next_lvs@.push((k, c2)),
    ensures
        node_wf(n2),
        node_rules(n2) =~= node_rules(n1).insert(seq![l] + sfx, dst),
{
    let m2 = node_rules(n2);
    let tgt = node_rules(n1).insert(seq![l] + sfx, dst);
    assert(node_at(n1, Seq::<Seq<u8>>::empty()) == Some(n1));
    assert(node_at(n2, Seq::<Seq<u8>>::empty()) == Some(n2));
    assert(keys_unique(n1.next_lvs@));
    lemma_seq_find_none(n1.next_lvs@, l);
    assert(keys_unique(n2.next_lvs@)) by {
        assert forall|i1: int, i2: int| 0 <= i1 < i2 < n2.next_lvs@.len() implies n2.next_lvs@[i1].0@
            != n2.next_lvs@[i2].0@ by {
            assert(n2.next_lvs@[i1] == n1.next_lvs@[i1]);
            if i2 < n1.next_lvs@.len() {
                assert(n2.next_lvs@[i2] == n1.next_lvs@[i2]);
            } else {
                assert(n2.next_lvs@[i2] == (k, c2));
            }
        }
    }
    lemma_seq_find_push(n1.next_lvs@, (k, c2), l);
    assert(seq_find(n2.next_lvs@, l) == Some(c2));
    assert((seq![l] + sfx).drop_first() =~= sfx);
    assert((seq![l] + sfx)[0] == l);
    assert forall|p: Seq<Seq<u8>>| #[trigger] map_get(m2, p) == map_get(tgt, p) by {
        lemma_node_rules_get(n1, p);
        lemma_node_rules_get(n2, p);
        if p.len() == 0 {
            assert(p =~= Seq::<Seq<u8>>::empty());
            assert(p != seq![l] + sfx);
        } else {
            let m0 = p[0];
            let pr = p.drop_first();
            assert(p =~= seq![m0] + pr);
            if m0 == l {
                assert(node_at(n1, p) is None);
                lemma_node_at_child(n2, c2, l, pr);
                lemma_node_rules_get(c2, pr);
                if pr =~= sfx {
                    assert(p == seq![l] + sfx);
                    assert(map_get(node_rules(c2), sfx) == Some(dst));
                } else {
                    assert(p != seq![l] + sfx);
                    assert(map_get(node_rules(c2), pr) == None::<T>);
                }
            } else {
                lemma_seq_find_push(n1.next_lvs@, (k, c2), m0);
                lemma_node_at_same_find(n1, n2, p);
                assert(p != seq![l] + sfx);
            }
        }
    }
    assert forall|p: Seq<Seq<u8>>|
        #[trigger] m2.dom().contains(p) == tgt.dom().contains(p) by {
        assert(map_get(m2, p) == map_get(tgt, p));
    }
    assert forall|p: Seq<Seq<u8>>| m2.dom().contains(p) implies #[trigger] m2[p] == tgt[p] by {
        assert(map_get(m2, p) == map_get(tgt, p));
    }
    assert(m2.dom() =~= tgt.dom());
    assert(m2 =~= tgt);
    assert forall|p: Seq<Seq<u8>>| (#[trigger] node_at(n2, p)) is Some implies keys_unique(
        node_at(n2, p).unwrap().next_lvs@,
    ) by {
        if p.len() > 0 {
            let m0 = p[0];
            let pr = p.drop_first();
            assert(p =~= seq![m0] + pr);
            if m0 == l {
                lemma_node_at_child(n2, c2, l, pr);
            } else {
                lemma_seq_find_push(n1.next_lvs@, (k, c2), m0);
                lemma_node_at_same_find(n1, n2, p);
            }
        }
    }
    assert forall|p: Seq<Seq<u8>>| p.len() > 0 && (#[trigger] node_at(n2, p)) is Some implies exists|
        e: Seq<Seq<u8>>,
    | (#[trigger] rule_at(n2, p + e)) is Some by {
        let m0 = p[0];
        let pr = p.drop_first();
        assert(p =~= seq![m0] + pr);
        if m0 == l {
            lemma_node_at_child(n2, c2, l, pr);
            if pr.len() > 0 {
                let e = choose|e: Seq<Seq<u8>>| (#[trigger] rule_at(c2, pr + e)) is Some;
                assert(p + e =~= seq![l] + (pr + e));
                lemma_node_at_child(n2, c2, l, pr + e);
                assert(rule_at(n2, p + e) is Some);
            } else {
                lemma_node_rules_get(c2, sfx);
                assert(map_get(node_rules(c2), sfx) == Some(dst));
                assert(p + sfx =~= seq![l] + sfx);
                lemma_node_at_child(n2, c2, l, sfx);
                assert(rule_at(n2, p + sfx) is Some);
            }
        } else {
            lemma_seq_find_push(n1.next_lvs@, (k, c2), m0);
            lemma_node_at_same_find(n1, n2, p);
            let e = choose|e: Seq<Seq<u8>>| (#[trigger] rule_at(n1, p + e)) is Some;
            assert((p + e).len() > 0 && (p + e)[0] == m0);
            lemma_node_at_same_find(n1, n2, p + e);
            assert(rule_at(n2, p + e) is Some);
        }
    }
}

/// Inserts the path `path[i..]` below `n`, creating the missing nodes, and
/// stores `dst` at its end.
fn insert_at<T: Copy>(n: &mut LevelNode<T>, path: &Vec<Vec<u8>>, i: usize, dst: T)
    requires
        i <= path@.len(),
        node_wf(*old(n)),
    ensures
        node_wf(*final(n)),
        node_rules(*final(n)) =~= node_rules(*old(n)).insert(views_of(path@).skip(i as int), dst),
    decreases path@.len() - i,
{
    if i == path.len() {
        n.dst = Some(dst);
        proof {
            assert(views_of(path@).skip(i as int) =~= Seq::<Seq<u8>>::empty());
            lemma_insert_set_payload(*old(n), *n, dst);
        }
    } else {
        let ghost l = path@[i as int]@;
        let ghost sfx_all = views_of(path@).skip(i as int);
        let ghost sfx_rest = views_of(path@).skip(i as int + 1);
        proof {
            assert(sfx_all[0] == l);
            assert(sfx_all.drop_first() =~= sfx_rest);
            assert(sfx_all =~= seq![l] + sfx_rest);
            assert(n.next_lvs@.skip(0) =~= n.next_lvs@);
        }
        match find_child(&n.next_lvs, &path[i], 0) {
            Some(j) => {
                let ghost n1 = *n;
                let ghost c1 = n.next_lvs@[j as int].1;
                let ghost kv = n.next_lvs@[j as int].0;
                proof {
                    lemma_child_wf(n1, c1, l);
                }
                let pair = &mut n.next_lvs[j];
                insert_at(&mut pair.1, path, i + 1, dst);
                proof {
                    let c2 = n.next_lvs@[j as int].1;
                    assert(n.next_lvs@ == n1.next_lvs@.update(j as int, (kv, c2)));
                    lemma_insert_child_update(n1, *n, c1, c2, kv, j as int, l, sfx_rest, dst);
                }
            },
            None => {
                let ghost n1 = *n;
                let mut child = LevelNode::new();
                proof {
                    lemma_fresh_node(child);
                }
                insert_at(&mut child, path, i + 1, dst);
                let lab = &path[i];
                let key = slice_to_vec(lab.as_slice());
                let ghost c2 = child;
                n.next_lvs.push((key, child));
                proof {
                    lemma_insert_child_push(n1, *n, c2, key, l, sfx_rest, dst);
                }
            },
        }
    }
}

impl<T: Copy> Dmatcher<T> {
    /// Well-formedness of the trie; constructors establish it and every
    /// operation preserves it.
    pub closed spec fn wf(self) -> bool {
        node_wf(self.root)
    }

    /// Creates an empty matcher.
    pub fn new() -> (r: Self)
        ensures
            r.wf(),
            r@ == Map::<Seq<Seq<u8>>, T>::empty(),
    {
        let root = LevelNode::<T>::new();
        proof {
            lemma_fresh_node(root);
        }
        Dmatcher { root }
    }

    /// Inserts a rule domain with its payload: the domain's reversed labels
    /// become a path of the trie and `dst` is stored at its end, overwriting
    /// any payload stored there before.  `MalformedDomain` exactly when some
    /// label of the domain is invalid, in which case nothing changes.
    pub fn insert(&mut self, domain: &str, dst: T) -> (r: Result<(), MalformedDomain>)
        requires
            old(self).wf(),
        ensures
            final(self).wf(),
            match parse_domain(domain.spec_bytes()) {
                Some(labels) => r == Ok::<(), MalformedDomain>(()) && final(self)@ == old(
                    self,
                )@.insert(labels.reverse(), dst),
                None => r == Err::<(), MalformedDomain>(MalformedDomain) && final(self)@ == old(
                    self,
                )@,
            },
    {
        let bytes = slice_to_vec(domain.as_bytes());
        self.insert_bytes(&bytes, dst)
    }

    /// Inserts a rule domain given as bytes; see `insert`.
    fn insert_bytes(&mut self, bytes: &Vec<u8>, dst: T) -> (r: Result<(), MalformedDomain>)
        requires
            old(self).wf(),
        ensures
            final(self).wf(),
            match parse_domain(bytes@) {
                Some(labels) => r == Ok::<(), MalformedDomain>(()) && final(self)@ == old(
                    self,
                )@.insert(labels.reverse(), dst),
                None => r == Err::<(), MalformedDomain>(MalformedDomain) && final(self)@ == old(
                    self,
                )@,
            },
    {
        match parse_domain_bytes(bytes) {
            None => Err(MalformedDomain),
            Some(labels) => {
                let path = reverse_labels(labels);
                proof {
                    assert(views_of(path@).skip(0) =~= views_of(path@));
                }
                insert_at(&mut self.root, &path, 0, dst);
                Ok(())
            },
        }
    }

    /// Inserts every nonempty line of `domain` as a rule, each with the
    /// payload `dst`, in order, stopping at the first malformed line: the
    /// lines before it are inserted, it and the lines after it are not, and
    /// its error is returned.
    pub fn insert_lines(&mut self, domain: String, dst: T) -> (r: Result<(), MalformedDomain>)
        requires
            old(self).wf(),
        ensures
            final(self).wf(),
            ({
                let lines = lines_of(encode_utf8(domain@));
                let good = good_prefix_len(lines);
                &&& final(self)@ == rules_after_lines(old(self)@, lines, good, dst)
                &&& (r == Ok::<(), MalformedDomain>(()) <==> good == lines.len())
                &&& good < lines.len() ==> r == Err::<(), MalformedDomain>(MalformedDomain)
            }),
    {
        let bytes = slice_to_vec(domain.as_str().as_bytes());
        let lines = split_lines(&bytes);
        let ghost lseq = views_of(lines@);
        let mut t: usize = 0;
        while t < lines.len()
            invariant
                t <= lines@.len(),
                self.wf(),
                lseq == lines_of(encode_utf8(domain@)),
                lseq == views_of(lines@),
                forall|u: int| 0 <= u < t ==> parse_domain(#[trigger] lseq[u]) is Some,
                self@ == rules_after_lines(old(self)@, lseq, t as int, dst),
            decreases lines@.len() - t,
        {
            proof {
                assert(views_of(lines@)[t as int] == lines@[t as int]@);
            }
            let line = &lines[t];
            match self.insert_bytes(line, dst) {
                Ok(()) => {},
                Err(e) => {
                    proof {
                        lemma_good_prefix_len(lseq, t as int);
                    }
                    return Err(e);
                },
            }
            t = t + 1;
        }
        proof {
            lemma_good_prefix_len(lseq, lseq.len() as int);
        }
        Ok(())
    }

    /// Matches a domain against the inserted rules: the payload of the rule
    /// reached by the suffix walk of the domain's reversed labels, or
    /// `MalformedDomain` if some label of the domain is invalid.
    pub fn matches(&self, domain: &str) -> (r: Result<Option<T>, MalformedDomain>)
        requires
            self.wf(),
        ensures
            match parse_domain(domain.spec_bytes()) {
                Some(labels) => r == Ok::<Option<T>, MalformedDomain>(
                    suffix_lookup(self@, labels.reverse()),
                ),
                None => r == Err::<Option<T>, MalformedDomain>(MalformedDomain),
            },
    {
        let bytes = slice_to_vec(domain.as_bytes());
        match parse_domain_bytes(&bytes) {
            None => Err(MalformedDomain),
            Some(labels) => {
                let path = reverse_labels(labels);
                proof {
                    lemma_walk_is_lookup(self.root, views_of(path@));
                    assert(views_of(path@).skip(0) =~= views_of(path@));
                }
                Ok(walk_from(&self.root, &path, 0))
            },
        }
    }
}

} // verus!
