//! Laws of the suffix matcher, stated over the rule map and the suffix walk.
//!
//! Rules and queries appear here as paths: sequences of normalized labels in
//! reversed (most-significant-first) order, so that "the domain of `q` equals
//! or is a subdomain of the domain of `r`" reads `r.is_prefix_of(q)`.

use crate::trie::descend;
use crate::trie::has_proper_rule;
use crate::trie::map_get;
use crate::trie::suffix_lookup;
use vstd::prelude::*;

verus! {

/// A rule is matched exactly by its own path, whatever else was inserted.
pub proof fn lemma_exact_match<T>(rules: Map<Seq<Seq<u8>>, T>, r: Seq<Seq<u8>>)
    requires
        rules.dom().contains(r),
    ensures
        suffix_lookup(rules, r) == Some(rules[r]),
    decreases r.len(),
{
    if r.len() == 0 {
        assert(r =~= Seq::<Seq<u8>>::empty());
        assert(map_get(rules, Seq::empty()) == Some(rules[r]));
    } else {
        assert(has_proper_rule(rules));
        let l = r[0];
        let r2 = r.drop_first();
        let d = descend(rules, l);
        assert(seq![l] + r2 =~= r);
        assert(d.dom().contains(r2) && d[r2] == rules[r]);
        lemma_exact_match(d, r2);
    }
}

/// Suffix law: a rule below which no other rule lies matches every path that
/// extends it, with its own payload.
pub proof fn lemma_suffix_match<T>(rules: Map<Seq<Seq<u8>>, T>, r: Seq<Seq<u8>>, ext: Seq<Seq<u8>>)
    requires
        rules.dom().contains(r),
        forall|q: Seq<Seq<u8>>| #[trigger] rules.dom().contains(q) && r.is_prefix_of(q) ==> q == r,
    ensures
        suffix_lookup(rules, r + ext) == Some(rules[r]),
    decreases r.len(),
{
    if r.len() == 0 {
        assert(r =~= Seq::<Seq<u8>>::empty());
        assert(!has_proper_rule(rules)) by {
            if has_proper_rule(rules) {
                let q = choose|q: Seq<Seq<u8>>| #[trigger] rules.dom().contains(q) && q.len() > 0;
                assert(r =~= q.subrange(0, 0));
                assert(r.is_prefix_of(q));
            }
        }
        assert(map_get(rules, Seq::empty()) == Some(rules[r]));
    } else {
        assert(has_proper_rule(rules));
        let l = r[0];
        let r2 = r.drop_first();
        let q = r + ext;
        assert(q[0] == l);
        assert(q.drop_first() =~= r2 + ext);
        let d = descend(rules, l);
        assert(seq![l] + r2 =~= r);
        assert(d.dom().contains(r2) && d[r2] == rules[r]);
        assert forall|q2: Seq<Seq<u8>>|
            #[trigger] d.dom().contains(q2) && r2.is_prefix_of(q2) implies q2 == r2 by {
            let lq = seq![l] + q2;
            assert(rules.dom().contains(lq));
            assert(r.is_prefix_of(lq)) by {
                assert forall|t: int| 0 <= t < r.len() implies r[t] == lq.subrange(
                    0,
                    r.len() as int,
                )[t] by {
                    if t > 0 {
                        assert(r[t] == r2[t - 1]);
                        assert(r2[t - 1] == q2.subrange(0, r2.len() as int)[t - 1]);
                        assert(lq[t] == q2[t - 1]);
                    }
                }
                assert(r =~= lq.subrange(0, r.len() as int));
            }
            assert(lq == r);
            assert(lq.drop_first() =~= q2);
            assert(r.drop_first() == q2);
        }
        lemma_suffix_match(d, r2, ext);
    }
}

/// Negative law: a path of which no rule is a prefix matches nothing.
pub proof fn lemma_no_suffix_no_match<T>(rules: Map<Seq<Seq<u8>>, T>, q: Seq<Seq<u8>>)
    requires
        forall|r: Seq<Seq<u8>>| #[trigger] rules.dom().contains(r) ==> !r.is_prefix_of(q),
    ensures
        suffix_lookup(rules, q) == None::<T>,
    decreases q.len(),
{
    assert(!rules.dom().contains(Seq::<Seq<u8>>::empty())) by {
        if rules.dom().contains(Seq::<Seq<u8>>::empty()) {
            assert(Seq::<Seq<u8>>::empty() =~= q.subrange(0, 0));
            assert(Seq::<Seq<u8>>::empty().is_prefix_of(q));
        }
    }
    if !has_proper_rule(rules) || q.len() == 0 {
    } else {
        let l = q[0];
        let d = descend(rules, l);
        assert forall|r2: Seq<Seq<u8>>|
            #[trigger] d.dom().contains(r2) implies !r2.is_prefix_of(q.drop_first()) by {
            let lr = seq![l] + r2;
            assert(rules.dom().contains(lr));
            if r2.is_prefix_of(q.drop_first()) {
                assert forall|t: int| 0 <= t < lr.len() implies lr[t] == q.subrange(
                    0,
                    lr.len() as int,
                )[t] by {
                    if t > 0 {
                        assert(lr[t] == r2[t - 1]);
                        assert(r2[t - 1] == q.drop_first().subrange(0, r2.len() as int)[t - 1]);
                        assert(q.drop_first()[t - 1] == q[t]);
                    }
                }
                assert(lr =~= q.subrange(0, lr.len() as int));
                assert(lr.is_prefix_of(q));
            }
        }
        lemma_no_suffix_no_match(d, q.drop_first());
    }
}

/// Idempotence: inserting the same rule twice yields the same query results
/// as inserting it once.
pub proof fn lemma_insert_idempotent<T>(
    rules: Map<Seq<Seq<u8>>, T>,
    r: Seq<Seq<u8>>,
    dst: T,
    q: Seq<Seq<u8>>,
)
    ensures
        suffix_lookup(rules.insert(r, dst).insert(r, dst), q) == suffix_lookup(
            rules.insert(r, dst),
            q,
        ),
{
    assert(rules.insert(r, dst).insert(r, dst) =~= rules.insert(r, dst));
}

/// Order independence: inserting two distinct rules in either order yields
/// the same query results.
pub proof fn lemma_insert_commutes<T>(
    rules: Map<Seq<Seq<u8>>, T>,
    r1: Seq<Seq<u8>>,
    dst1: T,
    r2: Seq<Seq<u8>>,
    dst2: T,
    q: Seq<Seq<u8>>,
)
    requires
        r1 != r2,
    ensures
        suffix_lookup(rules.insert(r1, dst1).insert(r2, dst2), q) == suffix_lookup(
            rules.insert(r2, dst2).insert(r1, dst1),
            q,
        ),
{
    assert(rules.insert(r1, dst1).insert(r2, dst2) =~= rules.insert(r2, dst2).insert(r1, dst1));
}

} // verus!
