//! Decomposition of a domain name into normalized labels.
//!
//! A domain is split on dots, empty segments (from leading, trailing or
//! consecutive dots) are discarded, and each remaining segment is normalized
//! to its canonical lower-case, IDNA-encoded byte form.

use vstd::prelude::*;

verus! {

/// The byte on which a domain name is split into labels.
pub const DOT: u8 = 46;

/// The byte on which a block of text is split into lines.
pub const NEWLINE: u8 = 10;

/// Error raised when a domain name cannot be decomposed into valid labels.
#[derive(Clone, Copy, Debug, PartialEq, Eq, Structural)]
pub struct MalformedDomain;

/// The sequence of byte sequences held by a sequence of byte vectors.
pub open spec fn views_of(s: Seq<Vec<u8>>) -> Seq<Seq<u8>> {
    Seq::new(s.len(), |i: int| s[i]@)
}

/// The canonical byte form that label normalization gives to one dot-free
/// segment of a domain name, or `None` if the segment is rejected (illegal
/// characters, or a normalized length above the 63-byte label limit).
pub uninterp spec fn label_norm(seg: Seq<u8>) -> Option<Seq<u8>>;

/// Relies on `trust_dns_proto::rr::domain::Label::from_utf8` and
/// `Label::to_lowercase`: IDNA/punycode encoding, the 63-byte length limit
/// and ASCII lowercasing all depend on the segment's bytes alone.
#[verifier::external_body]
fn normalize_label(seg: &Vec<u8>) -> (r: Option<Vec<u8>>)
    ensures
        match r {
            Some(l) => label_norm(seg@) == Some(l@),
            None => label_norm(seg@) is None,
        },
{
    let text = match core::str::from_utf8(seg) {
        Ok(text) => text,
        Err(_) => return None,
    };
    match trust_dns_proto::rr::domain::Label::from_utf8(text) {
        Ok(label) => Some(label.to_lowercase().as_bytes().to_vec()),
        Err(_) => None,
    }
}

/// The labels that the tail `s` yields when the bytes of `cur` are the
/// segment currently being read: segments end at each dot and at the end of
/// the input, empty segments are skipped, and every kept segment is
/// normalized.  `None` as soon as any segment fails normalization.
pub open spec fn parse_from(s: Seq<u8>, cur: Seq<u8>) -> Option<Seq<Seq<u8>>>
    decreases s.len(),
{
    if s.len() == 0 {
        if cur.len() == 0 {
            Some(Seq::empty())
        } else {
            match label_norm(cur) {
                Some(l) => Some(seq![l]),
                None => None,
            }
        }
    } else if s[0] == DOT {
        if cur.len() == 0 {
            parse_from(s.drop_first(), Seq::empty())
        } else {
            match (label_norm(cur), parse_from(s.drop_first(), Seq::empty())) {
                (Some(l), Some(rest)) => Some(seq![l] + rest),
                _ => None,
            }
        }
    } else {
        parse_from(s.drop_first(), cur.push(s[0]))
    }
}

/// The sequence of normalized labels of the domain whose bytes are `s`, in
/// left-to-right order, or `None` if some label is malformed.
pub open spec fn parse_domain(s: Seq<u8>) -> Option<Seq<Seq<u8>>> {
    parse_from(s, Seq::empty())
}

/// Tails whose parses agree from every pending segment parse the same under
/// any common head.
proof fn lemma_parse_from_frame(a: Seq<u8>, t1: Seq<u8>, t2: Seq<u8>, cur: Seq<u8>)
    requires
        forall|c: Seq<u8>| #[trigger] parse_from(t1, c) == parse_from(t2, c),
    ensures
        parse_from(a + t1, cur) == parse_from(a + t2, cur),
    decreases a.len(),
{
    if a.len() == 0 {
        assert(a + t1 =~= t1);
        assert(a + t2 =~= t2);
    } else {
        assert((a + t1)[0] == a[0]);
        assert((a + t2)[0] == a[0]);
        assert((a + t1).drop_first() =~= a.drop_first() + t1);
        assert((a + t2).drop_first() =~= a.drop_first() + t2);
        if a[0] == DOT {
            lemma_parse_from_frame(a.drop_first(), t1, t2, Seq::empty());
        } else {
            lemma_parse_from_frame(a.drop_first(), t1, t2, cur.push(a[0]));
        }
    }
}

/// Empty-label tolerance: a leading dot does not change how a domain parses.
pub proof fn lemma_leading_dot(s: Seq<u8>)
    ensures
        parse_domain(seq![DOT] + s) == parse_domain(s),
{
    let d = seq![DOT] + s;
    assert(d[0] == DOT);
    assert(d.drop_first() =~= s);
}

/// Empty-label tolerance: a trailing dot does not change how a domain parses.
pub proof fn lemma_trailing_dot(s: Seq<u8>)
    ensures
        parse_domain(s + seq![DOT]) == parse_domain(s),
{
    let t1 = seq![DOT];
    let t2 = Seq::<u8>::empty();
    assert forall|c: Seq<u8>| #[trigger] parse_from(t1, c) == parse_from(t2, c) by {
        assert(t1[0] == DOT);
        assert(t1.drop_first() =~= Seq::<u8>::empty());
        assert(parse_from(Seq::<u8>::empty(), Seq::<u8>::empty()) == Some(
            Seq::<Seq<u8>>::empty(),
        ));
        if c.len() == 0 {
            assert(c =~= Seq::<u8>::empty());
        } else if label_norm(c) is Some {
            let l = label_norm(c).unwrap();
            assert(seq![l] + Seq::<Seq<u8>>::empty() =~= seq![l]);
        }
    }
    lemma_parse_from_frame(s, t1, t2, Seq::empty());
    assert(s + t2 =~= s);
}

/// Empty-label tolerance: a doubled dot parses as the single dot does.
pub proof fn lemma_double_dot(a: Seq<u8>, b: Seq<u8>)
    ensures
        parse_domain(a + seq![DOT, DOT] + b) == parse_domain(a + seq![DOT] + b),
{
    let t1 = seq![DOT, DOT] + b;
    let t2 = seq![DOT] + b;
    assert forall|c: Seq<u8>| #[trigger] parse_from(t1, c) == parse_from(t2, c) by {
        assert(t1[0] == DOT && t2[0] == DOT);
        assert(t1.drop_first() =~= t2);
        assert(t2.drop_first() =~= b);
        assert(parse_from(t2, Seq::<u8>::empty()) == parse_from(b, Seq::<u8>::empty()));
        if c.len() == 0 {
            assert(c =~= Seq::<u8>::empty());
        }
    }
    lemma_parse_from_frame(a, t1, t2, Seq::empty());
    assert(a + t1 =~= a + seq![DOT, DOT] + b);
    assert(a + t2 =~= a + seq![DOT] + b);
}

/// The nonempty lines that the tail `s` yields when the bytes of `cur` are
/// the line currently being read: lines end at each newline and at the end of
/// the input, and empty lines are skipped.
pub open spec fn lines_from(s: Seq<u8>, cur: Seq<u8>) -> Seq<Seq<u8>>
    decreases s.len(),
{
    if s.len() == 0 {
        if cur.len() == 0 {
            Seq::empty()
        } else {
            seq![cur]
        }
    } else if s[0] == NEWLINE {
        if cur.len() == 0 {
            lines_from(s.drop_first(), Seq::empty())
        } else {
            seq![cur] + lines_from(s.drop_first(), Seq::empty())
        }
    } else {
        lines_from(s.drop_first(), cur.push(s[0]))
    }
}

/// The nonempty lines of `s`, in order.
pub open spec fn lines_of(s: Seq<u8>) -> Seq<Seq<u8>> {
    lines_from(s, Seq::empty())
}

/// How many leading lines parse as domains: the index of the first malformed
/// line, or the number of lines when none is malformed.
pub open spec fn good_prefix_len(lines: Seq<Seq<u8>>) -> int
    decreases lines.len(),
{
    if lines.len() == 0 {
        0
    } else if parse_domain(lines[0]) is None {
        0
    } else {
        1 + good_prefix_len(lines.drop_first())
    }
}

/// The count of good leading lines is the index of the first malformed line.
pub proof fn lemma_good_prefix_len(lines: Seq<Seq<u8>>, j: int)
    requires
        0 <= j <= lines.len(),
        forall|t: int| 0 <= t < j ==> parse_domain(#[trigger] lines[t]) is Some,
        j < lines.len() ==> parse_domain(lines[j]) is None,
    ensures
        good_prefix_len(lines) == j,
    decreases lines.len(),
{
    if lines.len() == 0 {
    } else if j == 0 {
    } else {
        assert(parse_domain(lines[0]) is Some);
        assert forall|t: int| 0 <= t < j - 1 implies parse_domain(
            #[trigger] lines.drop_first()[t],
        ) is Some by {
            assert(lines.drop_first()[t] == lines[t + 1]);
        }
        if j - 1 < lines.drop_first().len() {
            assert(lines.drop_first()[j - 1] == lines[j]);
        }
        lemma_good_prefix_len(lines.drop_first(), j - 1);
    }
}

/// Splits the bytes of a block of text into its nonempty lines.
pub(crate) fn split_lines(bytes: &Vec<u8>) -> (r: Vec<Vec<u8>>)
    ensures
        views_of(r@) == lines_of(bytes@),
{
    let mut lines: Vec<Vec<u8>> = Vec::new();
    let mut cur: Vec<u8> = Vec::new();
    let mut i: usize = 0;
    proof {
        assert(bytes@.skip(0) =~= bytes@);
        assert(views_of(lines@) + lines_from(bytes@, cur@) =~= lines_from(bytes@, cur@));
    }
    while i < bytes.len()
        invariant
            i <= bytes@.len(),
            lines_of(bytes@) == views_of(lines@) + lines_from(bytes@.skip(i as int), cur@),
        decreases bytes@.len() - i,
    {
        proof {
            assert(bytes@.skip(i as int)[0] == bytes@[i as int]);
            assert(bytes@.skip(i as int).drop_first() =~= bytes@.skip(i as int + 1));
        }
        let b = bytes[i];
        if b == NEWLINE {
            if cur.len() > 0 {
                let ghost old_lines = lines@;
                let ghost cv = cur@;
                lines.push(cur);
                cur = Vec::new();
                proof {
                    assert(views_of(lines@) =~= views_of(old_lines).push(cv));
                    assert(views_of(old_lines) + (seq![cv] + lines_from(
                        bytes@.skip(i as int + 1),
                        Seq::<u8>::empty(),
                    )) =~= views_of(lines@) + lines_from(
                        bytes@.skip(i as int + 1),
                        Seq::<u8>::empty(),
                    ));
                }
            } else {
                proof {
                    assert(cur@ =~= Seq::<u8>::empty());
                }
            }
        } else {
            cur.push(b);
        }
        i = i + 1;
    }
    proof {
        assert(bytes@.skip(i as int) =~= Seq::<u8>::empty());
    }
    if cur.len() > 0 {
        let ghost old_lines = lines@;
        let ghost cv = cur@;
        lines.push(cur);
        proof {
            assert(views_of(lines@) =~= views_of(old_lines).push(cv));
            assert(views_of(old_lines) + seq![cv] =~= views_of(lines@));
        }
    } else {
        proof {
            assert(views_of(lines@) + Seq::<Seq<u8>>::empty() =~= views_of(lines@));
        }
    }
    lines
}

/// Splits the bytes of a domain into normalized labels, `None` exactly when
/// `parse_domain` rejects some label.
pub(crate) fn parse_domain_bytes(bytes: &Vec<u8>) -> (r: Option<Vec<Vec<u8>>>)
    ensures
        match r {
            Some(v) => parse_domain(bytes@) == Some(views_of(v@)),
            None => parse_domain(bytes@) is None,
        },
{
    let mut labels: Vec<Vec<u8>> = Vec::new();
    let mut cur: Vec<u8> = Vec::new();
    let mut i: usize = 0;
    proof {
        assert(bytes@.skip(0) =~= bytes@);
        let r0 = parse_from(bytes@, cur@);
        if r0 is Some {
            assert(views_of(labels@) + r0.unwrap() =~= r0.unwrap());
        }
    }
    while i < bytes.len()
        invariant
            i <= bytes@.len(),
            match parse_from(bytes@.skip(i as int), cur@) {
                Some(t) => parse_domain(bytes@) == Some(views_of(labels@) + t),
                None => parse_domain(bytes@) is None,
            },
        decreases bytes@.len() - i,
    {
        proof {
            assert(bytes@.skip(i as int)[0] == bytes@[i as int]);
            assert(bytes@.skip(i as int).drop_first() =~= bytes@.skip(i as int + 1));
        }
        let b = bytes[i];
        if b == DOT {
            if cur.len() > 0 {
                let ghost old_labels = labels@;
                match normalize_label(&cur) {
                    Some(l) => {
                        let ghost lv = l@;
                        labels.push(l);
                        cur = Vec::new();
                        proof {
                            assert(views_of(labels@) =~= views_of(old_labels).push(lv));
                            let rest = parse_from(bytes@.skip(i as int + 1), Seq::<u8>::empty());
                            if rest is Some {
                                let t = rest.unwrap();
                                assert(views_of(old_labels) + (seq![lv] + t) =~= views_of(labels@)
                                    + t);
                            }
                        }
                    },
                    None => {
                        return None;
                    },
                }
            } else {
                proof {
                    assert(cur@ =~= Seq::<u8>::empty());
                }
            }
        } else {
            cur.push(b);
        }
        i = i + 1;
    }
    proof {
        assert(bytes@.skip(i as int) =~= Seq::<u8>::empty());
    }
    if cur.len() > 0 {
        let ghost old_labels = labels@;
        match normalize_label(&cur) {
            Some(l) => {
                let ghost lv = l@;
                labels.push(l);
                proof {
                    assert(views_of(labels@) =~= views_of(old_labels).push(lv));
                    assert(views_of(old_labels) + seq![lv] =~= views_of(labels@));
                }
            },
            None => {
                return None;
            },
        }
    } else {
        proof {
            let r = parse_from(Seq::<u8>::empty(), cur@);
            if r is Some {
                assert(views_of(labels@) + r.unwrap() =~= views_of(labels@));
            }
        }
    }
    Some(labels)
}

} // verus!
