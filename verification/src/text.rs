//! Ordering and assembly of short texts.
//!
//! Representation hints are rendered canonically: the rendered hints are
//! sorted lexicographically by code point, duplicates are dropped, and the
//! survivors are joined with commas. This module holds that machinery: the
//! lexicographic order with its total-order laws, an in-place sort, adjacent
//! deduplication, and comma joining.

use vstd::prelude::*;
use vstd::relations::{sorted_by, total_ordering};
use vstd::seq_lib::lemma_multiset_commutative;
use vstd::multiset::Multiset;

verus! {

broadcast use vstd::seq_lib::group_to_multiset_ensures, vstd::multiset::lemma_multiset_empty_len;

/// The character sequences a list of strings stands for.
pub open spec fn view_seq(v: Seq<String>) -> Seq<Seq<char>> {
    v.map_values(|s: String| s@)
}

/// Lexicographic order on character sequences, by code point; a proper
/// prefix comes before every extension of it.
pub open spec fn lex_leq(a: Seq<char>, b: Seq<char>) -> bool
    decreases a.len(),
{
    if a.len() == 0 {
        true
    } else if b.len() == 0 {
        false
    } else if a[0] != b[0] {
        (a[0] as int) < (b[0] as int)
    } else {
        lex_leq(a.drop_first(), b.drop_first())
    }
}

/// The lexicographic order as a relation value.
pub open spec fn lex_leq_fn() -> spec_fn(Seq<char>, Seq<char>) -> bool {
    |a: Seq<char>, b: Seq<char>| lex_leq(a, b)
}

proof fn lemma_lex_connected(a: Seq<char>, b: Seq<char>)
    ensures
        lex_leq(a, b) || lex_leq(b, a),
    decreases a.len(),
{
    if a.len() == 0 {
        assert(lex_leq(a, b));
    } else if b.len() == 0 {
        assert(lex_leq(b, a));
    } else if a[0] == b[0] {
        lemma_lex_connected(a.drop_first(), b.drop_first());
    } else {
        assert((a[0] as int) != (b[0] as int));
    }
}

proof fn lemma_lex_antisymmetric(a: Seq<char>, b: Seq<char>)
    requires
        lex_leq(a, b),
        lex_leq(b, a),
    ensures
        a == b,
    decreases a.len(),
{
    if a.len() == 0 {
        assert(b.len() == 0);
        assert(a =~= b);
    } else {
        assert(b.len() > 0);
        assert(a[0] == b[0]);
        lemma_lex_antisymmetric(a.drop_first(), b.drop_first());
        assert(a.drop_first().len() == a.len() - 1);
        assert(b.drop_first().len() == b.len() - 1);
        assert(a.len() == b.len());
        assert forall|i: int| 0 <= i < a.len() implies a[i] == b[i] by {
            if i > 0 {
                assert(a[i] == a.drop_first()[i - 1]);
                assert(b[i] == b.drop_first()[i - 1]);
            }
        }
        assert(a =~= b);
    }
}

proof fn lemma_lex_transitive(a: Seq<char>, b: Seq<char>, c: Seq<char>)
    requires
        lex_leq(a, b),
        lex_leq(b, c),
    ensures
        lex_leq(a, c),
    decreases a.len(),
{
    if a.len() > 0 {
        assert(b.len() > 0);
        assert(c.len() > 0);
        if a[0] == b[0] && b[0] == c[0] {
            lemma_lex_transitive(a.drop_first(), b.drop_first(), c.drop_first());
        }
    }
}

/// The lexicographic order is a total order.
pub proof fn lemma_lex_total_ordering()
    ensures
        total_ordering(lex_leq_fn()),
{
    let leq = lex_leq_fn();
    assert forall|a: Seq<char>| #[trigger] leq(a, a) by {
        lemma_lex_connected(a, a);
    }
    assert forall|a: Seq<char>, b: Seq<char>| #[trigger] leq(a, b) && #[trigger] leq(b, a)
        implies a == b by {
        lemma_lex_antisymmetric(a, b);
    }
    assert forall|a: Seq<char>, b: Seq<char>, c: Seq<char>|
        #[trigger] leq(a, b) && #[trigger] leq(b, c) implies leq(a, c) by {
        lemma_lex_transitive(a, b, c);
    }
    assert forall|a: Seq<char>, b: Seq<char>| #[trigger] leq(a, b) || #[trigger] leq(b, a) by {
        lemma_lex_connected(a, b);
    }
}

/// Comparing two sequences with an equal front is comparing what follows it.
proof fn lemma_lex_skip(a: Seq<char>, b: Seq<char>, i: int)
    requires
        0 <= i <= a.len(),
        i <= b.len(),
        forall|j: int| 0 <= j < i ==> a[j] == b[j],
    ensures
        lex_leq(a, b) == lex_leq(a.skip(i), b.skip(i)),
    decreases i,
{
    if i > 0 {
        assert(a[0] == b[0]);
        lemma_lex_skip(a.drop_first(), b.drop_first(), i - 1);
        assert(a.drop_first().skip(i - 1) =~= a.skip(i));
        assert(b.drop_first().skip(i - 1) =~= b.skip(i));
    } else {
        assert(a.skip(0) =~= a);
        assert(b.skip(0) =~= b);
    }
}

/// Decides the lexicographic order on two strings.
pub fn str_leq(a: &str, b: &str) -> (r: bool)
    ensures
        r == lex_leq(a@, b@),
{
    let alen = a.unicode_len();
    let blen = b.unicode_len();
    let mut i: usize = 0;
    while i < alen && i < blen
        invariant
            alen == a@.len(),
            blen == b@.len(),
            i <= alen,
            i <= blen,
            forall|j: int| 0 <= j < i ==> a@[j] == b@[j],
        decreases alen - i,
    {
        let ca = a.get_char(i);
        let cb = b.get_char(i);
        if ca != cb {
            proof {
                lemma_lex_skip(a@, b@, i as int);
                assert(a@.skip(i as int)[0] == a@[i as int]);
                assert(b@.skip(i as int)[0] == b@[i as int]);
            }
            return (ca as u32) < (cb as u32);
        }
        i = i + 1;
    }
    proof {
        lemma_lex_skip(a@, b@, i as int);
    }
    alen <= blen
}

/// Inserting an element anywhere adds exactly it to the multiset.
proof fn lemma_insert_to_multiset<A>(s: Seq<A>, j: int, x: A)
    requires
        0 <= j <= s.len(),
    ensures
        s.insert(j, x).to_multiset() =~= s.to_multiset().insert(x),
{
    broadcast use vstd::multiset::group_multiset_axioms;

    let single = seq![x];
    assert(s.insert(j, x) =~= s.take(j) + (single + s.skip(j)));
    lemma_multiset_commutative(s.take(j), single + s.skip(j));
    lemma_multiset_commutative(single, s.skip(j));
    assert(s =~= s.take(j) + s.skip(j));
    lemma_multiset_commutative(s.take(j), s.skip(j));
    assert(single =~= Seq::<A>::empty().push(x));
    assert(single.to_multiset() =~= Multiset::<A>::empty().insert(x));
}

/// Views distribute over insertion.
proof fn lemma_view_insert(s: Seq<String>, j: int, x: String)
    requires
        0 <= j <= s.len(),
    ensures
        view_seq(s.insert(j, x)) =~= view_seq(s).insert(j, x@),
{
}

/// Views distribute over removal.
proof fn lemma_view_remove(s: Seq<String>, i: int)
    requires
        0 <= i < s.len(),
    ensures
        view_seq(s.remove(i)) =~= view_seq(s).remove(i),
{
}

/// Sorts the strings in place, lexicographically by code point.
///
/// The result is the unique sorted arrangement of the given multiset of
/// texts.
pub fn sort_strings(v: &mut Vec<String>)
    ensures
        sorted_by(view_seq(final(v)@), lex_leq_fn()),
        view_seq(final(v)@).to_multiset() == view_seq(old(v)@).to_multiset(),
        final(v)@.len() == old(v)@.len(),
{
    broadcast use vstd::multiset::group_multiset_axioms;

    proof {
        lemma_lex_total_ordering();
    }
    if v.len() <= 1 {
        return ;
    }
    let mut i: usize = 1;
    while i < v.len()
        invariant
            1 <= i <= v@.len(),
            v@.len() == old(v)@.len(),
            sorted_by(view_seq(v@).take(i as int), lex_leq_fn()),
            view_seq(v@).to_multiset() == view_seq(old(v)@).to_multiset(),
        decreases v@.len() - i,
    {
        let ghost s0 = v@;
        let ghost ii = i as int;
        let ghost vs0 = view_seq(s0);
        let x = v.remove(i);
        let ghost xv = x@;
        let ghost vs_mid = view_seq(v@);
        proof {
            lemma_view_remove(s0, ii);
            assert(vs_mid == vs0.remove(ii));
            assert(vs_mid.take(ii) =~= vs0.take(ii));
        }
        let mut j: usize = 0;
        while j < i && str_leq(v[j].as_str(), x.as_str())
            invariant
                j <= i,
                i <= v@.len(),
                view_seq(v@) == vs_mid,
                xv == x@,
                forall|k: int| 0 <= k < j ==> lex_leq(#[trigger] vs_mid[k], xv),
            decreases i - j,
        {
            j = j + 1;
        }
        let ghost jj = j as int;
        let ghost s1 = v@;
        v.insert(j, x);
        i = i + 1;
        proof {
            let leq = lex_leq_fn();
            lemma_view_insert(s1, jj, x);
            let vs_new = view_seq(v@);
            assert(vs_new == vs_mid.insert(jj, xv));
            lemma_insert_to_multiset(vs_mid, jj, xv);
            assert(vs0.contains(xv)) by {
                assert(vs0[ii] == xv);
            }
            assert(vs0.remove(ii).to_multiset() =~= vs0.to_multiset().remove(vs0[ii]));
            assert(vs_new.to_multiset() =~= vs0.to_multiset());
            assert forall|p: int, q: int| 0 <= p < q < ii + 1 implies #[trigger] leq(
                vs_new.take(ii + 1)[p],
                vs_new.take(ii + 1)[q],
            ) by {
                assert(vs_new.take(ii + 1)[p] == vs_new[p]);
                assert(vs_new.take(ii + 1)[q] == vs_new[q]);
                if q < jj {
                    lemma_sorted_index(vs_mid, ii, p, q);
                } else if q == jj {
                    assert(vs_new[q] == xv);
                    assert(lex_leq(vs_mid[p], xv));
                } else if p < jj {
                    if p == q - 1 {
                        assert(false);
                    } else {
                        lemma_sorted_index(vs_mid, ii, p, q - 1);
                    }
                } else if p == jj {
                    assert(vs_new[p] == xv);
                    assert(jj < ii);
                    assert(!lex_leq(vs_mid[jj], xv));
                    lemma_lex_connected(vs_mid[jj], xv);
                    if jj < q - 1 {
                        lemma_sorted_index(vs_mid, ii, jj, q - 1);
                        lemma_lex_transitive(xv, vs_mid[jj], vs_mid[q - 1]);
                    }
                } else {
                    lemma_sorted_index(vs_mid, ii, p - 1, q - 1);
                }
            }
            assert(sorted_by(vs_new.take(i as int), leq));
        }
    }
    proof {
        assert(view_seq(v@).take(v@.len() as int) =~= view_seq(v@));
    }
}

/// Within a sorted front of a sequence, earlier texts come no later.
proof fn lemma_sorted_index(s: Seq<Seq<char>>, n: int, p: int, q: int)
    requires
        sorted_by(s.take(n), lex_leq_fn()),
        0 <= p < q < n <= s.len(),
    ensures
        lex_leq(s[p], s[q]),
{
    assert(lex_leq_fn()(s.take(n)[p], s.take(n)[q]));
}

/// What remains of a sequence of texts after dropping every text that equals
/// its predecessor. On a sorted sequence this removes exactly the duplicates.
pub open spec fn dedup_adjacent(s: Seq<Seq<char>>) -> Seq<Seq<char>>
    decreases s.len(),
{
    if s.len() == 0 {
        Seq::empty()
    } else if s.len() == 1 {
        s
    } else if s.last() == s[s.len() - 2] {
        dedup_adjacent(s.drop_last())
    } else {
        dedup_adjacent(s.drop_last()).push(s.last())
    }
}

/// Drops every string that equals its predecessor, in place.
pub fn dedup_strings(v: &Vec<String>) -> (r: Vec<String>)
    ensures
        view_seq(r@) == dedup_adjacent(view_seq(v@)),
{
    let mut out: Vec<String> = Vec::new();
    let mut i: usize = 0;
    while i < v.len()
        invariant
            i <= v@.len(),
            view_seq(out@) == dedup_adjacent(view_seq(v@).take(i as int)),
        decreases v@.len() - i,
    {
        let ghost pre = view_seq(v@).take(i as int);
        let ghost post = view_seq(v@).take(i as int + 1);
        proof {
            assert(post.drop_last() =~= pre);
            assert(post.last() == view_seq(v@)[i as int]);
        }
        if i == 0 || !(v[i] == v[i - 1]) {
            let ghost prev_out = out@;
            let x = v[i].clone();
            proof {
                assert(x@ == v@[i as int]@);
            }
            out.push(x);
            proof {
                assert(view_seq(out@) =~= view_seq(prev_out).push(v@[i as int]@));
                assert(post.last() == v@[i as int]@);
                if i > 0 {
                    assert(post[post.len() - 2] == view_seq(v@)[i as int - 1]);
                    assert(view_seq(v@)[i as int - 1] == v@[i as int - 1]@);
                }
                assert(view_seq(out@) =~= dedup_adjacent(post));
            }
        } else {
            proof {
                assert(post[post.len() - 2] == view_seq(v@)[i as int - 1]);
                assert(view_seq(out@) =~= dedup_adjacent(post));
            }
        }
        i = i + 1;
    }
    proof {
        assert(view_seq(v@).take(v@.len() as int) =~= view_seq(v@));
    }
    out
}

/// What dropping adjacent duplicates leaves of a sorted sequence: still
/// sorted, free of duplicates, and of exactly the same texts.
pub proof fn lemma_dedup_adjacent_sorted(s: Seq<Seq<char>>)
    requires
        sorted_by(s, lex_leq_fn()),
    ensures
        sorted_by(dedup_adjacent(s), lex_leq_fn()),
        dedup_adjacent(s).no_duplicates(),
        dedup_adjacent(s).to_set() == s.to_set(),
    decreases s.len(),
{
    let d = dedup_adjacent(s);
    if s.len() <= 1 {
        assert(d.to_set() =~= s.to_set());
    } else {
        let front = s.drop_last();
        assert(sorted_by(front, lex_leq_fn())) by {
            assert forall|p: int, q: int| 0 <= p < q < front.len() implies #[trigger] lex_leq_fn()(
                front[p],
                front[q],
            ) by {
                assert(lex_leq_fn()(s[p], s[q]));
            }
        }
        lemma_dedup_adjacent_sorted(front);
        let df = dedup_adjacent(front);
        if s.last() == s[s.len() - 2] {
            assert(s.to_set() =~= front.to_set()) by {
                assert forall|x: Seq<char>| s.to_set().contains(x) implies front.to_set().contains(
                    x,
                ) by {
                    let k = choose|k: int| 0 <= k < s.len() && s[k] == x;
                    if k == s.len() - 1 {
                        assert(front[s.len() - 2] == x);
                    } else {
                        assert(front[k] == x);
                    }
                }
                assert forall|x: Seq<char>| front.to_set().contains(x) implies s.to_set().contains(
                    x,
                ) by {
                    let k = choose|k: int| 0 <= k < front.len() && front[k] == x;
                    assert(s[k] == x);
                }
            }
        } else {
            lemma_lex_total_ordering();
            assert forall|x: Seq<char>| df.contains(x) implies lex_leq(x, s[s.len() - 2]) by {
                assert(df.to_set().contains(x));
                assert(front.to_set().contains(x));
                assert(front.contains(x));
                let k = choose|k: int| 0 <= k < front.len() && front[k] == x;
                if k < s.len() - 2 {
                    assert(lex_leq_fn()(s[k], s[s.len() - 2]));
                } else {
                    lemma_lex_connected(x, x);
                }
            }
            assert(!df.contains(s.last())) by {
                if df.contains(s.last()) {
                    assert(lex_leq(s.last(), s[s.len() - 2]));
                    assert(lex_leq_fn()(s[s.len() - 2], s.last()));
                    lemma_lex_antisymmetric(s.last(), s[s.len() - 2]);
                }
            }
            assert(d.no_duplicates()) by {
                assert(d == df.push(s.last()));
                assert forall|p: int, q: int| 0 <= p < q < d.len() implies d[p] != d[q] by {
                    if q < d.len() - 1 {
                        assert(df[p] != df[q]);
                    } else {
                        assert(d[q] == s.last());
                        if d[p] == s.last() {
                            assert(df[p] == s.last());
                            assert(df.contains(s.last()));
                        }
                    }
                }
            }
            assert(sorted_by(d, lex_leq_fn())) by {
                assert forall|p: int, q: int| 0 <= p < q < d.len() implies #[trigger] lex_leq_fn()(
                    d[p],
                    d[q],
                ) by {
                    if q < d.len() - 1 {
                        assert(lex_leq_fn()(df[p], df[q]));
                    } else {
                        assert(d[p] == df[p]);
                        assert(df.contains(df[p]));
                        assert(lex_leq(df[p], s[s.len() - 2]));
                        assert(lex_leq_fn()(s[s.len() - 2], s.last()));
                        lemma_lex_transitive(df[p], s[s.len() - 2], s.last());
                    }
                }
            }
            assert(d.to_set() =~= s.to_set()) by {
                assert forall|x: Seq<char>| s.to_set().contains(x) implies d.to_set().contains(
                    x,
                ) by {
                    let k = choose|k: int| 0 <= k < s.len() && s[k] == x;
                    if k == s.len() - 1 {
                        assert(d.last() == x);
                        assert(d.contains(x));
                    } else {
                        assert(front[k] == x);
                        assert(front.contains(x));
                        assert(front.to_set().contains(x));
                        assert(df.to_set().contains(x));
                        assert(df.contains(x));
                        let m = choose|m: int| 0 <= m < df.len() && df[m] == x;
                        assert(d[m] == x);
                        assert(d.contains(x));
                    }
                }
                assert forall|x: Seq<char>| d.to_set().contains(x) implies s.to_set().contains(
                    x,
                ) by {
                    let m = choose|m: int| 0 <= m < d.len() && d[m] == x;
                    if m == d.len() - 1 {
                        assert(s.last() == x);
                        assert(s.contains(x));
                    } else {
                        assert(df[m] == x);
                        assert(df.contains(x));
                        assert(df.to_set().contains(x));
                        assert(front.to_set().contains(x));
                        assert(front.contains(x));
                        let k = choose|k: int| 0 <= k < front.len() && front[k] == x;
                        assert(s[k] == x);
                        assert(s.contains(x));
                    }
                }
            }
        }
    }
}

/// The texts joined into one, with a comma between neighbours.
pub open spec fn joined(parts: Seq<Seq<char>>) -> Seq<char>
    decreases parts.len(),
{
    if parts.len() == 0 {
        Seq::empty()
    } else if parts.len() == 1 {
        parts[0]
    } else {
        joined(parts.drop_last()) + seq![','] + parts.last()
    }
}

/// Joins the strings into one, with a comma between neighbours.
pub fn join_comma(v: &Vec<String>) -> (r: String)
    ensures
        r@ == joined(view_seq(v@)),
{
    let mut out = String::new();
    let mut i: usize = 0;
    proof {
        reveal_strlit(",");
    }
    while i < v.len()
        invariant
            i <= v@.len(),
            out@ == joined(view_seq(v@).take(i as int)),
            ","@ =~= seq![','],
        decreases v@.len() - i,
    {
        let ghost pre = view_seq(v@).take(i as int);
        let ghost post = view_seq(v@).take(i as int + 1);
        proof {
            assert(post.drop_last() =~= pre);
            assert(post.last() == view_seq(v@)[i as int]);
        }
        if i > 0 {
            out.append(",");
        }
        out.append(v[i].as_str());
        proof {
            if i == 0 {
                assert(out@ =~= joined(post));
            } else {
                assert(out@ =~= joined(post));
            }
        }
        i = i + 1;
    }
    proof {
        assert(view_seq(v@).take(v@.len() as int) =~= view_seq(v@));
    }
    out
}

/// The canonical one-line form of a collection of texts: sorted by code
/// point, duplicates dropped, joined with commas.
pub open spec fn canonical_join(ss: Seq<Seq<char>>) -> Seq<char> {
    joined(dedup_adjacent(ss.sort_by(lex_leq_fn())))
}

/// Canonicity: the canonical form hears only the set of texts. Two
/// collections with the same texts, however ordered and however often
/// repeated, share one canonical form.
pub proof fn lemma_canonical_join_of_set(ss1: Seq<Seq<char>>, ss2: Seq<Seq<char>>)
    requires
        ss1.to_set() == ss2.to_set(),
    ensures
        canonical_join(ss1) == canonical_join(ss2),
{
    lemma_lex_total_ordering();
    let s1 = ss1.sort_by(lex_leq_fn());
    let s2 = ss2.sort_by(lex_leq_fn());
    ss1.lemma_sort_by_ensures(lex_leq_fn());
    ss2.lemma_sort_by_ensures(lex_leq_fn());
    lemma_same_multiset_same_set(ss1, s1);
    lemma_same_multiset_same_set(ss2, s2);
    lemma_dedup_adjacent_sorted(s1);
    lemma_dedup_adjacent_sorted(s2);
    let d1 = dedup_adjacent(s1);
    let d2 = dedup_adjacent(s2);
    assert(d1.to_set() == d2.to_set());
    lemma_sorted_nodup_same_set_equal(d1, d2);
}

/// Brings a list of strings into its canonical one-line form: sorted by
/// code point, duplicates dropped, joined with commas.
pub fn canonical_join_strings(v: Vec<String>) -> (r: String)
    ensures
        r@ == canonical_join(view_seq(v@)),
{
    let ghost orig = view_seq(v@);
    let mut v = v;
    sort_strings(&mut v);
    proof {
        lemma_lex_total_ordering();
        orig.lemma_sort_by_ensures(lex_leq_fn());
        vstd::seq_lib::lemma_sorted_unique(
            view_seq(v@),
            orig.sort_by(lex_leq_fn()),
            lex_leq_fn(),
        );
    }
    let dd = dedup_strings(&v);
    join_comma(&dd)
}

/// Sequences of one multiset hold one set of texts.
proof fn lemma_same_multiset_same_set<A>(a: Seq<A>, b: Seq<A>)
    requires
        a.to_multiset() == b.to_multiset(),
    ensures
        a.to_set() == b.to_set(),
{
    assert forall|x: A| #[trigger] a.to_set().contains(x) implies b.to_set().contains(x) by {
        assert(a.contains(x));
        assert(a.to_multiset().count(x) > 0);
        assert(b.contains(x));
    }
    assert forall|x: A| #[trigger] b.to_set().contains(x) implies a.to_set().contains(x) by {
        assert(b.contains(x));
        assert(b.to_multiset().count(x) > 0);
        assert(a.contains(x));
    }
    assert(a.to_set() =~= b.to_set());
}

/// Two sorted, duplicate-free sequences of one set of texts are one sequence.
proof fn lemma_sorted_nodup_same_set_equal(a: Seq<Seq<char>>, b: Seq<Seq<char>>)
    requires
        sorted_by(a, lex_leq_fn()),
        sorted_by(b, lex_leq_fn()),
        a.no_duplicates(),
        b.no_duplicates(),
        a.to_set() == b.to_set(),
    ensures
        a == b,
{
    lemma_lex_total_ordering();
    a.lemma_multiset_has_no_duplicates();
    b.lemma_multiset_has_no_duplicates();
    assert(a.to_multiset() =~= b.to_multiset()) by {
        broadcast use vstd::multiset::group_multiset_axioms;

        assert forall|x: Seq<char>| true implies a.to_multiset().count(x) == b.to_multiset().count(
            x,
        ) by {
            if a.to_multiset().count(x) > 0 {
                assert(a.contains(x));
                assert(a.to_set().contains(x));
                assert(b.contains(x));
                assert(a.to_multiset().count(x) == 1);
                assert(b.to_multiset().count(x) == 1);
            } else if b.to_multiset().count(x) > 0 {
                assert(b.contains(x));
                assert(b.to_set().contains(x));
                assert(a.contains(x));
            }
        }
    }
    vstd::seq_lib::lemma_sorted_unique(a, b, lex_leq_fn());
}

} // verus!
