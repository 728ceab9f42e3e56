//! Ordering, sorting, deduplication and joining of strings.
//!
//! Every multi-result query output is sorted ascending by code point
//! before joining; this module provides that machinery, verified.

use vstd::prelude::*;
use vstd::relations::sorted_by;
use vstd::relations::total_ordering;
use vstd::seq_lib::lemma_sorted_unique;

verus! {

/// Lexicographic order on character sequences by code point; a proper
/// prefix comes first.
pub open spec fn lex_le(a: Seq<char>, b: Seq<char>) -> bool
    decreases a.len(),
{
    if a.len() == 0 {
        true
    } else if b.len() == 0 {
        false
    } else if a[0] < b[0] {
        true
    } else if a[0] > b[0] {
        false
    } else {
        lex_le(a.skip(1), b.skip(1))
    }
}

/// `lex_le` as a first-class relation, for `sort_by` and `sorted_by`.
pub open spec fn lex_leq_fn() -> spec_fn(Seq<char>, Seq<char>) -> bool {
    |a: Seq<char>, b: Seq<char>| lex_le(a, b)
}

proof fn lemma_lex_le_refl(a: Seq<char>)
    ensures
        lex_le(a, a),
    decreases a.len(),
{
    if a.len() > 0 {
        lemma_lex_le_refl(a.skip(1));
    }
}

proof fn lemma_lex_le_antisym(a: Seq<char>, b: Seq<char>)
    requires
        lex_le(a, b),
        lex_le(b, a),
    ensures
        a == b,
    decreases a.len(),
{
    if a.len() == 0 {
        assert(b.len() == 0);
        assert(a =~= b);
    } else {
        assert(a[0] == b[0]);
        lemma_lex_le_antisym(a.skip(1), b.skip(1));
        assert(a =~= seq![a[0]] + a.skip(1));
        assert(b =~= seq![b[0]] + b.skip(1));
    }
}

proof fn lemma_lex_le_trans(a: Seq<char>, b: Seq<char>, c: Seq<char>)
    requires
        lex_le(a, b),
        lex_le(b, c),
    ensures
        lex_le(a, c),
    decreases a.len(),
{
    if a.len() > 0 {
        assert(b.len() > 0);
        assert(c.len() > 0);
        let a0 = a[0];
        let b0 = b[0];
        let c0 = c[0];
        if a0 == b0 && b0 == c0 {
            lemma_lex_le_trans(a.skip(1), b.skip(1), c.skip(1));
        } else {
            assert(a0 <= b0);
            assert(b0 <= c0);
            assert(a0 < c0);
        }
    }
}

proof fn lemma_lex_le_connected(a: Seq<char>, b: Seq<char>)
    ensures
        lex_le(a, b) || lex_le(b, a),
    decreases a.len(),
{
    if a.len() > 0 && b.len() > 0 {
        lemma_lex_le_connected(a.skip(1), b.skip(1));
    }
}

/// The lexicographic order is a total order.
pub proof fn lemma_lex_total_ordering()
    ensures
        total_ordering(lex_leq_fn()),
{
    let leq = lex_leq_fn();
    assert forall|a: Seq<char>| #[trigger] leq(a, a) by {
        lemma_lex_le_refl(a);
    }
    assert forall|a: Seq<char>, b: Seq<char>| #[trigger] leq(a, b) && #[trigger] leq(b, a)
        implies a == b by {
        lemma_lex_le_antisym(a, b);
    }
    assert forall|a: Seq<char>, b: Seq<char>, c: Seq<char>|
        #[trigger] leq(a, b) && #[trigger] leq(b, c) implies leq(a, c) by {
        lemma_lex_le_trans(a, b, c);
    }
    assert forall|a: Seq<char>, b: Seq<char>| !(#[trigger] leq(a, b)) implies leq(b, a) by {
        lemma_lex_le_connected(a, b);
    }
}

/// The given strings sorted ascending.
pub open spec fn sort_lex(s: Seq<Seq<char>>) -> Seq<Seq<char>> {
    s.sort_by(lex_leq_fn())
}

/// Compares two strings in the lexicographic order.
pub fn lex_le_exec(a: &str, b: &str) -> (r: bool)
    ensures
        r == lex_le(a@, b@),
{
    let na = a.unicode_len();
    let nb = b.unicode_len();
    let mut i: usize = 0;
    proof {
        assert(a@.skip(0) =~= a@);
        assert(b@.skip(0) =~= b@);
    }
    loop
        invariant
            0 <= i <= na,
            i <= nb,
            na == a@.len(),
            nb == b@.len(),
            lex_le(a@, b@) == lex_le(a@.skip(i as int), b@.skip(i as int)),
        decreases na - i,
    {
        if i >= na {
            return true;
        }
        if i >= nb {
            return false;
        }
        let ca = a.get_char(i);
        let cb = b.get_char(i);
        if ca < cb {
            return true;
        }
        if ca > cb {
            return false;
        }
        proof {
            assert(a@.skip(i as int).skip(1) =~= a@.skip(i + 1));
            assert(b@.skip(i as int).skip(1) =~= b@.skip(i + 1));
        }
        i = i + 1;
    }
}

/// Sorts strings ascending in the lexicographic order.
pub fn sort_strings(v: &Vec<String>) -> (r: Vec<String>)
    ensures
        r.deep_view() == sort_lex(v.deep_view()),
{
    proof {
        lemma_lex_total_ordering();
    }
    let mut out: Vec<String> = Vec::new();
    let mut idx: usize = 0;
    proof {
        broadcast use vstd::seq_lib::group_to_multiset_ensures;

        assert(v.deep_view().take(0) =~= Seq::<Seq<char>>::empty());
        assert(out.deep_view() =~= Seq::<Seq<char>>::empty());
    }
    while idx < v.len()
        invariant
            0 <= idx <= v.len(),
            v.deep_view().len() == v.len(),
            sorted_by(out.deep_view(), lex_leq_fn()),
            out.deep_view().to_multiset() == v.deep_view().take(idx as int).to_multiset(),
        decreases v.len() - idx,
    {
        let x = v[idx].clone();
        let mut p: usize = 0;
        while p < out.len() && lex_le_exec(out[p].as_str(), x.as_str())
            invariant
                0 <= p <= out.len(),
                out.deep_view().len() == out.len(),
                x@ == v.deep_view()[idx as int],
                forall|q: int| 0 <= q < p ==> lex_le(#[trigger] out.deep_view()[q], x@),
            decreases out.len() - p,
        {
            p = p + 1;
        }
        let ghost old_out = out.deep_view();
        let ghost hit_end = p == out.len();
        out.insert(p, x);
        proof {
            broadcast use vstd::seq_lib::group_to_multiset_ensures;

            assert(out.deep_view() =~= old_out.insert(p as int, x@));
            old_out.insert_ensures(p as int, x@);
            lemma_lex_total_ordering();
            assert forall|i: int, j: int| 0 <= i < j < out.deep_view().len() implies #[trigger] lex_leq_fn()(
                out.deep_view()[i],
                out.deep_view()[j],
            ) by {
                let s = out.deep_view();
                let leq = lex_leq_fn();
                if j < p {
                    assert(s[i] == old_out[i] && s[j] == old_out[j]);
                } else if i < p && j == p {
                    assert(s[i] == old_out[i] && s[j] == x@);
                } else if i < p && j > p {
                    assert(s[i] == old_out[i] && s[j] == old_out[j - 1]);
                    assert(leq(old_out[i], old_out[j - 1]));
                } else if i == p {
                    assert(s[i] == x@ && s[j] == old_out[j - 1]);
                    assert(!hit_end);
                    assert(!leq(old_out[p as int], x@));
                    lemma_lex_le_connected(old_out[p as int], x@);
                    if j - 1 == p {
                    } else {
                        assert(leq(old_out[p as int], old_out[j - 1]));
                        lemma_lex_le_trans(x@, old_out[p as int], old_out[j - 1]);
                    }
                } else {
                    assert(s[i] == old_out[i - 1] && s[j] == old_out[j - 1]);
                    assert(leq(old_out[i - 1], old_out[j - 1]));
                }
            }
            assert(old_out.insert(p as int, x@).to_multiset() == old_out.to_multiset().insert(x@))
                by {
                lemma_multiset_insert_any(old_out, p as int, x@);
            }
            assert(v.deep_view().take(idx + 1) =~= v.deep_view().take(idx as int).push(
                v.deep_view()[idx as int],
            ));
        }
        idx = idx + 1;
    }
    proof {
        assert(v.deep_view().take(v.len() as int) =~= v.deep_view());
        v.deep_view().lemma_sort_by_ensures(lex_leq_fn());
        lemma_sorted_unique(out.deep_view(), sort_lex(v.deep_view()), lex_leq_fn());
    }
    out
}

/// Inserting anywhere adds one copy to the multiset.
proof fn lemma_multiset_insert_any<A>(s: Seq<A>, p: int, x: A)
    requires
        0 <= p <= s.len(),
    ensures
        s.insert(p, x).to_multiset() == s.to_multiset().insert(x),
{
    broadcast use vstd::seq_lib::group_to_multiset_ensures;

    let t = s.insert(p, x);
    assert(t.remove(p) =~= s);
    assert(t.to_multiset().remove(t[p]) == s.to_multiset());
    assert(t.to_multiset().contains(t[p])) by {
        assert(t[p] == x);
        assert(0 <= p < t.len());
    }
    assert(t.to_multiset() =~= t.to_multiset().remove(x).insert(x));
    assert(t.to_multiset() =~= s.to_multiset().insert(x));
}

/// Keeps the first of each run of equal adjacent strings.
pub open spec fn dedup_sorted(s: Seq<Seq<char>>) -> Seq<Seq<char>>
    decreases s.len(),
{
    if s.len() <= 1 {
        s
    } else if s[0] == s[1] {
        dedup_sorted(s.skip(1))
    } else {
        seq![s[0]] + dedup_sorted(s.skip(1))
    }
}

/// Removes adjacent duplicates, as the view-level `dedup_sorted`.
pub fn dedup_strings(v: &Vec<String>) -> (r: Vec<String>)
    ensures
        r.deep_view() == dedup_sorted(v.deep_view()),
{
    let mut out: Vec<String> = Vec::new();
    let n = v.len();
    if n == 0 {
        proof {
            assert(v.deep_view().len() == 0);
            assert(out.deep_view() =~= dedup_sorted(v.deep_view()));
        }
        return out;
    }
    let mut i: usize = n;
    while i > 0
        invariant
            0 <= i <= n,
            n == v.len(),
            v.deep_view().len() == n,
            out.deep_view() == dedup_sorted(v.deep_view().skip(i as int)),
        decreases i,
    {
        i = i - 1;
        let keep = if i + 1 < n {
            !str_eq(v[i].as_str(), v[i + 1].as_str())
        } else {
            true
        };
        let ghost before = out.deep_view();
        if keep {
            out.insert(0, v[i].clone());
        }
        proof {
            let t = v.deep_view().skip(i as int);
            assert(t.len() >= 1);
            assert(t[0] == v.deep_view()[i as int]);
            if i + 1 < n {
                assert(t[1] == v.deep_view()[i + 1]);
            }
            assert(t.skip(1) =~= v.deep_view().skip(i + 1));
            if keep {
                assert(out.deep_view() =~= before.insert(0, v.deep_view()[i as int]));
                assert(seq![t[0]] + dedup_sorted(t.skip(1)) =~= dedup_sorted(t.skip(1)).insert(
                    0,
                    t[0],
                ));
            } else {
                assert(t.len() >= 2 && t[0] == t[1]);
            }
        }
    }
    proof {
        assert(v.deep_view().skip(0) =~= v.deep_view());
    }
    out
}

/// Compares two strings for equality of their characters.
pub fn str_eq(a: &str, b: &str) -> (r: bool)
    ensures
        r == (a@ == b@),
{
    let na = a.unicode_len();
    let nb = b.unicode_len();
    if na != nb {
        return false;
    }
    let mut i: usize = 0;
    while i < na
        invariant
            0 <= i <= na,
            na == a@.len(),
            na == b@.len(),
            forall|k: int| 0 <= k < i ==> a@[k] == b@[k],
        decreases na - i,
    {
        if a.get_char(i) != b.get_char(i) {
            return false;
        }
        i = i + 1;
    }
    proof {
        assert(a@ =~= b@);
    }
    true
}

/// Whether any string of `v` has the characters of `x`.
pub fn contains_str(v: &Vec<String>, x: &str) -> (r: bool)
    ensures
        r == v.deep_view().contains(x@),
{
    let n = v.len();
    let mut i: usize = 0;
    while i < n
        invariant
            0 <= i <= n,
            n == v.len(),
            v.deep_view().len() == n,
            forall|k: int| 0 <= k < i ==> v.deep_view()[k] != x@,
        decreases n - i,
    {
        if str_eq(v[i].as_str(), x) {
            proof {
                assert(v.deep_view()[i as int] == x@);
            }
            return true;
        }
        i = i + 1;
    }
    false
}

/// The strings joined with a comma between each pair.
pub open spec fn join_comma(s: Seq<Seq<char>>) -> Seq<char>
    decreases s.len(),
{
    if s.len() == 0 {
        Seq::empty()
    } else if s.len() == 1 {
        s[0]
    } else {
        s[0] + seq![','] + join_comma(s.skip(1))
    }
}

/// Joins strings with commas, as the view-level `join_comma`.
pub fn join_strings(v: &Vec<String>) -> (r: String)
    ensures
        r@ == join_comma(v.deep_view()),
{
    let mut out = String::new();
    let n = v.len();
    let mut i: usize = 0;
    while i < n
        invariant
            0 <= i <= n,
            n == v.len(),
            v.deep_view().len() == n,
            i == 0 ==> out@ =~= Seq::<char>::empty(),
            0 < i ==> out@ == join_comma(v.deep_view().take(i as int)),
        decreases n - i,
    {
        if i > 0 {
            out.append(",");
            proof {
                reveal_strlit(",");
            }
        }
        out.append(v[i].as_str());
        proof {
            lemma_join_take_step(v.deep_view(), i as int);
        }
        i = i + 1;
    }
    proof {
        if n > 0 {
            assert(v.deep_view().take(n as int) =~= v.deep_view());
        }
    }
    out
}

/// Joining one more string appends a comma (when needed) and the string.
proof fn lemma_join_take_step(s: Seq<Seq<char>>, i: int)
    requires
        0 <= i < s.len(),
    ensures
        i == 0 ==> join_comma(s.take(1)) == s[0],
        i > 0 ==> join_comma(s.take(i + 1)) == join_comma(s.take(i)) + seq![','] + s[i],
{
    lemma_join_push(s.take(i), s[i]);
    assert(s.take(i).push(s[i]) =~= s.take(i + 1));
    if i == 0 {
        assert(join_comma(s.take(0)) =~= Seq::<char>::empty());
        assert(Seq::<char>::empty() + seq![','] + s[0] =~= seq![','] + s[0]);
        assert(join_comma(s.take(1)) =~= s.take(1)[0]);
    }
}

/// Joining after a push appends at the right.
proof fn lemma_join_push(s: Seq<Seq<char>>, x: Seq<char>)
    ensures
        s.len() == 0 ==> join_comma(s.push(x)) == x,
        s.len() > 0 ==> join_comma(s.push(x)) == join_comma(s) + seq![','] + x,
    decreases s.len(),
{
    if s.len() == 0 {
        assert(join_comma(s.push(x)) == s.push(x)[0]);
        assert(s.push(x)[0] == x);
    } else {
        lemma_join_push(s.skip(1), x);
        assert(s.push(x).skip(1) =~= s.skip(1).push(x));
        if s.len() == 1 {
            assert(join_comma(s.push(x)) == s.push(x)[0] + seq![','] + join_comma(
                s.push(x).skip(1),
            ));
            assert(join_comma(s) =~= s[0]);
        } else {
            assert(join_comma(s) + seq![','] + x =~= s[0] + seq![','] + (join_comma(s.skip(1))
                + seq![','] + x));
        }
    }
}

} // verus!
