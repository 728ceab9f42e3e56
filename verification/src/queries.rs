//! The query engine: four pure tree traversals over the validated forest.
//!
//! Every query is a function of the forest alone; multi-result outputs
//! are sorted ascending by code point before joining.

use vstd::prelude::*;
use vstd::arithmetic::div_mod::lemma_add_mod_noop;
use vstd::arithmetic::div_mod::lemma_fundamental_div_mod;
use vstd::arithmetic::div_mod::lemma_mod_multiples_vanish;
use vstd::arithmetic::div_mod::lemma_small_mod;
use vstd::seq_lib::lemma_multiset_commutative;

use crate::lexer::is_number_tok;
use crate::lexer::number_val;
use crate::lexer::parse_i64;
use crate::node::forest_view;
use crate::node::lemma_forest_view_index;
use crate::node::lemma_wf_forest_index;
use crate::node::wf_forest;
use crate::node::wf_node;
use crate::node::Node;
use crate::node::NodeKind;
use crate::node::NodeV;
use crate::strutil::dedup_sorted;
use crate::strutil::join_comma;
use crate::strutil::sort_lex;
use crate::strutil::sort_strings;

verus! {

/// Two to the sixty-fourth: the width of the 64-bit wrap.
pub open spec fn two_64() -> int {
    0x10000000000000000
}

/// The unique value in the 64-bit signed range congruent to `x`.
pub open spec fn wrap_i64(x: int) -> int {
    ((x + 0x8000000000000000) % 0x10000000000000000) - 0x8000000000000000
}

/// `wrap_i64` lands in the signed range and differs from its argument by
/// a multiple of two to the sixty-fourth.
pub proof fn lemma_wrap_props(x: int)
    ensures
        i64::MIN <= wrap_i64(x) <= i64::MAX,
        (x - wrap_i64(x)) % two_64() == 0,
{
    let m = two_64();
    let s = x + 0x8000000000000000;
    lemma_fundamental_div_mod(s, m);
    let k = s / m;
    assert(s % m == s - m * k);
    assert(x - wrap_i64(x) == m * k);
    lemma_mod_multiples_vanish(k, 0, m);
}

/// Anything in the signed range congruent to `x` is `wrap_i64(x)`.
pub proof fn lemma_wrap_unique(x: int, y: int)
    requires
        i64::MIN <= y <= i64::MAX,
        (x - y) % two_64() == 0,
    ensures
        wrap_i64(x) == y,
{
    let m = two_64();
    lemma_fundamental_div_mod(x - y, m);
    let k = (x - y) / m;
    assert(x - y == m * k);
    assert(x + 0x8000000000000000 == m * k + (y + 0x8000000000000000));
    lemma_mod_multiples_vanish(k, y + 0x8000000000000000, m);
    lemma_small_mod((y + 0x8000000000000000) as nat, m as nat);
}

/// The mathematical sum of every Number leaf in the forest, at any depth.
pub open spec fn sum_nodes(f: Seq<NodeV>) -> int
    decreases f,
{
    if f.len() == 0 {
        0
    } else {
        sum_nodes(f.drop_last()) + sum_node(f.last())
    }
}

/// A Number contributes its value, a List the sum of its children,
/// anything else zero.
pub open spec fn sum_node(n: NodeV) -> int
    decreases n,
{
    match n.kind {
        NodeKind::List => sum_nodes(n.children),
        NodeKind::Number => number_val(n.value),
        NodeKind::ListString => 0,
        NodeKind::Pointer => 0,
    }
}

/// Sums every Number leaf, wrapping on 64-bit overflow.
pub fn recursive_sum(data: &Vec<Node>) -> (r: i64)
    requires
        wf_forest(forest_view(data@)),
    ensures
        r as int == wrap_i64(sum_nodes(forest_view(data@))),
    decreases data@,
{
    let ghost fv = forest_view(data@);
    proof {
        lemma_forest_view_index(data@);
        lemma_wf_forest_index(fv);
    }
    let mut acc: i64 = 0;
    let mut i: usize = 0;
    proof {
        assert(fv.take(0) =~= Seq::<NodeV>::empty());
        lemma_wrap_unique(0, 0);
    }
    while i < data.len()
        invariant
            0 <= i <= data.len(),
            fv == forest_view(data@),
            fv.len() == data.len(),
            forall|k: int| 0 <= k < data.len() ==> fv[k] == crate::node::node_view(data@[k]),
            forall|k: int| 0 <= k < fv.len() ==> wf_node(#[trigger] fv[k]),
            acc as int == wrap_i64(sum_nodes(fv.take(i as int))),
        decreases data.len() - i,
    {
        let node = &data[i];
        let ghost partial = sum_nodes(fv.take(i as int));
        let ghost nv = fv[i as int];
        proof {
            assert(fv.take(i + 1).drop_last() =~= fv.take(i as int));
            assert(fv.take(i + 1).last() == nv);
        }
        let addend: i64 = match node.kind {
            NodeKind::Number => {
                let parsed = parse_i64(node.value.as_str());
                match parsed {
                    Some(v) => {
                        proof {
                            assert(nv.value == node.value@);
                            assert(v as int == sum_node(nv));
                        }
                        v
                    },
                    None => {
                        proof {
                            assert(is_number_tok(nv.value));
                            assert(false);
                        }
                        0
                    },
                }
            },
            NodeKind::List => {
                proof {
                    assert(decreases_to!(data@ => data@[i as int]));
                    assert(decreases_to!(data@[i as int] => data@[i as int].children));
                    assert(decreases_to!(data@[i as int].children => data@[i as int].children@));
                }
                let sub = recursive_sum(&node.children);
                proof {
                    assert(nv.children == forest_view(node.children@));
                }
                sub
            },
            NodeKind::ListString => 0,
            NodeKind::Pointer => 0,
        };
        proof {
            if nv.kind is List {
                lemma_wrap_props(sum_nodes(nv.children));
            } else {
                lemma_wrap_unique(addend as int, addend as int);
            }
            assert((sum_node(nv) - addend as int) % two_64() == 0);
        }
        let next = acc.wrapping_add(addend);
        proof {
            lemma_wrap_props(partial);
            let m = two_64();
            assert((acc as int + addend as int - next as int) % m == 0) by {
                let d = acc as int + addend as int - next as int;
                assert(d == 0 || d == m || d == -m);
                lemma_mod_multiples_vanish(1, 0, m);
                lemma_mod_multiples_vanish(-1, 0, m);
                lemma_mod_multiples_vanish(0, 0, m);
            }
            let a1 = partial - acc as int;
            let a2 = sum_node(nv) - addend as int;
            let a3 = acc as int + addend as int - next as int;
            lemma_add_mod_noop(a1, a2, m);
            lemma_add_mod_noop(a1 + a2, a3, m);
            assert((partial + sum_node(nv) - next as int) % m == 0);
            lemma_wrap_unique(partial + sum_node(nv), next as int);
            assert(sum_nodes(fv.take(i + 1)) == partial + sum_node(nv));
        }
        acc = next;
        i = i + 1;
    }
    proof {
        assert(fv.take(data.len() as int) =~= fv);
    }
    acc
}

/// Every List name in the forest, pre-order: a list's own name before
/// its descendants', left to right.
pub open spec fn names_of(f: Seq<NodeV>) -> Seq<Seq<char>>
    decreases f,
{
    if f.len() == 0 {
        Seq::empty()
    } else {
        names_of_node(f[0]) + names_of(f.skip(1))
    }
}

pub open spec fn names_of_node(n: NodeV) -> Seq<Seq<char>>
    decreases n,
{
    if n.kind is List {
        seq![n.value] + names_of(n.children)
    } else {
        Seq::empty()
    }
}

/// Every Pointer identifier in the forest, in traversal order.
pub open spec fn ptrs_of(f: Seq<NodeV>) -> Seq<Seq<char>>
    decreases f,
{
    if f.len() == 0 {
        Seq::empty()
    } else {
        ptrs_of_node(f[0]) + ptrs_of(f.skip(1))
    }
}

pub open spec fn ptrs_of_node(n: NodeV) -> Seq<Seq<char>>
    decreases n,
{
    match n.kind {
        NodeKind::List => ptrs_of(n.children),
        NodeKind::Pointer => seq![n.value],
        NodeKind::ListString => Seq::empty(),
        NodeKind::Number => Seq::empty(),
    }
}

pub proof fn lemma_names_of_concat(a: Seq<NodeV>, b: Seq<NodeV>)
    ensures
        names_of(a + b) == names_of(a) + names_of(b),
    decreases a.len(),
{
    if a.len() == 0 {
        assert(a + b =~= b);
        assert(names_of(a) + names_of(b) =~= names_of(b));
    } else {
        assert((a + b).skip(1) =~= a.skip(1) + b);
        lemma_names_of_concat(a.skip(1), b);
        assert(names_of_node(a[0]) + (names_of(a.skip(1)) + names_of(b)) =~= (names_of_node(a[0])
            + names_of(a.skip(1))) + names_of(b));
    }
}

pub proof fn lemma_ptrs_of_concat(a: Seq<NodeV>, b: Seq<NodeV>)
    ensures
        ptrs_of(a + b) == ptrs_of(a) + ptrs_of(b),
    decreases a.len(),
{
    if a.len() == 0 {
        assert(a + b =~= b);
        assert(ptrs_of(a) + ptrs_of(b) =~= ptrs_of(b));
    } else {
        assert((a + b).skip(1) =~= a.skip(1) + b);
        lemma_ptrs_of_concat(a.skip(1), b);
        assert(ptrs_of_node(a[0]) + (ptrs_of(a.skip(1)) + ptrs_of(b)) =~= (ptrs_of_node(a[0])
            + ptrs_of(a.skip(1))) + ptrs_of(b));
    }
}

/// Collects every List name, pre-order.
pub fn recursive_namecheck(data: &Vec<Node>) -> (r: Vec<String>)
    ensures
        r.deep_view() == names_of(forest_view(data@)),
    decreases data@,
{
    let ghost fv = forest_view(data@);
    proof {
        lemma_forest_view_index(data@);
        assert(fv.take(0) =~= Seq::<NodeV>::empty());
    }
    let mut out: Vec<String> = Vec::new();
    proof {
        assert(out.deep_view() =~= names_of(fv.take(0)));
    }
    let mut i: usize = 0;
    while i < data.len()
        invariant
            0 <= i <= data.len(),
            fv == forest_view(data@),
            fv.len() == data.len(),
            forall|k: int| 0 <= k < data.len() ==> fv[k] == crate::node::node_view(data@[k]),
            out.deep_view() == names_of(fv.take(i as int)),
        decreases data.len() - i,
    {
        let ghost nv = fv[i as int];
        proof {
            assert(fv.take(i + 1) =~= fv.take(i as int) + seq![nv]);
            lemma_names_of_concat(fv.take(i as int), seq![nv]);
            assert(seq![nv].skip(1) =~= Seq::<NodeV>::empty());
            assert(names_of(seq![nv]) =~= names_of_node(nv)) by {
                assert(names_of(Seq::<NodeV>::empty()) =~= Seq::<Seq<char>>::empty());
                assert(names_of_node(nv) + Seq::<Seq<char>>::empty() =~= names_of_node(nv));
            }
        }
        let node = &data[i];
        if matches!(node.kind, NodeKind::List) {
            let ghost before = out.deep_view();
            out.push(node.value.clone());
            proof {
                assert(out.deep_view() =~= before.push(node.value@));
                assert(decreases_to!(data@ => data@[i as int]));
                assert(decreases_to!(data@[i as int] => data@[i as int].children));
                assert(decreases_to!(data@[i as int].children => data@[i as int].children@));
            }
            let mut sub = recursive_namecheck(&node.children);
            let ghost mid = out.deep_view();
            let ghost subv = sub.deep_view();
            out.append(&mut sub);
            proof {
                assert(out.deep_view() =~= mid + subv);
                assert(nv.children == forest_view(node.children@));
                assert(out.deep_view() =~= before + (seq![nv.value] + names_of(nv.children)));
            }
        } else {
            proof {
                assert(names_of_node(nv) =~= Seq::<Seq<char>>::empty());
                assert(out.deep_view() =~= names_of(fv.take(i as int)) + names_of_node(nv));
            }
        }
        i = i + 1;
    }
    proof {
        assert(fv.take(data.len() as int) =~= fv);
    }
    out
}

/// Collects every Pointer identifier.
pub fn recursive_ptrcheck(data: &Vec<Node>) -> (r: Vec<String>)
    ensures
        r.deep_view() == ptrs_of(forest_view(data@)),
    decreases data@,
{
    let ghost fv = forest_view(data@);
    proof {
        lemma_forest_view_index(data@);
        assert(fv.take(0) =~= Seq::<NodeV>::empty());
    }
    let mut out: Vec<String> = Vec::new();
    proof {
        assert(out.deep_view() =~= ptrs_of(fv.take(0)));
    }
    let mut i: usize = 0;
    while i < data.len()
        invariant
            0 <= i <= data.len(),
            fv == forest_view(data@),
            fv.len() == data.len(),
            forall|k: int| 0 <= k < data.len() ==> fv[k] == crate::node::node_view(data@[k]),
            out.deep_view() == ptrs_of(fv.take(i as int)),
        decreases data.len() - i,
    {
        let ghost nv = fv[i as int];
        proof {
            assert(fv.take(i + 1) =~= fv.take(i as int) + seq![nv]);
            lemma_ptrs_of_concat(fv.take(i as int), seq![nv]);
            assert(seq![nv].skip(1) =~= Seq::<NodeV>::empty());
            assert(ptrs_of(seq![nv]) =~= ptrs_of_node(nv)) by {
                assert(ptrs_of(Seq::<NodeV>::empty()) =~= Seq::<Seq<char>>::empty());
                assert(ptrs_of_node(nv) + Seq::<Seq<char>>::empty() =~= ptrs_of_node(nv));
            }
        }
        let node = &data[i];
        match node.kind {
            NodeKind::List => {
                proof {
                    assert(decreases_to!(data@ => data@[i as int]));
                    assert(decreases_to!(data@[i as int] => data@[i as int].children));
                    assert(decreases_to!(data@[i as int].children => data@[i as int].children@));
                }
                let ghost before = out.deep_view();
                let mut sub = recursive_ptrcheck(&node.children);
                let ghost subv = sub.deep_view();
                out.append(&mut sub);
                proof {
                    assert(out.deep_view() =~= before + subv);
                    assert(nv.children == forest_view(node.children@));
                }
            },
            NodeKind::Pointer => {
                let ghost before = out.deep_view();
                out.push(node.value.clone());
                proof {
                    assert(out.deep_view() =~= before.push(node.value@));
                    assert(before.push(nv.value) =~= before + seq![nv.value]);
                }
            },
            NodeKind::ListString => {
                proof {
                    assert(out.deep_view() =~= ptrs_of(fv.take(i as int)) + ptrs_of_node(nv));
                }
            },
            NodeKind::Number => {
                proof {
                    assert(out.deep_view() =~= ptrs_of(fv.take(i as int)) + ptrs_of_node(nv));
                }
            },
        }
        i = i + 1;
    }
    proof {
        assert(fv.take(data.len() as int) =~= fv);
    }
    out
}

/// The report for an empty result.
pub open spec fn ok_str() -> Seq<char> {
    seq!['O', 'K']
}

/// One entry for each adjacent equal pair of a sorted run.
pub open spec fn adj_dups(s: Seq<Seq<char>>) -> Seq<Seq<char>>
    decreases s.len(),
{
    if s.len() < 2 {
        Seq::empty()
    } else {
        adj_dups(s.drop_last()) + (if s[s.len() - 2] == s[s.len() - 1] {
            seq![s[s.len() - 1]]
        } else {
            Seq::empty()
        })
    }
}

/// The NAMECHECK report: the List names that occur more than once, each
/// once, sorted ascending and comma-joined; `OK` when there are none.
pub open spec fn namecheck_out(f: Seq<NodeV>) -> Seq<char> {
    let dups = dedup_sorted(adj_dups(sort_lex(names_of(f))));
    if dups.len() == 0 {
        ok_str()
    } else {
        join_comma(dups)
    }
}

/// Reports each duplicated List name once, sorted; `OK` when none.
pub fn namecheck(data: &Vec<Node>) -> (r: String)
    ensures
        r@ == namecheck_out(forest_view(data@)),
{
    let names = recursive_namecheck(data);
    let sorted = sort_strings(&names);
    let ghost sv = sorted.deep_view();
    let mut dups: Vec<String> = Vec::new();
    let mut i: usize = 1;
    proof {
        if sv.len() == 0 {
            assert(dups.deep_view() =~= adj_dups(sv));
        } else {
            assert(sv.take(1).len() == 1);
            assert(dups.deep_view() =~= adj_dups(sv.take(1)));
        }
    }
    while i < sorted.len()
        invariant
            1 <= i,
            i <= sorted.len() || i == 1,
            sv == sorted.deep_view(),
            sv.len() == sorted.len(),
            i <= sv.len() ==> dups.deep_view() == adj_dups(sv.take(i as int)),
            sv.len() == 0 ==> dups.deep_view() == adj_dups(sv),
        decreases sorted.len() - i,
    {
        let ghost before = dups.deep_view();
        proof {
            assert(sv.take(i + 1).drop_last() =~= sv.take(i as int));
            assert(sv.take(i + 1)[i as int] == sv[i as int]);
            assert(sv.take(i + 1)[i - 1] == sv[i - 1]);
        }
        if crate::strutil::str_eq(sorted[i - 1].as_str(), sorted[i].as_str()) {
            dups.push(sorted[i].clone());
            proof {
                assert(dups.deep_view() =~= before.push(sv[i as int]));
                assert(before.push(sv[i as int]) =~= before + seq![sv[i as int]]);
            }
        } else {
            proof {
                assert(dups.deep_view() =~= before + Seq::<Seq<char>>::empty());
            }
        }
        i = i + 1;
    }
    proof {
        if sv.len() > 0 {
            assert(sv.take(sv.len() as int) =~= sv);
        }
        assert(dups.deep_view() == adj_dups(sv));
    }
    let deduped = crate::strutil::dedup_strings(&dups);
    if deduped.len() == 0 {
        let r = String::from_str("OK");
        proof {
            reveal_strlit("OK");
            assert(r@ =~= ok_str());
        }
        r
    } else {
        crate::strutil::join_strings(&deduped)
    }
}

/// Which of the sorted, deduplicated strings are absent from `names`.
pub open spec fn absent_of(ptrs: Seq<Seq<char>>, names: Seq<Seq<char>>) -> Seq<Seq<char>>
    decreases ptrs.len(),
{
    if ptrs.len() == 0 {
        Seq::empty()
    } else {
        (if names.contains(ptrs[0]) {
            Seq::empty()
        } else {
            seq![ptrs[0]]
        }) + absent_of(ptrs.skip(1), names)
    }
}

pub proof fn lemma_absent_of_concat(a: Seq<Seq<char>>, b: Seq<Seq<char>>, names: Seq<Seq<char>>)
    ensures
        absent_of(a + b, names) == absent_of(a, names) + absent_of(b, names),
    decreases a.len(),
{
    if a.len() == 0 {
        assert(a + b =~= b);
        assert(absent_of(a, names) + absent_of(b, names) =~= absent_of(b, names));
    } else {
        assert((a + b).skip(1) =~= a.skip(1) + b);
        lemma_absent_of_concat(a.skip(1), b, names);
        let h = if names.contains(a[0]) {
            Seq::<Seq<char>>::empty()
        } else {
            seq![a[0]]
        };
        assert(h + (absent_of(a.skip(1), names) + absent_of(b, names)) =~= (h + absent_of(
            a.skip(1),
            names,
        )) + absent_of(b, names));
    }
}

/// The PTRS report: every referenced identifier that names no List,
/// once each, sorted ascending and comma-joined; `OK` when none dangle.
pub open spec fn ptrs_out(f: Seq<NodeV>) -> Seq<char> {
    let dang = absent_of(dedup_sorted(sort_lex(ptrs_of(f))), names_of(f));
    if dang.len() == 0 {
        ok_str()
    } else {
        join_comma(dang)
    }
}

/// Reports each dangling pointer once, sorted; `OK` when none.
pub fn pointercheck(data: &Vec<Node>) -> (r: String)
    ensures
        r@ == ptrs_out(forest_view(data@)),
{
    let names = recursive_namecheck(data);
    let ptrs = recursive_ptrcheck(data);
    let sorted = sort_strings(&ptrs);
    let deduped = crate::strutil::dedup_strings(&sorted);
    let ghost dv = deduped.deep_view();
    let ghost nv = names.deep_view();
    let mut dang: Vec<String> = Vec::new();
    proof {
        assert(dv.take(0) =~= Seq::<Seq<char>>::empty());
        assert(dang.deep_view() =~= absent_of(dv.take(0), nv));
    }
    let mut i: usize = 0;
    while i < deduped.len()
        invariant
            0 <= i <= deduped.len(),
            dv == deduped.deep_view(),
            nv == names.deep_view(),
            dv.len() == deduped.len(),
            dang.deep_view() == absent_of(dv.take(i as int), nv),
        decreases deduped.len() - i,
    {
        let ghost before = dang.deep_view();
        proof {
            assert(dv.take(i + 1) =~= dv.take(i as int) + seq![dv[i as int]]);
            lemma_absent_of_concat(dv.take(i as int), seq![dv[i as int]], nv);
            assert(seq![dv[i as int]].skip(1) =~= Seq::<Seq<char>>::empty());
            assert(absent_of(Seq::<Seq<char>>::empty(), nv) =~= Seq::<Seq<char>>::empty());
        }
        if !crate::strutil::contains_str(&names, deduped[i].as_str()) {
            dang.push(deduped[i].clone());
            proof {
                assert(dang.deep_view() =~= before.push(dv[i as int]));
                assert(absent_of(seq![dv[i as int]], nv) =~= seq![dv[i as int]]);
                assert(before.push(dv[i as int]) =~= before + seq![dv[i as int]]);
            }
        } else {
            proof {
                assert(absent_of(seq![dv[i as int]], nv) =~= Seq::<Seq<char>>::empty());
                assert(dang.deep_view() =~= before + Seq::<Seq<char>>::empty());
            }
        }
        i = i + 1;
    }
    proof {
        assert(dv.take(deduped.len() as int) =~= dv);
    }
    if dang.len() == 0 {
        let r = String::from_str("OK");
        proof {
            reveal_strlit("OK");
            assert(r@ =~= ok_str());
        }
        r
    } else {
        crate::strutil::join_strings(&dang)
    }
}

/// A Number or String leaf whose value equals the token exactly.
pub open spec fn leaf_match(c: NodeV, tok: Seq<char>) -> bool {
    (c.kind is ListString || c.kind is Number) && c.value == tok
}

/// The paths contributed by the children of a list named `parent`: a
/// matching leaf child contributes `parent`; a nested list's paths get
/// `:` and `parent` appended. Every match contributes one path.
pub open spec fn child_paths(cs: Seq<NodeV>, parent: Seq<char>, tok: Seq<char>) -> Seq<Seq<char>>
    decreases cs,
{
    if cs.len() == 0 {
        Seq::empty()
    } else {
        one_child_paths(cs[0], parent, tok) + child_paths(cs.skip(1), parent, tok)
    }
}

pub open spec fn one_child_paths(c: NodeV, parent: Seq<char>, tok: Seq<char>) -> Seq<Seq<char>>
    decreases c,
{
    if c.kind is List {
        child_paths(c.children, c.value, tok).map_values(|p: Seq<char>| p + seq![':'] + parent)
    } else if leaf_match(c, tok) {
        seq![parent]
    } else {
        Seq::empty()
    }
}

/// The unsorted paths of every match in the forest, from the immediate
/// parent's name outward.
pub open spec fn paths_of(f: Seq<NodeV>, tok: Seq<char>) -> Seq<Seq<char>>
    decreases f,
{
    if f.len() == 0 {
        Seq::empty()
    } else {
        top_paths(f[0], tok) + paths_of(f.skip(1), tok)
    }
}

pub open spec fn top_paths(n: NodeV, tok: Seq<char>) -> Seq<Seq<char>>
    decreases n,
{
    if n.kind is List {
        child_paths(n.children, n.value, tok)
    } else {
        Seq::empty()
    }
}

pub proof fn lemma_paths_of_concat(a: Seq<NodeV>, b: Seq<NodeV>, tok: Seq<char>)
    ensures
        paths_of(a + b, tok) == paths_of(a, tok) + paths_of(b, tok),
    decreases a.len(),
{
    if a.len() == 0 {
        assert(a + b =~= b);
        assert(paths_of(a, tok) + paths_of(b, tok) =~= paths_of(b, tok));
    } else {
        assert((a + b).skip(1) =~= a.skip(1) + b);
        lemma_paths_of_concat(a.skip(1), b, tok);
        assert(top_paths(a[0], tok) + (paths_of(a.skip(1), tok) + paths_of(b, tok)) =~= (top_paths(
            a[0],
            tok,
        ) + paths_of(a.skip(1), tok)) + paths_of(b, tok));
    }
}

proof fn lemma_child_paths_concat(a: Seq<NodeV>, b: Seq<NodeV>, parent: Seq<char>, tok: Seq<char>)
    ensures
        child_paths(a + b, parent, tok) == child_paths(a, parent, tok) + child_paths(
            b,
            parent,
            tok,
        ),
    decreases a.len(),
{
    if a.len() == 0 {
        assert(a + b =~= b);
        assert(child_paths(a, parent, tok) + child_paths(b, parent, tok) =~= child_paths(
            b,
            parent,
            tok,
        ));
    } else {
        assert((a + b).skip(1) =~= a.skip(1) + b);
        lemma_child_paths_concat(a.skip(1), b, parent, tok);
        assert(one_child_paths(a[0], parent, tok) + (child_paths(a.skip(1), parent, tok)
            + child_paths(b, parent, tok)) =~= (one_child_paths(a[0], parent, tok) + child_paths(
            a.skip(1),
            parent,
            tok,
        )) + child_paths(b, parent, tok));
    }
}

/// Collects the paths of every match among the children of a list
/// named `parent`.
fn search_children(cs: &Vec<Node>, parent: &str, look: &str) -> (r: Vec<String>)
    ensures
        r.deep_view() == child_paths(forest_view(cs@), parent@, look@),
    decreases cs@,
{
    let ghost fv = forest_view(cs@);
    let ghost tok = look@;
    proof {
        lemma_forest_view_index(cs@);
        assert(fv.take(0) =~= Seq::<NodeV>::empty());
    }
    let mut out: Vec<String> = Vec::new();
    proof {
        assert(out.deep_view() =~= child_paths(fv.take(0), parent@, tok));
    }
    let mut i: usize = 0;
    while i < cs.len()
        invariant
            0 <= i <= cs.len(),
            fv == forest_view(cs@),
            tok == look@,
            fv.len() == cs.len(),
            forall|k: int| 0 <= k < cs.len() ==> fv[k] == crate::node::node_view(cs@[k]),
            out.deep_view() == child_paths(fv.take(i as int), parent@, tok),
        decreases cs.len() - i,
    {
        let ghost nv = fv[i as int];
        proof {
            assert(fv.take(i + 1) =~= fv.take(i as int) + seq![nv]);
            lemma_child_paths_concat(fv.take(i as int), seq![nv], parent@, tok);
            assert(seq![nv].skip(1) =~= Seq::<NodeV>::empty());
            assert(child_paths(Seq::<NodeV>::empty(), parent@, tok) =~= Seq::<Seq<char>>::empty());
            assert(child_paths(seq![nv], parent@, tok) =~= one_child_paths(nv, parent@, tok));
        }
        let ghost base = out.deep_view();
        let node = &cs[i];
        match node.kind {
            NodeKind::List => {
                proof {
                    assert(decreases_to!(cs@ => cs@[i as int]));
                    assert(decreases_to!(cs@[i as int] => cs@[i as int].children));
                    assert(decreases_to!(cs@[i as int].children => cs@[i as int].children@));
                }
                let sub = search_children(&node.children, node.value.as_str(), look);
                let ghost subv = sub.deep_view();
                let ghost mapped = child_paths(nv.children, nv.value, tok).map_values(
                    (|p: Seq<char>| p + seq![':'] + parent@),
                );
                proof {
                    assert(nv.children == forest_view(node.children@));
                    assert(subv == child_paths(nv.children, nv.value, tok));
                    assert(mapped.len() == subv.len());
                    assert(mapped.take(0) =~= Seq::<Seq<char>>::empty());
                    assert(base + mapped.take(0) =~= base);
                }
                let mut k: usize = 0;
                while k < sub.len()
                    invariant
                        0 <= k <= sub.len(),
                        subv == sub.deep_view(),
                        subv.len() == sub.len(),
                        subv == child_paths(nv.children, nv.value, tok),
                        mapped == child_paths(nv.children, nv.value, tok).map_values(
                            (|p: Seq<char>| p + seq![':'] + parent@),
                        ),
                        mapped.len() == subv.len(),
                        tok == look@,
                        out.deep_view() == base + mapped.take(k as int),
                    decreases sub.len() - k,
                {
                    let mut t = sub[k].clone();
                    t.append(":");
                    t.append(parent);
                    let ghost prev = out.deep_view();
                    out.push(t);
                    proof {
                        reveal_strlit(":");
                        assert(t@ == subv[k as int] + seq![':'] + parent@) by {
                            assert(":"@ =~= seq![':']);
                        }
                        assert(mapped[k as int] == subv[k as int] + seq![':'] + parent@);
                        assert(mapped.take(k + 1) =~= mapped.take(k as int).push(mapped[k as int]));
                        assert(out.deep_view() =~= prev.push(t@));
                        assert(out.deep_view() =~= base + mapped.take(k + 1));
                    }
                    k = k + 1;
                }
                proof {
                    assert(mapped.take(subv.len() as int) =~= mapped);
                    assert(one_child_paths(nv, parent@, tok) == mapped);
                    assert(out.deep_view() =~= child_paths(fv.take(i + 1), parent@, tok));
                }
            },
            NodeKind::ListString => {
                if crate::strutil::str_eq(node.value.as_str(), look) {
                    out.push(String::from_str(parent));
                    proof {
                        assert(leaf_match(nv, tok));
                        assert(one_child_paths(nv, parent@, tok) =~= seq![parent@]);
                        assert(out.deep_view() =~= base.push(parent@));
                        assert(base.push(parent@) =~= base + seq![parent@]);
                    }
                } else {
                    proof {
                        assert(!leaf_match(nv, tok));
                        assert(out.deep_view() =~= base + Seq::<Seq<char>>::empty());
                    }
                }
            },
            NodeKind::Number => {
                if crate::strutil::str_eq(node.value.as_str(), look) {
                    out.push(String::from_str(parent));
                    proof {
                        assert(leaf_match(nv, tok));
                        assert(one_child_paths(nv, parent@, tok) =~= seq![parent@]);
                        assert(out.deep_view() =~= base.push(parent@));
                        assert(base.push(parent@) =~= base + seq![parent@]);
                    }
                } else {
                    proof {
                        assert(!leaf_match(nv, tok));
                        assert(out.deep_view() =~= base + Seq::<Seq<char>>::empty());
                    }
                }
            },
            NodeKind::Pointer => {
                proof {
                    assert(one_child_paths(nv, parent@, tok) =~= Seq::<Seq<char>>::empty());
                    assert(out.deep_view() =~= base + Seq::<Seq<char>>::empty());
                }
            },
        }
        i = i + 1;
    }
    proof {
        assert(fv.take(cs.len() as int) =~= fv);
    }
    out
}

/// Collects the path of every match in the forest, unsorted.
pub fn recursive_search(data: &Vec<Node>, look: &str) -> (r: Vec<String>)
    ensures
        r.deep_view() == paths_of(forest_view(data@), look@),
{
    let ghost fv = forest_view(data@);
    let ghost tok = look@;
    proof {
        lemma_forest_view_index(data@);
        assert(fv.take(0) =~= Seq::<NodeV>::empty());
    }
    let mut out: Vec<String> = Vec::new();
    proof {
        assert(out.deep_view() =~= paths_of(fv.take(0), tok));
    }
    let mut i: usize = 0;
    while i < data.len()
        invariant
            0 <= i <= data.len(),
            fv == forest_view(data@),
            tok == look@,
            fv.len() == data.len(),
            forall|k: int| 0 <= k < data.len() ==> fv[k] == crate::node::node_view(data@[k]),
            out.deep_view() == paths_of(fv.take(i as int), tok),
        decreases data.len() - i,
    {
        let ghost nv = fv[i as int];
        proof {
            assert(fv.take(i + 1) =~= fv.take(i as int) + seq![nv]);
            lemma_paths_of_concat(fv.take(i as int), seq![nv], tok);
            assert(seq![nv].skip(1) =~= Seq::<NodeV>::empty());
            assert(paths_of(Seq::<NodeV>::empty(), tok) =~= Seq::<Seq<char>>::empty());
            assert(paths_of(seq![nv], tok) =~= top_paths(nv, tok));
        }
        let ghost base = out.deep_view();
        let node = &data[i];
        if matches!(node.kind, NodeKind::List) {
            let mut sub = search_children(&node.children, node.value.as_str(), look);
            let ghost subv = sub.deep_view();
            out.append(&mut sub);
            proof {
                assert(nv.children == forest_view(node.children@));
                assert(out.deep_view() =~= base + subv);
            }
        } else {
            proof {
                assert(top_paths(nv, tok) =~= Seq::<Seq<char>>::empty());
                assert(out.deep_view() =~= base + Seq::<Seq<char>>::empty());
            }
        }
        i = i + 1;
    }
    proof {
        assert(fv.take(data.len() as int) =~= fv);
    }
    out
}

/// The report for a search with no match.
pub open spec fn nil_str() -> Seq<char> {
    seq!['N', 'I', 'L']
}

/// The SEARCH report: every match's path, sorted ascending and
/// comma-joined, repeats kept; `NIL` when there is no match.
pub open spec fn search_out(f: Seq<NodeV>, tok: Seq<char>) -> Seq<char> {
    let ps = sort_lex(paths_of(f, tok));
    if ps.len() == 0 {
        nil_str()
    } else {
        join_comma(ps)
    }
}

/// Collected names and pointers depend only on the multiset of trees:
/// permuting the top-level trees of a forest permutes the collections.
pub proof fn lemma_collect_of_forest_permutation(f1: Seq<NodeV>, f2: Seq<NodeV>)
    requires
        f1.to_multiset() == f2.to_multiset(),
    ensures
        names_of(f1).to_multiset() == names_of(f2).to_multiset(),
        ptrs_of(f1).to_multiset() == ptrs_of(f2).to_multiset(),
    decreases f1.len(),
{
    broadcast use vstd::seq_lib::group_to_multiset_ensures;
    broadcast use vstd::multiset::group_multiset_axioms;

    if f1.len() == 0 {
        assert(f2.to_multiset().len() == 0);
        assert(f2.len() == 0);
        assert(names_of(f1) =~= names_of(f2));
        assert(ptrs_of(f1) =~= ptrs_of(f2));
    } else {
        let x = f1[0];
        assert(f1.to_multiset().contains(x));
        assert(f2.to_multiset().contains(x));
        assert(f2.contains(x));
        let j = choose|j: int| 0 <= j < f2.len() && f2[j] == x;
        assert(f1.remove(0).to_multiset() == f1.to_multiset().remove(x));
        assert(f2.remove(j).to_multiset() == f2.to_multiset().remove(x));
        assert(f1.remove(0) =~= f1.skip(1));
        lemma_collect_of_forest_permutation(f1.skip(1), f2.remove(j));
        lemma_collect_split_at(f2, j);
        assert(names_of(f1) == names_of_node(x) + names_of(f1.skip(1)));
        lemma_multiset_commutative(names_of_node(x), names_of(f1.skip(1)));
        lemma_multiset_commutative(names_of_node(x), names_of(f2.remove(j)));
        assert(ptrs_of(f1) == ptrs_of_node(x) + ptrs_of(f1.skip(1)));
        lemma_multiset_commutative(ptrs_of_node(x), ptrs_of(f1.skip(1)));
        lemma_multiset_commutative(ptrs_of_node(x), ptrs_of(f2.remove(j)));
    }
}

/// Removing one tree removes exactly its contribution to the collected
/// names and pointers.
proof fn lemma_collect_split_at(f: Seq<NodeV>, j: int)
    requires
        0 <= j < f.len(),
    ensures
        names_of(f).to_multiset() == names_of_node(f[j]).to_multiset().add(
            names_of(f.remove(j)).to_multiset(),
        ),
        ptrs_of(f).to_multiset() == ptrs_of_node(f[j]).to_multiset().add(
            ptrs_of(f.remove(j)).to_multiset(),
        ),
{
    broadcast use vstd::multiset::group_multiset_axioms;

    let pre = f.take(j);
    let post = f.skip(j + 1);
    assert(f =~= pre + (seq![f[j]] + post));
    lemma_names_of_concat(pre, seq![f[j]] + post);
    lemma_names_of_concat(seq![f[j]], post);
    lemma_ptrs_of_concat(pre, seq![f[j]] + post);
    lemma_ptrs_of_concat(seq![f[j]], post);
    assert(names_of(seq![f[j]]) == names_of_node(f[j]) + names_of(Seq::<NodeV>::empty())) by {
        assert(seq![f[j]].skip(1) =~= Seq::<NodeV>::empty());
    }
    assert(names_of_node(f[j]) + names_of(Seq::<NodeV>::empty()) =~= names_of_node(f[j]));
    assert(ptrs_of(seq![f[j]]) == ptrs_of_node(f[j]) + ptrs_of(Seq::<NodeV>::empty())) by {
        assert(seq![f[j]].skip(1) =~= Seq::<NodeV>::empty());
    }
    assert(ptrs_of_node(f[j]) + ptrs_of(Seq::<NodeV>::empty()) =~= ptrs_of_node(f[j]));
    assert(f.remove(j) =~= pre + post);
    lemma_names_of_concat(pre, post);
    lemma_ptrs_of_concat(pre, post);
    lemma_multiset_commutative(names_of(pre), names_of_node(f[j]) + names_of(post));
    lemma_multiset_commutative(names_of_node(f[j]), names_of(post));
    lemma_multiset_commutative(names_of(pre), names_of(post));
    lemma_multiset_commutative(ptrs_of(pre), ptrs_of_node(f[j]) + ptrs_of(post));
    lemma_multiset_commutative(ptrs_of_node(f[j]), ptrs_of(post));
    lemma_multiset_commutative(ptrs_of(pre), ptrs_of(post));
}

/// A node whose children are permuted contributes the same names and
/// pointers: with the forest lemma above, the collections are invariant
/// under any permutation of sibling items at any nesting level.
pub proof fn lemma_collect_of_sibling_permutation(n1: NodeV, n2: NodeV)
    requires
        n1.kind == n2.kind,
        n1.value == n2.value,
        n1.children.to_multiset() == n2.children.to_multiset(),
    ensures
        names_of_node(n1).to_multiset() == names_of_node(n2).to_multiset(),
        ptrs_of_node(n1).to_multiset() == ptrs_of_node(n2).to_multiset(),
{
    broadcast use vstd::multiset::group_multiset_axioms;

    lemma_collect_of_forest_permutation(n1.children, n2.children);
    if n1.kind is List {
        lemma_multiset_commutative(seq![n1.value], names_of(n1.children));
        lemma_multiset_commutative(seq![n2.value], names_of(n2.children));
    }
}

/// The NAMECHECK report depends only on the multiset of collected
/// names, and the PTRS report only on the multisets of collected names
/// and pointers: order of storage never shows in either output.
pub proof fn lemma_reports_of_multisets(f1: Seq<NodeV>, f2: Seq<NodeV>)
    requires
        names_of(f1).to_multiset() == names_of(f2).to_multiset(),
        ptrs_of(f1).to_multiset() == ptrs_of(f2).to_multiset(),
    ensures
        namecheck_out(f1) == namecheck_out(f2),
        ptrs_out(f1) == ptrs_out(f2),
{
    lemma_sort_of_multiset(names_of(f1), names_of(f2));
    lemma_sort_of_multiset(ptrs_of(f1), ptrs_of(f2));
    lemma_absent_of_same_membership(
        dedup_sorted(sort_lex(ptrs_of(f1))),
        names_of(f1),
        names_of(f2),
    );
}

/// Sorting two sequences with equal multisets gives the same sequence.
proof fn lemma_sort_of_multiset(a: Seq<Seq<char>>, b: Seq<Seq<char>>)
    requires
        a.to_multiset() == b.to_multiset(),
    ensures
        sort_lex(a) == sort_lex(b),
{
    crate::strutil::lemma_lex_total_ordering();
    a.lemma_sort_by_ensures(crate::strutil::lex_leq_fn());
    b.lemma_sort_by_ensures(crate::strutil::lex_leq_fn());
    vstd::seq_lib::lemma_sorted_unique(sort_lex(a), sort_lex(b), crate::strutil::lex_leq_fn());
}

/// Membership is all `absent_of` reads of its second argument.
proof fn lemma_absent_of_same_membership(p: Seq<Seq<char>>, n1: Seq<Seq<char>>, n2: Seq<Seq<char>>)
    requires
        n1.to_multiset() == n2.to_multiset(),
    ensures
        absent_of(p, n1) == absent_of(p, n2),
    decreases p.len(),
{
    broadcast use vstd::seq_lib::group_to_multiset_ensures;

    if p.len() > 0 {
        assert(n1.contains(p[0]) <==> n1.to_multiset().count(p[0]) > 0);
        assert(n2.contains(p[0]) <==> n2.to_multiset().count(p[0]) > 0);
        lemma_absent_of_same_membership(p.skip(1), n1, n2);
    }
}

/// Whether the token matches some leaf anywhere under the lists of the
/// forest.
pub open spec fn occurs(f: Seq<NodeV>, tok: Seq<char>) -> bool
    decreases f,
{
    if f.len() == 0 {
        false
    } else {
        (f[0].kind is List && occurs_in(f[0].children, tok)) || occurs(f.skip(1), tok)
    }
}

pub open spec fn occurs_in(cs: Seq<NodeV>, tok: Seq<char>) -> bool
    decreases cs,
{
    if cs.len() == 0 {
        false
    } else {
        leaf_match(cs[0], tok) || (cs[0].kind is List && occurs_in(cs[0].children, tok))
            || occurs_in(cs.skip(1), tok)
    }
}

/// There is a path exactly when there is a match.
proof fn lemma_child_paths_occurs(cs: Seq<NodeV>, parent: Seq<char>, tok: Seq<char>)
    ensures
        child_paths(cs, parent, tok).len() > 0 <==> occurs_in(cs, tok),
    decreases cs,
{
    if cs.len() > 0 {
        lemma_child_paths_occurs(cs.skip(1), parent, tok);
        if cs[0].kind is List {
            lemma_child_paths_occurs(cs[0].children, cs[0].value, tok);
            assert(one_child_paths(cs[0], parent, tok).len() == child_paths(
                cs[0].children,
                cs[0].value,
                tok,
            ).len());
        }
        assert(child_paths(cs, parent, tok).len() == one_child_paths(cs[0], parent, tok).len()
            + child_paths(cs.skip(1), parent, tok).len());
    }
}

proof fn lemma_paths_of_occurs(f: Seq<NodeV>, tok: Seq<char>)
    ensures
        paths_of(f, tok).len() > 0 <==> occurs(f, tok),
    decreases f,
{
    if f.len() > 0 {
        lemma_paths_of_occurs(f.skip(1), tok);
        if f[0].kind is List {
            lemma_child_paths_occurs(f[0].children, f[0].value, tok);
        }
    }
}

/// The SEARCH report is the sorted multiset of the match paths, and a
/// token that matches nothing in the forest reports `NIL`.
pub proof fn lemma_search_report_props(f: Seq<NodeV>, tok: Seq<char>)
    ensures
        vstd::relations::sorted_by(sort_lex(paths_of(f, tok)), crate::strutil::lex_leq_fn()),
        sort_lex(paths_of(f, tok)).to_multiset() == paths_of(f, tok).to_multiset(),
        !occurs(f, tok) ==> search_out(f, tok) == nil_str(),
        occurs(f, tok) ==> search_out(f, tok) == join_comma(sort_lex(paths_of(f, tok))),
{
    broadcast use vstd::seq_lib::group_to_multiset_ensures;

    crate::strutil::lemma_lex_total_ordering();
    paths_of(f, tok).lemma_sort_by_ensures(crate::strutil::lex_leq_fn());
    lemma_paths_of_occurs(f, tok);
    assert(sort_lex(paths_of(f, tok)).to_multiset() =~= paths_of(f, tok).to_multiset());
    assert(sort_lex(paths_of(f, tok)).len() == sort_lex(paths_of(f, tok)).to_multiset().len());
    assert(paths_of(f, tok).len() == paths_of(f, tok).to_multiset().len());
}

/// Reports every match of `look`, sorted; `NIL` when there is none.
pub fn search(data: &Vec<Node>, look: &str) -> (r: String)
    ensures
        r@ == search_out(forest_view(data@), look@),
{
    let found = recursive_search(data, look);
    let sorted = sort_strings(&found);
    if sorted.len() == 0 {
        let r = String::from_str("NIL");
        proof {
            reveal_strlit("NIL");
            assert(r@ =~= nil_str());
        }
        r
    } else {
        crate::strutil::join_strings(&sorted)
    }
}

} // verus!
