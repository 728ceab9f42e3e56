//! Canonical serialization of a tree, and the proof that parsing it
//! gives the tree back.
//!
//! The canonical form has no whitespace: `{name:item,item}` with nested
//! lists written the same way.

use vstd::prelude::*;

use crate::chars::is_alnum_char;
use crate::chars::is_digit_char;
use crate::chars::is_space_char;
use crate::chars::trim_spec;
use crate::lexer::is_number_tok;
use crate::lexer::is_pointer_tok;
use crate::lexer::is_string_tok;
use crate::lexer::lemma_token_classes_exclusive;
use crate::node::forest_view;
use crate::node::lemma_wf_forest_index;
use crate::node::node_view;
use crate::node::wf_forest;
use crate::node::wf_node;
use crate::node::Node;
use crate::node::NodeKind;
use crate::node::NodeV;
use crate::parser::depth_sum;
use crate::parser::first_colon;
use crate::parser::first_top_comma;
use crate::parser::is_top_comma;
use crate::parser::lemma_depth_sum_concat;
use crate::parser::lemma_first_colon_is;
use crate::parser::lemma_first_top_comma_is;
use crate::parser::lemma_parse_list_wf;
use crate::parser::parse_item;
use crate::parser::parse_items;
use crate::parser::parse_list;

verus! {

/// The canonical text of one node.
pub open spec fn ser_node(n: NodeV) -> Seq<char>
    decreases n, 0int,
{
    match n.kind {
        NodeKind::Number => n.value,
        NodeKind::ListString => n.value,
        NodeKind::Pointer => seq!['@'] + n.value,
        NodeKind::List => seq!['{'] + n.value + seq![':'] + ser_items(n.children) + seq!['}'],
    }
}

/// The canonical text of an item list, comma-separated.
pub open spec fn ser_items(s: Seq<NodeV>) -> Seq<char>
    decreases s, 1int,
{
    if s.len() == 0 {
        Seq::empty()
    } else if s.len() == 1 {
        ser_node(s[0])
    } else {
        ser_node(s[0]) + seq![','] + ser_items(s.skip(1))
    }
}

/// No comma of `s` sits at brace depth zero.
pub open spec fn no_top_comma(s: Seq<char>) -> bool {
    forall|i: int| 0 <= i < s.len() ==> !is_top_comma(s, 0, i)
}

/// Every prefix of `s` closes no more braces than it opens.
pub open spec fn prefixes_nonneg(s: Seq<char>) -> bool {
    forall|i: int| 0 <= i <= s.len() ==> depth_sum(s.take(i)) >= 0
}

/// The depth change of a single character.
proof fn lemma_depth_single(c: char)
    ensures
        depth_sum(seq![c]) == crate::parser::depth_delta(c),
{
    assert(seq![c] =~= Seq::<char>::empty().push(c));
    assert(depth_sum(Seq::<char>::empty()) == 0);
    crate::parser::lemma_depth_sum_push(Seq::<char>::empty(), c);
}

/// The depth of a prefix of a concatenation.
proof fn lemma_prefix_depth_concat(a: Seq<char>, b: Seq<char>, i: int)
    requires
        0 <= i <= a.len() + b.len(),
    ensures
        i <= a.len() ==> depth_sum((a + b).take(i)) == depth_sum(a.take(i)),
        i > a.len() ==> depth_sum((a + b).take(i)) == depth_sum(a) + depth_sum(b.take(i - a.len())),
{
    if i <= a.len() {
        assert((a + b).take(i) =~= a.take(i));
    } else {
        assert((a + b).take(i) =~= a + b.take(i - a.len()));
        lemma_depth_sum_concat(a, b.take(i - a.len()));
        assert(a.take(a.len() as int) =~= a);
    }
}

/// A sequence whose characters open and close no braces has depth zero,
/// in every prefix.
proof fn lemma_depth_flat(s: Seq<char>)
    requires
        forall|i: int| 0 <= i < s.len() ==> s[i] != '{' && s[i] != '}',
    ensures
        depth_sum(s) == 0,
        forall|i: int| 0 <= i <= s.len() ==> depth_sum(s.take(i)) == 0,
    decreases s.len(),
{
    if s.len() > 0 {
        lemma_depth_flat(s.skip(1));
        assert(depth_sum(s) == 0);
    }
    assert forall|i: int| 0 <= i <= s.len() implies depth_sum(s.take(i)) == 0 by {
        lemma_depth_flat_flatness(s, i);
    }
}

proof fn lemma_depth_flat_flatness(s: Seq<char>, i: int)
    requires
        forall|k: int| 0 <= k < s.len() ==> s[k] != '{' && s[k] != '}',
        0 <= i <= s.len(),
    ensures
        depth_sum(s.take(i)) == 0,
    decreases i,
{
    if i == 0 {
        assert(s.take(0) =~= Seq::<char>::empty());
    } else {
        lemma_depth_flat_flatness(s, i - 1);
        assert(s.take(i) =~= s.take(i - 1).push(s[i - 1]));
        crate::parser::lemma_depth_sum_push(s.take(i - 1), s[i - 1]);
    }
}

/// The shape facts about a serialized item needed by the parser: it is
/// non-empty, balanced, never dips below depth zero, has no top-level
/// comma, no whitespace at either end, and a first character that
/// betrays its class.
pub proof fn lemma_ser_item_shape(n: NodeV)
    requires
        wf_node(n),
    ensures
        ser_node(n).len() >= 1,
        depth_sum(ser_node(n)) == 0,
        prefixes_nonneg(ser_node(n)),
        no_top_comma(ser_node(n)),
        !is_space_char(ser_node(n)[0]),
        !is_space_char(ser_node(n).last()),
        n.kind is List ==> ser_node(n)[0] == '{',
    decreases n, 0int,
{
    let s = ser_node(n);
    match n.kind {
        NodeKind::Number => {
            if s[0] == '-' {
                assert(forall|i: int| 1 <= i < s.len() ==> s.skip(1)[i - 1] == s[i]);
                assert(forall|i: int| 1 <= i < s.len() ==> is_digit_char(s[i]));
            }
            assert(forall|i: int| 0 <= i < s.len() ==> is_digit_char(s[i]) || s[i] == '-');
            lemma_depth_flat(s);
        },
        NodeKind::ListString => {
            assert(forall|i: int| 0 <= i < s.len() ==> is_alnum_char(s[i]));
            lemma_depth_flat(s);
        },
        NodeKind::Pointer => {
            assert(forall|i: int|
                0 <= i < s.len() ==> s[i] == '@' || is_alnum_char(#[trigger] s[i]));
            lemma_depth_flat(s);
        },
        NodeKind::List => {
            lemma_ser_items_shape(n.children);
            let head = seq!['{'] + n.value + seq![':'];
            let items = ser_items(n.children);
            let tail = items + seq!['}'];
            assert(s =~= head + tail);
            assert(forall|i: int|
                0 <= i < head.len() ==> head[i] == '{' || head[i] == ':' || is_alnum_char(
                    #[trigger] head[i],
                ));
            assert(head[0] == '{');
            assert(forall|i: int| 1 <= i < head.len() ==> head[i] != '{' && head[i] != '}');
            assert(depth_sum(head) == 1) by {
                assert(head.skip(1) =~= n.value + seq![':']);
                assert(forall|i: int|
                    0 <= i < head.skip(1).len() ==> head.skip(1)[i] != '{' && head.skip(1)[i]
                        != '}');
                lemma_depth_flat(head.skip(1));
            }
            assert(depth_sum(tail) == -1) by {
                lemma_depth_sum_concat(items, seq!['}']);
                lemma_depth_single('}');
            }
            lemma_depth_sum_concat(head, tail);
            assert(depth_sum(s) == 0);
            // prefix depths of head are 0 then 1
            assert(forall|i: int| 1 <= i <= head.len() ==> depth_sum(head.take(i)) == 1) by {
                assert forall|i: int| 1 <= i <= head.len() implies depth_sum(head.take(i)) == 1 by {
                    assert(head =~= seq!['{'] + head.skip(1));
                    lemma_prefix_depth_concat(seq!['{'], head.skip(1), i);
                    lemma_depth_single('{');
                    assert(forall|k: int|
                        0 <= k < head.skip(1).len() ==> head.skip(1)[k] != '{' && head.skip(1)[k]
                            != '}');
                    lemma_depth_flat(head.skip(1));
                    if i == 1 {
                        assert(seq!['{'].take(1) =~= seq!['{']);
                    }
                }
            }
            // prefix depths overall
            assert forall|i: int| 0 <= i <= s.len() implies depth_sum(s.take(i)) >= 0 && (0 < i
                < s.len() ==> depth_sum(s.take(i)) >= 1) by {
                lemma_prefix_depth_concat(head, tail, i);
                if i <= head.len() {
                    if i > 0 {
                        assert(depth_sum(head.take(i)) == 1);
                    } else {
                        assert(s.take(0) =~= Seq::<char>::empty());
                    }
                } else {
                    let k = i - head.len();
                    if k <= items.len() {
                        assert(tail.take(k) =~= items.take(k));
                        assert(depth_sum(items.take(k)) >= 0);
                    } else {
                        assert(tail.take(k) =~= items + seq!['}']);
                        assert(depth_sum(tail.take(k)) == depth_sum(tail));
                    }
                }
            }
            // no comma at depth zero: every interior position has depth >= 1
            assert forall|i: int| 0 <= i < s.len() implies !is_top_comma(s, 0, i) by {
                if i == 0 {
                    assert(s[0] == '{');
                } else if i == s.len() - 1 {
                    assert(s[i] == tail[tail.len() - 1]);
                    assert(s[i] == '}');
                } else {
                    assert(depth_sum(s.take(i)) >= 1);
                }
            }
            assert(s[0] == '{');
            assert(s.last() == '}');
        },
    }
}

/// The same shape facts for a serialized item list.
pub proof fn lemma_ser_items_shape(s: Seq<NodeV>)
    requires
        s.len() >= 1,
        wf_forest(s),
    ensures
        ser_items(s).len() >= 1,
        depth_sum(ser_items(s)) == 0,
        prefixes_nonneg(ser_items(s)),
        !is_space_char(ser_items(s)[0]),
        !is_space_char(ser_items(s).last()),
    decreases s, 1int,
{
    lemma_wf_forest_index(s);
    let t = ser_items(s);
    if s.len() == 1 {
        lemma_ser_item_shape(s[0]);
    } else {
        lemma_ser_item_shape(s[0]);
        assert(wf_forest(s.skip(1))) by {
            lemma_wf_forest_index(s.skip(1));
        }
        lemma_ser_items_shape(s.skip(1));
        let a = ser_node(s[0]);
        let mid = a + seq![','];
        let rest = ser_items(s.skip(1));
        assert(t =~= mid + rest);
        assert(depth_sum(mid) == 0) by {
            lemma_depth_sum_concat(a, seq![',']);
            lemma_depth_single(',');
        }
        assert(depth_sum(t) == 0) by {
            lemma_depth_sum_concat(mid, rest);
        }
        assert forall|i: int| 0 <= i <= t.len() implies depth_sum(t.take(i)) >= 0 by {
            lemma_prefix_depth_concat(mid, rest, i);
            if i <= mid.len() {
                lemma_prefix_depth_concat(a, seq![','], i);
                if i <= a.len() {
                    assert(depth_sum(a.take(i)) >= 0);
                } else {
                    assert(depth_sum(seq![','].take(i - a.len())) == 0) by {
                        assert(seq![','].take(1) =~= seq![',']);
                        lemma_depth_single(',');
                    }
                }
            } else {
                assert(depth_sum(rest.take(i - mid.len())) >= 0);
            }
        }
        assert(t[0] == a[0]);
        assert(t.last() == rest.last());
    }
}

/// Parsing the canonical text of a well-formed item gives it back.
pub proof fn lemma_round_trip_item(n: NodeV)
    requires
        wf_node(n),
    ensures
        parse_item(ser_node(n)) == Some(n),
    decreases n, 1int,
{
    let s = ser_node(n);
    lemma_token_classes_exclusive(s);
    match n.kind {
        NodeKind::Number => {
            assert(is_number_tok(s));
            assert(n.children =~= Seq::<NodeV>::empty());
            assert(NodeV { value: s, kind: NodeKind::Number, children: Seq::empty() } =~= n);
        },
        NodeKind::ListString => {
            assert(is_string_tok(s));
            assert(!is_number_tok(s));
            assert(n.children =~= Seq::<NodeV>::empty());
            assert(NodeV { value: s, kind: NodeKind::ListString, children: Seq::empty() } =~= n);
        },
        NodeKind::Pointer => {
            assert(s[0] == '@');
            assert(!is_number_tok(s)) by {
                if is_number_tok(s) {
                    assert(is_digit_char(s[0]));
                }
            }
            assert(!is_string_tok(s));
            assert(s.skip(1) =~= n.value);
            assert(is_pointer_tok(s));
            assert(n.children =~= Seq::<NodeV>::empty());
            assert(NodeV { value: s.skip(1), kind: NodeKind::Pointer, children: Seq::empty() }
                =~= n);
        },
        NodeKind::List => {
            lemma_ser_item_shape(n);
            assert(s[0] == '{');
            assert(!is_number_tok(s)) by {
                if is_number_tok(s) {
                    assert(is_digit_char(s[0]));
                }
            }
            assert(!is_string_tok(s));
            assert(!is_pointer_tok(s));
            lemma_round_trip_list(n);
        },
    }
}

/// Parsing the canonical text of a well-formed list gives it back.
pub proof fn lemma_round_trip_list(n: NodeV)
    requires
        wf_node(n),
        n.kind is List,
    ensures
        parse_list(ser_node(n)) == Some(n),
    decreases n, 0int,
{
    let v = n.value;
    let items = ser_items(n.children);
    let s = ser_node(n);
    lemma_ser_items_shape(n.children);
    let head = seq!['{'] + v + seq![':'];
    assert(s =~= head + items + seq!['}']);
    assert(s.len() == 3 + v.len() + items.len());
    assert(s[0] == '{');
    assert(s[s.len() - 1] == '}');
    assert(s.len() >= 5);
    let k = 1 + v.len() as int;
    assert forall|i: int| 0 <= i < k implies s[i] != ':' by {
        if i > 0 {
            assert(s[i] == v[i - 1]);
            assert(is_alnum_char(v[i - 1]));
        }
    }
    assert(s[k] == ':');
    lemma_first_colon_is(s, k);
    assert(k <= s.len() - 2);
    assert(s.subrange(1, k) =~= v);
    crate::chars::lemma_trim_id(v);
    assert(is_string_tok(v));
    assert(s.subrange(k + 1, s.len() - 1) =~= items);
    crate::chars::lemma_trim_id(items);
    lemma_round_trip_items(n.children);
    assert(parse_items(items) == Some(n.children));
    assert(NodeV { value: v, kind: NodeKind::List, children: n.children } =~= n);
}

/// Parsing the canonical text of a well-formed item list gives it back.
pub proof fn lemma_round_trip_items(s: Seq<NodeV>)
    requires
        s.len() >= 1,
        wf_forest(s),
    ensures
        parse_items(ser_items(s)) == Some(s),
    decreases s, 2int,
{
    lemma_wf_forest_index(s);
    let t = ser_items(s);
    if s.len() == 1 {
        lemma_ser_item_shape(s[0]);
        assert(t == ser_node(s[0]));
        assert forall|i: int| 0 <= i < t.len() implies !is_top_comma(t, 0, i) by {}
        lemma_first_top_comma_is(t, 0, t.len() as int);
        crate::chars::lemma_trim_id(t);
        lemma_round_trip_item(s[0]);
        assert(seq![s[0]] =~= s);
    } else {
        let a = ser_node(s[0]);
        let rest = ser_items(s.skip(1));
        lemma_ser_item_shape(s[0]);
        assert(wf_forest(s.skip(1))) by {
            lemma_wf_forest_index(s.skip(1));
        }
        lemma_ser_items_shape(s.skip(1));
        assert(t =~= a + seq![','] + rest);
        let j = a.len() as int;
        assert forall|i: int| 0 <= i < j implies !is_top_comma(t, 0, i) by {
            assert(t.take(i) =~= a.take(i));
            assert(t[i] == a[i]);
            assert(!is_top_comma(a, 0, i));
        }
        assert(t[j] == ',');
        assert(t.take(j) =~= a);
        assert(is_top_comma(t, 0, j));
        lemma_first_top_comma_is(t, 0, j);
        assert(j < t.len());
        crate::chars::lemma_trim_id(a);
        lemma_round_trip_item(s[0]);
        assert(t.skip(j + 1) =~= rest);
        lemma_round_trip_items(s.skip(1));
        assert(seq![s[0]] + s.skip(1) =~= s);
    }
}

/// Parsing is idempotent through the canonical form: whatever a line
/// parses to, the canonical text of that tree parses to the same tree.
pub proof fn lemma_parse_round_trip(s: Seq<char>)
    ensures
        parse_list(s) is Some ==> parse_list(ser_node(parse_list(s)->0)) == Some(parse_list(s)->0),
{
    if parse_list(s) is Some {
        lemma_parse_list_wf(s);
        lemma_round_trip_list(parse_list(s)->0);
    }
}

/// Renders one node in the canonical form.
pub fn serialize_node(n: &Node) -> (r: String)
    ensures
        r@ == ser_node(n@),
    decreases *n,
{
    match n.kind {
        NodeKind::Number => {
            let r = n.value.clone();
            proof {
                assert(r@ =~= ser_node(n@));
            }
            r
        },
        NodeKind::ListString => {
            let r = n.value.clone();
            proof {
                assert(r@ =~= ser_node(n@));
            }
            r
        },
        NodeKind::Pointer => {
            let mut s = String::from_str("@");
            proof {
                reveal_strlit("@");
                assert(s@ =~= seq!['@']);
            }
            s.append(n.value.as_str());
            proof {
                assert(s@ =~= ser_node(n@));
            }
            s
        },
        NodeKind::List => {
            let mut s = String::from_str("{");
            proof {
                reveal_strlit("{");
                assert(s@ =~= seq!['{']);
            }
            s.append(n.value.as_str());
            s.append(":");
            proof {
                reveal_strlit(":");
                assert(s@ =~= seq!['{'] + n.value@ + seq![':']);
                assert(decreases_to!(*n => n.children));
                assert(decreases_to!(n.children => n.children@));
            }
            let items = serialize_items(&n.children);
            s.append(items.as_str());
            s.append("}");
            proof {
                reveal_strlit("}");
                assert(n@.children == forest_view(n.children@));
                assert(s@ =~= ser_node(n@));
            }
            s
        },
    }
}

/// Renders an item list in the canonical form, comma-separated.
pub fn serialize_items(cs: &Vec<Node>) -> (r: String)
    ensures
        r@ == ser_items(forest_view(cs@)),
    decreases cs@,
{
    let ghost fv = forest_view(cs@);
    proof {
        crate::node::lemma_forest_view_index(cs@);
    }
    let mut out = String::new();
    let n = cs.len();
    let mut k: usize = 0;
    proof {
        assert(fv.skip(0) =~= fv);
        if n == 0 {
            assert(ser_items(fv) =~= Seq::<char>::empty());
        }
    }
    while k < n
        invariant
            0 <= k <= n,
            n == cs.len(),
            fv == forest_view(cs@),
            fv.len() == n,
            forall|q: int| 0 <= q < n ==> fv[q] == node_view(cs@[q]),
            k < n ==> ser_items(fv) == out@ + ser_items(fv.skip(k as int)),
            k == n ==> ser_items(fv) == out@,
        decreases n - k,
    {
        let ghost suf = fv.skip(k as int);
        proof {
            assert(suf[0] == fv[k as int]);
            assert(suf.len() == n - k);
            assert(suf.skip(1) =~= fv.skip(k + 1));
            assert(decreases_to!(cs@ => cs@[k as int]));
        }
        let piece = serialize_node(&cs[k]);
        out.append(piece.as_str());
        if k + 1 < n {
            out.append(",");
            proof {
                reveal_strlit(",");
                assert(ser_items(suf) == ser_node(suf[0]) + seq![','] + ser_items(suf.skip(1)));
                assert(ser_items(fv) =~= out@ + ser_items(fv.skip(k + 1)));
            }
        } else {
            proof {
                assert(ser_items(suf) == ser_node(suf[0]));
                assert(ser_items(fv) =~= out@);
            }
        }
        k = k + 1;
    }
    out
}

} // verus!
