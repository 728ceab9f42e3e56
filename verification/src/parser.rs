//! Recursive-descent parser for one line of the data section.
//!
//! Grammar: `LIST ::= '{' STRING ':' ITEMS '}'`,
//! `ITEMS ::= ITEM (',' ITEM)*`, `ITEM ::= NUMBER | STRING | POINTER | LIST`.
//!
//! The meaning of a line is fixed by the spec functions `parse_list`,
//! `parse_items` and `parse_item`; the executable functions return exactly
//! what those say.

use vstd::prelude::*;

use crate::chars::is_space_char;
use crate::chars::lemma_trim_len;
use crate::chars::trim_spec;
use crate::chars::trim_str;
use crate::lexer::check_numeric;
use crate::lexer::check_pointer;
use crate::lexer::check_string;
use crate::lexer::is_number_tok;
use crate::lexer::is_pointer_tok;
use crate::lexer::is_string_tok;
use crate::node::forest_view;
use crate::node::lemma_forest_view_index;
use crate::node::node_view;
use crate::node::wf_forest;
use crate::node::wf_node;
use crate::node::Node;
use crate::node::NodeKind;
use crate::node::NodeV;

verus! {

/// Index of the first `:` in `s`, or `s.len()` if there is none.
pub open spec fn first_colon(s: Seq<char>) -> int
    decreases s.len(),
{
    if s.len() == 0 {
        0
    } else if s[0] == ':' {
        0
    } else {
        1 + first_colon(s.skip(1))
    }
}

pub proof fn lemma_first_colon_props(s: Seq<char>)
    ensures
        0 <= first_colon(s) <= s.len(),
        first_colon(s) < s.len() ==> s[first_colon(s)] == ':',
        forall|i: int| 0 <= i < first_colon(s) ==> s[i] != ':',
    decreases s.len(),
{
    if s.len() > 0 && s[0] != ':' {
        lemma_first_colon_props(s.skip(1));
        assert(forall|i: int| 1 <= i < first_colon(s) ==> s[i] == s.skip(1)[i - 1]);
    }
}

/// How a character changes the brace depth.
pub open spec fn depth_delta(c: char) -> int {
    if c == '{' {
        1
    } else if c == '}' {
        -1
    } else {
        0
    }
}

/// The total brace-depth change over `s`.
pub open spec fn depth_sum(s: Seq<char>) -> int
    decreases s.len(),
{
    if s.len() == 0 {
        0
    } else {
        depth_delta(s[0]) + depth_sum(s.skip(1))
    }
}

pub proof fn lemma_depth_sum_concat(a: Seq<char>, b: Seq<char>)
    ensures
        depth_sum(a + b) == depth_sum(a) + depth_sum(b),
    decreases a.len(),
{
    if a.len() == 0 {
        assert(a + b =~= b);
    } else {
        assert((a + b).skip(1) =~= a.skip(1) + b);
        lemma_depth_sum_concat(a.skip(1), b);
    }
}

/// A comma at position `i` of `s` is a split point when the brace depth
/// there, starting from `d`, is zero.
pub open spec fn is_top_comma(s: Seq<char>, d: int, i: int) -> bool {
    s[i] == ',' && d + depth_sum(s.take(i)) == 0
}

/// Index of the first top-level comma of `s` starting at depth `d`, or
/// `s.len()` if there is none.
pub open spec fn first_top_comma(s: Seq<char>, d: int) -> int
    decreases s.len(),
{
    if s.len() == 0 {
        0
    } else if d == 0 && s[0] == ',' {
        0
    } else {
        1 + first_top_comma(s.skip(1), d + depth_delta(s[0]))
    }
}

pub proof fn lemma_first_top_comma_props(s: Seq<char>, d: int)
    ensures
        0 <= first_top_comma(s, d) <= s.len(),
        first_top_comma(s, d) < s.len() ==> is_top_comma(s, d, first_top_comma(s, d)),
        forall|i: int| 0 <= i < first_top_comma(s, d) ==> !is_top_comma(s, d, i),
    decreases s.len(),
{
    if s.len() == 0 {
    } else if d == 0 && s[0] == ',' {
        assert(s.take(0) =~= Seq::<char>::empty());
    } else {
        let t = s.skip(1);
        let d1 = d + depth_delta(s[0]);
        lemma_first_top_comma_props(t, d1);
        let j = first_top_comma(s, d);
        assert forall|i: int| 0 <= i < s.len() implies d + depth_sum(s.take(i)) == if i == 0 {
            d
        } else {
            d1 + depth_sum(t.take(i - 1))
        } by {
            if i > 0 {
                assert(s.take(i)[0] == s[0]);
                assert(s.take(i).skip(1) =~= t.take(i - 1));
            } else {
                assert(s.take(0) =~= Seq::<char>::empty());
            }
        }
        if j < s.len() {
            assert(t[j - 1] == s[j]);
            assert(is_top_comma(s, d, j));
        }
        assert forall|i: int| 0 <= i < j implies !is_top_comma(s, d, i) by {
            if i > 0 {
                assert(!is_top_comma(t, d1, i - 1));
                assert(t[i - 1] == s[i]);
            }
        }
    }
}

/// The position with no colon before it and a colon at it (or the end)
/// is the first colon.
pub proof fn lemma_first_colon_is(s: Seq<char>, k: int)
    requires
        0 <= k <= s.len(),
        forall|i: int| 0 <= i < k ==> s[i] != ':',
        k < s.len() ==> s[k] == ':',
    ensures
        first_colon(s) == k,
{
    lemma_first_colon_props(s);
}

/// The position with no top-level comma before it and one at it (or the
/// end) is the first top-level comma.
pub proof fn lemma_first_top_comma_is(s: Seq<char>, d: int, j: int)
    requires
        0 <= j <= s.len(),
        forall|i: int| 0 <= i < j ==> !is_top_comma(s, d, i),
        j < s.len() ==> is_top_comma(s, d, j),
    ensures
        first_top_comma(s, d) == j,
{
    lemma_first_top_comma_props(s, d);
}

/// Parses one item: the first matching class of Number, String, Pointer
/// wins; anything else must be a nested list.
pub open spec fn parse_item(s: Seq<char>) -> Option<NodeV>
    decreases s.len(), 1int,
{
    if is_number_tok(s) {
        Some(NodeV { value: s, kind: NodeKind::Number, children: Seq::empty() })
    } else if is_string_tok(s) {
        Some(NodeV { value: s, kind: NodeKind::ListString, children: Seq::empty() })
    } else if is_pointer_tok(s) {
        Some(NodeV { value: s.skip(1), kind: NodeKind::Pointer, children: Seq::empty() })
    } else {
        parse_list(s)
    }
}

/// Parses a comma-separated item list. The text splits at top-level
/// commas only; every segment, trimmed, must be non-empty and parse.
pub open spec fn parse_items(s: Seq<char>) -> Option<Seq<NodeV>>
    decreases s.len(), 2int,
    via parse_items_decreases
{
    if s.len() == 0 {
        None
    } else {
        let j = first_top_comma(s, 0);
        if j == s.len() {
            let seg = trim_spec(s);
            if seg.len() == 0 {
                None
            } else {
                match parse_item(seg) {
                    Some(n) => Some(seq![n]),
                    None => None,
                }
            }
        } else {
            let seg = trim_spec(s.take(j));
            if seg.len() == 0 {
                None
            } else {
                match parse_item(seg) {
                    Some(n) => match parse_items(s.skip(j + 1)) {
                        Some(rest) => Some(seq![n] + rest),
                        None => None,
                    },
                    None => None,
                }
            }
        }
    }
}

#[via_fn]
proof fn parse_items_decreases(s: Seq<char>) {
    lemma_trim_len(s);
    if s.len() > 0 {
        let j = first_top_comma(s, 0);
        lemma_first_top_comma_props(s, 0);
        lemma_trim_len(s.take(j));
    }
}

/// Parses one whole list: `{`, a String-token name, the first `:`, the
/// items, `}`.
pub open spec fn parse_list(s: Seq<char>) -> Option<NodeV>
    decreases s.len(), 0int,
    via parse_list_decreases
{
    if s.len() < 5 {
        None
    } else if s[0] != '{' || s[s.len() - 1] != '}' {
        None
    } else {
        let k = first_colon(s);
        if k > s.len() - 2 {
            None
        } else {
            let name = trim_spec(s.subrange(1, k));
            let items = trim_spec(s.subrange(k + 1, s.len() - 1));
            if !is_string_tok(name) {
                None
            } else {
                match parse_items(items) {
                    Some(ch) => Some(NodeV { value: name, kind: NodeKind::List, children: ch }),
                    None => None,
                }
            }
        }
    }
}

#[via_fn]
proof fn parse_list_decreases(s: Seq<char>) {
    if s.len() >= 5 {
        lemma_first_colon_props(s);
        lemma_trim_len(s.subrange(first_colon(s) + 1, s.len() - 1));
    }
}

/// Whatever parses is well-formed.
pub proof fn lemma_parse_list_wf(s: Seq<char>)
    ensures
        parse_list(s) is Some ==> wf_node(parse_list(s)->0) && parse_list(s)->0.kind
            == NodeKind::List,
    decreases s.len(), 0int,
{
    if parse_list(s) is Some {
        let k = first_colon(s);
        lemma_first_colon_props(s);
        let items = trim_spec(s.subrange(k + 1, s.len() - 1));
        proof_decreases_items(s, k);
        lemma_parse_items_wf(items);
    }
}

/// The items text of a list line is strictly shorter than the line.
proof fn proof_decreases_items(s: Seq<char>, k: int)
    requires
        s.len() >= 5,
        k == first_colon(s),
        0 <= k <= s.len() - 2,
    ensures
        trim_spec(s.subrange(k + 1, s.len() - 1)).len() < s.len(),
{
    lemma_trim_len(s.subrange(k + 1, s.len() - 1));
}

pub proof fn lemma_parse_item_wf(s: Seq<char>)
    ensures
        parse_item(s) is Some ==> wf_node(parse_item(s)->0),
    decreases s.len(), 1int,
{
    if !is_number_tok(s) && !is_string_tok(s) && !is_pointer_tok(s) {
        lemma_parse_list_wf(s);
    }
}

pub proof fn lemma_parse_items_wf(s: Seq<char>)
    ensures
        parse_items(s) is Some ==> {
            let ch = parse_items(s)->0;
            ch.len() > 0 && wf_forest(ch)
        },
    decreases s.len(), 2int,
{
    if s.len() > 0 && parse_items(s) is Some {
        let j = first_top_comma(s, 0);
        lemma_first_top_comma_props(s, 0);
        if j == s.len() {
            lemma_trim_len(s);
            lemma_parse_item_wf(trim_spec(s));
            let n = parse_item(trim_spec(s))->0;
            assert(wf_forest(Seq::<NodeV>::empty()));
            assert(seq![n].drop_last() =~= Seq::<NodeV>::empty());
        } else {
            lemma_trim_len(s.take(j));
            lemma_parse_item_wf(trim_spec(s.take(j)));
            lemma_parse_items_wf(s.skip(j + 1));
            let n = parse_item(trim_spec(s.take(j)))->0;
            let rest = parse_items(s.skip(j + 1))->0;
            lemma_wf_forest_cons(n, rest);
        }
    }
}

/// Extending a prefix by one character adds that character's delta.
pub proof fn lemma_depth_sum_push(t: Seq<char>, c: char)
    ensures
        depth_sum(t.push(c)) == depth_sum(t) + depth_delta(c),
{
    assert(t.push(c) =~= t + seq![c]);
    lemma_depth_sum_concat(t, seq![c]);
    assert(depth_sum(seq![c]) == depth_delta(c)) by {
        assert(depth_sum(Seq::<char>::empty()) == 0);
        assert(seq![c].skip(1) =~= Seq::<char>::empty());
    }
}

/// A well-formed node in front of a well-formed forest.
pub proof fn lemma_wf_forest_cons(n: NodeV, rest: Seq<NodeV>)
    requires
        wf_node(n),
        wf_forest(rest),
    ensures
        wf_forest(seq![n] + rest),
    decreases rest.len(),
{
    if rest.len() == 0 {
        assert((seq![n] + rest) =~= seq![n]);
        assert(wf_forest(Seq::<NodeV>::empty()));
        assert(seq![n].drop_last() =~= Seq::<NodeV>::empty());
    } else {
        assert((seq![n] + rest).drop_last() =~= seq![n] + rest.drop_last());
        assert((seq![n] + rest).last() == rest.last());
        lemma_wf_forest_cons(n, rest.drop_last());
    }
}

/// Checks one item and builds its node: the first matching class of
/// Number, String, Pointer wins; anything else must parse as a list.
pub fn check_oneitem(s: &str) -> (r: Option<Node>)
    ensures
        r is Some <==> parse_item(s@) is Some,
        r is Some ==> node_view(r->0) == parse_item(s@)->0,
    decreases s@.len(), 1int,
{
    if check_numeric(s) {
        let node = Node { value: String::from_str(s), kind: NodeKind::Number, children: Vec::new() };
        proof {
            assert(node.children@ =~= Seq::<Node>::empty());
            assert(node_view(node) =~= parse_item(s@)->0);
        }
        Some(node)
    } else if check_string(s) {
        let node = Node {
            value: String::from_str(s),
            kind: NodeKind::ListString,
            children: Vec::new(),
        };
        proof {
            assert(node.children@ =~= Seq::<Node>::empty());
            assert(node_view(node) =~= parse_item(s@)->0);
        }
        Some(node)
    } else if check_pointer(s) {
        let n = s.unicode_len();
        let rest = s.substring_char(1, n);
        let node = Node { value: String::from_str(rest), kind: NodeKind::Pointer, children: Vec::new() };
        proof {
            assert(rest@ =~= s@.skip(1));
            assert(node.children@ =~= Seq::<Node>::empty());
            assert(node_view(node) =~= parse_item(s@)->0);
        }
        Some(node)
    } else {
        check_data(s)
    }
}

/// Checks a comma-separated item list, splitting at top-level commas
/// (commas inside braces do not split), and builds the children.
pub fn check_items(s: &str) -> (r: Option<Vec<Node>>)
    ensures
        r is Some <==> parse_items(s@) is Some,
        r is Some ==> forest_view(r->0@) == parse_items(s@)->0,
    decreases s@.len(), 2int,
{
    let n = s.unicode_len();
    if n == 0 {
        return None;
    }
    let mut j: usize = 0;
    let mut opens: usize = 0;
    let mut closes: usize = 0;
    loop
        invariant
            0 <= j <= n,
            n == s@.len(),
            opens <= j,
            closes <= j,
            opens as int - closes as int == depth_sum(s@.take(j as int)),
            forall|i: int| 0 <= i < j ==> !is_top_comma(s@, 0, i),
        ensures
            0 <= j <= n,
            n == s@.len(),
            j < n ==> is_top_comma(s@, 0, j as int),
            forall|i: int| 0 <= i < j ==> !is_top_comma(s@, 0, i),
        decreases n - j,
    {
        if j >= n {
            break ;
        }
        let c = s.get_char(j);
        if opens == closes && c == ',' {
            proof {
                assert(s@.take(j as int).len() == j);
            }
            break ;
        }
        proof {
            assert(s@.take(j + 1) =~= s@.take(j as int).push(s@[j as int]));
            lemma_depth_sum_push(s@.take(j as int), s@[j as int]);
        }
        if c == '{' {
            opens = opens + 1;
        } else if c == '}' {
            closes = closes + 1;
        }
        j = j + 1;
    }
    proof {
        lemma_first_top_comma_props(s@, 0);
        if j < n {
            assert(s@.take(j as int).len() == j);
            assert(is_top_comma(s@, 0, j as int));
        }
        assert(first_top_comma(s@, 0) == j);
    }
    if j == n {
        let seg = trim_str(s);
        if seg.as_str().unicode_len() == 0 {
            return None;
        }
        proof {
            lemma_trim_len(s@);
        }
        match check_oneitem(seg.as_str()) {
            None => None,
            Some(node) => {
                let mut out: Vec<Node> = Vec::new();
                out.push(node);
                proof {
                    assert(out@ =~= seq![node]);
                    assert(forest_view(Seq::<Node>::empty()) =~= Seq::<NodeV>::empty());
                    assert(seq![node].drop_last() =~= Seq::<Node>::empty());
                    assert(forest_view(out@) =~= parse_items(s@)->0);
                }
                Some(out)
            },
        }
    } else {
        let left_raw = s.substring_char(0, j);
        proof {
            assert(left_raw@ =~= s@.take(j as int));
        }
        let left = trim_str(left_raw);
        if left.as_str().unicode_len() == 0 {
            return None;
        }
        proof {
            lemma_trim_len(s@.take(j as int));
        }
        match check_oneitem(left.as_str()) {
            None => None,
            Some(node) => {
                let rest_raw = s.substring_char(j + 1, n);
                proof {
                    assert(rest_raw@ =~= s@.skip(j + 1));
                }
                match check_items(rest_raw) {
                    None => None,
                    Some(mut rest_vec) => {
                        let ghost rest_ghost = rest_vec@;
                        let mut out: Vec<Node> = Vec::new();
                        out.push(node);
                        out.append(&mut rest_vec);
                        proof {
                            assert(out@ =~= seq![node] + rest_ghost);
                            crate::node::lemma_forest_view_concat(seq![node], rest_ghost);
                            assert(forest_view(Seq::<Node>::empty()) =~= Seq::<NodeV>::empty());
                            assert(seq![node].drop_last() =~= Seq::<Node>::empty());
                            assert(forest_view(seq![node]) =~= seq![node_view(node)]);
                            assert(forest_view(out@) =~= parse_items(s@)->0);
                        }
                        Some(out)
                    },
                }
            },
        }
    }
}

/// Checks one whole list line and builds its node: braces, a String
/// name left of the first `:`, and a non-empty item list right of it.
pub fn check_data(s: &str) -> (r: Option<Node>)
    ensures
        r is Some <==> parse_list(s@) is Some,
        r is Some ==> node_view(r->0) == parse_list(s@)->0,
    decreases s@.len(), 0int,
{
    let n = s.unicode_len();
    if n < 5 {
        return None;
    }
    if s.get_char(0) != '{' {
        return None;
    }
    if s.get_char(n - 1) != '}' {
        return None;
    }
    let mut k: usize = 0;
    while k < n && s.get_char(k) != ':'
        invariant
            0 <= k <= n,
            n == s@.len(),
            forall|i: int| 0 <= i < k ==> s@[i] != ':',
        decreases n - k,
    {
        k = k + 1;
    }
    proof {
        lemma_first_colon_props(s@);
        assert(first_colon(s@) == k);
    }
    if k > n - 2 {
        return None;
    }
    let name_raw = s.substring_char(1, k);
    proof {
        assert(name_raw@ =~= s@.subrange(1, k as int));
    }
    let name = trim_str(name_raw);
    if !check_string(name.as_str()) {
        return None;
    }
    let items_raw = s.substring_char(k + 1, n - 1);
    proof {
        assert(items_raw@ =~= s@.subrange(k + 1, n - 1));
        lemma_trim_len(items_raw@);
    }
    let items_txt = trim_str(items_raw);
    match check_items(items_txt.as_str()) {
        None => None,
        Some(children) => {
            let node = Node { value: name, kind: NodeKind::List, children };
            proof {
                assert(node_view(node) =~= parse_list(s@)->0);
            }
            Some(node)
        },
    }
}

} // verus!
