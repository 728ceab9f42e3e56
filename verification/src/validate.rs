//! Input validator: drives the parser over the data section, finds the
//! `.` terminator, parses the query section, and yields a forest, a
//! query list and a single validity flag.

use vstd::prelude::*;

use crate::chars::is_space_char;
use crate::chars::trim_spec;
use crate::chars::trim_str;
use crate::lexer::check_numeric;
use crate::lexer::check_string;
use crate::lexer::is_number_tok;
use crate::lexer::is_string_tok;
use crate::node::forest_view;
use crate::node::wf_forest;
use crate::node::Node;
use crate::node::NodeV;
use crate::parser::check_data;
use crate::parser::lemma_parse_list_wf;
use crate::parser::lemma_wf_forest_cons;
use crate::parser::parse_list;
use crate::strutil::str_eq;

verus! {

/// A validated query, in normalized form.
pub enum Query {
    /// Sum of every Number leaf.
    Sum,
    /// Duplicate List names.
    NameCheck,
    /// Dangling pointers.
    Ptrs,
    /// Occurrences of the token, with paths.
    Search(String),
}

/// Mathematical model of a query.
pub enum QueryV {
    Sum,
    NameCheck,
    Ptrs,
    Search(Seq<char>),
}

impl View for Query {
    type V = QueryV;

    open spec fn view(&self) -> QueryV {
        match self {
            Query::Sum => QueryV::Sum,
            Query::NameCheck => QueryV::NameCheck,
            Query::Ptrs => QueryV::Ptrs,
            Query::Search(s) => QueryV::Search(s@),
        }
    }
}

impl DeepView for Query {
    type V = QueryV;

    open spec fn deep_view(&self) -> QueryV {
        self.view()
    }
}

/// Index of the first whitespace character, or `s.len()` if none.
pub open spec fn first_space(s: Seq<char>) -> int
    decreases s.len(),
{
    if s.len() == 0 {
        0
    } else if is_space_char(s[0]) {
        0
    } else {
        1 + first_space(s.skip(1))
    }
}

pub proof fn lemma_first_space_props(s: Seq<char>)
    ensures
        0 <= first_space(s) <= s.len(),
        first_space(s) < s.len() ==> is_space_char(s[first_space(s)]),
        forall|i: int| 0 <= i < first_space(s) ==> !is_space_char(s[i]),
    decreases s.len(),
{
    if s.len() > 0 && !is_space_char(s[0]) {
        lemma_first_space_props(s.skip(1));
        assert(forall|i: int| 1 <= i < first_space(s) ==> s[i] == s.skip(1)[i - 1]);
    }
}

/// The whitespace-separated tokens of `s`, empties dropped.
pub open spec fn ws_tokens(s: Seq<char>) -> Seq<Seq<char>>
    decreases s.len(),
    via ws_tokens_decreases
{
    if s.len() == 0 {
        Seq::empty()
    } else if is_space_char(s[0]) {
        ws_tokens(s.skip(1))
    } else {
        seq![s.take(first_space(s))] + ws_tokens(s.skip(first_space(s)))
    }
}

#[via_fn]
proof fn ws_tokens_decreases(s: Seq<char>) {
    if s.len() > 0 && !is_space_char(s[0]) {
        lemma_first_space_props(s);
    }
}

/// The uppercase and lowercase spellings of the three bare queries, and
/// the two of the search keyword.
pub open spec fn sum_upper() -> Seq<char> {
    seq!['S', 'U', 'M']
}

pub open spec fn sum_lower() -> Seq<char> {
    seq!['s', 'u', 'm']
}

pub open spec fn ptrs_upper() -> Seq<char> {
    seq!['P', 'T', 'R', 'S']
}

pub open spec fn ptrs_lower() -> Seq<char> {
    seq!['p', 't', 'r', 's']
}

pub open spec fn namecheck_upper() -> Seq<char> {
    seq!['N', 'A', 'M', 'E', 'C', 'H', 'E', 'C', 'K']
}

pub open spec fn namecheck_lower() -> Seq<char> {
    seq!['n', 'a', 'm', 'e', 'c', 'h', 'e', 'c', 'k']
}

pub open spec fn search_upper() -> Seq<char> {
    seq!['S', 'E', 'A', 'R', 'C', 'H']
}

pub open spec fn search_lower() -> Seq<char> {
    seq!['s', 'e', 'a', 'r', 'c', 'h']
}

/// Parses one trimmed query line: one of the six bare spellings, or a
/// two-token search line whose keyword is `search`/`SEARCH` and whose
/// token is a String or Number.
pub open spec fn parse_query(s: Seq<char>) -> Option<QueryV> {
    if s == sum_upper() || s == sum_lower() {
        Some(QueryV::Sum)
    } else if s == ptrs_upper() || s == ptrs_lower() {
        Some(QueryV::Ptrs)
    } else if s == namecheck_upper() || s == namecheck_lower() {
        Some(QueryV::NameCheck)
    } else {
        let t = ws_tokens(s);
        if t.len() == 2 && (t[0] == search_lower() || t[0] == search_upper()) && (is_string_tok(
            t[1],
        ) || is_number_tok(t[1])) {
            Some(QueryV::Search(t[1]))
        } else {
            None
        }
    }
}

/// Splits a line into its whitespace-separated tokens.
fn split_tokens(s: &str) -> (r: Vec<String>)
    ensures
        r.deep_view() == ws_tokens(s@),
{
    let n = s.unicode_len();
    let mut out: Vec<String> = Vec::new();
    let mut i: usize = 0;
    proof {
        assert(s@.skip(0) =~= s@);
        assert(out.deep_view() =~= Seq::<Seq<char>>::empty());
    }
    while i < n
        invariant
            0 <= i <= n,
            n == s@.len(),
            ws_tokens(s@) == out.deep_view() + ws_tokens(s@.skip(i as int)),
        decreases n - i,
    {
        let c = s.get_char(i);
        let ghost suf = s@.skip(i as int);
        if crate::chars::exec_is_space(c) {
            proof {
                assert(suf.skip(1) =~= s@.skip(i + 1));
            }
            i = i + 1;
        } else {
            let mut j: usize = i;
            while j < n && !crate::chars::exec_is_space(s.get_char(j))
                invariant
                    i <= j <= n,
                    n == s@.len(),
                    forall|k: int| i <= k < j ==> !is_space_char(s@[k]),
                decreases n - j,
            {
                j = j + 1;
            }
            proof {
                lemma_first_space_props(suf);
                assert(forall|k: int|
                    0 <= k < j - i ==> suf[k] == s@[i + k] && !is_space_char(suf[k]));
                if j < n {
                    assert(suf[j - i] == s@[j as int]);
                }
                assert(first_space(suf) == j - i);
            }
            let tok = s.substring_char(i, j);
            let ghost before = out.deep_view();
            out.push(String::from_str(tok));
            proof {
                assert(tok@ =~= suf.take(j - i));
                assert(out.deep_view() =~= before.push(suf.take(j - i)));
                assert(before.push(suf.take(j - i)) =~= before + seq![suf.take(j - i)]);
                assert(suf.skip(j - i) =~= s@.skip(j as int));
                assert(ws_tokens(suf) == seq![suf.take(j - i)] + ws_tokens(s@.skip(j as int)));
            }
            i = j;
        }
    }
    proof {
        assert(s@.skip(n as int) =~= Seq::<char>::empty());
        assert(ws_tokens(Seq::<char>::empty()) =~= Seq::<Seq<char>>::empty());
        assert(out.deep_view() + Seq::<Seq<char>>::empty() =~= out.deep_view());
    }
    out
}

/// Checks one trimmed query line and builds the normalized query.
pub fn check_query(s: &str) -> (r: Option<Query>)
    ensures
        r is Some <==> parse_query(s@) is Some,
        r is Some ==> r->0@ == parse_query(s@)->0,
{
    proof {
        reveal_strlit("SUM");
        reveal_strlit("sum");
        reveal_strlit("PTRS");
        reveal_strlit("ptrs");
        reveal_strlit("NAMECHECK");
        reveal_strlit("namecheck");
        reveal_strlit("search");
        reveal_strlit("SEARCH");
        assert("SUM"@ =~= sum_upper());
        assert("sum"@ =~= sum_lower());
        assert("PTRS"@ =~= ptrs_upper());
        assert("ptrs"@ =~= ptrs_lower());
        assert("NAMECHECK"@ =~= namecheck_upper());
        assert("namecheck"@ =~= namecheck_lower());
        assert("search"@ =~= search_lower());
        assert("SEARCH"@ =~= search_upper());
    }
    if str_eq(s, "SUM") || str_eq(s, "sum") {
        Some(Query::Sum)
    } else if str_eq(s, "PTRS") || str_eq(s, "ptrs") {
        Some(Query::Ptrs)
    } else if str_eq(s, "NAMECHECK") || str_eq(s, "namecheck") {
        Some(Query::NameCheck)
    } else {
        let toks = split_tokens(s);
        if toks.len() != 2 {
            return None;
        }
        let kw_ok = str_eq(toks[0].as_str(), "search") || str_eq(toks[0].as_str(), "SEARCH");
        if !kw_ok {
            return None;
        }
        let second = &toks[1];
        if check_string(second.as_str()) || check_numeric(second.as_str()) {
            proof {
                assert(toks.deep_view()[1] == second@);
            }
            Some(Query::Search(second.clone()))
        } else {
            None
        }
    }
}

/// The section terminator and the final line.
pub open spec fn dot_str() -> Seq<char> {
    seq!['.']
}

pub open spec fn quit_str() -> Seq<char> {
    seq!['Q', 'U', 'I', 'T']
}

/// Parses data lines up to and including the `.` terminator; yields the
/// forest and the remaining lines, or nothing if a line fails or the
/// terminator never comes.
pub open spec fn parse_data_lines(lines: Seq<Seq<char>>) -> Option<(Seq<NodeV>, Seq<Seq<char>>)>
    decreases lines.len(),
{
    if lines.len() == 0 {
        None
    } else if trim_spec(lines[0]) == dot_str() {
        Some((Seq::empty(), lines.skip(1)))
    } else {
        match parse_list(trim_spec(lines[0])) {
            None => None,
            Some(n) => match parse_data_lines(lines.skip(1)) {
                None => None,
                Some(pr) => Some((seq![n] + pr.0, pr.1)),
            },
        }
    }
}

/// Parses every remaining line as a query.
pub open spec fn parse_query_lines(lines: Seq<Seq<char>>) -> Option<Seq<QueryV>>
    decreases lines.len(),
{
    if lines.len() == 0 {
        Some(Seq::empty())
    } else {
        match parse_query(trim_spec(lines[0])) {
            None => None,
            Some(q) => match parse_query_lines(lines.skip(1)) {
                None => None,
                Some(qs) => Some(seq![q] + qs),
            },
        }
    }
}

/// The whole program: at least two lines, `QUIT` last, a data section
/// closed by `.`, then queries. Nothing, if any part fails.
pub open spec fn spec_validate(lines: Seq<Seq<char>>) -> Option<(Seq<NodeV>, Seq<QueryV>)> {
    if lines.len() < 2 {
        None
    } else if trim_spec(lines.last()) != quit_str() {
        None
    } else {
        match parse_data_lines(lines.drop_last()) {
            None => None,
            Some(pr) => match parse_query_lines(pr.1) {
                None => None,
                Some(qs) => Some((pr.0, qs)),
            },
        }
    }
}

/// A validated forest is well-formed.
pub proof fn lemma_parse_data_lines_wf(lines: Seq<Seq<char>>)
    ensures
        parse_data_lines(lines) is Some ==> wf_forest((parse_data_lines(lines)->0).0),
    decreases lines.len(),
{
    if lines.len() > 0 && parse_data_lines(lines) is Some {
        if trim_spec(lines[0]) == dot_str() {
            assert(wf_forest(Seq::<NodeV>::empty()));
        } else {
            lemma_parse_list_wf(trim_spec(lines[0]));
            lemma_parse_data_lines_wf(lines.skip(1));
            let n = parse_list(trim_spec(lines[0]))->0;
            let rest = (parse_data_lines(lines.skip(1))->0).0;
            lemma_wf_forest_cons(n, rest);
        }
    }
}

/// Builds the forest and query list, and says whether the whole input
/// is valid; when it is not, the forest and query list are empty.
pub fn validate_input(input: &Vec<String>) -> (r: (Vec<Node>, Vec<Query>, bool))
    ensures
        r.2 == (spec_validate(input.deep_view()) is Some),
        r.2 ==> forest_view(r.0@) == (spec_validate(input.deep_view())->0).0,
        r.2 ==> r.1.deep_view() == (spec_validate(input.deep_view())->0).1,
{
    let ghost lines = input.deep_view();
    let n = input.len();
    proof {
        assert(lines.len() == n);
    }
    if n < 2 {
        return (Vec::new(), Vec::new(), false);
    }
    let last_trim = trim_str(input[n - 1].as_str());
    proof {
        reveal_strlit("QUIT");
        assert("QUIT"@ =~= quit_str());
        assert(lines.last() == lines[n - 1]);
    }
    if !str_eq(last_trim.as_str(), "QUIT") {
        return (Vec::new(), Vec::new(), false);
    }
    let ghost body = lines.drop_last();
    let mut datatree: Vec<Node> = Vec::new();
    let mut i: usize = 0;
    let mut found_dot = false;
    proof {
        assert(body.skip(0) =~= body);
        assert(forest_view(datatree@) =~= Seq::<NodeV>::empty());
        assert(body.len() == n - 1);
    }
    loop
        invariant_except_break
            !found_dot,
            parse_data_lines(body) == (match parse_data_lines(body.skip(i as int)) {
                None => None::<(Seq<NodeV>, Seq<Seq<char>>)>,
                Some(pr) => Some((forest_view(datatree@) + pr.0, pr.1)),
            }),
        invariant
            0 <= i <= n - 1,
            n == input.len(),
            n >= 2,
            lines == input.deep_view(),
            body == lines.drop_last(),
            body.len() == n - 1,
        ensures
            n == input.len(),
            lines == input.deep_view(),
            if found_dot {
                0 <= i <= n - 1 && parse_data_lines(body) == Some(
                    (forest_view(datatree@), body.skip(i as int)),
                )
            } else {
                parse_data_lines(body) is None
            },
        decreases n - 1 - i,
    {
        if i >= n - 1 {
            proof {
                assert(body.skip(i as int) =~= Seq::<Seq<char>>::empty());
            }
            break ;
        }
        let line = trim_str(input[i].as_str());
        let ghost suf = body.skip(i as int);
        proof {
            reveal_strlit(".");
            assert("."@ =~= dot_str());
            assert(suf[0] == lines[i as int]);
            assert(line@ == trim_spec(suf[0]));
            assert(suf.skip(1) =~= body.skip(i + 1));
        }
        if str_eq(line.as_str(), ".") {
            found_dot = true;
            i = i + 1;
            proof {
                assert(parse_data_lines(suf) == Some(
                    (Seq::<NodeV>::empty(), body.skip(i as int)),
                ));
                assert(forest_view(datatree@) + Seq::<NodeV>::empty() =~= forest_view(datatree@));
            }
            break ;
        }
        match check_data(line.as_str()) {
            None => {
                return (Vec::new(), Vec::new(), false);
            },
            Some(node) => {
                let ghost before = datatree@;
                let ghost nv = crate::node::node_view(node);
                datatree.push(node);
                proof {
                    crate::node::lemma_forest_view_push(before, node);
                    assert(datatree@ == before.push(node));
                    assert(forest_view(datatree@) =~= forest_view(before) + seq![nv]);
                    if parse_data_lines(body.skip(i + 1)) is Some {
                        let pr = parse_data_lines(body.skip(i + 1))->0;
                        assert((forest_view(before) + (seq![nv] + pr.0)) =~= (forest_view(before)
                            + seq![nv]) + pr.0);
                    }
                }
                i = i + 1;
            },
        }
    }
    if !found_dot {
        return (Vec::new(), Vec::new(), false);
    }
    let ghost rest = body.skip(i as int);
    let mut queries: Vec<Query> = Vec::new();
    let mut j: usize = i;
    proof {
        assert(queries.deep_view() =~= Seq::<QueryV>::empty());
        assert(body.skip(j as int) =~= rest);
    }
    while j < n - 1
        invariant
            i <= j <= n - 1,
            n == input.len(),
            n >= 2,
            lines == input.deep_view(),
            body == lines.drop_last(),
            body.len() == n - 1,
            rest == body.skip(i as int),
            parse_data_lines(body) == Some((forest_view(datatree@), rest)),
            parse_query_lines(rest) == (match parse_query_lines(body.skip(j as int)) {
                None => None::<Seq<QueryV>>,
                Some(qs) => Some(queries.deep_view() + qs),
            }),
        decreases n - 1 - j,
    {
        let line = trim_str(input[j].as_str());
        let ghost suf = body.skip(j as int);
        proof {
            assert(suf[0] == lines[j as int]);
            assert(line@ == trim_spec(suf[0]));
            assert(suf.skip(1) =~= body.skip(j + 1));
        }
        match check_query(line.as_str()) {
            None => {
                proof {
                    assert(parse_query_lines(rest) is None);
                    assert(spec_validate(lines) is None);
                }
                return (Vec::new(), Vec::new(), false);
            },
            Some(q) => {
                let ghost before = queries.deep_view();
                let ghost qv = q@;
                queries.push(q);
                proof {
                    assert(queries.deep_view() =~= before.push(qv));
                    if parse_query_lines(body.skip(j + 1)) is Some {
                        let qs = parse_query_lines(body.skip(j + 1))->0;
                        assert(before + (seq![qv] + qs) =~= before.push(qv) + qs);
                    }
                }
                j = j + 1;
            },
        }
    }
    proof {
        assert(body.skip(n - 1) =~= Seq::<Seq<char>>::empty());
        assert(parse_query_lines(Seq::<Seq<char>>::empty()) == Some(Seq::<QueryV>::empty()));
        assert(queries.deep_view() + Seq::<QueryV>::empty() =~= queries.deep_view());
        assert(parse_query_lines(rest) == Some(queries.deep_view()));
    }
    (datatree, queries, true)
}

} // verus!
