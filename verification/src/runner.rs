//! Query runner: renders the sum in decimal, dispatches each validated
//! query in order, and runs a whole program from its input lines.

use vstd::prelude::*;

use crate::node::forest_view;
use crate::node::wf_forest;
use crate::node::Node;
use crate::node::NodeV;
use crate::queries::namecheck;
use crate::queries::namecheck_out;
use crate::queries::pointercheck;
use crate::queries::ptrs_out;
use crate::queries::recursive_sum;
use crate::queries::search;
use crate::queries::search_out;
use crate::queries::sum_nodes;
use crate::queries::wrap_i64;
use crate::validate::lemma_parse_data_lines_wf;
use crate::validate::spec_validate;
use crate::validate::validate_input;
use crate::validate::Query;
use crate::validate::QueryV;

verus! {

/// The decimal digits of `n`, most significant first.
pub open spec fn dec_digits(n: nat) -> Seq<char>
    decreases n,
{
    if n < 10 {
        seq![digit_char(n)]
    } else {
        dec_digits(n / 10) + seq![digit_char(n % 10)]
    }
}

/// The character for one decimal digit.
pub open spec fn digit_char(d: nat) -> char {
    (48 + d) as char
}

/// The decimal rendering of an integer, `-` first when negative.
pub open spec fn dec_str(v: int) -> Seq<char> {
    if v < 0 {
        seq!['-'] + dec_digits((-v) as nat)
    } else {
        dec_digits(v as nat)
    }
}

/// One decimal digit as text.
fn digit_str(d: u64) -> (r: &'static str)
    requires
        d < 10,
    ensures
        r@ == seq![digit_char(d as nat)],
{
    proof {
        reveal_strlit("0");
        reveal_strlit("1");
        reveal_strlit("2");
        reveal_strlit("3");
        reveal_strlit("4");
        reveal_strlit("5");
        reveal_strlit("6");
        reveal_strlit("7");
        reveal_strlit("8");
        reveal_strlit("9");
    }
    match d {
        0 => "0",
        1 => "1",
        2 => "2",
        3 => "3",
        4 => "4",
        5 => "5",
        6 => "6",
        7 => "7",
        8 => "8",
        _ => {
            proof {
                assert(d == 9);
            }
            "9"
        },
    }
}

/// Renders an unsigned value in decimal.
fn dec_u64(n: u64) -> (r: String)
    ensures
        r@ == dec_digits(n as nat),
    decreases n,
{
    if n < 10 {
        String::from_str(digit_str(n))
    } else {
        let mut s = dec_u64(n / 10);
        s.append(digit_str(n % 10));
        s
    }
}

/// Renders a signed value in decimal.
pub fn i64_to_string(v: i64) -> (r: String)
    ensures
        r@ == dec_str(v as int),
{
    if v >= 0 {
        dec_u64(v as u64)
    } else {
        let mag: u64 = ((-(v + 1)) as u64) + 1;
        proof {
            assert(mag as int == -(v as int));
        }
        let mut s = String::from_str("-");
        proof {
            reveal_strlit("-");
            assert(s@ =~= seq!['-']);
        }
        let d = dec_u64(mag);
        s.append(d.as_str());
        s
    }
}

/// The output line of one query against the forest.
pub open spec fn query_out(f: Seq<NodeV>, q: QueryV) -> Seq<char> {
    match q {
        QueryV::Sum => dec_str(wrap_i64(sum_nodes(f))),
        QueryV::NameCheck => namecheck_out(f),
        QueryV::Ptrs => ptrs_out(f),
        QueryV::Search(tok) => search_out(f, tok),
    }
}

/// The output lines of a query list, in submission order.
pub open spec fn run_out(f: Seq<NodeV>, qs: Seq<QueryV>) -> Seq<Seq<char>> {
    qs.map_values(|q: QueryV| query_out(f, q))
}

/// Runs each query in order against the immutable forest; one output
/// line per query, in the same order.
pub fn run_queries(data: &Vec<Node>, queries: &Vec<Query>) -> (r: Vec<String>)
    requires
        wf_forest(forest_view(data@)),
    ensures
        r.deep_view() == run_out(forest_view(data@), queries.deep_view()),
{
    let ghost f = forest_view(data@);
    let ghost qv = queries.deep_view();
    let mut out: Vec<String> = Vec::new();
    let mut i: usize = 0;
    proof {
        assert(out.deep_view() =~= run_out(f, qv).take(0));
    }
    while i < queries.len()
        invariant
            0 <= i <= queries.len(),
            f == forest_view(data@),
            wf_forest(f),
            qv == queries.deep_view(),
            qv.len() == queries.len(),
            out.deep_view() == run_out(f, qv).take(i as int),
        decreases queries.len() - i,
    {
        let ghost before = out.deep_view();
        let line = match &queries[i] {
            Query::Sum => {
                let total = recursive_sum(data);
                i64_to_string(total)
            },
            Query::NameCheck => namecheck(data),
            Query::Ptrs => pointercheck(data),
            Query::Search(tok) => search(data, tok.as_str()),
        };
        proof {
            assert(qv[i as int] == queries@[i as int]@);
            assert(line@ == query_out(f, qv[i as int]));
        }
        out.push(line);
        proof {
            assert(out.deep_view() =~= before.push(line@));
            assert(run_out(f, qv).take(i + 1) =~= run_out(f, qv).take(i as int).push(
                run_out(f, qv)[i as int],
            ));
        }
        i = i + 1;
    }
    proof {
        assert(run_out(f, qv).take(qv.len() as int) =~= run_out(f, qv));
    }
    out
}

/// The single line reported for invalid input.
pub open spec fn err_str() -> Seq<char> {
    seq!['E', 'R', 'R']
}

/// What a whole program prints: its query results in order, or the
/// single line `ERR` when the input does not validate.
pub open spec fn program_out(lines: Seq<Seq<char>>) -> Seq<Seq<char>> {
    match spec_validate(lines) {
        None => seq![err_str()],
        Some(pr) => run_out(pr.0, pr.1),
    }
}

/// Validates the input lines and runs the queries; the whole program as
/// one function from input lines to output lines.
pub fn run_program(input: &Vec<String>) -> (r: Vec<String>)
    ensures
        r.deep_view() == program_out(input.deep_view()),
{
    let (datatree, queries, valid) = validate_input(input);
    if valid {
        proof {
            lemma_parse_data_lines_wf(input.deep_view().drop_last());
        }
        run_queries(&datatree, &queries)
    } else {
        let mut out: Vec<String> = Vec::new();
        let e = String::from_str("ERR");
        proof {
            reveal_strlit("ERR");
            assert(e@ =~= err_str());
        }
        out.push(e);
        proof {
            assert(out.deep_view() =~= seq![err_str()]);
        }
        out
    }
}

} // verus!
