use iascar::ccg::CcgNode;
use iascar::counting::{
    anytime_cg_count, anytime_cg_count_with_filtering, count_on_ccg_io, count_on_sddnnf,
    count_on_sddnnf_asp, parse_ucs,
};
use iascar::num::Count;

// p XOR q as an sd-DNNF over the variables p=1, q=2.
const XOR_NNF: &str = "nnf 7 8 2\n\
L 1\n\
L -2\n\
A 2 0 1\n\
L -1\n\
L 2\n\
A 2 3 4\n\
O 1 2 2 5\n";

// A counting graph over a=1, b=2, c=3 whose models are {c} and {a,b,c}.
const TINY_CCG: &str = "ccg 8 8 3 0.301\n\
c a 1\n\
c b 2\n\
c c 3\n\
-1 1\n\
-2 1\n\
3 1\n\
* 3 0 1 2\n\
1 1\n\
2 1\n\
* 3 4 5 2\n\
+ 2 3 6\n";

fn as_u64(c: &Count) -> u64 {
    c.to_u64().expect("count fits u64")
}

fn tiny_nodes() -> Vec<CcgNode> {
    vec![
        CcgNode::Leaf { lit: -1, val: 1 },
        CcgNode::Leaf { lit: -2, val: 1 },
        CcgNode::Leaf { lit: 3, val: 1 },
        CcgNode::And { children: vec![0, 1, 2] },
        CcgNode::Leaf { lit: 1, val: 1 },
        CcgNode::Leaf { lit: 2, val: 1 },
        CcgNode::And { children: vec![4, 5, 2] },
        CcgNode::Or { children: vec![3, 6] },
    ]
}

#[test]
fn xor_counts_on_sddnnf() {
    let nnf = XOR_NNF.as_bytes();
    assert_eq!(as_u64(&count_on_sddnnf(nnf, &vec![]).unwrap()), 2);
    assert_eq!(as_u64(&count_on_sddnnf(nnf, &vec![1, -2]).unwrap()), 1);
    assert_eq!(as_u64(&count_on_sddnnf(nnf, &vec![-1, 2]).unwrap()), 1);
    assert_eq!(as_u64(&count_on_sddnnf(nnf, &vec![1, 2]).unwrap()), 0);
}

#[test]
fn xor_counts_on_sddnnf_asp() {
    let nnf = XOR_NNF.as_bytes();
    assert_eq!(as_u64(&count_on_sddnnf_asp(nnf, &vec![]).unwrap()), 2);
    assert_eq!(as_u64(&count_on_sddnnf_asp(nnf, &vec![1]).unwrap()), 1);
    assert_eq!(as_u64(&count_on_sddnnf_asp(nnf, &vec![1, -1]).unwrap()), 0);
}

#[test]
fn smooth_gap_filling_doubles_unmentioned_vars() {
    // one variable mentioned, two declared: the root count is doubled once
    let nnf = b"nnf 2 1 2\nL 1\nA 1 0\n";
    assert_eq!(as_u64(&count_on_sddnnf(nnf, &vec![]).unwrap()), 2);
    assert_eq!(as_u64(&count_on_sddnnf(nnf, &vec![-1]).unwrap()), 0);
    // the plain sweep does not gap-fill
    assert_eq!(as_u64(&count_on_sddnnf_asp(nnf, &vec![]).unwrap()), 1);
}

#[test]
fn sddnnf_rejects_short_header_or_bad_node() {
    assert!(count_on_sddnnf_asp(b"nnf 1 0\nL 1\n", &vec![]).is_err());
    assert!(count_on_sddnnf_asp(b"nnf 2 1 1\nL 1\nA 1 1\n", &vec![]).is_err());
    assert!(count_on_sddnnf_asp(b"nnf 2 1 1\nL 1\nX 3\n", &vec![]).is_err());
}

#[test]
fn ccg_io_counts_and_skips_c_lines() {
    let text = TINY_CCG.as_bytes();
    assert_eq!(as_u64(&count_on_ccg_io(text, &vec![]).unwrap()), 2);
    assert_eq!(as_u64(&count_on_ccg_io(text, &vec![1]).unwrap()), 1);
    assert_eq!(as_u64(&count_on_ccg_io(text, &vec![-3]).unwrap()), 0);
    assert!(count_on_ccg_io(b"ccg 1 0 0 0.0\n", &vec![]).is_err());
}

#[test]
fn anytime_exact_counts_answer_sets() {
    // the route {a, b} excludes the supported model {a,b,c}: one answer set
    let nodes = tiny_nodes();
    let ucs = vec![vec![1, 2]];
    assert_eq!(as_u64(&anytime_cg_count(&nodes, &ucs, &vec![], 0)), 1);
    assert_eq!(as_u64(&anytime_cg_count(&nodes, &ucs, &vec![3], 0)), 1);
    assert_eq!(as_u64(&anytime_cg_count(&nodes, &ucs, &vec![-3], 0)), 0);
}

#[test]
fn anytime_singletons_match_reference() {
    // the one answer set is {c}: assuming a or b leaves none, assuming c or
    // the negations of a and b leaves exactly it
    let nodes = tiny_nodes();
    let ucs = vec![vec![1, 2]];
    let expected: &[(i32, u64)] = &[(1, 0), (2, 0), (3, 1), (-1, 1), (-2, 1)];
    for (lit, want) in expected {
        assert_eq!(
            as_u64(&anytime_cg_count(&nodes, &ucs, &vec![*lit], 0)),
            *want,
            "assumption {lit}"
        );
    }
    // two contradicting atoms yield zero
    assert_eq!(as_u64(&anytime_cg_count(&nodes, &ucs, &vec![1, -1], 0)), 0);
}

#[test]
fn anytime_early_termination_before_last_tier() {
    // the second route matches nothing, so the second pass changes nothing
    // and the loop stops with the exact count
    let nodes = tiny_nodes();
    let ucs = vec![vec![1, 2], vec![-1, -2, -3]];
    assert_eq!(as_u64(&anytime_cg_count(&nodes, &ucs, &vec![], 0)), 1);
}

#[test]
fn anytime_depth_one_already_exact() {
    // convergence fires at the second tier: depth 1 and depth 0 agree
    let nodes = tiny_nodes();
    let ucs = vec![vec![1, 2], vec![-1, -2, -3]];
    let exact = anytime_cg_count(&nodes, &ucs, &vec![], 0);
    let depth1 = anytime_cg_count(&nodes, &ucs, &vec![], 1);
    assert!(exact.eq_count(&depth1));
    assert_eq!(as_u64(&depth1), 1);
}

#[test]
fn prefilter_neutral_on_final_count() {
    // the route holding the negation of the assumption is dropped by the
    // pre-filter; the exact count stays the same
    let nodes = tiny_nodes();
    let ucs = vec![vec![1, 2], vec![-3, 1]];
    let plain = anytime_cg_count(&nodes, &ucs, &vec![3], 0);
    let filtered = anytime_cg_count_with_filtering(&nodes, &ucs, &vec![3], 0);
    assert!(plain.eq_count(&filtered));
    assert_eq!(as_u64(&filtered), 1);
}

#[test]
fn anytime_no_routes_counts_supported_models() {
    let nodes = tiny_nodes();
    let ucs: Vec<Vec<i32>> = Vec::new();
    assert_eq!(as_u64(&anytime_cg_count(&nodes, &ucs, &vec![], 0)), 2);
}

#[test]
fn parse_ucs_reads_routes_and_depth() {
    let text = b"0\nm 1 2\np -1 -2\nc 7 some_atom\n";
    let (depth, ucs) = parse_ucs(text).expect("ucs text parses");
    assert_eq!(depth, 0);
    assert_eq!(ucs.len(), 2);
    assert_eq!(ucs[0], (false, vec![1, 2]));
    assert_eq!(ucs[1], (true, vec![-1, -2]));
}

#[test]
fn parse_ucs_rejects_bad_lines() {
    assert!(parse_ucs(b"").is_err());
    assert!(parse_ucs(b"x\nm 1\n").is_err());
    assert!(parse_ucs(b"0\nq 1\n").is_err());
    assert!(parse_ucs(b"0\nm 1 y\n").is_err());
}

#[test]
fn big_counts_do_not_overflow() {
    // a chain of doubling Or nodes: the count is 2 to the 100th power
    let mut nodes = vec![CcgNode::Leaf { lit: 5, val: 1 }];
    for i in 0..100usize {
        nodes.push(CcgNode::Or { children: vec![i, i] });
    }
    let c = iascar::ccg::count_on_ccg(&nodes, &vec![]);
    assert_eq!(c.to_u64(), None);
    assert_eq!(
        c.to_decimal(),
        b"1267650600228229401496703205376".to_vec()
    );
}

#[test]
fn count_arithmetic_matches_integers() {
    let a = Count::from_i32(20);
    let b = Count::from_i32(-7);
    assert_eq!(a.plus(&b).to_u64(), Some(13));
    assert_eq!(a.minus(&b).to_u64(), Some(27));
    assert_eq!(a.times(&b).to_decimal(), b"-140".to_vec());
    assert_eq!(a.shift_left(3).to_u64(), Some(160));
    assert!(a.le_count(&a) && b.le_count(&a) && !a.le_count(&b));
    assert!(a.dup().eq_count(&a));
}
