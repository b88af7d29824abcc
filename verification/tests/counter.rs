use iascar::counter::Counter;
use iascar::num::Count;

// A tiny counting graph over atoms a=1, b=2, c=3 whose models are {c} and
// {a,b,c}: an Or of two Ands over the six literal leaves.
const TINY_CCG: &str = "ccg 8 8 3 0.301\n\
c a 1\n\
c b 2\n\
c c 3\n\
-1 1\n\
-2 1\n\
3 1\n\
* 3 0 1 2\n\
1 1\n\
2 1\n\
* 3 4 5 2\n\
+ 2 3 6\n";

fn names(v: &[&str]) -> Vec<Vec<u8>> {
    v.iter().map(|s| s.as_bytes().to_vec()).collect()
}

fn as_u64(c: &Count) -> u64 {
    c.to_u64().expect("count fits u64")
}

#[test]
fn count_tiny() {
    let counter = Counter::new(TINY_CCG.as_bytes()).expect("tiny ccg parses");
    assert_eq!(as_u64(&counter.count(&names(&["a"]))), 1);
    assert_eq!(as_u64(&counter.count(&names(&["~a"]))), 1);
    assert_eq!(counter.facet_count(&names(&["a"])), 0);
    assert_eq!(counter.facet_count(&names(&["~a"])), 0);
}

#[test]
fn count_all() {
    let counter = Counter::new(TINY_CCG.as_bytes()).expect("tiny ccg parses");
    let expected: &[(&str, u64)] = &[
        ("a", 1),
        ("~a", 1),
        ("b", 1),
        ("~b", 1),
        ("c", 2),
        ("~c", 0),
    ];
    for (lit, want) in expected {
        let got = counter.count(&names(&[lit]));
        assert_eq!(as_u64(&got), *want, "count under {lit}");
    }
}

#[test]
fn count_min_max() {
    let counter = Counter::new(TINY_CCG.as_bytes()).expect("tiny ccg parses");
    let lits = names(&["a", "~a", "b", "~b", "c", "~c"]);
    let empty: Vec<Vec<u8>> = Vec::new();
    // the undecided count is 2, so the first literal of count 1 hits the
    // max bound 2 - 1 outright
    assert_eq!(counter.find_max_among(&lits, &empty), Some(b"a".to_vec()));
    // count 1 also hits the min bound outright
    assert_eq!(counter.find_min_among(&lits, &empty), Some(b"a".to_vec()));
    // under ~a only the models without a remain: b is impossible
    let rest = names(&["b", "~b", "c", "~c"]);
    let cond = names(&["~a"]);
    assert_eq!(counter.find_max_among(&rest, &cond), Some(b"b".to_vec()));
}

#[test]
fn count_empty_assumptions_is_total() {
    let counter = Counter::new(TINY_CCG.as_bytes()).expect("tiny ccg parses");
    let empty: Vec<Vec<u8>> = Vec::new();
    assert_eq!(as_u64(&counter.count(&empty)), 2);
}

#[test]
fn count_duplicate_assumptions_ignored() {
    let counter = Counter::new(TINY_CCG.as_bytes()).expect("tiny ccg parses");
    let once = counter.count(&names(&["a"]));
    let twice = counter.count(&names(&["a", "a"]));
    assert!(once.eq_count(&twice));
}

#[test]
fn count_contradiction_is_zero() {
    let counter = Counter::new(TINY_CCG.as_bytes()).expect("tiny ccg parses");
    assert_eq!(as_u64(&counter.count(&names(&["a", "~a"]))), 0);
}

#[test]
fn split_on_variable_sums_to_total() {
    // the analogue of the queens board: for every atom, the counts under it
    // and under its negation add up to the total count
    let counter = Counter::new(TINY_CCG.as_bytes()).expect("tiny ccg parses");
    let empty: Vec<Vec<u8>> = Vec::new();
    let total = as_u64(&counter.count(&empty));
    for atom in ["a", "b", "c"] {
        let pos = as_u64(&counter.count(&names(&[atom])));
        let neg_name = format!("~{atom}");
        let neg = as_u64(&counter.count(&names(&[&neg_name])));
        assert_eq!(pos + neg, total, "split on {atom}");
    }
}

#[test]
fn facet_count_no_assumptions() {
    let counter = Counter::new(TINY_CCG.as_bytes()).expect("tiny ccg parses");
    let empty: Vec<Vec<u8>> = Vec::new();
    // a and b are facets; c is in every model
    assert_eq!(counter.facet_count(&empty), 2);
}

#[test]
fn read_assumption_resolves_names() {
    let counter = Counter::new(TINY_CCG.as_bytes()).expect("tiny ccg parses");
    assert_eq!(counter.read_assumption(&b"a".to_vec()), Some(1));
    assert_eq!(counter.read_assumption(&b"~b".to_vec()), Some(-2));
    assert_eq!(counter.read_assumption(&b"zz".to_vec()), None);
}

#[test]
fn overall_count_token_kept() {
    let counter = Counter::new(TINY_CCG.as_bytes()).expect("tiny ccg parses");
    assert_eq!(counter.overall_count().as_slice(), b"0.301");
}

#[test]
fn new_rejects_bad_header() {
    assert!(Counter::new(b"ccg\n1 1\n").is_err());
    assert!(Counter::new(b"").is_err());
    // the log10 estimate must be shaped like a floating-point decimal
    assert!(Counter::new(b"ccg 1 0 0 x\n1 1\n").is_err());
    assert!(Counter::new(b"ccg 1 0 0 1.2.3\n1 1\n").is_err());
    assert!(Counter::new(b"ccg 1 0 0 3e-1\n1 1\n").is_ok());
}

#[test]
fn new_rejects_bad_node_line() {
    // a gate child may not point at or past its own node
    assert!(Counter::new(b"ccg 2 1 1 0.0\n1 1\n* 1 1\n").is_err());
    // a literal may not be zero
    assert!(Counter::new(b"ccg 1 0 0 0.0\n0 1\n").is_err());
    // a leaf count may not be negative
    assert!(Counter::new(b"ccg 1 0 0 0.0\n1 -2\n").is_err());
}

#[test]
fn new_tolerates_trailing_value_token() {
    // the withvals emission mode appends a value to each gate line
    let text = "ccg 3 2 2 0.301\nc a 1\nc b 2\n1 1\n2 1\n+ 2 0 1 2\n";
    let counter = Counter::new(text.as_bytes()).expect("withvals ccg parses");
    let empty: Vec<Vec<u8>> = Vec::new();
    assert_eq!(as_u64(&counter.count(&empty)), 2);
}
