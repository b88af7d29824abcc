use iascar::counting::count_on_ccg_io;
use iascar::transpiler::{read_cnf_mappings, transpile};

// p XOR q as an sd-DNNF over the variables p=1, q=2.
const XOR_NNF: &str = "nnf 7 8 2\n\
L 1\n\
L -2\n\
A 2 0 1\n\
L -1\n\
L 2\n\
A 2 3 4\n\
O 1 2 2 5\n";

fn mapping(pairs: &[(&str, i32)]) -> Vec<(Vec<u8>, i32)> {
    pairs.iter().map(|(n, i)| (n.as_bytes().to_vec(), *i)).collect()
}

fn names(v: &[&str]) -> Vec<Vec<u8>> {
    v.iter().map(|s| s.as_bytes().to_vec()).collect()
}

#[test]
fn transpile_keeps_known_leaves() {
    let t = transpile(XOR_NNF.as_bytes(), &mapping(&[("p", 1), ("q", 2)]), &names(&["p", "q"])).expect("transpiles");
    assert_eq!(t.nodes.len(), 7);
    assert_eq!(t.n_edges, 6);
    assert_eq!(t.n_new_vars, 2);
    // the root's precomputed value is the model count under no assumptions
    assert_eq!(t.vals[t.vals.len() - 1].to_u64(), Some(2));
}

#[test]
fn transpile_prunes_unknown_atoms() {
    // only p is known: the q-leaves fall away, both Ands pass through, and
    // the root keeps the two surviving literal leaves
    let t = transpile(XOR_NNF.as_bytes(), &mapping(&[("p", 1)]), &names(&["p"])).expect("transpiles");
    assert_eq!(t.nodes.len(), 3);
    assert_eq!(t.n_edges, 2);
    assert_eq!(t.n_new_vars, 1);
    assert_eq!(t.vals[2].to_u64(), Some(2));
}

#[test]
fn transpile_rejects_fully_unknown_input() {
    assert!(transpile(XOR_NNF.as_bytes(), &mapping(&[]), &names(&[])).is_err());
}

#[test]
fn written_graph_counts_like_the_transpilation() {
    let maps = mapping(&[("p", 1), ("q", 2)]);
    let t = transpile(XOR_NNF.as_bytes(), &maps, &names(&["p", "q"])).expect("transpiles");
    let stats = format!("ccg {} {} {} 0.301", t.nodes.len(), t.n_edges, t.n_new_vars);
    let bytes = iascar::transpiler::write(&stats.as_bytes().to_vec(), &maps, &t, false)
        .expect("serializes");
    let text = String::from_utf8(bytes.clone()).expect("ascii");
    assert_eq!(
        text,
        "ccg 7 6 2 0.301\nc p 1\nc q 2\n1 1 \n-2 1 \n* 2 0 1\n-1 1 \n2 1 \n* 2 3 4\n+ 2 2 5\n"
    );
    // reading the written text back yields the same counts
    assert_eq!(count_on_ccg_io(&bytes, &vec![]).unwrap().to_u64(), Some(2));
    assert_eq!(count_on_ccg_io(&bytes, &vec![1]).unwrap().to_u64(), Some(1));
    assert_eq!(count_on_ccg_io(&bytes, &vec![1, 2]).unwrap().to_u64(), Some(0));
}

#[test]
fn written_graph_with_values() {
    let maps = mapping(&[("p", 1), ("q", 2)]);
    let t = transpile(XOR_NNF.as_bytes(), &maps, &names(&["p", "q"])).expect("transpiles");
    let stats = b"ccg 7 6 2 0.301".to_vec();
    let bytes = iascar::transpiler::write(&stats, &maps, &t, true).expect("serializes");
    let text = String::from_utf8(bytes).expect("ascii");
    // each gate line now carries its precomputed value, which a reader
    // tolerates as a trailing token
    assert_eq!(
        text,
        "ccg 7 6 2 0.301\nc p 1\nc q 2\n1 1 \n-2 1 \n* 2 0 1 1\n-1 1 \n2 1 \n* 2 3 4 1\n+ 2 2 5 2\n"
    );
}

#[test]
fn cnf_mappings_read_id_then_name() {
    let cnf = b"p cnf 2 2\nc 1 p\nc 2 q\n1 2 0\n-1 -2 0\n";
    let m = read_cnf_mappings(cnf).expect("cnf mapping parses");
    assert_eq!(m.len(), 2);
    assert_eq!(m[0], (b"p".to_vec(), 1));
    assert_eq!(m[1], (b"q".to_vec(), 2));
}

#[test]
fn cnf_mappings_reject_bad_c_line() {
    assert!(read_cnf_mappings(b"p cnf 1 1\nc x p\n").is_err());
    assert!(read_cnf_mappings(b"p cnf 1 1\nc 1\n").is_err());
}

#[test]
fn unsupported_atom_gets_zero_leaf() {
    // q is mapped but the grounder does not report it: its positive leaf
    // counts 0, its negative leaf 1, so only the model with p and not q stays
    let maps = mapping(&[("p", 1), ("q", 2)]);
    let t = transpile(XOR_NNF.as_bytes(), &maps, &names(&["p"])).expect("transpiles");
    assert_eq!(t.nodes.len(), 7);
    assert_eq!(t.vals[t.vals.len() - 1].to_u64(), Some(1));
    let counts = iascar::ccg::count_on_ccg(&t.nodes, &vec![]);
    assert_eq!(counts.to_u64(), Some(1));
    let under_p = iascar::ccg::count_on_ccg(&t.nodes, &vec![1]);
    assert_eq!(under_p.to_u64(), Some(1));
    let under_not_p = iascar::ccg::count_on_ccg(&t.nodes, &vec![-1]);
    assert_eq!(under_not_p.to_u64(), Some(0));
}

#[test]
fn transpile_preserves_counts_under_assumptions() {
    // with every atom supported the output counts exactly like the input
    let maps = mapping(&[("p", 1), ("q", 2)]);
    let t = transpile(XOR_NNF.as_bytes(), &maps, &names(&["p", "q"])).expect("transpiles");
    for assumed in [vec![], vec![1], vec![-1], vec![1, -2], vec![1, 2]] {
        let on_output = iascar::ccg::count_on_ccg(&t.nodes, &assumed);
        let on_input = iascar::counting::count_on_sddnnf_asp(XOR_NNF.as_bytes(), &assumed)
            .expect("input counts");
        assert!(on_output.eq_count(&on_input), "assumptions {assumed:?}");
    }
}
