//! Counting entry points: on counting-graph text, on sd-DNNF text (with and
//! without smooth gap-filling), and the anytime inclusion-exclusion counter
//! over unsupported constraints.

use vstd::prelude::*;

use crate::ccg::{
    ccg_wf, contains_lit, count_on_ccg, eval_ccg, in_lits, lit_set, node_lines_ok, node_matches,
    parse_ccg_nodes, CcgNode,
};
use crate::counter::CounterError;
use crate::num::Count;
use crate::toks::{line_views, parse_i32_tok, parse_usize_tok, spec_i32, spec_tokenize,
    spec_usize, tok_views, tokenize};

verus! {

/// The token lines that remain after dropping every line whose first token
/// starts with a `c`: the header and the mapping lines of a counting-graph
/// file.
pub open spec fn drop_c_lines(tls: Seq<Seq<Seq<u8>>>) -> Seq<Seq<Seq<u8>>>
    decreases tls.len(),
{
    if tls.len() == 0 {
        Seq::empty()
    } else {
        let rest = drop_c_lines(tls.drop_last());
        let l = tls.last();
        if l.len() > 0 && l[0].len() > 0 && l[0][0] == 99 {
            rest
        } else {
            rest.push(l)
        }
    }
}

/// Whether the node sequence `g` is what the node lines `tls` denote.
pub open spec fn nodes_match_lines(tls: Seq<Seq<Seq<u8>>>, g: Seq<CcgNode>) -> bool {
    &&& ccg_wf(g)
    &&& g.len() == tls.len()
    &&& forall|j: int| 0 <= j < g.len() ==> node_matches(tls[j], j, #[trigger] g[j])
}

/// Parses counting-graph text into its node array: lines starting with `c`
/// (the header among them) are ignored, the rest are the nodes.
pub fn parse_ccg_text(text: &[u8]) -> (r: Result<Vec<CcgNode>, CounterError>)
    ensures
        r matches Ok(nodes) ==> nodes_match_lines(drop_c_lines(spec_tokenize(text@)), nodes@),
        r is Err ==> !node_lines_ok(drop_c_lines(spec_tokenize(text@)), 0),
{
    let ghost tls = spec_tokenize(text@);
    let lines = tokenize(text);
    let mut kept: Vec<Vec<Vec<u8>>> = Vec::new();
    let mut i: usize = 0;
    proof {
        assert(drop_c_lines(tls.take(0)) =~= line_views(kept@));
        assert(tls.take(0) =~= Seq::<Seq<Seq<u8>>>::empty());
    }
    while i < lines.len()
        invariant
            tls == spec_tokenize(text@),
            tls == line_views(lines@),
            i <= lines@.len(),
            drop_c_lines(tls.take(i as int)) == line_views(kept@),
        decreases lines@.len() - i,
    {
        proof {
            assert(tls.take(i + 1).drop_last() =~= tls.take(i as int));
            assert(tls.take(i + 1).last() == tls[i as int]);
            assert(tls[i as int] == tok_views(lines@[i as int]@));
        }
        let line = &lines[i];
        let is_c = line.len() > 0 && line[0].len() > 0 && line[0][0] == 99;
        if !is_c {
            let ghost old_kept = line_views(kept@);
            let mut cp: Vec<Vec<u8>> = Vec::new();
            let mut q: usize = 0;
            proof {
                assert(tok_views(cp@) =~= tok_views(lines@[i as int]@).take(0));
            }
            while q < line.len()
                invariant
                    i < lines@.len(),
                    line@ == lines@[i as int]@,
                    q <= lines@[i as int]@.len(),
                    tok_views(cp@) == tok_views(lines@[i as int]@).take(q as int),
                decreases lines@[i as int]@.len() - q,
            {
                let ghost oldcp = tok_views(cp@);
                let piece = crate::counter::copy_bytes(&line[q]);
                proof {
                    assert(piece@ == lines@[i as int]@[q as int]@);
                }
                cp.push(piece);
                proof {
                    assert(tok_views(cp@) =~= oldcp.push(lines@[i as int]@[q as int]@));
                    assert(tok_views(lines@[i as int]@).take(q + 1) =~= tok_views(
                        lines@[i as int]@,
                    ).take(q as int).push(tok_views(lines@[i as int]@)[q as int]));
                }
                q += 1;
            }
            proof {
                assert(tok_views(cp@) =~= tok_views(lines@[i as int]@));
            }
            kept.push(cp);
            proof {
                assert(line_views(kept@) =~= old_kept.push(tls[i as int]));
            }
        }
        i += 1;
    }
    proof {
        assert(tls.take(tls.len() as int) =~= tls);
    }
    let nodes: Vec<CcgNode> = match parse_ccg_nodes(&kept, 0) {
        Some(nodes) => nodes,
        None => {
            return Err(CounterError::ReadingError("could not read nodes.".to_string()));
        },
    };
    proof {
        assert(nodes_match_lines(drop_c_lines(tls), nodes@));
    }
    Ok(nodes)
}

/// Counts on counting-graph text under assumed literals: lines starting with
/// `c` (the header among them) are ignored, the rest are the nodes.
pub fn count_on_ccg_io(text: &[u8], assumptions: &Vec<i32>) -> (r: Result<Count, CounterError>)
    ensures
        r matches Ok(c) ==> exists|g: Seq<CcgNode>|
            #[trigger] nodes_match_lines(drop_c_lines(spec_tokenize(text@)), g) && c@ == eval_ccg(
                g,
                lit_set(assumptions@),
            ) && c@ >= 0,
        r is Err ==> !node_lines_ok(drop_c_lines(spec_tokenize(text@)), 0),
{
    let nodes: Vec<CcgNode> = match parse_ccg_text(text) {
        Ok(nodes) => nodes,
        Err(e) => {
            return Err(e);
        },
    };
    let c = count_on_ccg(&nodes, assumptions);
    Ok(c)
}

/// Which node the tokens of one sd-DNNF line denote, for the node at index
/// `i`: `L <lit>`, `A <k> <children>` or `O <dvar> <k> <children>`. The
/// denoted node is a counting-graph node whose leaves carry count 1.
pub open spec fn nnf_node_matches(toks: Seq<Seq<u8>>, i: int, n: CcgNode) -> bool {
    match n {
        CcgNode::Leaf { lit, val } => {
            &&& toks.len() >= 2
            &&& toks[0] == seq![76u8]
            &&& spec_i32(toks[1]) == Some(lit)
            &&& lit != 0 && lit != i32::MIN
            &&& val == 1
        },
        CcgNode::And { children } => {
            &&& toks.len() >= 2
            &&& toks[0] == seq![65u8]
            &&& nnf_children_match(toks, 1, i, children@)
        },
        CcgNode::Or { children } => {
            &&& toks.len() >= 3
            &&& toks[0] == seq![79u8]
            &&& spec_i32(toks[1]) is Some
            &&& nnf_children_match(toks, 2, i, children@)
        },
    }
}

/// The children part of an sd-DNNF gate line: `toks[from]` is the child
/// count, the children follow, each an index below the node's own index `i`.
pub open spec fn nnf_children_match(toks: Seq<Seq<u8>>, from: int, i: int, cs: Seq<usize>) -> bool {
    &&& toks.len() >= from + 1
    &&& (spec_usize(toks[from]) matches Some(m) && cs.len() == m)
    &&& cs.len() >= 1
    &&& toks.len() >= from + 1 + cs.len()
    &&& forall|k: int|
        0 <= k < cs.len() ==> (spec_usize(toks[from + 1 + k]) == Some(#[trigger] cs[k]) && (
        cs[k] as int) < i)
}

/// Whether the sd-DNNF node lines `tls[1..]` denote a graph, as
/// `nnf_node_matches` has it.
pub open spec fn nnf_lines_ok(tls: Seq<Seq<Seq<u8>>>) -> bool {
    &&& tls.len() >= 2
    &&& forall|j: int|
        1 <= j < tls.len() ==> exists|n: CcgNode| #[trigger] nnf_node_matches(
            #[trigger] tls[j],
            j - 1,
            n,
        )
}

/// Whether `g` is the graph that the sd-DNNF file's node lines denote.
pub open spec fn nnf_matches_lines(tls: Seq<Seq<Seq<u8>>>, g: Seq<CcgNode>) -> bool {
    &&& ccg_wf(g)
    &&& tls.len() >= 2
    &&& g.len() == tls.len() - 1
    &&& forall|j: int| 0 <= j < g.len() ==> nnf_node_matches(tls[1 + j], j, #[trigger] g[j])
}

/// The variable count that the sd-DNNF header `nnf N E V` declares.
pub open spec fn nnf_var_count(tls: Seq<Seq<Seq<u8>>>) -> Option<usize> {
    if tls.len() >= 1 && tls[0].len() >= 4 {
        spec_usize(tls[0][3])
    } else {
        None
    }
}

/// Parses the children `toks[from..from+m]` of an sd-DNNF gate line.
fn parse_nnf_children(toks: &Vec<Vec<u8>>, from: usize, i: usize) -> (r: Option<Vec<usize>>)
    requires
        from < toks@.len(),
    ensures
        r matches Some(cs) ==> nnf_children_match(tok_views(toks@), from as int, i as int, cs@),
        r is None ==> (forall|cs: Seq<usize>|
            !(#[trigger] nnf_children_match(tok_views(toks@), from as int, i as int, cs))),
{
    let ghost tv = tok_views(toks@);
    let ntoks: usize = toks.len();
    let m: usize = match parse_usize_tok(toks[from].as_slice()) {
        Some(m) => m,
        None => {
            return None;
        },
    };
    if m == 0 {
        return None;
    }
    if m > ntoks - from - 1 {
        return None;
    }
    let mut cs: Vec<usize> = Vec::new();
    let mut k: usize = 0;
    while k < m
        invariant
            tv == tok_views(toks@),
            from < toks@.len(),
            spec_usize(tv[from as int]) == Some(m),
            m >= 1,
            from + 1 + m <= ntoks,
            ntoks == toks@.len(),
            k <= m,
            cs@.len() == k,
            forall|q: int|
                0 <= q < k ==> (spec_usize(tv[from + 1 + q]) == Some(#[trigger] cs@[q]) && (
                cs@[q] as int) < i as int),
        decreases m - k,
    {
        match parse_usize_tok(toks[from + 1 + k].as_slice()) {
            Some(c) => {
                if c >= i {
                    assert(forall|cs2: Seq<usize>|
                        nnf_children_match(tv, from as int, i as int, cs2) ==> ((
                        cs2[k as int] as int) < i as int && spec_usize(tv[from + 1 + k]) == Some(
                            cs2[k as int],
                        )));
                    return None;
                }
                cs.push(c);
            },
            None => {
                assert(forall|cs2: Seq<usize>|
                    nnf_children_match(tv, from as int, i as int, cs2) ==> spec_usize(
                        tv[from + 1 + k],
                    ) == Some(cs2[k as int]));
                return None;
            },
        }
        k += 1;
    }
    Some(cs)
}

/// Parses one sd-DNNF node line for the node at index `i`; `None` exactly
/// when no node fits the line.
fn parse_nnf_node(toks: &Vec<Vec<u8>>, i: usize) -> (r: Option<CcgNode>)
    ensures
        r matches Some(n) ==> nnf_node_matches(tok_views(toks@), i as int, n),
        r is None ==> (forall|n: CcgNode| !(#[trigger] nnf_node_matches(
            tok_views(toks@),
            i as int,
            n,
        ))),
{
    let ghost tv = tok_views(toks@);
    proof {
        assert(seq![76u8][0] == 76u8 && seq![65u8][0] == 65u8 && seq![79u8][0] == 79u8);
    }
    if toks.len() < 2 {
        return None;
    }
    let is_l = crate::ccg::tok_is_mark(&toks[0], 76);
    let is_a = crate::ccg::tok_is_mark(&toks[0], 65);
    let is_o = crate::ccg::tok_is_mark(&toks[0], 79);
    if is_l {
        let lit: i32 = match parse_i32_tok(toks[1].as_slice()) {
            Some(v) => v,
            None => {
                return None;
            },
        };
        if lit == 0 || lit == i32::MIN {
            return None;
        }
        Some(CcgNode::Leaf { lit, val: 1 })
    } else if is_a {
        match parse_nnf_children(toks, 1, i) {
            Some(cs) => Some(CcgNode::And { children: cs }),
            None => None,
        }
    } else if is_o {
        if toks.len() < 3 {
            return None;
        }
        let dvar = parse_i32_tok(toks[1].as_slice());
        if dvar.is_none() {
            return None;
        }
        match parse_nnf_children(toks, 2, i) {
            Some(cs) => Some(CcgNode::Or { children: cs }),
            None => None,
        }
    } else {
        None
    }
}

/// Parses sd-DNNF text into a counting graph whose leaves carry count 1.
/// The header's variable count is returned beside the graph.
pub fn parse_nnf(text: &[u8]) -> (r: Result<(Vec<CcgNode>, usize), CounterError>)
    ensures
        r matches Ok(p) ==> {
            &&& nnf_matches_lines(spec_tokenize(text@), p.0@)
            &&& nnf_var_count(spec_tokenize(text@)) == Some(p.1)
        },
        r is Err ==> (!nnf_lines_ok(spec_tokenize(text@)) || nnf_var_count(
            spec_tokenize(text@),
        ) is None),
{
    let ghost tls = spec_tokenize(text@);
    let lines = tokenize(text);
    if lines.len() < 2 {
        return Err(CounterError::ReadingError("could not read nnf header.".to_string()));
    }
    proof {
        assert(tls[0] == tok_views(lines@[0]@));
    }
    if lines[0].len() < 4 {
        return Err(CounterError::ReadingError("could not read nnf header.".to_string()));
    }
    let var_count: usize = match parse_usize_tok(lines[0][3].as_slice()) {
        Some(v) => v,
        None => {
            proof {
                assert(tls[0][3] == lines@[0]@[3]@);
            }
            return Err(CounterError::ReadingError("could not read var count.".to_string()));
        },
    };
    proof {
        assert(tls[0][3] == lines@[0]@[3]@);
    }
    let mut nodes: Vec<CcgNode> = Vec::new();
    let mut j: usize = 1;
    while j < lines.len()
        invariant
            tls == spec_tokenize(text@),
            tls == line_views(lines@),
            lines@.len() >= 2,
            1 <= j <= lines@.len(),
            nodes@.len() == j - 1,
            forall|q: int|
                0 <= q < j - 1 ==> nnf_node_matches(tls[1 + q], q, #[trigger] nodes@[q]),
            forall|q: int| 0 <= q < j - 1 ==> crate::ccg::node_wf(nodes@, q),
        decreases lines@.len() - j,
    {
        let ghost old_nodes = nodes@;
        match parse_nnf_node(&lines[j], j - 1) {
            Some(n) => {
                proof {
                    assert(tok_views(lines@[j as int]@) == tls[j as int]);
                    assert(nnf_node_matches(tls[j as int], j - 1, n));
                }
                nodes.push(n);
                proof {
                    assert(forall|q: int| 0 <= q < j - 1 ==> old_nodes[q] == nodes@[q]);
                    assert(forall|q: int|
                        0 <= q < j - 1 ==> crate::ccg::node_wf(old_nodes, q) ==> crate::ccg::node_wf(
                            nodes@,
                            q,
                        ));
                    assert(crate::ccg::node_wf(nodes@, j - 1));
                }
            },
            None => {
                proof {
                    assert(tok_views(lines@[j as int]@) == tls[j as int]);
                    assert(forall|n: CcgNode| !(#[trigger] nnf_node_matches(
                        tls[j as int],
                        j - 1,
                        n,
                    )));
                    assert(!nnf_lines_ok(tls));
                }
                return Err(CounterError::ReadingError("could not read nnf node.".to_string()));
            },
        }
        j += 1;
    }
    Ok((nodes, var_count))
}

/// Counts supported models on sd-DNNF text under assumed literals: the plain
/// bottom-up sweep with no smooth gap-filling, as answer-set counting uses it.
pub fn count_on_sddnnf_asp(text: &[u8], assumptions: &Vec<i32>) -> (r: Result<
    Count,
    CounterError,
>)
    ensures
        r matches Ok(c) ==> exists|g: Seq<CcgNode>|
            #[trigger] nnf_matches_lines(spec_tokenize(text@), g) && c@ == eval_ccg(
                g,
                lit_set(assumptions@),
            ) && c@ >= 0,
        r is Err ==> (!nnf_lines_ok(spec_tokenize(text@)) || nnf_var_count(
            spec_tokenize(text@),
        ) is None),
{
    let parsed = match parse_nnf(text) {
        Ok(p) => p,
        Err(e) => {
            return Err(e);
        },
    };
    let nodes = parsed.0;
    let c = count_on_ccg(&nodes, assumptions);
    Ok(c)
}

/// The literal lists that a vector of unsupported constraints holds.
pub open spec fn uc_views(v: Seq<Vec<i32>>) -> Seq<Seq<i32>> {
    Seq::new(v.len(), |i: int| v[i]@)
}

/// The k-th inclusion-exclusion tier over the first `n` unsupported
/// constraints: the sum, over every k-element subset of them, of the graph's
/// count under `a` extended with the literals of the chosen constraints.
pub open spec fn tier(nodes: Seq<CcgNode>, ucs: Seq<Seq<i32>>, n: int, k: int, a: Set<int>) -> int
    decreases n,
{
    if k < 0 {
        0
    } else if n <= 0 {
        if k == 0 {
            eval_ccg(nodes, a)
        } else {
            0
        }
    } else {
        tier(nodes, ucs, n - 1, k, a) + tier(
            nodes,
            ucs,
            n - 1,
            k - 1,
            a.union(lit_set(ucs[n - 1])),
        )
    }
}

/// The count after the tiers 1..d have been applied with alternating signs:
/// the truncated inclusion-exclusion value at depth `d`.
pub open spec fn alt_sum(nodes: Seq<CcgNode>, ucs: Seq<Seq<i32>>, n: int, d: int, a: Set<int>) -> int
    decreases d,
{
    if d <= 0 {
        tier(nodes, ucs, n, 0, a)
    } else if d % 2 == 1 {
        alt_sum(nodes, ucs, n, d - 1, a) - tier(nodes, ucs, n, d, a)
    } else {
        alt_sum(nodes, ucs, n, d - 1, a) + tier(nodes, ucs, n, d, a)
    }
}

/// The tier depth a requested alternation depth amounts to, over `n`
/// constraints: 0 asks for the exact count, and depths beyond `n` add
/// nothing.
pub open spec fn eff_depth(depth: int, n: int) -> int {
    if depth == 0 || depth > n {
        n
    } else {
        depth
    }
}

/// Tier 0 is the plain count under the assumptions alone.
pub proof fn lemma_tier_k0(nodes: Seq<CcgNode>, ucs: Seq<Seq<i32>>, n: int, a: Set<int>)
    ensures
        tier(nodes, ucs, n, 0, a) == eval_ccg(nodes, a),
    decreases n,
{
    if n > 0 {
        lemma_tier_k0(nodes, ucs, n - 1, a);
        assert(tier(nodes, ucs, n - 1, -1, a.union(lit_set(ucs[n - 1]))) == 0);
    }
}

/// There is no subset larger than the list: those tiers are empty.
pub proof fn lemma_tier_gt_n(nodes: Seq<CcgNode>, ucs: Seq<Seq<i32>>, n: int, k: int, a: Set<int>)
    requires
        k > n,
        k >= 1,
    ensures
        tier(nodes, ucs, n, k, a) == 0,
    decreases n,
{
    if n > 0 {
        lemma_tier_gt_n(nodes, ucs, n - 1, k, a);
        lemma_tier_gt_n(nodes, ucs, n - 1, k - 1, a.union(lit_set(ucs[n - 1])));
    }
}

/// Every tier of a well-formed graph is non-negative.
pub proof fn lemma_tier_nonneg(nodes: Seq<CcgNode>, ucs: Seq<Seq<i32>>, n: int, k: int, a: Set<int>)
    requires
        forall|j: int| 0 <= j < nodes.len() ==> crate::ccg::node_wf(nodes, j),
    ensures
        tier(nodes, ucs, n, k, a) >= 0,
    decreases n,
{
    if k < 0 {
    } else if n <= 0 {
        if k == 0 {
            crate::ccg::lemma_eval_nonneg(nodes, a, nodes.len() - 1);
        }
    } else {
        lemma_tier_nonneg(nodes, ucs, n - 1, k, a);
        lemma_tier_nonneg(nodes, ucs, n - 1, k - 1, a.union(lit_set(ucs[n - 1])));
    }
}

/// Once the plain count under `a` is zero, every tier over any larger
/// assumption set is zero too.
pub proof fn lemma_tier_zero_of_base(
    nodes: Seq<CcgNode>,
    ucs: Seq<Seq<i32>>,
    n: int,
    k: int,
    a: Set<int>,
    b: Set<int>,
)
    requires
        forall|j: int| 0 <= j < nodes.len() ==> crate::ccg::node_wf(nodes, j),
        eval_ccg(nodes, a) == 0,
        a.subset_of(b),
    ensures
        tier(nodes, ucs, n, k, b) == 0,
    decreases n,
{
    if k < 0 {
    } else if n <= 0 {
        if k == 0 {
            crate::ccg::lemma_eval_antimono(nodes, a, b, nodes.len() - 1);
            crate::ccg::lemma_eval_nonneg(nodes, b, nodes.len() - 1);
        }
    } else {
        lemma_tier_zero_of_base(nodes, ucs, n - 1, k, a, b);
        lemma_tier_zero_of_base(nodes, ucs, n - 1, k - 1, a, b.union(lit_set(ucs[n - 1])));
    }
}

/// A zero tier at size `k` zeroes every tier of size `j >= k`, under any
/// larger assumption set: each larger subset extends a zero-count one.
pub proof fn lemma_tier_zero_mono(
    nodes: Seq<CcgNode>,
    ucs: Seq<Seq<i32>>,
    n: int,
    k: int,
    j: int,
    a: Set<int>,
    b: Set<int>,
)
    requires
        forall|q: int| 0 <= q < nodes.len() ==> crate::ccg::node_wf(nodes, q),
        tier(nodes, ucs, n, k, a) == 0,
        0 <= k <= j,
        a.subset_of(b),
    ensures
        tier(nodes, ucs, n, j, b) == 0,
    decreases n,
{
    if k == 0 {
        lemma_tier_k0(nodes, ucs, n, a);
        lemma_tier_zero_of_base(nodes, ucs, n, j, a, b);
    } else if n <= 0 {
    } else {
        let u = lit_set(ucs[n - 1]);
        lemma_tier_nonneg(nodes, ucs, n - 1, k, a);
        lemma_tier_nonneg(nodes, ucs, n - 1, k - 1, a.union(u));
        assert(tier(nodes, ucs, n - 1, k, a) == 0);
        assert(tier(nodes, ucs, n - 1, k - 1, a.union(u)) == 0);
        lemma_tier_zero_mono(nodes, ucs, n - 1, k, j, a, b);
        assert(a.union(u).subset_of(b.union(u)));
        lemma_tier_zero_mono(nodes, ucs, n - 1, k - 1, j - 1, a.union(u), b.union(u));
    }
}

/// Once one full tier adds nothing, the alternating sum never moves again:
/// the truncation is already the value at any deeper cut.
pub proof fn lemma_alt_stable(
    nodes: Seq<CcgNode>,
    ucs: Seq<Seq<i32>>,
    n: int,
    k: int,
    d: int,
    a: Set<int>,
)
    requires
        forall|q: int| 0 <= q < nodes.len() ==> crate::ccg::node_wf(nodes, q),
        tier(nodes, ucs, n, k, a) == 0,
        1 <= k <= d,
    ensures
        alt_sum(nodes, ucs, n, d, a) == alt_sum(nodes, ucs, n, k - 1, a),
    decreases d,
{
    if d == k {
    } else {
        lemma_tier_zero_mono(nodes, ucs, n, k, d, a, a);
        lemma_alt_stable(nodes, ucs, n, k, d - 1, a);
    }
}

/// Early termination is correct: when the k-th pass leaves the count
/// unchanged, the truncated value already equals the value of the complete
/// inclusion-exclusion over all the constraints.
pub proof fn lemma_early_termination_exact(
    nodes: Seq<CcgNode>,
    ucs: Seq<Seq<i32>>,
    n: int,
    k: int,
    a: Set<int>,
)
    requires
        forall|q: int| 0 <= q < nodes.len() ==> crate::ccg::node_wf(nodes, q),
        tier(nodes, ucs, n, k, a) == 0,
        1 <= k <= n,
    ensures
        alt_sum(nodes, ucs, n, k, a) == alt_sum(nodes, ucs, n, n, a),
    decreases n,
{
    lemma_alt_stable(nodes, ucs, n, k, n, a);
    lemma_alt_stable(nodes, ucs, n, k, k, a);
}

/// When the plain count under the assumptions is zero, every truncation is
/// zero.
pub proof fn lemma_alt_zero_of_base(
    nodes: Seq<CcgNode>,
    ucs: Seq<Seq<i32>>,
    n: int,
    d: int,
    a: Set<int>,
)
    requires
        forall|q: int| 0 <= q < nodes.len() ==> crate::ccg::node_wf(nodes, q),
        eval_ccg(nodes, a) == 0,
        d >= 0,
    ensures
        alt_sum(nodes, ucs, n, d, a) == 0,
    decreases d,
{
    if d == 0 {
        lemma_tier_k0(nodes, ucs, n, a);
    } else {
        lemma_tier_zero_of_base(nodes, ucs, n, d, a, a);
        lemma_alt_zero_of_base(nodes, ucs, n, d - 1, a);
    }
}

/// A verified concatenation of two literal lists.
fn concat_lits(a: &Vec<i32>, b: &Vec<i32>) -> (r: Vec<i32>)
    ensures
        r@ == a@ + b@,
{
    let mut r = crate::counter::copy_lits(a);
    let mut i: usize = 0;
    while i < b.len()
        invariant
            i <= b@.len(),
            r@ == a@ + b@.take(i as int),
        decreases b@.len() - i,
    {
        r.push(b[i]);
        proof {
            assert((a@ + b@.take(i as int)).push(b@[i as int]) =~= a@ + b@.take(i + 1));
        }
        i += 1;
    }
    proof {
        assert(a@ + b@.take(b@.len() as int) =~= a@ + b@);
    }
    r
}

/// The k-th tier over the first `n` constraints, computed by splitting on
/// whether the last constraint is in the subset.
fn tier_sum(nodes: &Vec<CcgNode>, ucs: &Vec<Vec<i32>>, n: usize, k: usize, lits: &Vec<i32>) -> (r:
    Count)
    requires
        ccg_wf(nodes@),
        n <= ucs@.len(),
    ensures
        r@ == tier(nodes@, uc_views(ucs@), n as int, k as int, lit_set(lits@)),
        r@ >= 0,
    decreases n,
{
    proof {
        lemma_tier_nonneg(nodes@, uc_views(ucs@), n as int, k as int, lit_set(lits@));
    }
    if k == 0 {
        proof {
            lemma_tier_k0(nodes@, uc_views(ucs@), n as int, lit_set(lits@));
        }
        return count_on_ccg(nodes, lits);
    }
    if k > n {
        proof {
            lemma_tier_gt_n(nodes@, uc_views(ucs@), n as int, k as int, lit_set(lits@));
        }
        return Count::from_i32(0);
    }
    let t1 = tier_sum(nodes, ucs, n - 1, k, lits);
    let ext = concat_lits(lits, &ucs[n - 1]);
    proof {
        crate::ccg::lemma_lit_set_concat(lits@, ucs@[n - 1]@);
        assert(uc_views(ucs@)[n - 1] == ucs@[n - 1]@);
    }
    let t2 = tier_sum(nodes, ucs, n - 1, k - 1, &ext);
    t1.plus(&t2)
}

/// Counts answer sets by truncated inclusion-exclusion over the unsupported
/// constraints: the supported-model count under the assumptions, corrected by
/// the alternating tiers up to the requested depth (0 for exact). A pass that
/// changes nothing ends the loop: the value is then already exact.
pub fn anytime_cg_count(
    nodes: &Vec<CcgNode>,
    ucs: &Vec<Vec<i32>>,
    assumptions: &Vec<i32>,
    depth: usize,
) -> (r: Count)
    requires
        ccg_wf(nodes@),
    ensures
        r@ == alt_sum(
            nodes@,
            uc_views(ucs@),
            ucs@.len() as int,
            eff_depth(depth as int, ucs@.len() as int),
            lit_set(assumptions@),
        ),
{
    let ghost a = lit_set(assumptions@);
    let ghost ucv = uc_views(ucs@);
    let ghost nn = ucs@.len() as int;
    let n = ucs.len();
    let d: usize = if depth == 0 || depth > n {
        n
    } else {
        depth
    };
    let mut count = count_on_ccg(nodes, assumptions);
    let zero = Count::from_i32(0);
    if count.eq_count(&zero) {
        proof {
            lemma_alt_zero_of_base(nodes@, ucv, nn, d as int, a);
        }
        return count;
    }
    proof {
        lemma_tier_k0(nodes@, ucv, nn, a);
        assert(count@ == alt_sum(nodes@, ucv, nn, 0, a));
    }
    let mut done: usize = 0;
    while done < d
        invariant_except_break
            ccg_wf(nodes@),
            a == lit_set(assumptions@),
            ucv == uc_views(ucs@),
            nn == ucs@.len() as int,
            n == ucs@.len(),
            d <= n,
            done <= d,
            count@ == alt_sum(nodes@, ucv, nn, done as int, a),
        ensures
            count@ == alt_sum(nodes@, ucv, nn, d as int, a),
        decreases d - done,
    {
        let i = done + 1;
        let t = tier_sum(nodes, ucs, n, i, assumptions);
        let next = if i % 2 == 1 {
            count.minus(&t)
        } else {
            count.plus(&t)
        };
        let unchanged = next.eq_count(&count);
        count = next;
        proof {
            assert(count@ == alt_sum(nodes@, ucv, nn, i as int, a));
        }
        if unchanged {
            proof {
                assert(tier(nodes@, ucv, nn, i as int, a) == 0);
                lemma_alt_stable(nodes@, ucv, nn, i as int, d as int, a);
            }
            break;
        }
        done = i;
    }
    count
}

/// Tiers read only the first `n` constraints: equal prefixes, equal tiers.
proof fn lemma_tier_prefix(
    nodes: Seq<CcgNode>,
    ucs1: Seq<Seq<i32>>,
    ucs2: Seq<Seq<i32>>,
    n: int,
    k: int,
    a: Set<int>,
)
    requires
        forall|j: int| 0 <= j < n ==> ucs1[j] == ucs2[j],
    ensures
        tier(nodes, ucs1, n, k, a) == tier(nodes, ucs2, n, k, a),
    decreases n,
{
    if k >= 0 && n > 0 {
        lemma_tier_prefix(nodes, ucs1, ucs2, n - 1, k, a);
        lemma_tier_prefix(nodes, ucs1, ucs2, n - 1, k - 1, a.union(lit_set(ucs1[n - 1])));
    }
}

/// So does the alternating sum.
proof fn lemma_alt_prefix(
    nodes: Seq<CcgNode>,
    ucs1: Seq<Seq<i32>>,
    ucs2: Seq<Seq<i32>>,
    n: int,
    d: int,
    a: Set<int>,
)
    requires
        forall|j: int| 0 <= j < n ==> ucs1[j] == ucs2[j],
    ensures
        alt_sum(nodes, ucs1, n, d, a) == alt_sum(nodes, ucs2, n, d, a),
    decreases d,
{
    lemma_tier_prefix(nodes, ucs1, ucs2, n, if d <= 0 { 0 } else { d }, a);
    if d > 0 {
        lemma_alt_prefix(nodes, ucs1, ucs2, n, d - 1, a);
    }
}

/// Peeling the last constraint out of the truncated sum: the value splits
/// into the sum without it, minus the one-deeper sum with its literals
/// assumed.
proof fn lemma_alt_peel(nodes: Seq<CcgNode>, ucs: Seq<Seq<i32>>, n: int, d: int, a: Set<int>)
    requires
        n >= 1,
        d >= 1,
    ensures
        alt_sum(nodes, ucs, n, d, a) == alt_sum(nodes, ucs, n - 1, d, a) - alt_sum(
            nodes,
            ucs,
            n - 1,
            d - 1,
            a.union(lit_set(ucs[n - 1])),
        ),
    decreases d,
{
    let u = a.union(lit_set(ucs[n - 1]));
    if d == 1 {
        lemma_tier_k0(nodes, ucs, n, a);
        lemma_tier_k0(nodes, ucs, n - 1, a);
        assert(tier(nodes, ucs, n, 1, a) == tier(nodes, ucs, n - 1, 1, a) + tier(
            nodes,
            ucs,
            n - 1,
            0,
            u,
        ));
        assert(alt_sum(nodes, ucs, n, 1, a) == alt_sum(nodes, ucs, n, 0, a) - tier(
            nodes,
            ucs,
            n,
            1,
            a,
        ));
        assert(alt_sum(nodes, ucs, n - 1, 1, a) == alt_sum(nodes, ucs, n - 1, 0, a) - tier(
            nodes,
            ucs,
            n - 1,
            1,
            a,
        ));
        assert(alt_sum(nodes, ucs, n - 1, 0, u) == tier(nodes, ucs, n - 1, 0, u));
    } else {
        lemma_alt_peel(nodes, ucs, n, d - 1, a);
        assert(tier(nodes, ucs, n, d, a) == tier(nodes, ucs, n - 1, d, a) + tier(
            nodes,
            ucs,
            n - 1,
            d - 1,
            u,
        ));
        if d % 2 == 1 {
            assert(alt_sum(nodes, ucs, n, d, a) == alt_sum(nodes, ucs, n, d - 1, a) - tier(
                nodes,
                ucs,
                n,
                d,
                a,
            ));
            assert(alt_sum(nodes, ucs, n - 1, d, a) == alt_sum(nodes, ucs, n - 1, d - 1, a) - tier(
                nodes,
                ucs,
                n - 1,
                d,
                a,
            ));
            assert(alt_sum(nodes, ucs, n - 1, d - 1, u) == alt_sum(nodes, ucs, n - 1, d - 2, u)
                + tier(nodes, ucs, n - 1, d - 1, u));
        } else {
            assert(alt_sum(nodes, ucs, n, d, a) == alt_sum(nodes, ucs, n, d - 1, a) + tier(
                nodes,
                ucs,
                n,
                d,
                a,
            ));
            assert(alt_sum(nodes, ucs, n - 1, d, a) == alt_sum(nodes, ucs, n - 1, d - 1, a) + tier(
                nodes,
                ucs,
                n - 1,
                d,
                a,
            ));
            assert(alt_sum(nodes, ucs, n - 1, d - 1, u) == alt_sum(nodes, ucs, n - 1, d - 2, u)
                - tier(nodes, ucs, n - 1, d - 1, u));
        }
    }
}

/// The value of the complete inclusion-exclusion over all the constraints.
pub open spec fn exact_count(nodes: Seq<CcgNode>, ucs: Seq<Seq<i32>>, a: Set<int>) -> int {
    alt_sum(nodes, ucs, ucs.len() as int, ucs.len() as int, a)
}

/// The complete value peels recursively: without the last constraint, minus
/// the complete value under its literals.
proof fn lemma_exact_peel(nodes: Seq<CcgNode>, ucs: Seq<Seq<i32>>, a: Set<int>)
    requires
        ucs.len() >= 1,
    ensures
        exact_count(nodes, ucs, a) == exact_count(nodes, ucs.drop_last(), a) - exact_count(
            nodes,
            ucs.drop_last(),
            a.union(lit_set(ucs.last())),
        ),
{
    let n = ucs.len() as int;
    let u = a.union(lit_set(ucs[n - 1]));
    lemma_alt_peel(nodes, ucs, n, n, a);
    if n % 2 == 1 {
        assert(alt_sum(nodes, ucs, n - 1, n, a) == alt_sum(nodes, ucs, n - 1, n - 1, a) - tier(
            nodes,
            ucs,
            n - 1,
            n,
            a,
        ));
    } else {
        assert(alt_sum(nodes, ucs, n - 1, n, a) == alt_sum(nodes, ucs, n - 1, n - 1, a) + tier(
            nodes,
            ucs,
            n - 1,
            n,
            a,
        ));
    }
    lemma_tier_gt_n(nodes, ucs, n - 1, n, a);
    assert(forall|j: int| 0 <= j < n - 1 ==> ucs.drop_last()[j] == ucs[j]);
    lemma_alt_prefix(nodes, ucs, ucs.drop_last(), n - 1, n - 1, a);
    lemma_alt_prefix(nodes, ucs, ucs.drop_last(), n - 1, n - 1, u);
}

/// Whether an unsupported constraint holds the negation of some assumed
/// literal: such a route can match no model compatible with the assumptions.
pub open spec fn contradicts(uc: Seq<i32>, a: Seq<i32>) -> bool {
    exists|j: int| 0 <= j < a.len() && in_lits(uc, -(#[trigger] a[j] as int))
}

/// The constraints that survive the pre-filter: those that do not contradict
/// the assumptions, in order.
pub open spec fn prefiltered(ucs: Seq<Seq<i32>>, a: Seq<i32>) -> Seq<Seq<i32>>
    decreases ucs.len(),
{
    if ucs.len() == 0 {
        Seq::empty()
    } else {
        let rest = prefiltered(ucs.drop_last(), a);
        if contradicts(ucs.last(), a) {
            rest
        } else {
            rest.push(ucs.last())
        }
    }
}

/// Pre-filter neutrality: dropping the constraints that contradict the
/// assumptions does not change the complete inclusion-exclusion value, as
/// long as the graph is smooth for, and mentions, each assumed variable.
pub proof fn lemma_prefilter_neutral(
    nodes: Seq<CcgNode>,
    ucs: Seq<Seq<i32>>,
    a: Seq<i32>,
    b: Set<int>,
)
    requires
        forall|q: int| 0 <= q < nodes.len() ==> crate::ccg::node_wf(nodes, q),
        lit_set(a).subset_of(b),
        smooth_for_assumptions(nodes, a),
    ensures
        exact_count(nodes, ucs, b) == exact_count(nodes, prefiltered(ucs, a), b),
    decreases ucs.len(),
{
    if ucs.len() == 0 {
    } else {
        let rest = ucs.drop_last();
        let u = ucs.last();
        let bu = b.union(lit_set(u));
        lemma_exact_peel(nodes, ucs, b);
        lemma_prefilter_neutral(nodes, rest, a, b);
        if contradicts(u, a) {
            let j = choose|j: int| 0 <= j < a.len() && in_lits(u, -(#[trigger] a[j] as int));
            let l = a[j] as int;
            let v = crate::ccg::var_of(a[j]);
            assert(in_lits(a, l));
            assert(lit_set(a).contains(l));
            assert(b.contains(l));
            assert(lit_set(u).contains(-l));
            assert(bu.contains(l) && bu.contains(-l));
            assert(bu.contains(v) && bu.contains(-v));
            crate::ccg::lemma_contradiction_collapse(nodes, bu, v, nodes.len() - 1);
            lemma_alt_zero_of_base(nodes, rest, rest.len() as int, rest.len() as int, bu);
            assert(exact_count(nodes, rest, bu) == 0);
        } else {
            lemma_prefilter_neutral(nodes, rest, a, bu);
            let pf = prefiltered(ucs, a);
            assert(pf == prefiltered(rest, a).push(u));
            assert(pf.drop_last() =~= prefiltered(rest, a));
            assert(pf.last() == u);
            assert(pf.len() >= 1);
            lemma_exact_peel(nodes, pf, b);
        }
    }
}

/// Drops every unsupported constraint that contradicts the assumptions.
pub fn prefilter_ucs(ucs: &Vec<Vec<i32>>, assumptions: &Vec<i32>) -> (r: Vec<Vec<i32>>)
    ensures
        uc_views(r@) == prefiltered(uc_views(ucs@), assumptions@),
{
    let ghost ucv = uc_views(ucs@);
    let mut kept: Vec<Vec<i32>> = Vec::new();
    let mut i: usize = 0;
    proof {
        assert(uc_views(kept@) =~= prefiltered(ucv.take(0), assumptions@));
        assert(ucv.take(0) =~= Seq::<Seq<i32>>::empty());
    }
    while i < ucs.len()
        invariant
            ucv == uc_views(ucs@),
            i <= ucs@.len(),
            uc_views(kept@) == prefiltered(ucv.take(i as int), assumptions@),
        decreases ucs@.len() - i,
    {
        proof {
            assert(ucv.take(i + 1).drop_last() =~= ucv.take(i as int));
            assert(ucv.take(i + 1).last() == ucv[i as int]);
        }
        let c = contradicts_exec(&ucs[i], assumptions);
        if !c {
            let ghost old_kept = uc_views(kept@);
            let cp = crate::counter::copy_lits(&ucs[i]);
            kept.push(cp);
            proof {
                assert(uc_views(kept@) =~= old_kept.push(ucv[i as int]));
            }
        }
        i += 1;
    }
    proof {
        assert(ucv.take(ucv.len() as int) =~= ucv);
    }
    kept
}

/// Whether the constraint holds the negation of some assumed literal.
fn contradicts_exec(uc: &Vec<i32>, assumptions: &Vec<i32>) -> (r: bool)
    ensures
        r == contradicts(uc@, assumptions@),
{
    let mut j: usize = 0;
    while j < assumptions.len()
        invariant
            j <= assumptions@.len(),
            forall|q: int| 0 <= q < j ==> !in_lits(uc@, -(#[trigger] assumptions@[q] as int)),
        decreases assumptions@.len() - j,
    {
        let l = assumptions[j];
        if l == i32::MIN {
            // its negation exceeds every i32, so no literal of the constraint is it
            proof {
                assert forall|q: int| 0 <= q < uc@.len() implies (#[trigger] uc@[q] as int) != -(
                l as int) by {}
            }
        } else {
            if crate::ccg::contains_lit(uc, -l) {
                return true;
            }
        }
        j += 1;
    }
    false
}

/// The anytime counter behind the pre-filter: constraints contradicting the
/// assumptions are dropped first, which shrinks the subsets to visit and, by
/// pre-filter neutrality, leaves the complete value unchanged.
pub fn anytime_cg_count_with_filtering(
    nodes: &Vec<CcgNode>,
    ucs: &Vec<Vec<i32>>,
    assumptions: &Vec<i32>,
    depth: usize,
) -> (r: Count)
    requires
        ccg_wf(nodes@),
    ensures
        r@ == alt_sum(
            nodes@,
            prefiltered(uc_views(ucs@), assumptions@),
            prefiltered(uc_views(ucs@), assumptions@).len() as int,
            eff_depth(depth as int, prefiltered(uc_views(ucs@), assumptions@).len() as int),
            lit_set(assumptions@),
        ),
{
    let kept = prefilter_ucs(ucs, assumptions);
    anytime_cg_count(nodes, &kept, assumptions, depth)
}

/// The variables mentioned in the subgraph at node `i`, as a set.
pub open spec fn vars_node(nodes: Seq<CcgNode>, i: int) -> Set<int>
    decreases i, 1int, 0int,
{
    if 0 <= i < nodes.len() {
        match nodes[i] {
            CcgNode::Leaf { lit, val } => Set::empty().insert(crate::ccg::var_of(lit)),
            CcgNode::And { children } => vars_union(nodes, children@, i),
            CcgNode::Or { children } => vars_union(nodes, children@, i),
        }
    } else {
        Set::empty()
    }
}

/// The variables mentioned by any of the children `cs`, all below `i`.
pub open spec fn vars_union(nodes: Seq<CcgNode>, cs: Seq<usize>, i: int) -> Set<int>
    decreases i, 0int, cs.len(),
{
    if cs.len() == 0 {
        Set::empty()
    } else {
        (if (cs[0] as int) < i {
            vars_node(nodes, cs[0] as int)
        } else {
            Set::empty()
        }).union(vars_union(nodes, cs.drop_first(), i))
    }
}

/// Two to the gap between a node's variable count and a child's.
pub open spec fn pow2_gap(nv: int, cv: int) -> int {
    if cv <= nv {
        vstd::arithmetic::power2::pow2((nv - cv) as nat) as int
    } else {
        1
    }
}

/// The smooth (gap-filling) count of node `i` under the assumed literals:
/// each Or child's count is scaled by two to the number of variables its
/// siblings mention and it does not.
pub open spec fn eval_smooth(nodes: Seq<CcgNode>, a: Set<int>, i: int) -> int
    decreases i, 1int, 0int,
{
    if 0 <= i < nodes.len() {
        match nodes[i] {
            CcgNode::Leaf { lit, val } => if a.contains(-(lit as int)) {
                0
            } else {
                val as int
            },
            CcgNode::And { children } => smooth_prod(nodes, a, children@, i),
            CcgNode::Or { children } => smooth_sum(
                nodes,
                a,
                children@,
                i,
                vars_union(nodes, children@, i).len() as int,
            ),
        }
    } else {
        0
    }
}

pub open spec fn smooth_prod(nodes: Seq<CcgNode>, a: Set<int>, cs: Seq<usize>, i: int) -> int
    decreases i, 0int, cs.len(),
{
    if cs.len() == 0 {
        1
    } else {
        (if (cs[0] as int) < i {
            eval_smooth(nodes, a, cs[0] as int)
        } else {
            0
        }) * smooth_prod(nodes, a, cs.drop_first(), i)
    }
}

pub open spec fn smooth_sum(nodes: Seq<CcgNode>, a: Set<int>, cs: Seq<usize>, i: int, nv: int) -> int
    decreases i, 0int, cs.len(),
{
    if cs.len() == 0 {
        0
    } else {
        (if (cs[0] as int) < i {
            eval_smooth(nodes, a, cs[0] as int) * pow2_gap(
                nv,
                vars_node(nodes, cs[0] as int).len() as int,
            )
        } else {
            0
        }) + smooth_sum(nodes, a, cs.drop_first(), i, nv)
    }
}

/// The smooth model count of the whole graph under `var_count` variables: the
/// root's smooth count, gap-filled up to the declared variable count.
pub open spec fn smooth_total(nodes: Seq<CcgNode>, a: Set<int>, var_count: int) -> int {
    eval_smooth(nodes, a, nodes.len() - 1) * pow2_gap(
        var_count,
        vars_node(nodes, nodes.len() - 1).len() as int,
    )
}

/// No two elements of the list agree.
pub open spec fn no_dups(s: Seq<i32>) -> bool {
    forall|p: int, q: int| 0 <= p < q < s.len() ==> s[p] != s[q]
}

/// Appending one literal inserts it into the denoted set.
proof fn lemma_lit_set_push(s: Seq<i32>, x: i32)
    ensures
        lit_set(s.push(x)) == lit_set(s).insert(x as int),
{
    assert forall|y: int| #[trigger]
        lit_set(s.push(x)).contains(y) implies lit_set(s).insert(x as int).contains(y) by {
        let j = choose|j: int| 0 <= j < s.push(x).len() && s.push(x)[j] as int == y;
        if j < s.len() {
            assert(s[j] == s.push(x)[j]);
            assert(in_lits(s, y));
        }
    }
    assert forall|y: int| #[trigger]
        lit_set(s).insert(x as int).contains(y) implies lit_set(s.push(x)).contains(y) by {
        if y == x as int {
            assert(s.push(x)[s.len() as int] as int == y);
            assert(in_lits(s.push(x), y));
        } else {
            let j = choose|j: int| 0 <= j < s.len() && s[j] as int == y;
            assert(s.push(x)[j] as int == y);
            assert(in_lits(s.push(x), y));
        }
    }
    assert(lit_set(s.push(x)) =~= lit_set(s).insert(x as int));
}

/// A duplicate-free list denotes a finite set of exactly its length.
proof fn lemma_no_dups_card(s: Seq<i32>)
    requires
        no_dups(s),
    ensures
        lit_set(s).finite(),
        lit_set(s).len() == s.len(),
    decreases s.len(),
{
    if s.len() == 0 {
        assert(lit_set(s) =~= Set::<int>::empty());
    } else {
        let dl = s.drop_last();
        assert(no_dups(dl)) by {
            assert(forall|p: int, q: int| 0 <= p < q < dl.len() ==> dl[p] == s[p] && dl[q] == s[q]);
        }
        lemma_no_dups_card(dl);
        assert(dl.push(s.last()) =~= s);
        lemma_lit_set_push(dl, s.last());
        assert(!lit_set(dl).contains(s.last() as int)) by {
            if in_lits(dl, s.last() as int) {
                let j = choose|j: int| 0 <= j < dl.len() && dl[j] as int == s.last() as int;
                assert(s[j] == dl[j]);
            }
        }
    }
}

/// The set union of two duplicate-free literal lists, as a duplicate-free
/// list: the first list, then what the second adds.
fn merge_vars(a: &Vec<i32>, b: &Vec<i32>) -> (r: Vec<i32>)
    requires
        no_dups(a@),
    ensures
        no_dups(r@),
        lit_set(r@) == lit_set(a@).union(lit_set(b@)),
{
    let mut r = crate::counter::copy_lits(a);
    let mut j: usize = 0;
    proof {
        assert(lit_set(r@) =~= lit_set(a@).union(lit_set(b@.take(0))));
        assert(b@.take(0) =~= Seq::<i32>::empty());
        assert(lit_set(Seq::<i32>::empty()) =~= Set::<int>::empty());
    }
    while j < b.len()
        invariant
            j <= b@.len(),
            no_dups(r@),
            lit_set(r@) == lit_set(a@).union(lit_set(b@.take(j as int))),
        decreases b@.len() - j,
    {
        let x = b[j];
        proof {
            assert(b@.take(j + 1).drop_last() =~= b@.take(j as int));
            assert(b@.take(j + 1).last() == b@[j as int]);
            assert(b@.take(j as int).push(b@[j as int]) =~= b@.take(j + 1));
            lemma_lit_set_push(b@.take(j as int), b@[j as int]);
        }
        if !crate::ccg::contains_lit(&r, x) {
            let ghost oldr = r@;
            r.push(x);
            proof {
                lemma_lit_set_push(oldr, x);
                assert(no_dups(r@)) by {
                    assert(forall|p: int| 0 <= p < oldr.len() ==> r@[p] == oldr[p]);
                    assert(forall|p: int| 0 <= p < oldr.len() ==> oldr[p] != x);
                }
                assert(lit_set(r@) =~= lit_set(a@).union(lit_set(b@.take(j + 1))));
            }
        } else {
            proof {
                assert(lit_set(r@).contains(x as int));
                assert(lit_set(r@) =~= lit_set(a@).union(lit_set(b@.take(j + 1))));
            }
        }
        j += 1;
    }
    proof {
        assert(b@.take(b@.len() as int) =~= b@);
    }
    r
}

/// Each child's variables stay inside the union over all the children.
proof fn lemma_vars_union_contains(nodes: Seq<CcgNode>, cs: Seq<usize>, i: int, k: int)
    requires
        0 <= k < cs.len(),
        (cs[k] as int) < i,
    ensures
        vars_node(nodes, cs[k] as int).subset_of(vars_union(nodes, cs, i)),
    decreases cs.len(),
{
    if k == 0 {
    } else {
        assert(cs.drop_first()[k - 1] == cs[k]);
        lemma_vars_union_contains(nodes, cs.drop_first(), i, k - 1);
    }
}

/// Every variable set of the graph is finite.
proof fn lemma_vars_finite(nodes: Seq<CcgNode>, i: int)
    ensures
        vars_node(nodes, i).finite(),
    decreases i, 1int, 0int,
{
    if 0 <= i < nodes.len() {
        match nodes[i] {
            CcgNode::Leaf { lit, val } => {}
            CcgNode::And { children } => {
                lemma_vars_union_finite(nodes, children@, i);
            }
            CcgNode::Or { children } => {
                lemma_vars_union_finite(nodes, children@, i);
            }
        }
    }
}

proof fn lemma_vars_union_finite(nodes: Seq<CcgNode>, cs: Seq<usize>, i: int)
    ensures
        vars_union(nodes, cs, i).finite(),
    decreases i, 0int, cs.len(),
{
    if cs.len() > 0 {
        if (cs[0] as int) < i {
            lemma_vars_finite(nodes, cs[0] as int);
        }
        lemma_vars_union_finite(nodes, cs.drop_first(), i);
    }
}

/// Appending a child on the right multiplies the smooth product by that
/// child's smooth count.
proof fn lemma_smooth_prod_push(nodes: Seq<CcgNode>, a: Set<int>, cs: Seq<usize>, x: usize, i: int)
    ensures
        smooth_prod(nodes, a, cs.push(x), i) == smooth_prod(nodes, a, cs, i) * (if (x as int) < i {
            eval_smooth(nodes, a, x as int)
        } else {
            0
        }),
    decreases cs.len(),
{
    let ex = if (x as int) < i {
        eval_smooth(nodes, a, x as int)
    } else {
        0
    };
    if cs.len() == 0 {
        assert(cs.push(x).drop_first() =~= Seq::<usize>::empty());
        assert(smooth_prod(nodes, a, cs.push(x), i) == (if (cs.push(x)[0] as int) < i {
            eval_smooth(nodes, a, cs.push(x)[0] as int)
        } else {
            0
        }) * smooth_prod(nodes, a, cs.push(x).drop_first(), i));
        assert(ex * 1 == 1 * ex) by {
            vstd::arithmetic::mul::lemma_mul_is_commutative(ex, 1);
        }
    } else {
        assert(cs.push(x)[0] == cs[0]);
        assert(cs.push(x).drop_first() =~= cs.drop_first().push(x));
        assert(smooth_prod(nodes, a, cs.push(x), i) == (if (cs.push(x)[0] as int) < i {
            eval_smooth(nodes, a, cs.push(x)[0] as int)
        } else {
            0
        }) * smooth_prod(nodes, a, cs.push(x).drop_first(), i));
        lemma_smooth_prod_push(nodes, a, cs.drop_first(), x, i);
        let e0 = if (cs[0] as int) < i {
            eval_smooth(nodes, a, cs[0] as int)
        } else {
            0
        };
        let rest = smooth_prod(nodes, a, cs.drop_first(), i);
        assert(e0 * (rest * ex) == (e0 * rest) * ex) by {
            vstd::arithmetic::mul::lemma_mul_is_associative(e0, rest, ex);
        }
    }
}

/// Appending a child on the right adds its scaled smooth count to the sum.
proof fn lemma_smooth_sum_push(
    nodes: Seq<CcgNode>,
    a: Set<int>,
    cs: Seq<usize>,
    x: usize,
    i: int,
    nv: int,
)
    ensures
        smooth_sum(nodes, a, cs.push(x), i, nv) == smooth_sum(nodes, a, cs, i, nv) + (if (
        x as int) < i {
            eval_smooth(nodes, a, x as int) * pow2_gap(nv, vars_node(nodes, x as int).len() as int)
        } else {
            0
        }),
    decreases cs.len(),
{
    if cs.len() == 0 {
        assert(cs.push(x).drop_first() =~= Seq::<usize>::empty());
        assert(smooth_sum(nodes, a, cs.push(x), i, nv) == (if (cs.push(x)[0] as int) < i {
            eval_smooth(nodes, a, cs.push(x)[0] as int) * pow2_gap(
                nv,
                vars_node(nodes, cs.push(x)[0] as int).len() as int,
            )
        } else {
            0
        }) + smooth_sum(nodes, a, cs.push(x).drop_first(), i, nv));
    } else {
        assert(cs.push(x)[0] == cs[0]);
        assert(cs.push(x).drop_first() =~= cs.drop_first().push(x));
        assert(smooth_sum(nodes, a, cs.push(x), i, nv) == (if (cs.push(x)[0] as int) < i {
            eval_smooth(nodes, a, cs.push(x)[0] as int) * pow2_gap(
                nv,
                vars_node(nodes, cs.push(x)[0] as int).len() as int,
            )
        } else {
            0
        }) + smooth_sum(nodes, a, cs.push(x).drop_first(), i, nv));
        lemma_smooth_sum_push(nodes, a, cs.drop_first(), x, i, nv);
    }
}

/// Appending a child on the right joins its variables into the union.
proof fn lemma_vars_union_push(nodes: Seq<CcgNode>, cs: Seq<usize>, x: usize, i: int)
    ensures
        vars_union(nodes, cs.push(x), i) == vars_union(nodes, cs, i).union(
            if (x as int) < i {
                vars_node(nodes, x as int)
            } else {
                Set::empty()
            },
        ),
    decreases cs.len(),
{
    let vx = if (x as int) < i {
        vars_node(nodes, x as int)
    } else {
        Set::<int>::empty()
    };
    if cs.len() == 0 {
        assert(cs.push(x).drop_first() =~= Seq::<usize>::empty());
        assert(vars_union(nodes, cs.push(x), i) == (if (cs.push(x)[0] as int) < i {
            vars_node(nodes, cs.push(x)[0] as int)
        } else {
            Set::empty()
        }).union(vars_union(nodes, cs.push(x).drop_first(), i)));
        assert(vx.union(Set::<int>::empty()) =~= Set::<int>::empty().union(vx));
    } else {
        assert(cs.push(x)[0] == cs[0]);
        assert(cs.push(x).drop_first() =~= cs.drop_first().push(x));
        assert(vars_union(nodes, cs.push(x), i) == (if (cs.push(x)[0] as int) < i {
            vars_node(nodes, cs.push(x)[0] as int)
        } else {
            Set::empty()
        }).union(vars_union(nodes, cs.push(x).drop_first(), i)));
        lemma_vars_union_push(nodes, cs.drop_first(), x, i);
        let v0 = if (cs[0] as int) < i {
            vars_node(nodes, cs[0] as int)
        } else {
            Set::<int>::empty()
        };
        let rest = vars_union(nodes, cs.drop_first(), i);
        assert(v0.union(rest.union(vx)) =~= v0.union(rest).union(vx));
    }
}

/// Counts models on sd-DNNF text under assumed literals, with smooth
/// gap-filling: at every Or gate each child's count is doubled once per
/// variable that the Or node mentions but the child misses; the root's count is
/// then doubled likewise up to the header's variable count.
pub fn count_on_sddnnf(text: &[u8], assumptions: &Vec<i32>) -> (r: Result<Count, CounterError>)
    ensures
        r matches Ok(c) ==> exists|g: Seq<CcgNode>|
            #[trigger] nnf_matches_lines(spec_tokenize(text@), g) && (nnf_var_count(
                spec_tokenize(text@),
            ) matches Some(vc) && vars_node(g, g.len() - 1).len() <= vc && c@ == smooth_total(
                g,
                lit_set(assumptions@),
                vc as int,
            )),
        r is Err ==> (!nnf_lines_ok(spec_tokenize(text@)) || nnf_var_count(
            spec_tokenize(text@),
        ) is None || (exists|g: Seq<CcgNode>|
            #[trigger] nnf_matches_lines(spec_tokenize(text@), g) && (nnf_var_count(
                spec_tokenize(text@),
            ) matches Some(vc) && vars_node(g, g.len() - 1).len() > vc))),
{
    let parsed = match parse_nnf(text) {
        Ok(p) => p,
        Err(e) => {
            return Err(e);
        },
    };
    let nodes = parsed.0;
    let var_count = parsed.1;
    let ghost a = lit_set(assumptions@);
    let mut vals: Vec<Count> = Vec::new();
    let mut varsv: Vec<Vec<i32>> = Vec::new();
    let mut idx: usize = 0;
    while idx < nodes.len()
        invariant
            ccg_wf(nodes@),
            a == lit_set(assumptions@),
            idx <= nodes@.len(),
            vals@.len() == idx,
            varsv@.len() == idx,
            forall|j: int| 0 <= j < idx ==> (#[trigger] vals@[j])@ == eval_smooth(nodes@, a, j),
            forall|j: int| 0 <= j < idx ==> no_dups((#[trigger] varsv@[j])@),
            forall|j: int| 0 <= j < idx ==> lit_set((#[trigger] varsv@[j])@) == vars_node(
                nodes@,
                j,
            ),
        decreases nodes@.len() - idx,
    {
        assert(crate::ccg::node_wf(nodes@, idx as int));
        let pair: (Count, Vec<i32>) = match &nodes[idx] {
            CcgNode::Leaf { lit, val } => {
                let v = if contains_lit(assumptions, -*lit) {
                    Count::from_i32(0)
                } else {
                    Count::from_i32(*val)
                };
                let pos: i32 = if *lit < 0 {
                    -*lit
                } else {
                    *lit
                };
                let mut vs: Vec<i32> = Vec::new();
                vs.push(pos);
                proof {
                    assert(vs@ =~= Seq::<i32>::empty().push(pos));
                    lemma_lit_set_push(Seq::<i32>::empty(), pos);
                    assert(lit_set(Seq::<i32>::empty()) =~= Set::<int>::empty());
                    assert(pos as int == crate::ccg::var_of(*lit));
                }
                (v, vs)
            },
            CcgNode::And { children } => {
                let mut acc = Count::from_i32(1);
                let mut avars: Vec<i32> = Vec::new();
                let mut k: usize = 0;
                proof {
                    assert(children@.take(0) =~= Seq::<usize>::empty());
                    assert(lit_set(avars@) =~= Set::<int>::empty());
                }
                while k < children.len()
                    invariant
                        ccg_wf(nodes@),
                        a == lit_set(assumptions@),
                        idx < nodes@.len(),
                        nodes@[idx as int] matches CcgNode::And { children: cks } && cks@
                            == children@,
                        vals@.len() == idx,
                        varsv@.len() == idx,
                        forall|j: int| 0 <= j < idx ==> (#[trigger] vals@[j])@ == eval_smooth(
                            nodes@,
                            a,
                            j,
                        ),
                        forall|j: int| 0 <= j < idx ==> no_dups((#[trigger] varsv@[j])@),
                        forall|j: int| 0 <= j < idx ==> lit_set((#[trigger] varsv@[j])@)
                            == vars_node(nodes@, j),
                        k <= children@.len(),
                        acc@ == smooth_prod(nodes@, a, children@.take(k as int), idx as int),
                        no_dups(avars@),
                        lit_set(avars@) == vars_union(
                            nodes@,
                            children@.take(k as int),
                            idx as int,
                        ),
                    decreases children@.len() - k,
                {
                    let c = children[k];
                    assert(crate::ccg::node_wf(nodes@, idx as int));
                    assert((children@[k as int] as int) < idx as int);
                    acc = acc.times(&vals[c]);
                    avars = merge_vars(&avars, &varsv[c]);
                    proof {
                        lemma_smooth_prod_push(nodes@, a, children@.take(k as int), c, idx as int);
                        lemma_vars_union_push(nodes@, children@.take(k as int), c, idx as int);
                        assert(children@.take(k as int).push(c) =~= children@.take(k as int + 1));
                    }
                    k += 1;
                }
                proof {
                    assert(children@.take(children@.len() as int) =~= children@);
                }
                (acc, avars)
            },
            CcgNode::Or { children } => {
                let mut ovars: Vec<i32> = Vec::new();
                let mut k: usize = 0;
                proof {
                    assert(children@.take(0) =~= Seq::<usize>::empty());
                    assert(lit_set(ovars@) =~= Set::<int>::empty());
                }
                while k < children.len()
                    invariant
                        ccg_wf(nodes@),
                        idx < nodes@.len(),
                        nodes@[idx as int] matches CcgNode::Or { children: cks } && cks@
                            == children@,
                        varsv@.len() == idx,
                        forall|j: int| 0 <= j < idx ==> no_dups((#[trigger] varsv@[j])@),
                        forall|j: int| 0 <= j < idx ==> lit_set((#[trigger] varsv@[j])@)
                            == vars_node(nodes@, j),
                        k <= children@.len(),
                        no_dups(ovars@),
                        lit_set(ovars@) == vars_union(
                            nodes@,
                            children@.take(k as int),
                            idx as int,
                        ),
                    decreases children@.len() - k,
                {
                    let c = children[k];
                    assert(crate::ccg::node_wf(nodes@, idx as int));
                    assert((children@[k as int] as int) < idx as int);
                    ovars = merge_vars(&ovars, &varsv[c]);
                    proof {
                        lemma_vars_union_push(nodes@, children@.take(k as int), c, idx as int);
                        assert(children@.take(k as int).push(c) =~= children@.take(k as int + 1));
                    }
                    k += 1;
                }
                proof {
                    assert(children@.take(children@.len() as int) =~= children@);
                    lemma_no_dups_card(ovars@);
                }
                let nv: usize = ovars.len();
                let ghost nvs = vars_union(nodes@, children@, idx as int);
                let mut acc = Count::from_i32(0);
                let mut k2: usize = 0;
                proof {
                    assert(children@.take(0) =~= Seq::<usize>::empty());
                }
                while k2 < children.len()
                    invariant
                        ccg_wf(nodes@),
                        a == lit_set(assumptions@),
                        idx < nodes@.len(),
                        nodes@[idx as int] matches CcgNode::Or { children: cks } && cks@
                            == children@,
                        vals@.len() == idx,
                        varsv@.len() == idx,
                        forall|j: int| 0 <= j < idx ==> (#[trigger] vals@[j])@ == eval_smooth(
                            nodes@,
                            a,
                            j,
                        ),
                        forall|j: int| 0 <= j < idx ==> no_dups((#[trigger] varsv@[j])@),
                        forall|j: int| 0 <= j < idx ==> lit_set((#[trigger] varsv@[j])@)
                            == vars_node(nodes@, j),
                        k2 <= children@.len(),
                        nvs == vars_union(nodes@, children@, idx as int),
                        nv as int == nvs.len(),
                        acc@ == smooth_sum(
                            nodes@,
                            a,
                            children@.take(k2 as int),
                            idx as int,
                            nv as int,
                        ),
                    decreases children@.len() - k2,
                {
                    let c = children[k2];
                    assert(crate::ccg::node_wf(nodes@, idx as int));
                    assert((children@[k2 as int] as int) < idx as int);
                    proof {
                        lemma_vars_union_contains(nodes@, children@, idx as int, k2 as int);
                        lemma_vars_union_finite(nodes@, children@, idx as int);
                        lemma_no_dups_card(varsv@[c as int]@);
                        vstd::set_lib::lemma_len_subset(vars_node(nodes@, c as int), nvs);
                    }
                    let cl: usize = varsv[c].len();
                    let gap: usize = nv - cl;
                    let term = vals[c].shift_left(gap);
                    proof {
                        assert(term@ == eval_smooth(nodes@, a, c as int) * pow2_gap(
                            nv as int,
                            vars_node(nodes@, c as int).len() as int,
                        ));
                    }
                    acc = acc.plus(&term);
                    proof {
                        lemma_smooth_sum_push(
                            nodes@,
                            a,
                            children@.take(k2 as int),
                            c,
                            idx as int,
                            nv as int,
                        );
                        assert(children@.take(k2 as int).push(c) =~= children@.take(
                            k2 as int + 1,
                        ));
                    }
                    k2 += 1;
                }
                proof {
                    assert(children@.take(children@.len() as int) =~= children@);
                }
                (acc, ovars)
            },
        };
        let (node_val, node_vars) = pair;
        vals.push(node_val);
        varsv.push(node_vars);
        idx += 1;
    }
    let last: usize = nodes.len() - 1;
    proof {
        lemma_no_dups_card(varsv@[last as int]@);
    }
    let root_vars: usize = varsv[last].len();
    if var_count < root_vars {
        proof {
            assert(vars_node(nodes@, last as int).len() > var_count);
        }
        return Err(CounterError::ReadingError("var count below the root's variables.".to_string()));
    }
    let r = vals[last].shift_left(var_count - root_vars);
    proof {
        assert(r@ == smooth_total(nodes@, a, var_count as int));
    }
    Ok(r)
}

/// The polarity and literal lists a vector of tagged constraints holds.
pub open spec fn uc_pol_views(v: Seq<(bool, Vec<i32>)>) -> Seq<(bool, Seq<i32>)> {
    Seq::new(v.len(), |i: int| (v[i].0, v[i].1@))
}

/// The literals denoted by the tokens `toks[1..upto]`, where all are
/// numerals.
pub open spec fn uc_lits_upto(toks: Seq<Seq<u8>>, upto: int) -> Option<Seq<i32>>
    decreases upto,
{
    if upto <= 1 {
        Some(Seq::empty())
    } else {
        match uc_lits_upto(toks, upto - 1) {
            Some(rest) => match spec_i32(toks[upto - 1]) {
                Some(v) => Some(rest.push(v)),
                None => None,
            },
            None => None,
        }
    }
}

/// The tagged constraints that the lines `tls[1..k]` denote: `m`-lines are
/// exclusion routes, `p`-lines inclusion routes, `c`-lines comments; `None`
/// on any other line.
pub open spec fn spec_parse_ucs(tls: Seq<Seq<Seq<u8>>>, k: int) -> Option<Seq<(bool, Seq<i32>)>>
    decreases k,
{
    if k <= 1 {
        Some(Seq::empty())
    } else {
        match spec_parse_ucs(tls, k - 1) {
            Some(rest) => {
                let l = tls[k - 1];
                if l.len() > 0 && l[0] == seq![99u8] {
                    Some(rest)
                } else if l.len() > 0 && (l[0] == seq![109u8] || l[0] == seq![112u8]) {
                    match uc_lits_upto(l, l.len() as int) {
                        Some(lits) => Some(rest.push((l[0] == seq![112u8], lits))),
                        None => None,
                    }
                } else {
                    None
                }
            },
            None => None,
        }
    }
}

/// Parses an unsupported-constraints file: a header whose first token is the
/// recommended depth (0 for none), then one route per line, `m <lits>` to
/// exclude or `p <lits>` to include, with `c`-comment lines skipped.
pub fn parse_ucs(text: &[u8]) -> (r: Result<(usize, Vec<(bool, Vec<i32>)>), CounterError>)
    ensures
        r matches Ok(p) ==> {
            &&& spec_tokenize(text@).len() >= 1
            &&& spec_usize(spec_tokenize(text@)[0][0]) == Some(p.0)
            &&& spec_parse_ucs(spec_tokenize(text@), spec_tokenize(text@).len() as int) == Some(
                uc_pol_views(p.1@),
            )
        },
        r is Err ==> (spec_tokenize(text@).len() == 0 || spec_usize(
            spec_tokenize(text@)[0][0],
        ) is None || spec_parse_ucs(spec_tokenize(text@), spec_tokenize(text@).len() as int) is None),
{
    let ghost tls = spec_tokenize(text@);
    let lines = tokenize(text);
    if lines.len() == 0 {
        return Err(CounterError::ReadingError("could not read ucs header.".to_string()));
    }
    proof {
        assert(tls[0] == tok_views(lines@[0]@));
    }
    if lines[0].len() == 0 {
        proof {
            crate::toks::lemma_token_lines_nonempty(crate::toks::spec_lines(text@));
            assert(false);
        }
        return Err(CounterError::ReadingError("could not read ucs header.".to_string()));
    }
    let depth: usize = match parse_usize_tok(lines[0][0].as_slice()) {
        Some(d) => d,
        None => {
            proof {
                assert(tls[0][0] == lines@[0]@[0]@);
            }
            return Err(CounterError::ReadingError("could not read ucs header.".to_string()));
        },
    };
    proof {
        assert(tls[0][0] == lines@[0]@[0]@);
    }
    let mut ucs: Vec<(bool, Vec<i32>)> = Vec::new();
    let mut k: usize = 1;
    proof {
        assert(uc_pol_views(ucs@) =~= Seq::<(bool, Seq<i32>)>::empty());
    }
    while k < lines.len()
        invariant
            tls == spec_tokenize(text@),
            tls == line_views(lines@),
            1 <= k <= lines@.len(),
            spec_parse_ucs(tls, k as int) == Some(uc_pol_views(ucs@)),
        decreases lines@.len() - k,
    {
        proof {
            assert(tls[k as int] == tok_views(lines@[k as int]@));
        }
        let line = &lines[k];
        proof {
            assert(seq![99u8][0] == 99u8 && seq![109u8][0] == 109u8 && seq![112u8][0] == 112u8);
        }
        if line.len() == 0 {
            proof {
                assert(tls[k as int].len() == 0);
                assert(spec_parse_ucs(tls, k + 1) is None);
                lemma_parse_ucs_none(tls, k + 1, tls.len() as int);
            }
            return Err(CounterError::ReadingError("error: reading ucs failed.".to_string()));
        }
        let is_c = crate::ccg::tok_is_mark(&line[0], 99);
        let is_m = crate::ccg::tok_is_mark(&line[0], 109);
        let is_p = crate::ccg::tok_is_mark(&line[0], 112);
        if is_c {
            k += 1;
            continue ;
        }
        if !is_m && !is_p {
            proof {
                assert(spec_parse_ucs(tls, k + 1) is None);
                lemma_parse_ucs_none(tls, k + 1, tls.len() as int);
            }
            return Err(CounterError::ReadingError("error: reading ucs failed.".to_string()));
        }
        let mut lits: Vec<i32> = Vec::new();
        let mut q: usize = 1;
        proof {
            assert(tls[k as int][0] == seq![109u8] || tls[k as int][0] == seq![112u8]);
            assert(tls[k as int][0] != seq![99u8]);
        }
        while q < line.len()
            invariant
                tls == spec_tokenize(text@),
                tls == line_views(lines@),
                1 <= k < lines@.len(),
                line@ == lines@[k as int]@,
                tls[k as int] == tok_views(lines@[k as int]@),
                spec_parse_ucs(tls, k as int) is Some,
                tls[k as int].len() > 0,
                tls[k as int][0] == seq![109u8] || tls[k as int][0] == seq![112u8],
                !(tls[k as int][0] == seq![99u8]),
                1 <= q <= line@.len(),
                uc_lits_upto(tls[k as int], q as int) == Some(lits@),
            decreases line@.len() - q,
        {
            proof {
                assert(tls[k as int][q as int] == lines@[k as int]@[q as int]@);
            }
            match parse_i32_tok(line[q].as_slice()) {
                Some(v) => {
                    lits.push(v);
                },
                None => {
                    proof {
                        assert(uc_lits_upto(tls[k as int], q + 1) is None);
                        lemma_uc_lits_none(tls[k as int], q + 1, tls[k as int].len() as int);
                        assert(spec_parse_ucs(tls, k + 1) is None);
                        lemma_parse_ucs_none(tls, k + 1, tls.len() as int);
                    }
                    return Err(
                        CounterError::ReadingError("error: reading ucs failed.".to_string()),
                    );
                },
            }
            q += 1;
        }
        let ghost old_ucs = uc_pol_views(ucs@);
        ucs.push((is_p, lits));
        proof {
            assert(uc_pol_views(ucs@) =~~= old_ucs.push(
                (is_p, uc_lits_upto(tls[k as int], tls[k as int].len() as int).unwrap()),
            ));
        }
        k += 1;
    }
    Ok((depth, ucs))
}

/// A bad line spoils the parse for every longer prefix.
proof fn lemma_parse_ucs_none(tls: Seq<Seq<Seq<u8>>>, from: int, upto: int)
    requires
        spec_parse_ucs(tls, from) is None,
        from <= upto,
    ensures
        spec_parse_ucs(tls, upto) is None,
    decreases upto - from,
{
    if from < upto {
        lemma_parse_ucs_none(tls, from + 1, upto);
    }
}

/// A numeral that fails to parse spoils the whole literal list.
proof fn lemma_uc_lits_none(toks: Seq<Seq<u8>>, from: int, upto: int)
    requires
        uc_lits_upto(toks, from) is None,
        from <= upto,
    ensures
        uc_lits_upto(toks, upto) is None,
    decreases upto - from,
{
    if from < upto {
        lemma_uc_lits_none(toks, from + 1, upto);
    }
}

/// With no constraints every truncation is the plain count.
proof fn lemma_alt_no_constraints(nodes: Seq<CcgNode>, ucs: Seq<Seq<i32>>, d: int, a: Set<int>)
    requires
        d >= 0,
    ensures
        alt_sum(nodes, ucs, 0, d, a) == eval_ccg(nodes, a),
    decreases d,
{
    if d == 0 {
        lemma_tier_k0(nodes, ucs, 0, a);
    } else {
        lemma_alt_no_constraints(nodes, ucs, d - 1, a);
        assert(tier(nodes, ucs, 0, d, a) == 0);
    }
}

/// The anytime bounds: a truncation cut after an odd tier stays below the
/// complete inclusion-exclusion value, one cut after an even tier stays above
/// it. The hypothesis is that the complete value over any prefix of the
/// routes and any assumption set never exceeds the plain count: exactly what
/// holds when the graph's counts are model counts, with the routes' values
/// counting the models lost to each union of routes.
pub proof fn lemma_anytime_bounds(
    nodes: Seq<CcgNode>,
    ucs: Seq<Seq<i32>>,
    n: int,
    d: int,
    a: Set<int>,
)
    requires
        forall|m: int, b: Set<int>|
            0 <= m <= n ==> #[trigger] alt_sum(nodes, ucs, m, m, b) <= eval_ccg(nodes, b),
        0 <= d,
        0 <= n,
    ensures
        d % 2 == 1 ==> alt_sum(nodes, ucs, n, d, a) <= alt_sum(nodes, ucs, n, n, a),
        d % 2 == 0 ==> alt_sum(nodes, ucs, n, d, a) >= alt_sum(nodes, ucs, n, n, a),
    decreases n,
{
    if n == 0 {
        lemma_alt_no_constraints(nodes, ucs, d, a);
        lemma_alt_no_constraints(nodes, ucs, 0, a);
    } else if d == 0 {
        lemma_tier_k0(nodes, ucs, n, a);
        assert(alt_sum(nodes, ucs, n, 0, a) == eval_ccg(nodes, a));
        assert(alt_sum(nodes, ucs, n, n, a) <= eval_ccg(nodes, a));
    } else {
        let u = a.union(lit_set(ucs[n - 1]));
        lemma_alt_peel(nodes, ucs, n, d, a);
        lemma_alt_peel(nodes, ucs, n, n, a);
        lemma_tier_gt_n(nodes, ucs, n - 1, n, a);
        if n % 2 == 1 {
            assert(alt_sum(nodes, ucs, n - 1, n, a) == alt_sum(nodes, ucs, n - 1, n - 1, a) - tier(
                nodes,
                ucs,
                n - 1,
                n,
                a,
            ));
        } else {
            assert(alt_sum(nodes, ucs, n - 1, n, a) == alt_sum(nodes, ucs, n - 1, n - 1, a) + tier(
                nodes,
                ucs,
                n - 1,
                n,
                a,
            ));
        }
        // the complete value also peels: E(n, a) == E(n-1, a) - E(n-1, a with
        // the last route assumed)
        assert(alt_sum(nodes, ucs, n, n, a) == alt_sum(nodes, ucs, n - 1, n - 1, a) - alt_sum(
            nodes,
            ucs,
            n - 1,
            n - 1,
            u,
        ));
        lemma_anytime_bounds(nodes, ucs, n - 1, d, a);
        lemma_anytime_bounds(nodes, ucs, n - 1, d - 1, u);
    }
}

/// Beyond the list there is nothing to add: the alternating sum is flat
/// above the number of routes.
proof fn lemma_alt_flat(nodes: Seq<CcgNode>, ucs: Seq<Seq<i32>>, n: int, d: int, a: Set<int>)
    requires
        0 <= n <= d,
    ensures
        alt_sum(nodes, ucs, n, d, a) == alt_sum(nodes, ucs, n, n, a),
    decreases d,
{
    if d > n {
        lemma_tier_gt_n(nodes, ucs, n, d, a);
        lemma_alt_flat(nodes, ucs, n, d - 1, a);
    }
}

/// The smoothness the pre-filter laws rest on: the graph is smooth for, and
/// mentions, the variable of every assumed literal.
pub open spec fn smooth_for_assumptions(nodes: Seq<CcgNode>, a: Seq<i32>) -> bool {
    forall|j: int|
        0 <= j < a.len() ==> (crate::ccg::smooth_wrt(nodes, crate::ccg::var_of(#[trigger] a[j]))
            && crate::ccg::mentions(nodes, nodes.len() - 1, crate::ccg::var_of(a[j])))
}

/// Pre-filter neutrality, tier by tier: dropping the routes that contradict
/// the assumptions changes no tier, since every subset holding such a route
/// counts zero.
proof fn lemma_prefilter_tier(
    nodes: Seq<CcgNode>,
    ucs: Seq<Seq<i32>>,
    a: Seq<i32>,
    k: int,
    b: Set<int>,
)
    requires
        forall|q: int| 0 <= q < nodes.len() ==> crate::ccg::node_wf(nodes, q),
        lit_set(a).subset_of(b),
        smooth_for_assumptions(nodes, a),
    ensures
        tier(nodes, ucs, ucs.len() as int, k, b) == tier(
            nodes,
            prefiltered(ucs, a),
            prefiltered(ucs, a).len() as int,
            k,
            b,
        ),
    decreases ucs.len(),
{
    if k < 0 {
    } else if ucs.len() == 0 {
        assert(prefiltered(ucs, a) =~= Seq::<Seq<i32>>::empty());
    } else {
        let n = ucs.len() as int;
        let rest = ucs.drop_last();
        let u = ucs.last();
        let bu = b.union(lit_set(u));
        assert(forall|j: int| 0 <= j < n - 1 ==> rest[j] == ucs[j]);
        lemma_tier_prefix(nodes, ucs, rest, n - 1, k, b);
        lemma_tier_prefix(nodes, ucs, rest, n - 1, k - 1, bu);
        lemma_prefilter_tier(nodes, rest, a, k, b);
        if contradicts(u, a) {
            let j = choose|j: int| 0 <= j < a.len() && in_lits(u, -(#[trigger] a[j] as int));
            let l = a[j] as int;
            let v = crate::ccg::var_of(a[j]);
            assert(in_lits(a, l));
            assert(lit_set(a).contains(l));
            assert(lit_set(u).contains(-l));
            assert(bu.contains(v) && bu.contains(-v));
            crate::ccg::lemma_contradiction_collapse(nodes, bu, v, nodes.len() - 1);
            lemma_tier_zero_of_base(nodes, rest, rest.len() as int, k - 1, bu, bu);
            assert(prefiltered(ucs, a) == prefiltered(rest, a));
        } else {
            lemma_prefilter_tier(nodes, rest, a, k - 1, bu);
            let pf = prefiltered(ucs, a);
            assert(pf == prefiltered(rest, a).push(u));
            let m = pf.len() as int;
            assert(pf[m - 1] == u);
            assert(tier(nodes, pf, m, k, b) == tier(nodes, pf, m - 1, k, b) + tier(
                nodes,
                pf,
                m - 1,
                k - 1,
                b.union(lit_set(pf[m - 1])),
            ));
            assert(forall|q: int| 0 <= q < m - 1 ==> pf[q] == prefiltered(rest, a)[q]);
            lemma_tier_prefix(nodes, pf, prefiltered(rest, a), m - 1, k, b);
            lemma_tier_prefix(nodes, pf, prefiltered(rest, a), m - 1, k - 1, bu);
        }
    }
}

/// Pre-filter neutrality at every depth: the truncated counts over the full
/// and the filtered route lists agree tier for tier.
pub proof fn lemma_prefilter_neutral_at_depth(
    nodes: Seq<CcgNode>,
    ucs: Seq<Seq<i32>>,
    a: Seq<i32>,
    b: Set<int>,
    d: int,
)
    requires
        forall|q: int| 0 <= q < nodes.len() ==> crate::ccg::node_wf(nodes, q),
        lit_set(a).subset_of(b),
        smooth_for_assumptions(nodes, a),
        0 <= d,
    ensures
        alt_sum(nodes, ucs, ucs.len() as int, d, b) == alt_sum(
            nodes,
            prefiltered(ucs, a),
            prefiltered(ucs, a).len() as int,
            d,
            b,
        ),
    decreases d,
{
    lemma_prefilter_tier(nodes, ucs, a, if d <= 0 { 0 } else { d }, b);
    if d > 0 {
        lemma_prefilter_neutral_at_depth(nodes, ucs, a, b, d - 1);
    }
}

/// The two counters agree: at every requested depth, what the filtering
/// counter returns is exactly what the plain counter returns, given the
/// graph is smooth for, and mentions, each assumed variable.
pub proof fn lemma_prefilter_counters_agree(
    nodes: Seq<CcgNode>,
    ucs: Seq<Seq<i32>>,
    a: Seq<i32>,
    depth: int,
)
    requires
        forall|q: int| 0 <= q < nodes.len() ==> crate::ccg::node_wf(nodes, q),
        smooth_for_assumptions(nodes, a),
        0 <= depth,
    ensures
        alt_sum(nodes, ucs, ucs.len() as int, eff_depth(depth, ucs.len() as int), lit_set(a))
            == alt_sum(
            nodes,
            prefiltered(ucs, a),
            prefiltered(ucs, a).len() as int,
            eff_depth(depth, prefiltered(ucs, a).len() as int),
            lit_set(a),
        ),
{
    let b = lit_set(a);
    let n = ucs.len() as int;
    let pf = prefiltered(ucs, a);
    let m = pf.len() as int;
    let dn = eff_depth(depth, n);
    let dm = eff_depth(depth, m);
    lemma_prefiltered_shorter(ucs, a);
    lemma_prefilter_neutral_at_depth(nodes, ucs, a, b, dn);
    if dn != dm {
        // then the requested depth reaches past the filtered list, whose
        // alternating sum is flat from its length on
        lemma_alt_flat(nodes, pf, m, dn, b);
    }
}

/// The filter never lengthens the list.
proof fn lemma_prefiltered_shorter(ucs: Seq<Seq<i32>>, a: Seq<i32>)
    ensures
        prefiltered(ucs, a).len() <= ucs.len(),
    decreases ucs.len(),
{
    if ucs.len() > 0 {
        lemma_prefiltered_shorter(ucs.drop_last(), a);
    }
}

} // verus!
