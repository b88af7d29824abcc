//! The counting-graph model and its evaluator.
//!
//! A counting graph is a topologically ordered array of nodes: signed-literal
//! leaves carrying a precomputed count, and And/Or gates whose children are
//! indices of earlier nodes. Evaluation under a set of assumed literals is a
//! single bottom-up sweep: a leaf yields its count unless the assumptions
//! contain the negation of its literal, an And gate multiplies its children's
//! results, an Or gate adds them.

use vstd::prelude::*;

use crate::num::Count;
use crate::toks::{spec_i32, spec_usize, parse_i32_tok, parse_usize_tok, tok_views};

verus! {

/// One node of a counting graph.
#[derive(Debug, Clone)]
pub enum CcgNode {
    /// A signed literal with its precomputed count.
    Leaf { lit: i32, val: i32 },
    /// Conjunction: the counts of the children multiply.
    And { children: Vec<usize> },
    /// Disjunction: the counts of the children add.
    Or { children: Vec<usize> },
}

/// A single node is well formed at position `i`: leaves carry a negatable,
/// non-zero literal and a non-negative count; gates are non-empty and all
/// their children stand strictly earlier in the array.
pub open spec fn node_wf(nodes: Seq<CcgNode>, i: int) -> bool {
    match nodes[i] {
        CcgNode::Leaf { lit, val } => lit != 0 && lit != i32::MIN && val >= 0,
        CcgNode::And { children } => children@.len() > 0 && (forall|j: int|
            0 <= j < children@.len() ==> (#[trigger] children@[j] as int) < i),
        CcgNode::Or { children } => children@.len() > 0 && (forall|j: int|
            0 <= j < children@.len() ==> (#[trigger] children@[j] as int) < i),
    }
}

/// The whole graph is well formed and non-empty; the last node is the root.
pub open spec fn ccg_wf(nodes: Seq<CcgNode>) -> bool {
    nodes.len() > 0 && (forall|i: int| 0 <= i < nodes.len() ==> node_wf(nodes, i))
}

/// Whether the literal `x` occurs in the assumption list `a`.
pub open spec fn in_lits(a: Seq<i32>, x: int) -> bool {
    exists|j: int| 0 <= j < a.len() && a[j] as int == x
}

/// The set of literals that an assumption list denotes: order and
/// multiplicity are immaterial.
pub open spec fn lit_set(a: Seq<i32>) -> Set<int> {
    Set::new(|x: int| in_lits(a, x))
}

/// The count of node `i` under the assumed literals `a`.
pub open spec fn eval_node(nodes: Seq<CcgNode>, a: Set<int>, i: int) -> int
    decreases i, 1int, 0int,
{
    if 0 <= i < nodes.len() {
        match nodes[i] {
            CcgNode::Leaf { lit, val } => if a.contains(-(lit as int)) {
                0
            } else {
                val as int
            },
            CcgNode::And { children } => eval_prod(nodes, a, children@, i),
            CcgNode::Or { children } => eval_sum(nodes, a, children@, i),
        }
    } else {
        0
    }
}

/// Product of the counts of the child indices `cs`, all below the parent `i`.
pub open spec fn eval_prod(nodes: Seq<CcgNode>, a: Set<int>, cs: Seq<usize>, i: int) -> int
    decreases i, 0int, cs.len(),
{
    if cs.len() == 0 {
        1
    } else {
        (if (cs[0] as int) < i {
            eval_node(nodes, a, cs[0] as int)
        } else {
            0
        }) * eval_prod(nodes, a, cs.drop_first(), i)
    }
}

/// Sum of the counts of the child indices `cs`, all below the parent `i`.
pub open spec fn eval_sum(nodes: Seq<CcgNode>, a: Set<int>, cs: Seq<usize>, i: int) -> int
    decreases i, 0int, cs.len(),
{
    if cs.len() == 0 {
        0
    } else {
        (if (cs[0] as int) < i {
            eval_node(nodes, a, cs[0] as int)
        } else {
            0
        }) + eval_sum(nodes, a, cs.drop_first(), i)
    }
}

/// The count of the whole graph: the root is the last node.
pub open spec fn eval_ccg(nodes: Seq<CcgNode>, a: Set<int>) -> int {
    eval_node(nodes, a, nodes.len() - 1)
}

/// Appending a child on the right multiplies the product by that child's count.
pub proof fn lemma_prod_push(nodes: Seq<CcgNode>, a: Set<int>, cs: Seq<usize>, x: usize, i: int)
    ensures
        eval_prod(nodes, a, cs.push(x), i) == eval_prod(nodes, a, cs, i) * (if (x as int) < i {
            eval_node(nodes, a, x as int)
        } else {
            0
        }),
    decreases cs.len(),
{
    let ex = if (x as int) < i {
        eval_node(nodes, a, x as int)
    } else {
        0
    };
    if cs.len() == 0 {
        assert(cs.push(x).drop_first() =~= Seq::<usize>::empty());
        assert(eval_prod(nodes, a, cs.push(x), i) == (if (cs.push(x)[0] as int) < i {
            eval_node(nodes, a, cs.push(x)[0] as int)
        } else {
            0
        }) * eval_prod(nodes, a, cs.push(x).drop_first(), i));
        assert(ex * 1 == 1 * ex) by {
            vstd::arithmetic::mul::lemma_mul_is_commutative(ex, 1);
        }
    } else {
        assert(cs.push(x)[0] == cs[0]);
        assert(cs.push(x).drop_first() =~= cs.drop_first().push(x));
        assert(eval_prod(nodes, a, cs.push(x), i) == (if (cs.push(x)[0] as int) < i {
            eval_node(nodes, a, cs.push(x)[0] as int)
        } else {
            0
        }) * eval_prod(nodes, a, cs.push(x).drop_first(), i));
        lemma_prod_push(nodes, a, cs.drop_first(), x, i);
        let e0 = if (cs[0] as int) < i {
            eval_node(nodes, a, cs[0] as int)
        } else {
            0
        };
        let rest = eval_prod(nodes, a, cs.drop_first(), i);
        assert(e0 * (rest * ex) == (e0 * rest) * ex) by {
            vstd::arithmetic::mul::lemma_mul_is_associative(e0, rest, ex);
        }
    }
}

/// Appending a child on the right adds that child's count to the sum.
pub proof fn lemma_sum_push(nodes: Seq<CcgNode>, a: Set<int>, cs: Seq<usize>, x: usize, i: int)
    ensures
        eval_sum(nodes, a, cs.push(x), i) == eval_sum(nodes, a, cs, i) + (if (x as int) < i {
            eval_node(nodes, a, x as int)
        } else {
            0
        }),
    decreases cs.len(),
{
    if cs.len() == 0 {
        assert(cs.push(x).drop_first() =~= Seq::<usize>::empty());
        assert(cs.push(x).len() == 1);
        assert(cs.push(x)[0] == x);
        assert(eval_sum(nodes, a, cs.push(x), i) == (if (cs.push(x)[0] as int) < i {
            eval_node(nodes, a, cs.push(x)[0] as int)
        } else {
            0
        }) + eval_sum(nodes, a, cs.push(x).drop_first(), i));
        assert(eval_sum(nodes, a, cs.push(x).drop_first(), i) == 0);
        assert(eval_sum(nodes, a, cs, i) == 0);
    } else {
        assert(cs.push(x)[0] == cs[0]);
        assert(cs.push(x).drop_first() =~= cs.drop_first().push(x));
        lemma_sum_push(nodes, a, cs.drop_first(), x, i);
        assert(eval_sum(nodes, a, cs.push(x), i) == (if (cs.push(x)[0] as int) < i {
            eval_node(nodes, a, cs.push(x)[0] as int)
        } else {
            0
        }) + eval_sum(nodes, a, cs.push(x).drop_first(), i));
    }
}

/// Every count a well-formed graph yields is non-negative, whatever the
/// assumptions.
pub proof fn lemma_eval_nonneg(nodes: Seq<CcgNode>, a: Set<int>, i: int)
    requires
        forall|j: int| 0 <= j < nodes.len() ==> node_wf(nodes, j),
    ensures
        eval_node(nodes, a, i) >= 0,
    decreases i, 1int, 0int,
{
    if 0 <= i < nodes.len() {
        assert(node_wf(nodes, i));
        match nodes[i] {
            CcgNode::Leaf { lit, val } => {}
            CcgNode::And { children } => {
                lemma_prod_nonneg(nodes, a, children@, i);
            }
            CcgNode::Or { children } => {
                lemma_sum_nonneg(nodes, a, children@, i);
            }
        }
    }
}

proof fn lemma_prod_nonneg(nodes: Seq<CcgNode>, a: Set<int>, cs: Seq<usize>, i: int)
    requires
        forall|j: int| 0 <= j < nodes.len() ==> node_wf(nodes, j),
    ensures
        eval_prod(nodes, a, cs, i) >= 0,
    decreases i, 0int, cs.len(),
{
    if cs.len() > 0 {
        let e0 = if (cs[0] as int) < i {
            eval_node(nodes, a, cs[0] as int)
        } else {
            0
        };
        if (cs[0] as int) < i {
            lemma_eval_nonneg(nodes, a, cs[0] as int);
        }
        lemma_prod_nonneg(nodes, a, cs.drop_first(), i);
        vstd::arithmetic::mul::lemma_mul_nonnegative(e0, eval_prod(nodes, a, cs.drop_first(), i));
    }
}

proof fn lemma_sum_nonneg(nodes: Seq<CcgNode>, a: Set<int>, cs: Seq<usize>, i: int)
    requires
        forall|j: int| 0 <= j < nodes.len() ==> node_wf(nodes, j),
    ensures
        eval_sum(nodes, a, cs, i) >= 0,
    decreases i, 0int, cs.len(),
{
    if cs.len() > 0 {
        if (cs[0] as int) < i {
            lemma_eval_nonneg(nodes, a, cs[0] as int);
        }
        lemma_sum_nonneg(nodes, a, cs.drop_first(), i);
    }
}

/// Whether `x` occurs in the vector of assumed literals.
pub fn contains_lit(a: &Vec<i32>, x: i32) -> (r: bool)
    ensures
        r == in_lits(a@, x as int),
{
    let mut k: usize = 0;
    while k < a.len()
        invariant
            0 <= k <= a@.len(),
            forall|j: int| 0 <= j < k ==> a@[j] != x,
        decreases a@.len() - k,
    {
        if a[k] == x {
            return true;
        }
        k += 1;
    }
    false
}

/// Bottom-up evaluation of a counting graph under assumptions: the count of
/// models (of the theory the graph encodes) compatible with the assumed
/// literals. Duplicate assumptions are immaterial; an assumption pair `l, -l`
/// zeroes every leaf over that variable.
pub fn count_on_ccg(nodes: &Vec<CcgNode>, assumptions: &Vec<i32>) -> (r: Count)
    requires
        ccg_wf(nodes@),
    ensures
        r@ == eval_ccg(nodes@, lit_set(assumptions@)),
        r@ >= 0,
{
    let ghost a = lit_set(assumptions@);
    let mut vals: Vec<Count> = Vec::new();
    let mut idx: usize = 0;
    while idx < nodes.len()
        invariant
            ccg_wf(nodes@),
            a == lit_set(assumptions@),
            idx <= nodes@.len(),
            vals@.len() == idx,
            forall|j: int| 0 <= j < idx ==> (#[trigger] vals@[j])@ == eval_node(nodes@, a, j),
        decreases nodes@.len() - idx,
    {
        assert(node_wf(nodes@, idx as int));
        let node_val: Count = match &nodes[idx] {
            CcgNode::Leaf { lit, val } => {
                if contains_lit(assumptions, -*lit) {
                    Count::from_i32(0)
                } else {
                    Count::from_i32(*val)
                }
            }
            CcgNode::And { children } => {
                let mut acc = Count::from_i32(1);
                let mut k: usize = 0;
                while k < children.len()
                    invariant
                        ccg_wf(nodes@),
                        idx < nodes@.len(),
                        nodes@[idx as int] matches CcgNode::And { children: cks } && cks@
                            == children@,
                        vals@.len() == idx,
                        forall|j: int| 0 <= j < idx ==> (#[trigger] vals@[j])@ == eval_node(
                            nodes@,
                            a,
                            j,
                        ),
                        k <= children@.len(),
                        acc@ == eval_prod(nodes@, a, children@.take(k as int), idx as int),
                    decreases children@.len() - k,
                {
                    let c = children[k];
                    assert(node_wf(nodes@, idx as int));
                    assert((children@[k as int] as int) < idx as int);
                    acc = acc.times(&vals[c]);
                    proof {
                        lemma_prod_push(nodes@, a, children@.take(k as int), c, idx as int);
                        assert(children@.take(k as int).push(c) =~= children@.take(k as int + 1));
                    }
                    k += 1;
                }
                proof {
                    assert(children@.take(children@.len() as int) =~= children@);
                }
                acc
            }
            CcgNode::Or { children } => {
                let mut acc = Count::from_i32(0);
                let mut k: usize = 0;
                while k < children.len()
                    invariant
                        ccg_wf(nodes@),
                        idx < nodes@.len(),
                        nodes@[idx as int] matches CcgNode::Or { children: cks } && cks@
                            == children@,
                        vals@.len() == idx,
                        forall|j: int| 0 <= j < idx ==> (#[trigger] vals@[j])@ == eval_node(
                            nodes@,
                            a,
                            j,
                        ),
                        k <= children@.len(),
                        acc@ == eval_sum(nodes@, a, children@.take(k as int), idx as int),
                    decreases children@.len() - k,
                {
                    let c = children[k];
                    assert(node_wf(nodes@, idx as int));
                    assert((children@[k as int] as int) < idx as int);
                    acc = acc.plus(&vals[c]);
                    proof {
                        lemma_sum_push(nodes@, a, children@.take(k as int), c, idx as int);
                        assert(children@.take(k as int).push(c) =~= children@.take(k as int + 1));
                    }
                    k += 1;
                }
                proof {
                    assert(children@.take(children@.len() as int) =~= children@);
                }
                acc
            }
        };
        vals.push(node_val);
        idx += 1;
    }
    let r = vals[nodes.len() - 1].dup();
    proof {
        lemma_eval_nonneg(nodes@, a, nodes@.len() - 1);
    }
    r
}

/// The two gate marks of the text format: a star means conjunction, a plus
/// means disjunction.
pub open spec fn star_tok() -> Seq<u8> {
    seq![42u8]
}

pub open spec fn plus_tok() -> Seq<u8> {
    seq![43u8]
}

/// The tokens of a gate line after the mark: a child count, that many child
/// indices (each below the node's own index `i`), and, tolerated, trailing
/// tokens such as a precomputed value.
pub open spec fn gate_children_match(toks: Seq<Seq<u8>>, i: int, cs: Seq<usize>) -> bool {
    &&& toks.len() >= 2
    &&& (spec_usize(toks[1]) matches Some(m) && cs.len() == m)
    &&& cs.len() >= 1
    &&& toks.len() >= 2 + cs.len()
    &&& forall|k: int|
        0 <= k < cs.len() ==> (spec_usize(toks[2 + k]) == Some(#[trigger] cs[k]) && (cs[k] as int)
            < i)
}

/// Which node the tokens of one node line denote, for the node standing at
/// index `i`. Leaf lines are `<literal> <value>`; gate lines are
/// `<mark> <m> <child_0> .. <child_m-1>`; trailing tokens are tolerated.
pub open spec fn node_matches(toks: Seq<Seq<u8>>, i: int, n: CcgNode) -> bool {
    match n {
        CcgNode::Leaf { lit, val } => {
            &&& toks.len() >= 2
            &&& toks[0] != star_tok() && toks[0] != plus_tok()
            &&& spec_i32(toks[0]) == Some(lit)
            &&& lit != 0 && lit != i32::MIN
            &&& spec_i32(toks[1]) == Some(val)
            &&& val >= 0
        },
        CcgNode::And { children } => toks[0] == star_tok() && gate_children_match(
            toks,
            i,
            children@,
        ),
        CcgNode::Or { children } => toks[0] == plus_tok() && gate_children_match(
            toks,
            i,
            children@,
        ),
    }
}

/// Whether one token is exactly the one-byte mark `b`.
pub fn tok_is_mark(tok: &Vec<u8>, b: u8) -> (r: bool)
    ensures
        r == (tok@ == seq![b]),
{
    if tok.len() == 1 && tok[0] == b {
        proof {
            assert(tok@ =~= seq![b]);
        }
        true
    } else {
        proof {
            if tok@.len() == 1 {
                assert(tok@[0] != seq![b][0]);
            }
        }
        false
    }
}

/// Parses the children part of a gate line.
fn parse_gate_children(toks: &Vec<Vec<u8>>, i: usize) -> (r: Option<Vec<usize>>)
    ensures
        r matches Some(cs) ==> gate_children_match(tok_views(toks@), i as int, cs@),
        r is None ==> (forall|cs: Seq<usize>| !gate_children_match(tok_views(toks@), i as int, cs)),
{
    let ghost tv = tok_views(toks@);
    if toks.len() < 2 {
        return None;
    }
    let m: usize = match parse_usize_tok(toks[1].as_slice()) {
        Some(m) => m,
        None => {
            return None;
        },
    };
    if m == 0 {
        return None;
    }
    let ntoks: usize = toks.len();
    if ntoks < 2 || m > ntoks - 2 {
        assert(forall|cs: Seq<usize>| gate_children_match(tv, i as int, cs) ==> cs.len() == m);
        return None;
    }
    let mut cs: Vec<usize> = Vec::new();
    let mut k: usize = 0;
    while k < m
        invariant
            tv == tok_views(toks@),
            spec_usize(tv[1]) == Some(m),
            m >= 1,
            ntoks == toks@.len(),
            2 + m <= ntoks,
            k <= m,
            cs@.len() == k,
            forall|q: int|
                0 <= q < k ==> (spec_usize(tv[2 + q]) == Some(#[trigger] cs@[q]) && (cs@[q] as int)
                    < i as int),
        decreases m - k,
    {
        match parse_usize_tok(toks[2 + k].as_slice()) {
            Some(c) => {
                if c >= i {
                    assert(forall|cs2: Seq<usize>|
                        gate_children_match(tv, i as int, cs2) ==> ((cs2[k as int] as int)
                            < i as int && spec_usize(tv[2 + k]) == Some(cs2[k as int])));
                    return None;
                }
                cs.push(c);
            },
            None => {
                assert(forall|cs2: Seq<usize>|
                    gate_children_match(tv, i as int, cs2) ==> spec_usize(tv[2 + k]) == Some(
                        cs2[k as int],
                    ));
                return None;
            },
        }
        k += 1;
    }
    Some(cs)
}

/// Parses one node line for the node at index `i`; `None` exactly when no
/// node fits the line.
pub fn parse_node(toks: &Vec<Vec<u8>>, i: usize) -> (r: Option<CcgNode>)
    ensures
        r matches Some(n) ==> node_matches(tok_views(toks@), i as int, n),
        r is None ==> (forall|n: CcgNode| !node_matches(tok_views(toks@), i as int, n)),
{
    let ghost tv = tok_views(toks@);
    if toks.len() == 0 {
        return None;
    }
    let star = tok_is_mark(&toks[0], 42);
    let plus = tok_is_mark(&toks[0], 43);
    if star || plus {
        match parse_gate_children(toks, i) {
            Some(cs) => {
                if star {
                    Some(CcgNode::And { children: cs })
                } else {
                    Some(CcgNode::Or { children: cs })
                }
            },
            None => None,
        }
    } else {
        if toks.len() < 2 {
            return None;
        }
        let lit: i32 = match parse_i32_tok(toks[0].as_slice()) {
            Some(v) => v,
            None => {
                return None;
            },
        };
        if lit == 0 || lit == i32::MIN {
            return None;
        }
        let val: i32 = match parse_i32_tok(toks[1].as_slice()) {
            Some(v) => v,
            None => {
                return None;
            },
        };
        if val < 0 {
            return None;
        }
        Some(CcgNode::Leaf { lit, val })
    }
}

/// Whether the node lines `tls[start..]` denote a well-formed graph.
pub open spec fn node_lines_ok(tls: Seq<Seq<Seq<u8>>>, start: int) -> bool {
    &&& start < tls.len()
    &&& forall|j: int|
        start <= j < tls.len() ==> exists|n: CcgNode| #[trigger] node_matches(
            #[trigger] tls[j],
            j - start,
            n,
        )
}

/// Parses the node lines `lines[start..]` into a graph; `None` exactly when
/// there is no node line, or some line denotes no node.
pub fn parse_ccg_nodes(lines: &Vec<Vec<Vec<u8>>>, start: usize) -> (r: Option<Vec<CcgNode>>)
    requires
        start <= lines@.len(),
    ensures
        r matches Some(nodes) ==> {
            &&& ccg_wf(nodes@)
            &&& nodes@.len() == lines@.len() - start
            &&& forall|j: int|
                0 <= j < nodes@.len() ==> node_matches(
                    crate::toks::line_views(lines@)[start + j],
                    j,
                    #[trigger] nodes@[j],
                )
        },
        r is None ==> !node_lines_ok(crate::toks::line_views(lines@), start as int),
{
    let ghost lv = crate::toks::line_views(lines@);
    if start >= lines.len() {
        return None;
    }
    let mut nodes: Vec<CcgNode> = Vec::new();
    let mut j: usize = 0;
    while j < lines.len() - start
        invariant
            start < lines@.len(),
            lv == crate::toks::line_views(lines@),
            j <= lines@.len() - start,
            nodes@.len() == j,
            forall|q: int|
                0 <= q < j ==> node_matches(lv[start + q], q, #[trigger] nodes@[q]),
            forall|q: int| 0 <= q < j ==> node_wf(nodes@, q),
        decreases lines@.len() - start - j,
    {
        let ghost old_nodes = nodes@;
        match parse_node(&lines[start + j], j) {
            Some(n) => {
                proof {
                    assert(tok_views(lines@[start + j]@) == lv[start + j]);
                    assert(node_matches(lv[start + j], j as int, n));
                }
                nodes.push(n);
                proof {
                    assert(forall|q: int| 0 <= q < j ==> old_nodes[q] == nodes@[q]);
                    assert(forall|q: int| 0 <= q < j ==> node_wf(old_nodes, q) ==> node_wf(
                        nodes@,
                        q,
                    ));
                    assert(node_wf(nodes@, j as int));
                }
            },
            None => {
                proof {
                    assert(tok_views(lines@[start + j]@) == lv[start + j]);
                    assert(forall|n: CcgNode| !(#[trigger] node_matches(lv[start + j], j as int, n)));
                }
                return None;
            },
        }
        j += 1;
    }
    Some(nodes)
}

/// Concatenating assumption lists unions the literal sets they denote.
pub proof fn lemma_lit_set_concat(a: Seq<i32>, b: Seq<i32>)
    ensures
        lit_set(a + b) == lit_set(a).union(lit_set(b)),
{
    assert forall|x: int| #[trigger]
        lit_set(a + b).contains(x) implies lit_set(a).union(lit_set(b)).contains(x) by {
        let j = choose|j: int| 0 <= j < (a + b).len() && (a + b)[j] as int == x;
        if j < a.len() {
            assert(a[j] == (a + b)[j]);
            assert(in_lits(a, x));
        } else {
            assert(b[j - a.len()] == (a + b)[j]);
            assert(in_lits(b, x));
        }
    }
    assert forall|x: int| #[trigger]
        lit_set(a).union(lit_set(b)).contains(x) implies lit_set(a + b).contains(x) by {
        if in_lits(a, x) {
            let j = choose|j: int| 0 <= j < a.len() && a[j] as int == x;
            assert((a + b)[j] == a[j]);
            assert(in_lits(a + b, x));
        } else {
            let j = choose|j: int| 0 <= j < b.len() && b[j] as int == x;
            assert((a + b)[a.len() + j] == b[j]);
            assert(in_lits(a + b, x));
        }
    }
    assert(lit_set(a + b) =~= lit_set(a).union(lit_set(b)));
}

/// Assuming more literals can only lower a count: evaluation is anti-monotone
/// in the assumption set.
pub proof fn lemma_eval_antimono(nodes: Seq<CcgNode>, a: Set<int>, b: Set<int>, i: int)
    requires
        forall|j: int| 0 <= j < nodes.len() ==> node_wf(nodes, j),
        a.subset_of(b),
    ensures
        eval_node(nodes, b, i) <= eval_node(nodes, a, i),
    decreases i, 1int, 0int,
{
    if 0 <= i < nodes.len() {
        assert(node_wf(nodes, i));
        match nodes[i] {
            CcgNode::Leaf { lit, val } => {
                if a.contains(-(lit as int)) {
                    assert(b.contains(-(lit as int)));
                }
            }
            CcgNode::And { children } => {
                lemma_prod_antimono(nodes, a, b, children@, i);
            }
            CcgNode::Or { children } => {
                lemma_sum_antimono(nodes, a, b, children@, i);
            }
        }
    }
}

proof fn lemma_prod_antimono(nodes: Seq<CcgNode>, a: Set<int>, b: Set<int>, cs: Seq<usize>, i: int)
    requires
        forall|j: int| 0 <= j < nodes.len() ==> node_wf(nodes, j),
        a.subset_of(b),
    ensures
        eval_prod(nodes, b, cs, i) <= eval_prod(nodes, a, cs, i),
    decreases i, 0int, cs.len(),
{
    if cs.len() > 0 {
        let fa = if (cs[0] as int) < i {
            eval_node(nodes, a, cs[0] as int)
        } else {
            0
        };
        let fb = if (cs[0] as int) < i {
            eval_node(nodes, b, cs[0] as int)
        } else {
            0
        };
        if (cs[0] as int) < i {
            lemma_eval_antimono(nodes, a, b, cs[0] as int);
            lemma_eval_nonneg(nodes, b, cs[0] as int);
        }
        lemma_prod_antimono(nodes, a, b, cs.drop_first(), i);
        lemma_prod_nonneg(nodes, b, cs.drop_first(), i);
        vstd::arithmetic::mul::lemma_mul_upper_bound(
            fb,
            fa,
            eval_prod(nodes, b, cs.drop_first(), i),
            eval_prod(nodes, a, cs.drop_first(), i),
        );
    }
}

proof fn lemma_sum_antimono(nodes: Seq<CcgNode>, a: Set<int>, b: Set<int>, cs: Seq<usize>, i: int)
    requires
        forall|j: int| 0 <= j < nodes.len() ==> node_wf(nodes, j),
        a.subset_of(b),
    ensures
        eval_sum(nodes, b, cs, i) <= eval_sum(nodes, a, cs, i),
    decreases i, 0int, cs.len(),
{
    if cs.len() > 0 {
        if (cs[0] as int) < i {
            lemma_eval_antimono(nodes, a, b, cs[0] as int);
        }
        lemma_sum_antimono(nodes, a, b, cs.drop_first(), i);
    }
}

/// The variable of a literal.
pub open spec fn var_of(lit: i32) -> int {
    if lit < 0 {
        -(lit as int)
    } else {
        lit as int
    }
}

/// Whether the variable `v` occurs in the subgraph rooted at node `i`.
pub open spec fn mentions(nodes: Seq<CcgNode>, i: int, v: int) -> bool
    decreases i, 1int, 0int,
{
    if 0 <= i < nodes.len() {
        match nodes[i] {
            CcgNode::Leaf { lit, val } => var_of(lit) == v,
            CcgNode::And { children } => any_mentions(nodes, children@, i, v),
            CcgNode::Or { children } => any_mentions(nodes, children@, i, v),
        }
    } else {
        false
    }
}

/// Whether any of the children `cs` (all below `i`) mentions `v`.
pub open spec fn any_mentions(nodes: Seq<CcgNode>, cs: Seq<usize>, i: int, v: int) -> bool
    decreases i, 0int, cs.len(),
{
    if cs.len() == 0 {
        false
    } else {
        (if (cs[0] as int) < i {
            mentions(nodes, cs[0] as int, v)
        } else {
            false
        }) || any_mentions(nodes, cs.drop_first(), i, v)
    }
}

/// An Or gate is smooth for `v` at `i`: where one of its children mentions
/// `v`, all of them do.
pub open spec fn or_smooth_at(nodes: Seq<CcgNode>, i: int, v: int) -> bool {
    match nodes[i] {
        CcgNode::Or { children } => any_mentions(nodes, children@, i, v) ==> (forall|k: int|
            0 <= k < children@.len() ==> ((#[trigger] children@[k] as int) < i && mentions(
                nodes,
                children@[k] as int,
                v,
            ))),
        _ => true,
    }
}

/// The graph is smooth for the variable `v`: every Or gate is.
pub open spec fn smooth_wrt(nodes: Seq<CcgNode>, v: int) -> bool {
    forall|i: int| 0 <= i < nodes.len() ==> #[trigger] or_smooth_at(nodes, i, v)
}

/// From a child list that mentions `v`, the index of one child that does.
proof fn lemma_any_mentions_index(nodes: Seq<CcgNode>, cs: Seq<usize>, i: int, v: int)
    requires
        any_mentions(nodes, cs, i, v),
    ensures
        exists|k: int|
            0 <= k < cs.len() && (#[trigger] cs[k] as int) < i && mentions(nodes, cs[k] as int, v),
    decreases cs.len(),
{
    if (cs[0] as int) < i && mentions(nodes, cs[0] as int, v) {
        assert(0 <= 0 < cs.len() && (cs[0] as int) < i && mentions(nodes, cs[0] as int, v));
    } else {
        lemma_any_mentions_index(nodes, cs.drop_first(), i, v);
        let k0 = choose|k: int|
            0 <= k < cs.drop_first().len() && (#[trigger] cs.drop_first()[k] as int) < i && mentions(
                nodes,
                cs.drop_first()[k] as int,
                v,
            );
        assert(cs[k0 + 1] == cs.drop_first()[k0]);
    }
}

/// A product with one zero factor is zero, the other factors being counts.
proof fn lemma_prod_zero_factor(
    nodes: Seq<CcgNode>,
    a: Set<int>,
    cs: Seq<usize>,
    i: int,
    k: int,
)
    requires
        0 <= k < cs.len(),
        (cs[k] as int) < i,
        eval_node(nodes, a, cs[k] as int) == 0,
    ensures
        eval_prod(nodes, a, cs, i) == 0,
    decreases cs.len(),
{
    let e0 = if (cs[0] as int) < i {
        eval_node(nodes, a, cs[0] as int)
    } else {
        0
    };
    let rest = eval_prod(nodes, a, cs.drop_first(), i);
    if k == 0 {
        assert(e0 * rest == 0) by {
            vstd::arithmetic::mul::lemma_mul_by_zero_is_zero(rest);
        }
    } else {
        assert(cs.drop_first()[k - 1] == cs[k]);
        lemma_prod_zero_factor(nodes, a, cs.drop_first(), i, k - 1);
        assert(e0 * 0 == 0) by {
            vstd::arithmetic::mul::lemma_mul_by_zero_is_zero(e0);
        }
    }
}

/// A sum of zero counts is zero.
proof fn lemma_sum_all_zero(nodes: Seq<CcgNode>, a: Set<int>, cs: Seq<usize>, i: int)
    requires
        forall|k: int|
            0 <= k < cs.len() ==> ((#[trigger] cs[k] as int) >= i || eval_node(
                nodes,
                a,
                cs[k] as int,
            ) == 0),
    ensures
        eval_sum(nodes, a, cs, i) == 0,
    decreases cs.len(),
{
    if cs.len() > 0 {
        assert(forall|k: int|
            0 <= k < cs.drop_first().len() ==> cs.drop_first()[k] == cs[k + 1]);
        lemma_sum_all_zero(nodes, a, cs.drop_first(), i);
    }
}

/// Contradiction collapse: under assumptions holding both `v` and `-v`, every
/// node that mentions `v` counts zero, provided the graph is smooth for `v`.
pub proof fn lemma_contradiction_collapse(
    nodes: Seq<CcgNode>,
    a: Set<int>,
    v: int,
    i: int,
)
    requires
        forall|j: int| 0 <= j < nodes.len() ==> node_wf(nodes, j),
        smooth_wrt(nodes, v),
        a.contains(v),
        a.contains(-v),
        mentions(nodes, i, v),
    ensures
        eval_node(nodes, a, i) == 0,
    decreases i, 1int, 0int,
{
    assert(node_wf(nodes, i));
    match nodes[i] {
        CcgNode::Leaf { lit, val } => {
            assert(a.contains(-(lit as int)));
        }
        CcgNode::And { children } => {
            lemma_any_mentions_index(nodes, children@, i, v);
            let k = choose|k: int|
                0 <= k < children@.len() && (#[trigger] children@[k] as int) < i && mentions(
                    nodes,
                    children@[k] as int,
                    v,
                );
            lemma_contradiction_collapse(nodes, a, v, children@[k] as int);
            lemma_prod_zero_factor(nodes, a, children@, i, k);
        }
        CcgNode::Or { children } => {
            assert(or_smooth_at(nodes, i, v));
            assert forall|k: int|
                0 <= k < children@.len() implies ((#[trigger] children@[k] as int) >= i
                || eval_node(nodes, a, children@[k] as int) == 0) by {
                lemma_contradiction_collapse(nodes, a, v, children@[k] as int);
            }
            lemma_sum_all_zero(nodes, a, children@, i);
        }
    }
}

/// Duplicate assumptions are immaterial: an assumption list joined with
/// itself denotes the same literal set, so every count agrees.
pub proof fn lemma_eval_duplicates(nodes: Seq<CcgNode>, a: Seq<i32>)
    ensures
        eval_ccg(nodes, lit_set(a + a)) == eval_ccg(nodes, lit_set(a)),
{
    lemma_lit_set_concat(a, a);
    assert(lit_set(a).union(lit_set(a)) =~= lit_set(a));
}

/// Splitting on a variable is subadditive: where the graph is smooth for `v`
/// and the assumptions decide `v` neither way, the counts under `v` and under
/// `-v` together stay below the undecided count; a node that does not mention
/// `v` does not see the split at all.
pub proof fn lemma_split_subadditive(nodes: Seq<CcgNode>, a: Set<int>, v: int, i: int)
    requires
        forall|j: int| 0 <= j < nodes.len() ==> node_wf(nodes, j),
        smooth_wrt(nodes, v),
        v > 0,
        !a.contains(v),
        !a.contains(-v),
    ensures
        mentions(nodes, i, v) ==> eval_node(nodes, a.insert(v), i) + eval_node(
            nodes,
            a.insert(-v),
            i,
        ) <= eval_node(nodes, a, i),
        !mentions(nodes, i, v) ==> eval_node(nodes, a.insert(v), i) == eval_node(nodes, a, i)
            && eval_node(nodes, a.insert(-v), i) == eval_node(nodes, a, i),
    decreases i, 1int, 0int,
{
    if 0 <= i < nodes.len() {
        assert(node_wf(nodes, i));
        match nodes[i] {
            CcgNode::Leaf { lit, val } => {
                if var_of(lit) == v {
                    assert(lit == v || -(lit as int) == v);
                } else {
                    assert(-(lit as int) != v && -(lit as int) != -v);
                }
            }
            CcgNode::And { children } => {
                lemma_split_prod(nodes, a, v, children@, i);
            }
            CcgNode::Or { children } => {
                assert(or_smooth_at(nodes, i, v));
                if any_mentions(nodes, children@, i, v) {
                    lemma_split_sum_all(nodes, a, v, children@, i);
                } else {
                    lemma_split_sum_none(nodes, a, v, children@, i);
                }
            }
        }
    }
}

/// The product case of the split: subadditive when some child mentions `v`,
/// untouched when none does.
proof fn lemma_split_prod(nodes: Seq<CcgNode>, a: Set<int>, v: int, cs: Seq<usize>, i: int)
    requires
        forall|j: int| 0 <= j < nodes.len() ==> node_wf(nodes, j),
        smooth_wrt(nodes, v),
        v > 0,
        !a.contains(v),
        !a.contains(-v),
    ensures
        any_mentions(nodes, cs, i, v) ==> eval_prod(nodes, a.insert(v), cs, i) + eval_prod(
            nodes,
            a.insert(-v),
            cs,
            i,
        ) <= eval_prod(nodes, a, cs, i),
        !any_mentions(nodes, cs, i, v) ==> eval_prod(nodes, a.insert(v), cs, i) == eval_prod(
            nodes,
            a,
            cs,
            i,
        ) && eval_prod(nodes, a.insert(-v), cs, i) == eval_prod(nodes, a, cs, i),
    decreases i, 0int, cs.len(),
{
    if cs.len() == 0 {
    } else {
        let c = cs[0] as int;
        let rest = cs.drop_first();
        let e = if c < i {
            eval_node(nodes, a, c)
        } else {
            0
        };
        let ep = if c < i {
            eval_node(nodes, a.insert(v), c)
        } else {
            0
        };
        let en = if c < i {
            eval_node(nodes, a.insert(-v), c)
        } else {
            0
        };
        let r = eval_prod(nodes, a, rest, i);
        let rp = eval_prod(nodes, a.insert(v), rest, i);
        let rn = eval_prod(nodes, a.insert(-v), rest, i);
        if c < i {
            lemma_split_subadditive(nodes, a, v, c);
            lemma_eval_nonneg(nodes, a, c);
            lemma_eval_nonneg(nodes, a.insert(v), c);
            lemma_eval_nonneg(nodes, a.insert(-v), c);
            assert(a.subset_of(a.insert(v)));
            assert(a.subset_of(a.insert(-v)));
            lemma_eval_antimono(nodes, a, a.insert(v), c);
            lemma_eval_antimono(nodes, a, a.insert(-v), c);
        }
        lemma_split_prod(nodes, a, v, rest, i);
        lemma_prod_nonneg(nodes, a, rest, i);
        lemma_prod_nonneg(nodes, a.insert(v), rest, i);
        lemma_prod_nonneg(nodes, a.insert(-v), rest, i);
        assert(a.subset_of(a.insert(v)));
        assert(a.subset_of(a.insert(-v)));
        lemma_prod_antimono(nodes, a, a.insert(v), rest, i);
        lemma_prod_antimono(nodes, a, a.insert(-v), rest, i);
        let c_mentions = c < i && mentions(nodes, c, v);
        if c_mentions {
            // ep + en <= e; rp, rn <= r
            assert(ep * rp <= ep * r) by {
                vstd::arithmetic::mul::lemma_mul_upper_bound(ep, ep, rp, r);
            }
            assert(en * rn <= en * r) by {
                vstd::arithmetic::mul::lemma_mul_upper_bound(en, en, rn, r);
            }
            assert((ep + en) * r == ep * r + en * r) by {
                vstd::arithmetic::mul::lemma_mul_is_distributive_add_other_way(r, ep, en);
            }
            assert((ep + en) * r <= e * r) by {
                vstd::arithmetic::mul::lemma_mul_inequality(ep + en, e, r);
            }
        } else {
            // ep == en == e
            if any_mentions(nodes, rest, i, v) {
                // rp + rn <= r
                assert(e * rp + e * rn == e * (rp + rn)) by {
                    vstd::arithmetic::mul::lemma_mul_is_distributive_add(e, rp, rn);
                }
                assert(e * (rp + rn) <= e * r) by {
                    vstd::arithmetic::mul::lemma_mul_upper_bound(e, e, rp + rn, r);
                }
            }
        }
    }
}

/// The sum case of the split when every child mentions `v` (a smooth Or).
proof fn lemma_split_sum_all(nodes: Seq<CcgNode>, a: Set<int>, v: int, cs: Seq<usize>, i: int)
    requires
        forall|j: int| 0 <= j < nodes.len() ==> node_wf(nodes, j),
        smooth_wrt(nodes, v),
        v > 0,
        !a.contains(v),
        !a.contains(-v),
        forall|k: int|
            0 <= k < cs.len() ==> ((#[trigger] cs[k] as int) < i && mentions(
                nodes,
                cs[k] as int,
                v,
            )),
    ensures
        eval_sum(nodes, a.insert(v), cs, i) + eval_sum(nodes, a.insert(-v), cs, i) <= eval_sum(
            nodes,
            a,
            cs,
            i,
        ),
    decreases i, 0int, cs.len(),
{
    if cs.len() > 0 {
        lemma_split_subadditive(nodes, a, v, cs[0] as int);
        assert(forall|k: int|
            0 <= k < cs.drop_first().len() ==> cs.drop_first()[k] == cs[k + 1]);
        lemma_split_sum_all(nodes, a, v, cs.drop_first(), i);
    }
}

/// The sum case of the split when no child mentions `v`.
proof fn lemma_split_sum_none(nodes: Seq<CcgNode>, a: Set<int>, v: int, cs: Seq<usize>, i: int)
    requires
        forall|j: int| 0 <= j < nodes.len() ==> node_wf(nodes, j),
        smooth_wrt(nodes, v),
        v > 0,
        !a.contains(v),
        !a.contains(-v),
        !any_mentions(nodes, cs, i, v),
    ensures
        eval_sum(nodes, a.insert(v), cs, i) == eval_sum(nodes, a, cs, i),
        eval_sum(nodes, a.insert(-v), cs, i) == eval_sum(nodes, a, cs, i),
    decreases i, 0int, cs.len(),
{
    if cs.len() > 0 {
        if (cs[0] as int) < i {
            lemma_split_subadditive(nodes, a, v, cs[0] as int);
        }
        lemma_split_sum_none(nodes, a, v, cs.drop_first(), i);
    }
}

/// Splitting the whole graph on an occurring variable: the counts under `v`
/// and under `-v` together never exceed the undecided count.
pub proof fn lemma_split_bound(nodes: Seq<CcgNode>, a: Set<int>, v: int)
    requires
        forall|j: int| 0 <= j < nodes.len() ==> node_wf(nodes, j),
        smooth_wrt(nodes, v),
        v > 0,
        !a.contains(v),
        !a.contains(-v),
        mentions(nodes, nodes.len() - 1, v),
    ensures
        eval_ccg(nodes, a.insert(v)) + eval_ccg(nodes, a.insert(-v)) <= eval_ccg(nodes, a),
{
    lemma_split_subadditive(nodes, a, v, nodes.len() - 1);
}

/// Evaluation reads only the nodes up to `i`: a prefix evaluates alike.
pub proof fn lemma_eval_take(nodes: Seq<CcgNode>, a: Set<int>, m: int, i: int)
    requires
        0 <= i < m <= nodes.len(),
    ensures
        eval_node(nodes.take(m), a, i) == eval_node(nodes, a, i),
    decreases i, 1int, 0int,
{
    assert(nodes.take(m)[i] == nodes[i]);
    match nodes[i] {
        CcgNode::Leaf { lit, val } => {}
        CcgNode::And { children } => {
            lemma_prod_take(nodes, a, m, children@, i);
        }
        CcgNode::Or { children } => {
            lemma_sum_take(nodes, a, m, children@, i);
        }
    }
}

pub proof fn lemma_prod_take(nodes: Seq<CcgNode>, a: Set<int>, m: int, cs: Seq<usize>, i: int)
    requires
        0 <= i <= m <= nodes.len(),
    ensures
        eval_prod(nodes.take(m), a, cs, i) == eval_prod(nodes, a, cs, i),
    decreases i, 0int, cs.len(),
{
    if cs.len() > 0 {
        if (cs[0] as int) < i {
            lemma_eval_take(nodes, a, m, cs[0] as int);
        }
        lemma_prod_take(nodes, a, m, cs.drop_first(), i);
    }
}

pub proof fn lemma_sum_take(nodes: Seq<CcgNode>, a: Set<int>, m: int, cs: Seq<usize>, i: int)
    requires
        0 <= i <= m <= nodes.len(),
    ensures
        eval_sum(nodes.take(m), a, cs, i) == eval_sum(nodes, a, cs, i),
    decreases i, 0int, cs.len(),
{
    if cs.len() > 0 {
        if (cs[0] as int) < i {
            lemma_eval_take(nodes, a, m, cs[0] as int);
        }
        lemma_sum_take(nodes, a, m, cs.drop_first(), i);
    }
}

/// The empty assumption list denotes the empty literal set.
pub proof fn lemma_lit_set_empty()
    ensures
        lit_set(Seq::<i32>::empty()) == Set::<int>::empty(),
{
    assert(lit_set(Seq::<i32>::empty()) =~= Set::<int>::empty());
}

} // verus!
