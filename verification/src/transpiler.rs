//! The transpiler: rewrites a parsed sd-DNNF into a compact counting graph.
//!
//! Literal leaves whose atom the companion CNF mapping does not know are
//! dropped; a surviving positive leaf of an atom the grounder does not
//! support carries value 0, every other surviving leaf value 1. Gates that
//! lose all their children disappear, gates left with one child pass through
//! to it (the root keeps its single child instead), and the surviving nodes
//! are renumbered densely. Evaluation is preserved: under every assumption
//! set the output counts exactly what the pruned input counts, and each
//! stored value is the evaluator's count under no assumptions.

use vstd::prelude::*;

use crate::ccg::{
    ccg_wf, contains_lit, eval_ccg, eval_node, eval_prod, eval_sum, in_lits, lemma_eval_take,
    node_wf, CcgNode,
};
use crate::num::Count;
use crate::toks::{spec_i32, spec_tokenize, tok_views, tokenize, line_views, parse_i32_tok};

verus! {

/// What can go wrong while transpiling.
#[derive(Debug, Clone)]
pub enum TranspilerError {
    /// The grounder failed; carried over from the caller's run of it.
    Clingo(String),
    /// Reading a companion file failed; carried over from the caller.
    Io(String),
    /// A header, node line or mapping entry is missing or malformed.
    Missing,
}

/// A transpiled counting graph: the nodes, their precomputed values, and the
/// header statistics (edge count and count of retained positive-literal
/// leaves).
pub struct Transpilation {
    pub nodes: Vec<CcgNode>,
    pub vals: Vec<Count>,
    pub n_edges: usize,
    pub n_new_vars: usize,
}

/// The total number of child edges of a graph.
pub open spec fn spec_edge_count(nodes: Seq<CcgNode>) -> int
    decreases nodes.len(),
{
    if nodes.len() == 0 {
        0
    } else {
        spec_edge_count(nodes.drop_last()) + match nodes.last() {
            CcgNode::Leaf { lit, val } => 0int,
            CcgNode::And { children } => children@.len() as int,
            CcgNode::Or { children } => children@.len() as int,
        }
    }
}

/// The number of positive-literal leaves of a graph.
pub open spec fn spec_new_var_count(nodes: Seq<CcgNode>) -> int
    decreases nodes.len(),
{
    if nodes.len() == 0 {
        0
    } else {
        spec_new_var_count(nodes.drop_last()) + match nodes.last() {
            CcgNode::Leaf { lit, val } => if lit > 0 {
                1int
            } else {
                0int
            },
            CcgNode::And { children } => 0int,
            CcgNode::Or { children } => 0int,
        }
    }
}

/// Whether a transpilation is sound on its own terms: a well-formed graph
/// whose stored values are exactly the evaluator's counts under no
/// assumptions, with its header statistics.
pub open spec fn transpilation_wf(t: Transpilation) -> bool {
    &&& ccg_wf(t.nodes@)
    &&& t.vals@.len() == t.nodes@.len()
    &&& forall|j: int|
        0 <= j < t.nodes@.len() ==> (#[trigger] t.vals@[j])@ == eval_node(
            t.nodes@,
            Set::empty(),
            j,
        )
    &&& t.n_edges == spec_edge_count(t.nodes@)
    &&& t.n_new_vars == spec_new_var_count(t.nodes@)
}

/// Whether a literal's atom is known to the logic program: the grounder
/// either supports it or reports it falsified (every CNF-mapped atom is one
/// or the other).
pub open spec fn leaf_known(sup: Seq<i32>, fal: Seq<i32>, lit: i32) -> bool {
    in_lits(sup, crate::ccg::var_of(lit)) || in_lits(fal, crate::ccg::var_of(lit))
}

/// The value a surviving leaf carries: 1, except that a positive occurrence
/// of an atom the grounder does not support counts 0, the atom being false.
pub open spec fn leaf_value(sup: Seq<i32>, lit: i32) -> int {
    if !in_lits(sup, crate::ccg::var_of(lit)) && lit > 0 {
        0
    } else {
        1
    }
}

/// Whether the node at `i` vanishes in the transpilation: a leaf over an
/// unknown atom, or a gate all of whose children vanish.
pub open spec fn pruned(nnf: Seq<CcgNode>, sup: Seq<i32>, fal: Seq<i32>, i: int) -> bool
    decreases i, 1int, 0int,
{
    if 0 <= i < nnf.len() {
        match nnf[i] {
            CcgNode::Leaf { lit, val } => !leaf_known(sup, fal, lit),
            CcgNode::And { children } => kept_count(nnf, sup, fal, children@, i) == 0,
            CcgNode::Or { children } => kept_count(nnf, sup, fal, children@, i) == 0,
        }
    } else {
        true
    }
}

/// How many of the children `cs` (all below `i`) survive.
pub open spec fn kept_count(nnf: Seq<CcgNode>, sup: Seq<i32>, fal: Seq<i32>, cs: Seq<usize>, i: int) -> int
    decreases i, 0int, cs.len(),
{
    if cs.len() == 0 {
        0
    } else {
        (if (cs[0] as int) < i && !pruned(nnf, sup, fal, cs[0] as int) {
            1int
        } else {
            0int
        }) + kept_count(nnf, sup, fal, cs.drop_first(), i)
    }
}

/// The count of node `i` after the pruning, under the assumed literals: a
/// vanished And child counts 1, a vanished Or child 0, a surviving leaf its
/// `leaf_value` unless the assumptions negate it.
pub open spec fn pr_val(nnf: Seq<CcgNode>, sup: Seq<i32>, fal: Seq<i32>, a: Set<int>, i: int) -> int
    decreases i, 1int, 0int,
{
    if 0 <= i < nnf.len() {
        match nnf[i] {
            CcgNode::Leaf { lit, val } => if a.contains(-(lit as int)) {
                0
            } else {
                leaf_value(sup, lit)
            },
            CcgNode::And { children } => pr_prod(nnf, sup, fal, a, children@, i),
            CcgNode::Or { children } => pr_sum(nnf, sup, fal, a, children@, i),
        }
    } else {
        0
    }
}

pub open spec fn pr_prod(nnf: Seq<CcgNode>, sup: Seq<i32>, fal: Seq<i32>, a: Set<int>, cs: Seq<usize>, i: int) -> int
    decreases i, 0int, cs.len(),
{
    if cs.len() == 0 {
        1
    } else {
        (if (cs[0] as int) < i && !pruned(nnf, sup, fal, cs[0] as int) {
            pr_val(nnf, sup, fal, a, cs[0] as int)
        } else {
            1
        }) * pr_prod(nnf, sup, fal, a, cs.drop_first(), i)
    }
}

pub open spec fn pr_sum(nnf: Seq<CcgNode>, sup: Seq<i32>, fal: Seq<i32>, a: Set<int>, cs: Seq<usize>, i: int) -> int
    decreases i, 0int, cs.len(),
{
    if cs.len() == 0 {
        0
    } else {
        (if (cs[0] as int) < i && !pruned(nnf, sup, fal, cs[0] as int) {
            pr_val(nnf, sup, fal, a, cs[0] as int)
        } else {
            0
        }) + pr_sum(nnf, sup, fal, a, cs.drop_first(), i)
    }
}

/// The edges that a gate at `j` contributes: its surviving children where
/// it is emitted (two or more survivors, or one survivor at the root).
pub open spec fn gate_edges(nnf: Seq<CcgNode>, sup: Seq<i32>, fal: Seq<i32>, cs: Seq<usize>, j: int) -> int {
    let kc = kept_count(nnf, sup, fal, cs, j);
    if kc >= 2 || (kc >= 1 && j == nnf.len() - 1) {
        kc
    } else {
        0
    }
}

/// The total number of edges the transpilation of the first `k` nodes emits.
pub open spec fn edge_total(nnf: Seq<CcgNode>, sup: Seq<i32>, fal: Seq<i32>, k: int) -> int
    decreases k,
{
    if k <= 0 {
        0
    } else {
        edge_total(nnf, sup, fal, k - 1) + match nnf[k - 1] {
            CcgNode::Leaf { lit, val } => 0int,
            CcgNode::And { children } => gate_edges(nnf, sup, fal, children@, k - 1),
            CcgNode::Or { children } => gate_edges(nnf, sup, fal, children@, k - 1),
        }
    }
}

/// The number of surviving positive-literal leaves among the first `k` nodes.
pub open spec fn newvar_total(nnf: Seq<CcgNode>, sup: Seq<i32>, fal: Seq<i32>, k: int) -> int
    decreases k,
{
    if k <= 0 {
        0
    } else {
        newvar_total(nnf, sup, fal, k - 1) + match nnf[k - 1] {
            CcgNode::Leaf { lit, val } => if leaf_known(sup, fal, lit) && lit > 0 {
                1int
            } else {
                0int
            },
            CcgNode::And { children } => 0int,
            CcgNode::Or { children } => 0int,
        }
    }
}

/// The new ids of the children that survive, read off the id map: dropped
/// children have the sentinel, pass-through children point at their
/// survivor, and only ids below `bound` are kept.
pub open spec fn kept_of(idm: Seq<usize>, cs: Seq<usize>, bound: int) -> Seq<usize>
    decreases cs.len(),
{
    if cs.len() == 0 {
        Seq::empty()
    } else {
        let rest = kept_of(idm, cs.drop_first(), bound);
        if (cs[0] as int) < idm.len() && idm[cs[0] as int] != usize::MAX && (idm[cs[0] as int] as int) < bound {
            seq![idm[cs[0] as int]] + rest
        } else {
            rest
        }
    }
}

/// Appending a child on the right appends its surviving id, if any.
proof fn lemma_kept_of_push(idm: Seq<usize>, cs: Seq<usize>, x: usize, bound: int)
    ensures
        kept_of(idm, cs.push(x), bound) == kept_of(idm, cs, bound) + (if (x as int) < idm.len()
            && idm[x as int] != usize::MAX && (idm[x as int] as int) < bound {
            seq![idm[x as int]]
        } else {
            Seq::empty()
        }),
    decreases cs.len(),
{
    let tail = if (x as int) < idm.len() && idm[x as int] != usize::MAX && (idm[x as int] as int)
        < bound {
        seq![idm[x as int]]
    } else {
        Seq::<usize>::empty()
    };
    if cs.len() == 0 {
        assert(cs.push(x).drop_first() =~= Seq::<usize>::empty());
        assert(cs.push(x)[0] == x);
        assert(kept_of(idm, Seq::<usize>::empty(), bound) =~= Seq::<usize>::empty());
        assert(kept_of(idm, cs, bound) =~= Seq::<usize>::empty());
        assert(kept_of(idm, cs.push(x), bound) =~= kept_of(idm, cs, bound) + tail);
    } else {
        assert(cs.push(x)[0] == cs[0]);
        assert(cs.push(x).drop_first() =~= cs.drop_first().push(x));
        lemma_kept_of_push(idm, cs.drop_first(), x, bound);
        if (cs[0] as int) < idm.len() && idm[cs[0] as int] != usize::MAX && (idm[cs[0] as int] as int) < bound {
            assert(seq![idm[cs[0] as int]] + (kept_of(idm, cs.drop_first(), bound) + tail) =~= (
            seq![idm[cs[0] as int]] + kept_of(idm, cs.drop_first(), bound)) + tail);
        }
    }
}

/// What the surviving ids mean: the product and sum of the output nodes they
/// name equal the pruned product and sum over the input children, and there
/// are exactly as many of them as surviving children. Holds whenever the id
/// map is faithful: sentinel exactly on pruned nodes, every other entry a
/// valid output id whose node evaluates to the pruned count.
proof fn lemma_kept_semantics(
    nnf: Seq<CcgNode>,
    sup: Seq<i32>,
    fal: Seq<i32>,
    out: Seq<CcgNode>,
    idm: Seq<usize>,
    cs: Seq<usize>,
    i: int,
    bound: int,
    a: Set<int>,
)
    requires
        bound == out.len(),
        forall|q: int| 0 <= q < idm.len() ==> ((#[trigger] idm[q]) == usize::MAX <==> pruned(
            nnf,
            sup,
            fal,
            q,
        )),
        forall|q: int| 0 <= q < idm.len() && idm[q] != usize::MAX ==> ((#[trigger] idm[q]) as int)
            < out.len(),
        forall|q: int, b: Set<int>|
            0 <= q < idm.len() && idm[q] != usize::MAX ==> #[trigger] eval_node(
                out,
                b,
                idm[q] as int,
            ) == pr_val(nnf, sup, fal, b, q),
        forall|k: int| 0 <= k < cs.len() ==> (#[trigger] cs[k] as int) < i,
        i <= idm.len(),
    ensures
        eval_prod(out, a, kept_of(idm, cs, bound), bound) == pr_prod(nnf, sup, fal, a, cs, i),
        eval_sum(out, a, kept_of(idm, cs, bound), bound) == pr_sum(nnf, sup, fal, a, cs, i),
        kept_of(idm, cs, bound).len() == kept_count(nnf, sup, fal, cs, i),
    decreases cs.len(),
{
    if cs.len() > 0 {
        let c = cs[0] as int;
        let rest = cs.drop_first();
        assert(forall|k: int| 0 <= k < rest.len() ==> rest[k] == cs[k + 1]);
        lemma_kept_semantics(nnf, sup, fal, out, idm, rest, i, bound, a);
        if idm[c] != usize::MAX {
            let x = idm[c];
            let cons = seq![x] + kept_of(idm, rest, bound);
            assert(kept_of(idm, cs, bound) == cons);
            assert(cons[0] == x);
            assert(cons.drop_first() =~= kept_of(idm, rest, bound));
            assert(eval_prod(out, a, cons, bound) == eval_node(out, a, x as int) * eval_prod(
                out,
                a,
                kept_of(idm, rest, bound),
                bound,
            ));
            assert(eval_node(out, a, x as int) == pr_val(nnf, sup, fal, a, c));
        } else {
            assert(pruned(nnf, sup, fal, c));
            assert(kept_of(idm, cs, bound) == kept_of(idm, rest, bound));
            assert(eval_prod(out, a, kept_of(idm, cs, bound), bound) == eval_prod(
                out,
                a,
                kept_of(idm, rest, bound),
                bound,
            ));
        }
    }
}

/// Rewrites the parsed sd-DNNF `nnf` into a counting graph. A leaf survives
/// exactly when the grounder supports or falsifies its atom; a surviving
/// leaf of a falsified atom keeps value 0 on its positive occurrences and 1
/// on its negative ones. Gates that lose every child vanish, a non-root gate
/// with one survivor passes through to it, and the root keeps a single
/// survivor as a unary gate. Evaluation is preserved: under every assumption
/// set the output graph counts what the pruned input counts. Fails exactly
/// when the whole input vanishes or a header statistic exceeds the machine's
/// integers.
pub fn transpile_nodes(nnf: &Vec<CcgNode>, supported: &Vec<i32>, falsified: &Vec<i32>) -> (r:
    Result<Transpilation, TranspilerError>)
    requires
        ccg_wf(nnf@),
    ensures
        r matches Ok(t) ==> {
            &&& transpilation_wf(t)
            &&& !pruned(nnf@, supported@, falsified@, nnf@.len() - 1)
            &&& forall|b: Set<int>| #[trigger] eval_ccg(t.nodes@, b) == pr_val(
                nnf@,
                supported@,
                falsified@,
                b,
                nnf@.len() - 1,
            )
            &&& forall|j: int|
                0 <= j < t.nodes@.len() ==> ((#[trigger] t.nodes@[j]) matches CcgNode::Leaf {
                    lit,
                    val,
                } ==> (leaf_known(supported@, falsified@, lit) && val as int == leaf_value(
                    supported@,
                    lit,
                )))
            &&& t.n_edges as int == edge_total(nnf@, supported@, falsified@, nnf@.len() as int)
            &&& t.n_new_vars as int == newvar_total(
                nnf@,
                supported@,
                falsified@,
                nnf@.len() as int,
            )
        },
        r is Err <==> (pruned(nnf@, supported@, falsified@, nnf@.len() - 1) || edge_total(
            nnf@,
            supported@,
            falsified@,
            nnf@.len() as int,
        ) > usize::MAX || newvar_total(nnf@, supported@, falsified@, nnf@.len() as int)
            > usize::MAX),
{
    let sentinel: usize = usize::MAX;
    let ghost supv = supported@;
    let ghost falv = falsified@;
    let n = nnf.len();
    let mut out_nodes: Vec<CcgNode> = Vec::new();
    let mut out_vals: Vec<Count> = Vec::new();
    let mut id_map: Vec<usize> = Vec::new();
    let mut i: usize = 0;
    while i < n
        invariant
            ccg_wf(nnf@),
            supv == supported@,
            falv == falsified@,
            n == nnf@.len(),
            sentinel == usize::MAX,
            i <= n,
            id_map@.len() == i,
            out_vals@.len() == out_nodes@.len(),
            out_nodes@.len() <= i,
            forall|q: int|
                0 <= q < i ==> ((#[trigger] id_map@[q]) == usize::MAX <==> pruned(
                    nnf@,
                    supv,
                    falv,
                    q,
                )),
            forall|q: int|
                0 <= q < i && id_map@[q] != usize::MAX ==> ((#[trigger] id_map@[q]) as int)
                    < out_nodes@.len(),
            forall|q: int, b: Set<int>|
                0 <= q < i && id_map@[q] != usize::MAX ==> #[trigger] eval_node(
                    out_nodes@,
                    b,
                    id_map@[q] as int,
                ) == pr_val(nnf@, supv, falv, b, q),
            forall|j: int| 0 <= j < out_nodes@.len() ==> node_wf(out_nodes@, j),
            forall|j: int|
                0 <= j < out_nodes@.len() ==> (#[trigger] out_vals@[j])@ == eval_node(
                    out_nodes@,
                    Set::empty(),
                    j,
                ),
            forall|j: int|
                0 <= j < out_nodes@.len() ==> ((#[trigger] out_nodes@[j]) matches CcgNode::Leaf {
                    lit,
                    val,
                } ==> (leaf_known(supv, falv, lit) && val as int == leaf_value(supv, lit))),
            spec_edge_count(out_nodes@) == edge_total(nnf@, supv, falv, i as int),
            spec_new_var_count(out_nodes@) == newvar_total(nnf@, supv, falv, i as int),
            i == n && n > 0 ==> (id_map@[n - 1] == usize::MAX || id_map@[n - 1] as int
                == out_nodes@.len() - 1),
        decreases n - i,
    {
        assert(node_wf(nnf@, i as int));
        let ghost old_out = out_nodes@;
        match &nnf[i] {
            CcgNode::Leaf { lit, val } => {
                let v: i32 = if *lit < 0 {
                    -*lit
                } else {
                    *lit
                };
                proof {
                    assert(v as int == crate::ccg::var_of(*lit));
                }
                let in_sup = contains_lit(supported, v);
                let in_fal = contains_lit(falsified, v);
                if in_sup || in_fal {
                    let lv: i32 = if in_sup {
                        1
                    } else if *lit > 0 {
                        0
                    } else {
                        1
                    };
                    proof {
                        assert(lv as int == leaf_value(supv, *lit));
                    }
                    let ghost idm0 = id_map@;
                    let new_id = out_nodes.len();
                    out_nodes.push(CcgNode::Leaf { lit: *lit, val: lv });
                    out_vals.push(Count::from_i32(lv));
                    id_map.push(new_id);
                    proof {
                        assert(out_nodes@.take(old_out.len() as int) =~= old_out);
                        assert forall|j: int, b: Set<int>|
                            0 <= j < old_out.len() implies eval_node(out_nodes@, b, j)
                            == eval_node(old_out, b, j) by {
                            lemma_eval_take(out_nodes@, b, old_out.len() as int, j);
                        }
                        assert forall|j: int| 0 <= j < out_nodes@.len() implies node_wf(
                            out_nodes@,
                            j,
                        ) by {
                            if j < old_out.len() {
                                assert(node_wf(old_out, j));
                                assert(out_nodes@[j] == old_out[j]);
                            } else {
                                assert(out_nodes@[j] == CcgNode::Leaf { lit: *lit, val: lv });
                            }
                        }
                        assert forall|b: Set<int>| #[trigger] eval_node(
                            out_nodes@,
                            b,
                            new_id as int,
                        ) == pr_val(nnf@, supv, falv, b, i as int) by {
                            assert(out_nodes@[new_id as int] == CcgNode::Leaf {
                                lit: *lit,
                                val: lv,
                            });
                        }
                        assert forall|q: int, b: Set<int>|
                            0 <= q < id_map@.len() && id_map@[q] != usize::MAX implies
                            #[trigger] eval_node(out_nodes@, b, id_map@[q] as int) == pr_val(
                            nnf@,
                            supv,
                            falv,
                            b,
                            q,
                        ) by {
                            if q < i as int {
                                assert(id_map@[q] == idm0[q]);
                                assert(eval_node(old_out, b, idm0[q] as int) == pr_val(
                                    nnf@,
                                    supv,
                                    falv,
                                    b,
                                    q,
                                ));
                                lemma_eval_take(out_nodes@, b, old_out.len() as int, id_map@[q] as int);
                            } else {
                                assert(eval_node(out_nodes@, b, new_id as int) == pr_val(
                                    nnf@,
                                    supv,
                                    falv,
                                    b,
                                    i as int,
                                ));
                            }
                        }
                        assert(out_nodes@.drop_last() =~= old_out);
                        assert(spec_edge_count(out_nodes@) == spec_edge_count(old_out));
                        assert(spec_new_var_count(out_nodes@) == spec_new_var_count(old_out) + (
                        if *lit > 0 {
                            1int
                        } else {
                            0int
                        }));
                    }
                } else {
                    id_map.push(sentinel);
                    proof {
                        assert(pruned(nnf@, supv, falv, i as int));
                    }
                }
            },
            CcgNode::And { children } => {
                let bound = out_nodes.len();
                let ghost idm0 = id_map@;
                let kept = keep_children(children, &id_map, bound, sentinel);
                proof {
                    assert(idm0.len() == i as int);
                    assert(forall|q: int|
                        0 <= q < idm0.len() ==> ((#[trigger] idm0[q]) == usize::MAX <==> pruned(
                            nnf@,
                            supv,
                            falv,
                            q,
                        )));
                    assert(forall|q: int|
                        0 <= q < idm0.len() && idm0[q] != usize::MAX ==> ((
                        #[trigger] idm0[q]) as int) < old_out.len());
                    assert(forall|q: int, b: Set<int>|
                        0 <= q < idm0.len() && idm0[q] != usize::MAX ==> #[trigger] eval_node(
                            old_out,
                            b,
                            idm0[q] as int,
                        ) == pr_val(nnf@, supv, falv, b, q));
                    lemma_kept_semantics(
                        nnf@,
                        supv,
                        falv,
                        old_out,
                        idm0,
                        children@,
                        i as int,
                        bound as int,
                        Set::empty(),
                    );
                }
                if kept.len() == 0 {
                    id_map.push(sentinel);
                    proof {
                        assert(kept_count(nnf@, supv, falv, children@, i as int) == 0);
                        assert(pruned(nnf@, supv, falv, i as int));
                    }
                } else if kept.len() == 1 && i != n - 1 {
                    let target = kept[0];
                    proof {
                        assert(kept_count(nnf@, supv, falv, children@, i as int) == 1);
                        assert(!pruned(nnf@, supv, falv, i as int));
                        assert forall|b: Set<int>| #[trigger] eval_node(
                            old_out,
                            b,
                            target as int,
                        ) == pr_val(nnf@, supv, falv, b, i as int) by {
                            lemma_kept_semantics(
                                nnf@,
                                supv,
                                falv,
                                old_out,
                                idm0,
                                children@,
                                i as int,
                                bound as int,
                                b,
                            );
                            let ks = kept_of(idm0, children@, bound as int);
                            assert(ks =~= seq![target]);
                            assert(ks.drop_first() =~= Seq::<usize>::empty());
                            assert((ks[0] as int) < bound as int);
                            assert(eval_prod(old_out, b, ks, bound as int) == eval_node(
                                old_out,
                                b,
                                ks[0] as int,
                            ) * eval_prod(old_out, b, ks.drop_first(), bound as int));
                            assert(eval_prod(old_out, b, ks, bound as int) == eval_node(
                                old_out,
                                b,
                                target as int,
                            ) * 1) by {
                                vstd::arithmetic::mul::lemma_mul_basics_3(
                                    eval_node(old_out, b, target as int),
                                );
                            }
                        }
                    }
                    id_map.push(target);
                } else {
                    let new_id = out_nodes.len();
                    let mut acc = Count::from_i32(1);
                    let mut k: usize = 0;
                    proof {
                        assert(kept@.take(0) =~= Seq::<usize>::empty());
                    }
                    while k < kept.len()
                        invariant
                            out_vals@.len() == out_nodes@.len(),
                            forall|j: int|
                                0 <= j < out_nodes@.len() ==> (#[trigger] out_vals@[j])@
                                    == eval_node(out_nodes@, Set::empty(), j),
                            new_id == out_nodes@.len(),
                            k <= kept@.len(),
                            forall|q: int|
                                0 <= q < kept@.len() ==> (#[trigger] kept@[q] as int)
                                    < out_nodes@.len(),
                            acc@ == eval_prod(
                                out_nodes@,
                                Set::empty(),
                                kept@.take(k as int),
                                new_id as int,
                            ),
                        decreases kept@.len() - k,
                    {
                        let c = kept[k];
                        acc = acc.times(&out_vals[c]);
                        proof {
                            crate::ccg::lemma_prod_push(
                                out_nodes@,
                                Set::empty(),
                                kept@.take(k as int),
                                c,
                                new_id as int,
                            );
                            assert(kept@.take(k as int).push(c) =~= kept@.take(k as int + 1));
                        }
                        k += 1;
                    }
                    proof {
                        assert(kept@.take(kept@.len() as int) =~= kept@);
                    }
                    let ghost kept_view = kept@;
                    out_nodes.push(CcgNode::And { children: kept });
                    out_vals.push(acc);
                    id_map.push(new_id);
                    proof {
                        assert(out_nodes@.take(old_out.len() as int) =~= old_out);
                        assert forall|j: int, b: Set<int>|
                            0 <= j < old_out.len() implies eval_node(out_nodes@, b, j)
                            == eval_node(old_out, b, j) by {
                            lemma_eval_take(out_nodes@, b, old_out.len() as int, j);
                        }
                        assert forall|j: int| 0 <= j < out_nodes@.len() implies node_wf(
                            out_nodes@,
                            j,
                        ) by {
                            if j < old_out.len() {
                                assert(node_wf(old_out, j));
                                assert(out_nodes@[j] == old_out[j]);
                            } else {
                                assert(out_nodes@[j] == CcgNode::And { children: kept });
                                assert(forall|q: int|
                                    0 <= q < kept_view.len() ==> (#[trigger] kept_view[q] as int)
                                        < new_id as int);
                            }
                        }
                        assert forall|b: Set<int>| #[trigger] eval_node(
                            out_nodes@,
                            b,
                            new_id as int,
                        ) == pr_val(nnf@, supv, falv, b, i as int) by {
                            assert(eval_node(out_nodes@, b, new_id as int) == eval_prod(
                                out_nodes@,
                                b,
                                kept_view,
                                new_id as int,
                            ));
                            crate::ccg::lemma_prod_take(
                                out_nodes@,
                                b,
                                old_out.len() as int,
                                kept_view,
                                new_id as int,
                            );
                            lemma_kept_semantics(
                                nnf@,
                                supv,
                                falv,
                                old_out,
                                idm0,
                                children@,
                                i as int,
                                bound as int,
                                b,
                            );
                            assert(kept_of(idm0, children@, bound as int) == kept_view);
                        }
                        assert(out_vals@[new_id as int]@ == eval_node(
                            out_nodes@,
                            Set::empty(),
                            new_id as int,
                        )) by {
                            crate::ccg::lemma_prod_take(
                                out_nodes@,
                                Set::empty(),
                                old_out.len() as int,
                                kept_view,
                                new_id as int,
                            );
                        }
                        assert forall|q: int, b: Set<int>|
                            0 <= q < id_map@.len() && id_map@[q] != usize::MAX implies
                            #[trigger] eval_node(out_nodes@, b, id_map@[q] as int) == pr_val(
                            nnf@,
                            supv,
                            falv,
                            b,
                            q,
                        ) by {
                            if q < i as int {
                                assert(id_map@[q] == idm0[q]);
                                assert(eval_node(old_out, b, idm0[q] as int) == pr_val(
                                    nnf@,
                                    supv,
                                    falv,
                                    b,
                                    q,
                                ));
                                lemma_eval_take(out_nodes@, b, old_out.len() as int, id_map@[q] as int);
                            } else {
                                assert(eval_node(out_nodes@, b, new_id as int) == pr_val(
                                    nnf@,
                                    supv,
                                    falv,
                                    b,
                                    i as int,
                                ));
                            }
                        }
                        assert(kept_count(nnf@, supv, falv, children@, i as int)
                            == kept_view.len());
                        assert(!pruned(nnf@, supv, falv, i as int));
                        assert(out_nodes@.drop_last() =~= old_out);
                        assert(spec_edge_count(out_nodes@) == spec_edge_count(old_out)
                            + kept_view.len());
                        assert(gate_edges(nnf@, supv, falv, children@, i as int)
                            == kept_view.len());
                        assert(spec_new_var_count(out_nodes@) == spec_new_var_count(old_out));
                    }
                }
            },
            CcgNode::Or { children } => {
                let bound = out_nodes.len();
                let ghost idm0 = id_map@;
                let kept = keep_children(children, &id_map, bound, sentinel);
                proof {
                    assert(idm0.len() == i as int);
                    assert(forall|q: int|
                        0 <= q < idm0.len() ==> ((#[trigger] idm0[q]) == usize::MAX <==> pruned(
                            nnf@,
                            supv,
                            falv,
                            q,
                        )));
                    assert(forall|q: int|
                        0 <= q < idm0.len() && idm0[q] != usize::MAX ==> ((
                        #[trigger] idm0[q]) as int) < old_out.len());
                    assert(forall|q: int, b: Set<int>|
                        0 <= q < idm0.len() && idm0[q] != usize::MAX ==> #[trigger] eval_node(
                            old_out,
                            b,
                            idm0[q] as int,
                        ) == pr_val(nnf@, supv, falv, b, q));
                    lemma_kept_semantics(
                        nnf@,
                        supv,
                        falv,
                        old_out,
                        idm0,
                        children@,
                        i as int,
                        bound as int,
                        Set::empty(),
                    );
                }
                if kept.len() == 0 {
                    id_map.push(sentinel);
                    proof {
                        assert(kept_count(nnf@, supv, falv, children@, i as int) == 0);
                        assert(pruned(nnf@, supv, falv, i as int));
                    }
                } else if kept.len() == 1 && i != n - 1 {
                    let target = kept[0];
                    proof {
                        assert(kept_count(nnf@, supv, falv, children@, i as int) == 1);
                        assert(!pruned(nnf@, supv, falv, i as int));
                        assert forall|b: Set<int>| #[trigger] eval_node(
                            old_out,
                            b,
                            target as int,
                        ) == pr_val(nnf@, supv, falv, b, i as int) by {
                            lemma_kept_semantics(
                                nnf@,
                                supv,
                                falv,
                                old_out,
                                idm0,
                                children@,
                                i as int,
                                bound as int,
                                b,
                            );
                            let ks = kept_of(idm0, children@, bound as int);
                            assert(ks =~= seq![target]);
                            assert(ks.drop_first() =~= Seq::<usize>::empty());
                            assert((ks[0] as int) < bound as int);
                            assert(eval_sum(old_out, b, ks, bound as int) == eval_node(
                                old_out,
                                b,
                                ks[0] as int,
                            ) + eval_sum(old_out, b, ks.drop_first(), bound as int));
                        }
                    }
                    id_map.push(target);
                } else {
                    let new_id = out_nodes.len();
                    let mut acc = Count::from_i32(0);
                    let mut k: usize = 0;
                    proof {
                        assert(kept@.take(0) =~= Seq::<usize>::empty());
                    }
                    while k < kept.len()
                        invariant
                            out_vals@.len() == out_nodes@.len(),
                            forall|j: int|
                                0 <= j < out_nodes@.len() ==> (#[trigger] out_vals@[j])@
                                    == eval_node(out_nodes@, Set::empty(), j),
                            new_id == out_nodes@.len(),
                            k <= kept@.len(),
                            forall|q: int|
                                0 <= q < kept@.len() ==> (#[trigger] kept@[q] as int)
                                    < out_nodes@.len(),
                            acc@ == eval_sum(
                                out_nodes@,
                                Set::empty(),
                                kept@.take(k as int),
                                new_id as int,
                            ),
                        decreases kept@.len() - k,
                    {
                        let c = kept[k];
                        acc = acc.plus(&out_vals[c]);
                        proof {
                            crate::ccg::lemma_sum_push(
                                out_nodes@,
                                Set::empty(),
                                kept@.take(k as int),
                                c,
                                new_id as int,
                            );
                            assert(kept@.take(k as int).push(c) =~= kept@.take(k as int + 1));
                        }
                        k += 1;
                    }
                    proof {
                        assert(kept@.take(kept@.len() as int) =~= kept@);
                    }
                    let ghost kept_view = kept@;
                    out_nodes.push(CcgNode::Or { children: kept });
                    out_vals.push(acc);
                    id_map.push(new_id);
                    proof {
                        assert(out_nodes@.take(old_out.len() as int) =~= old_out);
                        assert forall|j: int, b: Set<int>|
                            0 <= j < old_out.len() implies eval_node(out_nodes@, b, j)
                            == eval_node(old_out, b, j) by {
                            lemma_eval_take(out_nodes@, b, old_out.len() as int, j);
                        }
                        assert forall|j: int| 0 <= j < out_nodes@.len() implies node_wf(
                            out_nodes@,
                            j,
                        ) by {
                            if j < old_out.len() {
                                assert(node_wf(old_out, j));
                                assert(out_nodes@[j] == old_out[j]);
                            } else {
                                assert(out_nodes@[j] == CcgNode::Or { children: kept });
                                assert(forall|q: int|
                                    0 <= q < kept_view.len() ==> (#[trigger] kept_view[q] as int)
                                        < new_id as int);
                            }
                        }
                        assert forall|b: Set<int>| #[trigger] eval_node(
                            out_nodes@,
                            b,
                            new_id as int,
                        ) == pr_val(nnf@, supv, falv, b, i as int) by {
                            assert(eval_node(out_nodes@, b, new_id as int) == eval_sum(
                                out_nodes@,
                                b,
                                kept_view,
                                new_id as int,
                            ));
                            crate::ccg::lemma_sum_take(
                                out_nodes@,
                                b,
                                old_out.len() as int,
                                kept_view,
                                new_id as int,
                            );
                            lemma_kept_semantics(
                                nnf@,
                                supv,
                                falv,
                                old_out,
                                idm0,
                                children@,
                                i as int,
                                bound as int,
                                b,
                            );
                            assert(kept_of(idm0, children@, bound as int) == kept_view);
                        }
                        assert(out_vals@[new_id as int]@ == eval_node(
                            out_nodes@,
                            Set::empty(),
                            new_id as int,
                        )) by {
                            crate::ccg::lemma_sum_take(
                                out_nodes@,
                                Set::empty(),
                                old_out.len() as int,
                                kept_view,
                                new_id as int,
                            );
                        }
                        assert forall|q: int, b: Set<int>|
                            0 <= q < id_map@.len() && id_map@[q] != usize::MAX implies
                            #[trigger] eval_node(out_nodes@, b, id_map@[q] as int) == pr_val(
                            nnf@,
                            supv,
                            falv,
                            b,
                            q,
                        ) by {
                            if q < i as int {
                                assert(id_map@[q] == idm0[q]);
                                assert(eval_node(old_out, b, idm0[q] as int) == pr_val(
                                    nnf@,
                                    supv,
                                    falv,
                                    b,
                                    q,
                                ));
                                lemma_eval_take(out_nodes@, b, old_out.len() as int, id_map@[q] as int);
                            } else {
                                assert(eval_node(out_nodes@, b, new_id as int) == pr_val(
                                    nnf@,
                                    supv,
                                    falv,
                                    b,
                                    i as int,
                                ));
                            }
                        }
                        assert(kept_count(nnf@, supv, falv, children@, i as int)
                            == kept_view.len());
                        assert(!pruned(nnf@, supv, falv, i as int));
                        assert(out_nodes@.drop_last() =~= old_out);
                        assert(spec_edge_count(out_nodes@) == spec_edge_count(old_out)
                            + kept_view.len());
                        assert(gate_edges(nnf@, supv, falv, children@, i as int)
                            == kept_view.len());
                        assert(spec_new_var_count(out_nodes@) == spec_new_var_count(old_out));
                    }
                }
            },
        }
        i += 1;
    }
    if id_map[n - 1] == sentinel {
        return Err(TranspilerError::Missing);
    }
    let n_edges: usize = match edge_count(&out_nodes) {
        Some(e) => e,
        None => {
            return Err(TranspilerError::Missing);
        },
    };
    let n_new_vars: usize = match new_var_count(&out_nodes) {
        Some(v) => v,
        None => {
            return Err(TranspilerError::Missing);
        },
    };
    Ok(Transpilation { nodes: out_nodes, vals: out_vals, n_edges, n_new_vars })
}

/// The surviving new ids of one gate's children, read off the id map.
fn keep_children(children: &Vec<usize>, id_map: &Vec<usize>, bound: usize, sentinel: usize) -> (r:
    Vec<usize>)
    requires
        sentinel == usize::MAX,
    ensures
        r@ == kept_of(id_map@, children@, bound as int),
        forall|q: int| 0 <= q < r@.len() ==> (#[trigger] r@[q] as int) < bound,
{
    let mut kept: Vec<usize> = Vec::new();
    let mut k: usize = 0;
    proof {
        assert(kept@ =~= kept_of(id_map@, children@.take(0), bound as int));
        assert(children@.take(0) =~= Seq::<usize>::empty());
    }
    while k < children.len()
        invariant
            sentinel == usize::MAX,
            k <= children@.len(),
            kept@ == kept_of(id_map@, children@.take(k as int), bound as int),
            forall|q: int| 0 <= q < kept@.len() ==> (#[trigger] kept@[q] as int) < bound,
        decreases children@.len() - k,
    {
        let c = children[k];
        proof {
            lemma_kept_of_push(id_map@, children@.take(k as int), c, bound as int);
            assert(children@.take(k as int).push(c) =~= children@.take(k as int + 1));
        }
        let ghost old_kept = kept@;
        if c < id_map.len() {
            let m = id_map[c];
            if m != sentinel && m < bound {
                kept.push(m);
                proof {
                    assert(kept@ =~= old_kept + seq![m]);
                }
            } else {
                proof {
                    assert(kept@ =~= old_kept + Seq::<usize>::empty());
                }
            }
        } else {
            proof {
                assert(kept@ =~= old_kept + Seq::<usize>::empty());
            }
        }
        k += 1;
    }
    proof {
        assert(children@.take(children@.len() as int) =~= children@);
    }
    kept
}

/// The total number of child edges, where it fits the machine's integers.
pub fn edge_count(nodes: &Vec<CcgNode>) -> (r: Option<usize>)
    ensures
        r matches Some(e) ==> e as int == spec_edge_count(nodes@),
        r is None ==> spec_edge_count(nodes@) > usize::MAX,
{
    let mut total: usize = 0;
    let mut i: usize = 0;
    proof {
        assert(nodes@.take(0) =~= Seq::<CcgNode>::empty());
    }
    while i < nodes.len()
        invariant
            i <= nodes@.len(),
            total as int == spec_edge_count(nodes@.take(i as int)),
        decreases nodes@.len() - i,
    {
        proof {
            assert(nodes@.take(i + 1).drop_last() =~= nodes@.take(i as int));
            assert(nodes@.take(i + 1).last() == nodes@[i as int]);
        }
        let step: usize = match &nodes[i] {
            CcgNode::Leaf { lit, val } => 0,
            CcgNode::And { children } => children.len(),
            CcgNode::Or { children } => children.len(),
        };
        if total > usize::MAX - step {
            proof {
                lemma_edge_count_prefix(nodes@, i + 1);
            }
            return None;
        }
        total = total + step;
        i += 1;
    }
    proof {
        assert(nodes@.take(nodes@.len() as int) =~= nodes@);
    }
    Some(total)
}

proof fn lemma_edge_count_prefix(nodes: Seq<CcgNode>, k: int)
    requires
        0 <= k <= nodes.len(),
    ensures
        spec_edge_count(nodes.take(k)) <= spec_edge_count(nodes),
    decreases nodes.len() - k,
{
    if k < nodes.len() {
        assert(nodes.take(k + 1).drop_last() =~= nodes.take(k));
        assert(nodes.take(k + 1).last() == nodes[k]);
        lemma_edge_count_prefix(nodes, k + 1);
    } else {
        assert(nodes.take(k) =~= nodes);
    }
}

proof fn lemma_new_var_count_prefix(nodes: Seq<CcgNode>, k: int)
    requires
        0 <= k <= nodes.len(),
    ensures
        spec_new_var_count(nodes.take(k)) <= spec_new_var_count(nodes),
    decreases nodes.len() - k,
{
    if k < nodes.len() {
        assert(nodes.take(k + 1).drop_last() =~= nodes.take(k));
        assert(nodes.take(k + 1).last() == nodes[k]);
        lemma_new_var_count_prefix(nodes, k + 1);
    } else {
        assert(nodes.take(k) =~= nodes);
    }
}

/// The number of positive-literal leaves, where it fits the machine's
/// integers.
pub fn new_var_count(nodes: &Vec<CcgNode>) -> (r: Option<usize>)
    ensures
        r matches Some(v) ==> v as int == spec_new_var_count(nodes@),
        r is None ==> spec_new_var_count(nodes@) > usize::MAX,
{
    let mut total: usize = 0;
    let mut i: usize = 0;
    proof {
        assert(nodes@.take(0) =~= Seq::<CcgNode>::empty());
    }
    while i < nodes.len()
        invariant
            i <= nodes@.len(),
            total as int == spec_new_var_count(nodes@.take(i as int)),
        decreases nodes@.len() - i,
    {
        proof {
            assert(nodes@.take(i + 1).drop_last() =~= nodes@.take(i as int));
            assert(nodes@.take(i + 1).last() == nodes@[i as int]);
        }
        let step: usize = match &nodes[i] {
            CcgNode::Leaf { lit, val } => if *lit > 0 {
                1
            } else {
                0
            },
            CcgNode::And { children } => 0,
            CcgNode::Or { children } => 0,
        };
        if total > usize::MAX - step {
            proof {
                lemma_new_var_count_prefix(nodes@, i + 1);
            }
            return None;
        }
        total = total + step;
        i += 1;
    }
    proof {
        assert(nodes@.take(nodes@.len() as int) =~= nodes@);
    }
    Some(total)
}


/// Whether a name stands among the grounder-reported atom names.
pub open spec fn name_in(atoms: Seq<Seq<u8>>, name: Seq<u8>) -> bool {
    exists|j: int| 0 <= j < atoms.len() && atoms[j] == name
}

/// The variable ids of the mapping entries whose atom the grounder supports.
pub open spec fn sup_ids(m: Seq<(Seq<u8>, i32)>, atoms: Seq<Seq<u8>>) -> Seq<i32>
    decreases m.len(),
{
    if m.len() == 0 {
        Seq::empty()
    } else {
        let rest = sup_ids(m.drop_last(), atoms);
        if name_in(atoms, m.last().0) {
            rest.push(m.last().1)
        } else {
            rest
        }
    }
}

/// The variable ids of the mapping entries whose atom the grounder does not
/// support: fixed false by the grounding.
pub open spec fn fal_ids(m: Seq<(Seq<u8>, i32)>, atoms: Seq<Seq<u8>>) -> Seq<i32>
    decreases m.len(),
{
    if m.len() == 0 {
        Seq::empty()
    } else {
        let rest = fal_ids(m.drop_last(), atoms);
        if name_in(atoms, m.last().0) {
            rest
        } else {
            rest.push(m.last().1)
        }
    }
}

/// Whether the name stands among the atom names.
fn atom_name_in(atoms: &Vec<Vec<u8>>, name: &Vec<u8>) -> (r: bool)
    ensures
        r == name_in(tok_views(atoms@), name@),
{
    let mut j: usize = 0;
    while j < atoms.len()
        invariant
            j <= atoms@.len(),
            forall|q: int| 0 <= q < j ==> tok_views(atoms@)[q] != name@,
        decreases atoms@.len() - j,
    {
        proof {
            assert(name@.skip(0) =~= name@);
            assert(tok_views(atoms@)[j as int] == atoms@[j as int]@);
        }
        if crate::counter::eq_bytes_from(&atoms[j], name, 0) {
            return true;
        }
        j += 1;
    }
    false
}

/// How a transpilation relates to the parsed input `g` under the mapping and
/// the grounder-supported atom names: well formed, nothing of the input's
/// pruned evaluation lost, every emitted leaf over a known atom with its
/// grounder-given value, and the header statistics exact.
pub open spec fn transpile_post(
    g: Seq<CcgNode>,
    m: Seq<(Seq<u8>, i32)>,
    atoms: Seq<Seq<u8>>,
    t: Transpilation,
) -> bool {
    let sup = sup_ids(m, atoms);
    let fal = fal_ids(m, atoms);
    &&& transpilation_wf(t)
    &&& !pruned(g, sup, fal, g.len() - 1)
    &&& forall|b: Set<int>| #[trigger] eval_ccg(t.nodes@, b) == pr_val(
        g,
        sup,
        fal,
        b,
        g.len() - 1,
    )
    &&& forall|j: int|
        0 <= j < t.nodes@.len() ==> ((#[trigger] t.nodes@[j]) matches CcgNode::Leaf { lit, val }
            ==> (leaf_known(sup, fal, lit) && val as int == leaf_value(sup, lit)))
    &&& t.n_edges as int == edge_total(g, sup, fal, g.len() as int)
    &&& t.n_new_vars as int == newvar_total(g, sup, fal, g.len() as int)
}

/// When the transpilation of the parsed input `g` cannot be produced: the
/// whole input vanishes under the pruning, or a header statistic exceeds the
/// machine's integers.
pub open spec fn transpile_blocked(g: Seq<CcgNode>, m: Seq<(Seq<u8>, i32)>, atoms: Seq<Seq<u8>>) -> bool {
    let sup = sup_ids(m, atoms);
    let fal = fal_ids(m, atoms);
    ||| pruned(g, sup, fal, g.len() - 1)
    ||| edge_total(g, sup, fal, g.len() as int) > usize::MAX
    ||| newvar_total(g, sup, fal, g.len() as int) > usize::MAX
}

/// Transpiles sd-DNNF text against a CNF atom mapping and the atom names the
/// grounder reports: a leaf survives exactly when its variable is mapped,
/// and a surviving positive leaf of an unsupported atom carries value 0.
pub fn transpile(
    nnf_text: &[u8],
    cnf_mappings: &Vec<(Vec<u8>, i32)>,
    supported_atoms: &Vec<Vec<u8>>,
) -> (r: Result<Transpilation, TranspilerError>)
    ensures
        r matches Ok(t) ==> exists|g: Seq<CcgNode>|
            #[trigger] crate::counting::nnf_matches_lines(spec_tokenize(nnf_text@), g)
                && transpile_post(
                g,
                crate::counter::map_views(cnf_mappings@),
                tok_views(supported_atoms@),
                t,
            ),
        r is Err ==> (!crate::counting::nnf_lines_ok(spec_tokenize(nnf_text@))
            || crate::counting::nnf_var_count(spec_tokenize(nnf_text@)) is None || (exists|
            g: Seq<CcgNode>,
        |
            #[trigger] crate::counting::nnf_matches_lines(spec_tokenize(nnf_text@), g)
                && transpile_blocked(
                g,
                crate::counter::map_views(cnf_mappings@),
                tok_views(supported_atoms@),
            ))),
{
    let ghost mv = crate::counter::map_views(cnf_mappings@);
    let ghost av = tok_views(supported_atoms@);
    let parsed = match crate::counting::parse_nnf(nnf_text) {
        Ok(p) => p,
        Err(e) => {
            return Err(TranspilerError::Missing);
        },
    };
    let nnf = parsed.0;
    let mut sup: Vec<i32> = Vec::new();
    let mut fal: Vec<i32> = Vec::new();
    let mut i: usize = 0;
    proof {
        assert(sup@ =~= sup_ids(mv.take(0), av));
        assert(fal@ =~= fal_ids(mv.take(0), av));
        assert(mv.take(0) =~= Seq::<(Seq<u8>, i32)>::empty());
    }
    while i < cnf_mappings.len()
        invariant
            mv == crate::counter::map_views(cnf_mappings@),
            av == tok_views(supported_atoms@),
            i <= cnf_mappings@.len(),
            sup@ == sup_ids(mv.take(i as int), av),
            fal@ == fal_ids(mv.take(i as int), av),
        decreases cnf_mappings@.len() - i,
    {
        proof {
            assert(mv.take(i + 1).drop_last() =~= mv.take(i as int));
            assert(mv.take(i + 1).last() == mv[i as int]);
        }
        if atom_name_in(supported_atoms, &cnf_mappings[i].0) {
            sup.push(cnf_mappings[i].1);
        } else {
            fal.push(cnf_mappings[i].1);
        }
        i += 1;
    }
    proof {
        assert(mv.take(mv.len() as int) =~= mv);
    }
    match transpile_nodes(&nnf, &sup, &fal) {
        Ok(t) => {
            proof {
                assert(transpile_post(nnf@, mv, av, t));
            }
            Ok(t)
        },
        Err(e) => {
            proof {
                assert(transpile_blocked(nnf@, mv, av));
            }
            Err(e)
        },
    }
}

/// The values a vector of counts holds.
pub open spec fn count_views(v: Seq<Count>) -> Seq<int> {
    Seq::new(v.len(), |i: int| v[i]@)
}

/// One rendered mapping line: `c <atom-name> <variable-id>`.
pub open spec fn render_map_line(name: Seq<u8>, id: int) -> Seq<u8> {
    seq![99u8, 32u8] + name + seq![32u8] + crate::toks::dec_i(id) + seq![10u8]
}

/// The rendered mapping lines, in order.
pub open spec fn render_maps(m: Seq<(Seq<u8>, i32)>) -> Seq<u8>
    decreases m.len(),
{
    if m.len() == 0 {
        Seq::empty()
    } else {
        render_maps(m.drop_last()) + render_map_line(m.last().0, m.last().1 as int)
    }
}

/// The rendered child indices of a gate line, each led by a space.
pub open spec fn render_children(cs: Seq<usize>) -> Seq<u8>
    decreases cs.len(),
{
    if cs.len() == 0 {
        Seq::empty()
    } else {
        render_children(cs.drop_last()) + seq![32u8] + crate::toks::dec_u(cs.last() as int)
    }
}

/// One rendered node line: `<lit> <val> ` for a leaf, `<mark> <m> <children>`
/// for a gate; in `withvals` mode that node's precomputed value follows its
/// children.
pub open spec fn render_node(n: CcgNode, val: int, withvals: bool) -> Seq<u8> {
    match n {
        CcgNode::Leaf { lit, val: v } => crate::toks::dec_i(lit as int) + seq![32u8]
            + crate::toks::dec_i(v as int) + seq![32u8, 10u8],
        CcgNode::And { children } => seq![42u8, 32u8] + crate::toks::dec_u(children@.len() as int)
            + render_children(children@) + (if withvals {
            seq![32u8] + crate::toks::dec_i(val)
        } else {
            Seq::empty()
        }) + seq![10u8],
        CcgNode::Or { children } => seq![43u8, 32u8] + crate::toks::dec_u(children@.len() as int)
            + render_children(children@) + (if withvals {
            seq![32u8] + crate::toks::dec_i(val)
        } else {
            Seq::empty()
        }) + seq![10u8],
    }
}

/// The rendered node lines, in order.
pub open spec fn render_nodes(nodes: Seq<CcgNode>, vals: Seq<int>, withvals: bool) -> Seq<u8>
    decreases nodes.len(),
{
    if nodes.len() == 0 {
        Seq::empty()
    } else {
        render_nodes(nodes.drop_last(), vals, withvals) + render_node(
            nodes.last(),
            if nodes.len() - 1 < vals.len() {
                vals[nodes.len() - 1]
            } else {
                0
            },
            withvals,
        )
    }
}

/// The whole rendered counting-graph file: the given header line, the mapping
/// lines, then the node lines.
pub open spec fn render_ccg(
    stats: Seq<u8>,
    m: Seq<(Seq<u8>, i32)>,
    nodes: Seq<CcgNode>,
    vals: Seq<int>,
    withvals: bool,
) -> Seq<u8> {
    stats + seq![10u8] + render_maps(m) + render_nodes(nodes, vals, withvals)
}

/// Appends every byte of `piece`.
fn push_bytes(out: &mut Vec<u8>, piece: &Vec<u8>)
    ensures
        final(out)@ == old(out)@ + piece@,
{
    let mut i: usize = 0;
    while i < piece.len()
        invariant
            i <= piece@.len(),
            out@ == old(out)@ + piece@.take(i as int),
        decreases piece@.len() - i,
    {
        out.push(piece[i]);
        proof {
            assert(old(out)@ + piece@.take(i as int + 1) =~= (old(out)@ + piece@.take(
                i as int,
            )).push(piece@[i as int]));
        }
        i += 1;
    }
    proof {
        assert(piece@.take(piece@.len() as int) =~= piece@);
    }
}

/// Serializes a transpilation under the given header line: the text of the
/// counting-graph file, with each gate's precomputed value appended when
/// `withvals` asks for it.
#[verifier::rlimit(50)]
pub fn write(
    stats: &Vec<u8>,
    cnf_mappings: &Vec<(Vec<u8>, i32)>,
    t: &Transpilation,
    withvals: bool,
) -> (r: Result<Vec<u8>, TranspilerError>)
    requires
        ccg_wf(t.nodes@),
        t.vals@.len() == t.nodes@.len(),
    ensures
        r matches Ok(bytes) ==> bytes@ == render_ccg(
            stats@,
            crate::counter::map_views(cnf_mappings@),
            t.nodes@,
            count_views(t.vals@),
            withvals,
        ),
        r is Err ==> exists|k: int|
            0 <= k < cnf_mappings@.len() && (#[trigger] cnf_mappings@[k]).1 == i32::MIN,
{
    let ghost mv = crate::counter::map_views(cnf_mappings@);
    let ghost vv = count_views(t.vals@);
    let mut out: Vec<u8> = Vec::new();
    push_bytes(&mut out, stats);
    out.push(10);
    let ghost head = stats@ + seq![10u8];
    proof {
        assert(out@ =~= head);
    }
    let mut k: usize = 0;
    proof {
        assert(render_maps(mv.take(0)) =~= Seq::<u8>::empty());
        assert(out@ =~= head + render_maps(mv.take(0)));
    }
    while k < cnf_mappings.len()
        invariant
            mv == crate::counter::map_views(cnf_mappings@),
            head == stats@ + seq![10u8],
            k <= cnf_mappings@.len(),
            out@ == head + render_maps(mv.take(k as int)),
        decreases cnf_mappings@.len() - k,
    {
        let id = cnf_mappings[k].1;
        if id == i32::MIN {
            return Err(TranspilerError::Missing);
        }
        proof {
            assert(mv.take(k + 1).drop_last() =~= mv.take(k as int));
            assert(mv.take(k + 1).last() == mv[k as int]);
        }
        out.push(99);
        out.push(32);
        push_bytes(&mut out, &cnf_mappings[k].0);
        out.push(32);
        crate::toks::push_i32_dec(&mut out, id);
        out.push(10);
        proof {
            assert(out@ =~= head + render_maps(mv.take(k + 1)));
        }
        k += 1;
    }
    proof {
        assert(mv.take(mv.len() as int) =~= mv);
    }
    let ghost mid = head + render_maps(mv);
    let mut j: usize = 0;
    proof {
        assert(render_nodes(t.nodes@.take(0), vv, withvals) =~= Seq::<u8>::empty());
        assert(out@ =~= mid + render_nodes(t.nodes@.take(0), vv, withvals));
    }
    while j < t.nodes.len()
        invariant
            ccg_wf(t.nodes@),
            t.vals@.len() == t.nodes@.len(),
            vv == count_views(t.vals@),
            j <= t.nodes@.len(),
            out@ == mid + render_nodes(t.nodes@.take(j as int), vv, withvals),
        decreases t.nodes@.len() - j,
    {
        proof {
            assert(t.nodes@.take(j + 1).drop_last() =~= t.nodes@.take(j as int));
            assert(t.nodes@.take(j + 1).last() == t.nodes@[j as int]);
            assert(crate::ccg::node_wf(t.nodes@, j as int));
        }
        let ghost before = out@;
        match &t.nodes[j] {
            CcgNode::Leaf { lit, val } => {
                crate::toks::push_i32_dec(&mut out, *lit);
                out.push(32);
                crate::toks::push_i32_dec(&mut out, *val);
                out.push(32);
                out.push(10);
                proof {
                    assert(out@ =~= before + render_node(t.nodes@[j as int], vv[j as int], withvals));
                }
            },
            CcgNode::And { children } => {
                out.push(42);
                out.push(32);
                crate::toks::push_usize_dec(&mut out, children.len());
                let ghost gate_head = before + seq![42u8, 32u8] + crate::toks::dec_u(
                    children@.len() as int,
                );
                proof {
                    assert(out@ =~= gate_head);
                    assert(render_children(children@.take(0)) =~= Seq::<u8>::empty());
                    assert(out@ =~= gate_head + render_children(children@.take(0)));
                }
                let mut q: usize = 0;
                while q < children.len()
                    invariant
                        q <= children@.len(),
                        out@ == gate_head + render_children(children@.take(q as int)),
                    decreases children@.len() - q,
                {
                    proof {
                        assert(children@.take(q + 1).drop_last() =~= children@.take(q as int));
                        assert(children@.take(q + 1).last() == children@[q as int]);
                    }
                    out.push(32);
                    crate::toks::push_usize_dec(&mut out, children[q]);
                    proof {
                        assert(out@ =~= gate_head + render_children(children@.take(q + 1)));
                    }
                    q += 1;
                }
                proof {
                    assert(children@.take(children@.len() as int) =~= children@);
                }
                if withvals {
                    out.push(32);
                    let dec = t.vals[j].to_decimal();
                    push_bytes(&mut out, &dec);
                }
                out.push(10);
                proof {
                    assert(out@ =~= before + render_node(t.nodes@[j as int], vv[j as int], withvals));
                }
            },
            CcgNode::Or { children } => {
                out.push(43);
                out.push(32);
                crate::toks::push_usize_dec(&mut out, children.len());
                let ghost gate_head = before + seq![43u8, 32u8] + crate::toks::dec_u(
                    children@.len() as int,
                );
                proof {
                    assert(out@ =~= gate_head);
                    assert(render_children(children@.take(0)) =~= Seq::<u8>::empty());
                    assert(out@ =~= gate_head + render_children(children@.take(0)));
                }
                let mut q: usize = 0;
                while q < children.len()
                    invariant
                        q <= children@.len(),
                        out@ == gate_head + render_children(children@.take(q as int)),
                    decreases children@.len() - q,
                {
                    proof {
                        assert(children@.take(q + 1).drop_last() =~= children@.take(q as int));
                        assert(children@.take(q + 1).last() == children@[q as int]);
                    }
                    out.push(32);
                    crate::toks::push_usize_dec(&mut out, children[q]);
                    proof {
                        assert(out@ =~= gate_head + render_children(children@.take(q + 1)));
                    }
                    q += 1;
                }
                proof {
                    assert(children@.take(children@.len() as int) =~= children@);
                }
                if withvals {
                    out.push(32);
                    let dec = t.vals[j].to_decimal();
                    push_bytes(&mut out, &dec);
                }
                out.push(10);
                proof {
                    assert(out@ =~= before + render_node(t.nodes@[j as int], vv[j as int], withvals));
                }
            },
        }
        proof {
            assert(out@ =~= mid + render_nodes(t.nodes@.take(j + 1), vv, withvals));
        }
        j += 1;
    }
    proof {
        assert(t.nodes@.take(t.nodes@.len() as int) =~= t.nodes@);
    }
    Ok(out)
}

/// The atom mapping that the `c`-lines of CNF text denote, reading lines
/// after the header: `c <variable-id> <atom-name>`; `None` when a `c`-line is
/// short or its id is no numeral.
pub open spec fn spec_cnf_maps(tls: Seq<Seq<Seq<u8>>>, k: int) -> Option<Seq<(Seq<u8>, i32)>>
    decreases k,
{
    if k <= 1 {
        Some(Seq::empty())
    } else {
        match spec_cnf_maps(tls, k - 1) {
            Some(rest) => {
                let l = tls[k - 1];
                if l.len() > 0 && l[0] == seq![99u8] {
                    if l.len() >= 3 && spec_i32(l[1]) is Some {
                        Some(rest.push((l[2], spec_i32(l[1]).unwrap())))
                    } else {
                        None
                    }
                } else {
                    Some(rest)
                }
            },
            None => None,
        }
    }
}

/// Reads the atom mapping out of CNF text: each `c`-line after the header
/// maps the atom name to its variable id, id first.
pub fn read_cnf_mappings(cnf_text: &[u8]) -> (r: Result<Vec<(Vec<u8>, i32)>, TranspilerError>)
    ensures
        r matches Ok(m) ==> spec_cnf_maps(
            spec_tokenize(cnf_text@),
            spec_tokenize(cnf_text@).len() as int,
        ) == Some(crate::counter::map_views(m@)),
        r is Err ==> spec_cnf_maps(
            spec_tokenize(cnf_text@),
            spec_tokenize(cnf_text@).len() as int,
        ) is None,
{
    let ghost tls = spec_tokenize(cnf_text@);
    let lines = tokenize(cnf_text);
    let mut mappings: Vec<(Vec<u8>, i32)> = Vec::new();
    proof {
        assert(crate::counter::map_views(mappings@) =~= Seq::<(Seq<u8>, i32)>::empty());
        assert(seq![99u8][0] == 99u8);
    }
    if lines.len() == 0 {
        return Ok(mappings);
    }
    let mut k: usize = 1;
    while k < lines.len()
        invariant
            tls == spec_tokenize(cnf_text@),
            tls == line_views(lines@),
            1 <= k <= lines@.len(),
            spec_cnf_maps(tls, k as int) == Some(crate::counter::map_views(mappings@)),
        decreases lines@.len() - k,
    {
        proof {
            assert(tls[k as int] == tok_views(lines@[k as int]@));
            assert(seq![99u8][0] == 99u8);
        }
        let line = &lines[k];
        if line.len() > 0 {
            let is_c = crate::ccg::tok_is_mark(&line[0], 99);
            if is_c {
                if line.len() < 3 {
                    proof {
                        lemma_cnf_maps_none(tls, k + 1, tls.len() as int);
                    }
                    return Err(TranspilerError::Missing);
                }
                proof {
                    assert(tls[k as int][1] == lines@[k as int]@[1]@);
                    assert(tls[k as int][2] == lines@[k as int]@[2]@);
                }
                let id: i32 = match parse_i32_tok(line[1].as_slice()) {
                    Some(v) => v,
                    None => {
                        proof {
                            lemma_cnf_maps_none(tls, k + 1, tls.len() as int);
                        }
                        return Err(TranspilerError::Missing);
                    },
                };
                let name = crate::counter::copy_bytes(&line[2]);
                let ghost old_m = crate::counter::map_views(mappings@);
                mappings.push((name, id));
                proof {
                    assert(crate::counter::map_views(mappings@) =~~= old_m.push(
                        (tls[k as int][2], id),
                    ));
                }
            }
        }
        k += 1;
    }
    Ok(mappings)
}

/// A bad mapping line spoils the parse for every longer prefix.
proof fn lemma_cnf_maps_none(tls: Seq<Seq<Seq<u8>>>, from: int, upto: int)
    requires
        spec_cnf_maps(tls, from) is None,
        from <= upto,
    ensures
        spec_cnf_maps(tls, upto) is None,
    decreases upto - from,
{
    if from < upto {
        lemma_cnf_maps_none(tls, from + 1, upto);
    }
}

/// The precomputed root value is what the evaluator yields under no
/// assumptions: the last stored value equals the graph's count for an empty
/// assumption list.
pub proof fn lemma_precomputed_root(t: Transpilation)
    requires
        transpilation_wf(t),
    ensures
        t.vals@[t.nodes@.len() - 1]@ == crate::ccg::eval_ccg(t.nodes@, crate::ccg::lit_set(
            Seq::<i32>::empty(),
        )),
{
    crate::ccg::lemma_lit_set_empty();
}

} // verus!
