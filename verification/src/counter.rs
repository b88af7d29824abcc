//! A counter over a parsed counting-graph file: the graph, its atom-name
//! mapping, and counting under named assumptions.
//!
//! The file format is line oriented (`ccg N E V log10C` header, `c <atom>
//! <id>` mapping lines, then one node per line); an assumption is an atom
//! name, negated by a leading `~`.

use vstd::prelude::*;

use crate::ccg::{
    ccg_wf, count_on_ccg, eval_ccg, lit_set, node_lines_ok, node_matches, parse_ccg_nodes, CcgNode,
};
use crate::num::Count;
use crate::toks::{parse_i32_tok, parse_usize_tok, spec_i32, spec_tokenize, spec_usize, tok_views,
    tokenize, line_views};

verus! {

/// What can go wrong reading a counting-graph file.
#[derive(Debug, Clone)]
pub enum CounterError {
    ReadingError(String),
}

/// The name-to-variable pairs that a mapping vector holds.
pub open spec fn map_views(v: Seq<(Vec<u8>, i32)>) -> Seq<(Seq<u8>, i32)> {
    Seq::new(v.len(), |i: int| (v[i].0@, v[i].1))
}

/// The variable id of `name`, by the latest mapping entry for it.
pub open spec fn lookup(m: Seq<(Seq<u8>, i32)>, name: Seq<u8>) -> Option<i32>
    decreases m.len(),
{
    if m.len() == 0 {
        None
    } else if m.last().0 == name {
        Some(m.last().1)
    } else {
        lookup(m.drop_last(), name)
    }
}

/// The literal an assumption name denotes: the mapped variable id, negated
/// when the name carries a leading `~`.
pub open spec fn resolve_one(m: Seq<(Seq<u8>, i32)>, name: Seq<u8>) -> Option<i32> {
    if name.len() >= 1 && name[0] == 126 {
        match lookup(m, name.skip(1)) {
            Some(v) => if v == i32::MIN {
                None
            } else {
                Some((-v) as i32)
            },
            None => None,
        }
    } else {
        lookup(m, name)
    }
}

/// The literals a list of assumption names denotes; names the mapping does
/// not know are dropped.
pub open spec fn resolved_lits(m: Seq<(Seq<u8>, i32)>, names: Seq<Seq<u8>>) -> Seq<i32>
    decreases names.len(),
{
    if names.len() == 0 {
        Seq::empty()
    } else {
        let rest = resolved_lits(m, names.drop_last());
        match resolve_one(m, names.last()) {
            Some(v) => rest.push(v),
            None => rest,
        }
    }
}

/// The index of the first line at or after `k` that is not a `c`-mapping
/// line.
pub open spec fn map_end(tls: Seq<Seq<Seq<u8>>>, k: int) -> int
    decreases tls.len() - k,
{
    if 0 <= k < tls.len() && tls[k].len() > 0 && tls[k][0] == seq![99u8] {
        map_end(tls, k + 1)
    } else {
        k
    }
}

proof fn lemma_map_end_ge(tls: Seq<Seq<Seq<u8>>>, k: int)
    ensures
        map_end(tls, k) >= k,
    decreases tls.len() - k,
{
    if 0 <= k < tls.len() && tls[k].len() > 0 && tls[k][0] == seq![99u8] {
        lemma_map_end_ge(tls, k + 1);
    }
}

/// A parsed counting-graph file.
#[derive(Debug, Clone)]
pub struct Counter {
    counting_graph: Vec<CcgNode>,
    mapping: Vec<(Vec<u8>, i32)>,
    node_count: usize,
    overall_count: Vec<u8>,
}

impl Counter {
    /// The graph's nodes.
    pub closed spec fn nodes_view(&self) -> Seq<CcgNode> {
        self.counting_graph@
    }

    /// The atom-name mapping, in file order.
    pub closed spec fn mapping_view(&self) -> Seq<(Seq<u8>, i32)> {
        map_views(self.mapping@)
    }

    /// The node count the header declares.
    pub closed spec fn header_count(&self) -> usize {
        self.node_count
    }

    /// The raw final header token: the file's log10 count estimate.
    pub closed spec fn overall_token(&self) -> Seq<u8> {
        self.overall_count@
    }

    /// The graph is well formed.
    pub open spec fn wf(&self) -> bool {
        ccg_wf(self.nodes_view())
    }
}

/// How a parsed `Counter` relates to the token lines of its file.
pub open spec fn ccg_file_matches(tls: Seq<Seq<Seq<u8>>>, c: Counter) -> bool {
    let mend = map_end(tls, 1);
    &&& c.wf()
    &&& tls.len() >= 1
    &&& tls[0].len() >= 3
    &&& spec_usize(tls[0][1]) == Some(c.header_count())
    &&& c.overall_token() == tls[0].last()
    &&& crate::toks::float_shaped(c.overall_token())
    &&& c.mapping_view().len() == mend - 1
    &&& forall|k: int|
        1 <= k < mend ==> (#[trigger] tls[k].len() >= 3 && c.mapping_view()[k - 1].0 == tls[k][1]
            && spec_i32(tls[k][2]) == Some(c.mapping_view()[k - 1].1))
    &&& c.nodes_view().len() == tls.len() - mend
    &&& forall|j: int|
        0 <= j < c.nodes_view().len() ==> node_matches(
            tls[mend + j],
            j,
            #[trigger] c.nodes_view()[j],
        )
}

/// When reading a counting-graph file fails: a missing or short header, a
/// header count that is no number, a short or numberless mapping line, or
/// node lines that denote no well-formed graph.
pub open spec fn ccg_file_bad(tls: Seq<Seq<Seq<u8>>>) -> bool {
    let mend = map_end(tls, 1);
    ||| tls.len() == 0
    ||| (tls.len() >= 1 && tls[0].len() < 3)
    ||| (tls.len() >= 1 && spec_usize(tls[0][1]) is None)
    ||| (tls.len() >= 1 && tls[0].len() >= 3 && !crate::toks::float_shaped(tls[0].last()))
    ||| (exists|k: int|
        1 <= k < mend && ((#[trigger] tls[k]).len() < 3 || spec_i32(tls[k][2]) is None))
    ||| !node_lines_ok(tls, mend)
}

/// A verified copy of a byte vector.
pub fn copy_bytes(v: &Vec<u8>) -> (r: Vec<u8>)
    ensures
        r@ == v@,
{
    let mut r: Vec<u8> = Vec::new();
    let mut i: usize = 0;
    while i < v.len()
        invariant
            i <= v@.len(),
            r@ == v@.take(i as int),
        decreases v@.len() - i,
    {
        r.push(v[i]);
        proof {
            assert(v@.take(i as int).push(v@[i as int]) =~= v@.take(i + 1));
        }
        i += 1;
    }
    proof {
        assert(v@.take(v@.len() as int) =~= v@);
    }
    r
}

/// A verified copy of a literal vector.
pub fn copy_lits(v: &Vec<i32>) -> (r: Vec<i32>)
    ensures
        r@ == v@,
{
    let mut r: Vec<i32> = Vec::new();
    let mut i: usize = 0;
    while i < v.len()
        invariant
            i <= v@.len(),
            r@ == v@.take(i as int),
        decreases v@.len() - i,
    {
        r.push(v[i]);
        proof {
            assert(v@.take(i as int).push(v@[i as int]) =~= v@.take(i + 1));
        }
        i += 1;
    }
    proof {
        assert(v@.take(v@.len() as int) =~= v@);
    }
    r
}

/// Whether `a` equals `b` from position `from` on.
pub fn eq_bytes_from(a: &Vec<u8>, b: &Vec<u8>, from: usize) -> (r: bool)
    requires
        from <= b@.len(),
    ensures
        r == (a@ == b@.skip(from as int)),
{
    if a.len() != b.len() - from {
        proof {
            assert(a@.len() != b@.skip(from as int).len());
        }
        return false;
    }
    let bl: usize = b.len();
    let mut i: usize = 0;
    while i < a.len()
        invariant
            from <= b@.len(),
            bl == b@.len(),
            a@.len() == b@.len() - from,
            i <= a@.len(),
            forall|q: int| 0 <= q < i ==> a@[q] == b@.skip(from as int)[q],
        decreases a@.len() - i,
    {
        if a[i] != b[from + i] {
            proof {
                assert(a@[i as int] != b@.skip(from as int)[i as int]);
            }
            return false;
        }
        i += 1;
    }
    proof {
        assert(a@ =~= b@.skip(from as int));
    }
    true
}

impl Counter {
    /// The id mapped to `name[from..]`, by the latest matching entry.
    fn lookup_from(&self, name: &Vec<u8>, from: usize) -> (r: Option<i32>)
        requires
            from <= name@.len(),
        ensures
            r == lookup(self.mapping_view(), name@.skip(from as int)),
    {
        let ghost m = self.mapping_view();
        let mut i: usize = self.mapping.len();
        proof {
            assert(m.take(i as int) =~= m);
        }
        while i > 0
            invariant
                m == self.mapping_view(),
                from <= name@.len(),
                i <= self.mapping@.len(),
                lookup(m, name@.skip(from as int)) == lookup(
                    m.take(i as int),
                    name@.skip(from as int),
                ),
            decreases i,
        {
            i -= 1;
            let ghost pre = m.take(i + 1);
            proof {
                assert(pre.drop_last() =~= m.take(i as int));
                assert(pre.last() == m[i as int]);
            }
            if eq_bytes_from(&self.mapping[i].0, name, from) {
                proof {
                    assert(m[i as int].0 == name@.skip(from as int));
                }
                return Some(self.mapping[i].1);
            }
        }
        proof {
            assert(m.take(0) =~= Seq::<(Seq<u8>, i32)>::empty());
        }
        None
    }

    /// The literal an assumption name denotes, if its atom is known: a
    /// leading `~` negates.
    pub fn read_assumption(&self, assumption: &Vec<u8>) -> (r: Option<i32>)
        ensures
            r == resolve_one(self.mapping_view(), assumption@),
    {
        if assumption.len() >= 1 && assumption[0] == 126 {
            match self.lookup_from(assumption, 1) {
                Some(v) => {
                    if v == i32::MIN {
                        None
                    } else {
                        Some(-v)
                    }
                },
                None => None,
            }
        } else {
            proof {
                assert(assumption@.skip(0) =~= assumption@);
            }
            self.lookup_from(assumption, 0)
        }
    }

    /// Counts the models of the graph under the named assumptions: the graph
    /// is evaluated under the literals the names resolve to; unknown names
    /// are dropped.
    pub fn count(&self, assumed: &Vec<Vec<u8>>) -> (r: Count)
        requires
            self.wf(),
        ensures
            r@ == eval_ccg(
                self.nodes_view(),
                lit_set(resolved_lits(self.mapping_view(), tok_views(assumed@))),
            ),
            r@ >= 0,
    {
        let ghost m = self.mapping_view();
        let mut lits: Vec<i32> = Vec::new();
        let mut i: usize = 0;
        while i < assumed.len()
            invariant
                m == self.mapping_view(),
                i <= assumed@.len(),
                lits@ == resolved_lits(m, tok_views(assumed@).take(i as int)),
            decreases assumed@.len() - i,
        {
            let ghost pre = tok_views(assumed@).take(i as int);
            let ghost pre1 = tok_views(assumed@).take(i + 1);
            proof {
                assert(pre1.drop_last() =~= pre);
                assert(pre1.last() == assumed@[i as int]@);
            }
            match self.read_assumption(&assumed[i]) {
                Some(l) => {
                    lits.push(l);
                },
                None => {},
            }
            i += 1;
        }
        proof {
            assert(tok_views(assumed@).take(assumed@.len() as int) =~= tok_views(assumed@));
        }
        count_on_ccg(&self.counting_graph, &lits)
    }

    /// Reads a counting-graph file: header, `c`-mapping lines, node lines.
    /// The header's final token must be shaped like a floating-point decimal
    /// (the log10 count estimate); it is kept raw, since nothing verified
    /// computes with floating point.
    pub fn new(text: &[u8]) -> (r: Result<Counter, CounterError>)
        ensures
            r matches Ok(c) ==> ccg_file_matches(spec_tokenize(text@), c),
            r is Err ==> ccg_file_bad(spec_tokenize(text@)),
    {
        let ghost tls = spec_tokenize(text@);
        let lines = tokenize(text);
        proof {
            assert(tls == line_views(lines@));
            assert(tls.len() == lines@.len());
        }
        if lines.len() == 0 {
            return Err(CounterError::ReadingError("could not read node count.".to_string()));
        }
        proof {
            assert(tls[0] == tok_views(lines@[0]@));
        }
        let header = &lines[0];
        if header.len() < 3 {
            return Err(CounterError::ReadingError("could not read node count.".to_string()));
        }
        let node_count: usize = match parse_usize_tok(header[1].as_slice()) {
            Some(n) => n,
            None => {
                assert(tls[0][1] == lines@[0]@[1]@);
                return Err(CounterError::ReadingError("could not read node count.".to_string()));
            },
        };
        proof {
            assert(tls[0][1] == lines@[0]@[1]@);
        }
        let overall_count = copy_bytes(&header[header.len() - 1]);
        proof {
            assert(tok_views(lines@[0]@).last() == overall_count@);
        }
        if !crate::toks::check_float(&overall_count) {
            return Err(CounterError::ReadingError("could not read node count.".to_string()));
        }
        let mut mapping: Vec<(Vec<u8>, i32)> = Vec::new();
        let mut k: usize = 1;
        while k < lines.len() && lines[k].len() >= 1 && lines[k][0].len() == 1 && lines[k][0][0]
            == 99
            invariant
                tls == spec_tokenize(text@),
                tls == line_views(lines@),
                1 <= k <= lines@.len(),
                map_end(tls, 1) == map_end(tls, k as int),
                map_views(mapping@).len() == k - 1,
                forall|q: int|
                    1 <= q < k ==> (#[trigger] tls[q].len() >= 3 && map_views(mapping@)[q - 1].0
                        == tls[q][1] && spec_i32(tls[q][2]) == Some(map_views(mapping@)[q - 1].1)),
            decreases lines@.len() - k,
        {
            proof {
                assert(tls[k as int] == tok_views(lines@[k as int]@));
                assert(tls[k as int][0] == lines@[k as int]@[0]@);
                assert(tls[k as int][0] =~= seq![99u8]);
                assert(map_end(tls, k as int) == map_end(tls, k + 1));
                lemma_map_end_ge(tls, k + 1);
                assert(map_end(tls, 1) >= k + 1);
            }
            let line = &lines[k];
            if line.len() < 3 {
                proof {
                    assert(1 <= k as int && (k as int) < map_end(tls, 1) && (tls[k as int]).len() < 3);
                    assert(ccg_file_bad(tls));
                }
                return Err(
                    CounterError::ReadingError("could not read atom in mapping.".to_string()),
                );
            }
            let id: i32 = match parse_i32_tok(line[2].as_slice()) {
                Some(v) => v,
                None => {
                    proof {
                        assert(tls[k as int][2] == lines@[k as int]@[2]@);
                        assert(1 <= k as int && (k as int) < map_end(tls, 1) && spec_i32(
                            (tls[k as int])[2],
                        ) is None);
                        assert(ccg_file_bad(tls));
                    }
                    return Err(
                        CounterError::ReadingError(
                            "could not read integer in mapping.".to_string(),
                        ),
                    );
                },
            };
            proof {
                assert(tls[k as int][1] == lines@[k as int]@[1]@);
                assert(tls[k as int][2] == lines@[k as int]@[2]@);
            }
            let name = copy_bytes(&line[1]);
            let ghost old_m = map_views(mapping@);
            mapping.push((name, id));
            proof {
                assert(map_views(mapping@) =~~= old_m.push((tls[k as int][1], id)));
            }
            k += 1;
        }
        proof {
            if k < lines@.len() {
                assert(tls[k as int] == tok_views(lines@[k as int]@));
                if tls[k as int].len() > 0 && tls[k as int][0] == seq![99u8] {
                    assert(lines@[k as int]@[0]@ =~= seq![99u8]);
                    assert(false);
                }
            }
            assert(map_end(tls, k as int) == k as int);
        }
        let counting_graph: Vec<CcgNode> = match parse_ccg_nodes(&lines, k) {
            Some(nodes) => nodes,
            None => {
                return Err(CounterError::ReadingError("could not read nodes.".to_string()));
            },
        };
        Ok(Counter { counting_graph, mapping, node_count, overall_count })
    }

    /// The raw log10 estimate token of the file header.
    pub fn overall_count(&self) -> (r: &Vec<u8>)
        ensures
            r@ == self.overall_token(),
    {
        &self.overall_count
    }
}

/// The count of the graph under the named condition.
pub open spec fn spec_count(c: Counter, cond: Seq<Seq<u8>>) -> int {
    eval_ccg(c.nodes_view(), lit_set(resolved_lits(c.mapping_view(), cond)))
}

/// What the search for the literal of highest count returns, walking the
/// names from `k` on with the best count and name so far: a name whose count
/// reaches `bound` wins outright.
pub open spec fn spec_find_max(
    c: Counter,
    lits: Seq<Seq<u8>>,
    cond: Seq<Seq<u8>>,
    k: int,
    best: int,
    bestl: Option<Seq<u8>>,
    bound: int,
) -> Option<Seq<u8>>
    decreases lits.len() - k,
{
    if k < 0 || k >= lits.len() {
        bestl
    } else {
        let cnt = spec_count(c, cond.push(lits[k]));
        if cnt == bound {
            Some(lits[k])
        } else if cnt >= best {
            spec_find_max(c, lits, cond, k + 1, cnt, Some(lits[k]), bound)
        } else {
            spec_find_max(c, lits, cond, k + 1, best, bestl, bound)
        }
    }
}

/// As `spec_find_max`, for the lowest count; `bound` wins outright.
pub open spec fn spec_find_min(
    c: Counter,
    lits: Seq<Seq<u8>>,
    cond: Seq<Seq<u8>>,
    k: int,
    best: int,
    bestl: Option<Seq<u8>>,
    bound: int,
) -> Option<Seq<u8>>
    decreases lits.len() - k,
{
    if k < 0 || k >= lits.len() {
        bestl
    } else {
        let cnt = spec_count(c, cond.push(lits[k]));
        if cnt == bound {
            Some(lits[k])
        } else if cnt <= best {
            spec_find_min(c, lits, cond, k + 1, cnt, Some(lits[k]), bound)
        } else {
            spec_find_min(c, lits, cond, k + 1, best, bestl, bound)
        }
    }
}

/// A verified copy of a list of names.
pub fn copy_names(v: &Vec<Vec<u8>>) -> (r: Vec<Vec<u8>>)
    ensures
        crate::toks::tok_views(r@) == crate::toks::tok_views(v@),
{
    let mut r: Vec<Vec<u8>> = Vec::new();
    let mut i: usize = 0;
    proof {
        assert(crate::toks::tok_views(r@) =~= crate::toks::tok_views(v@).take(0));
    }
    while i < v.len()
        invariant
            i <= v@.len(),
            crate::toks::tok_views(r@) == crate::toks::tok_views(v@).take(i as int),
        decreases v@.len() - i,
    {
        let ghost old_r = crate::toks::tok_views(r@);
        r.push(copy_bytes(&v[i]));
        proof {
            assert(crate::toks::tok_views(r@) =~= old_r.push(v@[i as int]@));
            assert(crate::toks::tok_views(v@).take(i + 1) =~= crate::toks::tok_views(v@).take(
                i as int,
            ).push(v@[i as int]@));
        }
        i += 1;
    }
    proof {
        assert(crate::toks::tok_views(v@).take(v@.len() as int) =~= crate::toks::tok_views(v@));
    }
    r
}

impl Counter {
    /// The count under the condition extended with one more name.
    fn count_with(&self, condition: &Vec<Vec<u8>>, lit: &Vec<u8>) -> (r: Count)
        requires
            self.wf(),
        ensures
            r@ == spec_count(*self, crate::toks::tok_views(condition@).push(lit@)),
            r@ >= 0,
    {
        let mut ext = copy_names(condition);
        let ghost old_ext = crate::toks::tok_views(ext@);
        ext.push(copy_bytes(lit));
        proof {
            assert(crate::toks::tok_views(ext@) =~= old_ext.push(lit@));
        }
        self.count(&ext)
    }

    /// The name among `literals` whose count under the condition is highest;
    /// a name reaching the undecided count less one wins outright. Assumes
    /// the names denote facets.
    pub fn find_max_among(&self, literals: &Vec<Vec<u8>>, condition: &Vec<Vec<u8>>) -> (r: Option<
        Vec<u8>,
    >)
        requires
            self.wf(),
        ensures
            match r {
                Some(l) => spec_find_max(
                    *self,
                    crate::toks::tok_views(literals@),
                    crate::toks::tok_views(condition@),
                    0,
                    0,
                    None,
                    spec_count(*self, crate::toks::tok_views(condition@)) - 1,
                ) == Some(l@),
                None => spec_find_max(
                    *self,
                    crate::toks::tok_views(literals@),
                    crate::toks::tok_views(condition@),
                    0,
                    0,
                    None,
                    spec_count(*self, crate::toks::tok_views(condition@)) - 1,
                ) is None,
            },
    {
        let ghost lv = crate::toks::tok_views(literals@);
        let ghost cv = crate::toks::tok_views(condition@);
        let counted = self.count(condition);
        let one = Count::from_i32(1);
        let bound = counted.minus(&one);
        let ghost bound_v = spec_count(*self, cv) - 1;
        let mut best = Count::from_i32(0);
        let mut bestl: Option<Vec<u8>> = None;
        let ghost mut bestl_v: Option<Seq<u8>> = None;
        let mut k: usize = 0;
        while k < literals.len()
            invariant
                self.wf(),
                lv == crate::toks::tok_views(literals@),
                cv == crate::toks::tok_views(condition@),
                bound@ == bound_v,
                bound_v == spec_count(*self, cv) - 1,
                k <= lv.len(),
                best@ >= 0,
                bestl matches Some(l) ==> bestl_v == Some(l@),
                bestl is None ==> bestl_v is None,
                spec_find_max(*self, lv, cv, 0, 0, None, bound_v) == spec_find_max(
                    *self,
                    lv,
                    cv,
                    k as int,
                    best@,
                    bestl_v,
                    bound_v,
                ),
            decreases lv.len() - k,
        {
            let cnt = self.count_with(condition, &literals[k]);
            proof {
                assert(spec_find_max(*self, lv, cv, k as int, best@, bestl_v, bound_v) == (if cnt@
                    == bound_v {
                    Some(lv[k as int])
                } else if cnt@ >= best@ {
                    spec_find_max(*self, lv, cv, k as int + 1, cnt@, Some(lv[k as int]), bound_v)
                } else {
                    spec_find_max(*self, lv, cv, k as int + 1, best@, bestl_v, bound_v)
                }));
            }
            if cnt.eq_count(&bound) {
                return Some(copy_bytes(&literals[k]));
            }
            if best.le_count(&cnt) {
                best = cnt;
                bestl = Some(copy_bytes(&literals[k]));
                proof {
                    bestl_v = Some(lv[k as int]);
                }
            }
            k += 1;
        }
        bestl
    }

    /// The name among `literals` whose count under the condition is lowest; a
    /// name reaching count one wins outright. Assumes the names denote
    /// facets.
    pub fn find_min_among(&self, literals: &Vec<Vec<u8>>, condition: &Vec<Vec<u8>>) -> (r: Option<
        Vec<u8>,
    >)
        requires
            self.wf(),
        ensures
            match r {
                Some(l) => spec_find_min(
                    *self,
                    crate::toks::tok_views(literals@),
                    crate::toks::tok_views(condition@),
                    0,
                    spec_count(*self, crate::toks::tok_views(condition@)),
                    None,
                    1,
                ) == Some(l@),
                None => spec_find_min(
                    *self,
                    crate::toks::tok_views(literals@),
                    crate::toks::tok_views(condition@),
                    0,
                    spec_count(*self, crate::toks::tok_views(condition@)),
                    None,
                    1,
                ) is None,
            },
    {
        let ghost lv = crate::toks::tok_views(literals@);
        let ghost cv = crate::toks::tok_views(condition@);
        let mut best = self.count(condition);
        let one = Count::from_i32(1);
        let mut bestl: Option<Vec<u8>> = None;
        let ghost mut bestl_v: Option<Seq<u8>> = None;
        let mut k: usize = 0;
        while k < literals.len()
            invariant
                self.wf(),
                lv == crate::toks::tok_views(literals@),
                cv == crate::toks::tok_views(condition@),
                one@ == 1,
                k <= lv.len(),
                bestl matches Some(l) ==> bestl_v == Some(l@),
                bestl is None ==> bestl_v is None,
                spec_find_min(*self, lv, cv, 0, spec_count(*self, cv), None, 1) == spec_find_min(
                    *self,
                    lv,
                    cv,
                    k as int,
                    best@,
                    bestl_v,
                    1,
                ),
            decreases lv.len() - k,
        {
            let cnt = self.count_with(condition, &literals[k]);
            proof {
                assert(spec_find_min(*self, lv, cv, k as int, best@, bestl_v, 1) == (if cnt@
                    == 1 {
                    Some(lv[k as int])
                } else if cnt@ <= best@ {
                    spec_find_min(*self, lv, cv, k as int + 1, cnt@, Some(lv[k as int]), 1)
                } else {
                    spec_find_min(*self, lv, cv, k as int + 1, best@, bestl_v, 1)
                }));
            }
            if cnt.eq_count(&one) {
                return Some(copy_bytes(&literals[k]));
            }
            if cnt.le_count(&best) {
                best = cnt;
                bestl = Some(copy_bytes(&literals[k]));
                proof {
                    bestl_v = Some(lv[k as int]);
                }
            }
            k += 1;
        }
        bestl
    }
}

/// An atom name under a leading negation mark.
pub open spec fn neg_name(name: Seq<u8>) -> Seq<u8> {
    seq![126u8] + name
}

/// Whether some assumption is this very name, or carries it behind its first
/// byte: such atoms are already decided and not counted as facets.
pub open spec fn removed_by(given: Seq<Seq<u8>>, name: Seq<u8>) -> bool {
    exists|j: int|
        0 <= j < given.len() && (#[trigger] given[j] == name || (given[j].len() >= 1 && given[j].skip(1)
            == name))
}

/// A facet: an atom that some model includes and some model excludes, under
/// the given assumptions.
pub open spec fn is_facet(c: Counter, given: Seq<Seq<u8>>, name: Seq<u8>) -> bool {
    spec_count(c, given.push(neg_name(name))) > 0 && spec_count(c, given.push(name)) > 0
}

/// Whether mapping entry `i` is the last for its name: the one a lookup sees.
pub open spec fn last_occurrence(m: Seq<(Seq<u8>, i32)>, i: int) -> bool {
    forall|j: int| i < j < m.len() ==> (#[trigger] m[j].0) != m[i].0
}

/// The number of facets among the first `k` mapping entries, each distinct
/// name counted once and assumed atoms left out.
pub open spec fn facet_total(c: Counter, given: Seq<Seq<u8>>, k: int) -> int
    decreases k,
{
    if k <= 0 {
        0
    } else {
        facet_total(c, given, k - 1) + (if last_occurrence(c.mapping_view(), k - 1) && !removed_by(
            given,
            c.mapping_view()[k - 1].0,
        ) && is_facet(c, given, c.mapping_view()[k - 1].0) {
            1int
        } else {
            0int
        })
    }
}

impl Counter {
    /// The number of atoms that are facets under the assumptions: atoms the
    /// assumptions already decide are left out, and each distinct atom counts
    /// once.
    pub fn facet_count(&self, assumed: &Vec<Vec<u8>>) -> (r: usize)
        requires
            self.wf(),
        ensures
            r as int == facet_total(*self, crate::toks::tok_views(assumed@), self.mapping_view().len() as int),
    {
        let ghost av = crate::toks::tok_views(assumed@);
        let ghost mv = self.mapping_view();
        let zero = Count::from_i32(0);
        let mut total: usize = 0;
        let mut i: usize = 0;
        while i < self.mapping.len()
            invariant
                self.wf(),
                av == crate::toks::tok_views(assumed@),
                mv == self.mapping_view(),
                zero@ == 0,
                i <= self.mapping@.len(),
                total <= i,
                total as int == facet_total(*self, av, i as int),
            decreases self.mapping@.len() - i,
        {
            // is this entry the one a lookup sees for its name?
            let mut is_last = true;
            let mut j: usize = i + 1;
            while j < self.mapping.len()
                invariant
                    mv == self.mapping_view(),
                    i < self.mapping@.len(),
                    i + 1 <= j <= self.mapping@.len(),
                    is_last == (forall|q: int|
                        i < q < j ==> (#[trigger] mv[q].0) != mv[i as int].0),
                decreases self.mapping@.len() - j,
            {
                proof {
                    assert(self.mapping@[i as int].0@.skip(0) =~= mv[i as int].0);
                    assert(self.mapping@[j as int].0@ == mv[j as int].0);
                }
                if eq_bytes_from(&self.mapping[j].0, &self.mapping[i].0, 0) {
                    is_last = false;
                }
                j += 1;
            }
            // is its atom already decided by an assumption?
            let mut rem = false;
            let mut j2: usize = 0;
            while j2 < assumed.len()
                invariant
                    self.wf(),
                    av == crate::toks::tok_views(assumed@),
                    mv == self.mapping_view(),
                    i < self.mapping@.len(),
                    j2 <= assumed@.len(),
                    rem == (exists|q: int|
                        0 <= q < j2 && (#[trigger] av[q] == mv[i as int].0 || (av[q].len() >= 1
                            && av[q].skip(1) == mv[i as int].0))),
                decreases assumed@.len() - j2,
            {
                proof {
                    assert(self.mapping@[i as int].0@.skip(0) =~= mv[i as int].0);
                    assert(assumed@[j2 as int]@ == av[j2 as int]);
                }
                let mut here = eq_bytes_from(&assumed[j2], &self.mapping[i].0, 0);
                if !here && assumed[j2].len() >= 1 {
                    here = eq_bytes_from(&self.mapping[i].0, &assumed[j2], 1);
                    proof {
                        if here {
                            assert(av[j2 as int].len() >= 1 && av[j2 as int].skip(1)
                                == mv[i as int].0);
                        }
                    }
                }
                if here {
                    rem = true;
                }
                j2 += 1;
            }
            let mut hit = false;
            if is_last && !rem {
                let name = copy_bytes(&self.mapping[i].0);
                let mut neg: Vec<u8> = Vec::new();
                neg.push(126);
                let mut b: usize = 0;
                while b < name.len()
                    invariant
                        b <= name@.len(),
                        neg@ == seq![126u8] + name@.take(b as int),
                    decreases name@.len() - b,
                {
                    neg.push(name[b]);
                    proof {
                        assert(seq![126u8] + name@.take(b + 1) =~= (seq![126u8] + name@.take(
                            b as int,
                        )).push(name@[b as int]));
                    }
                    b += 1;
                }
                proof {
                    assert(name@.take(name@.len() as int) =~= name@);
                    assert(neg@ == neg_name(mv[i as int].0));
                }
                let c1 = self.count_with(assumed, &neg);
                let c2 = self.count_with(assumed, &name);
                if !c1.eq_count(&zero) && !c2.eq_count(&zero) {
                    hit = true;
                }
                proof {
                    assert(hit == is_facet(*self, av, mv[i as int].0));
                }
            }
            proof {
                assert(facet_total(*self, av, i as int + 1) == facet_total(*self, av, i as int) + (
                if last_occurrence(mv, i as int) && !removed_by(av, mv[i as int].0) && is_facet(
                    *self,
                    av,
                    mv[i as int].0,
                ) {
                    1int
                } else {
                    0int
                }));
            }
            if hit {
                total += 1;
            }
            i += 1;
        }
        total
    }
}

} // verus!
