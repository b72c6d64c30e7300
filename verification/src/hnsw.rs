//! The in-memory HNSW graph builder and searcher.
//!
//! Nodes are appended one at a time; each insertion draws a top layer,
//! zooms down from the entry point with greedy one-best searches, then
//! beam-searches every layer from the insertion layer to the ground layer,
//! connecting the new node bidirectionally and pruning any neighbor that
//! exceeds its degree cap.

use vstd::prelude::*;
use crate::distance::{euclidean_distance, spec_sq_l2, MAX_DIM};
use crate::RAW_COMP_MAX;

verus! {

/// One graph node: its raw fixed-point vector, its top layer, and one
/// neighbor list per layer it participates in.
pub struct Node {
    pub id: usize,
    pub vector: Vec<i64>,
    pub layer_max: usize,
    pub connections: Vec<Vec<usize>>,
}

/// The in-memory index: fixed parameters, the node list, and the entry
/// point (the node with the highest top layer).
pub struct HNSW {
    pub layers: usize,
    pub ef_construction: usize,
    pub m: usize,
    pub m0: usize,
    pub nodes: Vec<Node>,
    pub entry_point: Option<usize>,
}

/// Strict order on (distance, id) pairs: by distance, ties by lower id.
pub open spec fn pair_lt(a: (u128, usize), b: (u128, usize)) -> bool {
    a.0 < b.0 || (a.0 == b.0 && a.1 < b.1)
}

/// Strictly ascending under `pair_lt`.
pub open spec fn sorted_pairs(s: Seq<(u128, usize)>) -> bool {
    forall|i: int, j: int| 0 <= i < j < s.len() ==> pair_lt(#[trigger] s[i], #[trigger] s[j])
}

/// How many entries of a boolean sequence are set.
pub open spec fn count_true(s: Seq<bool>) -> nat
    decreases s.len(),
{
    if s.len() == 0 {
        0
    } else {
        count_true(s.drop_last()) + if s.last() {
            1nat
        } else {
            0nat
        }
    }
}

pub(crate) proof fn lemma_count_true_le(s: Seq<bool>)
    ensures
        count_true(s) <= s.len(),
    decreases s.len(),
{
    if s.len() > 0 {
        lemma_count_true_le(s.drop_last());
    }
}

pub(crate) proof fn lemma_count_true_update(s: Seq<bool>, i: int)
    requires
        0 <= i < s.len(),
        !s[i],
    ensures
        count_true(s.update(i, true)) == count_true(s) + 1,
    decreases s.len(),
{
    let t = s.update(i, true);
    if i == s.len() - 1 {
        assert(t.drop_last() =~= s.drop_last());
    } else {
        assert(t.drop_last() =~= s.drop_last().update(i, true));
        lemma_count_true_update(s.drop_last(), i);
    }
}

/// Compare two (distance, id) pairs under the tie-breaking order.
pub(crate) fn pair_less(a: (u128, usize), b: (u128, usize)) -> (r: bool)
    ensures
        r == pair_lt(a, b),
{
    if a.0 < b.0 {
        true
    } else if a.0 == b.0 {
        a.1 < b.1
    } else {
        false
    }
}

/// Insert a pair into a strictly ascending vector, keeping it ascending.
/// The new pair's id must not already be present.
pub(crate) fn sorted_insert(w: &mut Vec<(u128, usize)>, e: (u128, usize))
    requires
        sorted_pairs(old(w)@),
        forall|i: int| 0 <= i < old(w)@.len() ==> (#[trigger] old(w)@[i]).1 != e.1,
    ensures
        final(w)@.len() == old(w)@.len() + 1,
        sorted_pairs(final(w)@),
        final(w)@.contains(e),
        forall|i: int|
            0 <= i < final(w)@.len() ==> (#[trigger] final(w)@[i] == e || old(w)@.contains(
                final(w)@[i],
            )),
        forall|x: (u128, usize)| old(w)@.contains(x) ==> final(w)@.contains(x),
        final(w)@[0] == e || (old(w)@.len() > 0 && final(w)@[0] == old(w)@[0]),
{
    let mut pos: usize = 0;
    while pos < w.len() && pair_less(w[pos], e)
        invariant
            pos <= w@.len(),
            sorted_pairs(w@),
            forall|i: int| 0 <= i < pos ==> pair_lt(#[trigger] w@[i], e),
            w == old(w),
        decreases w@.len() - pos,
    {
        pos = pos + 1;
    }
    proof {
        if (pos as int) < w@.len() {
            assert(!pair_lt(w@[pos as int], e));
            assert(w@[pos as int].1 != e.1);
            assert(pair_lt(e, w@[pos as int]));
        }
    }
    let ghost prev = w@;
    w.insert(pos, e);
    proof {
        prev.insert_ensures(pos as int, e);
        assert(w@[pos as int] == e);
        assert forall|i: int, j: int| 0 <= i < j < w@.len() implies pair_lt(w@[i], w@[j]) by {
            if j < pos {
            } else if i < pos && j == pos {
                assert(w@[i] == prev[i]);
            } else if i < pos && j > pos {
                assert(w@[i] == prev[i]);
                assert(w@[j] == prev[j - 1]);
            } else if i == pos {
                assert(w@[j] == prev[j - 1]);
                assert(pair_lt(e, prev[j - 1]));
            } else {
                assert(w@[i] == prev[i - 1]);
                assert(w@[j] == prev[j - 1]);
            }
        }
        assert forall|x: (u128, usize)| prev.contains(x) implies w@.contains(x) by {
            let k = choose|k: int| 0 <= k < prev.len() && prev[k] == x;
            if k < pos {
                assert(w@[k] == x);
            } else {
                assert(w@[k + 1] == x);
            }
        }
        assert forall|i: int| 0 <= i < w@.len() implies (w@[i] == e || prev.contains(w@[i])) by {
            if i < pos {
                assert(w@[i] == prev[i]);
            } else if i > pos {
                assert(w@[i] == prev[i - 1]);
            }
        }
        if pos == 0 {
            assert(w@[0] == e);
        } else {
            assert(w@[0] == prev[0]);
        }
    }
}

/// A vector of `n` cleared flags.
pub(crate) fn make_false_vec(n: usize) -> (v: Vec<bool>)
    ensures
        v@.len() == n,
        forall|i: int| 0 <= i < n ==> !(#[trigger] v@[i]),
{
    let mut v: Vec<bool> = Vec::new();
    let mut i: usize = 0;
    while i < n
        invariant
            i <= n,
            v@.len() == i,
            forall|j: int| 0 <= j < i ==> !(#[trigger] v@[j]),
        decreases n - i,
    {
        v.push(false);
        i = i + 1;
    }
    v
}

/// Relies on rand::random::<bool>: a fair coin; nothing is assumed of the
/// outcome.
#[verifier::external_body]
fn random_coin() -> bool {
    rand::random::<bool>()
}

impl HNSW {
    /// Degree cap at a layer: `m0` on the ground layer, `m` above it.
    pub open spec fn spec_cap(&self, level: int) -> int {
        if level == 0 {
            self.m0 as int
        } else {
            self.m as int
        }
    }

    /// The index dimension: the length of the first node's vector.
    pub open spec fn spec_dim(&self) -> int {
        if self.nodes@.len() == 0 {
            0
        } else {
            self.nodes@[0].vector@.len() as int
        }
    }

    /// A neighbor list's membership is sound: every id a real node other
    /// than the owner, no id twice, and every neighbor present on that
    /// layer. Says nothing about the degree cap.
    pub open spec fn list_ok(&self, i: int, l: int) -> bool {
        let c = self.nodes@[i].connections@[l]@;
        &&& forall|k: int| 0 <= k < c.len() ==> #[trigger] c[k] < self.nodes@.len()
        &&& forall|k: int| 0 <= k < c.len() ==> #[trigger] c[k] != i
        &&& forall|k: int|
            0 <= k < c.len() ==> self.nodes@[#[trigger] c[k] as int].layer_max >= l
        &&& forall|k1: int, k2: int| 0 <= k1 < k2 < c.len() ==> c[k1] != c[k2]
    }

    /// One neighbor list is well formed: sound membership, within the
    /// layer's degree cap.
    pub open spec fn conn_wf(&self, i: int, l: int) -> bool {
        &&& self.nodes@[i].connections@[l]@.len() <= self.spec_cap(l)
        &&& self.list_ok(i, l)
    }

    /// One node's vector has the index dimension and bounded components.
    pub open spec fn vector_ok(&self, i: int) -> bool {
        let v = self.nodes@[i].vector@;
        &&& v.len() == self.spec_dim()
        &&& forall|c: int| 0 <= c < v.len() ==> -RAW_COMP_MAX <= #[trigger] v[c] <= RAW_COMP_MAX
    }

    /// Every node's vector is usable by the distance kernel.
    pub open spec fn vectors_wf(&self) -> bool {
        &&& self.spec_dim() <= MAX_DIM
        &&& forall|i: int| 0 <= i < self.nodes@.len() ==> self.vector_ok(i)
    }

    /// One node is well formed: dense id, top layer under the ceiling, one
    /// neighbor list per layer, a vector of the index dimension with
    /// bounded components.
    pub open spec fn node_wf(&self, i: int) -> bool {
        let nd = self.nodes@[i];
        &&& nd.id == i
        &&& nd.layer_max < self.layers
        &&& nd.connections@.len() == nd.layer_max + 1
        &&& self.vector_ok(i)
        &&& forall|l: int| 0 <= l < nd.connections@.len() ==> self.conn_wf(i, l)
    }

    /// Strict "closer to the owner" order on two neighbor ids: by exact
    /// squared distance from the owner's vector, ties by lower id.
    pub open spec fn closer_to(&self, owner: int, a: usize, b: usize) -> bool {
        let da = spec_sq_l2(self.nodes@[owner].vector@, self.nodes@[a as int].vector@);
        let db = spec_sq_l2(self.nodes@[owner].vector@, self.nodes@[b as int].vector@);
        da < db || (da == db && a < b)
    }

    /// The whole graph is well formed. Includes the degree caps on every
    /// node and layer, and the entry point's dominance: no node has a
    /// higher top layer.
    pub open spec fn wf(&self) -> bool {
        &&& self.layers >= 1
        &&& self.ef_construction >= 1
        &&& self.spec_dim() <= MAX_DIM
        &&& forall|i: int| 0 <= i < self.nodes@.len() ==> self.node_wf(i)
        &&& match self.entry_point {
            Option::None => self.nodes@.len() == 0,
            Option::Some(e) => e < self.nodes@.len() && forall|i: int|
                0 <= i < self.nodes@.len() ==> (#[trigger] self.nodes@[i].layer_max)
                    <= self.nodes@[e as int].layer_max,
        }
    }

    /// A fresh empty index with the given parameters.
    pub fn new(layers: usize, ef_construction: usize, m: usize, m0: usize) -> (r: Self)
        requires
            layers >= 1,
            ef_construction >= 1,
        ensures
            r.wf(),
            r.layers == layers,
            r.ef_construction == ef_construction,
            r.m == m,
            r.m0 == m0,
            r.nodes@.len() == 0,
            r.entry_point.is_none(),
    {
        Self {
            layers,
            ef_construction,
            m,
            m0,
            nodes: Vec::new(),
            entry_point: Option::None,
        }
    }

    /// A (distance, id) pair speaks of a real node on the given layer and
    /// carries that node's exact distance to the query.
    pub open spec fn cand_ok(&self, query: Seq<i64>, level: int, e: (u128, usize)) -> bool {
        &&& e.1 < self.nodes@.len()
        &&& self.nodes@[e.1 as int].layer_max >= level
        &&& e.0 == spec_sq_l2(query, self.nodes@[e.1 as int].vector@)
    }

    /// Beam search on one layer: starting from `entry_point`, repeatedly
    /// expand the closest unexpanded candidate until the closest one is
    /// farther than the worst of the best `ef` seen. Returns the best
    /// `ef` (or fewer) visited nodes, strictly ascending by distance with
    /// ties broken by lower id.
    #[verifier::loop_isolation(false)]
    fn search_layer(&self, query: &Vec<i64>, entry_point: usize, ef: usize, level: usize) -> (w:
        Vec<(u128, usize)>)
        requires
            self.wf(),
            entry_point < self.nodes@.len(),
            level <= self.nodes@[entry_point as int].layer_max,
            query@.len() == self.spec_dim(),
            forall|c: int|
                0 <= c < query@.len() ==> -RAW_COMP_MAX <= #[trigger] query@[c] <= RAW_COMP_MAX,
            ef >= 1,
        ensures
            1 <= w@.len() <= ef,
            sorted_pairs(w@),
            forall|i: int|
                0 <= i < w@.len() ==> self.cand_ok(query@, level as int, #[trigger] w@[i]),
    {
        let n = self.nodes.len();
        let mut visited = make_false_vec(n);
        proof {
            assert(self.node_wf(entry_point as int));
        }
        let d0 = euclidean_distance(query.as_slice(), self.nodes[entry_point].vector.as_slice());
        let mut cand: Vec<(u128, usize)> = Vec::new();
        cand.push((d0, entry_point));
        let mut w: Vec<(u128, usize)> = Vec::new();
        w.push((d0, entry_point));
        visited[entry_point] = true;
        proof {
            lemma_count_true_le(visited@);
        }
        while cand.len() > 0 && (w.len() < ef || !pair_less(w[w.len() - 1], cand[0]))
            invariant
                visited@.len() == n,
                count_true(visited@) <= n,
                sorted_pairs(cand@),
                sorted_pairs(w@),
                1 <= w@.len() <= ef,
                forall|i: int|
                    0 <= i < cand@.len() ==> self.cand_ok(query@, level as int, #[trigger] cand@[i]),
                forall|i: int|
                    0 <= i < w@.len() ==> self.cand_ok(query@, level as int, #[trigger] w@[i]),
                forall|i: int| 0 <= i < cand@.len() ==> visited@[(#[trigger] cand@[i]).1 as int],
                forall|i: int| 0 <= i < w@.len() ==> visited@[(#[trigger] w@[i]).1 as int],
            decreases 2 * (n - count_true(visited@)) + cand@.len(),
        {
            let c = cand.remove(0);
            let c_id = c.1;
            proof {
                assert(self.node_wf(c_id as int));
            }
            let num = self.nodes[c_id].connections[level].len();
            let ghost g0 = 2 * (n - count_true(visited@)) + cand@.len();
            let mut k: usize = 0;
            while k < num
                invariant
                    visited@.len() == n,
                    count_true(visited@) <= n,
                    sorted_pairs(cand@),
                    sorted_pairs(w@),
                    1 <= w@.len() <= ef,
                    forall|i: int|
                        0 <= i < cand@.len() ==> self.cand_ok(
                            query@,
                            level as int,
                            #[trigger] cand@[i],
                        ),
                    forall|i: int|
                        0 <= i < w@.len() ==> self.cand_ok(query@, level as int, #[trigger] w@[i]),
                    forall|i: int| 0 <= i < cand@.len() ==> visited@[(#[trigger] cand@[i]).1 as int],
                    forall|i: int| 0 <= i < w@.len() ==> visited@[(#[trigger] w@[i]).1 as int],
                    k <= num,
                    c_id < n,
                    self.nodes@[c_id as int].layer_max >= level,
                    num == self.nodes@[c_id as int].connections@[level as int]@.len(),
                    2 * (n - count_true(visited@)) + cand@.len() <= g0,
                decreases num - k,
            {
                proof {
                    assert(self.node_wf(c_id as int));
                    assert(self.conn_wf(c_id as int, level as int));
                }
                let nb = self.nodes[c_id].connections[level][k];
                if !visited[nb] {
                    proof {
                        assert(self.node_wf(nb as int));
                    }
                    let d = euclidean_distance(
                        query.as_slice(),
                        self.nodes[nb].vector.as_slice(),
                    );
                    let wlen = w.len();
                    let accept = wlen < ef || pair_less((d, nb), w[wlen - 1]);
                    if accept {
                        let ghost prev_cand = cand@;
                        let ghost prev_w = w@;
                        sorted_insert(&mut cand, (d, nb));
                        sorted_insert(&mut w, (d, nb));
                        proof {
                            assert forall|i: int| 0 <= i < cand@.len() implies self.cand_ok(
                                query@,
                                level as int,
                                #[trigger] cand@[i],
                            ) && (cand@[i].1 < n) by {
                                if cand@[i] != ((d, nb)) {
                                    let kk = choose|kk: int|
                                        0 <= kk < prev_cand.len() && prev_cand[kk] == cand@[i];
                                }
                            }
                            assert forall|i: int| 0 <= i < w@.len() implies self.cand_ok(
                                query@,
                                level as int,
                                #[trigger] w@[i],
                            ) by {
                                if w@[i] != ((d, nb)) {
                                    let kk = choose|kk: int|
                                        0 <= kk < prev_w.len() && prev_w[kk] == w@[i];
                                }
                            }
                            assert forall|i: int| 0 <= i < cand@.len() implies visited@[(
                            #[trigger] cand@[i]).1 as int] || cand@[i].1 == nb by {
                                if cand@[i] != ((d, nb)) {
                                    let kk = choose|kk: int|
                                        0 <= kk < prev_cand.len() && prev_cand[kk] == cand@[i];
                                } else {
                                    assert(cand@[i].1 == nb);
                                }
                            }
                            assert forall|i: int| 0 <= i < w@.len() implies visited@[(
                            #[trigger] w@[i]).1 as int] || w@[i].1 == nb by {
                                if w@[i] != ((d, nb)) {
                                    let kk = choose|kk: int|
                                        0 <= kk < prev_w.len() && prev_w[kk] == w@[i];
                                } else {
                                    assert(w@[i].1 == nb);
                                }
                            }
                        }
                        if w.len() > ef {
                            w.pop();
                        }
                    }
                    proof {
                        lemma_count_true_update(visited@, nb as int);
                    }
                    visited[nb] = true;
                    proof {
                        lemma_count_true_le(visited@);
                        assert forall|i: int| 0 <= i < cand@.len() implies visited@[(
                        #[trigger] cand@[i]).1 as int] by {}
                    }
                }
                k = k + 1;
            }
        }
        w
    }

    /// Keep only the `max_links` neighbors closest to the node's own
    /// vector, by exact distance with ties broken by lower id. A list
    /// already within the cap is left untouched.
    #[verifier::loop_isolation(false)]
    #[verifier::rlimit(100)]
    fn prune_connections(&mut self, node_id: usize, level: usize, max_links: usize)
        requires
            old(self).vectors_wf(),
            node_id < old(self).nodes@.len(),
            level < old(self).nodes@[node_id as int].connections@.len(),
            old(self).list_ok(node_id as int, level as int),
        ensures
            final(self).layers == old(self).layers,
            final(self).ef_construction == old(self).ef_construction,
            final(self).m == old(self).m,
            final(self).m0 == old(self).m0,
            final(self).entry_point == old(self).entry_point,
            final(self).nodes@.len() == old(self).nodes@.len(),
            forall|i: int|
                0 <= i < old(self).nodes@.len() && i != node_id ==> final(self).nodes@[i] == old(
                    self,
                ).nodes@[i],
            final(self).nodes@[node_id as int].id == old(self).nodes@[node_id as int].id,
            final(self).nodes@[node_id as int].vector == old(self).nodes@[node_id as int].vector,
            final(self).nodes@[node_id as int].layer_max == old(
                self,
            ).nodes@[node_id as int].layer_max,
            final(self).nodes@[node_id as int].connections@.len() == old(
                self,
            ).nodes@[node_id as int].connections@.len(),
            forall|l: int|
                0 <= l < old(self).nodes@[node_id as int].connections@.len() && l != level
                    ==> final(self).nodes@[node_id as int].connections@[l] == old(
                    self,
                ).nodes@[node_id as int].connections@[l],
            ({
                let olist = old(self).nodes@[node_id as int].connections@[level as int]@;
                let nlist = final(self).nodes@[node_id as int].connections@[level as int]@;
                &&& nlist.len() == if olist.len() <= max_links {
                    olist.len() as int
                } else {
                    max_links as int
                }
                &&& (olist.len() <= max_links ==> nlist == olist)
                &&& forall|p: int| 0 <= p < nlist.len() ==> olist.contains(#[trigger] nlist[p])
                &&& forall|x: usize|
                    olist.contains(x) ==> nlist.contains(x) || nlist.len() == max_links
                &&& (olist.len() > max_links ==> forall|p: int, q: int|
                    0 <= p < q < nlist.len() ==> final(self).closer_to(
                        node_id as int,
                        nlist[p],
                        nlist[q],
                    ))
                &&& forall|p: int, x: usize|
                    #![trigger nlist[p], olist.contains(x)]
                    0 <= p < nlist.len() && olist.contains(x) && !nlist.contains(x)
                        ==> final(self).closer_to(node_id as int, nlist[p], x)
            }),
            final(self).list_ok(node_id as int, level as int),
    {
        let list_len = self.nodes[node_id].connections[level].len();
        if list_len <= max_links {
            return ;
        }
        let ghost olist = self.nodes@[node_id as int].connections@[level as int]@;
        let mut pairs: Vec<(u128, usize)> = Vec::new();
        let mut k: usize = 0;
        while k < list_len
            invariant
                k <= list_len,
                pairs@.len() == k,
                sorted_pairs(pairs@),
                self == old(self),
                forall|p: int|
                    0 <= p < pairs@.len() ==> exists|j: int|
                        0 <= j < k && olist[j] == (#[trigger] pairs@[p]).1,
                forall|j: int|
                    0 <= j < k ==> exists|p: int|
                        0 <= p < pairs@.len() && (#[trigger] olist[j]) == pairs@[p].1,
                forall|p: int|
                    0 <= p < pairs@.len() ==> (#[trigger] pairs@[p]).0 as int == spec_sq_l2(
                        self.nodes@[node_id as int].vector@,
                        self.nodes@[pairs@[p].1 as int].vector@,
                    ),
            decreases list_len - k,
        {
            let x = self.nodes[node_id].connections[level][k];
            proof {
                assert(self.vector_ok(node_id as int));
                assert(self.vector_ok(x as int));
            }
            let d = euclidean_distance(
                self.nodes[node_id].vector.as_slice(),
                self.nodes[x].vector.as_slice(),
            );
            proof {
                assert forall|p: int| 0 <= p < pairs@.len() implies (#[trigger] pairs@[p]).1
                    != x by {
                    let j = choose|j: int| 0 <= j < k && olist[j] == pairs@[p].1;
                    assert(olist[j] != olist[k as int]);
                }
            }
            let ghost prev = pairs@;
            sorted_insert(&mut pairs, (d, x));
            proof {
                assert forall|p: int| 0 <= p < pairs@.len() implies exists|j: int|
                    0 <= j < k + 1 && olist[j] == (#[trigger] pairs@[p]).1 by {
                    if pairs@[p] == ((d, x)) {
                        assert(olist[k as int] == pairs@[p].1);
                    } else {
                        let pp = choose|pp: int| 0 <= pp < prev.len() && prev[pp] == pairs@[p];
                        let j = choose|j: int| 0 <= j < k && olist[j] == prev[pp].1;
                        assert(olist[j] == pairs@[p].1);
                    }
                }
                assert forall|j: int| 0 <= j < k + 1 implies exists|p: int|
                    0 <= p < pairs@.len() && (#[trigger] olist[j]) == pairs@[p].1 by {
                    if j == k {
                        assert(pairs@.contains((d, x)));
                        let p = choose|p: int| 0 <= p < pairs@.len() && pairs@[p] == ((d, x));
                        assert(olist[j] == pairs@[p].1);
                    } else {
                        let pp = choose|pp: int| 0 <= pp < prev.len() && olist[j] == prev[pp].1;
                        assert(pairs@.contains(prev[pp]));
                        let p = choose|p: int| 0 <= p < pairs@.len() && pairs@[p] == prev[pp];
                        assert(olist[j] == pairs@[p].1);
                    }
                }
                assert forall|p: int| 0 <= p < pairs@.len() implies (#[trigger] pairs@[p]).0
                    as int == spec_sq_l2(
                    self.nodes@[node_id as int].vector@,
                    self.nodes@[pairs@[p].1 as int].vector@,
                ) by {
                    if pairs@[p] != ((d, x)) {
                        let pp = choose|pp: int| 0 <= pp < prev.len() && prev[pp] == pairs@[p];
                    }
                }
            }
            k = k + 1;
        }
        let ghost full = pairs@;
        pairs.truncate(max_links);
        proof {
            assert(pairs@ =~= full.subrange(0, max_links as int));
        }
        let mut newlist: Vec<usize> = Vec::new();
        let mut p: usize = 0;
        while p < max_links
            invariant
                p <= max_links,
                newlist@.len() == p,
                pairs@.len() == max_links,
                forall|q: int| 0 <= q < p ==> #[trigger] newlist@[q] == pairs@[q].1,
            decreases max_links - p,
        {
            newlist.push(pairs[p].1);
            p = p + 1;
        }
        proof {
            assert forall|p2: int, q2: int| 0 <= p2 < q2 < newlist@.len() implies newlist@[p2]
                != newlist@[q2] by {
                assert(pair_lt(full[p2], full[q2]));
                if full[p2].1 == full[q2].1 {
                    assert(full[p2].0 == full[q2].0);
                }
            }
        }
        self.nodes[node_id].connections[level] = newlist;
        proof {
            let nlist = self.nodes@[node_id as int].connections@[level as int]@;
            assert forall|p2: int| 0 <= p2 < nlist.len() implies olist.contains(
                #[trigger] nlist[p2],
            ) by {
                let j = choose|j: int| 0 <= j < list_len && olist[j] == full[p2].1;
                assert(olist[j] == nlist[p2]);
            }
            assert forall|p2: int, x: usize|
                #![trigger nlist[p2], olist.contains(x)]
                0 <= p2 < nlist.len() && olist.contains(x) && !nlist.contains(x) implies self
                .closer_to(node_id as int, nlist[p2], x) by {
                let j = choose|j: int| 0 <= j < olist.len() && olist[j] == x;
                let q = choose|q: int| 0 <= q < full.len() && olist[j] == full[q].1;
                if q < max_links {
                    assert(nlist[q] == full[q].1);
                    assert(nlist.contains(x));
                } else {
                    assert(pair_lt(full[p2], full[q]));
                }
            }
            assert forall|p2: int, q2: int| 0 <= p2 < q2 < nlist.len() implies self.closer_to(
                node_id as int,
                nlist[p2],
                nlist[q2],
            ) by {
                assert(pair_lt(full[p2], full[q2]));
            }
            assert forall|x: usize| olist.contains(x) implies nlist.contains(x) || nlist.len()
                == max_links by {}
            assert forall|k2: int| 0 <= k2 < nlist.len() implies #[trigger] nlist[k2]
                < self.nodes@.len() && nlist[k2] != node_id && self.nodes@[nlist[k2] as int].layer_max
                >= level by {
                let j = choose|j: int| 0 <= j < olist.len() && olist[j] == nlist[k2];
            }
        }
    }

    /// Every neighbor the node lists on layer `l` either lists it back on
    /// that layer or sits at that layer's degree cap.
    pub open spec fn bidir_done(&self, id: usize, l: int) -> bool {
        let c = self.nodes@[id as int].connections@[l]@;
        forall|j: int|
            0 <= j < c.len() ==> (self.nodes@[(#[trigger] c[j]) as int].connections@[l]@.contains(
                id,
            ) || self.nodes@[c[j] as int].connections@[l]@.len() == self.spec_cap(l))
    }

    /// Draw a top layer: flip a fair coin until it lands tails, capped at
    /// the layer ceiling.
    fn random_level(&self) -> (level: usize)
        requires
            self.layers >= 1,
        ensures
            level < self.layers,
    {
        let mut level: usize = 0;
        while random_coin() && level < self.layers - 1
            invariant
                level <= self.layers - 1,
            decreases self.layers - 1 - level,
        {
            level = level + 1;
        }
        level
    }

    /// Insert a vector, assign it the next dense id, and wire it into the
    /// graph: zoom down from the entry point, beam-search each layer from
    /// its drawn top layer to the ground layer, connect bidirectionally to
    /// the selected neighbors, and prune any neighbor pushed over its cap.
    ///
    /// Afterwards the graph is well formed (degree caps and entry-point
    /// dominance included), every earlier node keeps its id, vector and
    /// top layer, and every neighbor of the new node either lists it back
    /// or sits at its cap.
    #[verifier::loop_isolation(false)]
    #[verifier::rlimit(100)]
    pub fn insert(&mut self, vector: Vec<i64>) -> (id: usize)
        requires
            old(self).wf(),
            vector@.len() <= MAX_DIM,
            forall|c: int|
                0 <= c < vector@.len() ==> -RAW_COMP_MAX <= #[trigger] vector@[c] <= RAW_COMP_MAX,
            old(self).nodes@.len() > 0 ==> vector@.len() == old(self).spec_dim(),
        ensures
            final(self).wf(),
            id == old(self).nodes@.len(),
            final(self).nodes@.len() == old(self).nodes@.len() + 1,
            final(self).nodes@[id as int].vector@ == vector@,
            final(self).layers == old(self).layers,
            final(self).ef_construction == old(self).ef_construction,
            final(self).m == old(self).m,
            final(self).m0 == old(self).m0,
            forall|i: int|
                0 <= i < old(self).nodes@.len() ==> final(self).nodes@[i].vector
                    == old(self).nodes@[i].vector
                    && final(self).nodes@[i].layer_max == old(self).nodes@[i].layer_max
                    && final(self).nodes@[i].id == old(self).nodes@[i].id,
            forall|l: int|
                0 <= l < final(self).nodes@[id as int].connections@.len()
                    ==> final(self).bidir_done(id, l),
    {
        let id = self.nodes.len();
        let ghost n = self.nodes@.len();
        let layer_max = self.random_level();
        let mut connections: Vec<Vec<usize>> = Vec::new();
        let mut li: usize = 0;
        while li < layer_max + 1
            invariant
                li <= layer_max + 1,
                connections@.len() == li,
                forall|l: int| 0 <= l < li ==> (#[trigger] connections@[l])@.len() == 0,
            decreases layer_max + 1 - li,
        {
            connections.push(Vec::new());
            li = li + 1;
        }
        if self.entry_point.is_none() {
            let node = Node { id, vector, layer_max, connections };
            self.nodes.push(node);
            self.entry_point = Option::Some(id);
            proof {
                assert(self.spec_dim() == node.vector@.len());
                assert forall|i: int| 0 <= i < self.nodes@.len() implies self.node_wf(i) by {
                    assert(i == id);
                    assert forall|l: int|
                        0 <= l < self.nodes@[i].connections@.len() implies self.conn_wf(i, l) by {
                        assert(self.nodes@[i].connections@[l]@.len() == 0);
                    }
                }
                assert(self.wf());
            }
            return id;
        }
        let entry = match self.entry_point {
            Option::Some(e) => e,
            Option::None => 0,
        };
        let mut curr = entry;
        let max_layer_global = self.nodes[entry].layer_max;
        if layer_max < max_layer_global {
            let mut level = max_layer_global;
            while level > layer_max
                invariant
                    layer_max <= level <= max_layer_global,
                    curr < self.nodes@.len(),
                    self.nodes@[curr as int].layer_max >= level,
                decreases level,
            {
                let res = self.search_layer(&vector, curr, 1, level);
                curr = res[0].1;
                level = level - 1;
            }
        }
        let start_layer = if layer_max < max_layer_global {
            layer_max
        } else {
            max_layer_global
        };
        let mut lvl_plus: usize = start_layer + 1;
        while lvl_plus > 0
            invariant
                lvl_plus <= start_layer + 1,
                curr < self.nodes@.len(),
                self.nodes@[curr as int].layer_max + 1 >= lvl_plus,
                connections@.len() == layer_max + 1,
                forall|l: int|
                    0 <= l < connections@.len() && !(lvl_plus <= l <= start_layer) ==> (
                    #[trigger] connections@[l])@.len() == 0,
                forall|l: int|
                    lvl_plus <= l <= start_layer ==> (#[trigger] connections@[l])@.len()
                        <= self.spec_cap(l),
                forall|l: int, q: int|
                    lvl_plus <= l <= start_layer && 0 <= q < connections@[l]@.len() ==> (
                    #[trigger] connections@[l]@[q]) < self.nodes@.len(),
                forall|l: int, q: int|
                    lvl_plus <= l <= start_layer && 0 <= q < connections@[l]@.len()
                        ==> self.nodes@[(#[trigger] connections@[l]@[q]) as int].layer_max >= l,
                forall|l: int, q1: int, q2: int|
                    lvl_plus <= l <= start_layer && 0 <= q1 < q2 < connections@[l]@.len()
                        ==> connections@[l]@[q1] != connections@[l]@[q2],
            decreases lvl_plus,
        {
            let level = lvl_plus - 1;
            let candidates = self.search_layer(&vector, curr, self.ef_construction, level);
            let m_level = if level == 0 {
                self.m0
            } else {
                self.m
            };
            let take_n = if candidates.len() < m_level {
                candidates.len()
            } else {
                m_level
            };
            proof {
                assert forall|q1: int, q2: int|
                    0 <= q1 < q2 < candidates@.len() implies candidates@[q1].1
                    != candidates@[q2].1 by {
                    assert(pair_lt(candidates@[q1], candidates@[q2]));
                    if candidates@[q1].1 == candidates@[q2].1 {
                        assert(candidates@[q1].0 == candidates@[q2].0);
                    }
                }
            }
            let mut neighbors: Vec<usize> = Vec::new();
            let mut t: usize = 0;
            while t < take_n
                invariant
                    t <= take_n,
                    neighbors@.len() == t,
                    forall|q: int| 0 <= q < t ==> #[trigger] neighbors@[q] == candidates@[q].1,
                decreases take_n - t,
            {
                neighbors.push(candidates[t].1);
                t = t + 1;
            }
            connections[level] = neighbors;
            curr = candidates[0].1;
            lvl_plus = level;
        }
        let ghost conns_snap = connections@;
        let node = Node { id, vector, layer_max, connections };
        self.nodes.push(node);
        if layer_max > max_layer_global {
            self.entry_point = Option::Some(id);
        }
        let ghost g1 = *self;
        proof {
            assert(self.spec_dim() == old(self).spec_dim());
            assert forall|i: int| 0 <= i < n implies self.node_wf(i) by {
                assert(old(self).node_wf(i));
                assert(self.nodes@[i] == old(self).nodes@[i]);
                assert(self.vector_ok(i));
                assert forall|l: int|
                    0 <= l < self.nodes@[i].connections@.len() implies self.conn_wf(i, l) by {
                    assert(old(self).conn_wf(i, l));
                }
            }
            assert(self.node_wf(id as int)) by {
                assert forall|l: int|
                    0 <= l < self.nodes@[id as int].connections@.len() implies self.conn_wf(
                    id as int,
                    l,
                ) by {
                    if !(0 <= l <= start_layer) {
                        assert(conns_snap[l]@.len() == 0);
                    }
                }
            }
        }
        proof {
            if layer_max > max_layer_global {
                assert forall|i: int|
                    0 <= i < self.nodes@.len() implies (#[trigger] self.nodes@[i].layer_max)
                    <= self.nodes@[id as int].layer_max by {
                    if i < n {
                        assert(old(self).nodes@[i].layer_max <= old(
                            self,
                        ).nodes@[entry as int].layer_max);
                    }
                }
            } else {
                assert forall|i: int|
                    0 <= i < self.nodes@.len() implies (#[trigger] self.nodes@[i].layer_max)
                    <= self.nodes@[entry as int].layer_max by {
                    if i < n {
                        assert(old(self).nodes@[i].layer_max <= old(
                            self,
                        ).nodes@[entry as int].layer_max);
                    }
                }
            }
            assert(self.wf());
            assert forall|i: int, l: int|
                #![trigger self.nodes@[i].connections@[l]]
                0 <= i < n && 0 <= l < start_layer + 1 && l < self.nodes@[i].connections@.len()
                    implies !self.nodes@[i].connections@[l]@.contains(id) by {
                assert(self.nodes@[i] == old(self).nodes@[i]);
                assert(old(self).node_wf(i));
                assert(old(self).conn_wf(i, l));
                if self.nodes@[i].connections@[l]@.contains(id) {
                    let k = choose|k: int|
                        0 <= k < self.nodes@[i].connections@[l]@.len()
                            && self.nodes@[i].connections@[l]@[k] == id;
                    assert(old(self).nodes@[i].connections@[l]@[k] < n);
                }
            }
        }
        let mut lvl2: usize = start_layer + 1;
        while lvl2 > 0
            invariant
                lvl2 <= start_layer + 1,
                self.wf(),
                self.nodes@.len() == n + 1,
                self.layers == g1.layers,
                self.ef_construction == g1.ef_construction,
                self.m == g1.m,
                self.m0 == g1.m0,
                self.entry_point == g1.entry_point || self.entry_point == Option::Some(id),
                self.nodes@[id as int] == g1.nodes@[id as int],
                forall|i: int|
                    0 <= i < n ==> (#[trigger] self.nodes@[i]).vector == g1.nodes@[i].vector
                        && self.nodes@[i].layer_max == g1.nodes@[i].layer_max && self.nodes@[i].id
                        == g1.nodes@[i].id,
                forall|l: int| lvl2 <= l <= start_layer ==> #[trigger] self.bidir_done(id, l),
                forall|i: int, l: int|
                    #![trigger self.nodes@[i].connections@[l]]
                    0 <= i < n && 0 <= l < lvl2 && l < self.nodes@[i].connections@.len()
                        ==> !self.nodes@[i].connections@[l]@.contains(id),
            decreases lvl2,
        {
            let level = lvl2 - 1;
            proof {
                assert(self.node_wf(id as int));
                assert(self.conn_wf(id as int, level as int));
            }
            let num = self.nodes[id].connections[level].len();
            proof {
                assert forall|j2: int| 0 <= j2 < num implies {
                    let b = #[trigger] self.nodes@[id as int].connections@[level as int]@[j2];
                    !self.nodes@[b as int].connections@[level as int]@.contains(id)
                } by {
                    let b = self.nodes@[id as int].connections@[level as int]@[j2];
                    assert(b < self.nodes@.len());
                    assert(b != id);
                    assert(self.node_wf(b as int));
                    assert(self.nodes@[b as int].layer_max >= level as int);
                    assert((level as int) < self.nodes@[b as int].connections@.len());
                }
            }
            let mut j: usize = 0;
            while j < num
                invariant
                    j <= num,
                    lvl2 >= 1,
                    level == lvl2 - 1,
                    level <= start_layer,
                    self.wf(),
                    self.nodes@.len() == n + 1,
                    self.layers == g1.layers,
                    self.ef_construction == g1.ef_construction,
                    self.m == g1.m,
                    self.m0 == g1.m0,
                    self.entry_point == g1.entry_point || self.entry_point == Option::Some(id),
                    self.nodes@[id as int] == g1.nodes@[id as int],
                    num == self.nodes@[id as int].connections@[level as int]@.len(),
                    forall|i: int|
                        0 <= i < n ==> (#[trigger] self.nodes@[i]).vector == g1.nodes@[i].vector
                            && self.nodes@[i].layer_max == g1.nodes@[i].layer_max
                            && self.nodes@[i].id == g1.nodes@[i].id,
                    forall|l: int| lvl2 <= l <= start_layer ==> #[trigger] self.bidir_done(id, l),
                    forall|j2: int|
                        0 <= j2 < j ==> {
                            let b = #[trigger] self.nodes@[id as int].connections@[level as int]@[j2];
                            self.nodes@[b as int].connections@[level as int]@.contains(id)
                                || self.nodes@[b as int].connections@[level as int]@.len()
                                == self.spec_cap(level as int)
                        },
                    forall|i: int, l: int|
                        #![trigger self.nodes@[i].connections@[l]]
                        0 <= i < n && 0 <= l < level && l < self.nodes@[i].connections@.len()
                            ==> !self.nodes@[i].connections@[l]@.contains(id),
                    forall|j2: int|
                        j <= j2 < num ==> {
                            let b = #[trigger] self.nodes@[id as int].connections@[level as int]@[j2];
                            !self.nodes@[b as int].connections@[level as int]@.contains(id)
                        },
                decreases num - j,
            {
                proof {
                    assert(self.node_wf(id as int));
                    assert(self.conn_wf(id as int, level as int));
                }
                let b = self.nodes[id].connections[level][j];
                let ghost g2 = *self;
                proof {
                    assert(self.node_wf(b as int));
                    assert(self.conn_wf(b as int, level as int));
                    assert(b != id);
                    assert(!self.nodes@[b as int].connections@[level as int]@.contains(id));
                    assert forall|k: int|
                        0 <= k < self.nodes@[b as int].connections@[level as int]@.len() implies (
                        #[trigger] self.nodes@[b as int].connections@[level as int]@[k]) != id by {
                        if self.nodes@[b as int].connections@[level as int]@[k] == id {
                            assert(self.nodes@[b as int].connections@[level as int]@.contains(id));
                        }
                    }
                }
                self.nodes[b].connections[level].push(id);
                let max_links = if level == 0 {
                    self.m0
                } else {
                    self.m
                };
                proof {
                    assert(self.vectors_wf()) by {
                        assert forall|i: int| 0 <= i < self.nodes@.len() implies self.vector_ok(
                            i,
                        ) by {
                            assert(g2.node_wf(i));
                            assert(g2.vector_ok(i));
                        }
                    }
                    assert(self.list_ok(b as int, level as int)) by {
                        let c = self.nodes@[b as int].connections@[level as int]@;
                        let c0 = g2.nodes@[b as int].connections@[level as int]@;
                        assert(c =~= c0.push(id));
                        assert(g2.conn_wf(b as int, level as int));
                        assert forall|k: int| 0 <= k < c.len() implies #[trigger] c[k]
                            < self.nodes@.len() && c[k] != b
                            && self.nodes@[c[k] as int].layer_max >= level as int by {
                            if k < c0.len() {
                                assert(c[k] == c0[k]);
                            } else {
                                assert(c[k] == id);
                            }
                        }
                        assert forall|k1: int, k2: int| 0 <= k1 < k2 < c.len() implies c[k1]
                            != c[k2] by {
                            if k2 == c0.len() {
                                assert(c[k2] == id);
                            }
                        }
                    }
                }
                let ghost g3 = *self;
                self.prune_connections(b, level, max_links);
                proof {
                    let cpruned = self.nodes@[b as int].connections@[level as int]@;
                    let cpushed = g3.nodes@[b as int].connections@[level as int]@;
                    assert(cpushed.contains(id)) by {
                        assert(cpushed[cpushed.len() - 1] == id);
                    }
                    assert(cpruned.contains(id) || cpruned.len() == max_links);
                    assert(self.wf()) by {
                        assert forall|i: int| 0 <= i < self.nodes@.len() implies self.node_wf(
                            i,
                        ) by {
                            assert(g2.node_wf(i));
                            if i == b {
                                assert forall|l: int|
                                    0 <= l < self.nodes@[i].connections@.len() implies self.conn_wf(
                                    i,
                                    l,
                                ) by {
                                    if l == level {
                                        assert(self.list_ok(b as int, level as int));
                                        assert(cpruned.len() <= self.spec_cap(level as int));
                                    } else {
                                        assert(g2.conn_wf(i, l));
                                        assert(self.nodes@[i].connections@[l]
                                            == g2.nodes@[i].connections@[l]);
                                    }
                                }
                            } else {
                                assert(self.nodes@[i] == g2.nodes@[i]);
                                assert forall|l: int|
                                    0 <= l < self.nodes@[i].connections@.len() implies self.conn_wf(
                                    i,
                                    l,
                                ) by {
                                    assert(g2.conn_wf(i, l));
                                }
                            }
                        }
                    }
                    assert forall|l: int| lvl2 <= l <= start_layer implies #[trigger] self
                        .bidir_done(id, l) by {
                        assert(g2.bidir_done(id, l));
                        let c = self.nodes@[id as int].connections@[l]@;
                        assert forall|j3: int|
                            0 <= j3 < c.len() implies (self.nodes@[(
                        #[trigger] c[j3]) as int].connections@[l]@.contains(id)
                            || self.nodes@[c[j3] as int].connections@[l]@.len() == self.spec_cap(
                            l,
                        )) by {
                            if c[j3] == b {
                                assert(self.nodes@[b as int].connections@[l]
                                    == g2.nodes@[b as int].connections@[l]);
                            } else {
                                assert(self.nodes@[c[j3] as int] == g2.nodes@[c[j3] as int]);
                            }
                        }
                    }
                }
                j = j + 1;
            }
            lvl2 = level;
        }
        id
    }

    /// Nearest-neighbor query against the in-memory graph: zoom down from
    /// the entry point to the ground layer, beam-search there with width
    /// `max(k, ef_construction)`, and return up to `k` pairs of node id
    /// and exact squared distance, ascending by distance with ties broken
    /// by lower id. An empty index yields an empty result.
    #[verifier::loop_isolation(false)]
    pub fn search(&self, query: &Vec<i64>, k: usize) -> (results: Vec<(usize, u128)>)
        requires
            self.wf(),
            self.nodes@.len() > 0 ==> query@.len() == self.spec_dim(),
            forall|c: int|
                0 <= c < query@.len() ==> -RAW_COMP_MAX <= #[trigger] query@[c] <= RAW_COMP_MAX,
        ensures
            results@.len() <= k,
            self.nodes@.len() == 0 ==> results@.len() == 0,
            self.nodes@.len() > 0 && k > 0 ==> results@.len() >= 1,
            forall|i: int|
                0 <= i < results@.len() ==> (#[trigger] results@[i]).0 < self.nodes@.len(),
            forall|i: int|
                0 <= i < results@.len() ==> (#[trigger] results@[i]).1 == spec_sq_l2(
                    query@,
                    self.nodes@[results@[i].0 as int].vector@,
                ),
            forall|i: int, j: int|
                0 <= i < j < results@.len() ==> pair_lt(
                    (results@[i].1, results@[i].0),
                    (results@[j].1, results@[j].0),
                ),
    {
        if self.entry_point.is_none() {
            return Vec::new();
        }
        let entry = match self.entry_point {
            Option::Some(e) => e,
            Option::None => 0,
        };
        let mut curr = entry;
        let max_layer = self.nodes[entry].layer_max;
        let mut level = max_layer;
        while level > 0
            invariant
                level <= max_layer,
                curr < self.nodes@.len(),
                self.nodes@[curr as int].layer_max >= level,
            decreases level,
        {
            let res = self.search_layer(query, curr, 1, level);
            curr = res[0].1;
            level = level - 1;
        }
        let ef = if k > self.ef_construction {
            k
        } else {
            self.ef_construction
        };
        let candidates = self.search_layer(query, curr, ef, 0);
        let take_n = if candidates.len() < k {
            candidates.len()
        } else {
            k
        };
        let mut results: Vec<(usize, u128)> = Vec::new();
        let mut t: usize = 0;
        while t < take_n
            invariant
                t <= take_n,
                results@.len() == t,
                forall|i: int|
                    0 <= i < t ==> #[trigger] results@[i] == (candidates@[i].1, candidates@[i].0),
            decreases take_n - t,
        {
            let c = candidates[t];
            results.push((c.1, c.0));
            t = t + 1;
        }
        results
    }
}

} // verus!
