//! The neighbourhood of a scrap: the scraps within a few links of it, in
//! either direction, found breadth first, with every link among them.
//!
//! The walk is capped twice: by depth (at most `MAX_DEPTH` rings) and by a
//! node count. The node cap is what bounds a hub's neighbourhood; the names
//! it kept out are counted.

use vstd::prelude::*;

use crate::backlinks::{backlinks_of, BacklinksMap};
use crate::error::ScrapsError;
use crate::lint::{keys_of, last_scrap_with_key, last_with_key, self_keys};
use crate::model::{
    contains_key, dedup, key_views, lemma_dedup_push, links, opt_chars, scrap_views, self_key,
    KeyV, Scrap, ScrapKey, ScrapV,
};
use crate::order::{by_name, name_triple, sort_by_name};

verus! {

broadcast use crate::model::lemma_scrap_view;

/// How many rings the walk opens at most, whatever depth is asked for.
pub const MAX_DEPTH: usize = 5;

/// The state of a walk: the names taken in, in the order they came, with
/// the hop each came at, and the names the node cap refused.
#[verifier::ext_equal]
pub struct WalkState {
    pub order: Seq<KeyV>,
    pub hops: Seq<int>,
    pub dropped: Seq<KeyV>,
}

/// Takes in `k` at `hop` unless it is already in or the cap is reached; a
/// refused name is remembered once.
pub open spec fn take_in(st: WalkState, k: KeyV, hop: int, limit: int) -> WalkState {
    if st.order.contains(k) {
        st
    } else if st.order.len() >= limit {
        WalkState {
            order: st.order,
            hops: st.hops,
            dropped: if st.dropped.contains(k) {
                st.dropped
            } else {
                st.dropped.push(k)
            },
        }
    } else {
        WalkState { order: st.order.push(k), hops: st.hops.push(hop), dropped: st.dropped }
    }
}

/// Takes in each of `ks` in turn.
pub open spec fn take_in_all(st: WalkState, ks: Seq<KeyV>, hop: int, limit: int) -> WalkState
    decreases ks.len(),
{
    if ks.len() == 0 {
        st
    } else {
        take_in(take_in_all(st, ks.drop_last(), hop, limit), ks.last(), hop, limit)
    }
}

/// The scraps `k` links to, in link order: the links of the scrap known by
/// `k` that name a scrap.
pub open spec fn out_neighbors(ss: Seq<ScrapV>, k: KeyV) -> Seq<KeyV> {
    match last_with_key(ss, k) {
        Some(s) => links(s).filter(|l: KeyV| self_keys(ss).contains(l)),
        None => seq![],
    }
}

/// The scraps that link to `k` and are not among its out-neighbours, in
/// name order.
pub open spec fn in_neighbors(ss: Seq<ScrapV>, k: KeyV) -> Seq<KeyV> {
    by_name(
        dedup(backlinks_of(ss, k).map_values(|s: ScrapV| self_key(s))).filter(
            |x: KeyV| !out_neighbors(ss, k).contains(x),
        ),
    )
}

/// The scraps one link away from `k`: those it links to, then those that
/// link to it.
pub open spec fn neighbors(ss: Seq<ScrapV>, k: KeyV) -> Seq<KeyV> {
    out_neighbors(ss, k) + in_neighbors(ss, k)
}

/// Processes the `i`-th name taken in: below `depth`, its neighbours are
/// taken in one hop further.
pub open spec fn step(ss: Seq<ScrapV>, st: WalkState, i: int, depth: int, limit: int) -> WalkState {
    if st.hops[i] >= depth {
        st
    } else {
        take_in_all(st, neighbors(ss, st.order[i]), st.hops[i] + 1, limit)
    }
}

/// Processes the names taken in from the `i`-th on, in order, for at most
/// `fuel` steps.
pub open spec fn run(
    ss: Seq<ScrapV>,
    st: WalkState,
    i: int,
    depth: int,
    limit: int,
    fuel: nat,
) -> WalkState
    decreases fuel,
{
    if fuel == 0 || i < 0 || i >= st.order.len() {
        st
    } else {
        run(ss, step(ss, st, i, depth, limit), i + 1, depth, limit, (fuel - 1) as nat)
    }
}

/// The walk from `root`: `root` at hop 0, then breadth first.
pub open spec fn walk(ss: Seq<ScrapV>, root: KeyV, depth: int, limit: int) -> WalkState {
    let start = take_in(WalkState { order: seq![], hops: seq![], dropped: seq![] }, root, 0, limit);
    run(
        ss,
        start,
        0,
        if depth < MAX_DEPTH {
            depth
        } else {
            MAX_DEPTH as int
        },
        limit,
        (limit + 1) as nat,
    )
}

/// The links from `k` to names among `order`, in link order.
pub open spec fn out_edges(ss: Seq<ScrapV>, order: Seq<KeyV>, k: KeyV) -> Seq<(KeyV, KeyV)> {
    match last_with_key(ss, k) {
        Some(s) => links(s).filter(|l: KeyV| order.contains(l)).map_values(|l: KeyV| (k, l)),
        None => seq![],
    }
}

/// The links among the names of `order`, from each of `from` in turn.
pub open spec fn edges_from(ss: Seq<ScrapV>, order: Seq<KeyV>, from: Seq<KeyV>) -> Seq<
    (KeyV, KeyV),
>
    decreases from.len(),
{
    if from.len() == 0 {
        seq![]
    } else {
        edges_from(ss, order, from.drop_last()) + out_edges(ss, order, from.last())
    }
}

/// A scrap named by the result.
#[derive(Debug, Clone, PartialEq, Eq)]
pub struct ScrapRef {
    pub title: String,
    pub ctx: Option<String>,
}

impl View for ScrapRef {
    type V = KeyV;

    open spec fn view(&self) -> KeyV {
        KeyV { ctx: opt_chars(self.ctx), title: self.title@ }
    }
}

impl ScrapRef {
    pub fn from_key(key: &ScrapKey) -> (r: ScrapRef)
        ensures
            r@ == key@,
    {
        ScrapRef { title: key.title.clone(), ctx: crate::model::clone_opt(&key.ctx) }
    }
}

/// A scrap of the neighbourhood and the hop it was reached at.
#[derive(Debug, Clone, PartialEq, Eq)]
pub struct NeighborhoodNode {
    pub scrap: ScrapRef,
    pub hop: usize,
}

/// A link between two scraps of the neighbourhood.
#[derive(Debug, Clone, PartialEq, Eq)]
pub struct NeighborhoodEdge {
    pub from: ScrapRef,
    pub to: ScrapRef,
}

/// A neighbourhood: its scraps in order of discovery, the links among them,
/// and how many scraps the node cap kept out.
#[derive(Debug, Clone, PartialEq, Eq)]
pub struct LookupScrapNeighborhoodResult {
    pub nodes: Vec<NeighborhoodNode>,
    pub edges: Vec<NeighborhoodEdge>,
    pub dropped: usize,
}

pub open spec fn node_views(v: Seq<NeighborhoodNode>) -> Seq<(KeyV, int)> {
    v.map_values(|n: NeighborhoodNode| (n.scrap@, n.hop as int))
}

pub open spec fn edge_views(v: Seq<NeighborhoodEdge>) -> Seq<(KeyV, KeyV)> {
    v.map_values(|e: NeighborhoodEdge| (e.from@, e.to@))
}

/// The nodes of a walk: each name taken in, with its hop.
pub open spec fn walk_nodes(w: WalkState) -> Seq<(KeyV, int)> {
    Seq::new(w.order.len(), |i: int| (w.order[i], w.hops[i]))
}

/// What a neighbourhood lookup returns, as values.
pub open spec fn neighborhood_of(ss: Seq<ScrapV>, root: KeyV, depth: int, limit: int) -> (
    Seq<(KeyV, int)>,
    Seq<(KeyV, KeyV)>,
    int,
) {
    let w = walk(ss, root, depth, limit);
    (walk_nodes(w), edges_from(ss, w.order, w.order), w.dropped.len() as int)
}

fn take_in_exec(
    order: &mut Vec<ScrapKey>,
    hops: &mut Vec<usize>,
    dropped: &mut Vec<ScrapKey>,
    k: &ScrapKey,
    hop: usize,
    limit: usize,
)
    requires
        old(order).len() == old(hops).len(),
    ensures
        final(order).len() == final(hops).len(),
        final(order).len() >= old(order).len(),
        old(order).len() <= limit ==> final(order).len() <= limit,
        (WalkState {
            order: key_views(final(order)@),
            hops: final(hops)@.map_values(|h: usize| h as int),
            dropped: key_views(final(dropped)@),
        }) == take_in(
            WalkState {
                order: key_views(old(order)@),
                hops: old(hops)@.map_values(|h: usize| h as int),
                dropped: key_views(old(dropped)@),
            },
            k@,
            hop as int,
            limit as int,
        ),
{
    let ghost o = key_views(order@);
    let ghost h = hops@.map_values(|x: usize| x as int);
    let ghost d = key_views(dropped@);
    if contains_key(order, k) {
        return ;
    }
    if order.len() >= limit {
        if !contains_key(dropped, k) {
            dropped.push(k.duplicate());
            assert(key_views(dropped@) =~= d.push(k@));
        }
        return ;
    }
    order.push(k.duplicate());
    hops.push(hop);
    assert(key_views(order@) =~= o.push(k@));
    assert(hops@.map_values(|x: usize| x as int) =~= h.push(hop as int));
}

/// Looks up the neighbourhood of one scrap.
pub struct LookupScrapNeighborhoodUsecase;

impl LookupScrapNeighborhoodUsecase {
    /// The scraps one link away from `key`: those it links to, in link
    /// order, then those linking to it, in name order.
    fn neighbors_of(scraps: &[Scrap], keys: &Vec<ScrapKey>, bm: &BacklinksMap, key: &ScrapKey) -> (r:
        Vec<ScrapKey>)
        requires
            key_views(keys@) == self_keys(scrap_views(scraps@)),
            bm@ == scrap_views(scraps@),
        ensures
            key_views(r@) == neighbors(scrap_views(scraps@), key@),
    {
        let ghost sv = scrap_views(scraps@);
        let mut out: Vec<ScrapKey> = Vec::new();
        match last_scrap_with_key(scraps, key) {
            Some(t) => {
                let ls = scraps[t].links();
                let ghost lv = key_views(ls@);
                let ghost p = |l: KeyV| self_keys(sv).contains(l);
                let mut j: usize = 0;
                while j < ls.len()
                    invariant
                        j <= ls.len(),
                        lv == key_views(ls@),
                        sv == scrap_views(scraps@),
                        key_views(keys@) == self_keys(sv),
                        p == (|l: KeyV| self_keys(sv).contains(l)),
                        key_views(out@) == lv.take(j as int).filter(p),
                    decreases ls.len() - j,
                {
                    proof {
                        crate::backlinks::lemma_filter_take_step(lv, p, j as int);
                    }
                    assert(lv[j as int] == ls@[j as int]@);
                    if contains_key(keys, &ls[j]) {
                        let ghost before = key_views(out@);
                        out.push(ls[j].duplicate());
                        assert(key_views(out@) =~= before.push(lv[j as int]));
                    }
                    j += 1;
                }
                assert(lv.take(ls.len() as int) =~= lv);
            },
            None => {},
        }
        assert(key_views(out@) == out_neighbors(sv, key@));
        let ghost outv = key_views(out@);
        let linking = bm.get(key);
        let ghost raw = backlinks_of(sv, key@).map_values(|s: ScrapV| self_key(s));
        let ghost q = |x: KeyV| !outv.contains(x);
        let mut fresh: Vec<ScrapKey> = Vec::new();
        let mut seen: Vec<ScrapKey> = Vec::new();
        let mut m: usize = 0;
        while m < linking.len()
            invariant
                m <= linking.len(),
                scrap_views(linking@) == backlinks_of(sv, key@),
                raw == backlinks_of(sv, key@).map_values(|s: ScrapV| self_key(s)),
                q == (|x: KeyV| !outv.contains(x)),
                outv == key_views(out@),
                key_views(seen@) == dedup(raw.take(m as int)),
                key_views(fresh@) == dedup(raw.take(m as int)).filter(q),
            decreases linking.len() - m,
        {
            let lk = linking[m].self_key();
            assert(raw[m as int] == lk@);
            assert(raw.take(m + 1).drop_last() =~= raw.take(m as int));
            proof {
                lemma_dedup_push(raw.take(m as int), lk@);
            }
            assert(raw.take(m + 1) =~= raw.take(m as int).push(lk@));
            if !contains_key(&seen, &lk) {
                let ghost d0 = dedup(raw.take(m as int));
                proof {
                    assert(d0.push(lk@).drop_last() =~= d0);
                    reveal_with_fuel(Seq::filter, 1);
                }
                if !contains_key(&out, &lk) {
                    let ghost before = key_views(fresh@);
                    fresh.push(lk.duplicate());
                    assert(key_views(fresh@) =~= before.push(lk@));
                }
                let ghost sb = key_views(seen@);
                seen.push(lk);
                assert(key_views(seen@) =~= sb.push(raw[m as int]));
            }
            m += 1;
        }
        assert(raw.take(linking.len() as int) =~= raw);
        let sorted = sort_by_name(&fresh);
        let ghost ov = key_views(out@);
        let mut k: usize = 0;
        while k < sorted.len()
            invariant
                k <= sorted.len(),
                key_views(out@) == ov + key_views(sorted@).take(k as int),
            decreases sorted.len() - k,
        {
            let ghost before = key_views(out@);
            out.push(sorted[k].duplicate());
            assert(key_views(sorted@).take(k + 1) =~= key_views(sorted@).take(k as int).push(
                sorted@[k as int]@,
            ));
            assert(key_views(out@) =~= before.push(sorted@[k as int]@));
            k += 1;
        }
        assert(key_views(sorted@).take(sorted.len() as int) =~= key_views(sorted@));
        out
    }

    /// The links among `order`, from each name in turn, in link order.
    fn induced_edges(scraps: &[Scrap], order: &Vec<ScrapKey>) -> (r: Vec<NeighborhoodEdge>)
        ensures
            edge_views(r@) == edges_from(scrap_views(scraps@), key_views(order@), key_views(order@)),
    {
        let ghost sv = scrap_views(scraps@);
        let ghost ov = key_views(order@);
        let mut edges: Vec<NeighborhoodEdge> = Vec::new();
        let mut i: usize = 0;
        while i < order.len()
            invariant
                i <= order.len(),
                sv == scrap_views(scraps@),
                ov == key_views(order@),
                edge_views(edges@) == edges_from(sv, ov, ov.take(i as int)),
            decreases order.len() - i,
        {
            let key = &order[i];
            assert(ov.take(i + 1).drop_last() =~= ov.take(i as int));
            assert(ov.take(i + 1).last() == key@);
            let ghost before = edge_views(edges@);
            match last_scrap_with_key(scraps, key) {
                Some(t) => {
                    let ls = scraps[t].links();
                    let ghost lv = key_views(ls@);
                    let ghost p = |l: KeyV| ov.contains(l);
                    let ghost g = |l: KeyV| (key@, l);
                    let mut j: usize = 0;
                    while j < ls.len()
                        invariant
                            j <= ls.len(),
                            lv == key_views(ls@),
                            ov == key_views(order@),
                            p == (|l: KeyV| ov.contains(l)),
                            g == (|l: KeyV| (key@, l)),
                            edge_views(edges@) == before + lv.take(j as int).filter(p).map_values(g),
                        decreases ls.len() - j,
                    {
                        proof {
                            crate::backlinks::lemma_filter_take_step(lv, p, j as int);
                        }
                        assert(lv[j as int] == ls@[j as int]@);
                        if contains_key(order, &ls[j]) {
                            let ghost e0 = edge_views(edges@);
                            edges.push(
                                NeighborhoodEdge {
                                    from: ScrapRef::from_key(key),
                                    to: ScrapRef::from_key(&ls[j]),
                                },
                            );
                            assert(lv.take(j + 1).filter(p).map_values(g) =~= lv.take(
                                j as int,
                            ).filter(p).map_values(g).push(g(lv[j as int])));
                            assert(edge_views(edges@) =~= e0.push(g(lv[j as int])));
                        }
                        j += 1;
                    }
                    assert(lv.take(ls.len() as int) =~= lv);
                    assert(edge_views(edges@) =~= before + out_edges(sv, ov, key@));
                },
                None => {
                    assert(edge_views(edges@) =~= before + out_edges(sv, ov, key@));
                },
            }
            i += 1;
        }
        assert(ov.take(order.len() as int) =~= ov);
        edges
    }

    pub fn new() -> (r: LookupScrapNeighborhoodUsecase) {
        LookupScrapNeighborhoodUsecase
    }

    /// The scraps within `depth` links of the scrap named by `title` and
    /// `ctx` (at most `MAX_DEPTH`), at most `limit` of them, nearest first,
    /// with every link among them and the number of scraps left out by the
    /// cap. A name no scrap has is an error, not an empty neighbourhood.
    pub fn execute(
        &self,
        scraps: &[Scrap],
        title: &str,
        ctx: &Option<String>,
        depth: usize,
        limit: usize,
    ) -> (r: Result<LookupScrapNeighborhoodResult, ScrapsError>)
        ensures
            r is Ok <==> self_keys(scrap_views(scraps@)).contains(
                KeyV { ctx: opt_chars(*ctx), title: title@ },
            ),
            r matches Err(e) ==> e matches ScrapsError::ScrapNotFound { title: t, ctx: c } && t@
                == title@ && opt_chars(c) == opt_chars(*ctx),
            r matches Ok(res) ==> (node_views(res.nodes@), edge_views(res.edges@), res.dropped as int)
                == neighborhood_of(
                scrap_views(scraps@),
                KeyV { ctx: opt_chars(*ctx), title: title@ },
                depth as int,
                limit as int,
            ),
    {
        let ghost sv = scrap_views(scraps@);
        let d: usize = if depth < MAX_DEPTH {
            depth
        } else {
            MAX_DEPTH
        };
        let root = ScrapKey::new(title, ctx);
        let keys = keys_of(scraps);
        if !contains_key(&keys, &root) {
            return Err(
                ScrapsError::ScrapNotFound {
                    title: title.to_owned(),
                    ctx: crate::model::clone_opt(ctx),
                },
            );
        }
        let bm = BacklinksMap::new(scraps);
        let mut order: Vec<ScrapKey> = Vec::new();
        let mut hops: Vec<usize> = Vec::new();
        let mut dropped: Vec<ScrapKey> = Vec::new();
        take_in_exec(&mut order, &mut hops, &mut dropped, &root, 0, limit);
        assert(key_views(Seq::<ScrapKey>::empty()) =~= Seq::<KeyV>::empty());
        assert(Seq::<usize>::empty().map_values(|h: usize| h as int) =~= Seq::<int>::empty());
        let ghost w = walk(sv, root@, depth as int, limit as int);
        let mut i: usize = 0;
        while i < order.len()
            invariant
                i <= order.len() <= limit,
                order.len() == hops.len(),
                d <= MAX_DEPTH,
                d == (if depth < MAX_DEPTH {
                    depth
                } else {
                    MAX_DEPTH
                }),
                sv == scrap_views(scraps@),
                key_views(keys@) == self_keys(sv),
                bm@ == sv,
                w == run(
                    sv,
                    WalkState {
                        order: key_views(order@),
                        hops: hops@.map_values(|h: usize| h as int),
                        dropped: key_views(dropped@),
                    },
                    i as int,
                    d as int,
                    limit as int,
                    (limit + 1 - i) as nat,
                ),
            decreases limit - i,
        {
            let ghost st0 = WalkState {
                order: key_views(order@),
                hops: hops@.map_values(|h: usize| h as int),
                dropped: key_views(dropped@),
            };
            let key = order[i].duplicate();
            let hop = hops[i];
            assert(st0.order[i as int] == key@);
            assert(st0.hops[i as int] == hop as int);
            if hop < d {
                let ns = Self::neighbors_of(scraps, &keys, &bm, &key);
                let ghost nv = key_views(ns@);
                let mut j: usize = 0;
                while j < ns.len()
                    invariant
                        j <= ns.len(),
                        nv == key_views(ns@),
                        order.len() == hops.len(),
                        order.len() <= limit,
                        i < order.len(),
                        hop < d <= MAX_DEPTH,
                        (WalkState {
                            order: key_views(order@),
                            hops: hops@.map_values(|h: usize| h as int),
                            dropped: key_views(dropped@),
                        }) == take_in_all(st0, nv.take(j as int), hop + 1, limit as int),
                    decreases ns.len() - j,
                {
                    assert(nv.take(j + 1).drop_last() =~= nv.take(j as int));
                    assert(nv.take(j + 1).last() == ns@[j as int]@);
                    take_in_exec(&mut order, &mut hops, &mut dropped, &ns[j], hop + 1, limit);
                    j += 1;
                }
                assert(nv.take(ns.len() as int) =~= nv);
            }
            i += 1;
        }
        let ghost fin = WalkState {
            order: key_views(order@),
            hops: hops@.map_values(|h: usize| h as int),
            dropped: key_views(dropped@),
        };
        assert(w == fin);
        let mut nodes: Vec<NeighborhoodNode> = Vec::new();
        let mut k: usize = 0;
        while k < order.len()
            invariant
                k <= order.len() == hops.len(),
                fin.order == key_views(order@),
                fin.hops == hops@.map_values(|h: usize| h as int),
                nodes.len() == k,
                forall|m: int| 0 <= m < k ==> (#[trigger] nodes@[m]).scrap@ == fin.order[m] && nodes@[m].hop
                    == fin.hops[m],
            decreases order.len() - k,
        {
            nodes.push(NeighborhoodNode { scrap: ScrapRef::from_key(&order[k]), hop: hops[k] });
            k += 1;
        }
        assert(node_views(nodes@) =~= walk_nodes(fin));
        let edges = Self::induced_edges(scraps, &order);
        Ok(LookupScrapNeighborhoodResult { nodes, edges, dropped: dropped.len() })
    }
}

// ------------------------------------------------------------------ laws --

/// The bookkeeping every walk state keeps: one hop per name, no name twice,
/// within the cap, and names refused only once the cap is reached.
pub open spec fn well_kept(st: WalkState, limit: int) -> bool {
    &&& st.order.len() == st.hops.len()
    &&& st.order.no_duplicates()
    &&& st.dropped.no_duplicates()
    &&& st.order.len() <= limit
    &&& st.dropped.len() > 0 ==> st.order.len() == limit
    &&& forall|x: KeyV| st.dropped.contains(x) ==> !st.order.contains(x)
}

/// `st2` follows `st` after taking in some of `ks` at hop `h`: what was
/// there stays, the new names come from `ks` at hop `h`, and the refused
/// names only grow, by names of `ks`.
pub open spec fn grows_from(st: WalkState, st2: WalkState, ks: Seq<KeyV>, h: int) -> bool {
    &&& st.order.len() <= st2.order.len()
    &&& forall|j: int|
        #![trigger st2.order[j]]
        #![trigger st2.hops[j]]
        0 <= j < st.order.len() ==> st2.order[j] == st.order[j] && st2.hops[j] == st.hops[j]
    &&& forall|j: int|
        #![trigger st2.order[j]]
        #![trigger st2.hops[j]]
        st.order.len() <= j < st2.order.len() ==> st2.hops[j] == h && ks.contains(st2.order[j])
    &&& forall|x: KeyV| st.dropped.contains(x) ==> st2.dropped.contains(x)
    &&& forall|x: KeyV| st2.dropped.contains(x) ==> st.dropped.contains(x) || ks.contains(x)
}

proof fn lemma_take_in(st: WalkState, k: KeyV, h: int, limit: int)
    requires
        well_kept(st, limit),
    ensures
        well_kept(take_in(st, k, h, limit), limit),
        grows_from(st, take_in(st, k, h, limit), seq![k], h),
        take_in(st, k, h, limit).order.contains(k) || take_in(st, k, h, limit).dropped.contains(k),
{
    let st2 = take_in(st, k, h, limit);
    if st.order.contains(k) {
    } else if st.order.len() >= limit {
        if !st.dropped.contains(k) {
            assert(st2.dropped == st.dropped.push(k));
            assert(st2.dropped[st.dropped.len() as int] == k);
            assert forall|a: int, b: int|
                0 <= a < st2.dropped.len() && 0 <= b < st2.dropped.len() && a != b implies st2.dropped[a]
                != st2.dropped[b] by {
                if a == st.dropped.len() && b < st.dropped.len() {
                    assert(st.dropped.contains(st.dropped[b]));
                }
                if b == st.dropped.len() && a < st.dropped.len() {
                    assert(st.dropped.contains(st.dropped[a]));
                }
            }
            assert forall|x: KeyV| st2.dropped.contains(x) implies !st2.order.contains(x) by {
                let j = choose|j: int| 0 <= j < st2.dropped.len() && st2.dropped[j] == x;
                if j < st.dropped.len() {
                    assert(st.dropped.contains(x));
                }
            }
            assert forall|x: KeyV| st2.dropped.contains(x) implies st.dropped.contains(x) || seq![k].contains(x) by {
                let j = choose|j: int| 0 <= j < st2.dropped.len() && st2.dropped[j] == x;
                if j < st.dropped.len() {
                    assert(st.dropped.contains(x));
                } else {
                    assert(seq![k][0] == x);
                }
            }
            assert forall|x: KeyV| st.dropped.contains(x) implies st2.dropped.contains(x) by {
                let j = choose|j: int| 0 <= j < st.dropped.len() && st.dropped[j] == x;
                assert(st2.dropped[j] == x);
            }
        }
    } else {
        assert(st2.order == st.order.push(k));
        assert(st2.order[st.order.len() as int] == k);
        assert(seq![k][0] == k);
        assert forall|a: int, b: int|
            0 <= a < st2.order.len() && 0 <= b < st2.order.len() && a != b implies st2.order[a]
            != st2.order[b] by {
            if a == st.order.len() && b < st.order.len() {
                assert(st.order.contains(st.order[b]));
            }
            if b == st.order.len() && a < st.order.len() {
                assert(st.order.contains(st.order[a]));
            }
        }
        assert(st.dropped.len() == 0);
    }
}

proof fn lemma_take_in_all(st: WalkState, ks: Seq<KeyV>, h: int, limit: int)
    requires
        well_kept(st, limit),
    ensures
        well_kept(take_in_all(st, ks, h, limit), limit),
        grows_from(st, take_in_all(st, ks, h, limit), ks, h),
        forall|k: KeyV|
            ks.contains(k) ==> take_in_all(st, ks, h, limit).order.contains(k) || take_in_all(
                st,
                ks,
                h,
                limit,
            ).dropped.contains(k),
    decreases ks.len(),
{
    if ks.len() == 0 {
    } else {
        let pre = ks.drop_last();
        let k = ks.last();
        lemma_take_in_all(st, pre, h, limit);
        let st1 = take_in_all(st, pre, h, limit);
        lemma_take_in(st1, k, h, limit);
        let st2 = take_in(st1, k, h, limit);
        assert(st2 == take_in_all(st, ks, h, limit));
        assert(ks =~= pre.push(k));
        assert forall|x: KeyV| pre.contains(x) implies ks.contains(x) by {
            let j = choose|j: int| 0 <= j < pre.len() && pre[j] == x;
            assert(ks[j] == x);
        }
        assert(ks[ks.len() - 1] == k);
        assert forall|x: KeyV| seq![k].contains(x) implies ks.contains(x) by {
            assert(seq![k][0] == k);
        }
        assert forall|j: int| st.order.len() <= j < st2.order.len() implies st2.hops[j] == h
            && ks.contains(st2.order[j]) by {
            if j < st1.order.len() {
                assert(pre.contains(st1.order[j]));
            } else {
                assert(seq![k].contains(st2.order[j]));
            }
        }
        assert forall|x: KeyV| ks.contains(x) implies st2.order.contains(x) || st2.dropped.contains(x) by {
            let j = choose|j: int| 0 <= j < ks.len() && ks[j] == x;
            if j < pre.len() {
                assert(pre[j] == x);
                assert(pre.contains(x));
                if st1.order.contains(x) {
                    let m = choose|m: int| 0 <= m < st1.order.len() && st1.order[m] == x;
                    assert(st2.order[m] == x);
                }
            }
        }
    }
}

/// The `k`-th name is a neighbour of an earlier name one hop closer.
pub open spec fn has_parent(ss: Seq<ScrapV>, st: WalkState, k: int) -> bool {
    exists|p: int|
        0 <= p < k && st.hops[p] + 1 == st.hops[k] && #[trigger] neighbors(ss, st.order[p]).contains(
            st.order[k],
        )
}

/// `n` is among the names taken in, at hop `bound` or closer.
pub open spec fn reached_within(st: WalkState, n: KeyV, bound: int) -> bool {
    exists|q: int| 0 <= q < st.order.len() && #[trigger] st.order[q] == n && st.hops[q] <= bound
}

/// Every neighbour of the `p`-th name, when that name is below `depth`, is
/// taken in no further than one hop beyond it, or refused.
pub open spec fn settled(ss: Seq<ScrapV>, st: WalkState, p: int, depth: int) -> bool {
    st.hops[p] < depth ==> forall|n: KeyV|
        #[trigger] neighbors(ss, st.order[p]).contains(n) ==> reached_within(st, n, st.hops[p] + 1)
            || st.dropped.contains(n)
}

/// What a walk keeps true between its steps: besides the bookkeeping, the
/// root comes first at hop 0, hops never decrease and stay within `depth`,
/// each later name is a neighbour of an earlier one a hop closer, and the
/// names already processed are settled.
pub open spec fn walk_inv(
    ss: Seq<ScrapV>,
    root: KeyV,
    st: WalkState,
    i: int,
    depth: int,
    limit: int,
) -> bool {
    &&& well_kept(st, limit)
    &&& 0 <= depth
    &&& limit > 0 ==> st.order.len() > 0 && st.order[0] == root && st.hops[0] == 0
    &&& limit <= 0 ==> st.order.len() == 0 && st.dropped == seq![root]
    &&& forall|k: int| 0 <= k < st.order.len() ==> 0 <= #[trigger] st.hops[k] <= depth
    &&& forall|a: int, b: int| 0 <= a <= b < st.order.len() ==> st.hops[a] <= st.hops[b]
    &&& forall|k: int| 0 < k < st.order.len() ==> #[trigger] has_parent(ss, st, k)
    &&& 0 <= i <= st.order.len()
    &&& i < st.order.len() ==> st.hops[st.order.len() - 1] <= st.hops[i] + 1
    &&& forall|p: int| 0 <= p < i ==> #[trigger] settled(ss, st, p, depth)
}

proof fn lemma_walk_start(ss: Seq<ScrapV>, root: KeyV, depth: int, limit: int)
    requires
        0 <= depth,
        0 <= limit,
    ensures
        walk_inv(
            ss,
            root,
            take_in(WalkState { order: seq![], hops: seq![], dropped: seq![] }, root, 0, limit),
            0,
            depth,
            limit,
        ),
{
    let e = WalkState { order: seq![], hops: seq![], dropped: seq![] };
    let st = take_in(e, root, 0, limit);
    assert(!e.order.contains(root));
    if limit > 0 {
        assert(st.order =~= seq![root]);
        assert(st.hops =~= seq![0int]);
    } else {
        assert(st.dropped =~= seq![root]);
        assert forall|x: KeyV| st.dropped.contains(x) implies !st.order.contains(x) by {}
    }
}

proof fn lemma_step_hops(st: WalkState, st2: WalkState, ns: Seq<KeyV>, i: int, depth: int)
    requires
        st.order.len() == st.hops.len(),
        st2.order.len() == st2.hops.len(),
        0 <= i < st.order.len(),
        st.hops[i] < depth,
        grows_from(st, st2, ns, st.hops[i] + 1),
        forall|k: int| 0 <= k < st.order.len() ==> 0 <= #[trigger] st.hops[k] <= depth,
        forall|a: int, b: int| 0 <= a <= b < st.order.len() ==> st.hops[a] <= st.hops[b],
        st.hops[st.order.len() - 1] <= st.hops[i] + 1,
    ensures
        forall|k: int| 0 <= k < st2.order.len() ==> 0 <= #[trigger] st2.hops[k] <= depth,
        forall|a: int, b: int| 0 <= a <= b < st2.order.len() ==> st2.hops[a] <= st2.hops[b],
        i + 1 < st2.order.len() ==> st2.hops[st2.order.len() - 1] <= st2.hops[i + 1] + 1,
{
    let o = st.order;
    let hs = st.hops;
    let hs2 = st2.hops;
    let o2 = st2.order;
    let h = hs[i];
    assert forall|k: int| 0 <= k < o2.len() implies 0 <= #[trigger] hs2[k] <= depth by {
        if k < o.len() {
            assert(hs2[k] == hs[k]);
        }
    }
    assert forall|a: int, b: int| 0 <= a <= b < o2.len() implies hs2[a] <= hs2[b] by {
        if b < o.len() {
            assert(hs2[a] == hs[a] && hs2[b] == hs[b]);
        } else if a < o.len() {
            assert(hs2[a] == hs[a]);
            assert(hs[a] <= hs[o.len() - 1]);
            assert(hs2[b] == h + 1);
        } else {
            assert(hs2[a] == h + 1);
            assert(hs2[b] == h + 1);
        }
    }
    if i + 1 < o2.len() {
        if i + 1 < o.len() {
            assert(hs2[i + 1] == hs[i + 1]);
            assert(hs[i] <= hs[i + 1]);
            if o2.len() > o.len() {
                assert(hs2[o2.len() - 1] == h + 1);
            } else {
                assert(hs2[o2.len() - 1] == hs[o.len() - 1]);
            }
        } else {
            assert(hs2[i + 1] == h + 1);
            assert(hs2[o2.len() - 1] == h + 1);
        }
    }
}

proof fn lemma_step_parents(ss: Seq<ScrapV>, st: WalkState, st2: WalkState, i: int)
    requires
        st.order.len() == st.hops.len(),
        0 <= i < st.order.len(),
        grows_from(st, st2, neighbors(ss, st.order[i]), st.hops[i] + 1),
        forall|k: int| 0 < k < st.order.len() ==> #[trigger] has_parent(ss, st, k),
    ensures
        forall|k: int| 0 < k < st2.order.len() ==> #[trigger] has_parent(ss, st2, k),
{
    let o = st.order;
    let o2 = st2.order;
    assert forall|k: int| 0 < k < o2.len() implies #[trigger] has_parent(ss, st2, k) by {
        if k < o.len() {
            assert(has_parent(ss, st, k));
            let p = choose|p: int|
                0 <= p < k && st.hops[p] + 1 == st.hops[k] && #[trigger] neighbors(ss, st.order[p]).contains(
                    st.order[k],
                );
            assert(o2[p] == o[p] && st2.hops[p] == st.hops[p]);
            assert(o2[k] == o[k] && st2.hops[k] == st.hops[k]);
            assert(neighbors(ss, st2.order[p]).contains(st2.order[k]));
        } else {
            assert(neighbors(ss, o[i]).contains(o2[k]));
            assert(o2[i] == o[i] && st2.hops[i] == st.hops[i]);
            assert(st2.hops[k] == st.hops[i] + 1);
            assert(neighbors(ss, st2.order[i]).contains(st2.order[k]));
        }
    }
}

proof fn lemma_step_closure(ss: Seq<ScrapV>, st: WalkState, st2: WalkState, i: int, depth: int)
    requires
        st.order.len() == st.hops.len(),
        0 <= i < st.order.len(),
        st.hops[i] < depth,
        grows_from(st, st2, neighbors(ss, st.order[i]), st.hops[i] + 1),
        forall|a: int, b: int| 0 <= a <= b < st.order.len() ==> st.hops[a] <= st.hops[b],
        st.hops[st.order.len() - 1] <= st.hops[i] + 1,
        forall|k: KeyV|
            neighbors(ss, st.order[i]).contains(k) ==> st2.order.contains(k) || st2.dropped.contains(k),
        forall|p: int| 0 <= p < i ==> #[trigger] settled(ss, st, p, depth),
    ensures
        forall|p: int| 0 <= p < i + 1 ==> #[trigger] settled(ss, st2, p, depth),
{
    let o = st.order;
    let hs = st.hops;
    let o2 = st2.order;
    let hs2 = st2.hops;
    let h = hs[i];
    assert forall|p: int| 0 <= p < i + 1 implies #[trigger] settled(ss, st2, p, depth) by {
        assert(o2[p] == o[p] && hs2[p] == hs[p]);
        if hs2[p] < depth {
            assert forall|n: KeyV| #[trigger] neighbors(ss, st2.order[p]).contains(n) implies reached_within(
                st2,
                n,
                st2.hops[p] + 1,
            ) || st2.dropped.contains(n) by {
                if p < i {
                    assert(settled(ss, st, p, depth));
                    assert(neighbors(ss, st.order[p]).contains(n));
                    if reached_within(st, n, st.hops[p] + 1) {
                        let q = choose|q: int|
                            0 <= q < st.order.len() && #[trigger] st.order[q] == n && st.hops[q] <= st.hops[p]
                                + 1;
                        assert(o2[q] == o[q] && hs2[q] == hs[q]);
                        assert(reached_within(st2, n, st2.hops[p] + 1));
                    }
                } else {
                    if o2.contains(n) {
                        let q = choose|q: int| 0 <= q < o2.len() && o2[q] == n;
                        if q < o.len() {
                            assert(hs2[q] == hs[q]);
                            assert(hs[q] <= hs[o.len() - 1]);
                        } else {
                            assert(hs2[q] == h + 1);
                        }
                        assert(reached_within(st2, n, st2.hops[p] + 1));
                    }
                }
            }
        }
    }
}

proof fn lemma_walk_step(
    ss: Seq<ScrapV>,
    root: KeyV,
    st: WalkState,
    i: int,
    depth: int,
    limit: int,
)
    requires
        walk_inv(ss, root, st, i, depth, limit),
        i < st.order.len(),
    ensures
        walk_inv(ss, root, step(ss, st, i, depth, limit), i + 1, depth, limit),
{
    let o = st.order;
    let hs = st.hops;
    let h = hs[i];
    if h >= depth {
        assert(step(ss, st, i, depth, limit) == st);
        if i + 1 < o.len() {
            assert(hs[i] <= hs[i + 1]);
        }
        assert forall|p: int| 0 <= p < i + 1 implies #[trigger] settled(ss, st, p, depth) by {
            if p == i {
                assert(!(st.hops[p] < depth));
            }
        }
    } else {
        let ns = neighbors(ss, o[i]);
        lemma_take_in_all(st, ns, h + 1, limit);
        let st2 = take_in_all(st, ns, h + 1, limit);
        assert(st2 == step(ss, st, i, depth, limit));
        assert(hs[o.len() - 1] <= h + 1);
        if limit > 0 {
            assert(st2.order[0] == o[0] && st2.hops[0] == hs[0]);
        } else {
            assert(o.len() == 0);
        }
        lemma_step_hops(st, st2, ns, i, depth);
        lemma_step_parents(ss, st, st2, i);
        lemma_step_closure(ss, st, st2, i, depth);
    }
}

proof fn lemma_walk_run(
    ss: Seq<ScrapV>,
    root: KeyV,
    st: WalkState,
    i: int,
    depth: int,
    limit: int,
    fuel: nat,
)
    requires
        walk_inv(ss, root, st, i, depth, limit),
        i + fuel == limit + 1,
    ensures
        walk_inv(ss, root, run(ss, st, i, depth, limit, fuel), run(ss, st, i, depth, limit, fuel).order.len() as int, depth, limit),
    decreases fuel,
{
    if fuel == 0 || i >= st.order.len() {
        assert(i >= st.order.len());
    } else {
        lemma_walk_step(ss, root, st, i, depth, limit);
        lemma_walk_run(ss, root, step(ss, st, i, depth, limit), i + 1, depth, limit, (fuel - 1) as nat);
    }
}

/// The walk keeps its invariant to the end, every name processed.
pub proof fn lemma_walk_inv(ss: Seq<ScrapV>, root: KeyV, depth: int, limit: int)
    requires
        0 <= depth,
        0 <= limit,
    ensures
        walk_inv(
            ss,
            root,
            walk(ss, root, depth, limit),
            walk(ss, root, depth, limit).order.len() as int,
            if depth < MAX_DEPTH {
                depth
            } else {
                MAX_DEPTH as int
            },
            limit,
        ),
{
    let d = if depth < MAX_DEPTH {
        depth
    } else {
        MAX_DEPTH as int
    };
    let e = WalkState { order: seq![], hops: seq![], dropped: seq![] };
    lemma_walk_start(ss, root, d, limit);
    lemma_walk_run(ss, root, take_in(e, root, 0, limit), 0, d, limit, (limit + 1) as nat);
}

/// The depth a walk actually opens: the one asked for, at most `MAX_DEPTH`.
pub open spec fn capped_depth(depth: int) -> int {
    if depth < MAX_DEPTH {
        depth
    } else {
        MAX_DEPTH as int
    }
}

/// The `k`-th node is a neighbour of an earlier node one hop closer.
pub open spec fn node_has_parent(ss: Seq<ScrapV>, nodes: Seq<(KeyV, int)>, k: int) -> bool {
    exists|p: int|
        0 <= p < k && nodes[p].1 + 1 == nodes[k].1 && #[trigger] neighbors(ss, nodes[p].0).contains(
            nodes[k].0,
        )
}

/// A neighbourhood lookup returns each scrap at most once and no more than
/// `limit` of them; with room for one, the scrap asked about comes first, at
/// hop 0, and is the only one there; hops never decrease along the result,
/// never exceed the depth opened, and each later scrap is a neighbour of an
/// earlier one a hop closer. Scraps are left out only once the cap is
/// full; a cap of zero returns nothing and counts the scrap itself as left
/// out.
pub proof fn lemma_neighborhood_is_breadth_first(
    ss: Seq<ScrapV>,
    root: KeyV,
    depth: int,
    limit: int,
)
    requires
        0 <= depth,
        0 <= limit,
    ensures
        ({
            let (nodes, edges, dropped) = neighborhood_of(ss, root, depth, limit);
            &&& nodes.len() <= limit
            &&& forall|a: int, b: int| 0 <= a < nodes.len() && 0 <= b < nodes.len() && a != b ==> nodes[a].0 != nodes[b].0
            &&& limit > 0 ==> nodes[0] == (root, 0int)
            &&& forall|k: int| 0 < k < nodes.len() ==> nodes[k].1 > 0
            &&& forall|k: int| 0 <= k < nodes.len() ==> 0 <= #[trigger] nodes[k].1 <= capped_depth(depth)
            &&& forall|a: int, b: int| 0 <= a <= b < nodes.len() ==> nodes[a].1 <= nodes[b].1
            &&& forall|k: int| 0 < k < nodes.len() ==> #[trigger] node_has_parent(ss, nodes, k)
            &&& limit == 0 ==> nodes.len() == 0 && dropped == 1
            &&& dropped > 0 ==> nodes.len() == limit
        }),
{
    let d = capped_depth(depth);
    lemma_walk_inv(ss, root, depth, limit);
    let w = walk(ss, root, depth, limit);
    let nodes = walk_nodes(w);
    assert forall|a: int, b: int| 0 <= a < nodes.len() && 0 <= b < nodes.len() && a != b implies nodes[a].0
        != nodes[b].0 by {
        assert(nodes[a].0 == w.order[a] && nodes[b].0 == w.order[b]);
    }
    assert forall|k: int| 0 < k < nodes.len() implies nodes[k].1 > 0 by {
        assert(has_parent(ss, w, k));
        let p = choose|p: int|
            0 <= p < k && w.hops[p] + 1 == w.hops[k] && #[trigger] neighbors(ss, w.order[p]).contains(
                w.order[k],
            );
        assert(0 <= w.hops[p]);
    }
    assert forall|k: int| 0 <= k < nodes.len() implies 0 <= #[trigger] nodes[k].1 <= d by {
        assert(nodes[k].1 == w.hops[k]);
    }
    assert forall|a: int, b: int| 0 <= a <= b < nodes.len() implies nodes[a].1 <= nodes[b].1 by {
        assert(nodes[a].1 == w.hops[a] && nodes[b].1 == w.hops[b]);
    }
    assert forall|k: int| 0 < k < nodes.len() implies #[trigger] node_has_parent(ss, nodes, k) by {
        assert(has_parent(ss, w, k));
        let p = choose|p: int|
            0 <= p < k && w.hops[p] + 1 == w.hops[k] && #[trigger] neighbors(ss, w.order[p]).contains(
                w.order[k],
            );
        assert(nodes[p] == (w.order[p], w.hops[p]));
        assert(nodes[k] == (w.order[k], w.hops[k]));
    }
    if limit == 0 {
        assert(w.dropped == seq![root]);
        assert(w.dropped.len() == 1);
    } else {
        assert(nodes[0] == (w.order[0], w.hops[0]));
    }
    assert(nodes.len() == w.order.len());
    assert(neighborhood_of(ss, root, depth, limit).0 == nodes);
}

/// `ks` is a walk along neighbours: each name a neighbour of the one
/// before.
pub open spec fn is_path(ss: Seq<ScrapV>, ks: Seq<KeyV>) -> bool {
    forall|j: int| 0 < j < ks.len() ==> neighbors(ss, ks[j - 1]).contains(#[trigger] ks[j])
}

proof fn lemma_path_reached(
    ss: Seq<ScrapV>,
    root: KeyV,
    w: WalkState,
    d: int,
    limit: int,
    path: Seq<KeyV>,
    j: int,
)
    requires
        0 < limit,
        walk_inv(ss, root, w, w.order.len() as int, d, limit),
        w.dropped.len() == 0,
        0 <= j < path.len(),
        path.len() - 1 <= d,
        path[0] == root,
        is_path(ss, path),
    ensures
        reached_within(w, path[j], j),
    decreases j,
{
    if j == 0 {
        assert(w.order[0] == root && w.hops[0] == 0);
        assert(reached_within(w, path[0], 0));
    } else {
        lemma_path_reached(ss, root, w, d, limit, path, j - 1);
        let q = choose|q: int|
            0 <= q < w.order.len() && #[trigger] w.order[q] == path[j - 1] && w.hops[q] <= j - 1;
        assert(settled(ss, w, q, d));
        assert(neighbors(ss, path[j - 1]).contains(path[j]));
        assert(!w.dropped.contains(path[j]));
        assert(reached_within(w, path[j], w.hops[q] + 1));
        let r = choose|r: int|
            0 <= r < w.order.len() && #[trigger] w.order[r] == path[j] && w.hops[r] <= w.hops[q] + 1;
        assert(reached_within(w, path[j], j));
    }
}

/// When the cap left nothing out, each scrap of the neighbourhood sits at
/// its shortest distance from the scrap asked about: any scrap a path of
/// `n` links reaches from it, `n` within the depth opened, is in the
/// neighbourhood at hop `n` or closer.
pub proof fn lemma_neighborhood_hops_are_shortest(
    ss: Seq<ScrapV>,
    root: KeyV,
    depth: int,
    limit: int,
    path: Seq<KeyV>,
)
    requires
        0 <= depth,
        0 < limit,
        neighborhood_of(ss, root, depth, limit).2 == 0,
        path.len() > 0,
        path[0] == root,
        is_path(ss, path),
        path.len() - 1 <= capped_depth(depth),
    ensures
        exists|q: int|
            0 <= q < neighborhood_of(ss, root, depth, limit).0.len() && #[trigger] neighborhood_of(
                ss,
                root,
                depth,
                limit,
            ).0[q].0 == path.last() && neighborhood_of(ss, root, depth, limit).0[q].1 <= path.len() - 1,
{
    let d = capped_depth(depth);
    lemma_walk_inv(ss, root, depth, limit);
    let w = walk(ss, root, depth, limit);
    let nodes = walk_nodes(w);
    assert(w.dropped.len() == 0);
    lemma_path_reached(ss, root, w, d, limit, path, path.len() - 1);
    let q = choose|q: int|
        0 <= q < w.order.len() && #[trigger] w.order[q] == path[path.len() - 1] && w.hops[q] <= path.len() - 1;
    assert(nodes[q] == (w.order[q], w.hops[q]));
    assert(neighborhood_of(ss, root, depth, limit).0 == nodes);
    assert(neighborhood_of(ss, root, depth, limit).0[q].0 == path.last());
}

/// Some path of `n` links, each either way, leads from `root` to `x`.
pub open spec fn linked_within(ss: Seq<ScrapV>, root: KeyV, x: KeyV, n: int) -> bool {
    exists|ks: Seq<KeyV>| ks.len() == n + 1 && ks[0] == root && ks.last() == x && #[trigger] is_path(ss, ks)
}

proof fn lemma_node_has_path(ss: Seq<ScrapV>, root: KeyV, depth: int, limit: int, k: int)
    requires
        0 <= depth,
        0 < limit,
        0 <= k < neighborhood_of(ss, root, depth, limit).0.len(),
    ensures
        linked_within(
            ss,
            root,
            neighborhood_of(ss, root, depth, limit).0[k].0,
            neighborhood_of(ss, root, depth, limit).0[k].1,
        ),
    decreases k,
{
    lemma_neighborhood_is_breadth_first(ss, root, depth, limit);
    let nodes = neighborhood_of(ss, root, depth, limit).0;
    if k == 0 {
        let ks = seq![root];
        assert(is_path(ss, ks));
        assert(ks.last() == nodes[0].0);
    } else {
        assert(node_has_parent(ss, nodes, k));
        let p = choose|p: int|
            0 <= p < k && nodes[p].1 + 1 == nodes[k].1 && #[trigger] neighbors(ss, nodes[p].0).contains(nodes[k].0);
        lemma_node_has_path(ss, root, depth, limit, p);
        let ks = choose|ks: Seq<KeyV>|
            ks.len() == nodes[p].1 + 1 && ks[0] == root && ks.last() == nodes[p].0 && #[trigger] is_path(ss, ks);
        let ks2 = ks.push(nodes[k].0);
        assert forall|j: int| 0 < j < ks2.len() implies neighbors(ss, ks2[j - 1]).contains(#[trigger] ks2[j]) by {
            if j < ks.len() {
                assert(ks2[j] == ks[j] && ks2[j - 1] == ks[j - 1]);
            } else {
                assert(ks2[j - 1] == ks.last());
            }
        }
        assert(is_path(ss, ks2));
        assert(ks2[0] == root);
        assert(ks2.last() == nodes[k].0);
    }
}

/// When the cap left nothing out, the neighbourhood is exactly the scraps
/// within the depth opened of the scrap asked about, following links either
/// way and ignoring links to missing scraps, and each sits at its shortest
/// distance: some path of as many links as its hop leads to it, none
/// shorter, and every scrap some path within the depth reaches is in it.
pub proof fn lemma_neighborhood_is_the_scraps_within_reach(
    ss: Seq<ScrapV>,
    root: KeyV,
    depth: int,
    limit: int,
)
    requires
        0 <= depth,
        0 < limit,
        neighborhood_of(ss, root, depth, limit).2 == 0,
    ensures
        ({
            let nodes = neighborhood_of(ss, root, depth, limit).0;
            &&& forall|k: int| 0 <= k < nodes.len() ==> linked_within(ss, root, (#[trigger] nodes[k]).0, nodes[k].1)
            &&& forall|k: int| 0 <= k < nodes.len() ==> (#[trigger] nodes[k]).1 <= capped_depth(depth)
            &&& forall|k: int, n: int|
                0 <= k < nodes.len() && 0 <= n <= capped_depth(depth) && #[trigger] linked_within(ss, root, (#[trigger] nodes[k]).0, n)
                    ==> nodes[k].1 <= n
            &&& forall|x: KeyV, n: int|
                0 <= n <= capped_depth(depth) && #[trigger] linked_within(ss, root, x, n) ==> exists|k: int|
                    0 <= k < nodes.len() && (#[trigger] nodes[k]).0 == x
        }),
{
    let nodes = neighborhood_of(ss, root, depth, limit).0;
    lemma_neighborhood_is_breadth_first(ss, root, depth, limit);
    assert forall|k: int| 0 <= k < nodes.len() implies linked_within(ss, root, (#[trigger] nodes[k]).0, nodes[k].1) by {
        lemma_node_has_path(ss, root, depth, limit, k);
    }
    assert forall|x: KeyV, n: int|
        0 <= n <= capped_depth(depth) && #[trigger] linked_within(ss, root, x, n) implies exists|k: int|
            0 <= k < nodes.len() && (#[trigger] nodes[k]).0 == x && nodes[k].1 <= n by {
        let ks = choose|ks: Seq<KeyV>| ks.len() == n + 1 && ks[0] == root && ks.last() == x && #[trigger] is_path(ss, ks);
        lemma_neighborhood_hops_are_shortest(ss, root, depth, limit, ks);
    }
    assert forall|k: int, n: int|
        0 <= k < nodes.len() && 0 <= n <= capped_depth(depth) && #[trigger] linked_within(ss, root, (#[trigger] nodes[k]).0, n)
            implies nodes[k].1 <= n by {
        let ks = choose|ks: Seq<KeyV>| ks.len() == n + 1 && ks[0] == root && ks.last() == nodes[k].0 && #[trigger] is_path(ss, ks);
        lemma_neighborhood_hops_are_shortest(ss, root, depth, limit, ks);
        let q = choose|q: int| 0 <= q < nodes.len() && #[trigger] nodes[q].0 == ks.last() && nodes[q].1 <= ks.len() - 1;
        assert(q == k);
    }
}

/// The links of the scrap known by `k` (the last such), none when no scrap
/// is.
pub open spec fn scrap_links(ss: Seq<ScrapV>, k: KeyV) -> Seq<KeyV> {
    match last_with_key(ss, k) {
        Some(s) => links(s),
        None => seq![],
    }
}

proof fn lemma_filter_distinct<A>(s: Seq<A>, p: spec_fn(A) -> bool)
    requires
        s.no_duplicates(),
    ensures
        s.filter(p).no_duplicates(),
    decreases s.len(),
{
    reveal_with_fuel(Seq::filter, 1);
    if s.len() > 0 {
        let d = s.drop_last();
        assert(d.no_duplicates());
        lemma_filter_distinct(d, p);
        if p(s.last()) {
            let f = d.filter(p);
            if f.contains(s.last()) {
                d.lemma_filter_contains_rev(p, s.last());
                let j = choose|j: int| 0 <= j < d.len() && d[j] == s.last();
                assert(s[j] == s[s.len() - 1]);
            }
            let g = f.push(s.last());
            assert forall|a: int, b: int| 0 <= a < g.len() && 0 <= b < g.len() && a != b implies g[a]
                != g[b] by {
                if a == f.len() && b < f.len() {
                    assert(f.contains(f[b]));
                }
                if b == f.len() && a < f.len() {
                    assert(f.contains(f[a]));
                }
            }
        }
    }
}

proof fn lemma_out_edges(ss: Seq<ScrapV>, order: Seq<KeyV>, k: KeyV)
    ensures
        forall|e: (KeyV, KeyV)|
            #[trigger] out_edges(ss, order, k).contains(e) <==> (e.0 == k && scrap_links(ss, k).contains(e.1)
                && order.contains(e.1)),
        out_edges(ss, order, k).no_duplicates(),
{
    broadcast use vstd::seq_lib::group_filter_ensures;

    match last_with_key(ss, k) {
        Some(s) => {
            let p = |l: KeyV| order.contains(l);
            let g = |l: KeyV| (k, l);
            let f = links(s).filter(p);
            let m = f.map_values(g);
            crate::model::lemma_dedup_distinct(crate::model::link_keys(s.refs));
            lemma_filter_distinct(links(s), p);
            assert forall|e: (KeyV, KeyV)| #[trigger] m.contains(e) <==> (e.0 == k && links(s).contains(e.1)
                && order.contains(e.1)) by {
                if m.contains(e) {
                    let j = choose|j: int| 0 <= j < m.len() && m[j] == e;
                    assert(m[j] == g(f[j]));
                    assert(f.contains(f[j]));
                    links(s).lemma_filter_contains_rev(p, f[j]);
                    assert(p(f[j]));
                }
                if e.0 == k && links(s).contains(e.1) && order.contains(e.1) {
                    let j = choose|j: int| 0 <= j < links(s).len() && links(s)[j] == e.1;
                    assert(f.contains(links(s)[j]));
                    let q = choose|q: int| 0 <= q < f.len() && f[q] == e.1;
                    assert(m[q] == e);
                }
            }
            assert forall|a: int, b: int| 0 <= a < m.len() && 0 <= b < m.len() && a != b implies m[a] != m[b] by {
                assert(m[a] == g(f[a]) && m[b] == g(f[b]));
            }
        },
        None => {},
    }
}

proof fn lemma_edges_from(ss: Seq<ScrapV>, order: Seq<KeyV>, from: Seq<KeyV>)
    requires
        from.no_duplicates(),
    ensures
        forall|e: (KeyV, KeyV)|
            #[trigger] edges_from(ss, order, from).contains(e) <==> (from.contains(e.0) && scrap_links(
                ss,
                e.0,
            ).contains(e.1) && order.contains(e.1)),
        edges_from(ss, order, from).no_duplicates(),
    decreases from.len(),
{
    broadcast use vstd::seq_lib::group_seq_properties;

    if from.len() > 0 {
        let d = from.drop_last();
        let k = from.last();
        assert(d.no_duplicates());
        lemma_edges_from(ss, order, d);
        lemma_out_edges(ss, order, k);
        let a = edges_from(ss, order, d);
        let b = out_edges(ss, order, k);
        assert(from =~= d.push(k));
        assert(!d.contains(k)) by {
            if d.contains(k) {
                let j = choose|j: int| 0 <= j < d.len() && d[j] == k;
                assert(from[j] == from[from.len() - 1]);
            }
        }
        assert forall|x: int, y: int| 0 <= x < (a + b).len() && 0 <= y < (a + b).len() && x != y implies (a
            + b)[x] != (a + b)[y] by {
            if x < a.len() && y >= a.len() {
                assert(a.contains(a[x]));
                assert(b.contains(b[y - a.len()]));
            }
            if y < a.len() && x >= a.len() {
                assert(a.contains(a[y]));
                assert(b.contains(b[x - a.len()]));
            }
        }
    }
}

/// The edges of a neighbourhood are exactly the wiki links between two of
/// its scraps, each once.
pub proof fn lemma_neighborhood_edges_are_the_links_among_nodes(
    ss: Seq<ScrapV>,
    root: KeyV,
    depth: int,
    limit: int,
)
    requires
        0 <= depth,
        0 <= limit,
    ensures
        ({
            let w = walk(ss, root, depth, limit);
            let edges = neighborhood_of(ss, root, depth, limit).1;
            &&& edges.no_duplicates()
            &&& forall|e: (KeyV, KeyV)|
                #[trigger] edges.contains(e) <==> (w.order.contains(e.0) && w.order.contains(e.1)
                    && scrap_links(ss, e.0).contains(e.1))
        }),
{
    lemma_walk_inv(ss, root, depth, limit);
    let w = walk(ss, root, depth, limit);
    lemma_edges_from(ss, w.order, w.order);
}

// ------------------------------------------------------- read order --

/// No two scraps of the wiki share a name.
pub open spec fn wiki_keys_distinct(ss: Seq<ScrapV>) -> bool {
    forall|i: int, j: int|
        0 <= i < ss.len() && 0 <= j < ss.len() && self_key(#[trigger] ss[i]) == self_key(#[trigger] ss[j])
            ==> i == j
}

/// No two scraps that link to one scrap sort alike by name (a scrap with
/// the context `""` sorts as one with none).
pub open spec fn backlinkers_sort_apart(ss: Seq<ScrapV>) -> bool {
    forall|i: int, j: int, k: KeyV|
        0 <= i < ss.len() && 0 <= j < ss.len() && #[trigger] links(ss[i]).contains(k)
            && #[trigger] links(ss[j]).contains(k) && name_triple(self_key(ss[i])) == name_triple(
            self_key(ss[j]),
        ) ==> i == j
}

/// Two lists of the same scraps, read in different orders.
pub open spec fn same_scraps(ss1: Seq<ScrapV>, ss2: Seq<ScrapV>) -> bool {
    forall|s: ScrapV| ss1.contains(s) <==> ss2.contains(s)
}

proof fn lemma_last_with_key_facts(ss: Seq<ScrapV>, k: KeyV)
    ensures
        last_with_key(ss, k) matches Some(s) ==> ss.contains(s) && self_key(s) == k,
        last_with_key(ss, k) is None ==> forall|i: int| 0 <= i < ss.len() ==> self_key(#[trigger] ss[i]) != k,
    decreases ss.len(),
{
    if ss.len() > 0 {
        lemma_last_with_key_facts(ss.drop_last(), k);
        if self_key(ss.last()) != k {
            if let Some(s) = last_with_key(ss.drop_last(), k) {
                let i = choose|i: int| 0 <= i < ss.drop_last().len() && ss.drop_last()[i] == s;
                assert(ss[i] == s);
            }
            assert forall|i: int| 0 <= i < ss.len() && last_with_key(ss, k) is None implies self_key(
                #[trigger] ss[i],
            ) != k by {
                if i < ss.len() - 1 {
                    assert(ss[i] == ss.drop_last()[i]);
                }
            }
        } else {
            assert(ss[ss.len() - 1] == ss.last());
        }
    }
}

proof fn lemma_same_last(ss1: Seq<ScrapV>, ss2: Seq<ScrapV>, k: KeyV)
    requires
        wiki_keys_distinct(ss1),
        wiki_keys_distinct(ss2),
        same_scraps(ss1, ss2),
    ensures
        last_with_key(ss1, k) == last_with_key(ss2, k),
{
    lemma_last_with_key_facts(ss1, k);
    lemma_last_with_key_facts(ss2, k);
    if let Some(s1) = last_with_key(ss1, k) {
        assert(ss2.contains(s1));
        let j = choose|j: int| 0 <= j < ss2.len() && ss2[j] == s1;
        if let Some(s2) = last_with_key(ss2, k) {
            let i = choose|i: int| 0 <= i < ss2.len() && ss2[i] == s2;
            assert(self_key(ss2[i]) == self_key(ss2[j]));
        } else {
            assert(self_key(ss2[j]) != k);
        }
    } else if let Some(s2) = last_with_key(ss2, k) {
        assert(ss1.contains(s2));
        let j = choose|j: int| 0 <= j < ss1.len() && ss1[j] == s2;
        assert(self_key(ss1[j]) != k);
    }
}

proof fn lemma_same_self_keys(ss1: Seq<ScrapV>, ss2: Seq<ScrapV>, k: KeyV)
    requires
        same_scraps(ss1, ss2),
    ensures
        self_keys(ss1).contains(k) <==> self_keys(ss2).contains(k),
{
    if self_keys(ss1).contains(k) {
        let i = choose|i: int| 0 <= i < self_keys(ss1).len() && self_keys(ss1)[i] == k;
        assert(ss2.contains(ss1[i]));
        let j = choose|j: int| 0 <= j < ss2.len() && ss2[j] == ss1[i];
        assert(self_keys(ss2)[j] == k);
    }
    if self_keys(ss2).contains(k) {
        let i = choose|i: int| 0 <= i < self_keys(ss2).len() && self_keys(ss2)[i] == k;
        assert(ss1.contains(ss2[i]));
        let j = choose|j: int| 0 <= j < ss1.len() && ss1[j] == ss2[i];
        assert(self_keys(ss1)[j] == k);
    }
}

/// The names of the scraps that link to `k`, each once.
spec fn backlink_names(ss: Seq<ScrapV>, k: KeyV) -> Seq<KeyV> {
    dedup(backlinks_of(ss, k).map_values(|s: ScrapV| self_key(s)))
}

proof fn lemma_backlink_names_contain(ss: Seq<ScrapV>, k: KeyV, x: KeyV)
    ensures
        backlink_names(ss, k).contains(x) <==> exists|s: ScrapV|
            #![trigger ss.contains(s)]
            ss.contains(s) && links(s).contains(k) && self_key(s) == x,
{
    let m = backlinks_of(ss, k).map_values(|s: ScrapV| self_key(s));
    crate::model::lemma_dedup_contains(m, x);
    if m.contains(x) {
        let i = choose|i: int| 0 <= i < m.len() && m[i] == x;
        let s = backlinks_of(ss, k)[i];
        assert(backlinks_of(ss, k).contains(s));
        crate::backlinks::lemma_backlinks_are_the_linking_scraps(ss, k, s);
    }
    if exists|s: ScrapV| #![trigger ss.contains(s)] ss.contains(s) && links(s).contains(k) && self_key(s) == x {
        let s = choose|s: ScrapV| #![trigger ss.contains(s)] ss.contains(s) && links(s).contains(k) && self_key(s) == x;
        crate::backlinks::lemma_backlinks_are_the_linking_scraps(ss, k, s);
        let i = choose|i: int| 0 <= i < backlinks_of(ss, k).len() && backlinks_of(ss, k)[i] == s;
        assert(m[i] == x);
    }
}

proof fn lemma_same_neighbors(ss1: Seq<ScrapV>, ss2: Seq<ScrapV>, k: KeyV)
    requires
        wiki_keys_distinct(ss1),
        wiki_keys_distinct(ss2),
        backlinkers_sort_apart(ss1),
        same_scraps(ss1, ss2),
        ss1.len() <= usize::MAX,
        ss2.len() <= usize::MAX,
    ensures
        neighbors(ss1, k) == neighbors(ss2, k),
{
    lemma_same_last(ss1, ss2, k);
    let p1 = |l: KeyV| self_keys(ss1).contains(l);
    let p2 = |l: KeyV| self_keys(ss2).contains(l);
    assert forall|l: KeyV| #[trigger] self_keys(ss1).contains(l) == self_keys(ss2).contains(l) by {
        lemma_same_self_keys(ss1, ss2, l);
    }
    assert(p1 =~= p2);
    assert(out_neighbors(ss1, k) == out_neighbors(ss2, k));
    let b1 = backlink_names(ss1, k);
    let b2 = backlink_names(ss2, k);
    let m1 = backlinks_of(ss1, k).map_values(|s: ScrapV| self_key(s));
    let m2 = backlinks_of(ss2, k).map_values(|s: ScrapV| self_key(s));
    crate::model::lemma_dedup_distinct(m1);
    crate::model::lemma_dedup_distinct(m2);
    crate::graph::lemma_dedup_len(m1);
    crate::graph::lemma_dedup_len(m2);
    crate::lint::lemma_filter_len_le(ss1, |s: ScrapV| links(s).contains(k));
    crate::lint::lemma_filter_len_le(ss2, |s: ScrapV| links(s).contains(k));
    assert forall|x: KeyV| b1.contains(x) <==> b2.contains(x) by {
        lemma_backlink_names_contain(ss1, k, x);
        lemma_backlink_names_contain(ss2, k, x);
        if b1.contains(x) {
            let s = choose|s: ScrapV| #![trigger ss1.contains(s)] ss1.contains(s) && links(s).contains(k) && self_key(s) == x;
            assert(ss2.contains(s));
        }
        if b2.contains(x) {
            let s = choose|s: ScrapV| #![trigger ss2.contains(s)] ss2.contains(s) && links(s).contains(k) && self_key(s) == x;
            assert(ss1.contains(s));
        }
    }
    assert forall|x: KeyV, y: KeyV| b1.contains(x) && b1.contains(y) && name_triple(x) == name_triple(y) implies x == y by {
        lemma_backlink_names_contain(ss1, k, x);
        lemma_backlink_names_contain(ss1, k, y);
        let s = choose|s: ScrapV| #![trigger ss1.contains(s)] ss1.contains(s) && links(s).contains(k) && self_key(s) == x;
        let t = choose|t: ScrapV| #![trigger ss1.contains(t)] ss1.contains(t) && links(t).contains(k) && self_key(t) == y;
        let i = choose|i: int| 0 <= i < ss1.len() && ss1[i] == s;
        let j = choose|j: int| 0 <= j < ss1.len() && ss1[j] == t;
        assert(links(ss1[i]).contains(k) && links(ss1[j]).contains(k));
        assert(name_triple(self_key(ss1[i])) == name_triple(self_key(ss1[j])));
    }
    let q = |x: KeyV| !out_neighbors(ss1, k).contains(x);
    assert(q =~= (|x: KeyV| !out_neighbors(ss2, k).contains(x)));
    crate::graph::lemma_group_same(b1, b2, q, q);
    assert(in_neighbors(ss1, k) == in_neighbors(ss2, k));
}

proof fn lemma_same_run(
    ss1: Seq<ScrapV>,
    ss2: Seq<ScrapV>,
    st: WalkState,
    i: int,
    depth: int,
    limit: int,
    fuel: nat,
)
    requires
        forall|k: KeyV| #[trigger] neighbors(ss1, k) == neighbors(ss2, k),
    ensures
        run(ss1, st, i, depth, limit, fuel) == run(ss2, st, i, depth, limit, fuel),
    decreases fuel,
{
    if !(fuel == 0 || i < 0 || i >= st.order.len()) {
        assert(neighbors(ss1, st.order[i]) == neighbors(ss2, st.order[i]));
        assert(step(ss1, st, i, depth, limit) == step(ss2, st, i, depth, limit));
        lemma_same_run(ss1, ss2, step(ss1, st, i, depth, limit), i + 1, depth, limit, (fuel - 1) as nat);
    }
}

proof fn lemma_same_edges(ss1: Seq<ScrapV>, ss2: Seq<ScrapV>, order: Seq<KeyV>, from: Seq<KeyV>)
    requires
        forall|k: KeyV| #[trigger] last_with_key(ss1, k) == last_with_key(ss2, k),
    ensures
        edges_from(ss1, order, from) == edges_from(ss2, order, from),
    decreases from.len(),
{
    if from.len() > 0 {
        lemma_same_edges(ss1, ss2, order, from.drop_last());
        assert(last_with_key(ss1, from.last()) == last_with_key(ss2, from.last()));
    }
}

/// A neighbourhood does not depend on the order the wiki was read in: the
/// same scraps, no two sharing a name, read in any order, give the same
/// scraps at the same hops, the same links and the same count left out,
/// provided no two scraps linking to one scrap sort alike by name (where
/// they do, they are listed in the order read).
pub proof fn lemma_neighborhood_ignores_read_order(
    ss1: Seq<ScrapV>,
    ss2: Seq<ScrapV>,
    root: KeyV,
    depth: int,
    limit: int,
)
    requires
        wiki_keys_distinct(ss1),
        wiki_keys_distinct(ss2),
        backlinkers_sort_apart(ss1),
        same_scraps(ss1, ss2),
        ss1.len() <= usize::MAX,
        ss2.len() <= usize::MAX,
    ensures
        neighborhood_of(ss1, root, depth, limit) == neighborhood_of(ss2, root, depth, limit),
{
    assert forall|k: KeyV| #[trigger] neighbors(ss1, k) == neighbors(ss2, k) by {
        lemma_same_neighbors(ss1, ss2, k);
    }
    assert forall|k: KeyV| #[trigger] last_with_key(ss1, k) == last_with_key(ss2, k) by {
        lemma_same_last(ss1, ss2, k);
    }
    let start = take_in(WalkState { order: seq![], hops: seq![], dropped: seq![] }, root, 0, limit);
    let d = if depth < MAX_DEPTH { depth } else { MAX_DEPTH as int };
    lemma_same_run(ss1, ss2, start, 0, d, limit, (limit + 1) as nat);
    let w = walk(ss1, root, depth, limit);
    assert(w == walk(ss2, root, depth, limit));
    lemma_same_edges(ss1, ss2, w.order, w.order);
}

// ------------------------------------------------------------- the cap --

/// `b` continues `a`: it holds `a`'s names and hops first.
spec fn extends(a: WalkState, b: WalkState) -> bool {
    &&& a.order.len() == a.hops.len()
    &&& b.order.len() == b.hops.len()
    &&& a.order.len() <= b.order.len()
    &&& a.order == b.order.take(a.order.len() as int)
    &&& a.hops == b.hops.take(a.order.len() as int)
}

/// The walk under cap `l1` (`a`) keeps pace with the walk under a larger
/// cap (`b`): it is a beginning of it, and until it refuses a name the two
/// are the same.
spec fn keeps_pace(a: WalkState, b: WalkState, l1: int) -> bool {
    &&& extends(a, b)
    &&& a.order.len() <= l1
    &&& a.order.len() < l1 ==> a.dropped.len() == 0
    &&& a.dropped.len() == 0 ==> a.order == b.order && a.hops == b.hops && b.dropped.len() == 0
}

proof fn lemma_take_in_extends(st: WalkState, k: KeyV, hop: int, limit: int)
    requires
        st.order.len() == st.hops.len(),
    ensures
        extends(st, take_in(st, k, hop, limit)),
        st.dropped.len() <= take_in(st, k, hop, limit).dropped.len(),
{
    let r = take_in(st, k, hop, limit);
    assert(st.order =~= r.order.take(st.order.len() as int));
    assert(st.hops =~= r.hops.take(st.order.len() as int));
}

proof fn lemma_extends_trans(a: WalkState, b: WalkState, c: WalkState)
    requires
        extends(a, b),
        extends(b, c),
    ensures
        extends(a, c),
{
    assert(a.order =~= c.order.take(a.order.len() as int));
    assert(a.hops =~= c.hops.take(a.order.len() as int));
}

proof fn lemma_take_in_all_extends(st: WalkState, ks: Seq<KeyV>, hop: int, limit: int)
    requires
        st.order.len() == st.hops.len(),
    ensures
        extends(st, take_in_all(st, ks, hop, limit)),
        st.dropped.len() <= take_in_all(st, ks, hop, limit).dropped.len(),
    decreases ks.len(),
{
    if ks.len() == 0 {
        assert(st.order =~= st.order.take(st.order.len() as int));
        assert(st.hops =~= st.hops.take(st.order.len() as int));
    } else {
        lemma_take_in_all_extends(st, ks.drop_last(), hop, limit);
        let m = take_in_all(st, ks.drop_last(), hop, limit);
        lemma_take_in_extends(m, ks.last(), hop, limit);
        lemma_extends_trans(st, m, take_in(m, ks.last(), hop, limit));
    }
}

proof fn lemma_run_extends(ss: Seq<ScrapV>, st: WalkState, i: int, depth: int, limit: int, fuel: nat)
    requires
        st.order.len() == st.hops.len(),
    ensures
        extends(st, run(ss, st, i, depth, limit, fuel)),
    decreases fuel,
{
    if fuel == 0 || i < 0 || i >= st.order.len() {
        assert(st.order =~= st.order.take(st.order.len() as int));
        assert(st.hops =~= st.hops.take(st.order.len() as int));
    } else {
        let nx = step(ss, st, i, depth, limit);
        if st.hops[i] >= depth {
            assert(st.order =~= st.order.take(st.order.len() as int));
            assert(st.hops =~= st.hops.take(st.order.len() as int));
        } else {
            lemma_take_in_all_extends(st, neighbors(ss, st.order[i]), st.hops[i] + 1, limit);
        }
        lemma_run_extends(ss, nx, i + 1, depth, limit, (fuel - 1) as nat);
        lemma_extends_trans(st, nx, run(ss, nx, i + 1, depth, limit, (fuel - 1) as nat));
    }
}

proof fn lemma_take_in_pace(a: WalkState, b: WalkState, k: KeyV, hop: int, l1: int, l2: int)
    requires
        l1 <= l2,
        keeps_pace(a, b, l1),
    ensures
        keeps_pace(take_in(a, k, hop, l1), take_in(b, k, hop, l2), l1),
{
    let a2 = take_in(a, k, hop, l1);
    let b2 = take_in(b, k, hop, l2);
    lemma_take_in_extends(b, k, hop, l2);
    if a.order.contains(k) {
        let i = choose|i: int| 0 <= i < a.order.len() && a.order[i] == k;
        assert(b.order[i] == k);
        assert(b2 == b);
    } else if a.order.len() >= l1 {
        lemma_extends_trans(a, b, b2);
    } else {
        assert(a.order == b.order);
        assert(a2.order =~= b2.order.take(a2.order.len() as int));
        assert(a2.hops =~= b2.hops.take(a2.order.len() as int));
    }
}

proof fn lemma_take_in_all_pace(a: WalkState, b: WalkState, ks: Seq<KeyV>, hop: int, l1: int, l2: int)
    requires
        l1 <= l2,
        keeps_pace(a, b, l1),
    ensures
        keeps_pace(take_in_all(a, ks, hop, l1), take_in_all(b, ks, hop, l2), l1),
    decreases ks.len(),
{
    if ks.len() > 0 {
        lemma_take_in_all_pace(a, b, ks.drop_last(), hop, l1, l2);
        lemma_take_in_pace(
            take_in_all(a, ks.drop_last(), hop, l1),
            take_in_all(b, ks.drop_last(), hop, l2),
            ks.last(),
            hop,
            l1,
            l2,
        );
    }
}

proof fn lemma_run_pace(
    ss: Seq<ScrapV>,
    a: WalkState,
    b: WalkState,
    i: int,
    depth: int,
    l1: int,
    l2: int,
    f1: nat,
    f2: nat,
)
    requires
        l1 <= l2,
        0 <= i,
        f1 <= f2,
        i + f1 >= l1 + 1,
        keeps_pace(a, b, l1),
    ensures
        keeps_pace(run(ss, a, i, depth, l1, f1), run(ss, b, i, depth, l2, f2), l1),
    decreases f1,
{
    if f1 == 0 || i >= a.order.len() {
        lemma_run_extends(ss, b, i, depth, l2, f2);
        lemma_extends_trans(a, b, run(ss, b, i, depth, l2, f2));
        if a.dropped.len() == 0 {
            assert(run(ss, b, i, depth, l2, f2) == b);
        }
    } else {
        assert(b.order[i] == a.order[i]);
        assert(b.hops[i] == a.hops[i]);
        let a2 = step(ss, a, i, depth, l1);
        let b2 = step(ss, b, i, depth, l2);
        if a.hops[i] < depth {
            lemma_take_in_all_pace(a, b, neighbors(ss, a.order[i]), a.hops[i] + 1, l1, l2);
        }
        lemma_run_pace(ss, a2, b2, i + 1, depth, l1, l2, (f1 - 1) as nat, (f2 - 1) as nat);
    }
}

/// A smaller node cap only cuts the breadth-first order short: the
/// neighbourhood under it is a beginning of the one under a larger cap,
/// with the same hops, and when it left nothing out the two are the same.
pub proof fn lemma_smaller_cap_cuts_the_neighbourhood(
    ss: Seq<ScrapV>,
    root: KeyV,
    depth: int,
    l1: int,
    l2: int,
)
    requires
        0 <= l1 <= l2,
    ensures
        ({
            let n1 = neighborhood_of(ss, root, depth, l1);
            let n2 = neighborhood_of(ss, root, depth, l2);
            &&& n1.0.len() <= n2.0.len()
            &&& n1.0 == n2.0.take(n1.0.len() as int)
            &&& n1.2 == 0 ==> n1 == n2
        }),
{
    let e = WalkState { order: seq![], hops: seq![], dropped: seq![] };
    let a = take_in(e, root, 0, l1);
    let b = take_in(e, root, 0, l2);
    assert(keeps_pace(a, b, l1)) by {
        assert(a.order =~= b.order.take(a.order.len() as int));
        assert(a.hops =~= b.hops.take(a.order.len() as int));
    }
    let d = if depth < MAX_DEPTH { depth } else { MAX_DEPTH as int };
    lemma_run_pace(ss, a, b, 0, d, l1, l2, (l1 + 1) as nat, (l2 + 1) as nat);
    let w1 = walk(ss, root, depth, l1);
    let w2 = walk(ss, root, depth, l2);
    assert(keeps_pace(w1, w2, l1));
    let n1 = walk_nodes(w1);
    let n2 = walk_nodes(w2);
    assert(n1 =~= n2.take(n1.len() as int)) by {
        assert forall|i: int| 0 <= i < n1.len() implies n1[i] == n2.take(n1.len() as int)[i] by {
            assert(w1.order[i] == w2.order.take(w1.order.len() as int)[i]);
            assert(w1.hops[i] == w2.hops.take(w1.order.len() as int)[i]);
        }
    }
}

} // verus!
