//! Which neighbours a scrap's graph draws, in which direction, and under
//! which label. Truncating one sorted list would let a hub's backlinks
//! crowd out its few outgoing links, so the cap is spent round-robin over
//! the three directions and every direction that exists keeps a seat.

use vstd::prelude::*;

use crate::model::{dedup, key_views, lemma_dedup_contains, lemma_dedup_push, KeyV, Scrap, ScrapKey, ScrapV, scrap_views, self_key, contains_key};
use crate::order::{
    by_name, insertion_order, lemma_by_name_ignores_order, name_order_key, name_triple, name_triples,
    names_distinct, permuted,
    sort_by_name, stable_order, key_triples, OrderKey,
};
use crate::text::{chars_of, string_of};

verus! {

broadcast use crate::model::lemma_scrap_view;

/// Neighbours drawn around one scrap; past this many the labels stop being
/// readable, so the rest is reported as a count.
pub const MAX_NODES: usize = 18;

/// Characters of a title a label keeps.
pub const LABEL_CHARS: usize = 16;

/// Which way the link between the centre scrap and a neighbour runs.
#[derive(Debug, Clone, Copy, PartialEq, Eq, Structural)]
pub enum LinkDir {
    /// The neighbour links here: a backlink.
    In,
    /// The centre scrap links out to the neighbour.
    Out,
    /// Both directions exist.
    Both,
}

impl LinkDir {
    /// The edge carries an arrowhead at the centre: the neighbour links in.
    pub fn arrow_at_center(&self) -> (r: bool)
        ensures
            r == (*self == LinkDir::In || *self == LinkDir::Both),
    {
        match self {
            LinkDir::In | LinkDir::Both => true,
            LinkDir::Out => false,
        }
    }

    /// The edge carries an arrowhead at the neighbour: the centre links out.
    pub fn arrow_at_node(&self) -> (r: bool)
        ensures
            r == (*self == LinkDir::Out || *self == LinkDir::Both),
    {
        match self {
            LinkDir::Out | LinkDir::Both => true,
            LinkDir::In => false,
        }
    }
}

/// A title as drawn: its first `LABEL_CHARS` characters and `…` when it is
/// longer.
pub open spec fn label(t: Seq<char>) -> Seq<char> {
    if t.len() <= LABEL_CHARS {
        t
    } else {
        t.take(LABEL_CHARS as int).push('…')
    }
}

/// The title as drawn.
pub fn label_of(title: &str) -> (r: String)
    ensures
        r@ == label(title@),
{
    let chars = chars_of(title);
    if chars.len() <= LABEL_CHARS {
        title.to_owned()
    } else {
        let mut v: Vec<char> = Vec::new();
        crate::textops::append_range(&mut v, chars.as_slice(), 0, LABEL_CHARS);
        v.push('…');
        let r = string_of(v.as_slice());
        assert(r@ =~= label(title@));
        r
    }
}

/// One round of the selection: the `r`-th name of each direction that has
/// one, while there is room.
pub open spec fn rr_round(
    g: (Seq<KeyV>, Seq<KeyV>, Seq<KeyV>),
    r: int,
    out: Seq<(KeyV, LinkDir)>,
    limit: int,
) -> Seq<(KeyV, LinkDir)> {
    let o1 = if out.len() < limit && r < g.0.len() {
        out.push((g.0[r], LinkDir::Both))
    } else {
        out
    };
    let o2 = if o1.len() < limit && r < g.1.len() {
        o1.push((g.1[r], LinkDir::In))
    } else {
        o1
    };
    if o2.len() < limit && r < g.2.len() {
        o2.push((g.2[r], LinkDir::Out))
    } else {
        o2
    }
}

/// Rounds from the `r`-th on, until the cap is reached or every direction
/// is spent.
pub open spec fn rr_from(
    g: (Seq<KeyV>, Seq<KeyV>, Seq<KeyV>),
    r: int,
    out: Seq<(KeyV, LinkDir)>,
    limit: int,
) -> Seq<(KeyV, LinkDir)>
    decreases g.0.len() + g.1.len() + g.2.len() + 1 - r,
{
    if r < 0 || out.len() >= limit || (r >= g.0.len() && r >= g.1.len() && r >= g.2.len()) {
        out
    } else {
        rr_from(g, r + 1, rr_round(g, r, out, limit), limit)
    }
}

/// The names drawn, in order of selection: round-robin over mutual links,
/// backlinks and links, at most `limit`.
pub open spec fn selection(g: (Seq<KeyV>, Seq<KeyV>, Seq<KeyV>), limit: int) -> Seq<(KeyV, LinkDir)> {
    rr_from(g, 0, seq![], limit)
}

/// The three directions of a scrap's neighbours, each in name order: those
/// both linking and linked, those only linking in, those only linked to.
pub open spec fn groups(inbound: Seq<ScrapV>, outbound: Seq<ScrapV>) -> (Seq<KeyV>, Seq<KeyV>, Seq<KeyV>) {
    let ins = dedup(inbound.map_values(|s: ScrapV| self_key(s)));
    let outs = dedup(outbound.map_values(|s: ScrapV| self_key(s)));
    (
        by_name(ins.filter(|k: KeyV| outs.contains(k))),
        by_name(ins.filter(|k: KeyV| !outs.contains(k))),
        by_name(outs.filter(|k: KeyV| !ins.contains(k))),
    )
}

/// The selected names in name order, equal names in order of selection.
pub open spec fn sorted_selection(sel: Seq<(KeyV, LinkDir)>) -> Seq<(KeyV, LinkDir)> {
    permuted(
        sel,
        insertion_order(
            sel.map_values(|e: (KeyV, LinkDir)| name_triple(e.0)),
            sel.len() as int,
        ),
    )
}

/// `r` is the drawing of the scrap titled `center` among the scraps
/// `inbound` linking to it and `outbound` it links to, with room for
/// `limit`: nothing when there is no neighbour; else the selection in name
/// order, each labelled, the centre labelled, and the rest counted.
pub open spec fn drawn_as(
    center: Seq<char>,
    inbound: Seq<ScrapV>,
    outbound: Seq<ScrapV>,
    limit: int,
    r: Option<GraphSelection>,
) -> bool {
    let g = groups(inbound, outbound);
    let total = g.0.len() + g.1.len() + g.2.len();
    &&& r is None <==> total == 0
    &&& r matches Some(sel) ==> {
        &&& choice_views(sel.nodes@) == sorted_selection(selection(g, limit))
        &&& forall|i: int|
            0 <= i < sel.nodes@.len() ==> (#[trigger] sel.nodes@[i]).label@ == label(
                sel.nodes@[i].key@.title,
            )
        &&& sel.center_label@ == label(center)
        &&& sel.dropped == total - sel.nodes@.len()
    }
}

/// A neighbour as drawn: its name, label and direction.
#[derive(Debug, Clone, PartialEq, Eq)]
pub struct GraphNodeChoice {
    pub key: ScrapKey,
    pub label: String,
    pub dir: LinkDir,
}

/// The neighbours a scrap's graph draws, the centre's label, and how many
/// neighbours the cap left out.
#[derive(Debug, Clone, PartialEq, Eq)]
pub struct GraphSelection {
    pub nodes: Vec<GraphNodeChoice>,
    pub center_label: String,
    pub dropped: usize,
}

pub open spec fn choice_views(v: Seq<GraphNodeChoice>) -> Seq<(KeyV, LinkDir)> {
    v.map_values(|n: GraphNodeChoice| (n.key@, n.dir))
}

/// The keys of the scraps, each once, in order of first appearance.
fn distinct_keys(scraps: &[Scrap]) -> (r: Vec<ScrapKey>)
    ensures
        key_views(r@) == dedup(scrap_views(scraps@).map_values(|s: ScrapV| self_key(s))),
{
    let ghost raw = scrap_views(scraps@).map_values(|s: ScrapV| self_key(s));
    let mut r: Vec<ScrapKey> = Vec::new();
    let mut i: usize = 0;
    while i < scraps.len()
        invariant
            i <= scraps.len(),
            raw == scrap_views(scraps@).map_values(|s: ScrapV| self_key(s)),
            key_views(r@) == dedup(raw.take(i as int)),
        decreases scraps.len() - i,
    {
        let k = scraps[i].self_key();
        assert(raw[i as int] == k@);
        assert(raw.take(i + 1) =~= raw.take(i as int).push(k@));
        proof {
            lemma_dedup_push(raw.take(i as int), k@);
        }
        if !contains_key(&r, &k) {
            let ghost before = key_views(r@);
            r.push(k);
            assert(key_views(r@) =~= before.push(raw[i as int]));
        }
        i += 1;
    }
    assert(raw.take(scraps.len() as int) =~= raw);
    r
}

/// The names of `a` that are (or, with `keep` false, are not) among `b`, in
/// order.
fn split_keys(a: &Vec<ScrapKey>, b: &Vec<ScrapKey>, keep: bool) -> (r: Vec<ScrapKey>)
    ensures
        keep ==> key_views(r@) == key_views(a@).filter(|k: KeyV| key_views(b@).contains(k)),
        !keep ==> key_views(r@) == key_views(a@).filter(|k: KeyV| !key_views(b@).contains(k)),
{
    let ghost av = key_views(a@);
    let ghost bv = key_views(b@);
    let ghost p = |k: KeyV| if keep {
        bv.contains(k)
    } else {
        !bv.contains(k)
    };
    let mut r: Vec<ScrapKey> = Vec::new();
    let mut i: usize = 0;
    while i < a.len()
        invariant
            i <= a.len(),
            av == key_views(a@),
            bv == key_views(b@),
            p == (|k: KeyV| if keep {
                bv.contains(k)
            } else {
                !bv.contains(k)
            }),
            key_views(r@) == av.take(i as int).filter(p),
        decreases a.len() - i,
    {
        proof {
            crate::backlinks::lemma_filter_take_step(av, p, i as int);
        }
        assert(av[i as int] == a@[i as int]@);
        if contains_key(b, &a[i]) == keep {
            let ghost before = key_views(r@);
            r.push(a[i].duplicate());
            assert(key_views(r@) =~= before.push(av[i as int]));
        }
        i += 1;
    }
    assert(av.take(a.len() as int) =~= av);
    if keep {
        assert(p =~= (|k: KeyV| bv.contains(k)));
    } else {
        assert(p =~= (|k: KeyV| !bv.contains(k)));
    }
    r
}

impl GraphSelection {
    /// Round-robin selection over the three directions.
    fn select(
        both: &Vec<ScrapKey>,
        only_in: &Vec<ScrapKey>,
        only_out: &Vec<ScrapKey>,
        limit: usize,
    ) -> (r: Vec<(ScrapKey, LinkDir)>)
        ensures
            r@.map_values(|e: (ScrapKey, LinkDir)| (e.0@, e.1)) == selection(
                (key_views(both@), key_views(only_in@), key_views(only_out@)),
                limit as int,
            ),
    {
        let ghost g = (key_views(both@), key_views(only_in@), key_views(only_out@));
        let mut out: Vec<(ScrapKey, LinkDir)> = Vec::new();
        assert(out@.map_values(|e: (ScrapKey, LinkDir)| (e.0@, e.1)) =~= Seq::<(KeyV, LinkDir)>::empty());
        let mut r: usize = 0;
        while out.len() < limit && (r < both.len() || r < only_in.len() || r < only_out.len())
            invariant
                g == (key_views(both@), key_views(only_in@), key_views(only_out@)),
                r <= both.len() + only_in.len() + only_out.len() + 1,
                selection(g, limit as int) == rr_from(
                    g,
                    r as int,
                    out@.map_values(|e: (ScrapKey, LinkDir)| (e.0@, e.1)),
                    limit as int,
                ),
            decreases both.len() + only_in.len() + only_out.len() + 1 - r,
        {
            let ghost o0 = out@.map_values(|e: (ScrapKey, LinkDir)| (e.0@, e.1));
            if out.len() < limit && r < both.len() {
                out.push((both[r].duplicate(), LinkDir::Both));
            }
            let ghost o1 = out@.map_values(|e: (ScrapKey, LinkDir)| (e.0@, e.1));
            assert(o1 =~= (if o0.len() < limit && r < g.0.len() {
                o0.push((g.0[r as int], LinkDir::Both))
            } else {
                o0
            }));
            if out.len() < limit && r < only_in.len() {
                out.push((only_in[r].duplicate(), LinkDir::In));
            }
            let ghost o2 = out@.map_values(|e: (ScrapKey, LinkDir)| (e.0@, e.1));
            assert(o2 =~= (if o1.len() < limit && r < g.1.len() {
                o1.push((g.1[r as int], LinkDir::In))
            } else {
                o1
            }));
            if out.len() < limit && r < only_out.len() {
                out.push((only_out[r].duplicate(), LinkDir::Out));
            }
            let ghost o3 = out@.map_values(|e: (ScrapKey, LinkDir)| (e.0@, e.1));
            assert(o3 =~= (if o2.len() < limit && r < g.2.len() {
                o2.push((g.2[r as int], LinkDir::Out))
            } else {
                o2
            }));
            assert(o3 == rr_round(g, r as int, o0, limit as int));
            r += 1;
        }
        out
    }

    /// The neighbours to draw around the scrap titled `center_title`, given
    /// the scraps linking to it and those it links to: `None` when there is
    /// none. At most `limit` are drawn, in name order; the rest is counted.
    pub fn new(center_title: &str, inbound: &[Scrap], outbound: &[Scrap], limit: usize) -> (r: Option<
        GraphSelection,
    >)
        requires
            inbound.len() + outbound.len() <= usize::MAX,
        ensures
            drawn_as(center_title@, scrap_views(inbound@), scrap_views(outbound@), limit as int, r),
    {
        let ins = distinct_keys(inbound);
        let outs = distinct_keys(outbound);
        let both_raw = split_keys(&ins, &outs, true);
        let in_raw = split_keys(&ins, &outs, false);
        let out_raw = split_keys(&outs, &ins, false);
        let both = sort_by_name(&both_raw);
        let only_in = sort_by_name(&in_raw);
        let only_out = sort_by_name(&out_raw);
        let ghost g = groups(scrap_views(inbound@), scrap_views(outbound@));
        assert(g == (key_views(both@), key_views(only_in@), key_views(only_out@)));
        proof {
            let iv = scrap_views(inbound@).map_values(|s: ScrapV| self_key(s));
            let ov = scrap_views(outbound@).map_values(|s: ScrapV| self_key(s));
            lemma_dedup_len(iv);
            lemma_dedup_len(ov);
            lemma_filter_partition(
                key_views(ins@),
                |k: KeyV| key_views(outs@).contains(k),
                |k: KeyV| !key_views(outs@).contains(k),
            );
            crate::lint::lemma_filter_len_le(key_views(outs@), |k: KeyV| !key_views(ins@).contains(k));
            lemma_by_name_len(key_views(both_raw@));
            lemma_by_name_len(key_views(in_raw@));
            lemma_by_name_len(key_views(out_raw@));
        }
        if both.len() == 0 && only_in.len() == 0 && only_out.len() == 0 {
            return None;
        }
        let selected = Self::select(&both, &only_in, &only_out, limit);
        let ghost sv = selected@.map_values(|e: (ScrapKey, LinkDir)| (e.0@, e.1));
        proof {
            lemma_selection_bounds(g, limit as int);
        }
        let mut keys: Vec<OrderKey> = Vec::new();
        let mut i: usize = 0;
        while i < selected.len()
            invariant
                i <= selected.len(),
                sv == selected@.map_values(|e: (ScrapKey, LinkDir)| (e.0@, e.1)),
                keys.len() == i,
                forall|j: int| 0 <= j < i ==> (#[trigger] keys@[j])@ == name_triple(sv[j].0),
            decreases selected.len() - i,
        {
            keys.push(name_order_key(&selected[i].0));
            i += 1;
        }
        assert(key_triples(keys@) =~= sv.map_values(|e: (KeyV, LinkDir)| name_triple(e.0)));
        let perm = stable_order(&keys);
        let mut nodes: Vec<GraphNodeChoice> = Vec::new();
        let mut k: usize = 0;
        while k < perm.len()
            invariant
                k <= perm.len() == selected.len(),
                sv == selected@.map_values(|e: (ScrapKey, LinkDir)| (e.0@, e.1)),
                forall|m: int| 0 <= m < perm.len() ==> (#[trigger] perm@[m]) < selected.len(),
                nodes.len() == k,
                forall|m: int|
                    0 <= m < k ==> ((#[trigger] nodes@[m]).key@, nodes@[m].dir) == sv[perm@[m] as int]
                        && nodes@[m].label@ == label(nodes@[m].key@.title),
            decreases perm.len() - k,
        {
            let e = &selected[perm[k]];
            nodes.push(GraphNodeChoice { key: e.0.duplicate(), label: label_of(e.0.title.as_str()), dir: e.1 });
            k += 1;
        }
        assert(choice_views(nodes@) =~= sorted_selection(sv));
        let total = both.len() + only_in.len() + only_out.len();
        Some(GraphSelection { dropped: total - nodes.len(), nodes, center_label: label_of(center_title) })
    }
}

/// A scrap's graph is drawn exactly when the scrap has a neighbour: some
/// scrap links to it or it links to some scrap.
pub proof fn lemma_graph_exactly_with_neighbours(
    center: Seq<char>,
    inbound: Seq<ScrapV>,
    outbound: Seq<ScrapV>,
    limit: int,
    r: Option<GraphSelection>,
)
    requires
        drawn_as(center, inbound, outbound, limit, r),
    ensures
        r is None <==> (inbound.len() == 0 && outbound.len() == 0),
{
    let ik = inbound.map_values(|s: ScrapV| self_key(s));
    let ok = outbound.map_values(|s: ScrapV| self_key(s));
    let ins = dedup(ik);
    let outs = dedup(ok);
    let p_both = |k: KeyV| outs.contains(k);
    let p_in = |k: KeyV| !outs.contains(k);
    let p_out = |k: KeyV| !ins.contains(k);
    let f0 = ins.filter(p_both);
    let f1 = ins.filter(p_in);
    let f2 = outs.filter(p_out);
    lemma_insertion_order_len(name_triples(f0), f0.len() as int);
    lemma_insertion_order_len(name_triples(f1), f1.len() as int);
    lemma_insertion_order_len(name_triples(f2), f2.len() as int);
    let g = groups(inbound, outbound);
    assert(g.0.len() == f0.len());
    assert(g.1.len() == f1.len());
    assert(g.2.len() == f2.len());
    if inbound.len() > 0 {
        assert(ik[0] == self_key(inbound[0]));
        lemma_dedup_contains(ik, ik[0]);
        let i = choose|i: int| 0 <= i < ins.len() && ins[i] == ik[0];
        if outs.contains(ik[0]) {
            ins.lemma_filter_contains(p_both, i);
        } else {
            ins.lemma_filter_contains(p_in, i);
        }
    } else if outbound.len() > 0 {
        assert(ok[0] == self_key(outbound[0]));
        lemma_dedup_contains(ok, ok[0]);
        let i = choose|i: int| 0 <= i < outs.len() && outs[i] == ok[0];
        if ins.contains(ok[0]) {
            let j = choose|j: int| 0 <= j < ins.len() && ins[j] == ok[0];
            ins.lemma_filter_contains(p_both, j);
        } else {
            outs.lemma_filter_contains(p_out, i);
        }
    } else {
        assert(ik.len() == 0);
        assert(ok.len() == 0);
        assert(ins =~= Seq::<KeyV>::empty());
        assert(outs =~= Seq::<KeyV>::empty());
        crate::lint::lemma_filter_len_le(ins, p_both);
        crate::lint::lemma_filter_len_le(ins, p_in);
        crate::lint::lemma_filter_len_le(outs, p_out);
    }
}

proof fn lemma_insertion_order_below(keys: Seq<crate::order::KeyTriple>, n: int)
    requires
        0 <= n,
    ensures
        forall|m: int| 0 <= m < insertion_order(keys, n).len() ==> (#[trigger] insertion_order(keys, n)[m]) < n,
    decreases n,
{
    if n > 0 {
        lemma_insertion_order_below(keys, n - 1);
        lemma_insertion_order_len(keys, n - 1);
        let p = insertion_order(keys, n - 1);
        crate::order::lemma_first_above(keys, p, n - 1, 0);
        let at = crate::order::first_above(keys, p, n - 1, 0);
        p.insert_ensures(at, (n - 1) as usize);
        let q = p.insert(at, (n - 1) as usize);
        assert forall|m: int| 0 <= m < q.len() implies (#[trigger] q[m]) < n by {
            if m < at {
                assert(q[m] == p[m]);
            } else if m > at {
                assert(q[m] == p[m - 1]);
            }
        }
    }
}

/// What an ordering by insertion lists is among what it was given.
proof fn lemma_permuted_from<A>(s: Seq<A>, keys: Seq<crate::order::KeyTriple>, x: A)
    requires
        permuted(s, insertion_order(keys, s.len() as int)).contains(x),
    ensures
        s.contains(x),
{
    let perm = insertion_order(keys, s.len() as int);
    lemma_insertion_order_below(keys, s.len() as int);
    let m = choose|m: int| 0 <= m < perm.len() && permuted(s, perm)[m] == x;
    assert(s[perm[m] as int] == x);
}

/// The entry is drawn in the direction of the group it comes from.
pub open spec fn in_its_group(g: (Seq<KeyV>, Seq<KeyV>, Seq<KeyV>), e: (KeyV, LinkDir)) -> bool {
    ||| e.1 == LinkDir::Both && g.0.contains(e.0)
    ||| e.1 == LinkDir::In && g.1.contains(e.0)
    ||| e.1 == LinkDir::Out && g.2.contains(e.0)
}

proof fn lemma_rr_in_groups(
    g: (Seq<KeyV>, Seq<KeyV>, Seq<KeyV>),
    r: int,
    out: Seq<(KeyV, LinkDir)>,
    limit: int,
)
    requires
        forall|j: int| 0 <= j < out.len() ==> in_its_group(g, #[trigger] out[j]),
    ensures
        forall|j: int|
            0 <= j < rr_from(g, r, out, limit).len() ==> in_its_group(g, #[trigger] rr_from(g, r, out, limit)[j]),
    decreases g.0.len() + g.1.len() + g.2.len() + 1 - r,
{
    if r < 0 || out.len() >= limit || (r >= g.0.len() && r >= g.1.len() && r >= g.2.len()) {
    } else {
        let o1 = if out.len() < limit && r < g.0.len() {
            out.push((g.0[r], LinkDir::Both))
        } else {
            out
        };
        let o2 = if o1.len() < limit && r < g.1.len() {
            o1.push((g.1[r], LinkDir::In))
        } else {
            o1
        };
        let o3 = rr_round(g, r, out, limit);
        assert forall|j: int| 0 <= j < o1.len() implies in_its_group(g, #[trigger] o1[j]) by {
            if j < out.len() {
                assert(o1[j] == out[j]);
            }
        }
        assert forall|j: int| 0 <= j < o2.len() implies in_its_group(g, #[trigger] o2[j]) by {
            if j < o1.len() {
                assert(o2[j] == o1[j]);
            }
        }
        assert forall|j: int| 0 <= j < o3.len() implies in_its_group(g, #[trigger] o3[j]) by {
            if j < o2.len() {
                assert(o3[j] == o2[j]);
            }
        }
        lemma_rr_in_groups(g, r + 1, o3, limit);
        assert(rr_from(g, r, out, limit) == rr_from(g, r + 1, o3, limit));
    }
}

/// The names of the scraps linking to a scrap, and of those it links to.
pub open spec fn keys_of_scraps(ss: Seq<ScrapV>) -> Seq<KeyV> {
    ss.map_values(|s: ScrapV| self_key(s))
}

/// Each neighbour drawn is drawn in its own direction: `Both` for a scrap
/// that links here and is linked to, `In` for one that only links here,
/// `Out` for one that is only linked to. As many are drawn as the cap
/// allows, all when they fit, and the rest is counted as dropped.
pub proof fn lemma_graph_draws_each_neighbour_in_its_direction(
    center: Seq<char>,
    inbound: Seq<ScrapV>,
    outbound: Seq<ScrapV>,
    limit: int,
    sel: GraphSelection,
)
    requires
        0 <= limit,
        drawn_as(center, inbound, outbound, limit, Some(sel)),
    ensures
        forall|i: int|
            0 <= i < sel.nodes@.len() ==> {
                let k = (#[trigger] sel.nodes@[i]).key@;
                let ins = keys_of_scraps(inbound).contains(k);
                let outs = keys_of_scraps(outbound).contains(k);
                &&& sel.nodes@[i].dir == LinkDir::Both ==> ins && outs
                &&& sel.nodes@[i].dir == LinkDir::In ==> ins && !outs
                &&& sel.nodes@[i].dir == LinkDir::Out ==> outs && !ins
            },
        ({
            let g = groups(inbound, outbound);
            let total = g.0.len() + g.1.len() + g.2.len();
            &&& sel.nodes@.len() == (if limit < total { limit } else { total as int })
            &&& sel.dropped == total - sel.nodes@.len()
        }),
{
    let g = groups(inbound, outbound);
    let ik = keys_of_scraps(inbound);
    let ok = keys_of_scraps(outbound);
    let ins = dedup(ik);
    let outs = dedup(ok);
    let sel_seq = selection(g, limit);
    let sorted = sorted_selection(sel_seq);
    let e: Seq<(KeyV, LinkDir)> = seq![];
    lemma_rr_in_groups(g, 0, e, limit);
    lemma_selection_size(g, limit);
    lemma_insertion_order_len(sel_seq.map_values(|x: (KeyV, LinkDir)| name_triple(x.0)), sel_seq.len() as int);
    assert(choice_views(sel.nodes@) == sorted);
    assert(sel.nodes@.len() == choice_views(sel.nodes@).len());
    assert(sorted.len() == sel_seq.len());
    assert forall|i: int| 0 <= i < sel.nodes@.len() implies {
        let k = (#[trigger] sel.nodes@[i]).key@;
        let in_k = ik.contains(k);
        let out_k = ok.contains(k);
        &&& sel.nodes@[i].dir == LinkDir::Both ==> in_k && out_k
        &&& sel.nodes@[i].dir == LinkDir::In ==> in_k && !out_k
        &&& sel.nodes@[i].dir == LinkDir::Out ==> out_k && !in_k
    } by {
        let x = (sel.nodes@[i].key@, sel.nodes@[i].dir);
        assert(sorted[i] == x);
        lemma_permuted_from(sel_seq, sel_seq.map_values(|y: (KeyV, LinkDir)| name_triple(y.0)), x);
        let j = choose|j: int| 0 <= j < sel_seq.len() && sel_seq[j] == x;
        assert(in_its_group(g, sel_seq[j]));
        let k = x.0;
        lemma_dedup_contains(ik, k);
        lemma_dedup_contains(ok, k);
        if x.1 == LinkDir::Both {
            let f = ins.filter(|a: KeyV| outs.contains(a));
            lemma_permuted_from(f, name_triples(f), k);
            ins.lemma_filter_contains_rev(|a: KeyV| outs.contains(a), k);
            let m = choose|m: int| 0 <= m < f.len() && f[m] == k;
            ins.lemma_filter_pred(|a: KeyV| outs.contains(a), m);
        } else if x.1 == LinkDir::In {
            let f = ins.filter(|a: KeyV| !outs.contains(a));
            lemma_permuted_from(f, name_triples(f), k);
            ins.lemma_filter_contains_rev(|a: KeyV| !outs.contains(a), k);
            let m = choose|m: int| 0 <= m < f.len() && f[m] == k;
            ins.lemma_filter_pred(|a: KeyV| !outs.contains(a), m);
        } else {
            let f = outs.filter(|a: KeyV| !ins.contains(a));
            lemma_permuted_from(f, name_triples(f), k);
            outs.lemma_filter_contains_rev(|a: KeyV| !ins.contains(a), k);
            let m = choose|m: int| 0 <= m < f.len() && f[m] == k;
            outs.lemma_filter_pred(|a: KeyV| !ins.contains(a), m);
        }
    }
}

proof fn lemma_filter_contains_iff<A>(s: Seq<A>, p: spec_fn(A) -> bool, x: A)
    ensures
        s.filter(p).contains(x) <==> (s.contains(x) && p(x)),
{
    if s.filter(p).contains(x) {
        s.lemma_filter_contains_rev(p, x);
        let m = choose|m: int| 0 <= m < s.filter(p).len() && s.filter(p)[m] == x;
        s.lemma_filter_pred(p, m);
    }
    if s.contains(x) && p(x) {
        let i = choose|i: int| 0 <= i < s.len() && s[i] == x;
        s.lemma_filter_contains(p, i);
    }
}

/// One direction's group comes out the same from two lists of the same
/// names under the same test.
pub(crate) proof fn lemma_group_same(s1: Seq<KeyV>, s2: Seq<KeyV>, p1: spec_fn(KeyV) -> bool, p2: spec_fn(KeyV) -> bool)
    requires
        s1.no_duplicates(),
        s2.no_duplicates(),
        s1.len() <= usize::MAX,
        s2.len() <= usize::MAX,
        forall|x: KeyV| s1.contains(x) <==> s2.contains(x),
        forall|x: KeyV| s1.contains(x) ==> (p1(x) == p2(x)),
        forall|x: KeyV, y: KeyV|
            s1.contains(x) && p1(x) && s1.contains(y) && p1(y) && name_triple(x) == name_triple(y) ==> x == y,
    ensures
        by_name(s1.filter(p1)) == by_name(s2.filter(p2)),
{
    let f1 = s1.filter(p1);
    let f2 = s2.filter(p2);
    crate::backlinks::lemma_filter_keeps_distinct(s1, p1);
    crate::backlinks::lemma_filter_keeps_distinct(s2, p2);
    crate::lint::lemma_filter_len_le(s1, p1);
    crate::lint::lemma_filter_len_le(s2, p2);
    assert forall|x: KeyV| f1.contains(x) <==> f2.contains(x) by {
        lemma_filter_contains_iff(s1, p1, x);
        lemma_filter_contains_iff(s2, p2, x);
    }
    assert forall|i: int, j: int|
        0 <= i < f1.len() && 0 <= j < f1.len() && name_triple(#[trigger] f1[i]) == name_triple(#[trigger] f1[j])
            implies i == j by {
        assert(f1.contains(f1[i]));
        assert(f1.contains(f1[j]));
        lemma_filter_contains_iff(s1, p1, f1[i]);
        lemma_filter_contains_iff(s1, p1, f1[j]);
    }
    assert forall|i: int, j: int|
        0 <= i < f2.len() && 0 <= j < f2.len() && name_triple(#[trigger] f2[i]) == name_triple(#[trigger] f2[j])
            implies i == j by {
        assert(f2.contains(f2[i]));
        assert(f2.contains(f2[j]));
        lemma_filter_contains_iff(s2, p2, f2[i]);
        lemma_filter_contains_iff(s2, p2, f2[j]);
    }
    assert(names_distinct(f1));
    assert(names_distinct(f2));
    lemma_by_name_ignores_order(f1, f2);
}

/// `x` and `y` are neighbours in one direction: both link here and are
/// linked to, both only link here, or both are only linked to.
pub open spec fn same_direction(inbound: Seq<ScrapV>, outbound: Seq<ScrapV>, x: KeyV, y: KeyV) -> bool {
    let i = keys_of_scraps(inbound);
    let o = keys_of_scraps(outbound);
    ||| i.contains(x) && o.contains(x) && i.contains(y) && o.contains(y)
    ||| i.contains(x) && !o.contains(x) && i.contains(y) && !o.contains(y)
    ||| !i.contains(x) && o.contains(x) && !i.contains(y) && o.contains(y)
}

/// A scrap's graph does not depend on the order its backlinks and links
/// were read in: lists of the same scraps' names give the same drawing,
/// provided no two names of one direction sort alike (where they do, they
/// keep the order read).
pub proof fn lemma_graph_ignores_read_order(
    center: Seq<char>,
    in1: Seq<ScrapV>,
    out1: Seq<ScrapV>,
    in2: Seq<ScrapV>,
    out2: Seq<ScrapV>,
    limit: int,
    r1: Option<GraphSelection>,
    r2: Option<GraphSelection>,
)
    requires
        in1.len() <= usize::MAX,
        out1.len() <= usize::MAX,
        in2.len() <= usize::MAX,
        out2.len() <= usize::MAX,
        forall|k: KeyV| keys_of_scraps(in1).contains(k) <==> keys_of_scraps(in2).contains(k),
        forall|k: KeyV| keys_of_scraps(out1).contains(k) <==> keys_of_scraps(out2).contains(k),
        forall|x: KeyV, y: KeyV|
            same_direction(in1, out1, x, y) && name_triple(x) == name_triple(y) ==> x == y,
        drawn_as(center, in1, out1, limit, r1),
        drawn_as(center, in2, out2, limit, r2),
    ensures
        groups(in1, out1) == groups(in2, out2),
        r1 is None <==> r2 is None,
        r1 matches Some(a) ==> r2 matches Some(b) && choice_views(a.nodes@) == choice_views(b.nodes@)
            && a.dropped == b.dropped && a.center_label@ == b.center_label@,
{
    let ik1 = keys_of_scraps(in1);
    let ok1 = keys_of_scraps(out1);
    let ik2 = keys_of_scraps(in2);
    let ok2 = keys_of_scraps(out2);
    let ins1 = dedup(ik1);
    let outs1 = dedup(ok1);
    let ins2 = dedup(ik2);
    let outs2 = dedup(ok2);
    crate::model::lemma_dedup_distinct(ik1);
    crate::model::lemma_dedup_distinct(ok1);
    crate::model::lemma_dedup_distinct(ik2);
    crate::model::lemma_dedup_distinct(ok2);
    lemma_dedup_len(ik1);
    lemma_dedup_len(ok1);
    lemma_dedup_len(ik2);
    lemma_dedup_len(ok2);
    assert forall|k: KeyV| ins1.contains(k) <==> ins2.contains(k) by {
        lemma_dedup_contains(ik1, k);
        lemma_dedup_contains(ik2, k);
    }
    assert forall|k: KeyV| outs1.contains(k) <==> outs2.contains(k) by {
        lemma_dedup_contains(ok1, k);
        lemma_dedup_contains(ok2, k);
    }
    assert forall|x: KeyV, y: KeyV|
        ins1.contains(x) && outs1.contains(x) && ins1.contains(y) && outs1.contains(y) && name_triple(x)
            == name_triple(y) implies x == y by {
        lemma_dedup_contains(ik1, x);
        lemma_dedup_contains(ik1, y);
        lemma_dedup_contains(ok1, x);
        lemma_dedup_contains(ok1, y);
        assert(same_direction(in1, out1, x, y));
    }
    assert forall|x: KeyV, y: KeyV|
        ins1.contains(x) && !outs1.contains(x) && ins1.contains(y) && !outs1.contains(y) && name_triple(x)
            == name_triple(y) implies x == y by {
        lemma_dedup_contains(ik1, x);
        lemma_dedup_contains(ik1, y);
        lemma_dedup_contains(ok1, x);
        lemma_dedup_contains(ok1, y);
        assert(same_direction(in1, out1, x, y));
    }
    assert forall|x: KeyV, y: KeyV|
        outs1.contains(x) && !ins1.contains(x) && outs1.contains(y) && !ins1.contains(y) && name_triple(x)
            == name_triple(y) implies x == y by {
        lemma_dedup_contains(ik1, x);
        lemma_dedup_contains(ik1, y);
        lemma_dedup_contains(ok1, x);
        lemma_dedup_contains(ok1, y);
        assert(same_direction(in1, out1, x, y));
    }
    lemma_group_same(ins1, ins2, |k: KeyV| outs1.contains(k), |k: KeyV| outs2.contains(k));
    lemma_group_same(ins1, ins2, |k: KeyV| !outs1.contains(k), |k: KeyV| !outs2.contains(k));
    lemma_group_same(outs1, outs2, |k: KeyV| !ins1.contains(k), |k: KeyV| !ins2.contains(k));
    let g = groups(in1, out1);
    assert(g == groups(in2, out2));
    if r1 is Some {
        let a = r1->0;
        let b = r2->0;
        assert(choice_views(a.nodes@) == sorted_selection(selection(g, limit)));
        assert(choice_views(b.nodes@) == sorted_selection(selection(g, limit)));
        assert(a.nodes@.len() == choice_views(a.nodes@).len());
        assert(b.nodes@.len() == choice_views(b.nodes@).len());
    }
}

proof fn lemma_permuted_distinct<A>(s: Seq<A>, keys: Seq<crate::order::KeyTriple>)
    requires
        s.no_duplicates(),
        s.len() <= usize::MAX,
    ensures
        permuted(s, insertion_order(keys, s.len() as int)).no_duplicates(),
{
    lemma_insertion_order_len(keys, s.len() as int);
    lemma_insertion_order_below(keys, s.len() as int);
    lemma_insertion_order_distinct(keys, s.len() as int);
    let perm = insertion_order(keys, s.len() as int);
    let b = permuted(s, perm);
    assert forall|i: int, j: int| 0 <= i < b.len() && 0 <= j < b.len() && i != j implies b[i] != b[j] by {
        assert(b[i] == s[perm[i] as int]);
        assert(b[j] == s[perm[j] as int]);
    }
}

proof fn lemma_insertion_order_distinct(keys: Seq<crate::order::KeyTriple>, n: int)
    requires
        0 <= n <= usize::MAX,
    ensures
        insertion_order(keys, n).no_duplicates(),
    decreases n,
{
    if n > 0 {
        lemma_insertion_order_distinct(keys, n - 1);
        lemma_insertion_order_below(keys, n - 1);
        lemma_insertion_order_len(keys, n - 1);
        let p = insertion_order(keys, n - 1);
        crate::order::lemma_first_above(keys, p, n - 1, 0);
        let at = crate::order::first_above(keys, p, n - 1, 0);
        p.insert_ensures(at, (n - 1) as usize);
        let q = p.insert(at, (n - 1) as usize);
        assert(q[at] == (n - 1) as usize);
        assert forall|m: int| 0 <= m < q.len() && m != at implies (#[trigger] q[m]) < n - 1 && q[m] == p[
            if m < at { m } else { m - 1 }] by {
            let om = if m < at { m } else { m - 1 };
            assert(q[m] == p[om]);
            assert(p[om] < n - 1);
        }
        assert forall|a: int, b: int| 0 <= a < q.len() && 0 <= b < q.len() && a != b implies q[a] != q[b] by {
            if a != at && b != at {
                let oa = if a < at { a } else { a - 1 };
                let ob = if b < at { b } else { b - 1 };
                assert(oa != ob);
                assert(0 <= oa < p.len() && 0 <= ob < p.len());
                assert(p.no_duplicates());
                assert(p[oa] != p[ob]);
                assert(q[a] == p[oa]);
                assert(q[b] == p[ob]);
            } else if a == at {
                assert(q[b] < n - 1);
            } else {
                assert(q[a] < n - 1);
            }
        }
    }
}

/// The three groups each name a neighbour once, and no neighbour is in two.
spec fn groups_apart(g: (Seq<KeyV>, Seq<KeyV>, Seq<KeyV>)) -> bool {
    &&& g.0.no_duplicates()
    &&& g.1.no_duplicates()
    &&& g.2.no_duplicates()
    &&& forall|k: KeyV| g.0.contains(k) ==> !g.1.contains(k) && !g.2.contains(k)
    &&& forall|k: KeyV| g.1.contains(k) ==> !g.2.contains(k)
}

proof fn lemma_groups_apart(inbound: Seq<ScrapV>, outbound: Seq<ScrapV>)
    requires
        inbound.len() <= usize::MAX,
        outbound.len() <= usize::MAX,
    ensures
        groups_apart(groups(inbound, outbound)),
{
    let g = groups(inbound, outbound);
    let ik = keys_of_scraps(inbound);
    let ok = keys_of_scraps(outbound);
    let ins = dedup(ik);
    let outs = dedup(ok);
    crate::model::lemma_dedup_distinct(ik);
    crate::model::lemma_dedup_distinct(ok);
    lemma_dedup_len(ik);
    lemma_dedup_len(ok);
    let p0 = |k: KeyV| outs.contains(k);
    let p1 = |k: KeyV| !outs.contains(k);
    let p2 = |k: KeyV| !ins.contains(k);
    let f0 = ins.filter(p0);
    let f1 = ins.filter(p1);
    let f2 = outs.filter(p2);
    crate::backlinks::lemma_filter_keeps_distinct(ins, p0);
    crate::backlinks::lemma_filter_keeps_distinct(ins, p1);
    crate::backlinks::lemma_filter_keeps_distinct(outs, p2);
    crate::lint::lemma_filter_len_le(ins, p0);
    crate::lint::lemma_filter_len_le(ins, p1);
    crate::lint::lemma_filter_len_le(outs, p2);
    lemma_permuted_distinct(f0, name_triples(f0));
    lemma_permuted_distinct(f1, name_triples(f1));
    lemma_permuted_distinct(f2, name_triples(f2));
    assert forall|k: KeyV| g.0.contains(k) implies !g.1.contains(k) && !g.2.contains(k) by {
        lemma_permuted_from(f0, name_triples(f0), k);
        lemma_filter_contains_iff(ins, p0, k);
        if g.1.contains(k) {
            lemma_permuted_from(f1, name_triples(f1), k);
            lemma_filter_contains_iff(ins, p1, k);
        }
        if g.2.contains(k) {
            lemma_permuted_from(f2, name_triples(f2), k);
            lemma_filter_contains_iff(outs, p2, k);
        }
    }
    assert forall|k: KeyV| g.1.contains(k) implies !g.2.contains(k) by {
        lemma_permuted_from(f1, name_triples(f1), k);
        lemma_filter_contains_iff(ins, p1, k);
        if g.2.contains(k) {
            lemma_permuted_from(f2, name_triples(f2), k);
            lemma_filter_contains_iff(outs, p2, k);
        }
    }
}

/// The entry is one of the first `n0`, `n1` or `n2` names of its group.
spec fn within(g: (Seq<KeyV>, Seq<KeyV>, Seq<KeyV>), e: (KeyV, LinkDir), n0: int, n1: int, n2: int) -> bool {
    ||| e.1 == LinkDir::Both && exists|a: int| 0 <= a < n0 && a < g.0.len() && g.0[a] == e.0
    ||| e.1 == LinkDir::In && exists|a: int| 0 <= a < n1 && a < g.1.len() && g.1[a] == e.0
    ||| e.1 == LinkDir::Out && exists|a: int| 0 <= a < n2 && a < g.2.len() && g.2[a] == e.0
}

spec fn all_within(g: (Seq<KeyV>, Seq<KeyV>, Seq<KeyV>), out: Seq<(KeyV, LinkDir)>, n0: int, n1: int, n2: int) -> bool {
    forall|j: int| 0 <= j < out.len() ==> within(g, #[trigger] out[j], n0, n1, n2)
}

spec fn keys_apart(out: Seq<(KeyV, LinkDir)>) -> bool {
    forall|i: int, j: int|
        0 <= i < out.len() && 0 <= j < out.len() && i != j ==> (#[trigger] out[i]).0 != (#[trigger] out[j]).0
}

proof fn lemma_within_grow(
    g: (Seq<KeyV>, Seq<KeyV>, Seq<KeyV>),
    out: Seq<(KeyV, LinkDir)>,
    n0: int,
    n1: int,
    n2: int,
    m0: int,
    m1: int,
    m2: int,
)
    requires
        all_within(g, out, n0, n1, n2),
        n0 <= m0,
        n1 <= m1,
        n2 <= m2,
    ensures
        all_within(g, out, m0, m1, m2),
{
    assert forall|j: int| 0 <= j < out.len() implies within(g, #[trigger] out[j], m0, m1, m2) by {
        let x = out[j];
        assert(within(g, x, n0, n1, n2));
    }
}

/// Adding the `a`-th name of group `b`, none of whose first `a` are taken
/// beyond those counted, keeps the keys apart.
proof fn lemma_push_apart(
    g: (Seq<KeyV>, Seq<KeyV>, Seq<KeyV>),
    out: Seq<(KeyV, LinkDir)>,
    n0: int,
    n1: int,
    n2: int,
    b: int,
)
    requires
        groups_apart(g),
        keys_apart(out),
        all_within(g, out, n0, n1, n2),
        0 <= n0 && 0 <= n1 && 0 <= n2,
        b == 0 ==> n0 < g.0.len(),
        b == 1 ==> n1 < g.1.len(),
        b == 2 ==> n2 < g.2.len(),
        0 <= b <= 2,
    ensures
        ({
            let e = if b == 0 {
                (g.0[n0], LinkDir::Both)
            } else if b == 1 {
                (g.1[n1], LinkDir::In)
            } else {
                (g.2[n2], LinkDir::Out)
            };
            &&& keys_apart(out.push(e))
            &&& all_within(
                g,
                out.push(e),
                if b == 0 { n0 + 1 } else { n0 },
                if b == 1 { n1 + 1 } else { n1 },
                if b == 2 { n2 + 1 } else { n2 },
            )
        }),
{
    let e = if b == 0 {
        (g.0[n0], LinkDir::Both)
    } else if b == 1 {
        (g.1[n1], LinkDir::In)
    } else {
        (g.2[n2], LinkDir::Out)
    };
    let m0 = if b == 0 { n0 + 1 } else { n0 };
    let m1 = if b == 1 { n1 + 1 } else { n1 };
    let m2 = if b == 2 { n2 + 1 } else { n2 };
    let o = out.push(e);
    if b == 0 {
        assert(g.0.contains(e.0));
    } else if b == 1 {
        assert(g.1.contains(e.0));
    } else {
        assert(g.2.contains(e.0));
    }
    assert forall|j: int| 0 <= j < out.len() implies out[j].0 != e.0 by {
        let x = out[j];
        assert(within(g, x, n0, n1, n2));
        if x.1 == LinkDir::Both {
            let a = choose|a: int| 0 <= a < n0 && a < g.0.len() && g.0[a] == x.0;
            assert(g.0.contains(x.0));
            if b == 0 {
                assert(a != n0);
            }
        } else if x.1 == LinkDir::In {
            let a = choose|a: int| 0 <= a < n1 && a < g.1.len() && g.1[a] == x.0;
            assert(g.1.contains(x.0));
            if b == 1 {
                assert(a != n1);
            }
        } else {
            let a = choose|a: int| 0 <= a < n2 && a < g.2.len() && g.2[a] == x.0;
            assert(g.2.contains(x.0));
            if b == 2 {
                assert(a != n2);
            }
        }
    }
    assert forall|i: int, j: int| 0 <= i < o.len() && 0 <= j < o.len() && i != j implies (#[trigger] o[i]).0
        != (#[trigger] o[j]).0 by {
        if i < out.len() && j < out.len() {
            assert(o[i] == out[i] && o[j] == out[j]);
        } else if i < out.len() {
            assert(o[i] == out[i] && o[j] == e);
        } else {
            assert(o[j] == out[j] && o[i] == e);
        }
    }
    assert forall|j: int| 0 <= j < o.len() implies within(g, #[trigger] o[j], m0, m1, m2) by {
        if j < out.len() {
            let x = out[j];
            assert(o[j] == x);
            assert(within(g, x, n0, n1, n2));
        } else {
            assert(o[j] == e);
            if b == 0 {
                assert(g.0[n0] == e.0);
            } else if b == 1 {
                assert(g.1[n1] == e.0);
            } else {
                assert(g.2[n2] == e.0);
            }
        }
    }
}

proof fn lemma_rr_apart(g: (Seq<KeyV>, Seq<KeyV>, Seq<KeyV>), r: int, out: Seq<(KeyV, LinkDir)>, limit: int)
    requires
        groups_apart(g),
        0 <= r,
        keys_apart(out),
        all_within(g, out, r, r, r),
    ensures
        keys_apart(rr_from(g, r, out, limit)),
    decreases g.0.len() + g.1.len() + g.2.len() + 1 - r,
{
    if !(out.len() >= limit || (r >= g.0.len() && r >= g.1.len() && r >= g.2.len())) {
        let o1 = if out.len() < limit && r < g.0.len() {
            out.push((g.0[r], LinkDir::Both))
        } else {
            out
        };
        if out.len() < limit && r < g.0.len() {
            lemma_push_apart(g, out, r, r, r, 0);
        } else {
            lemma_within_grow(g, out, r, r, r, r + 1, r, r);
        }
        let o2 = if o1.len() < limit && r < g.1.len() {
            o1.push((g.1[r], LinkDir::In))
        } else {
            o1
        };
        if o1.len() < limit && r < g.1.len() {
            lemma_push_apart(g, o1, r + 1, r, r, 1);
        } else {
            lemma_within_grow(g, o1, r + 1, r, r, r + 1, r + 1, r);
        }
        let o3 = rr_round(g, r, out, limit);
        if o2.len() < limit && r < g.2.len() {
            lemma_push_apart(g, o2, r + 1, r + 1, r, 2);
        } else {
            lemma_within_grow(g, o2, r + 1, r + 1, r, r + 1, r + 1, r + 1);
        }
        lemma_rr_apart(g, r + 1, o3, limit);
        assert(rr_from(g, r, out, limit) == rr_from(g, r + 1, o3, limit));
    }
}

/// No neighbour is drawn twice.
pub proof fn lemma_graph_draws_each_neighbour_once(
    center: Seq<char>,
    inbound: Seq<ScrapV>,
    outbound: Seq<ScrapV>,
    limit: int,
    sel: GraphSelection,
)
    requires
        inbound.len() + outbound.len() <= usize::MAX,
        drawn_as(center, inbound, outbound, limit, Some(sel)),
    ensures
        forall|i: int, j: int|
            0 <= i < sel.nodes@.len() && 0 <= j < sel.nodes@.len() && i != j ==> (#[trigger] sel.nodes@[i]).key@
                != (#[trigger] sel.nodes@[j]).key@,
{
    let g = groups(inbound, outbound);
    lemma_groups_apart(inbound, outbound);
    let e: Seq<(KeyV, LinkDir)> = seq![];
    lemma_rr_apart(g, 0, e, limit);
    let sel_seq = selection(g, limit);
    let ins = dedup(keys_of_scraps(inbound));
    let outs = dedup(keys_of_scraps(outbound));
    lemma_dedup_len(keys_of_scraps(inbound));
    lemma_dedup_len(keys_of_scraps(outbound));
    lemma_filter_partition(ins, |k: KeyV| outs.contains(k), |k: KeyV| !outs.contains(k));
    crate::lint::lemma_filter_len_le(outs, |k: KeyV| !ins.contains(k));
    lemma_by_name_len(ins.filter(|k: KeyV| outs.contains(k)));
    lemma_by_name_len(ins.filter(|k: KeyV| !outs.contains(k)));
    lemma_by_name_len(outs.filter(|k: KeyV| !ins.contains(k)));
    if limit >= 0 {
        lemma_selection_bounds(g, limit);
    }
    let keys = sel_seq.map_values(|x: (KeyV, LinkDir)| name_triple(x.0));
    lemma_insertion_order_len(keys, sel_seq.len() as int);
    lemma_insertion_order_below(keys, sel_seq.len() as int);
    lemma_insertion_order_distinct(keys, sel_seq.len() as int);
    let perm = insertion_order(keys, sel_seq.len() as int);
    let sorted = sorted_selection(sel_seq);
    assert(choice_views(sel.nodes@) == sorted);
    assert(sel.nodes@.len() == sorted.len());
    assert forall|i: int, j: int|
        0 <= i < sel.nodes@.len() && 0 <= j < sel.nodes@.len() && i != j implies (#[trigger] sel.nodes@[i]).key@
            != (#[trigger] sel.nodes@[j]).key@ by {
        assert(sorted[i] == sel_seq[perm[i] as int]);
        assert(sorted[j] == sel_seq[perm[j] as int]);
        assert(choice_views(sel.nodes@)[i] == sorted[i]);
        assert(choice_views(sel.nodes@)[j] == sorted[j]);
    }
}

/// The selection holds at most `limit` names, and no more than there are.
pub proof fn lemma_selection_bounds(g: (Seq<KeyV>, Seq<KeyV>, Seq<KeyV>), limit: int)
    requires
        0 <= limit,
    ensures
        selection(g, limit).len() <= limit,
        selection(g, limit).len() <= g.0.len() + g.1.len() + g.2.len(),
{
    lemma_rr_bounds(g, 0, seq![], limit);
}

/// How many names the rounds before the `r`-th take from groups of these
/// sizes.
pub open spec fn taken_before(g: (Seq<KeyV>, Seq<KeyV>, Seq<KeyV>), r: int) -> int {
    (if r < g.0.len() { r } else { g.0.len() as int }) + (if r < g.1.len() {
        r
    } else {
        g.1.len() as int
    }) + (if r < g.2.len() {
        r
    } else {
        g.2.len() as int
    })
}

proof fn lemma_rr_bounds(
    g: (Seq<KeyV>, Seq<KeyV>, Seq<KeyV>),
    r: int,
    out: Seq<(KeyV, LinkDir)>,
    limit: int,
)
    requires
        0 <= r,
        out.len() <= limit,
        out.len() <= taken_before(g, r),
    ensures
        rr_from(g, r, out, limit).len() <= limit,
        rr_from(g, r, out, limit).len() <= g.0.len() + g.1.len() + g.2.len(),
    decreases g.0.len() + g.1.len() + g.2.len() + 1 - r,
{
    if out.len() >= limit || (r >= g.0.len() && r >= g.1.len() && r >= g.2.len()) {
    } else {
        let next = rr_round(g, r, out, limit);
        assert(next.len() <= taken_before(g, r + 1));
        lemma_rr_bounds(g, r + 1, next, limit);
    }
}

pub(crate) proof fn lemma_dedup_len<A>(s: Seq<A>)
    ensures
        dedup(s).len() <= s.len(),
    decreases s.len(),
{
    if s.len() > 0 {
        lemma_dedup_len(s.drop_last());
    }
}

proof fn lemma_filter_partition<A>(s: Seq<A>, p: spec_fn(A) -> bool, q: spec_fn(A) -> bool)
    requires
        forall|x: A| #[trigger] q(x) == !p(x),
    ensures
        s.filter(p).len() + s.filter(q).len() == s.len(),
    decreases s.len(),
{
    reveal_with_fuel(Seq::filter, 1);
    if s.len() > 0 {
        lemma_filter_partition(s.drop_last(), p, q);
        assert(q(s.last()) == !p(s.last()));
    }
}

proof fn lemma_insertion_order_len(keys: Seq<crate::order::KeyTriple>, n: int)
    requires
        0 <= n,
    ensures
        insertion_order(keys, n).len() == n,
    decreases n,
{
    if n > 0 {
        lemma_insertion_order_len(keys, n - 1);
        crate::order::lemma_first_above(keys, insertion_order(keys, n - 1), n - 1, 0);
    }
}

proof fn lemma_by_name_len(ks: Seq<KeyV>)
    ensures
        by_name(ks).len() == ks.len(),
{
    lemma_insertion_order_len(name_triples(ks), ks.len() as int);
}

proof fn lemma_rr_len(
    g: (Seq<KeyV>, Seq<KeyV>, Seq<KeyV>),
    r: int,
    out: Seq<(KeyV, LinkDir)>,
    limit: int,
)
    requires
        0 <= r,
        out.len() <= limit,
        out.len() == taken_before(g, r) || out.len() == limit,
    ensures
        rr_from(g, r, out, limit).len() == limit || rr_from(g, r, out, limit).len() == g.0.len()
            + g.1.len() + g.2.len(),
    decreases g.0.len() + g.1.len() + g.2.len() + 1 - r,
{
    if out.len() >= limit || (r >= g.0.len() && r >= g.1.len() && r >= g.2.len()) {
    } else {
        lemma_rr_len(g, r + 1, rr_round(g, r, out, limit), limit);
    }
}

proof fn lemma_rr_keeps_prefix(
    g: (Seq<KeyV>, Seq<KeyV>, Seq<KeyV>),
    r: int,
    out: Seq<(KeyV, LinkDir)>,
    limit: int,
)
    ensures
        out.len() <= rr_from(g, r, out, limit).len(),
        forall|j: int| 0 <= j < out.len() ==> #[trigger] rr_from(g, r, out, limit)[j] == out[j],
    decreases g.0.len() + g.1.len() + g.2.len() + 1 - r,
{
    if r < 0 || out.len() >= limit || (r >= g.0.len() && r >= g.1.len() && r >= g.2.len()) {
    } else {
        let next = rr_round(g, r, out, limit);
        lemma_rr_keeps_prefix(g, r + 1, next, limit);
        assert forall|j: int| 0 <= j < out.len() implies #[trigger] rr_from(g, r, out, limit)[j] == out[j] by {
            assert(next[j] == out[j]);
            assert(rr_from(g, r + 1, next, limit)[j] == next[j]);
        }
    }
}

pub(crate) proof fn lemma_insertion_order_covers(keys: Seq<crate::order::KeyTriple>, n: int)
    requires
        0 <= n <= usize::MAX,
    ensures
        forall|j: int| 0 <= j < n ==> #[trigger] insertion_order(keys, n).contains(j as usize),
    decreases n,
{
    if n > 0 {
        lemma_insertion_order_covers(keys, n - 1);
        let p = insertion_order(keys, n - 1);
        crate::order::lemma_first_above(keys, p, n - 1, 0);
        lemma_insertion_order_len(keys, n - 1);
        let at = crate::order::first_above(keys, p, n - 1, 0);
        let q = p.insert(at, (n - 1) as usize);
        p.insert_ensures(at, (n - 1) as usize);
        assert forall|j: int| 0 <= j < n implies #[trigger] insertion_order(keys, n).contains(j as usize) by {
            if j < n - 1 {
                assert(insertion_order(keys, n - 1).contains(j as usize));
                let m = choose|m: int| 0 <= m < p.len() && p[m] == j as usize;
                if m < at {
                    assert(q[m] == p[m]);
                } else {
                    assert(q[m + 1] == p[m]);
                }
            }
        }
    }
}

/// The selection holds `limit` neighbours, or all of them when there are
/// fewer; so what the cap leaves out is the excess over `limit`.
pub proof fn lemma_selection_size(g: (Seq<KeyV>, Seq<KeyV>, Seq<KeyV>), limit: int)
    requires
        0 <= limit,
    ensures
        selection(g, limit).len() == if limit < g.0.len() + g.1.len() + g.2.len() {
            limit
        } else {
            (g.0.len() + g.1.len() + g.2.len()) as int
        },
{
    lemma_rr_len(g, 0, seq![], limit);
    lemma_rr_bounds(g, 0, seq![], limit);
}

/// How many of the three directions have a neighbour.
pub open spec fn directions(g: (Seq<KeyV>, Seq<KeyV>, Seq<KeyV>)) -> int {
    (if g.0.len() > 0 { 1int } else { 0int }) + (if g.1.len() > 0 { 1int } else { 0int }) + (if g.2.len() > 0 {
        1int
    } else {
        0int
    })
}

/// With room for one neighbour per direction that has any, every such
/// direction keeps one in the drawing, however many the others have.
pub proof fn lemma_every_direction_keeps_a_seat(g: (Seq<KeyV>, Seq<KeyV>, Seq<KeyV>), limit: int)
    requires
        directions(g) <= limit <= usize::MAX,
    ensures
        g.0.len() > 0 ==> sorted_selection(selection(g, limit)).contains((g.0[0], LinkDir::Both)),
        g.1.len() > 0 ==> sorted_selection(selection(g, limit)).contains((g.1[0], LinkDir::In)),
        g.2.len() > 0 ==> sorted_selection(selection(g, limit)).contains((g.2[0], LinkDir::Out)),
{
    let e: Seq<(KeyV, LinkDir)> = seq![];
    let first = rr_round(g, 0, e, limit);
    let sel = selection(g, limit);
    if g.0.len() > 0 || g.1.len() > 0 || g.2.len() > 0 {
        assert(sel == rr_from(g, 1, first, limit));
        lemma_rr_keeps_prefix(g, 1, first, limit);
    }
    lemma_selection_bounds(g, limit);
    let keys = sel.map_values(|x: (KeyV, LinkDir)| name_triple(x.0));
    lemma_insertion_order_covers(keys, sel.len() as int);
    lemma_insertion_order_len(keys, sel.len() as int);
    let perm = insertion_order(keys, sel.len() as int);
    let sorted = sorted_selection(sel);
    assert forall|j: int| 0 <= j < sel.len() implies sorted.contains(#[trigger] sel[j]) by {
        assert(perm.contains(j as usize));
        let m = choose|m: int| 0 <= m < perm.len() && perm[m] == j as usize;
        assert(sorted[m] == sel[perm[m] as int]);
    }
    let o1 = if e.len() < limit && 0 < g.0.len() {
        e.push((g.0[0], LinkDir::Both))
    } else {
        e
    };
    let o2 = if o1.len() < limit && 0 < g.1.len() {
        o1.push((g.1[0], LinkDir::In))
    } else {
        o1
    };
    if g.0.len() > 0 {
        assert(first[0] == (g.0[0], LinkDir::Both));
        assert(sel[0] == first[0]);
    }
    if g.1.len() > 0 {
        let j = o1.len() as int;
        assert(first[j] == (g.1[0], LinkDir::In));
        assert(sel[j] == first[j]);
    }
    if g.2.len() > 0 {
        let j = o2.len() as int;
        assert(first[j] == (g.2[0], LinkDir::Out));
        assert(sel[j] == first[j]);
    }
}

/// The nodes are drawn in name order: by context (none as empty), then
/// title.
pub proof fn lemma_graph_nodes_in_name_order(
    center: Seq<char>,
    inbound: Seq<ScrapV>,
    outbound: Seq<ScrapV>,
    limit: int,
    sel: GraphSelection,
)
    requires
        inbound.len() + outbound.len() <= usize::MAX,
        drawn_as(center, inbound, outbound, limit, Some(sel)),
    ensures
        forall|i: int|
            0 <= i < sel.nodes@.len() - 1 ==> {
                let a = name_triple((#[trigger] sel.nodes@[i]).key@);
                let b = name_triple(sel.nodes@[i + 1].key@);
                crate::order::key_lt(a, b) || a == b
            },
{
    let g = groups(inbound, outbound);
    let e: Seq<(KeyV, LinkDir)> = seq![];
    let sel_seq = selection(g, limit);
    let ins = dedup(keys_of_scraps(inbound));
    let outs = dedup(keys_of_scraps(outbound));
    lemma_dedup_len(keys_of_scraps(inbound));
    lemma_dedup_len(keys_of_scraps(outbound));
    lemma_filter_partition(ins, |k: KeyV| outs.contains(k), |k: KeyV| !outs.contains(k));
    crate::lint::lemma_filter_len_le(outs, |k: KeyV| !ins.contains(k));
    lemma_by_name_len(ins.filter(|k: KeyV| outs.contains(k)));
    lemma_by_name_len(ins.filter(|k: KeyV| !outs.contains(k)));
    lemma_by_name_len(outs.filter(|k: KeyV| !ins.contains(k)));
    if limit >= 0 {
        lemma_selection_bounds(g, limit);
    }
    let keys = sel_seq.map_values(|x: (KeyV, LinkDir)| name_triple(x.0));
    crate::order::lemma_insertion_order_sorted(keys, sel_seq.len() as int);
    let perm = insertion_order(keys, sel_seq.len() as int);
    let sorted = sorted_selection(sel_seq);
    assert(choice_views(sel.nodes@) == sorted);
    assert(sel.nodes@.len() == sorted.len());
    assert forall|i: int| 0 <= i < sel.nodes@.len() - 1 implies {
        let a = name_triple((#[trigger] sel.nodes@[i]).key@);
        let b = name_triple(sel.nodes@[i + 1].key@);
        crate::order::key_lt(a, b) || a == b
    } by {
        assert(crate::order::entry_lt(keys, perm[i] as int, perm[i + 1] as int));
        assert(sorted[i] == sel_seq[perm[i] as int]);
        assert(sorted[i + 1] == sel_seq[perm[i + 1] as int]);
        assert(choice_views(sel.nodes@)[i] == sorted[i]);
        assert(choice_views(sel.nodes@)[i + 1] == sorted[i + 1]);
    }
}

} // verus!
