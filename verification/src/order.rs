//! Stable ordering of entries by a key made of a number and two texts.
//! Texts compare character by character, by scalar value, a proper prefix
//! first; this is how Rust orders strings, since UTF-8 keeps the order of
//! scalar values.

use vstd::prelude::*;

use crate::model::{key_views, KeyV, ScrapKey};

verus! {

/// `a` comes before `b`, comparing from position `i` on.
pub open spec fn lex_lt_from(a: Seq<char>, b: Seq<char>, i: int) -> bool
    decreases a.len() - i,
{
    if i < 0 || i >= a.len() {
        0 <= i < b.len()
    } else if i >= b.len() {
        false
    } else if a[i] != b[i] {
        (a[i] as u32) < (b[i] as u32)
    } else {
        lex_lt_from(a, b, i + 1)
    }
}

/// `a` comes before `b` in the order of texts.
pub open spec fn lex_lt(a: Seq<char>, b: Seq<char>) -> bool {
    lex_lt_from(a, b, 0)
}

/// Two texts that agree on their first `i` characters are equal, or one
/// comes before the other.
pub proof fn lemma_lex_total_from(a: Seq<char>, b: Seq<char>, i: int)
    requires
        0 <= i <= a.len(),
        i <= b.len(),
        a.take(i) == b.take(i),
    ensures
        lex_lt_from(a, b, i) || lex_lt_from(b, a, i) || a == b,
    decreases a.len() - i,
{
    if i == a.len() || i == b.len() {
        if i == a.len() && i == b.len() {
            assert(a =~= a.take(i));
            assert(b =~= b.take(i));
        }
    } else if a[i] != b[i] {
        let x = a[i] as u32;
        let y = b[i] as u32;
        if x == y {
            crate::text::lemma_char_of_code(a[i], x);
            crate::text::lemma_char_of_code(b[i], y);
        }
    } else {
        assert(a.take(i + 1) =~= a.take(i).push(a[i]));
        assert(b.take(i + 1) =~= b.take(i).push(b[i]));
        lemma_lex_total_from(a, b, i + 1);
    }
}

/// The order of texts is total.
pub proof fn lemma_lex_total(a: Seq<char>, b: Seq<char>)
    ensures
        lex_lt(a, b) || lex_lt(b, a) || a == b,
{
    assert(a.take(0) =~= b.take(0));
    lemma_lex_total_from(a, b, 0);
}

/// A key as a value: a number, then two texts.
pub type KeyTriple = (int, Seq<char>, Seq<char>);

/// `a` orders before `b`: by number, then by the first text, then by the
/// second.
pub open spec fn key_lt(a: KeyTriple, b: KeyTriple) -> bool {
    a.0 < b.0 || (a.0 == b.0 && (lex_lt(a.1, b.1) || (a.1 == b.1 && lex_lt(a.2, b.2))))
}

pub proof fn lemma_key_total(a: KeyTriple, b: KeyTriple)
    ensures
        key_lt(a, b) || key_lt(b, a) || a == b,
{
    lemma_lex_total(a.1, b.1);
    lemma_lex_total(a.2, b.2);
}

/// The key an entry is ordered by.
pub struct OrderKey {
    pub num: i128,
    pub first: Vec<char>,
    pub second: Vec<char>,
}

impl View for OrderKey {
    type V = KeyTriple;

    open spec fn view(&self) -> KeyTriple {
        (self.num as int, self.first@, self.second@)
    }
}

pub open spec fn key_triples(v: Seq<OrderKey>) -> Seq<KeyTriple> {
    v.map_values(|k: OrderKey| k@)
}

/// Entry `i` orders before entry `j`: by key, then by position.
pub open spec fn entry_lt(keys: Seq<KeyTriple>, i: int, j: int) -> bool {
    key_lt(keys[i], keys[j]) || (keys[i] == keys[j] && i < j)
}

/// `perm` lists each position of `keys` once, each entry before the next
/// one in key order, equal keys in the order given.
pub open spec fn is_stable_order(keys: Seq<KeyTriple>, perm: Seq<usize>) -> bool {
    &&& perm.len() == keys.len()
    &&& perm.no_duplicates()
    &&& forall|k: int| 0 <= k < perm.len() ==> (#[trigger] perm[k]) < keys.len()
    &&& forall|k: int|
        0 <= k < perm.len() - 1 ==> entry_lt(keys, #[trigger] perm[k] as int, perm[k + 1] as int)
}

/// The first position from `j` on whose entry's key is above entry `i`'s.
pub open spec fn first_above(keys: Seq<KeyTriple>, perm: Seq<usize>, i: int, j: int) -> int
    decreases perm.len() - j,
{
    if j < 0 || j >= perm.len() {
        perm.len() as int
    } else if key_lt(keys[i], keys[perm[j] as int]) {
        j
    } else {
        first_above(keys, perm, i, j + 1)
    }
}

pub proof fn lemma_first_above(keys: Seq<KeyTriple>, perm: Seq<usize>, i: int, j: int)
    requires
        0 <= j <= perm.len(),
    ensures
        j <= first_above(keys, perm, i, j) <= perm.len(),
        first_above(keys, perm, i, j) < perm.len() ==> key_lt(
            keys[i],
            keys[perm[first_above(keys, perm, i, j)] as int],
        ),
        forall|m: int|
            j <= m < first_above(keys, perm, i, j) ==> !key_lt(keys[i], #[trigger] keys[perm[m] as int]),
    decreases perm.len() - j,
{
    if j < perm.len() && !key_lt(keys[i], keys[perm[j] as int]) {
        lemma_first_above(keys, perm, i, j + 1);
    }
}

/// The order a stable insertion of the first `n` entries produces: each
/// entry goes just before the first one already placed whose key is above
/// its own.
pub open spec fn insertion_order(keys: Seq<KeyTriple>, n: int) -> Seq<usize>
    decreases n,
{
    if n <= 0 {
        seq![]
    } else {
        let p = insertion_order(keys, n - 1);
        p.insert(first_above(keys, p, n - 1, 0), (n - 1) as usize)
    }
}

/// Inserting entry `i` at the first position whose key is above its own
/// keeps a stable order of the entries before it.
proof fn lemma_insert_keeps_order(kv: Seq<KeyTriple>, old_perm: Seq<usize>, i: int, j: int)
    requires
        0 <= i < kv.len(),
        i <= usize::MAX,
        old_perm.len() == i,
        old_perm.no_duplicates(),
        forall|k: int| 0 <= k < old_perm.len() ==> (#[trigger] old_perm[k]) < i,
        forall|k: int|
            0 <= k < old_perm.len() - 1 ==> entry_lt(kv, #[trigger] old_perm[k] as int, old_perm[k + 1] as int),
        j == first_above(kv, old_perm, i, 0),
    ensures
        ({
            let p = old_perm.insert(j, i as usize);
            &&& p.no_duplicates()
            &&& forall|k: int| 0 <= k < p.len() ==> (#[trigger] p[k]) < i + 1
            &&& forall|k: int|
                0 <= k < p.len() - 1 ==> entry_lt(kv, #[trigger] p[k] as int, p[k + 1] as int)
        }),
{
    lemma_first_above(kv, old_perm, i, 0);
    let p = old_perm.insert(j, i as usize);
    assert(p.len() == i + 1);
    assert forall|k: int| 0 <= k < p.len() implies (#[trigger] p[k]) < i + 1 by {
        if k < j {
            assert(p[k] == old_perm[k]);
        } else if k > j {
            assert(p[k] == old_perm[k - 1]);
        }
    }
    assert forall|a: int, b: int| 0 <= a < p.len() && 0 <= b < p.len() && a != b implies p[a] != p[b] by {
        if a != j && b != j {
            let oa = if a < j {
                a
            } else {
                a - 1
            };
            let ob = if b < j {
                b
            } else {
                b - 1
            };
            assert(p[a] == old_perm[oa]);
            assert(p[b] == old_perm[ob]);
        } else if a == j {
            let ob = if b < j {
                b
            } else {
                b - 1
            };
            assert(p[b] == old_perm[ob]);
        } else {
            let oa = if a < j {
                a
            } else {
                a - 1
            };
            assert(p[a] == old_perm[oa]);
        }
    }
    assert forall|k: int| 0 <= k < p.len() - 1 implies entry_lt(kv, #[trigger] p[k] as int, p[k + 1] as int) by {
        if k + 1 < j {
            assert(p[k] == old_perm[k] && p[k + 1] == old_perm[k + 1]);
        } else if k + 1 == j {
            let q = old_perm[k] as int;
            assert(p[k] == old_perm[k]);
            assert(p[k + 1] == i as usize);
            assert(!key_lt(kv[i], kv[q]));
            lemma_key_total(kv[i], kv[q]);
        } else if k == j {
            assert(p[k] == i as usize);
            assert(p[k + 1] == old_perm[k]);
        } else {
            assert(p[k] == old_perm[k - 1] && p[k + 1] == old_perm[k]);
        }
    }
}

fn lex_less(a: &Vec<char>, b: &Vec<char>) -> (r: bool)
    ensures
        r == lex_lt(a@, b@),
{
    let mut i: usize = 0;
    while i < a.len() && i < b.len() && a[i] == b[i]
        invariant
            i <= a.len(),
            i <= b.len(),
            lex_lt(a@, b@) == lex_lt_from(a@, b@, i as int),
        decreases a.len() - i,
    {
        i += 1;
    }
    if i >= a.len() {
        i < b.len()
    } else if i >= b.len() {
        false
    } else {
        (a[i] as u32) < (b[i] as u32)
    }
}

fn same_text(a: &Vec<char>, b: &Vec<char>) -> (r: bool)
    ensures
        r == (a@ == b@),
{
    if a.len() != b.len() {
        return false;
    }
    let mut i: usize = 0;
    while i < a.len()
        invariant
            i <= a.len() == b.len(),
            forall|j: int| 0 <= j < i ==> a@[j] == b@[j],
        decreases a.len() - i,
    {
        if a[i] != b[i] {
            return false;
        }
        i += 1;
    }
    assert(a@ =~= b@);
    true
}

/// Whether `a` orders before `b`.
pub fn key_less(a: &OrderKey, b: &OrderKey) -> (r: bool)
    ensures
        r == key_lt(a@, b@),
{
    if a.num < b.num {
        true
    } else if a.num > b.num {
        false
    } else if lex_less(&a.first, &b.first) {
        true
    } else if !same_text(&a.first, &b.first) {
        false
    } else {
        lex_less(&a.second, &b.second)
    }
}

/// The positions of `keys` in stable key order.
pub fn stable_order(keys: &Vec<OrderKey>) -> (perm: Vec<usize>)
    ensures
        perm@ == insertion_order(key_triples(keys@), keys.len() as int),
        is_stable_order(key_triples(keys@), perm@),
{
    let ghost kv = key_triples(keys@);
    let mut perm: Vec<usize> = Vec::new();
    let mut i: usize = 0;
    while i < keys.len()
        invariant
            i <= keys.len(),
            kv == key_triples(keys@),
            perm@ == insertion_order(kv, i as int),
            perm.len() == i,
            perm@.no_duplicates(),
            forall|k: int| 0 <= k < perm.len() ==> (#[trigger] perm@[k]) < i,
            forall|k: int|
                0 <= k < perm.len() - 1 ==> entry_lt(kv, #[trigger] perm@[k] as int, perm@[k + 1] as int),
        decreases keys.len() - i,
    {
        let mut j: usize = 0;
        while j < perm.len() && !key_less(&keys[i], &keys[perm[j]])
            invariant
                j <= perm.len() == i,
                i < keys.len(),
                kv == key_triples(keys@),
                forall|k: int| 0 <= k < perm.len() ==> (#[trigger] perm@[k]) < i,
                first_above(kv, perm@, i as int, 0) == first_above(kv, perm@, i as int, j as int),
            decreases perm.len() - j,
        {
            j += 1;
        }
        proof {
            lemma_first_above(kv, perm@, i as int, 0);
        }
        assert(j == first_above(kv, perm@, i as int, 0));
        let ghost old_perm = perm@;
        perm.insert(j, i);
        assert(perm@ == insertion_order(kv, i + 1));
        proof {
            lemma_insert_keeps_order(kv, old_perm, i as int, j as int);
        }
        i += 1;
    }
    perm
}

/// The text a context sorts by: the context, or nothing.
pub open spec fn ctx_text(c: Option<Seq<char>>) -> Seq<char> {
    match c {
        Some(t) => t,
        None => seq![],
    }
}

/// The key a scrap name sorts by: its context, then its title.
pub open spec fn name_triple(k: KeyV) -> KeyTriple {
    (0, ctx_text(k.ctx), k.title)
}

pub open spec fn name_triples(ks: Seq<KeyV>) -> Seq<KeyTriple> {
    ks.map_values(|k: KeyV| name_triple(k))
}

/// The entries of `s` reordered by the positions `perm`.
pub open spec fn permuted<A>(s: Seq<A>, perm: Seq<usize>) -> Seq<A> {
    perm.map_values(|i: usize| s[i as int])
}

/// The names `ks` in name order, equal names in the order given.
pub open spec fn by_name(ks: Seq<KeyV>) -> Seq<KeyV> {
    permuted(ks, insertion_order(name_triples(ks), ks.len() as int))
}

proof fn lemma_lex_from_facts(a: Seq<char>, b: Seq<char>, c: Seq<char>, i: int)
    requires
        0 <= i,
    ensures
        lex_lt_from(a, b, i) && lex_lt_from(b, c, i) ==> lex_lt_from(a, c, i),
        !(lex_lt_from(a, b, i) && lex_lt_from(b, a, i)),
    decreases a.len() - i,
{
    if i < a.len() && i < b.len() && i < c.len() && a[i] == b[i] && b[i] == c[i] {
        lemma_lex_from_facts(a, b, c, i + 1);
    } else if i < a.len() && i < b.len() && a[i] == b[i] {
        lemma_lex_from_facts(a, b, c, i + 1);
    }
}

/// The order of keys is transitive and never runs both ways.
pub proof fn lemma_key_order_facts(a: KeyTriple, b: KeyTriple, c: KeyTriple)
    ensures
        key_lt(a, b) && key_lt(b, c) ==> key_lt(a, c),
        !(key_lt(a, b) && key_lt(b, a)),
{
    lemma_lex_from_facts(a.1, b.1, c.1, 0);
    lemma_lex_from_facts(b.1, a.1, c.1, 0);
    lemma_lex_from_facts(a.2, b.2, c.2, 0);
    lemma_lex_from_facts(b.2, a.2, c.2, 0);
    lemma_lex_from_facts(a.1, b.1, a.1, 0);
    lemma_lex_from_facts(a.2, b.2, a.2, 0);
}

/// The insertion order of the first `n` entries lists each of them once,
/// each before the next in key order, equal keys in the order given.
pub proof fn lemma_insertion_order_sorted(keys: Seq<KeyTriple>, n: int)
    requires
        0 <= n <= keys.len(),
        n <= usize::MAX,
    ensures
        insertion_order(keys, n).len() == n,
        insertion_order(keys, n).no_duplicates(),
        forall|k: int| 0 <= k < n ==> (#[trigger] insertion_order(keys, n)[k]) < n,
        forall|k: int|
            0 <= k < n - 1 ==> entry_lt(
                keys,
                #[trigger] insertion_order(keys, n)[k] as int,
                insertion_order(keys, n)[k + 1] as int,
            ),
    decreases n,
{
    if n > 0 {
        lemma_insertion_order_sorted(keys, n - 1);
        let p = insertion_order(keys, n - 1);
        lemma_first_above(keys, p, n - 1, 0);
        lemma_insert_keeps_order(keys, p, n - 1, first_above(keys, p, n - 1, 0));
    }
}

/// Each name differs from the others, also in the key it sorts by.
pub open spec fn names_distinct(ks: Seq<KeyV>) -> bool {
    &&& ks.no_duplicates()
    &&& forall|i: int, j: int|
        0 <= i < ks.len() && 0 <= j < ks.len() && name_triple(#[trigger] ks[i]) == name_triple(#[trigger] ks[j])
            ==> i == j
}

proof fn lemma_by_name_strict(ks: Seq<KeyV>)
    requires
        names_distinct(ks),
        ks.len() <= usize::MAX,
    ensures
        by_name(ks).len() == ks.len(),
        forall|x: KeyV| by_name(ks).contains(x) <==> ks.contains(x),
        forall|i: int, j: int|
            0 <= i < j < by_name(ks).len() ==> key_lt(
                name_triple(#[trigger] by_name(ks)[i]),
                name_triple(#[trigger] by_name(ks)[j]),
            ),
        by_name(ks).no_duplicates(),
{
    let keys = name_triples(ks);
    let n = ks.len() as int;
    lemma_insertion_order_sorted(keys, n);
    let perm = insertion_order(keys, n);
    let b = by_name(ks);
    assert forall|m: int| 0 <= m < n - 1 implies key_lt(
        name_triple(#[trigger] b[m]),
        name_triple(b[m + 1]),
    ) by {
        assert(entry_lt(keys, perm[m] as int, perm[m + 1] as int));
        assert(b[m] == ks[perm[m] as int]);
        assert(b[m + 1] == ks[perm[m + 1] as int]);
        if keys[perm[m] as int] == keys[perm[m + 1] as int] {
            assert(name_triple(ks[perm[m] as int]) == name_triple(ks[perm[m + 1] as int]));
            assert(perm[m] == perm[m + 1]);
        }
    }
    assert forall|i: int, j: int| 0 <= i < j < b.len() implies key_lt(
        name_triple(#[trigger] b[i]),
        name_triple(#[trigger] b[j]),
    ) by {
        lemma_strict_chain(b, i, j);
    }
    assert forall|x: KeyV| b.contains(x) <==> ks.contains(x) by {
        if b.contains(x) {
            let m = choose|m: int| 0 <= m < b.len() && b[m] == x;
            assert(ks[perm[m] as int] == x);
        }
        if ks.contains(x) {
            let i = choose|i: int| 0 <= i < ks.len() && ks[i] == x;
            crate::graph::lemma_insertion_order_covers(keys, n);
            assert(perm.contains(i as usize));
            let m = choose|m: int| 0 <= m < perm.len() && perm[m] == i as usize;
            assert(b[m] == x);
        }
    }
    assert forall|i: int, j: int| 0 <= i < b.len() && 0 <= j < b.len() && i != j implies b[i] != b[j] by {
        if i < j {
            lemma_key_order_facts(name_triple(b[i]), name_triple(b[j]), name_triple(b[i]));
        } else {
            lemma_key_order_facts(name_triple(b[j]), name_triple(b[i]), name_triple(b[j]));
        }
    }
}

proof fn lemma_strict_unique(x: Seq<KeyV>, y: Seq<KeyV>)
    requires
        forall|i: int, j: int| 0 <= i < j < x.len() ==> key_lt(name_triple(#[trigger] x[i]), name_triple(#[trigger] x[j])),
        forall|i: int, j: int| 0 <= i < j < y.len() ==> key_lt(name_triple(#[trigger] y[i]), name_triple(#[trigger] y[j])),
        forall|v: KeyV| x.contains(v) <==> y.contains(v),
    ensures
        x == y,
    decreases x.len(),
{
    if x.len() == 0 {
        if y.len() > 0 {
            assert(y.contains(y[0]));
        }
        assert(x =~= y);
    } else {
        assert(x.contains(x[0]));
        let q = choose|q: int| 0 <= q < y.len() && y[q] == x[0];
        if q > 0 {
            assert(y.contains(y[0]));
            let p = choose|p: int| 0 <= p < x.len() && x[p] == y[0];
            assert(key_lt(name_triple(y[0]), name_triple(y[q])));
            if p == 0 {
                lemma_key_order_facts(name_triple(y[0]), name_triple(y[0]), name_triple(y[0]));
            } else {
                assert(key_lt(name_triple(x[0]), name_triple(x[p])));
                lemma_key_order_facts(name_triple(x[0]), name_triple(y[0]), name_triple(x[0]));
            }
        }
        let xs = x.drop_first();
        let ys = y.drop_first();
        assert forall|v: KeyV| xs.contains(v) <==> ys.contains(v) by {
            if xs.contains(v) {
                let a = choose|a: int| 0 <= a < xs.len() && xs[a] == v;
                assert(x[a + 1] == v);
                assert(y.contains(v));
                let c = choose|c: int| 0 <= c < y.len() && y[c] == v;
                if c == 0 {
                    assert(key_lt(name_triple(x[0]), name_triple(x[a + 1])));
                    lemma_key_order_facts(name_triple(x[0]), name_triple(x[0]), name_triple(x[0]));
                }
                assert(ys[c - 1] == v);
            }
            if ys.contains(v) {
                let a = choose|a: int| 0 <= a < ys.len() && ys[a] == v;
                assert(y[a + 1] == v);
                assert(x.contains(v));
                let c = choose|c: int| 0 <= c < x.len() && x[c] == v;
                if c == 0 {
                    assert(key_lt(name_triple(y[0]), name_triple(y[a + 1])));
                    lemma_key_order_facts(name_triple(y[0]), name_triple(y[0]), name_triple(y[0]));
                }
                assert(xs[c - 1] == v);
            }
        }
        assert forall|i: int, j: int| 0 <= i < j < xs.len() implies key_lt(name_triple(#[trigger] xs[i]), name_triple(#[trigger] xs[j])) by {
            assert(xs[i] == x[i + 1] && xs[j] == x[j + 1]);
        }
        assert forall|i: int, j: int| 0 <= i < j < ys.len() implies key_lt(name_triple(#[trigger] ys[i]), name_triple(#[trigger] ys[j])) by {
            assert(ys[i] == y[i + 1] && ys[j] == y[j + 1]);
        }
        lemma_strict_unique(xs, ys);
        assert(x =~= seq![x[0]] + xs);
        assert(y =~= seq![y[0]] + ys);
    }
}

/// Name order does not depend on the order the names come in: two lists of
/// the same names, each name once and no two sorting alike, come out the
/// same.
pub proof fn lemma_by_name_ignores_order(a: Seq<KeyV>, b: Seq<KeyV>)
    requires
        names_distinct(a),
        names_distinct(b),
        a.len() <= usize::MAX,
        b.len() <= usize::MAX,
        forall|x: KeyV| a.contains(x) <==> b.contains(x),
    ensures
        by_name(a) == by_name(b),
{
    lemma_by_name_strict(a);
    lemma_by_name_strict(b);
    assert forall|v: KeyV| by_name(a).contains(v) <==> by_name(b).contains(v) by {
        assert(by_name(a).contains(v) <==> a.contains(v));
        assert(by_name(b).contains(v) <==> b.contains(v));
    }
    lemma_strict_unique(by_name(a), by_name(b));
}

proof fn lemma_strict_chain(b: Seq<KeyV>, i: int, j: int)
    requires
        0 <= i < j < b.len(),
        forall|m: int| 0 <= m < b.len() - 1 ==> key_lt(name_triple(#[trigger] b[m]), name_triple(b[m + 1])),
    ensures
        key_lt(name_triple(b[i]), name_triple(b[j])),
    decreases j - i,
{
    if j > i + 1 {
        lemma_strict_chain(b, i, j - 1);
        assert(key_lt(name_triple(b[j - 1]), name_triple(b[j])));
        lemma_key_order_facts(name_triple(b[i]), name_triple(b[j - 1]), name_triple(b[j]));
    }
}

/// The key a scrap name sorts by.
pub fn name_order_key(k: &ScrapKey) -> (r: OrderKey)
    ensures
        r@ == name_triple(k@),
{
    let first = match &k.ctx {
        Some(c) => crate::text::chars_of(c.as_str()),
        None => Vec::new(),
    };
    let r = OrderKey { num: 0, first, second: crate::text::chars_of(k.title.as_str()) };
    assert(r@.1 =~= name_triple(k@).1);
    r
}

/// The names in name order, equal names in the order given.
pub fn sort_by_name(ks: &Vec<ScrapKey>) -> (r: Vec<ScrapKey>)
    ensures
        key_views(r@) == by_name(key_views(ks@)),
{
    let ghost kv = key_views(ks@);
    let mut keys: Vec<OrderKey> = Vec::new();
    let mut i: usize = 0;
    while i < ks.len()
        invariant
            i <= ks.len(),
            kv == key_views(ks@),
            keys.len() == i,
            forall|j: int| 0 <= j < i ==> (#[trigger] keys@[j])@ == name_triple(kv[j]),
        decreases ks.len() - i,
    {
        keys.push(name_order_key(&ks[i]));
        i += 1;
    }
    assert(key_triples(keys@) =~= name_triples(kv));
    let perm = stable_order(&keys);
    let mut r: Vec<ScrapKey> = Vec::new();
    let mut k: usize = 0;
    while k < perm.len()
        invariant
            k <= perm.len() == ks.len(),
            kv == key_views(ks@),
            forall|m: int| 0 <= m < perm.len() ==> (#[trigger] perm@[m]) < ks.len(),
            r.len() == k,
            forall|m: int| 0 <= m < k ==> (#[trigger] r@[m])@ == kv[perm@[m] as int],
        decreases perm.len() - k,
    {
        r.push(ks[perm[k]].duplicate());
        k += 1;
    }
    assert(key_views(r@) =~= by_name(kv));
    r
}

} // verus!
