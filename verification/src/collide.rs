use vstd::prelude::*;
use crate::layer::{holds_index, CollisionLayer, LayerView};
use crate::model::Model;

verus! {

/// Masses `a` and `b` are on a common collision layer.
pub open spec fn share_layer(layers: Seq<LayerView>, a: usize, b: usize) -> bool {
    exists|l: int|
        0 <= l < layers.len() && #[trigger] layers[l].masses.contains(a) && layers[l].masses.contains(
            b,
        )
}

/// Whether masses `a` and `b` are in contact, as the contact table says.
pub open spec fn in_contact(touching: Seq<Seq<bool>>, a: usize, b: usize) -> bool {
    touching[a as int][b as int]
}

/// Pair `(a, b)` is reported: two distinct masses on a common layer, in
/// contact as seen from `a`, unless the same contact was already reported
/// from the side of `b`, the mass visited first (`b < a`).
pub open spec fn reported(layers: Seq<LayerView>, touching: Seq<Seq<bool>>, a: usize, b: usize) -> bool {
    &&& a != b
    &&& share_layer(layers, a, b)
    &&& in_contact(touching, a, b)
    &&& !(b < a && in_contact(touching, b, a))
}

/// The masses listed by layers `0..l` that hold mass `a`, layer after layer,
/// each in the order its layer lists them.
pub open spec fn candidates(layers: Seq<LayerView>, a: usize, l: nat) -> Seq<usize>
    decreases l,
{
    if l == 0 {
        Seq::empty()
    } else {
        let prev = candidates(layers, a, (l - 1) as nat);
        if layers[l - 1].masses.contains(a) {
            prev + layers[l - 1].masses
        } else {
            prev
        }
    }
}

/// The masses that mass `a` is checked against: those of every layer that
/// holds `a`, in the order of the layers and of their lists.
pub open spec fn layer_candidates(layers: Seq<LayerView>, a: usize) -> Seq<usize> {
    candidates(layers, a, layers.len())
}

/// The pairs `(a, b)` reported for mass `a` while walking the candidates
/// `ps`: a candidate is reported at its first occurrence.
pub open spec fn pairs_from(
    layers: Seq<LayerView>,
    touching: Seq<Seq<bool>>,
    a: usize,
    ps: Seq<usize>,
) -> Seq<(usize, usize)>
    decreases ps.len(),
{
    if ps.len() == 0 {
        Seq::empty()
    } else {
        let d = ps.drop_last();
        let prev = pairs_from(layers, touching, a, d);
        if reported(layers, touching, a, ps.last()) && !d.contains(ps.last()) {
            prev.push((a, ps.last()))
        } else {
            prev
        }
    }
}

/// The colliding pairs found among masses `0..k`: mass by mass, and for each
/// mass its candidates in layer order.
pub open spec fn collision_pairs(layers: Seq<LayerView>, touching: Seq<Seq<bool>>, k: nat) -> Seq<
    (usize, usize),
>
    decreases k,
{
    if k == 0 {
        Seq::empty()
    } else {
        collision_pairs(layers, touching, (k - 1) as nat) + pairs_from(
            layers,
            touching,
            (k - 1) as usize,
            layer_candidates(layers, (k - 1) as usize),
        )
    }
}

/// The contact table covers `n` masses.
pub open spec fn contact_table_covers(touching: Seq<Seq<bool>>, n: nat) -> bool {
    &&& touching.len() == n
    &&& forall|a: int| 0 <= a < n ==> (#[trigger] touching[a]).len() == n
}

/// A layer that lists some mass below `n` lists only masses below `n`.
pub open spec fn layers_in_range(layers: Seq<LayerView>, n: nat) -> bool {
    forall|l: int, i: int, j: int|
        #![trigger layers[l].masses[i], layers[l].masses[j]]
        0 <= l < layers.len() && 0 <= i < layers[l].masses.len() && 0 <= j
            < layers[l].masses.len() && layers[l].masses[i] < n ==> layers[l].masses[j] < n
}

/// The view of a contact table.
pub open spec fn table_view(touching: &Vec<Vec<bool>>) -> Seq<Seq<bool>> {
    touching@.map_values(|row: Vec<bool>| row@)
}

proof fn lemma_concat_contains<T>(s1: Seq<T>, s2: Seq<T>, e: T)
    ensures
        (s1 + s2).contains(e) <==> s1.contains(e) || s2.contains(e),
{
    let s = s1 + s2;
    if s.contains(e) {
        let i = choose|i: int| 0 <= i < s.len() && s[i] == e;
        if i < s1.len() {
            assert(s1[i] == e);
        } else {
            assert(s2[i - s1.len()] == e);
        }
    }
    if s1.contains(e) {
        let i = choose|i: int| 0 <= i < s1.len() && s1[i] == e;
        assert(s[i] == e);
    }
    if s2.contains(e) {
        let i = choose|i: int| 0 <= i < s2.len() && s2[i] == e;
        assert(s[s1.len() + i] == e);
    }
}

/// The candidates of mass `a` are the masses it shares a layer with.
proof fn lemma_candidates_members(layers: Seq<LayerView>, a: usize, l: nat)
    requires
        l <= layers.len(),
    ensures
        forall|y: usize|
            #[trigger] candidates(layers, a, l).contains(y) <==> exists|l2: int|
                0 <= l2 < l && #[trigger] layers[l2].masses.contains(a) && layers[l2].masses.contains(
                    y,
                ),
    decreases l,
{
    if l > 0 {
        let k = (l - 1) as nat;
        lemma_candidates_members(layers, a, k);
        let prev = candidates(layers, a, k);
        assert forall|y: usize|
            #[trigger] candidates(layers, a, l).contains(y) <==> exists|l2: int|
                0 <= l2 < l && #[trigger] layers[l2].masses.contains(a) && layers[l2].masses.contains(
                    y,
                ) by {
            lemma_concat_contains(prev, layers[k as int].masses, y);
            if candidates(layers, a, l).contains(y) {
                if prev.contains(y) {
                    let l2 = choose|l2: int|
                        0 <= l2 < k && #[trigger] layers[l2].masses.contains(a)
                            && layers[l2].masses.contains(y);
                    assert(layers[l2].masses.contains(a));
                } else {
                    assert(layers[k as int].masses.contains(a));
                }
            }
            if exists|l2: int|
                0 <= l2 < l && #[trigger] layers[l2].masses.contains(a) && layers[l2].masses.contains(
                    y,
                ) {
                let l2 = choose|l2: int|
                    0 <= l2 < l && #[trigger] layers[l2].masses.contains(a)
                        && layers[l2].masses.contains(y);
                if l2 < k {
                    assert(prev.contains(y));
                }
            }
        }
    }
}

/// The candidates of a mass are exactly the masses it shares a layer with.
proof fn lemma_layer_candidates(layers: Seq<LayerView>, a: usize)
    ensures
        forall|y: usize| #[trigger] layer_candidates(layers, a).contains(y) <==> share_layer(layers, a, y),
{
    lemma_candidates_members(layers, a, layers.len());
}

/// Membership in the pairs reported for one mass.
proof fn lemma_pairs_from_members(
    layers: Seq<LayerView>,
    touching: Seq<Seq<bool>>,
    a: usize,
    ps: Seq<usize>,
)
    ensures
        forall|x: usize, y: usize|
            #[trigger] pairs_from(layers, touching, a, ps).contains((x, y)) <==> x == a
                && ps.contains(y) && reported(layers, touching, a, y),
    decreases ps.len(),
{
    if ps.len() > 0 {
        let d = ps.drop_last();
        lemma_pairs_from_members(layers, touching, a, d);
        let prev = pairs_from(layers, touching, a, d);
        let cur = pairs_from(layers, touching, a, ps);
        assert(ps == d.push(ps.last()));
        assert forall|x: usize, y: usize|
            #[trigger] pairs_from(layers, touching, a, ps).contains((x, y)) <==> x == a
                && ps.contains(y) && reported(layers, touching, a, y) by {
            lemma_concat_contains(d, seq![ps.last()], y);
            assert(d + seq![ps.last()] == ps);
            if cur.contains((x, y)) {
                let i = choose|i: int| 0 <= i < cur.len() && cur[i] == (x, y);
                if i < prev.len() {
                    assert(prev[i] == (x, y));
                    assert(prev.contains((x, y)));
                } else {
                    assert(cur[cur.len() - 1] == (x, y));
                    assert(seq![ps.last()][0] == y);
                }
            }
            if x == a && ps.contains(y) && reported(layers, touching, a, y) {
                if d.contains(y) {
                    assert(prev.contains((x, y)));
                    let i = choose|i: int| 0 <= i < prev.len() && prev[i] == (x, y);
                    assert(cur[i] == (x, y));
                } else {
                    assert(seq![ps.last()].contains(y));
                    assert(y == ps.last());
                    assert(cur[cur.len() - 1] == (x, y));
                }
            }
        }
    }
}

/// Membership in the pairs found so far.
proof fn lemma_collision_pairs_members(layers: Seq<LayerView>, touching: Seq<Seq<bool>>, k: nat)
    requires
        k <= usize::MAX + 1,
    ensures
        forall|x: usize, y: usize|
            #[trigger] collision_pairs(layers, touching, k).contains((x, y)) <==> x < k
                && reported(layers, touching, x, y),
    decreases k,
{
    if k > 0 {
        lemma_collision_pairs_members(layers, touching, (k - 1) as nat);
        let a = (k - 1) as usize;
        let ps = layer_candidates(layers, a);
        lemma_pairs_from_members(layers, touching, a, ps);
        lemma_layer_candidates(layers, a);
        let prev = collision_pairs(layers, touching, (k - 1) as nat);
        let cur = pairs_from(layers, touching, a, ps);
        assert forall|x: usize, y: usize|
            #[trigger] collision_pairs(layers, touching, k).contains((x, y)) <==> x < k && reported(
                layers,
                touching,
                x,
                y,
            ) by {
            lemma_concat_contains(prev, cur, (x, y));
            if x == a && reported(layers, touching, x, y) {
                assert(ps.contains(y));
            }
        }
    }
}

proof fn lemma_pairs_from_no_duplicates(
    layers: Seq<LayerView>,
    touching: Seq<Seq<bool>>,
    a: usize,
    ps: Seq<usize>,
)
    ensures
        pairs_from(layers, touching, a, ps).no_duplicates(),
    decreases ps.len(),
{
    if ps.len() > 0 {
        let d = ps.drop_last();
        lemma_pairs_from_no_duplicates(layers, touching, a, d);
        lemma_pairs_from_members(layers, touching, a, d);
        let prev = pairs_from(layers, touching, a, d);
        let y = ps.last();
        if reported(layers, touching, a, y) && !d.contains(y) {
            assert(!prev.contains((a, y)));
            let cur = prev.push((a, y));
            assert forall|i: int, j: int|
                0 <= i < cur.len() && 0 <= j < cur.len() && i != j implies cur[i] != cur[j] by {
                if i == cur.len() - 1 {
                    assert(cur[j] == prev[j]);
                    if cur[i] == cur[j] {
                        assert(prev.contains((a, y)));
                    }
                } else if j == cur.len() - 1 {
                    assert(cur[i] == prev[i]);
                    if cur[i] == cur[j] {
                        assert(prev.contains((a, y)));
                    }
                } else {
                    assert(cur[i] == prev[i] && cur[j] == prev[j]);
                }
            }
        }
    }
}

proof fn lemma_collision_pairs_no_duplicates(layers: Seq<LayerView>, touching: Seq<Seq<bool>>, k: nat)
    requires
        k <= usize::MAX + 1,
    ensures
        collision_pairs(layers, touching, k).no_duplicates(),
    decreases k,
{
    if k > 0 {
        let a = (k - 1) as usize;
        let ps = layer_candidates(layers, a);
        lemma_collision_pairs_no_duplicates(layers, touching, (k - 1) as nat);
        lemma_collision_pairs_members(layers, touching, (k - 1) as nat);
        lemma_pairs_from_no_duplicates(layers, touching, a, ps);
        lemma_pairs_from_members(layers, touching, a, ps);
        let prev = collision_pairs(layers, touching, (k - 1) as nat);
        let cur = pairs_from(layers, touching, a, ps);
        let all = collision_pairs(layers, touching, k);
        assert(all == prev + cur);
        assert forall|i: int, j: int|
            0 <= i < all.len() && 0 <= j < all.len() && i != j implies all[i] != all[j] by {
            if i < prev.len() && j >= prev.len() {
                assert(all[i] == prev[i] && all[j] == cur[j - prev.len()]);
                let (x1, y1) = prev[i];
                let (x2, y2) = cur[j - prev.len()];
                assert(prev.contains((x1, y1)));
                assert(cur.contains((x2, y2)));
            } else if j < prev.len() && i >= prev.len() {
                assert(all[j] == prev[j] && all[i] == cur[i - prev.len()]);
                let (x1, y1) = prev[j];
                let (x2, y2) = cur[i - prev.len()];
                assert(prev.contains((x1, y1)));
                assert(cur.contains((x2, y2)));
            } else if i < prev.len() {
                assert(all[i] == prev[i] && all[j] == prev[j]);
            } else {
                assert(all[i] == cur[i - prev.len()] && all[j] == cur[j - prev.len()]);
            }
        }
    }
}

/// Pairs are grouped by their first mass, in increasing order.
proof fn lemma_collision_pairs_sorted(layers: Seq<LayerView>, touching: Seq<Seq<bool>>, k: nat)
    requires
        k <= usize::MAX + 1,
    ensures
        forall|i: int, j: int|
            0 <= i < j < collision_pairs(layers, touching, k).len() ==> (#[trigger] collision_pairs(
                layers,
                touching,
                k,
            )[i]).0 <= (#[trigger] collision_pairs(layers, touching, k)[j]).0,
    decreases k,
{
    if k > 0 {
        let a = (k - 1) as usize;
        let ps = layer_candidates(layers, a);
        lemma_collision_pairs_sorted(layers, touching, (k - 1) as nat);
        lemma_collision_pairs_members(layers, touching, (k - 1) as nat);
        lemma_pairs_from_members(layers, touching, a, ps);
        let prev = collision_pairs(layers, touching, (k - 1) as nat);
        let cur = pairs_from(layers, touching, a, ps);
        let all = collision_pairs(layers, touching, k);
        assert(all == prev + cur);
        assert forall|i: int, j: int| 0 <= i < j < all.len() implies (#[trigger] all[i]).0 <= (
        #[trigger] all[j]).0 by {
            if j < prev.len() {
                assert(all[i] == prev[i] && all[j] == prev[j]);
            } else if i < prev.len() {
                assert(all[i] == prev[i] && all[j] == cur[j - prev.len()]);
                let (x1, y1) = prev[i];
                let (x2, y2) = cur[j - prev.len()];
                assert(prev.contains((x1, y1)));
                assert(cur.contains((x2, y2)));
            } else {
                assert(all[i] == cur[i - prev.len()] && all[j] == cur[j - prev.len()]);
                let (x1, y1) = cur[i - prev.len()];
                let (x2, y2) = cur[j - prev.len()];
                assert(cur.contains((x1, y1)));
                assert(cur.contains((x2, y2)));
            }
        }
    }
}

/// Every contact between two distinct masses that some collision layer lists
/// together is found, in one orientation or the other, and every pair found
/// is such a contact: in particular, no mass is paired with itself.
pub proof fn law_collisions_are_the_layer_contacts(
    layers: Seq<LayerView>,
    touching: Seq<Seq<bool>>,
    n: nat,
)
    requires
        n <= usize::MAX,
        layers_in_range(layers, n),
    ensures
        forall|a: usize, b: usize, l: int|
            a < n && b < n && a != b && 0 <= l < layers.len() && #[trigger] layers[l].masses.contains(a)
                && #[trigger] layers[l].masses.contains(b) && touching[a as int][b as int]
                ==> collision_pairs(layers, touching, n).contains((a, b)) || collision_pairs(
                layers,
                touching,
                n,
            ).contains((b, a)),
        forall|a: usize, b: usize|
            #[trigger] collision_pairs(layers, touching, n).contains((a, b)) ==> {
                &&& a < n
                &&& b < n
                &&& a != b
                &&& touching[a as int][b as int]
                &&& exists|l: int|
                    0 <= l < layers.len() && #[trigger] layers[l].masses.contains(a)
                        && layers[l].masses.contains(b)
            },
{
    lemma_collision_pairs_members(layers, touching, n);
    assert forall|a: usize, b: usize, l: int|
        a < n && b < n && a != b && 0 <= l < layers.len() && #[trigger] layers[l].masses.contains(a)
            && #[trigger] layers[l].masses.contains(b) && touching[a as int][b as int] implies collision_pairs(
        layers,
        touching,
        n,
    ).contains((a, b)) || collision_pairs(layers, touching, n).contains((b, a)) by {
        assert(share_layer(layers, a, b));
        assert(share_layer(layers, b, a));
        if !reported(layers, touching, a, b) {
            assert(reported(layers, touching, b, a));
            assert(collision_pairs(layers, touching, n).contains((b, a)));
        } else {
            assert(collision_pairs(layers, touching, n).contains((a, b)));
        }
    }
    assert forall|a: usize, b: usize|
        #[trigger] collision_pairs(layers, touching, n).contains((a, b)) implies {
        &&& a < n
        &&& b < n
        &&& a != b
        &&& touching[a as int][b as int]
        &&& exists|l: int|
            0 <= l < layers.len() && #[trigger] layers[l].masses.contains(a)
                && layers[l].masses.contains(b)
    } by {
        assert(reported(layers, touching, a, b));
        let l = choose|l: int|
            0 <= l < layers.len() && #[trigger] layers[l].masses.contains(a)
                && layers[l].masses.contains(b);
        let i = choose|i: int| 0 <= i < layers[l].masses.len() && layers[l].masses[i] == a;
        let j = choose|j: int| 0 <= j < layers[l].masses.len() && layers[l].masses[j] == b;
        assert(layers[l].masses[i] < n);
        assert(layers[l].masses[j] < n);
    }
}

/// No collision is reported twice: no pair occurs twice, and no pair occurs
/// in both orientations; pairs come grouped by their first mass, in
/// increasing order.
pub proof fn law_collisions_reported_once(layers: Seq<LayerView>, touching: Seq<Seq<bool>>, n: nat)
    requires
        n <= usize::MAX,
    ensures
        collision_pairs(layers, touching, n).no_duplicates(),
        forall|i: int, j: int|
            0 <= i < j < collision_pairs(layers, touching, n).len() ==> (#[trigger] collision_pairs(
                layers,
                touching,
                n,
            )[i]).0 <= (#[trigger] collision_pairs(layers, touching, n)[j]).0,
        forall|a: usize, b: usize|
            #[trigger] collision_pairs(layers, touching, n).contains((a, b))
                ==> !collision_pairs(layers, touching, n).contains((b, a)),
{
    lemma_collision_pairs_members(layers, touching, n);
    lemma_collision_pairs_no_duplicates(layers, touching, n);
    lemma_collision_pairs_sorted(layers, touching, n);
}

/// Whether `v` holds the pair `(x, y)`.
fn holds_pair(v: &Vec<(usize, usize)>, x: usize, y: usize) -> (r: bool)
    ensures
        r == v@.contains((x, y)),
{
    let mut i: usize = 0;
    while i < v.len()
        invariant
            i <= v.len(),
            forall|j: int| 0 <= j < i ==> v@[j] != (x, y),
        decreases v.len() - i,
    {
        let (p, q) = v[i];
        if p == x && q == y {
            assert(v@[i as int] == (x, y));
            return true;
        }
        i = i + 1;
    }
    false
}

impl<M, S> Model<M, S> {
    /// The pairs of masses that collide. Two distinct masses `a` and `b`
    /// collide when some collision layer holds both and `touching[a][b]` says
    /// they are in contact. Masses are visited in increasing order; for each
    /// mass `a`, every layer that holds it is walked in order, and each mass
    /// `b` it lists is paired as `(a, b)` unless the pair was already found
    /// in either orientation.
    pub fn find_collisions(&self, touching: &Vec<Vec<bool>>) -> (r: Vec<(usize, usize)>)
        requires
            self.wf(),
            contact_table_covers(table_view(touching), self@.masses.len()),
            layers_in_range(self@.layers, self@.masses.len()),
        ensures
            r@ == collision_pairs(self@.layers, table_view(touching), self@.masses.len()),
            forall|a: usize, b: usize, l: int|
                a < self@.masses.len() && b < self@.masses.len() && a != b && 0 <= l
                    < self@.layers.len() && #[trigger] self@.layers[l].masses.contains(a)
                    && #[trigger] self@.layers[l].masses.contains(b) && touching@[a as int]@[b as int]
                    ==> r@.contains((a, b)) || r@.contains((b, a)),
            forall|a: usize, b: usize|
                #[trigger] r@.contains((a, b)) ==> {
                    &&& a < self@.masses.len()
                    &&& b < self@.masses.len()
                    &&& a != b
                    &&& touching@[a as int]@[b as int]
                    &&& exists|l: int|
                        0 <= l < self@.layers.len() && #[trigger] self@.layers[l].masses.contains(a)
                            && self@.layers[l].masses.contains(b)
                },
            r@.no_duplicates(),
            forall|a: usize, b: usize| #[trigger] r@.contains((a, b)) ==> !r@.contains((b, a)),
            forall|i: int, j: int| 0 <= i < j < r@.len() ==> (#[trigger] r@[i]).0 <= (#[trigger] r@[j]).0,
    {
        let ghost lv = self@.layers;
        let ghost tv = table_view(touching);
        let n = self.get_masses().len();
        let layers = self.get_collision_layers();
        let mut collisions: Vec<(usize, usize)> = Vec::new();
        let mut a: usize = 0;
        while a < n
            invariant
                a <= n,
                n == self@.masses.len(),
                layers@.map_values(|l: CollisionLayer| l@) == lv,
                tv == table_view(touching),
                contact_table_covers(tv, n as nat),
                layers_in_range(lv, n as nat),
                collisions@ == collision_pairs(lv, tv, a as nat),
            decreases n - a,
        {
            assert(touching@[a as int]@ == tv[a as int]);
            let mut l: usize = 0;
            while l < layers.len()
                invariant
                    a < n,
                    l <= layers.len(),
                    layers@.map_values(|l: CollisionLayer| l@) == lv,
                    tv == table_view(touching),
                    touching@[a as int]@ == tv[a as int],
                    contact_table_covers(tv, n as nat),
                    layers_in_range(lv, n as nat),
                    collisions@ == collision_pairs(lv, tv, a as nat) + pairs_from(
                        lv,
                        tv,
                        a,
                        candidates(lv, a, l as nat),
                    ),
                decreases layers.len() - l,
            {
                assert(layers@[l as int]@ == lv[l as int]);
                let ms = layers[l].masses();
                let ghost base = candidates(lv, a, l as nat);
                if holds_index(ms, a) {
                    let mut p: usize = 0;
                    while p < ms.len()
                        invariant
                            a < n,
                            p <= ms.len(),
                            l < lv.len(),
                            ms@ == lv[l as int].masses,
                            ms@.contains(a),
                            base == candidates(lv, a, l as nat),
                            tv == table_view(touching),
                            touching@[a as int]@ == tv[a as int],
                            contact_table_covers(tv, n as nat),
                            layers_in_range(lv, n as nat),
                            collisions@ == collision_pairs(lv, tv, a as nat) + pairs_from(
                                lv,
                                tv,
                                a,
                                base + ms@.take(p as int),
                            ),
                        decreases ms.len() - p,
                    {
                        let b = ms[p];
                        let ghost ps = base + ms@.take(p as int);
                        let ghost before = collisions@;
                        proof {
                            let i = choose|i: int| 0 <= i < ms@.len() && ms@[i] == a;
                            assert(lv[l as int].masses[i] < n);
                            assert(lv[l as int].masses[p as int] < n);
                            assert(lv[l as int].masses.contains(b));
                            assert(share_layer(lv, a, b));
                            assert(share_layer(lv, b, a));
                            assert(base + ms@.take(p + 1) =~= ps.push(b));
                            assert(ps.push(b).drop_last() =~= ps);
                            lemma_collision_pairs_members(lv, tv, a as nat);
                            lemma_pairs_from_members(lv, tv, a, ps);
                            lemma_concat_contains(
                                collision_pairs(lv, tv, a as nat),
                                pairs_from(lv, tv, a, ps),
                                (a, b),
                            );
                            lemma_concat_contains(
                                collision_pairs(lv, tv, a as nat),
                                pairs_from(lv, tv, a, ps),
                                (b, a),
                            );
                        }
                        assert(touching@[b as int]@ == tv[b as int]);
                        if b != a && touching[a][b] {
                            let seen_ab = holds_pair(&collisions, a, b);
                            let seen_ba = holds_pair(&collisions, b, a);
                            assert(seen_ab == (ps.contains(b) && reported(lv, tv, a, b)));
                            assert(seen_ba == (b < a && in_contact(tv, b, a)));
                            if !seen_ab && !seen_ba {
                                collisions.push((a, b));
                            }
                        }
                        assert(collisions@ =~= collision_pairs(lv, tv, a as nat) + pairs_from(
                            lv,
                            tv,
                            a,
                            base + ms@.take(p + 1),
                        ));
                        p = p + 1;
                    }
                    assert(ms@.take(ms.len() as int) =~= ms@);
                    assert(candidates(lv, a, (l + 1) as nat) == base + ms@);
                } else {
                    assert(candidates(lv, a, (l + 1) as nat) == base);
                }
                l = l + 1;
            }
            assert(collision_pairs(lv, tv, (a + 1) as nat) == collision_pairs(lv, tv, a as nat)
                + pairs_from(lv, tv, a, layer_candidates(lv, a)));
            a = a + 1;
        }
        proof {
            law_collisions_are_the_layer_contacts(lv, tv, n as nat);
            law_collisions_reported_once(lv, tv, n as nat);
            assert forall|a: usize, b: usize| a < n && b < n implies #[trigger] tv[a as int][b as int]
                == touching@[a as int]@[b as int] by {
                assert(tv[a as int] == touching@[a as int]@);
            }
        }
        collisions
    }
}

} // verus!
