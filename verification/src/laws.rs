use vstd::prelude::*;
use crate::spring::SpringView;
use crate::model::{
    attached_indices, increasing_below, lemma_attached_indices, lemma_attached_indices_increasing,
    lemma_swap_removed_from_back_keeps, renamed_all, renaming, springs_after_mass_removal,
    springs_connect_masses, swap_removed, swap_removed_from_back, unattached, unlisted, ModelView,
};

verus! {

broadcast use vstd::multiset::group_multiset_axioms;

/// The elements of `s` at the positions listed in `idx`, in the order of `idx`.
pub open spec fn at_positions<T>(s: Seq<T>, idx: Seq<usize>) -> Seq<T> {
    idx.map_values(|i: usize| s[i as int])
}

/// `swap_remove` takes exactly one element out: the one at the index.
pub proof fn law_swap_remove_takes_one<T>(s: Seq<T>, i: int)
    requires
        0 <= i < s.len(),
    ensures
        swap_removed(s, i).to_multiset().insert(s[i]) == s.to_multiset(),
{
    broadcast use vstd::seq_lib::group_to_multiset_ensures;

    let u = s.update(i, s.last());
    let t = u.drop_last();
    vstd::seq_lib::to_multiset_update(s, i, s.last());
    assert(u == t.push(u.last()));
    vstd::seq_lib::to_multiset_build(t, u.last());
    assert(u.last() == s.last());
    assert(s.to_multiset().count(s[i]) > 0) by {
        vstd::seq_lib::to_multiset_contains(s, s[i]);
        assert(s.contains(s[i]));
    }
    let a = t.to_multiset();
    let b = s.to_multiset();
    assert forall|v: T| #[trigger] a.insert(s[i]).count(v) == b.count(v) by {
        assert(a.insert(s.last()).count(v) == b.insert(s.last()).remove(s[i]).count(v));
    }
    assert(a.insert(s[i]) =~= b);
}

proof fn lemma_swap_removed_from_back_multiset<T>(s: Seq<T>, idx: Seq<usize>)
    requires
        increasing_below(idx, s.len()),
    ensures
        swap_removed_from_back(s, idx).to_multiset().add(at_positions(s, idx).to_multiset())
            == s.to_multiset(),
    decreases idx.len(),
{
    broadcast use vstd::seq_lib::group_to_multiset_ensures;

    if idx.len() == 0 {
        assert(at_positions(s, idx) =~= Seq::<T>::empty());
        assert(swap_removed_from_back(s, idx).to_multiset().add(at_positions(s, idx).to_multiset())
            =~= s.to_multiset());
    } else {
        let top = idx.last();
        let t = swap_removed(s, top as int);
        let d = idx.drop_last();
        assert(increasing_below(d, t.len())) by {
            assert forall|i: int| 0 <= i < d.len() implies #[trigger] d[i] < t.len() by {
                assert(idx[i] < idx[idx.len() - 1]);
            }
        }
        lemma_swap_removed_from_back_multiset(t, d);
        assert(at_positions(t, d) =~= at_positions(s, d)) by {
            assert forall|i: int| 0 <= i < d.len() implies at_positions(t, d)[i] == at_positions(
                s,
                d,
            )[i] by {
                assert(idx[i] < idx[idx.len() - 1]);
            }
        }
        assert(at_positions(s, idx) =~= at_positions(s, d).push(s[top as int]));
        law_swap_remove_takes_one(s, top as int);
        assert(swap_removed_from_back(s, idx) == swap_removed_from_back(t, d));
        assert(swap_removed_from_back(s, idx).to_multiset().add(at_positions(s, idx).to_multiset())
            =~= s.to_multiset());
    }
}

proof fn lemma_swap_removed_from_back_map<A, B>(s: Seq<A>, idx: Seq<usize>, f: spec_fn(A) -> B)
    requires
        increasing_below(idx, s.len()),
    ensures
        swap_removed_from_back(s.map_values(f), idx) == swap_removed_from_back(s, idx).map_values(f),
    decreases idx.len(),
{
    if idx.len() > 0 {
        let top = idx.last();
        let t = swap_removed(s, top as int);
        let d = idx.drop_last();
        assert(increasing_below(d, t.len())) by {
            assert forall|i: int| 0 <= i < d.len() implies #[trigger] d[i] < t.len() by {
                assert(idx[i] < idx[idx.len() - 1]);
            }
        }
        lemma_swap_removed_from_back_map(t, d, f);
        assert(swap_removed(s.map_values(f), top as int) =~= t.map_values(f));
    } else {
        assert(swap_removed_from_back(s.map_values(f), idx) =~= swap_removed_from_back(s, idx).map_values(f));
    }
}

proof fn lemma_filter_split<S>(
    s: Seq<SpringView<S>>,
    m: usize,
    f: spec_fn(SpringView<S>) -> SpringView<S>,
)
    requires
        s.len() <= usize::MAX,
    ensures
        s.filter(unattached(m)).map_values(f).to_multiset().add(
            at_positions(s, attached_indices(s, m)).map_values(f).to_multiset(),
        ) == s.map_values(f).to_multiset(),
    decreases s.len(),
{
    broadcast use vstd::seq_lib::group_to_multiset_ensures;

    let p = unattached::<S>(m);
    reveal(Seq::filter);
    if s.len() == 0 {
        assert(s.filter(p).map_values(f) =~= Seq::<SpringView<S>>::empty());
        assert(at_positions(s, attached_indices(s, m)).map_values(f) =~= Seq::<SpringView<S>>::empty());
        assert(s.map_values(f) =~= Seq::<SpringView<S>>::empty());
        assert(s.filter(p).map_values(f).to_multiset().add(
            at_positions(s, attached_indices(s, m)).map_values(f).to_multiset(),
        ) =~= s.map_values(f).to_multiset());
    } else {
        let d = s.drop_last();
        let x = s.last();
        lemma_filter_split(d, m, f);
        let ad = attached_indices(d, m);
        assert(increasing_below(ad, d.len())) by {
            lemma_attached_indices_increasing(d, m);
        }
        assert(at_positions(s, ad) =~= at_positions(d, ad)) by {
            assert forall|i: int| 0 <= i < ad.len() implies at_positions(s, ad)[i] == at_positions(
                d,
                ad,
            )[i] by {
                assert(ad[i] < d.len());
            }
        }
        assert(s.map_values(f) =~= d.map_values(f).push(f(x)));
        if p(x) {
            assert(s.filter(p) == d.filter(p).push(x));
            assert(s.filter(p).map_values(f) =~= d.filter(p).map_values(f).push(f(x)));
            assert(attached_indices(s, m) == ad);
        } else {
            assert(s.filter(p) == d.filter(p));
            assert(attached_indices(s, m) == ad.push((s.len() - 1) as usize));
            assert(at_positions(s, attached_indices(s, m)).map_values(f) =~= at_positions(
                d,
                ad,
            ).map_values(f).push(f(x)));
        }
        assert(s.filter(p).map_values(f).to_multiset().add(
            at_positions(s, attached_indices(s, m)).map_values(f).to_multiset(),
        ) =~= s.map_values(f).to_multiset());
    }
}

/// Removing a mass deletes exactly the springs attached to it: every other
/// spring stays, once, with its ends on the former last mass moved to the
/// freed position.
pub proof fn law_mass_removal_keeps_exactly_unattached_springs<S>(
    springs: Seq<SpringView<S>>,
    m: usize,
    n: nat,
)
    requires
        springs.len() <= usize::MAX,
    ensures
        springs_after_mass_removal(springs, m, n).to_multiset() == springs.filter(
            unattached(m),
        ).map_values(renaming((n - 1) as usize, m)).to_multiset(),
{
    let f = renaming::<S>((n - 1) as usize, m);
    let idx = attached_indices(springs, m);
    lemma_attached_indices_increasing(springs, m);
    lemma_swap_removed_from_back_map(springs, idx, f);
    lemma_swap_removed_from_back_multiset(springs.map_values(f), idx);
    assert(at_positions(springs.map_values(f), idx) =~= at_positions(springs, idx).map_values(f)) by {
        assert forall|i: int| 0 <= i < idx.len() implies #[trigger] at_positions(springs.map_values(f), idx)[i]
            == at_positions(springs, idx).map_values(f)[i] by {
            assert(idx[i] < springs.len());
        }
    }
    lemma_filter_split(springs, m, f);
    let a = springs_after_mass_removal(springs, m, n).to_multiset();
    let b = springs.filter(unattached(m)).map_values(f).to_multiset();
    let c = at_positions(springs, idx).map_values(f).to_multiset();
    assert(a.add(c) == b.add(c));
    assert(a =~= b) by {
        assert forall|v| #[trigger] a.count(v) == b.count(v) by {
            assert(a.add(c).count(v) == b.add(c).count(v));
        }
    }
}

} // verus!

verus! {

/// Switching gravity off and on again (or on and off) restores the model.
pub proof fn law_toggle_g_twice<M, S>(v: ModelView<M, S>)
    ensures
        ({
            let once = ModelView { ignore_g: !v.ignore_g, ..v };
            ModelView { ignore_g: !once.ignore_g, ..once }
        }) == v,
{
}

/// Reversing the wave twice restores the model.
pub proof fn law_toggle_wave_dir_twice<M, S>(v: ModelView<M, S>)
    ensures
        ({
            let once = ModelView { wave_reversed: !v.wave_reversed, ..v };
            ModelView { wave_reversed: !once.wave_reversed, ..once }
        }) == v,
{
}

} // verus!

verus! {

proof fn lemma_no_attached_indices<S>(springs: Seq<SpringView<S>>, m: usize)
    requires
        forall|i: int| 0 <= i < springs.len() ==> !(#[trigger] springs[i]).attached_to(m),
    ensures
        attached_indices(springs, m) == Seq::<usize>::empty(),
    decreases springs.len(),
{
    if springs.len() > 0 {
        let d = springs.drop_last();
        assert forall|i: int| 0 <= i < d.len() implies !(#[trigger] d[i]).attached_to(m) by {
            assert(d[i] == springs[i]);
        }
        lemma_no_attached_indices(d, m);
        assert(!springs[springs.len() - 1].attached_to(m));
    }
}

/// Deleting the spring that was added last gives back the springs as they were.
pub proof fn law_del_spring_undoes_new_spring<S>(springs: Seq<SpringView<S>>, s: SpringView<S>)
    ensures
        swap_removed(springs.push(s), springs.len() as int) == springs,
{
    assert(swap_removed(springs.push(s), springs.len() as int) =~= springs);
}

/// Moving the ends on a mass no spring is attached to changes no spring.
proof fn lemma_renamed_all_unattached<S>(springs: Seq<SpringView<S>>, from: usize, to: usize)
    requires
        forall|i: int| 0 <= i < springs.len() ==> !(#[trigger] springs[i]).attached_to(from),
    ensures
        renamed_all(springs, from, to) == springs,
{
    let r = renamed_all(springs, from, to);
    assert forall|i: int| 0 <= i < springs.len() implies #[trigger] r[i] == springs[i] by {
        assert(!springs[i].attached_to(from));
        assert(r[i] == springs[i].renamed(from, to));
    }
    assert(r =~= springs);
}

/// Deleting the mass that was added last gives back the masses and springs
/// as they were: no spring can be attached to it yet.
pub proof fn law_del_mass_undoes_new_mass<M, S>(
    masses: Seq<M>,
    springs: Seq<SpringView<S>>,
    mass: M,
)
    requires
        springs_connect_masses(springs, masses.len()),
        masses.len() < usize::MAX,
    ensures
        swap_removed(masses.push(mass), masses.len() as int) == masses,
        springs_after_mass_removal(springs, masses.len() as usize, masses.len() + 1) == springs,
{
    let n = masses.len();
    let m = n as usize;
    assert(swap_removed(masses.push(mass), n as int) =~= masses);
    assert forall|i: int| 0 <= i < springs.len() implies !(#[trigger] springs[i]).attached_to(m) by {
        assert(springs_connect_masses(springs, n));
        assert(springs[i].m_a < n);
        assert(springs[i].m_b < n);
    }
    lemma_no_attached_indices(springs, m);
    assert(swap_removed_from_back(springs, Seq::<usize>::empty()) == springs);
    assert(((n + 1) - 1) as usize == m);
    lemma_renamed_all_unattached(springs, m, m);
    assert(springs_after_mass_removal(springs, m, n + 1) == renamed_all(
        swap_removed_from_back(springs, attached_indices(springs, m)),
        m,
        m,
    ));
}

} // verus!

verus! {

/// After mass `m` of `n` is removed, every spring left comes from a spring
/// with no end on `m`: its ends on the former last mass `n - 1` are on `m`,
/// every other end and its payload are as they were. And every spring with
/// no end on `m` is left, as often as it was there.
pub proof fn law_mass_removal_moves_only_last_mass_ends<S>(
    springs: Seq<SpringView<S>>,
    m: usize,
    n: nat,
)
    requires
        springs.len() <= usize::MAX,
        1 <= n <= usize::MAX + 1,
    ensures
        forall|k: int|
            0 <= k < springs_after_mass_removal(springs, m, n).len() ==> exists|j: int|
                0 <= j < springs.len() && springs[j].m_a != m && springs[j].m_b != m
                    && #[trigger] springs_after_mass_removal(springs, m, n)[k].m_a == (if springs[j].m_a
                    == n - 1 {
                    m
                } else {
                    springs[j].m_a
                }) && springs_after_mass_removal(springs, m, n)[k].m_b == (if springs[j].m_b == n
                    - 1 {
                    m
                } else {
                    springs[j].m_b
                }) && springs_after_mass_removal(springs, m, n)[k].props == springs[j].props,
        springs_after_mass_removal(springs, m, n).to_multiset() == springs.filter(
            |s: SpringView<S>| s.m_a != m && s.m_b != m,
        ).map_values(
            |s: SpringView<S>|
                (SpringView {
                    m_a: if s.m_a == n - 1 {
                        m
                    } else {
                        s.m_a
                    },
                    m_b: if s.m_b == n - 1 {
                        m
                    } else {
                        s.m_b
                    },
                    props: s.props,
                }),
        ).to_multiset(),
{
    let idx = attached_indices(springs, m);
    lemma_attached_indices(springs, m);
    let p = |x: SpringView<S>|
        exists|j: int| 0 <= j < springs.len() && springs[j] == x && springs[j].m_a != m && springs[j].m_b != m;
    assert forall|j: int| 0 <= j < springs.len() && unlisted(idx, j) implies p(#[trigger] springs[j]) by {
        if springs[j].attached_to(m) {
            assert(!unlisted(idx, j));
        }
    }
    lemma_swap_removed_from_back_keeps(springs, idx, p);
    let kept = swap_removed_from_back(springs, idx);
    let r = springs_after_mass_removal(springs, m, n);
    assert forall|k: int| 0 <= k < r.len() implies exists|j: int|
        0 <= j < springs.len() && springs[j].m_a != m && springs[j].m_b != m
            && #[trigger] r[k].m_a == (if springs[j].m_a == n - 1 {
            m
        } else {
            springs[j].m_a
        }) && r[k].m_b == (if springs[j].m_b == n - 1 {
            m
        } else {
            springs[j].m_b
        }) && r[k].props == springs[j].props by {
        assert(p(kept[k]));
        let j = choose|j: int| 0 <= j < springs.len() && springs[j] == kept[k] && springs[j].m_a != m && springs[j].m_b != m;
        assert(r[k] == kept[k].renamed((n - 1) as usize, m));
    }
    law_mass_removal_keeps_exactly_unattached_springs(springs, m, n);
    let f1 = |s: SpringView<S>| s.m_a != m && s.m_b != m;
    let f2 = |s: SpringView<S>|
        (SpringView {
            m_a: if s.m_a == n - 1 {
                m
            } else {
                s.m_a
            },
            m_b: if s.m_b == n - 1 {
                m
            } else {
                s.m_b
            },
            props: s.props,
        });
    assert(unattached::<S>(m) =~= f1);
    assert(renaming::<S>((n - 1) as usize, m) =~= f2);
}

} // verus!

verus! {

proof fn lemma_swap_removed_from_back_in_place<T>(s: Seq<T>, idx: Seq<usize>)
    requires
        increasing_below(idx, s.len()),
    ensures
        forall|q: int|
            0 <= q < s.len() - idx.len() && unlisted(idx, q) ==> #[trigger] swap_removed_from_back(
                s,
                idx,
            )[q] == s[q],
    decreases idx.len(),
{
    if idx.len() > 0 {
        let top = idx.last();
        let t = swap_removed(s, top as int);
        let d = idx.drop_last();
        assert(increasing_below(d, t.len())) by {
            assert forall|i: int| 0 <= i < d.len() implies #[trigger] d[i] < t.len() by {
                assert(idx[i] < idx[idx.len() - 1]);
            }
        }
        lemma_swap_removed_from_back_in_place(t, d);
        assert(swap_removed_from_back(s, idx) == swap_removed_from_back(t, d));
        assert forall|q: int|
            0 <= q < s.len() - idx.len() && unlisted(idx, q) implies #[trigger] swap_removed_from_back(
            s,
            idx,
        )[q] == s[q] by {
            assert(idx[idx.len() - 1] as int != q);
            assert(t[q] == s[q]);
            assert forall|i: int| 0 <= i < d.len() implies #[trigger] d[i] as int != q by {
                assert(d[i] == idx[i]);
            }
        }
    }
}

/// When mass `m` is removed, a spring with no end on `m` whose position is
/// below the new number of springs keeps its position, with its ends on the
/// former last mass `n - 1` moved to `m`.
pub proof fn law_mass_removal_keeps_positions<S>(springs: Seq<SpringView<S>>, m: usize, n: nat)
    requires
        springs.len() <= usize::MAX,
        1 <= n <= usize::MAX + 1,
    ensures
        forall|q: int|
            0 <= q < springs_after_mass_removal(springs, m, n).len() && springs[q].m_a != m
                && springs[q].m_b != m ==> #[trigger] springs_after_mass_removal(springs, m, n)[q]
                == (SpringView {
                m_a: if springs[q].m_a == n - 1 {
                    m
                } else {
                    springs[q].m_a
                },
                m_b: if springs[q].m_b == n - 1 {
                    m
                } else {
                    springs[q].m_b
                },
                props: springs[q].props,
            }),
{
    let idx = attached_indices(springs, m);
    lemma_attached_indices(springs, m);
    lemma_swap_removed_from_back_in_place(springs, idx);
    lemma_swap_removed_from_back_keeps(springs, idx, |x: SpringView<S>| true);
    let r = springs_after_mass_removal(springs, m, n);
    let kept = swap_removed_from_back(springs, idx);
    assert forall|q: int|
        0 <= q < r.len() && springs[q].m_a != m && springs[q].m_b != m implies #[trigger] r[q]
        == (SpringView {
        m_a: if springs[q].m_a == n - 1 {
            m
        } else {
            springs[q].m_a
        },
        m_b: if springs[q].m_b == n - 1 {
            m
        } else {
            springs[q].m_b
        },
        props: springs[q].props,
    }) by {
        assert forall|i: int| 0 <= i < idx.len() implies #[trigger] idx[i] as int != q by {
            assert(springs[idx[i] as int].attached_to(m));
        }
        assert(unlisted(idx, q));
        assert(kept[q] == springs[q]);
        assert(r[q] == kept[q].renamed((n - 1) as usize, m));
    }
}

} // verus!
