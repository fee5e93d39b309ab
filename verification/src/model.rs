use vstd::prelude::*;
use vstd::string::StringExecFns;
use crate::spring::{Spring, SpringView};
use crate::layer::{CollisionLayer, LayerView, with_unique};

verus! {

/// Why a spring was refused by a model.
#[derive(Debug, Clone, PartialEq, Eq)]
pub enum PhyzzyModelError {
    /// The spring would connect a mass to itself.
    SelfConnection(usize),
    /// An end of the spring names a mass the model does not have.
    OutOfBounds { spring_ma: usize, spring_mb: usize, n_masses: usize },
}

/// The decimal digit `d` as a character.
pub open spec fn digit_char(d: nat) -> char {
    (48 + d) as char
}

/// The decimal notation of `n`, without leading zeros.
pub open spec fn decimal(n: nat) -> Seq<char>
    decreases n,
{
    if n < 10 {
        seq![digit_char(n)]
    } else {
        decimal(n / 10).push(digit_char(n % 10))
    }
}

/// The message that describes an error.
pub open spec fn error_text(e: PhyzzyModelError) -> Seq<char> {
    match e {
        PhyzzyModelError::SelfConnection(idx) => "Spring cannot connect mass "@ + decimal(idx as nat)
            + " to itself"@,
        PhyzzyModelError::OutOfBounds { spring_ma, spring_mb, n_masses } => "Spring indices ("@
            + decimal(spring_ma as nat) + ", "@ + decimal(spring_mb as nat)
            + ") out of bounds (n_masses = "@ + decimal(n_masses as nat) + ")"@,
    }
}

/// The decimal digit `d` as a one-character string.
fn digit_str(d: usize) -> (r: &'static str)
    requires
        d < 10,
    ensures
        r@ == seq![digit_char(d as nat)],
{
    proof {
        reveal_strlit("0");
        reveal_strlit("1");
        reveal_strlit("2");
        reveal_strlit("3");
        reveal_strlit("4");
        reveal_strlit("5");
        reveal_strlit("6");
        reveal_strlit("7");
        reveal_strlit("8");
        reveal_strlit("9");
    }
    if d == 0 {
        "0"
    } else if d == 1 {
        "1"
    } else if d == 2 {
        "2"
    } else if d == 3 {
        "3"
    } else if d == 4 {
        "4"
    } else if d == 5 {
        "5"
    } else if d == 6 {
        "6"
    } else if d == 7 {
        "7"
    } else if d == 8 {
        "8"
    } else {
        "9"
    }
}

/// Appends the decimal notation of `n` to `s`.
fn append_decimal(s: &mut String, n: usize)
    ensures
        final(s)@ == old(s)@ + decimal(n as nat),
    decreases n,
{
    if n < 10 {
        s.append(digit_str(n));
    } else {
        append_decimal(s, n / 10);
        s.append(digit_str(n % 10));
        assert(decimal(n as nat) == decimal((n / 10) as nat).push(digit_char((n % 10) as nat)));
        assert(old(s)@ + decimal(n as nat) =~= old(s)@ + decimal((n / 10) as nat) + seq![
            digit_char((n % 10) as nat),
        ]);
    }
}

impl PhyzzyModelError {
    /// The message that describes the error.
    pub fn message(&self) -> (r: String)
        ensures
            r@ == error_text(*self),
    {
        match self {
            PhyzzyModelError::SelfConnection(idx) => {
                let mut s = String::from_str("Spring cannot connect mass ");
                append_decimal(&mut s, *idx);
                s.append(" to itself");
                s
            },
            PhyzzyModelError::OutOfBounds { spring_ma, spring_mb, n_masses } => {
                let mut s = String::from_str("Spring indices (");
                append_decimal(&mut s, *spring_ma);
                s.append(", ");
                append_decimal(&mut s, *spring_mb);
                s.append(") out of bounds (n_masses = ");
                append_decimal(&mut s, *n_masses);
                s.append(")");
                s
            },
        }
    }
}

/// What a model is, seen from outside.
pub struct ModelView<M, S> {
    pub masses: Seq<M>,
    pub springs: Seq<SpringView<S>>,
    pub layers: Seq<LayerView>,
    pub ignore_g: bool,
    pub wave_reversed: bool,
}

/// Every spring of `springs` connects two distinct masses below `n`.
pub open spec fn springs_connect_masses<S>(springs: Seq<SpringView<S>>, n: nat) -> bool {
    forall|i: int|
        0 <= i < springs.len() ==> {
            &&& #[trigger] springs[i].m_a < n
            &&& springs[i].m_b < n
            &&& springs[i].m_a != springs[i].m_b
        }
}

impl<M, S> ModelView<M, S> {
    /// The invariant of a model: there are no more springs than a `usize`
    /// counts, springs join distinct existing masses, and no collision layer
    /// holds an index twice.
    pub open spec fn wf(self) -> bool {
        &&& self.springs.len() <= usize::MAX
        &&& springs_connect_masses(self.springs, self.masses.len())
        &&& forall|l: int| 0 <= l < self.layers.len() ==> #[trigger] self.layers[l].wf()
    }
}

/// `s` after std's `swap_remove(i)`: the last element takes the place of the `i`-th.
pub open spec fn swap_removed<T>(s: Seq<T>, i: int) -> Seq<T> {
    s.update(i, s.last()).drop_last()
}

/// `s` after `swap_remove` of each index of `idx`, the last index first.
pub open spec fn swap_removed_from_back<T>(s: Seq<T>, idx: Seq<usize>) -> Seq<T>
    decreases idx.len(),
{
    if idx.len() == 0 {
        s
    } else {
        swap_removed_from_back(swap_removed(s, idx.last() as int), idx.drop_last())
    }
}

/// The positions, in increasing order, of the springs attached to mass `m`.
pub open spec fn attached_indices<S>(springs: Seq<SpringView<S>>, m: usize) -> Seq<usize>
    decreases springs.len(),
{
    if springs.len() == 0 {
        Seq::empty()
    } else {
        let prev = attached_indices(springs.drop_last(), m);
        if springs.last().attached_to(m) {
            prev.push((springs.len() - 1) as usize)
        } else {
            prev
        }
    }
}

/// Moving the ends on mass `from` to mass `to`, as a function on springs.
pub open spec fn renaming<S>(from: usize, to: usize) -> spec_fn(SpringView<S>) -> SpringView<S> {
    |s: SpringView<S>| s.renamed(from, to)
}

/// Whether a spring is free of mass `m`, as a function on springs.
pub open spec fn unattached<S>(m: usize) -> spec_fn(SpringView<S>) -> bool {
    |s: SpringView<S>| !s.attached_to(m)
}

/// Every spring with its ends on mass `from` moved to mass `to`.
pub open spec fn renamed_all<S>(springs: Seq<SpringView<S>>, from: usize, to: usize) -> Seq<
    SpringView<S>,
> {
    springs.map_values(renaming(from, to))
}

/// The springs left when mass `m` of `n` masses is removed: those attached to
/// it are removed, and the ends on the last mass move to position `m`.
pub open spec fn springs_after_mass_removal<S>(springs: Seq<SpringView<S>>, m: usize, n: nat) -> Seq<
    SpringView<S>,
> {
    renamed_all(
        swap_removed_from_back(springs, attached_indices(springs, m)),
        (n - 1) as usize,
        m,
    )
}

/// A sequence of indices that increases strictly and stays below `n`.
pub open spec fn increasing_below(idx: Seq<usize>, n: nat) -> bool {
    &&& forall|i: int, j: int| 0 <= i < j < idx.len() ==> idx[i] < idx[j]
    &&& forall|i: int| 0 <= i < idx.len() ==> #[trigger] idx[i] < n
}

/// The model: its masses (with payload `M`), the springs between them (with
/// payload `S`), its collision layers, and two switches.
pub struct Model<M, S> {
    masses: Vec<M>,
    springs: Vec<Spring<S>>,
    collision_layers: Vec<CollisionLayer>,
    ignore_g: bool,
    wave_reversed: bool,
}

impl<M, S> View for Model<M, S> {
    type V = ModelView<M, S>;

    closed spec fn view(&self) -> ModelView<M, S> {
        ModelView {
            masses: self.masses@,
            springs: self.springs@.map_values(|s: Spring<S>| s@),
            layers: self.collision_layers@.map_values(|l: CollisionLayer| l@),
            ignore_g: self.ignore_g,
            wave_reversed: self.wave_reversed,
        }
    }
}

pub(crate) proof fn lemma_attached_indices<S>(springs: Seq<SpringView<S>>, m: usize)
    requires
        springs.len() <= usize::MAX,
    ensures
        increasing_below(attached_indices(springs, m), springs.len()),
        attached_indices(springs, m).len() <= springs.len(),
        forall|i: int|
            0 <= i < attached_indices(springs, m).len() ==> springs[#[trigger] attached_indices(
                springs,
                m,
            )[i] as int].attached_to(m),
        forall|k: int|
            0 <= k < springs.len() && #[trigger] springs[k].attached_to(m) ==> !unlisted(
                attached_indices(springs, m),
                k,
            ),
    decreases springs.len(),
{
    if springs.len() > 0 {
        let d = springs.drop_last();
        lemma_attached_indices(d, m);
        let prev = attached_indices(d, m);
        let r = attached_indices(springs, m);
        assert forall|k: int| 0 <= k < springs.len() && #[trigger] springs[k].attached_to(m) implies !unlisted(r, k) by {
            if k < springs.len() - 1 {
                assert(d[k] == springs[k]);
                assert(d[k].attached_to(m));
                let q = choose|q: int| 0 <= q < prev.len() && #[trigger] prev[q] as int == k;
                assert(r[q] == prev[q]);
            } else {
                assert(r[r.len() - 1] as int == k);
            }
        }
        assert forall|i: int| 0 <= i < r.len() implies springs[#[trigger] r[i] as int].attached_to(
            m,
        ) by {
            if i < prev.len() {
                assert(r[i] == prev[i]);
                assert(d[prev[i] as int] == springs[prev[i] as int]);
            }
        }
    }
}

/// The positions of the springs attached to a mass increase and stay in range.
pub proof fn lemma_attached_indices_increasing<S>(springs: Seq<SpringView<S>>, m: usize)
    requires
        springs.len() <= usize::MAX,
    ensures
        increasing_below(attached_indices(springs, m), springs.len()),
{
    lemma_attached_indices(springs, m);
}

proof fn lemma_increasing_room(idx: Seq<usize>, n: nat)
    requires
        increasing_below(idx, n),
    ensures
        forall|i: int| 0 <= i < idx.len() ==> #[trigger] idx[i] + (idx.len() - i) <= n,
    decreases idx.len(),
{
    if idx.len() > 0 {
        let d = idx.drop_last();
        let top = idx.last();
        assert(increasing_below(d, top as nat)) by {
            assert forall|i: int| 0 <= i < d.len() implies #[trigger] d[i] < top as nat by {
                assert(idx[i] < idx[idx.len() - 1]);
            }
        }
        lemma_increasing_room(d, top as nat);
        assert forall|i: int| 0 <= i < idx.len() implies #[trigger] idx[i] + (idx.len() - i) <= n by {
            if i < idx.len() - 1 {
                assert(d[i] == idx[i]);
            }
        }
    }
}

/// Position `j` is not among the indices of `idx`.
pub open spec fn unlisted(idx: Seq<usize>, j: int) -> bool {
    forall|q: int| 0 <= q < idx.len() ==> #[trigger] idx[q] as int != j
}

/// A property `p` that holds of every element of `s` whose position is not
/// listed in `idx` holds of every element left by `swap_removed_from_back`.
pub(crate) proof fn lemma_swap_removed_from_back_keeps<T>(s: Seq<T>, idx: Seq<usize>, p: spec_fn(T) -> bool)
    requires
        increasing_below(idx, s.len()),
        forall|j: int| 0 <= j < s.len() && unlisted(idx, j) ==> p(#[trigger] s[j]),
    ensures
        swap_removed_from_back(s, idx).len() == s.len() - idx.len(),
        forall|k: int|
            0 <= k < swap_removed_from_back(s, idx).len() ==> p(
                #[trigger] swap_removed_from_back(s, idx)[k],
            ),
    decreases idx.len(),
{
    if idx.len() > 0 {
        let top = idx.last();
        let t = swap_removed(s, top as int);
        let d = idx.drop_last();
        assert(increasing_below(d, t.len())) by {
            assert forall|i: int| 0 <= i < d.len() implies #[trigger] d[i] < t.len() by {
                assert(idx[i] < idx[idx.len() - 1]);
            }
        }
        assert forall|j: int| 0 <= j < t.len() && unlisted(d, j) implies p(#[trigger] t[j]) by {
            if j == top {
                let last = s.len() - 1;
                assert(t[j] == s[last]);
                assert forall|q: int| 0 <= q < idx.len() implies #[trigger] idx[q] as int != last by {
                    if q < idx.len() - 1 {
                        assert(idx[q] < idx[idx.len() - 1]);
                    }
                }
            } else {
                assert(t[j] == s[j]);
                assert forall|q: int| 0 <= q < idx.len() implies #[trigger] idx[q] as int != j by {
                    if q < idx.len() - 1 {
                        assert(d[q] == idx[q]);
                    }
                }
            }
        }
        lemma_swap_removed_from_back_keeps(t, d, p);
        assert(swap_removed_from_back(s, idx) == swap_removed_from_back(t, d));
    }
}

/// The springs left by removing mass `m` still join distinct existing masses.
proof fn lemma_removal_keeps_springs_valid<S>(springs: Seq<SpringView<S>>, m: usize, n: nat)
    requires
        springs_connect_masses(springs, n),
        m < n,
        springs.len() <= usize::MAX,
    ensures
        springs_connect_masses(springs_after_mass_removal(springs, m, n), (n - 1) as nat),
{
    let idx = attached_indices(springs, m);
    lemma_attached_indices(springs, m);
    let good = |x: SpringView<S>| x.m_a < n && x.m_b < n && x.m_a != x.m_b && !x.attached_to(m);
    assert forall|j: int| 0 <= j < springs.len() && unlisted(idx, j) implies good(#[trigger] springs[j]) by {
        if springs[j].attached_to(m) {
            assert(!unlisted(idx, j));
        }
    }
    lemma_swap_removed_from_back_keeps(springs, idx, good);
    let kept = swap_removed_from_back(springs, idx);
    let r = springs_after_mass_removal(springs, m, n);
    assert forall|i: int| 0 <= i < r.len() implies {
        &&& #[trigger] r[i].m_a < (n - 1) as nat
        &&& r[i].m_b < (n - 1) as nat
        &&& r[i].m_a != r[i].m_b
    } by {
        assert(good(kept[i]));
        assert(r[i] == kept[i].renamed((n - 1) as usize, m));
    }
}

impl<M, S> Model<M, S> {
    /// The invariant of the model.
    pub open spec fn wf(&self) -> bool {
        self@.wf()
    }

    /// An empty model.
    pub fn new() -> (r: Self)
        ensures
            r@.masses == Seq::<M>::empty(),
            r@.springs == Seq::<SpringView<S>>::empty(),
            r@.layers == Seq::<LayerView>::empty(),
            !r@.ignore_g,
            !r@.wave_reversed,
            r.wf(),
    {
        let r = Model {
            masses: Vec::new(),
            springs: Vec::new(),
            collision_layers: Vec::new(),
            ignore_g: false,
            wave_reversed: false,
        };
        assert(r@.springs =~= Seq::<SpringView<S>>::empty());
        assert(r@.layers =~= Seq::<LayerView>::empty());
        r
    }

    /// Adds a mass to the model; returns the number of masses now present.
    pub fn new_mass(&mut self, mass: M) -> (n: usize)
        requires
            old(self).wf(),
        ensures
            final(self)@ == (ModelView { masses: old(self)@.masses.push(mass), ..old(self)@ }),
            n == final(self)@.masses.len(),
            final(self).wf(),
    {
        self.masses.push(mass);
        let n = self.masses.len();
        assert(self@.springs =~= old(self)@.springs);
        assert(self@.layers =~= old(self)@.layers);
        n
    }

    /// Adds a spring to the model. A spring that connects a mass to itself, or
    /// names a mass the model does not have, is refused; otherwise returns the
    /// number of springs now present.
    pub fn new_spring(&mut self, spring: Spring<S>) -> (r: Result<usize, PhyzzyModelError>)
        requires
            old(self).wf(),
        ensures
            final(self).wf(),
            spring@.m_a == spring@.m_b ==> r == Err::<usize, PhyzzyModelError>(
                PhyzzyModelError::SelfConnection(spring@.m_a),
            ),
            spring@.m_a != spring@.m_b && (spring@.m_a >= old(self)@.masses.len()
                || spring@.m_b >= old(self)@.masses.len()) ==> r == Err::<usize, PhyzzyModelError>(
                PhyzzyModelError::OutOfBounds {
                    spring_ma: spring@.m_a,
                    spring_mb: spring@.m_b,
                    n_masses: old(self)@.masses.len() as usize,
                },
            ),
            r is Err ==> final(self)@ == old(self)@,
            r is Ok <==> (spring@.m_a != spring@.m_b && spring@.m_a < old(self)@.masses.len()
                && spring@.m_b < old(self)@.masses.len()),
            r is Ok ==> final(self)@ == (ModelView {
                springs: old(self)@.springs.push(spring@),
                ..old(self)@
            }) && r == Ok::<usize, PhyzzyModelError>(final(self)@.springs.len() as usize),
    {
        let a = spring.get_ma();
        let b = spring.get_mb();
        let len = self.masses.len();
        if a == b {
            return Err(PhyzzyModelError::SelfConnection(a));
        }
        if a >= len || b >= len {
            return Err(PhyzzyModelError::OutOfBounds { spring_ma: a, spring_mb: b, n_masses: len });
        }
        self.springs.push(spring);
        let n = self.springs.len();
        assert(self@.springs =~= old(self)@.springs.push(spring@));
        assert(self@.layers =~= old(self)@.layers);
        Ok(n)
    }

    /// Removes mass `i_m` from the model: the last mass takes its place, the
    /// springs attached to it are deleted, and the springs on the last mass are
    /// renumbered to `i_m`. An index past the end changes nothing.
    pub fn del_mass(&mut self, i_m: usize)
        requires
            old(self).wf(),
        ensures
            final(self).wf(),
            i_m >= old(self)@.masses.len() ==> final(self)@ == old(self)@,
            i_m < old(self)@.masses.len() ==> final(self)@ == (ModelView {
                masses: swap_removed(old(self)@.masses, i_m as int),
                springs: springs_after_mass_removal(
                    old(self)@.springs,
                    i_m,
                    old(self)@.masses.len(),
                ),
                ..old(self)@
            }),
            i_m < old(self)@.masses.len() ==> forall|k: int|
                0 <= k < final(self)@.springs.len() ==> exists|j: int|
                    0 <= j < old(self)@.springs.len() && old(self)@.springs[j].m_a != i_m
                        && old(self)@.springs[j].m_b != i_m && #[trigger] final(self)@.springs[k].m_a
                        == (if old(self)@.springs[j].m_a == old(self)@.masses.len() - 1 {
                        i_m
                    } else {
                        old(self)@.springs[j].m_a
                    }) && final(self)@.springs[k].m_b == (if old(self)@.springs[j].m_b
                        == old(self)@.masses.len() - 1 {
                        i_m
                    } else {
                        old(self)@.springs[j].m_b
                    }) && final(self)@.springs[k].props == old(self)@.springs[j].props,
            i_m < old(self)@.masses.len() ==> final(self)@.masses.len() == old(self)@.masses.len() - 1,
            i_m < old(self)@.masses.len() - 1 ==> final(self)@.masses[i_m as int] == old(
                self,
            )@.masses.last(),
            forall|q: int|
                0 <= q < final(self)@.masses.len() && q != i_m ==> #[trigger] final(self)@.masses[q]
                    == old(self)@.masses[q],
            i_m < old(self)@.masses.len() ==> forall|q: int|
                0 <= q < final(self)@.springs.len() && old(self)@.springs[q].m_a != i_m && old(
                    self,
                )@.springs[q].m_b != i_m ==> #[trigger] final(self)@.springs[q] == (SpringView {
                    m_a: if old(self)@.springs[q].m_a == old(self)@.masses.len() - 1 {
                        i_m
                    } else {
                        old(self)@.springs[q].m_a
                    },
                    m_b: if old(self)@.springs[q].m_b == old(self)@.masses.len() - 1 {
                        i_m
                    } else {
                        old(self)@.springs[q].m_b
                    },
                    props: old(self)@.springs[q].props,
                }),
            i_m < old(self)@.masses.len() ==> final(self)@.springs.to_multiset() == old(
                self,
            )@.springs.filter(|s: SpringView<S>| s.m_a != i_m && s.m_b != i_m).map_values(
                |s: SpringView<S>|
                    (SpringView {
                        m_a: if s.m_a == old(self)@.masses.len() - 1 {
                            i_m
                        } else {
                            s.m_a
                        },
                        m_b: if s.m_b == old(self)@.masses.len() - 1 {
                            i_m
                        } else {
                            s.m_b
                        },
                        props: s.props,
                    }),
            ).to_multiset(),
    {
        if i_m >= self.masses.len() {
            return;
        }
        proof {
            crate::laws::law_mass_removal_moves_only_last_mass_ends(
                old(self)@.springs,
                i_m,
                old(self)@.masses.len(),
            );
            crate::laws::law_mass_removal_keeps_positions(
                old(self)@.springs,
                i_m,
                old(self)@.masses.len(),
            );
        }
        let ghost old_springs = self@.springs;
        let ghost n = self@.masses.len();
        let tail_idx = self.masses.len() - 1;
        self.masses.swap_remove(i_m);
        let ghost masses_after = self.masses@;
        assert(masses_after =~= swap_removed(old(self)@.masses, i_m as int));

        // Collect the springs attached to the removed mass.
        let mut to_del: Vec<usize> = Vec::new();
        let mut idx: usize = 0;
        while idx < self.springs.len()
            invariant
                idx <= self.springs.len(),
                self.springs@ == old(self).springs@,
                self@.springs == old_springs,
                to_del@ == attached_indices(old_springs.take(idx as int), i_m),
            decreases self.springs.len() - idx,
        {
            let ghost pre = old_springs.take(idx as int);
            assert(old_springs.take(idx + 1).drop_last() =~= pre);
            assert(self.springs@[idx as int]@ == old_springs[idx as int]);
            if self.springs[idx].get_ma() == i_m || self.springs[idx].get_mb() == i_m {
                to_del.push(idx);
            }
            idx = idx + 1;
        }
        assert(old_springs.take(old_springs.len() as int) =~= old_springs);
        let ghost all_del = to_del@;
        proof {
            lemma_attached_indices(old_springs, i_m);
            lemma_increasing_room(all_del, old_springs.len());
        }

        // Delete them, the highest position first.
        let mut j: usize = to_del.len();
        assert(all_del.take(all_del.len() as int) =~= all_del);
        while j > 0
            invariant
                self.masses@ == masses_after,
                self.collision_layers@ == old(self).collision_layers@,
                self.ignore_g == old(self).ignore_g,
                self.wave_reversed == old(self).wave_reversed,
                j <= to_del.len(),
                to_del@ == all_del,
                increasing_below(all_del, old_springs.len()),
                forall|i: int| 0 <= i < all_del.len() ==> #[trigger] all_del[i] + (all_del.len() - i) <= old_springs.len(),
                self@.springs.len() == old_springs.len() - (all_del.len() - j),
                swap_removed_from_back(self@.springs, all_del.take(j as int)) == swap_removed_from_back(old_springs, all_del),
            decreases j,
        {
            j = j - 1;
            let rem = to_del[j];
            let ghost before = self@.springs;
            assert(all_del.take(j + 1).last() == rem);
            assert(all_del.take(j + 1).drop_last() =~= all_del.take(j as int));
            self.springs.swap_remove(rem);
            assert(self@.springs =~= swap_removed(before, rem as int));
            assert(swap_removed_from_back(before, all_del.take(j + 1)) == swap_removed_from_back(
                swap_removed(before, rem as int),
                all_del.take(j as int),
            ));
        }
        assert(all_del.take(0) =~= Seq::<usize>::empty());
        let ghost kept = self@.springs;
        assert(kept == swap_removed_from_back(old_springs, all_del));
        assert forall|i: int| 0 <= i < kept.len() implies #[trigger] self.springs@[i]@ == kept[i] by {}

        // Renumber the springs on the former last mass.
        let mut k: usize = 0;
        while k < self.springs.len()
            invariant
                self.masses@ == masses_after,
                self.collision_layers@ == old(self).collision_layers@,
                self.ignore_g == old(self).ignore_g,
                self.wave_reversed == old(self).wave_reversed,
                k <= self.springs.len(),
                self.springs@.len() == kept.len(),
                forall|i: int| 0 <= i < k ==> #[trigger] self.springs@[i]@ == kept[i].renamed(tail_idx, i_m),
                forall|i: int| k <= i < kept.len() ==> #[trigger] self.springs@[i]@ == kept[i],
            decreases self.springs.len() - k,
        {
            let ghost before = self.springs@;
            assert(before[k as int]@ == kept[k as int]);
            if self.springs[k].get_ma() == tail_idx {
                self.springs[k].set_ma(i_m);
            }
            if self.springs[k].get_mb() == tail_idx {
                self.springs[k].set_mb(i_m);
            }
            assert(self.springs@[k as int]@ == kept[k as int].renamed(tail_idx, i_m));
            assert forall|i: int| 0 <= i < self.springs@.len() && i != k implies #[trigger] self.springs@[i] == before[i] by {}
            k = k + 1;
        }
        assert(self@.springs =~= springs_after_mass_removal(old_springs, i_m, n));
        assert(self@.layers =~= old(self)@.layers);
        assert(self@.masses =~= swap_removed(old(self)@.masses, i_m as int));
        proof {
            lemma_removal_keeps_springs_valid(old_springs, i_m, n);
        }
    }

    /// Removes spring `i_s`; the last spring takes its place. An index past the
    /// end changes nothing.
    pub fn del_spring(&mut self, i_s: usize)
        requires
            old(self).wf(),
        ensures
            final(self).wf(),
            i_s >= old(self)@.springs.len() ==> final(self)@ == old(self)@,
            i_s < old(self)@.springs.len() ==> final(self)@ == (ModelView {
                springs: swap_removed(old(self)@.springs, i_s as int),
                ..old(self)@
            }),
            i_s < old(self)@.springs.len() ==> final(self)@.springs.len() == old(self)@.springs.len()
                - 1,
            i_s < old(self)@.springs.len() - 1 ==> final(self)@.springs[i_s as int] == old(
                self,
            )@.springs.last(),
            forall|q: int|
                0 <= q < final(self)@.springs.len() && q != i_s ==> #[trigger] final(self)@.springs[q]
                    == old(self)@.springs[q],
    {
        if i_s < self.springs.len() {
            let ghost before = self@.springs;
            self.springs.swap_remove(i_s);
            assert(self@.springs =~= swap_removed(before, i_s as int));
            assert(self@.layers =~= old(self)@.layers);
            assert(springs_connect_masses(before, self@.masses.len()));
            assert forall|i: int| 0 <= i < self@.springs.len() implies {
                &&& #[trigger] self@.springs[i].m_a < self@.masses.len()
                &&& self@.springs[i].m_b < self@.masses.len()
                &&& self@.springs[i].m_a != self@.springs[i].m_b
            } by {
                if i == i_s {
                    assert(self@.springs[i] == before[before.len() - 1]);
                    assert(before[before.len() - 1].m_a < self@.masses.len());
                } else {
                    assert(self@.springs[i] == before[i]);
                    assert(before[i].m_a < self@.masses.len());
                }
            }
        }
    }

    /// Creates a new, empty collision layer.
    pub fn new_collision_layer(&mut self)
        requires
            old(self).wf(),
        ensures
            final(self).wf(),
            final(self)@ == (ModelView {
                layers: old(self)@.layers.push(LayerView { masses: Seq::empty(), springs: Seq::empty() }),
                ..old(self)@
            }),
    {
        let l = CollisionLayer::new();
        self.collision_layers.push(l);
        assert(self@.layers =~= old(self)@.layers.push(LayerView { masses: Seq::empty(), springs: Seq::empty() }));
        assert(self@.springs =~= old(self)@.springs);
    }

    /// Adds mass index `idx` to collision layer `layer`, unless it is there already.
    pub fn mass_to_collision_layer(&mut self, layer: usize, idx: usize)
        requires
            old(self).wf(),
            layer < old(self)@.layers.len(),
        ensures
            final(self).wf(),
            final(self)@ == (ModelView {
                layers: old(self)@.layers.update(
                    layer as int,
                    LayerView {
                        masses: with_unique(old(self)@.layers[layer as int].masses, idx),
                        ..old(self)@.layers[layer as int]
                    },
                ),
                ..old(self)@
            }),
    {
        let ghost before = self.collision_layers@;
        assert(before[layer as int]@.wf());
        self.collision_layers[layer].push_mass(idx);
        assert(self@.layers =~= old(self)@.layers.update(
            layer as int,
            LayerView {
                masses: with_unique(old(self)@.layers[layer as int].masses, idx),
                ..old(self)@.layers[layer as int]
            },
        ));
        assert(self@.springs =~= old(self)@.springs);
    }

    /// Adds spring index `idx` to collision layer `layer`, unless it is there already.
    pub fn spring_to_collision_layer(&mut self, layer: usize, idx: usize)
        requires
            old(self).wf(),
            layer < old(self)@.layers.len(),
        ensures
            final(self).wf(),
            final(self)@ == (ModelView {
                layers: old(self)@.layers.update(
                    layer as int,
                    LayerView {
                        springs: with_unique(old(self)@.layers[layer as int].springs, idx),
                        ..old(self)@.layers[layer as int]
                    },
                ),
                ..old(self)@
            }),
    {
        let ghost before = self.collision_layers@;
        assert(before[layer as int]@.wf());
        self.collision_layers[layer].push_spring(idx);
        assert(self@.layers =~= old(self)@.layers.update(
            layer as int,
            LayerView {
                springs: with_unique(old(self)@.layers[layer as int].springs, idx),
                ..old(self)@.layers[layer as int]
            },
        ));
        assert(self@.springs =~= old(self)@.springs);
    }

    /// Switches between ignoring gravity and applying it.
    pub fn toggle_g(&mut self)
        requires
            old(self).wf(),
        ensures
            final(self).wf(),
            final(self)@ == (ModelView { ignore_g: !old(self)@.ignore_g, ..old(self)@ }),
    {
        self.ignore_g = !self.ignore_g;
        assert(self@.springs =~= old(self)@.springs);
        assert(self@.layers =~= old(self)@.layers);
    }

    /// Reverses the direction in which the actuation wave moves.
    pub fn toggle_wave_dir(&mut self)
        requires
            old(self).wf(),
        ensures
            final(self).wf(),
            final(self)@ == (ModelView { wave_reversed: !old(self)@.wave_reversed, ..old(self)@ }),
    {
        self.wave_reversed = !self.wave_reversed;
        assert(self@.springs =~= old(self)@.springs);
        assert(self@.layers =~= old(self)@.layers);
    }

    /// Whether gravity is ignored.
    pub fn ignores_gravity(&self) -> (r: bool)
        ensures
            r == self@.ignore_g,
    {
        self.ignore_g
    }

    /// Whether the actuation wave moves backwards.
    pub fn wave_reversed(&self) -> (r: bool)
        ensures
            r == self@.wave_reversed,
    {
        self.wave_reversed
    }

    /// The masses of the model.
    pub fn get_masses(&self) -> (r: &[M])
        ensures
            r@ == self@.masses,
    {
        self.masses.as_slice()
    }

    /// The springs of the model.
    pub fn get_springs(&self) -> (r: &[Spring<S>])
        ensures
            r@.map_values(|s: Spring<S>| s@) == self@.springs,
    {
        self.springs.as_slice()
    }

    /// The collision layers of the model.
    pub fn get_collision_layers(&self) -> (r: &[CollisionLayer])
        ensures
            r@.map_values(|l: CollisionLayer| l@) == self@.layers,
    {
        self.collision_layers.as_slice()
    }

    /// The mass at index `idx`.
    pub fn get_mass(&self, idx: usize) -> (r: &M)
        requires
            idx < self@.masses.len(),
        ensures
            *r == self@.masses[idx as int],
    {
        &self.masses[idx]
    }

    /// The spring at index `idx`.
    pub fn get_spring(&self, idx: usize) -> (r: &Spring<S>)
        requires
            idx < self@.springs.len(),
        ensures
            r@ == self@.springs[idx as int],
    {
        &self.springs[idx]
    }

    /// Replaces the mass at index `idx`.
    pub fn set_mass(&mut self, idx: usize, mass: M)
        requires
            old(self).wf(),
            idx < old(self)@.masses.len(),
        ensures
            final(self).wf(),
            final(self)@ == (ModelView {
                masses: old(self)@.masses.update(idx as int, mass),
                ..old(self)@
            }),
    {
        self.masses.set(idx, mass);
        assert(self@.springs =~= old(self)@.springs);
        assert(self@.layers =~= old(self)@.layers);
    }

    /// Replaces the physical properties of the spring at index `idx`; the
    /// masses it connects stay.
    pub fn set_spring_props(&mut self, idx: usize, props: S)
        requires
            old(self).wf(),
            idx < old(self)@.springs.len(),
        ensures
            final(self).wf(),
            final(self)@ == (ModelView {
                springs: old(self)@.springs.update(
                    idx as int,
                    SpringView { props, ..old(self)@.springs[idx as int] },
                ),
                ..old(self)@
            }),
    {
        self.springs[idx].set_props(props);
        assert(self@.springs =~= old(self)@.springs.update(
            idx as int,
            SpringView { props, ..old(self)@.springs[idx as int] },
        ));
        assert(self@.layers =~= old(self)@.layers);
    }
}

} // verus!
