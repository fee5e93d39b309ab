use vstd::prelude::*;

verus! {

/// `s` with `x` appended, unless `s` already holds `x`.
pub open spec fn with_unique(s: Seq<usize>, x: usize) -> Seq<usize> {
    if s.contains(x) {
        s
    } else {
        s.push(x)
    }
}

/// What a collision layer holds: the indices of its masses and of its springs,
/// in the order they joined it.
pub struct LayerView {
    pub masses: Seq<usize>,
    pub springs: Seq<usize>,
}

impl LayerView {
    /// No index occurs twice in a layer.
    pub open spec fn wf(self) -> bool {
        self.masses.no_duplicates() && self.springs.no_duplicates()
    }
}

/// A collision layer: model objects collide with each other when they are on
/// the same layer.
pub struct CollisionLayer {
    masses: Vec<usize>,
    springs: Vec<usize>,
}

impl View for CollisionLayer {
    type V = LayerView;

    closed spec fn view(&self) -> LayerView {
        LayerView { masses: self.masses@, springs: self.springs@ }
    }
}

/// Whether `v` holds `x`.
pub(crate) fn holds_index(v: &Vec<usize>, x: usize) -> (r: bool)
    ensures
        r == v@.contains(x),
{
    let mut i: usize = 0;
    while i < v.len()
        invariant
            i <= v.len(),
            forall|j: int| 0 <= j < i ==> v@[j] != x,
        decreases v.len() - i,
    {
        if v[i] == x {
            return true;
        }
        i = i + 1;
    }
    false
}

/// Appending an index that is not there yet keeps a sequence free of duplicates.
pub proof fn lemma_with_unique_no_duplicates(s: Seq<usize>, x: usize)
    requires
        s.no_duplicates(),
    ensures
        with_unique(s, x).no_duplicates(),
        with_unique(s, x).contains(x),
        forall|y: usize| s.contains(y) ==> with_unique(s, x).contains(y),
{
    if !s.contains(x) {
        let t = s.push(x);
        assert(t[t.len() - 1] == x);
        assert forall|y: usize| s.contains(y) implies t.contains(y) by {
            let k = choose|k: int| 0 <= k < s.len() && s[k] == y;
            assert(t[k] == y);
        }
    } else {
    }
}

/// Adding an index to a layer twice is the same as adding it once.
pub proof fn law_push_twice_is_push_once(s: Seq<usize>, x: usize)
    ensures
        with_unique(with_unique(s, x), x) == with_unique(s, x),
{
    if !s.contains(x) {
        let t = s.push(x);
        assert(t[t.len() - 1] == x);
        assert(t.contains(x));
    }
}

/// Adding `x` keeps what was listed, in place, lists `x`, and lists nothing
/// else: the result is at most one element longer, and each index it lists
/// is `x` or was listed before.
pub proof fn law_adding_an_index(s: Seq<usize>, x: usize)
    ensures
        s.len() <= with_unique(s, x).len() <= s.len() + 1,
        with_unique(s, x).subrange(0, s.len() as int) == s,
        with_unique(s, x).contains(x),
        forall|y: usize| #[trigger] with_unique(s, x).contains(y) ==> y == x || s.contains(y),
        s.contains(x) ==> with_unique(s, x).len() == s.len(),
{
    let t = with_unique(s, x);
    assert(t.subrange(0, s.len() as int) =~= s);
    if !s.contains(x) {
        assert(t[t.len() - 1] == x);
    }
    assert forall|y: usize| #[trigger] t.contains(y) implies y == x || s.contains(y) by {
        let k = choose|k: int| 0 <= k < t.len() && t[k] == y;
        if k < s.len() {
            assert(s[k] == y);
        }
    }
}

impl CollisionLayer {
    /// An empty layer.
    pub fn new() -> (l: Self)
        ensures
            l@.masses == Seq::<usize>::empty(),
            l@.springs == Seq::<usize>::empty(),
            l@.wf(),
    {
        CollisionLayer { masses: Vec::new(), springs: Vec::new() }
    }

    /// Adds a mass's index to the layer, unless it is there already.
    pub fn push_mass(&mut self, idx: usize)
        ensures
            final(self)@.masses == with_unique(old(self)@.masses, idx),
            final(self)@.springs == old(self)@.springs,
            old(self)@.wf() ==> final(self)@.wf(),
            old(self)@.masses.len() <= final(self)@.masses.len() <= old(self)@.masses.len() + 1,
            final(self)@.masses.subrange(0, old(self)@.masses.len() as int) == old(self)@.masses,
            final(self)@.masses.contains(idx),
            forall|y: usize|
                #[trigger] final(self)@.masses.contains(y) ==> y == idx || old(self)@.masses.contains(y),
            old(self)@.masses.contains(idx) ==> final(self)@.masses == old(self)@.masses,
    {
        proof {
            law_adding_an_index(old(self)@.masses, idx);
        }
        proof {
            if old(self)@.wf() {
                lemma_with_unique_no_duplicates(old(self)@.masses, idx);
            }
        }
        if !holds_index(&self.masses, idx) {
            self.masses.push(idx);
        }
    }

    /// Adds a spring's index to the layer, unless it is there already.
    pub fn push_spring(&mut self, idx: usize)
        ensures
            final(self)@.springs == with_unique(old(self)@.springs, idx),
            final(self)@.masses == old(self)@.masses,
            old(self)@.wf() ==> final(self)@.wf(),
            old(self)@.springs.len() <= final(self)@.springs.len() <= old(self)@.springs.len() + 1,
            final(self)@.springs.subrange(0, old(self)@.springs.len() as int) == old(self)@.springs,
            final(self)@.springs.contains(idx),
            forall|y: usize|
                #[trigger] final(self)@.springs.contains(y) ==> y == idx || old(self)@.springs.contains(y),
            old(self)@.springs.contains(idx) ==> final(self)@.springs == old(self)@.springs,
    {
        proof {
            law_adding_an_index(old(self)@.springs, idx);
        }
        proof {
            if old(self)@.wf() {
                lemma_with_unique_no_duplicates(old(self)@.springs, idx);
            }
        }
        if !holds_index(&self.springs, idx) {
            self.springs.push(idx);
        }
    }

    /// The indices of the masses on the layer.
    pub fn masses(&self) -> (r: &Vec<usize>)
        ensures
            r@ == self@.masses,
    {
        &self.masses
    }

    /// The indices of the springs on the layer.
    pub fn springs(&self) -> (r: &Vec<usize>)
        ensures
            r@ == self@.springs,
    {
        &self.springs
    }
}

} // verus!
