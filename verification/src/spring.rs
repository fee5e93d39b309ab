use vstd::prelude::*;

verus! {

/// What a spring is, seen from outside: the two masses it connects and its payload.
pub struct SpringView<P> {
    pub m_a: usize,
    pub m_b: usize,
    pub props: P,
}

impl<P> SpringView<P> {
    /// The spring is attached to mass `m` at one of its ends.
    pub open spec fn attached_to(self, m: usize) -> bool {
        self.m_a == m || self.m_b == m
    }

    /// The spring after every end attached to mass `from` is moved to mass `to`.
    pub open spec fn renamed(self, from: usize, to: usize) -> SpringView<P> {
        SpringView {
            m_a: if self.m_a == from { to } else { self.m_a },
            m_b: if self.m_b == from { to } else { self.m_b },
            props: self.props,
        }
    }
}

/// A spring connecting two masses of a model by their indices; `P` holds its
/// physical properties (rest length, stiffness, dampening, ...).
#[derive(Clone, Copy)]
pub struct Spring<P> {
    m_a: usize,
    m_b: usize,
    pub props: P,
}

impl<P> View for Spring<P> {
    type V = SpringView<P>;

    closed spec fn view(&self) -> SpringView<P> {
        SpringView { m_a: self.m_a, m_b: self.m_b, props: self.props }
    }
}

impl<P> Spring<P> {
    /// Creates a new spring that connects masses `m_a` and `m_b` of a model.
    pub fn new(m_a: usize, m_b: usize, props: P) -> (s: Self)
        ensures
            s@ == (SpringView { m_a, m_b, props }),
    {
        Spring { m_a, m_b, props }
    }

    /// Index of mass a.
    pub fn get_ma(&self) -> (r: usize)
        ensures
            r == self@.m_a,
    {
        self.m_a
    }

    /// Index of mass b.
    pub fn get_mb(&self) -> (r: usize)
        ensures
            r == self@.m_b,
    {
        self.m_b
    }

    /// The physical properties of the spring.
    pub fn get_props(&self) -> (r: &P)
        ensures
            *r == self@.props,
    {
        &self.props
    }

    /// Changes the index of mass a.
    pub(crate) fn set_ma(&mut self, m_a: usize)
        ensures
            final(self)@ == (SpringView { m_a, ..old(self)@ }),
    {
        self.m_a = m_a;
    }

    /// Changes the index of mass b.
    pub(crate) fn set_mb(&mut self, m_b: usize)
        ensures
            final(self)@ == (SpringView { m_b, ..old(self)@ }),
    {
        self.m_b = m_b;
    }

    /// Replaces the physical properties of the spring.
    pub fn set_props(&mut self, props: P)
        ensures
            final(self)@ == (SpringView { props, ..old(self)@ }),
    {
        self.props = props;
    }
}

} // verus!
