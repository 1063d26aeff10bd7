use vstd::prelude::*;

verus! {

/// A value that may carry a preferred alternative, another one, or neither.
/// Callers pick whichever side is populated, preferring the first.
pub struct Either<T, R> {
    preferred: Option<T>,
    other: Option<R>,
}

impl<T, R> Either<T, R> {
    /// Build from the two optional sides.
    pub fn new(preferred: Option<T>, other: Option<R>) -> (r: Self)
        ensures
            r.preferred_spec() == preferred,
            r.other_spec() == other,
    {
        Either { preferred, other }
    }

    /// The preferred side, as a spec value.
    pub closed spec fn preferred_spec(&self) -> Option<T> {
        self.preferred
    }

    /// The other side, as a spec value.
    pub closed spec fn other_spec(&self) -> Option<R> {
        self.other
    }

    /// Take the preferred side.
    pub fn preferred(self) -> (r: Option<T>)
        ensures
            r == self.preferred_spec(),
    {
        self.preferred
    }

    /// Take the other side.
    pub fn other(self) -> (r: Option<R>)
        ensures
            r == self.other_spec(),
    {
        self.other
    }

    /// Call `pfn` on the preferred side when it is populated, else `ofn` on
    /// the other side, else `none`.
    pub fn pick<PF: FnOnce(&T), OF: FnOnce(&R), NF: FnOnce()>(&self, pfn: PF, ofn: OF, none: NF)
        requires
            self.preferred_spec() matches Some(t) ==> pfn.requires((&t,)),
            self.preferred_spec() is None ==> (self.other_spec() matches Some(o) ==> ofn.requires(
                (&o,),
            )),
            self.preferred_spec() is None && self.other_spec() is None ==> none.requires(()),
    {
        if let Some(preferred) = &self.preferred {
            pfn(preferred)
        } else if let Some(other) = &self.other {
            ofn(other)
        } else {
            none()
        }
    }
}

} // verus!
