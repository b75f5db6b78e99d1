//! Generic optimization solution: decision variables plus an optional cached
//! quality payload.
//!
//! The quality cache is a memo of the last evaluation: every operation that
//! changes the decision variables clears it, so a solution never carries a
//! quality that was computed for other variables.
use vstd::prelude::*;

verus! {

/// Quality payloads that can compare themselves under a dominance relation.
///
/// Implementations state the relation as `dominates_spec` and make
/// `dominates` compute exactly that relation.
pub trait Dominance: Sized {
    spec fn dominates_spec(&self, other: &Self) -> bool;

    fn dominates(&self, other: &Self) -> (r: bool)
        ensures
            r == self.dominates_spec(other),
    ;
}

/// Swaps two elements of a vector, by taking both out and putting each back
/// at the other's position.
fn vec_swap<T>(v: &mut Vec<T>, i: usize, j: usize)
    requires
        i < old(v)@.len(),
        j < old(v)@.len(),
    ensures
        final(v)@ == old(v)@.update(i as int, old(v)@[j as int]).update(j as int, old(v)@[i as int]),
{
    if i == j {
        assert(v@ =~= v@.update(i as int, v@[j as int]).update(j as int, v@[i as int]));
        return;
    }
    let (lo, hi) = if i < j { (i, j) } else { (j, i) };
    let ghost s = v@;
    let x_hi = v.remove(hi);
    let x_lo = v.remove(lo);
    v.insert(lo, x_hi);
    v.insert(hi, x_lo);
    assert(v@ =~= s.update(lo as int, s[hi as int]).update(hi as int, s[lo as int]));
    assert(s.update(lo as int, s[hi as int]).update(hi as int, s[lo as int]) =~= s.update(i as int, s[j as int]).update(
        j as int,
        s[i as int],
    ));
}

/// Generic optimization solution.
///
/// `T` is the decision-variable type and `Q` the quality payload type.
pub struct Solution<T, Q> {
    variables: Vec<T>,
    quality: Option<Q>,
}

/// `b` is a clone of `a`: same number of variables, every variable and the
/// quality (when present) cloned.
pub open spec fn is_clone_of<T: Clone, Q: Clone>(a: Solution<T, Q>, b: Solution<T, Q>) -> bool {
    &&& b.spec_variables().len() == a.spec_variables().len()
    &&& forall|i: int|
        0 <= i < a.spec_variables().len() ==> cloned::<T>(
            a.spec_variables()[i],
            #[trigger] b.spec_variables()[i],
        )
    &&& (b.spec_quality() is Some <==> a.spec_quality() is Some)
    &&& a.spec_quality() is Some ==> cloned::<Q>(a.spec_quality()->0, b.spec_quality()->0)
}

impl<T: Clone, Q: Clone> Clone for Solution<T, Q> {
    fn clone(&self) -> (res: Self)
        ensures
            is_clone_of(*self, res),
    {
        Solution { variables: self.variables.clone(), quality: self.quality.clone() }
    }
}

impl<T, Q> Solution<T, Q> {
    /// The decision variables, in order.
    pub closed spec fn spec_variables(&self) -> Seq<T> {
        self.variables@
    }

    /// The cached quality, if the solution has been evaluated.
    pub closed spec fn spec_quality(&self) -> Option<Q> {
        self.quality
    }

    /// Creates a solution with the given variables and no quality.
    pub fn new(variables: Vec<T>) -> (s: Self)
        ensures
            s.spec_variables() == variables@,
            s.spec_quality() is None,
    {
        Solution { variables, quality: None }
    }

    /// Read-only view of the decision variables.
    pub fn variables(&self) -> (r: &[T])
        ensures
            r@ == self.spec_variables(),
    {
        self.variables.as_slice()
    }

    /// Mutable view of the decision variables.
    ///
    /// The quality cache is cleared at once: whatever is written through the
    /// returned slice becomes the new variables of an unevaluated solution.
    pub fn variables_mut(&mut self) -> (r: &mut [T])
        ensures
            r@ == old(self).spec_variables(),
            final(self).spec_variables() == final(r)@,
            final(self).spec_quality() is None,
    {
        self.quality = None;
        self.variables.as_mut_slice()
    }

    /// Replaces all decision variables and clears the quality cache.
    pub fn set_variables(&mut self, variables: Vec<T>)
        ensures
            final(self).spec_variables() == variables@,
            final(self).spec_quality() is None,
    {
        self.variables = variables;
        self.invalidate();
    }

    /// Number of decision variables.
    pub fn num_variables(&self) -> (n: usize)
        ensures
            n == self.spec_variables().len(),
    {
        self.variables.len()
    }

    /// A clone of this solution.
    pub fn copy(&self) -> (res: Self)
        where T: Clone, Q: Clone,
        ensures
            is_clone_of(*self, res),
    {
        self.clone()
    }

    /// The variable at `index`, or `None` when `index` is out of bounds.
    pub fn get_variable(&self, index: usize) -> (r: Option<&T>)
        ensures
            index < self.spec_variables().len() ==> r == Some(&self.spec_variables()[index as int]),
            index >= self.spec_variables().len() ==> r is None,
    {
        if index < self.variables.len() {
            Some(&self.variables[index])
        } else {
            None
        }
    }

    /// Mutable access to the variable at `index`, or `None` when `index` is
    /// out of bounds.
    ///
    /// The quality cache is cleared in both cases.
    pub fn get_variable_mut(&mut self, index: usize) -> (r: Option<&mut T>)
        ensures
            final(self).spec_quality() is None,
            index < old(self).spec_variables().len() ==> {
                &&& r is Some
                &&& *r->0 == old(self).spec_variables()[index as int]
                &&& final(self).spec_variables() == old(self).spec_variables().update(
                    index as int,
                    *final(r->0),
                )
            },
            index >= old(self).spec_variables().len() ==> {
                &&& r is None
                &&& final(self).spec_variables() == old(self).spec_variables()
            },
    {
        self.quality = None;
        if index < self.variables.len() {
            Some(&mut self.variables[index])
        } else {
            None
        }
    }

    /// Replaces the variable at `index`; returns whether `index` was valid.
    ///
    /// On success the quality cache is cleared; otherwise nothing changes.
    pub fn set_variable(&mut self, index: usize, value: T) -> (ok: bool)
        ensures
            ok == (index < old(self).spec_variables().len()),
            ok ==> final(self).spec_variables() == old(self).spec_variables().update(index as int, value),
            ok ==> final(self).spec_quality() is None,
            !ok ==> *final(self) == *old(self),
    {
        if index < self.variables.len() {
            self.variables.set(index, value);
            self.invalidate();
            true
        } else {
            false
        }
    }

    /// Swaps two variables; returns whether both indexes were valid.
    ///
    /// On success the quality cache is cleared; otherwise nothing changes.
    pub fn swap_variables(&mut self, i: usize, j: usize) -> (ok: bool)
        ensures
            ok == (i < old(self).spec_variables().len() && j < old(self).spec_variables().len()),
            ok ==> final(self).spec_variables() == old(self).spec_variables().update(
                i as int,
                old(self).spec_variables()[j as int],
            ).update(j as int, old(self).spec_variables()[i as int]),
            ok ==> final(self).spec_quality() is None,
            !ok ==> *final(self) == *old(self),
    {
        if i < self.variables.len() && j < self.variables.len() {
            vec_swap(&mut self.variables, i, j);
            self.invalidate();
            true
        } else {
            false
        }
    }

    /// The cached quality, if any.
    pub fn quality(&self) -> (r: Option<&Q>)
        ensures
            r == match self.spec_quality() {
                Some(q) => Some(&q),
                None => None::<&Q>,
            },
    {
        match &self.quality {
            Some(q) => Some(q),
            None => None,
        }
    }

    /// Mutable access to the cached quality, if any; the variables are
    /// unchanged.
    pub fn quality_mut(&mut self) -> (r: Option<&mut Q>)
        ensures
            final(self).spec_variables() == old(self).spec_variables(),
            old(self).spec_quality() is Some ==> {
                &&& r is Some
                &&& *r->0 == old(self).spec_quality()->0
                &&& final(self).spec_quality() == Some(*final(r->0))
            },
            old(self).spec_quality() is None ==> r is None && final(self).spec_quality() is None,
    {
        match &mut self.quality {
            Some(q) => Some(q),
            None => None,
        }
    }

    /// Stores a quality payload; the variables are unchanged.
    pub fn set_quality(&mut self, quality: Q)
        ensures
            final(self).spec_variables() == old(self).spec_variables(),
            final(self).spec_quality() == Some(quality),
    {
        self.quality = Some(quality);
    }

    /// Whether a quality payload is cached.
    pub fn has_quality(&self) -> (b: bool)
        ensures
            b == self.spec_quality() is Some,
    {
        self.quality.is_some()
    }

    /// Clears the quality cache; the variables are unchanged.
    pub fn invalidate(&mut self)
        ensures
            final(self).spec_variables() == old(self).spec_variables(),
            final(self).spec_quality() is None,
    {
        self.quality = None;
    }
}

impl<T, Q: Dominance> Solution<T, Q> {
    /// Whether this solution's quality dominates `other`'s; `false` when
    /// either quality is missing.
    pub fn dominates(&self, other: &Self) -> (r: bool)
        ensures
            r == match (self.spec_quality(), other.spec_quality()) {
                (Some(a), Some(b)) => a.dominates_spec(&b),
                _ => false,
            },
    {
        match (&self.quality, &other.quality) {
            (Some(a), Some(b)) => a.dominates(b),
            _ => false,
        }
    }
}

} // verus!
