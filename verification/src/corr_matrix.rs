//! A symmetric pairwise correlation table over named regions.
//!
//! Coefficients are held in fixed point: a defined Pearson coefficient `c`
//! (a real number in `[-1, 1]`) is stored as the integer `c * SCALE`, so the
//! whole core is free of floating point and every property of the table can
//! be verified exactly. A zero-variance price-delta series has no defined
//! coefficient; the table stores that fact as [`Corr::Undefined`] and
//! propagates it downstream instead of substituting a default.

use vstd::arithmetic::div_mod::lemma_fundamental_div_mod;
use vstd::prelude::*;

use crate::errors::MstError;

verus! {

/// Fixed-point scale: a correlation of 1.0 is stored as `SCALE`.
pub const SCALE: i64 = 1_000_000;

/// A Pearson correlation coefficient in fixed point, or the record that the
/// coefficient is undefined because one of the two series has zero variance.
#[derive(Clone, Copy, Debug, PartialEq, Eq, Structural)]
pub enum Corr {
    /// Coefficient scaled by [`SCALE`]; a defined value lies in `[-SCALE, SCALE]`.
    Defined(i64),
    /// Undefined coefficient (zero-variance series).
    Undefined,
}

/// A defined coefficient must lie in `[-SCALE, SCALE]`, i.e. `[-1.0, 1.0]`.
pub open spec fn corr_valid(c: Corr) -> bool {
    match c {
        Corr::Defined(k) => -SCALE <= k <= SCALE,
        Corr::Undefined => true,
    }
}

/// A dense, symmetric `n x n` correlation table keyed by region identity.
///
/// `values` is row-major: the coefficient of `(regions[i], regions[j])` sits
/// at index `i * n + j`. Lookups are by region name and fail fast with
/// [`MstError::Lookup`] on an unknown region.
pub struct CorrMatrix {
    /// Region identifiers, in discovery order; this order is the node-index
    /// mapping used by the rest of the pipeline.
    pub regions: Vec<String>,
    /// Row-major `n x n` table of pairwise coefficients.
    pub values: Vec<Corr>,
}

impl CorrMatrix {
    /// Number of regions.
    pub open spec fn n(self) -> int {
        self.regions@.len() as int
    }

    /// The stored coefficient of the ordered index pair `(i, j)`.
    pub open spec fn corr_at(self, i: int, j: int) -> Corr {
        self.values@[i * self.n() + j]
    }

    /// Well-formedness: the table is square, every entry is a valid
    /// coefficient, the table is symmetric, every defined diagonal entry is
    /// exactly 1.0, and region names are pairwise distinct.
    pub open spec fn wf(self) -> bool {
        &&& self.values@.len() == self.n() * self.n()
        &&& forall|i: int, j: int|
            0 <= i < self.n() && 0 <= j < self.n() ==> corr_valid(#[trigger] self.corr_at(i, j))
        &&& forall|i: int, j: int|
            0 <= i < self.n() && 0 <= j < self.n() ==> #[trigger] self.corr_at(i, j)
                == self.corr_at(j, i)
        &&& forall|i: int|
            0 <= i < self.n() ==> #[trigger] self.corr_at(i, i) == Corr::Defined(SCALE)
                || self.corr_at(i, i) == Corr::Undefined
        &&& forall|i: int, j: int|
            #![trigger self.regions@[i], self.regions@[j]]
            0 <= i < j < self.n() ==> self.regions@[i]@ != self.regions@[j]@
    }

    /// Whether a region of this name is part of the matrix.
    pub open spec fn has_region(self, name: Seq<char>) -> bool {
        exists|i: int|
            #![trigger self.regions@[i]]
            0 <= i < self.n() && self.regions@[i]@ == name
    }

    /// The index of the region of this name (meaningful when `has_region`).
    pub open spec fn index_of(self, name: Seq<char>) -> int {
        choose|i: int|
            #![trigger self.regions@[i]]
            0 <= i < self.n() && self.regions@[i]@ == name
    }

    /// What `get` returns: the stored coefficient of the two regions when
    /// both names are known, a lookup error otherwise.
    pub open spec fn spec_get(self, a: Seq<char>, b: Seq<char>) -> Result<Corr, MstError> {
        if self.has_region(a) && self.has_region(b) {
            Ok(self.corr_at(self.index_of(a), self.index_of(b)))
        } else {
            Err(MstError::Lookup)
        }
    }

    proof fn lemma_index_of_unique(self, name: Seq<char>, i: int)
        requires
            self.wf(),
            0 <= i < self.n(),
            self.regions@[i]@ == name,
        ensures
            self.index_of(name) == i,
            self.has_region(name),
    {
        assert(self.has_region(name));
        let c = self.index_of(name);
        assert(0 <= c < self.n() && self.regions@[c]@ == name);
        if c < i {
            assert(self.regions@[c]@ != self.regions@[i]@);
        } else if i < c {
            assert(self.regions@[i]@ != self.regions@[c]@);
        }
    }

    /// Linear scan for a region name; `Some(i)` exactly when the name is
    /// present, with `i` its index.
    pub fn find_region(&self, name: &String) -> (r: Option<usize>)
        ensures
            match r {
                Some(i) => 0 <= i < self.n() && self.regions@[i as int]@ == name@,
                None => !self.has_region(name@),
            },
    {
        let mut i: usize = 0;
        while i < self.regions.len()
            invariant
                0 <= i <= self.n(),
                forall|k: int| #![trigger self.regions@[k]] 0 <= k < i ==> self.regions@[k]@ != name@,
            decreases self.n() - i,
        {
            if self.regions[i] == *name {
                return Some(i);
            }
            i += 1;
        }
        None
    }

    /// Point lookup by region identity.
    ///
    /// Returns the stored coefficient of `(a, b)`; the result is independent
    /// of argument order (the table is symmetric), and a defined `get(a, a)`
    /// is exactly 1.0. If either name is unknown the lookup fails with
    /// [`MstError::Lookup`]; the matrix itself is never changed by a lookup.
    pub fn get(&self, a: &String, b: &String) -> (r: Result<Corr, MstError>)
        requires
            self.wf(),
        ensures
            r == self.spec_get(a@, b@),
            r is Ok <==> self.has_region(a@) && self.has_region(b@),
    {
        let ia = match self.find_region(a) {
            Some(i) => i,
            None => {
                return Err(MstError::Lookup);
            },
        };
        let ib = match self.find_region(b) {
            Some(i) => i,
            None => {
                return Err(MstError::Lookup);
            },
        };
        proof {
            self.lemma_index_of_unique(a@, ia as int);
            self.lemma_index_of_unique(b@, ib as int);
        }
        let n = self.regions.len();
        let total = self.values.len();
        proof {
            assert((ia as int) * (n as int) + (ib as int) < (n as int) * (n as int))
                by (nonlinear_arith)
                requires
                    0 <= ia < n,
                    0 <= ib < n,
            ;
            assert(total as int == (n as int) * (n as int));
        }
        let idx = ia * n + ib;
        Ok(self.values[idx])
    }

    /// Build a matrix from a region list and a row-major coefficient table.
    ///
    /// The input is validated in full: the table must be `n x n`, every
    /// entry a coefficient in range, the table symmetric, every defined
    /// diagonal entry exactly 1.0, and the region names pairwise distinct.
    /// The result is `Ok` exactly when all of that holds; otherwise the
    /// constructor fails with [`MstError::MalformedInput`] before any graph
    /// work can begin.
    pub fn new(regions: Vec<String>, values: Vec<Corr>) -> (r: Result<CorrMatrix, MstError>)
        ensures
            match r {
                Ok(m) => m == (CorrMatrix { regions, values }) && m.wf(),
                Err(e) => e == MstError::MalformedInput && !(CorrMatrix { regions, values }).wf(),
            },
    {
        let ghost gm = (CorrMatrix { regions: regions, values: values });
        let n = regions.len();

        // Shape: the value table must hold exactly n * n entries.
        let shape_ok = if n == 0 {
            values.len() == 0
        } else {
            values.len() / n == n && values.len() % n == 0
        };
        if !shape_ok {
            proof {
                if n != 0 && values@.len() == n * n {
                    vstd::arithmetic::div_mod::lemma_div_multiples_vanish(n as int, n as int);
                    vstd::arithmetic::div_mod::lemma_mod_multiples_basic(n as int, n as int);
                    assert(values@.len() as int / (n as int) == n as int);
                    assert(values@.len() as int % (n as int) == 0);
                    assert(false);
                }
                assert(values@.len() != n * n);
            }
            return Err(MstError::MalformedInput);
        }
        proof {
            if n != 0 {
                lemma_fundamental_div_mod(values@.len() as int, n as int);
            }
            assert(gm.values@.len() == gm.n() * gm.n());
        }
        let total = values.len();

        // Region names must be pairwise distinct.
        let mut i: usize = 0;
        while i < n
            invariant
                0 <= i <= n,
                n == gm.n(),
                regions == gm.regions,
                forall|a: int, b: int|
                    #![trigger gm.regions@[a], gm.regions@[b]]
                    0 <= a < b < gm.n() && a < i ==> gm.regions@[a]@ != gm.regions@[b]@,
            decreases n - i,
        {
            let mut j: usize = i + 1;
            while j < n
                invariant
                    0 <= i < j <= n,
                    n == gm.n(),
                    regions == gm.regions,
                    forall|a: int, b: int|
                        #![trigger gm.regions@[a], gm.regions@[b]]
                        0 <= a < b < gm.n() && a < i ==> gm.regions@[a]@ != gm.regions@[b]@,
                    forall|b: int|
                        #![trigger gm.regions@[b]]
                        i < b < j ==> gm.regions@[i as int]@ != gm.regions@[b]@,
                decreases n - j,
            {
                if regions[i] == regions[j] {
                    proof {
                        assert(gm.regions@[i as int]@ == gm.regions@[j as int]@);
                        assert(!gm.wf());
                    }
                    return Err(MstError::MalformedInput);
                }
                j += 1;
            }
            i += 1;
        }

        // Every entry in range, the table symmetric, the diagonal exact.
        let mut i: usize = 0;
        while i < n
            invariant
                0 <= i <= n,
                n == gm.n(),
                regions == gm.regions,
                values == gm.values,
                gm.values@.len() == gm.n() * gm.n(),
                total as int == gm.n() * gm.n(),
                forall|a: int, b: int|
                    0 <= a < gm.n() && 0 <= b < gm.n() && a < i ==> corr_valid(
                        #[trigger] gm.corr_at(a, b),
                    ) && gm.corr_at(a, b) == gm.corr_at(b, a) && (a == b ==> gm.corr_at(a, a)
                        == Corr::Defined(SCALE) || gm.corr_at(a, a) == Corr::Undefined),
            decreases n - i,
        {
            let mut j: usize = 0;
            while j < n
                invariant
                    0 <= i < n,
                    0 <= j <= n,
                    n == gm.n(),
                    regions == gm.regions,
                    values == gm.values,
                    gm.values@.len() == gm.n() * gm.n(),
                    total as int == gm.n() * gm.n(),
                    forall|a: int, b: int|
                        0 <= a < gm.n() && 0 <= b < gm.n() && a < i ==> corr_valid(
                            #[trigger] gm.corr_at(a, b),
                        ) && gm.corr_at(a, b) == gm.corr_at(b, a) && (a == b ==> gm.corr_at(a, a)
                            == Corr::Defined(SCALE) || gm.corr_at(a, a) == Corr::Undefined),
                    forall|b: int|
                        0 <= b < j ==> corr_valid(#[trigger] gm.corr_at(i as int, b)) && gm.corr_at(
                            i as int,
                            b,
                        ) == gm.corr_at(b, i as int) && (b == i ==> gm.corr_at(i as int, i as int)
                            == Corr::Defined(SCALE) || gm.corr_at(i as int, i as int)
                            == Corr::Undefined),
                decreases n - j,
            {
                proof {
                    assert((i as int) * (n as int) + (j as int) < (n as int) * (n as int)
                        && (j as int) * (n as int) + (i as int) < (n as int) * (n as int))
                        by (nonlinear_arith)
                        requires
                            0 <= i < n,
                            0 <= j < n,
                    ;
                    assert((i as int) * (n as int) + (j as int) < total as int);
                    assert((j as int) * (n as int) + (i as int) < total as int);
                }
                let c = values[i * n + j];
                let valid = match c {
                    Corr::Defined(k) => -SCALE <= k && k <= SCALE,
                    Corr::Undefined => true,
                };
                if !valid {
                    proof {
                        assert(!corr_valid(gm.corr_at(i as int, j as int)));
                        assert(!gm.wf());
                    }
                    return Err(MstError::MalformedInput);
                }
                if c != values[j * n + i] {
                    proof {
                        assert(gm.corr_at(i as int, j as int) != gm.corr_at(j as int, i as int));
                        assert(!gm.wf());
                    }
                    return Err(MstError::MalformedInput);
                }
                if i == j {
                    let diag_ok = match c {
                        Corr::Defined(k) => k == SCALE,
                        Corr::Undefined => true,
                    };
                    if !diag_ok {
                        proof {
                            assert(gm.corr_at(i as int, i as int) != Corr::Defined(SCALE)
                                && gm.corr_at(i as int, i as int) != Corr::Undefined);
                            assert(!gm.wf());
                        }
                        return Err(MstError::MalformedInput);
                    }
                }
                j += 1;
            }
            i += 1;
        }

        Ok(CorrMatrix { regions, values })
    }
}

/// Law (symmetry): a lookup does not depend on the order of its two region
/// arguments — `get(a, b)` and `get(b, a)` agree on every well-formed matrix,
/// errors included.
pub proof fn lemma_get_symmetric(m: CorrMatrix, a: Seq<char>, b: Seq<char>)
    requires
        m.wf(),
    ensures
        m.spec_get(a, b) == m.spec_get(b, a),
{
    if m.has_region(a) && m.has_region(b) {
        let ia = m.index_of(a);
        let ib = m.index_of(b);
        assert(0 <= ia < m.n() && m.regions@[ia]@ == a);
        assert(0 <= ib < m.n() && m.regions@[ib]@ == b);
        assert(m.corr_at(ia, ib) == m.corr_at(ib, ia));
    }
}

/// Law (self-correlation): looking up a known region against itself always
/// succeeds, and whenever the region's series has nonzero variance (so the
/// coefficient is defined) the result is exactly 1.0, i.e. `SCALE`.
pub proof fn lemma_self_correlation(m: CorrMatrix, a: Seq<char>)
    requires
        m.wf(),
        m.has_region(a),
    ensures
        m.spec_get(a, a) is Ok,
        forall|k: i64|
            m.spec_get(a, a) == Ok::<Corr, MstError>(Corr::Defined(k)) ==> k == SCALE,
{
    let ia = m.index_of(a);
    assert(0 <= ia < m.n() && m.regions@[ia]@ == a);
    assert(m.corr_at(ia, ia) == Corr::Defined(SCALE) || m.corr_at(ia, ia) == Corr::Undefined);
}

} // verus!
