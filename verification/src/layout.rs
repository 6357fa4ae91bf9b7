use vstd::arithmetic::div_mod::lemma_fundamental_div_mod;
use vstd::arithmetic::div_mod::lemma_mod_bound;
use vstd::arithmetic::div_mod::lemma_mod_multiples_basic;
use vstd::prelude::*;

verus! {

/// Size and alignment of a record, measured in addresses of the managed
/// space.  The descriptor is only meaningful when `align` is a positive
/// power of two; see [`Layout::wf`].
#[derive(Clone, Copy, Debug)]
pub struct Layout {
    pub size: usize,
    pub align: usize,
}

/// A positive power of two, characterised through its bit pattern: a power
/// of two has exactly one bit set, so clearing the lowest set bit leaves 0.
pub open spec fn is_power_of_two(a: usize) -> bool {
    1 <= a && a & ((a - 1) as usize) == 0
}

/// The smallest multiple of `a` that is at least `p` (for `a >= 1, p >= 0`).
pub open spec fn spec_align_up(p: int, a: int) -> int {
    ((p + a - 1) / a) * a
}

/// `spec_align_up(p, a)` is a multiple of `a` and lies in `[p, p + a)`.
pub proof fn lemma_align_up_props(p: int, a: int)
    requires
        0 <= p,
        1 <= a,
    ensures
        spec_align_up(p, a) % a == 0,
        p <= spec_align_up(p, a),
        spec_align_up(p, a) < p + a,
{
    let q = p + a - 1;
    let d = q / a;
    lemma_fundamental_div_mod(q, a);
    lemma_mod_bound(q, a);
    lemma_mod_multiples_basic(d, a);
    assert(spec_align_up(p, a) == q - q % a);
}

/// There is exactly one multiple of `a` in any window `[p, p + a)`, so a
/// multiple of `a` found there is `spec_align_up(p, a)`.
pub proof fn lemma_align_up_unique(p: int, a: int, r: int)
    requires
        0 <= p,
        1 <= a,
        r % a == 0,
        p <= r,
        r < p + a,
    ensures
        r == spec_align_up(p, a),
{
    lemma_align_up_props(p, a);
    let s = spec_align_up(p, a);
    lemma_fundamental_div_mod(r, a);
    lemma_fundamental_div_mod(s, a);
    let rq = r / a;
    let sq = s / a;
    assert(r == a * rq);
    assert(s == a * sq);
    assert(rq == sq) by (nonlinear_arith)
        requires
            r == a * rq,
            s == a * sq,
            1 <= a,
            p <= r < p + a,
            p <= s < p + a,
    ;
}

/// A positive multiple of `a` is at least `a`.
pub proof fn lemma_positive_multiple(a: int, r: int)
    requires
        1 <= a,
        r % a == 0,
        1 <= r,
    ensures
        a <= r,
{
    lemma_fundamental_div_mod(r, a);
    let rq = r / a;
    assert(a <= r) by (nonlinear_arith)
        requires
            r == a * rq,
            1 <= a,
            1 <= r,
    ;
}

impl Layout {
    /// The alignment is a positive power of two.
    pub open spec fn wf(&self) -> bool {
        is_power_of_two(self.align)
    }

    /// Builds the descriptor from raw size and alignment.  Nothing is
    /// checked here; operations that round addresses require [`Layout::wf`].
    pub fn from_size_align_unchecked(size: usize, align: usize) -> (r: Self)
        ensures
            r.size == size,
            r.align == align,
    {
        Layout { size, align }
    }

    pub fn size(&self) -> (r: usize)
        ensures
            r == self.size,
    {
        self.size
    }

    pub fn align(&self) -> (r: usize)
        ensures
            r == self.align,
    {
        self.align
    }

    /// Rounds `p` up to the next multiple of the alignment: the result of
    /// `(p + align - 1) & !(align - 1)` for a power-of-two alignment,
    /// computed through the remainder of `p`.
    pub fn align_offset(&self, p: usize) -> (r: usize)
        requires
            self.wf(),
            p + self.align - 1 <= usize::MAX,
        ensures
            r == spec_align_up(p as int, self.align as int),
    {
        let a: usize = self.align;
        let rem: usize = p % a;
        if rem == 0 {
            proof {
                lemma_align_up_unique(p as int, a as int, p as int);
            }
            p
        } else {
            let r: usize = p + (a - rem);
            proof {
                let ai = a as int;
                let q = (p as int) / ai;
                lemma_fundamental_div_mod(p as int, ai);
                lemma_mod_bound(p as int, ai);
                assert(ai * (q + 1) == ai * q + ai) by (nonlinear_arith);
                assert(r as int == ai * (q + 1));
                lemma_mod_multiples_basic(q + 1, ai);
                assert((r as int) % ai == 0);
                lemma_align_up_unique(p as int, ai, r as int);
            }
            r
        }
    }
}

} // verus!
