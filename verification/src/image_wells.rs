//! The image-well series of a bounded aquifer: which well comes next, with
//! which sign its term counts, and when the series ends.
//!
//! A stream on one side and a no-flow boundary on the other are modelled by
//! mirror images of the pumping well. The caller evaluates the response
//! term of each well in turn; this module decides where the next well
//! stands, adds the terms up with alternating sign and ends the series at
//! the first term that has vanished.

use vstd::prelude::*;

verus! {

/// The largest magnitude of a distance, in the caller's unit of length.
pub const MAX_DISTANCE: i64 = 0x0100_0000_0000;

/// The largest number of wells whose terms a series takes.
pub const MAX_IMAGE_WELLS: u32 = 10_000;

/// The distance from the stream of well `i` of the series: the pumping well
/// first, then its images by turns across the boundary and across the stream.
pub open spec fn image_distance(to_well: int, to_boundary: int, i: int) -> int {
    if i % 2 == 0 {
        i * to_boundary + to_well
    } else {
        (i + 1) * to_boundary - to_well
    }
}

/// The sign with which the term of well `i` counts: plus for the first two
/// wells, minus for the next two, and so on by pairs.
pub open spec fn image_sign(i: int) -> int {
    if (i / 2) % 2 == 0 {
        1
    } else {
        -1
    }
}

/// The sum of the first `n` terms, each with the sign of its well.
pub open spec fn signed_sum(terms: Seq<u32>, n: int) -> int
    decreases n,
{
    if n <= 0 {
        0
    } else {
        signed_sum(terms, n - 1) + image_sign(n - 1) * terms[n - 1]
    }
}

/// What the caller of a series does next.
#[derive(Clone, Copy, Debug, PartialEq, Eq, Structural)]
pub enum Step {
    /// Evaluate the term of the well at this distance and hand it in.
    Evaluate(i64),
    /// The series has ended with this sum, in billionths.
    Done(i64),
}

/// An image-well series in progress.
pub struct ImageWells {
    to_well: i64,
    to_boundary: i64,
    count: u32,
    total: i64,
    open: bool,
    terms: Ghost<Seq<u32>>,
}

impl ImageWells {
    /// The distance from the stream to the pumping well.
    pub closed spec fn to_well(&self) -> int {
        self.to_well as int
    }

    /// The distance from the stream to the no-flow boundary.
    pub closed spec fn to_boundary(&self) -> int {
        self.to_boundary as int
    }

    /// The terms handed in so far, in billionths.
    pub closed spec fn terms(&self) -> Seq<u32> {
        self.terms@
    }

    /// Whether the series takes another term.
    pub closed spec fn is_open(&self) -> bool {
        self.open
    }

    /// The sum of the terms so far, each with the sign of its well.
    pub closed spec fn total(&self) -> int {
        self.total as int
    }

    /// The series' bookkeeping is consistent: the sum is that of its terms,
    /// and it is open exactly while no term has vanished and wells are left.
    pub closed spec fn wf(&self) -> bool {
        &&& -MAX_DISTANCE <= self.to_well <= MAX_DISTANCE
        &&& -MAX_DISTANCE <= self.to_boundary <= MAX_DISTANCE
        &&& self.count == self.terms@.len()
        &&& self.count <= MAX_IMAGE_WELLS
        &&& self.total == signed_sum(self.terms@, self.count as int)
        &&& -(self.count * 0x1_0000_0000) <= self.total <= self.count * 0x1_0000_0000
        &&& self.open == (self.count < MAX_IMAGE_WELLS && (self.count == 0 || self.terms@.last()
            != 0))
    }

    /// A series for a well at `to_well` from the stream and a boundary at
    /// `to_boundary` from the stream, with no term yet.
    pub fn new(to_well: i64, to_boundary: i64) -> (r: ImageWells)
        requires
            -MAX_DISTANCE <= to_well <= MAX_DISTANCE,
            -MAX_DISTANCE <= to_boundary <= MAX_DISTANCE,
        ensures
            r.wf(),
            r.is_open(),
            r.terms() == Seq::<u32>::empty(),
            r.total() == 0,
            r.to_well() == to_well,
            r.to_boundary() == to_boundary,
    {
        ImageWells {
            to_well,
            to_boundary,
            count: 0,
            total: 0,
            open: true,
            terms: Ghost(Seq::empty()),
        }
    }

    /// What to do next: evaluate the term of the next well, or stop with the
    /// sum where the last term has vanished or no wells are left.
    pub fn action(&self) -> (r: Step)
        requires
            self.wf(),
        ensures
            self.is_open() ==> r == Step::Evaluate(
                image_distance(
                    self.to_well(),
                    self.to_boundary(),
                    self.terms().len() as int,
                ) as i64,
            ),
            self.is_open() ==> -0x0100_0000_0000_0000 < image_distance(
                self.to_well(),
                self.to_boundary(),
                self.terms().len() as int,
            ) < 0x0100_0000_0000_0000,
            !self.is_open() ==> r == Step::Done(signed_sum(
                self.terms(),
                self.terms().len() as int,
            ) as i64),
            self.is_open() == (self.terms().len() < MAX_IMAGE_WELLS && (self.terms().len() == 0
                || self.terms().last() != 0)),
    {
        if !self.open {
            return Step::Done(self.total);
        }
        let i: i64 = self.count as i64;
        assert(-0x0080_0000_0000_0000 < i * self.to_boundary < 0x0080_0000_0000_0000
            && -0x0080_0000_0000_0000 < (i + 1) * self.to_boundary < 0x0080_0000_0000_0000)
            by (nonlinear_arith)
            requires
                0 <= i < 10_000,
                -0x0100_0000_0000 <= self.to_boundary <= 0x0100_0000_0000,
        ;
        if self.count % 2 == 0 {
            Step::Evaluate(i * self.to_boundary + self.to_well)
        } else {
            Step::Evaluate((i + 1) * self.to_boundary - self.to_well)
        }
    }

    /// Takes the term of the next well, in billionths: adds it to the sum
    /// with the well's sign, and ends the series where the term is 0.
    pub fn accept(&mut self, term: u32)
        requires
            old(self).wf(),
            old(self).is_open(),
        ensures
            final(self).wf(),
            final(self).terms() == old(self).terms().push(term),
            final(self).total() == old(self).total() + image_sign(old(self).terms().len() as int)
                * term,
            final(self).to_well() == old(self).to_well(),
            final(self).to_boundary() == old(self).to_boundary(),
            final(self).is_open() == (term != 0 && final(self).terms().len() < MAX_IMAGE_WELLS),
    {
        let ghost before = self.terms@;
        let positive: bool = (self.count / 2) % 2 == 0;
        if positive {
            self.total = self.total + term as i64;
        } else {
            self.total = self.total - term as i64;
        }
        self.count = self.count + 1;
        self.open = term != 0 && self.count < MAX_IMAGE_WELLS;
        self.terms = Ghost(before.push(term));
        proof {
            let sign = image_sign(before.len() as int);
            assert(positive == (sign == 1));
            assert(sign * term == (if positive {
                term as int
            } else {
                -(term as int)
            })) by (nonlinear_arith)
                requires
                    sign == (if positive {
                        1int
                    } else {
                        -1int
                    }),
            ;
            lemma_signed_sum_prefix(before, before.push(term), before.len() as int);
        }
    }
}

/// The sum of the first terms does not depend on the terms that follow.
proof fn lemma_signed_sum_prefix(a: Seq<u32>, b: Seq<u32>, n: int)
    requires
        n <= a.len() <= b.len(),
        forall|i: int| 0 <= i < n ==> a[i] == b[i],
    ensures
        signed_sum(a, n) == signed_sum(b, n),
    decreases n,
{
    if n > 0 {
        lemma_signed_sum_prefix(a, b, n - 1);
    }
}

} // verus!
