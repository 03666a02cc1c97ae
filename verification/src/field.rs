//! Arithmetic of the small prime field M31 (modulus 2^31 - 1) and of its
//! degree-4 extension QM31, built as a degree-2 extension of the complex
//! extension CM31. A QM31 value is encoded as four M31 components; this is
//! the fixed element width used by the stack layout.
use vstd::prelude::*;

verus! {

/// The field modulus, 2^31 - 1.
pub const P: u32 = 0x7fff_ffff;

/// The modulus as a mathematical integer.
pub open spec fn pm() -> int {
    0x7fff_ffff
}

/// A base-field value is a residue in [0, P).
pub open spec fn mvalid(x: int) -> bool {
    0 <= x < pm()
}

/// Base-field addition.
pub open spec fn madd(x: int, y: int) -> int {
    if x + y >= pm() {
        x + y - pm()
    } else {
        x + y
    }
}

/// Base-field subtraction.
pub open spec fn msub(x: int, y: int) -> int {
    if x >= y {
        x - y
    } else {
        x - y + pm()
    }
}

/// Base-field multiplication.
pub open spec fn mmul(x: int, y: int) -> int {
    (x * y) % pm()
}

pub proof fn lemma_mmul_valid(x: int, y: int)
    requires
        mvalid(x),
        mvalid(y),
    ensures
        mvalid(mmul(x, y)),
{
    assert(x * y >= 0) by (nonlinear_arith)
        requires
            x >= 0,
            y >= 0,
    ;
    assert(0 <= (x * y) % pm() < pm()) by (nonlinear_arith)
        requires
            x * y >= 0,
    ;
}

/// A CM31 value: a pair (real, imaginary) over M31, with i^2 = -1.
pub open spec fn cvalid(x: (int, int)) -> bool {
    mvalid(x.0) && mvalid(x.1)
}

pub open spec fn cadd(x: (int, int), y: (int, int)) -> (int, int) {
    (madd(x.0, y.0), madd(x.1, y.1))
}

pub open spec fn csub(x: (int, int), y: (int, int)) -> (int, int) {
    (msub(x.0, y.0), msub(x.1, y.1))
}

#[verifier::opaque]
pub open spec fn cmul(x: (int, int), y: (int, int)) -> (int, int) {
    (msub(mmul(x.0, y.0), mmul(x.1, y.1)), madd(mmul(x.0, y.1), mmul(x.1, y.0)))
}

pub proof fn lemma_cmul_valid(x: (int, int), y: (int, int))
    requires
        cvalid(x),
        cvalid(y),
    ensures
        cvalid(cmul(x, y)),
{
    reveal(cmul);
    lemma_mmul_valid(x.0, y.0);
    lemma_mmul_valid(x.1, y.1);
    lemma_mmul_valid(x.0, y.1);
    lemma_mmul_valid(x.1, y.0);
}

/// A QM31 value: (a + b i) + (c + d i) u, where u^2 = 2 + i.
pub open spec fn qvalid(x: (int, int, int, int)) -> bool {
    mvalid(x.0) && mvalid(x.1) && mvalid(x.2) && mvalid(x.3)
}

pub open spec fn qadd(x: (int, int, int, int), y: (int, int, int, int)) -> (int, int, int, int) {
    (madd(x.0, y.0), madd(x.1, y.1), madd(x.2, y.2), madd(x.3, y.3))
}

pub open spec fn qsub(x: (int, int, int, int), y: (int, int, int, int)) -> (int, int, int, int) {
    (msub(x.0, y.0), msub(x.1, y.1), msub(x.2, y.2), msub(x.3, y.3))
}

/// The constant u^2 = 2 + i by which the upper half wraps around.
pub open spec fn qr() -> (int, int) {
    (2, 1)
}

#[verifier::opaque]
pub open spec fn qmul(x: (int, int, int, int), y: (int, int, int, int)) -> (int, int, int, int) {
    let lo = cadd(cmul((x.0, x.1), (y.0, y.1)), cmul(qr(), cmul((x.2, x.3), (y.2, y.3))));
    let hi = cadd(cmul((x.0, x.1), (y.2, y.3)), cmul((x.2, x.3), (y.0, y.1)));
    (lo.0, lo.1, hi.0, hi.1)
}

pub proof fn lemma_qadd_valid(x: (int, int, int, int), y: (int, int, int, int))
    requires
        qvalid(x),
        qvalid(y),
    ensures
        qvalid(qadd(x, y)),
{
}

pub proof fn lemma_qsub_valid(x: (int, int, int, int), y: (int, int, int, int))
    requires
        qvalid(x),
        qvalid(y),
    ensures
        qvalid(qsub(x, y)),
{
}

pub proof fn lemma_qmul_valid(x: (int, int, int, int), y: (int, int, int, int))
    requires
        qvalid(x),
        qvalid(y),
    ensures
        qvalid(qmul(x, y)),
{
    reveal(qmul);
    lemma_cmul_valid((x.0, x.1), (y.0, y.1));
    lemma_cmul_valid((x.2, x.3), (y.2, y.3));
    lemma_cmul_valid(qr(), cmul((x.2, x.3), (y.2, y.3)));
    lemma_cmul_valid((x.0, x.1), (y.2, y.3));
    lemma_cmul_valid((x.2, x.3), (y.0, y.1));
}

/// The multiplicative unit of QM31.
pub open spec fn qone() -> (int, int, int, int) {
    (1, 0, 0, 0)
}

/// The k-th power of a QM31 value, by repeated multiplication.
pub open spec fn qpow(c: (int, int, int, int), k: nat) -> (int, int, int, int)
    decreases k,
{
    if k == 0 {
        qone()
    } else {
        qmul(qpow(c, (k - 1) as nat), c)
    }
}

/// The unit is neutral on the left of a product.
pub proof fn lemma_qmul_one(c: (int, int, int, int))
    requires
        qvalid(c),
    ensures
        qmul(qone(), c) == c,
{
    reveal(qmul);
    reveal(cmul);
    assert(c.0 % pm() == c.0);
    assert(c.1 % pm() == c.1);
    assert(c.2 % pm() == c.2);
    assert(c.3 % pm() == c.3);
}

/// The first power is the value itself.
pub proof fn lemma_qpow_one(c: (int, int, int, int))
    requires
        qvalid(c),
    ensures
        qpow(c, 1) == c,
{
    assert(qpow(c, 0) == qone());
    lemma_qmul_one(c);
}

pub proof fn lemma_qpow_valid(c: (int, int, int, int), k: nat)
    requires
        qvalid(c),
    ensures
        qvalid(qpow(c, k)),
    decreases k,
{
    if k > 0 {
        lemma_qpow_valid(c, (k - 1) as nat);
        lemma_qmul_valid(qpow(c, (k - 1) as nat), c);
    }
}

/// A QM31 element as four machine words, each a valid M31 residue.
#[derive(Clone, Copy, PartialEq, Eq, Structural, Debug)]
pub struct QM31 {
    pub a: u32,
    pub b: u32,
    pub c: u32,
    pub d: u32,
}

impl QM31 {
    /// The mathematical value of this element.
    pub open spec fn t(self) -> (int, int, int, int) {
        (self.a as int, self.b as int, self.c as int, self.d as int)
    }

    /// All four components are reduced residues.
    pub open spec fn wf(self) -> bool {
        qvalid(self.t())
    }
}

/// Base-field addition on machine words.
pub fn m31_add(x: u32, y: u32) -> (r: u32)
    requires
        mvalid(x as int),
        mvalid(y as int),
    ensures
        r as int == madd(x as int, y as int),
        mvalid(r as int),
{
    let s: u32 = x + y;
    if s >= P {
        s - P
    } else {
        s
    }
}

/// Base-field subtraction on machine words.
pub fn m31_sub(x: u32, y: u32) -> (r: u32)
    requires
        mvalid(x as int),
        mvalid(y as int),
    ensures
        r as int == msub(x as int, y as int),
        mvalid(r as int),
{
    if x >= y {
        x - y
    } else {
        x + P - y
    }
}

/// Base-field multiplication on machine words, through a 64-bit product.
pub fn m31_mul(x: u32, y: u32) -> (r: u32)
    requires
        mvalid(x as int),
        mvalid(y as int),
    ensures
        r as int == mmul(x as int, y as int),
        mvalid(r as int),
{
    proof {
        assert((x as u64) * (y as u64) < 0x4000_0000_0000_0000) by (nonlinear_arith)
            requires
                x < 0x8000_0000,
                y < 0x8000_0000,
        ;
    }
    let w: u64 = (x as u64) * (y as u64);
    proof {
        lemma_mmul_valid(x as int, y as int);
    }
    (w % (P as u64)) as u32
}

/// CM31 multiplication on pairs of machine words.
pub fn cm31_mul(x0: u32, x1: u32, y0: u32, y1: u32) -> (r: (u32, u32))
    requires
        cvalid((x0 as int, x1 as int)),
        cvalid((y0 as int, y1 as int)),
    ensures
        (r.0 as int, r.1 as int) == cmul((x0 as int, x1 as int), (y0 as int, y1 as int)),
        cvalid((r.0 as int, r.1 as int)),
{
    proof {
        reveal(cmul);
    }
    let rr = m31_sub(m31_mul(x0, y0), m31_mul(x1, y1));
    let ri = m31_add(m31_mul(x0, y1), m31_mul(x1, y0));
    (rr, ri)
}

impl QM31 {
    /// The zero element.
    pub fn zero() -> (r: QM31)
        ensures
            r.t() == (0int, 0int, 0int, 0int),
            r.wf(),
    {
        QM31 { a: 0, b: 0, c: 0, d: 0 }
    }

    /// Componentwise addition.
    pub fn add(x: &QM31, y: &QM31) -> (r: QM31)
        requires
            x.wf(),
            y.wf(),
        ensures
            r.t() == qadd(x.t(), y.t()),
            r.wf(),
    {
        QM31 { a: m31_add(x.a, y.a), b: m31_add(x.b, y.b), c: m31_add(x.c, y.c), d: m31_add(
            x.d,
            y.d,
        ) }
    }

    /// Componentwise subtraction.
    pub fn sub(x: &QM31, y: &QM31) -> (r: QM31)
        requires
            x.wf(),
            y.wf(),
        ensures
            r.t() == qsub(x.t(), y.t()),
            r.wf(),
    {
        QM31 { a: m31_sub(x.a, y.a), b: m31_sub(x.b, y.b), c: m31_sub(x.c, y.c), d: m31_sub(
            x.d,
            y.d,
        ) }
    }

    /// Extension-field multiplication.
    pub fn mul(x: &QM31, y: &QM31) -> (r: QM31)
        requires
            x.wf(),
            y.wf(),
        ensures
            r.t() == qmul(x.t(), y.t()),
            r.wf(),
    {
        proof {
            reveal(qmul);
        }
        let xy_lo = cm31_mul(x.a, x.b, y.a, y.b);
        let xy_hi = cm31_mul(x.c, x.d, y.c, y.d);
        let wrapped = cm31_mul(2, 1, xy_hi.0, xy_hi.1);
        let cross0 = cm31_mul(x.a, x.b, y.c, y.d);
        let cross1 = cm31_mul(x.c, x.d, y.a, y.b);
        QM31 {
            a: m31_add(xy_lo.0, wrapped.0),
            b: m31_add(xy_lo.1, wrapped.1),
            c: m31_add(cross0.0, cross1.0),
            d: m31_add(cross0.1, cross1.1),
        }
    }
}

} // verus!
