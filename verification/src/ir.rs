//! The instruction set of the generated verifier programs, and its
//! semantics. The target machine owns a single stack of fixed-width items;
//! an item is one machine word holding an M31 residue (or an opaque digest
//! word). A QM31 extension-field element occupies four consecutive items, a
//! CM31 element two. Each instruction stands for one fixed code fragment of
//! the target machine; `run` says, as a specification, what a program does
//! to a stack, with `None` meaning that execution aborts.
use vstd::prelude::*;

use crate::field::cmul;
use crate::field::csub;
use crate::field::cvalid;
use crate::field::mvalid;
use crate::field::qadd;
use crate::field::qmul;
use crate::field::qsub;
use crate::field::qvalid;

verus! {

/// One instruction of the stack machine.
#[derive(Clone, Copy, PartialEq, Eq, Structural, Debug)]
pub enum Instr {
    /// Push one literal item.
    PushItem(u32),
    /// Copy the item at the given depth (0 = top) onto the top.
    PickItem(usize),
    /// Pop the given number of items off the top.
    DropN(usize),
    /// Remove the given number of items lying directly below the four
    /// topmost items, keeping those four in place.
    SweepQ(usize),
    /// Pop two CM31 elements, push their product.
    CMul,
    /// Pop two CM31 elements, push the lower minus the upper.
    CSub,
    /// Pop two QM31 elements, push their sum.
    QAdd,
    /// Pop two QM31 elements, push the lower minus the upper.
    QSub,
    /// Pop two QM31 elements, push their product.
    QMul,
    /// Pop two QM31 elements; abort unless they are equal.
    QEqVerify,
}

/// The two items starting at position `k`, as a CM31 value.
pub open spec fn c_at(s: Seq<u32>, k: int) -> (int, int) {
    (s[k] as int, s[k + 1] as int)
}

/// The four items starting at position `k`, as a QM31 value.
pub open spec fn q_at(s: Seq<u32>, k: int) -> (int, int, int, int) {
    (s[k] as int, s[k + 1] as int, s[k + 2] as int, s[k + 3] as int)
}

/// A CM31 value as two stack items.
pub open spec fn c_items(x: (int, int)) -> Seq<u32> {
    seq![x.0 as u32, x.1 as u32]
}

/// A QM31 value as four stack items.
pub open spec fn q_items(x: (int, int, int, int)) -> Seq<u32> {
    seq![x.0 as u32, x.1 as u32, x.2 as u32, x.3 as u32]
}

/// Items in positions `lo..hi` are reduced M31 residues.
pub open spec fn valid_range(s: Seq<u32>, lo: int, hi: int) -> bool {
    forall|j: int| lo <= j < hi ==> mvalid(#[trigger] s[j] as int)
}

/// The effect of one instruction on a stack; `None` is an abort.
pub open spec fn step(s: Seq<u32>, ins: Instr) -> Option<Seq<u32>> {
    let n: int = s.len() as int;
    match ins {
        Instr::PushItem(v) => Some(s.push(v)),
        Instr::PickItem(d) => if (d as int) < n {
            Some(s.push(s[n - 1 - (d as int)]))
        } else {
            None
        },
        Instr::DropN(k) => if (k as int) <= n {
            Some(s.take(n - (k as int)))
        } else {
            None
        },
        Instr::SweepQ(k) => if (k as int) + 4 <= n {
            Some(s.take(n - 4 - (k as int)) + s.skip(n - 4))
        } else {
            None
        },
        Instr::CMul => if n >= 4 && valid_range(s, n - 4, n) {
            Some(s.take(n - 4) + c_items(cmul(c_at(s, n - 4), c_at(s, n - 2))))
        } else {
            None
        },
        Instr::CSub => if n >= 4 && valid_range(s, n - 4, n) {
            Some(s.take(n - 4) + c_items(csub(c_at(s, n - 4), c_at(s, n - 2))))
        } else {
            None
        },
        Instr::QAdd => if n >= 8 && valid_range(s, n - 8, n) {
            Some(s.take(n - 8) + q_items(qadd(q_at(s, n - 8), q_at(s, n - 4))))
        } else {
            None
        },
        Instr::QSub => if n >= 8 && valid_range(s, n - 8, n) {
            Some(s.take(n - 8) + q_items(qsub(q_at(s, n - 8), q_at(s, n - 4))))
        } else {
            None
        },
        Instr::QMul => if n >= 8 && valid_range(s, n - 8, n) {
            Some(s.take(n - 8) + q_items(qmul(q_at(s, n - 8), q_at(s, n - 4))))
        } else {
            None
        },
        Instr::QEqVerify => if n >= 8 && q_at(s, n - 8) == q_at(s, n - 4) {
            Some(s.take(n - 8))
        } else {
            None
        },
    }
}

/// Running a whole program: instructions execute in order; an abort stops
/// everything.
pub open spec fn run(s: Seq<u32>, p: Seq<Instr>) -> Option<Seq<u32>>
    decreases p.len(),
{
    if p.len() == 0 {
        Some(s)
    } else {
        match step(s, p[0]) {
            Some(s2) => run(s2, p.skip(1)),
            None => None,
        }
    }
}

/// Running a concatenation runs the first part, then the second.
pub proof fn lemma_run_app(s: Seq<u32>, p1: Seq<Instr>, p2: Seq<Instr>)
    ensures
        run(s, p1 + p2) == (match run(s, p1) {
            Some(t) => run(t, p2),
            None => None,
        }),
    decreases p1.len(),
{
    if p1.len() == 0 {
        assert((p1 + p2) =~= p2);
    } else {
        assert((p1 + p2)[0] == p1[0]);
        match step(s, p1[0]) {
            Some(s2) => {
                assert((p1 + p2).skip(1) =~= p1.skip(1) + p2);
                lemma_run_app(s2, p1.skip(1), p2);
            },
            None => {
            },
        }
    }
}

/// Applying a QM31 binary operation to a stack that ends in two QM31
/// element encodings.
pub proof fn lemma_q_binop(base: Seq<u32>, u: (int, int, int, int), w: (int, int, int, int))
    requires
        qvalid(u),
        qvalid(w),
    ensures
        step(base + q_items(u) + q_items(w), Instr::QAdd) == Some(base + q_items(qadd(u, w))),
        step(base + q_items(u) + q_items(w), Instr::QSub) == Some(base + q_items(qsub(u, w))),
        step(base + q_items(u) + q_items(w), Instr::QMul) == Some(base + q_items(qmul(u, w))),
        step(base + q_items(u) + q_items(w), Instr::QEqVerify) == (if u == w {
            Some(base)
        } else {
            Option::<Seq<u32>>::None
        }),
{
    let s = base + q_items(u) + q_items(w);
    let n: int = s.len() as int;
    assert(q_at(s, n - 8) == u);
    assert(q_at(s, n - 4) == w);
    assert(valid_range(s, n - 8, n));
    assert(s.take(n - 8) =~= base);
}

/// Applying a CM31 binary operation to a stack that ends in two CM31
/// element encodings.
pub proof fn lemma_c_binop(base: Seq<u32>, u: (int, int), w: (int, int))
    requires
        cvalid(u),
        cvalid(w),
    ensures
        step(base + c_items(u) + c_items(w), Instr::CMul) == Some(base + c_items(cmul(u, w))),
        step(base + c_items(u) + c_items(w), Instr::CSub) == Some(base + c_items(csub(u, w))),
{
    let s = base + c_items(u) + c_items(w);
    let n: int = s.len() as int;
    assert(c_at(s, n - 4) == u);
    assert(c_at(s, n - 2) == w);
    assert(valid_range(s, n - 4, n));
    assert(s.take(n - 4) =~= base);
}

/// A subrange taken entirely out of the middle part of a concatenation.
pub proof fn lemma_subrange_mid(pre: Seq<u32>, mid: Seq<u32>, post: Seq<u32>, o: int, k: int)
    requires
        0 <= o,
        0 <= k,
        o + k <= mid.len(),
    ensures
        (pre + mid + post).subrange(pre.len() + o, pre.len() + o + k) == mid.subrange(o, o + k),
{
    assert((pre + mid + post).subrange(pre.len() + o, pre.len() + o + k) =~= mid.subrange(
        o,
        o + k,
    ));
}

/// Concatenation of sequences is associative.
pub proof fn lemma_add_assoc(a: Seq<u32>, b: Seq<u32>, c: Seq<u32>)
    ensures
        (a + b) + c == a + (b + c),
{
    assert((a + b) + c =~= a + (b + c));
}

/// Appends a code fragment to a program under construction.
pub fn append_code(code: &mut Vec<Instr>, frag: Vec<Instr>)
    ensures
        final(code)@ == old(code)@ + frag@,
{
    let mut f = frag;
    code.append(&mut f);
}

/// Emits a single instruction as a fragment.
pub fn emit_one(ins: Instr) -> (frag: Vec<Instr>)
    ensures
        forall|s: Seq<u32>| #[trigger] run(s, frag@) == step(s, ins),
{
    let mut v: Vec<Instr> = Vec::new();
    v.push(ins);
    proof {
        assert forall|s: Seq<u32>| #[trigger] run(s, v@) == step(s, ins) by {
            assert(v@.skip(1) =~= Seq::<Instr>::empty());
            match step(s, ins) {
                Some(s2) => {
                    assert(run(s, v@) == run(s2, v@.skip(1)));
                },
                None => {
                },
            }
        }
    }
    v
}

/// Running a program extended by one instruction.
pub proof fn lemma_run_snoc(s: Seq<u32>, p: Seq<Instr>, ins: Instr)
    ensures
        run(s, p.push(ins)) == (match run(s, p) {
            Some(t) => step(t, ins),
            None => None,
        }),
    decreases p.len(),
{
    if p.len() == 0 {
        assert(p.push(ins)[0] == ins);
        assert(p.push(ins).skip(1) =~= Seq::<Instr>::empty());
        match step(s, ins) {
            Some(s2) => {
                assert(run(s, p.push(ins)) == run(s2, p.push(ins).skip(1)));
            },
            None => {
            },
        }
    } else {
        assert(p.push(ins)[0] == p[0]);
        match step(s, p[0]) {
            Some(s2) => {
                assert(p.push(ins).skip(1) =~= p.skip(1).push(ins));
                lemma_run_snoc(s2, p.skip(1), ins);
            },
            None => {
            },
        }
    }
}

/// Emits the four pushes that lay a QM31 value on the stack.
pub fn emit_push_q(x: &crate::field::QM31) -> (frag: Vec<Instr>)
    requires
        x.wf(),
    ensures
        frag@.len() == 4,
        forall|s: Seq<u32>| #[trigger] run(s, frag@) == Some(s + q_items(x.t())),
{
    let mut v: Vec<Instr> = Vec::new();
    v.push(Instr::PushItem(x.a));
    v.push(Instr::PushItem(x.b));
    v.push(Instr::PushItem(x.c));
    v.push(Instr::PushItem(x.d));
    proof {
        assert forall|s: Seq<u32>| #[trigger] run(s, v@) == Some(s + q_items(x.t())) by {
            let p0 = Seq::<Instr>::empty();
            let p1 = p0.push(Instr::PushItem(x.a));
            let p2 = p1.push(Instr::PushItem(x.b));
            let p3 = p2.push(Instr::PushItem(x.c));
            let p4 = p3.push(Instr::PushItem(x.d));
            lemma_run_snoc(s, p0, Instr::PushItem(x.a));
            lemma_run_snoc(s, p1, Instr::PushItem(x.b));
            lemma_run_snoc(s, p2, Instr::PushItem(x.c));
            lemma_run_snoc(s, p3, Instr::PushItem(x.d));
            assert(v@ =~= p4);
            assert(s.push(x.a).push(x.b).push(x.c).push(x.d) =~= s + q_items(x.t()));
        }
    }
    v
}

/// Emits the four picks that copy a QM31 value from depth `d` (depth of its
/// first component) onto the top of the stack.
pub fn emit_pick_q(d: usize) -> (frag: Vec<Instr>)
    requires
        d >= 3,
        d < usize::MAX,
    ensures
        frag@.len() == 4,
        forall|s: Seq<u32>|
            (d as int) < s.len() ==> #[trigger] run(s, frag@) == Some(
                s + s.subrange(s.len() - 1 - (d as int), s.len() + 3 - (d as int)),
            ),
{
    let mut v: Vec<Instr> = Vec::new();
    v.push(Instr::PickItem(d));
    v.push(Instr::PickItem(d));
    v.push(Instr::PickItem(d));
    v.push(Instr::PickItem(d));
    proof {
        assert forall|s: Seq<u32>| (d as int) < s.len() implies #[trigger] run(s, v@) == Some(
            s + s.subrange(s.len() - 1 - (d as int), s.len() + 3 - (d as int)),
        ) by {
            let k: int = s.len() - 1 - (d as int);
            let p0 = Seq::<Instr>::empty();
            let p1 = p0.push(Instr::PickItem(d));
            let p2 = p1.push(Instr::PickItem(d));
            let p3 = p2.push(Instr::PickItem(d));
            let p4 = p3.push(Instr::PickItem(d));
            lemma_run_snoc(s, p0, Instr::PickItem(d));
            lemma_run_snoc(s, p1, Instr::PickItem(d));
            lemma_run_snoc(s, p2, Instr::PickItem(d));
            lemma_run_snoc(s, p3, Instr::PickItem(d));
            assert(v@ =~= p4);
            assert(s.push(s[k]).push(s[k + 1]).push(s[k + 2]).push(s[k + 3]) =~= s + s.subrange(
                k,
                k + 4,
            ));
        }
    }
    v
}

/// Emits the two picks that copy a CM31 value from depth `d` (depth of its
/// first component) onto the top of the stack.
pub fn emit_pick_c(d: usize) -> (frag: Vec<Instr>)
    requires
        d >= 1,
        d < usize::MAX,
    ensures
        frag@.len() == 2,
        forall|s: Seq<u32>|
            (d as int) < s.len() ==> #[trigger] run(s, frag@) == Some(
                s + s.subrange(s.len() - 1 - (d as int), s.len() + 1 - (d as int)),
            ),
{
    let mut v: Vec<Instr> = Vec::new();
    v.push(Instr::PickItem(d));
    v.push(Instr::PickItem(d));
    proof {
        assert forall|s: Seq<u32>| (d as int) < s.len() implies #[trigger] run(s, v@) == Some(
            s + s.subrange(s.len() - 1 - (d as int), s.len() + 1 - (d as int)),
        ) by {
            let k: int = s.len() - 1 - (d as int);
            let p0 = Seq::<Instr>::empty();
            let p1 = p0.push(Instr::PickItem(d));
            let p2 = p1.push(Instr::PickItem(d));
            lemma_run_snoc(s, p0, Instr::PickItem(d));
            lemma_run_snoc(s, p1, Instr::PickItem(d));
            assert(v@ =~= p2);
            assert(s.push(s[k]).push(s[k + 1]) =~= s + s.subrange(k, k + 2));
        }
    }
    v
}

} // verus!
