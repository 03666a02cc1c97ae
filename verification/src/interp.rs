//! A reference interpreter for the instruction set, verified against the
//! specification-level semantics: it returns exactly what `run` says, with
//! `None` for an aborted execution.
use vstd::prelude::*;

use crate::field::cmul;
use crate::field::cm31_mul;
use crate::field::csub;
use crate::field::m31_sub;
use crate::field::qadd;
use crate::field::qmul;
use crate::field::qsub;
use crate::field::QM31;
use crate::field::P;
use crate::ir::c_at;
use crate::ir::c_items;
use crate::ir::q_at;
use crate::ir::q_items;
use crate::ir::run;
use crate::ir::step;
use crate::ir::valid_range;
use crate::ir::Instr;

verus! {

/// Pops `n` items off the top.
fn pop_n(v: &mut Vec<u32>, n: usize)
    requires
        n <= old(v)@.len(),
    ensures
        final(v)@ == old(v)@.take(old(v)@.len() - n as int),
{
    let mut t: usize = 0;
    while t < n
        invariant
            t <= n,
            n <= old(v)@.len(),
            v@ == old(v)@.take(old(v)@.len() - t as int),
        decreases n - t,
    {
        proof {
            assert(v@.len() == old(v)@.len() - t);
        }
        v.pop();
        proof {
            assert(old(v)@.take(old(v)@.len() - t as int).drop_last() =~= old(v)@.take(
                old(v)@.len() - (t + 1) as int,
            ));
        }
        t = t + 1;
    }
}

/// Reads the QM31 element whose first component sits `k` items below the
/// top, checking that all four items are reduced residues.
fn read_q(v: &Vec<u32>, off: usize) -> (r: Option<QM31>)
    requires
        off + 4 <= v@.len(),
    ensures
        match r {
            Some(q) => {
                &&& q.wf()
                &&& q.t() == q_at(v@, off as int)
                &&& valid_range(v@, off as int, off as int + 4)
            },
            None => !valid_range(v@, off as int, off as int + 4),
        },
{
    let nlen = v.len();
    let a = v[off];
    let b = v[off + 1];
    let c = v[off + 2];
    let d = v[off + 3];
    if a < P && b < P && c < P && d < P {
        proof {
            assert forall|j: int| off <= j < off + 4 implies crate::field::mvalid(
                #[trigger] v@[j] as int,
            ) by {
            }
        }
        Some(QM31 { a, b, c, d })
    } else {
        None
    }
}

/// Pushes a QM31 element as four items.
fn push_q(v: &mut Vec<u32>, q: &QM31)
    ensures
        final(v)@ == old(v)@ + q_items(q.t()),
{
    v.push(q.a);
    v.push(q.b);
    v.push(q.c);
    v.push(q.d);
    proof {
        assert(old(v)@.push(q.a).push(q.b).push(q.c).push(q.d) =~= old(v)@ + q_items(q.t()));
    }
}

/// Executes one instruction; `None` is an abort.
#[verifier::rlimit(100)]
fn exec_step(v: &mut Vec<u32>, ins: Instr) -> (ok: bool)
    ensures
        ok ==> step(old(v)@, ins) == Some(final(v)@),
        !ok ==> step(old(v)@, ins) == Option::<Seq<u32>>::None,
{
    let n = v.len();
    match ins {
        Instr::PushItem(x) => {
            v.push(x);
            true
        },
        Instr::PickItem(d) => {
            if d < n {
                let x = v[n - 1 - d];
                v.push(x);
                true
            } else {
                false
            }
        },
        Instr::DropN(k) => {
            if k <= n {
                pop_n(v, k);
                true
            } else {
                false
            }
        },
        Instr::SweepQ(k) => {
            if k <= n && 4 <= n - k {
                let x3 = v[n - 4];
                let x2 = v[n - 3];
                let x1 = v[n - 2];
                let x0 = v[n - 1];
                pop_n(v, k + 4);
                v.push(x3);
                v.push(x2);
                v.push(x1);
                v.push(x0);
                proof {
                    assert(old(v)@.take(n - 4 - k as int).push(x3).push(x2).push(x1).push(x0)
                        =~= old(v)@.take(n - 4 - k as int) + old(v)@.skip(n - 4));
                }
                true
            } else {
                false
            }
        },
        Instr::CMul => {
            if n >= 4 {
                match read_q(v, n - 4) {
                    Some(q) => {
                        let r = cm31_mul(q.a, q.b, q.c, q.d);
                        proof {
                            assert(cmul(c_at(old(v)@, n - 4), c_at(old(v)@, n - 2)) == (
                                r.0 as int,
                                r.1 as int,
                            ));
                        }
                        pop_n(v, 4);
                        v.push(r.0);
                        v.push(r.1);
                        proof {
                            assert(old(v)@.take(n - 4).push(r.0).push(r.1) =~= old(v)@.take(n - 4)
                                + c_items((r.0 as int, r.1 as int)));
                        }
                        true
                    },
                    None => false,
                }
            } else {
                false
            }
        },
        Instr::CSub => {
            if n >= 4 {
                match read_q(v, n - 4) {
                    Some(q) => {
                        let r0 = m31_sub(q.a, q.c);
                        let r1 = m31_sub(q.b, q.d);
                        proof {
                            assert(csub(c_at(old(v)@, n - 4), c_at(old(v)@, n - 2)) == (
                                r0 as int,
                                r1 as int,
                            ));
                        }
                        pop_n(v, 4);
                        v.push(r0);
                        v.push(r1);
                        proof {
                            assert(old(v)@.take(n - 4).push(r0).push(r1) =~= old(v)@.take(n - 4)
                                + c_items((r0 as int, r1 as int)));
                        }
                        true
                    },
                    None => false,
                }
            } else {
                false
            }
        },
        Instr::QAdd | Instr::QSub | Instr::QMul => {
            if n >= 8 {
                let lo = read_q(v, n - 8);
                let hi = read_q(v, n - 4);
                match (lo, hi) {
                    (Some(x), Some(y)) => {
                        let r = match ins {
                            Instr::QAdd => QM31::add(&x, &y),
                            Instr::QSub => QM31::sub(&x, &y),
                            _ => QM31::mul(&x, &y),
                        };
                        proof {
                            assert(valid_range(old(v)@, n - 8, n as int));
                            assert(r.t() == match ins {
                                Instr::QAdd => qadd(q_at(old(v)@, n - 8), q_at(old(v)@, n - 4)),
                                Instr::QSub => qsub(q_at(old(v)@, n - 8), q_at(old(v)@, n - 4)),
                                _ => qmul(q_at(old(v)@, n - 8), q_at(old(v)@, n - 4)),
                            });
                        }
                        pop_n(v, 8);
                        push_q(v, &r);
                        true
                    },
                    _ => {
                        proof {
                            assert(!valid_range(old(v)@, n - 8, n as int));
                        }
                        false
                    },
                }
            } else {
                false
            }
        },
        Instr::QEqVerify => {
            if n >= 8 {
                let same = v[n - 8] == v[n - 4] && v[n - 7] == v[n - 3] && v[n - 6] == v[n - 2]
                    && v[n - 5] == v[n - 1];
                if same {
                    proof {
                        assert(q_at(v@, n - 8) == q_at(v@, n - 4));
                    }
                    pop_n(v, 8);
                    true
                } else {
                    proof {
                        assert(q_at(v@, n - 8) != q_at(v@, n - 4));
                    }
                    false
                }
            } else {
                false
            }
        },
    }
}

/// Runs a whole program on a starting stack; returns the final stack, or
/// `None` when execution aborts, exactly as the semantics says.
pub fn execute(prog: &Vec<Instr>, stack: Vec<u32>) -> (r: Option<Vec<u32>>)
    ensures
        match r {
            Some(v) => run(stack@, prog@) == Some(v@),
            None => run(stack@, prog@) == Option::<Seq<u32>>::None,
        },
{
    let ghost s0 = stack@;
    let mut cur = stack;
    let mut k: usize = 0;
    proof {
        assert(prog@.skip(0) =~= prog@);
    }
    while k < prog.len()
        invariant
            k <= prog@.len(),
            s0 == stack@,
            run(s0, prog@) == run(cur@, prog@.skip(k as int)),
        decreases prog@.len() - k,
    {
        let ins = prog[k];
        let ghost before = cur@;
        let ok = exec_step(&mut cur, ins);
        proof {
            assert(prog@.skip(k as int)[0] == prog@[k as int]);
            assert(prog@.skip(k as int).skip(1) =~= prog@.skip(k as int + 1));
        }
        if !ok {
            proof {
                assert(run(before, prog@.skip(k as int)) == Option::<Seq<u32>>::None);
            }
            return None;
        }
        k = k + 1;
    }
    proof {
        assert(prog@.skip(prog@.len() as int) =~= Seq::<Instr>::empty());
    }
    Some(cur)
}

} // verus!
