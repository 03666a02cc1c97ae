//! The per-query fold stage: starting from the query's quotient seed, the
//! emitted code halves the claim across every proximity-argument layer. At
//! each layer it combines the running value with the authenticated sibling
//! opening, orients the pair by the query position's bit in that layer,
//! scales the difference by the inverse twiddle and the layer's folding
//! challenge, and sweeps the consumed values away; after the last layer it
//! compares the result against the expected last-layer constant and aborts
//! on mismatch.
use vstd::prelude::*;

use crate::field::lemma_qadd_valid;
use crate::field::lemma_qmul_valid;
use crate::field::lemma_qsub_valid;
use crate::field::qadd;
use crate::field::qmul;
use crate::field::qsub;
use crate::field::qvalid;
use crate::ir::append_code;
use crate::ir::emit_one;
use crate::ir::emit_pick_q;
use crate::ir::emit_push_q;
use crate::ir::lemma_add_assoc;
use crate::ir::lemma_q_binop;
use crate::ir::lemma_run_app;
use crate::ir::lemma_subrange_mid;
use crate::ir::q_items;
use crate::ir::run;
use crate::ir::step;
use crate::ir::Instr;
use crate::quotients::lemma_partial_valid;
use crate::quotients::quotient_value;
use crate::regions::full_region;
use crate::regions::lemma_full_alpha_at;
use crate::regions::lemma_full_last_at;
use crate::regions::lemma_full_region_len;
use crate::regions::VerifierInput;

verus! {

/// The query position after `l` halvings.
pub open spec fn fold_pos(index: int, l: int) -> int
    decreases l,
{
    if l <= 0 {
        index
    } else {
        fold_pos(index, l - 1) / 2
    }
}

/// The orientation bit of the query position in layer `l`.
pub open spec fn fold_bit(index: int, l: int) -> int {
    fold_pos(index, l) % 2
}

/// One folding step: with the pair (x, y) ordered by the position bit, the
/// next value is (x - y) * itwiddle * alpha + (x + y).
pub open spec fn fold_step(inp: VerifierInput, i: int, l: int, cur: (int, int, int, int)) -> (
    int,
    int,
    int,
    int,
) {
    let sib = inp.fold_hints@[i].siblings@[l].t();
    let itw = inp.fold_hints@[i].itwiddles@[l].t();
    let alpha = inp.layers@[l].alpha.t();
    let x = if fold_bit(inp.queries@[i].index as int, l) == 0 {
        cur
    } else {
        sib
    };
    let y = if fold_bit(inp.queries@[i].index as int, l) == 0 {
        sib
    } else {
        cur
    };
    qadd(qmul(qmul(qsub(x, y), itw), alpha), qadd(x, y))
}

/// The query value after the first `l` layers, starting from the seed.
pub open spec fn fold_upto(inp: VerifierInput, i: int, l: int) -> (int, int, int, int)
    decreases l,
{
    if l <= 0 {
        quotient_value(inp, i)
    } else {
        fold_step(inp, i, l - 1, fold_upto(inp, i, l - 1))
    }
}

/// The fully folded value of query `i`.
pub open spec fn fold_final(inp: VerifierInput, i: int) -> (int, int, int, int) {
    fold_upto(inp, i, inp.n_layers())
}

/// Query `i` passes exactly when its folded value meets the last-layer
/// constant.
pub open spec fn query_ok(inp: VerifierInput, i: int) -> bool {
    fold_final(inp, i) == inp.last_layer.t()
}

pub proof fn lemma_fold_upto_valid(inp: VerifierInput, i: int, l: int)
    requires
        inp.wf(),
        0 <= i < inp.n_queries(),
        0 <= l <= inp.n_layers(),
    ensures
        qvalid(fold_upto(inp, i, l)),
    decreases l,
{
    if l <= 0 {
        lemma_partial_valid(inp, i, 7);
    } else {
        lemma_fold_upto_valid(inp, i, l - 1);
        let cur = fold_upto(inp, i, l - 1);
        let sib = inp.fold_hints@[i].siblings@[l - 1].t();
        let itw = inp.fold_hints@[i].itwiddles@[l - 1].t();
        let alpha = inp.layers@[l - 1].alpha.t();
        assert(inp.fold_hints@[i].siblings@[l - 1].wf());
        assert(inp.fold_hints@[i].itwiddles@[l - 1].wf());
        assert(inp.layers@[l - 1].wf());
        let x = if fold_bit(inp.queries@[i].index as int, l - 1) == 0 {
            cur
        } else {
            sib
        };
        let y = if fold_bit(inp.queries@[i].index as int, l - 1) == 0 {
            sib
        } else {
            cur
        };
        lemma_qsub_valid(x, y);
        lemma_qmul_valid(qsub(x, y), itw);
        lemma_qmul_valid(qmul(qsub(x, y), itw), alpha);
        lemma_qadd_valid(x, y);
        lemma_qadd_valid(qmul(qmul(qsub(x, y), itw), alpha), qadd(x, y));
    }
}

/// The folded value never reads the expected last-layer constant: two
/// inputs that agree on everything else agree on every folded value.
pub proof fn lemma_fold_ignores_last_layer(a: VerifierInput, b: VerifierInput, i: int, l: int)
    requires
        a.circle_poly_alpha == b.circle_poly_alpha,
        a.layers@ == b.layers@,
        a.queries@ == b.queries@,
        a.prepare == b.prepare,
        a.fold_hints@ == b.fold_hints@,
        0 <= l,
    ensures
        fold_upto(a, i, l) == fold_upto(b, i, l),
    decreases l,
{
    if l <= 0 {
        crate::quotients::lemma_quotient_same(a, b, i, 7);
    } else {
        lemma_fold_ignores_last_layer(a, b, i, l - 1);
        assert(fold_step(a, i, l - 1, fold_upto(a, i, l - 1)) == fold_step(
            b,
            i,
            l - 1,
            fold_upto(b, i, l - 1),
        ));
    }
}

/// Emits the first half of one layer: pushes the sibling, orients the
/// pair, and scales the difference by the inverse twiddle and the layer
/// challenge, leaving that product above the untouched pair.
#[verifier::rlimit(100)]
fn emit_layer_scale(inp: &VerifierInput, i: usize, l: usize, odd: bool) -> (frag: Vec<Instr>)
    requires
        inp.wf(),
        i < inp.queries@.len(),
        l < inp.layers@.len(),
        odd <==> fold_bit(inp.queries@[i as int].index as int, l as int) == 1,
    ensures
        forall|s: Seq<u32>|
            #[trigger] run(
                s + full_region(*inp) + q_items(fold_upto(*inp, i as int, l as int)),
                frag@,
            ) == Some(
                s + full_region(*inp) + q_items(fold_upto(*inp, i as int, l as int)) + q_items(
                    inp.fold_hints@[i as int].siblings@[l as int].t(),
                ) + q_items(layer_m2(*inp, i as int, l as int)),
            ),
{
    let n_l = inp.layers.len();
    let n_q = inp.queries.len();
    let fsl: usize = 8 + 5 * n_l + 11 * n_q;
    let fl: usize = fsl + 100;
    let ghost ii = i as int;
    let ghost ll = l as int;
    let ghost fr = full_region(*inp);
    let ghost cur = fold_upto(*inp, ii, ll);
    let ghost sib = inp.fold_hints@[ii].siblings@[ll].t();
    let ghost itw = inp.fold_hints@[ii].itwiddles@[ll].t();
    let ghost alpha = inp.layers@[ll].alpha.t();
    let ghost xv = if fold_bit(inp.queries@[ii].index as int, ll) == 0 {
        cur
    } else {
        sib
    };
    let ghost yv = if fold_bit(inp.queries@[ii].index as int, ll) == 0 {
        sib
    } else {
        cur
    };
    proof {
        lemma_full_region_len(*inp);
        lemma_fold_upto_valid(*inp, ii, ll);
        assert(inp.fold_hints@[ii].siblings@[ll].wf());
        assert(inp.fold_hints@[ii].itwiddles@[ll].wf());
        assert(inp.layers@[ll].wf());
        lemma_qsub_valid(xv, yv);
        lemma_qmul_valid(qsub(xv, yv), itw);
        lemma_qmul_valid(qmul(qsub(xv, yv), itw), alpha);
    }
    // the sibling opening
    let sib_e = &inp.fold_hints[i].siblings[l];
    let mut code = emit_push_q(sib_e);
    proof {
        assert forall|s: Seq<u32>| #[trigger] run(s + fr + q_items(cur), code@) == Some(
            s + fr + q_items(cur) + q_items(sib),
        ) by {
        }
    }
    // the oriented pair
    let (d_x, d_y): (usize, usize) = if odd {
        (3, 11)
    } else {
        (7, 7)
    };
    let ghost c1 = code@;
    let p1 = emit_pick_q(d_x);
    let ghost p1s = p1@;
    append_code(&mut code, p1);
    let ghost c2 = code@;
    let p2 = emit_pick_q(d_y);
    let ghost p2s = p2@;
    append_code(&mut code, p2);
    let ghost c3 = code@;
    let f3 = emit_one(Instr::QSub);
    let ghost f3s = f3@;
    append_code(&mut code, f3);
    proof {
        assert forall|s: Seq<u32>| #[trigger] run(s + fr + q_items(cur), code@) == Some(
            s + fr + q_items(cur) + q_items(sib) + q_items(qsub(xv, yv)),
        ) by {
            let st = s + fr + q_items(cur);
            let b2 = st + q_items(sib);
            lemma_run_app(st, c1, p1s);
            lemma_run_app(st, c2, p2s);
            lemma_run_app(st, c3, f3s);
            assert(b2.subrange(b2.len() - 1 - (d_x as int), b2.len() + 3 - (d_x as int))
                =~= q_items(xv));
            let b3 = b2 + q_items(xv);
            assert(b3.subrange(b3.len() - 1 - (d_y as int), b3.len() + 3 - (d_y as int))
                =~= q_items(yv));
            lemma_q_binop(b2, xv, yv);
        }
    }
    // scaled by the inverse twiddle
    let itw_e = &inp.fold_hints[i].itwiddles[l];
    let ghost c4 = code@;
    let f4 = emit_push_q(itw_e);
    let ghost f4s = f4@;
    append_code(&mut code, f4);
    let ghost c5 = code@;
    let f5 = emit_one(Instr::QMul);
    let ghost f5s = f5@;
    append_code(&mut code, f5);
    proof {
        assert forall|s: Seq<u32>| #[trigger] run(s + fr + q_items(cur), code@) == Some(
            s + fr + q_items(cur) + q_items(sib) + q_items(qmul(qsub(xv, yv), itw)),
        ) by {
            let st = s + fr + q_items(cur);
            let b2 = st + q_items(sib);
            lemma_run_app(st, c4, f4s);
            lemma_run_app(st, c5, f5s);
            lemma_q_binop(b2, qsub(xv, yv), itw);
        }
    }
    // scaled by the layer's folding challenge
    let d_alpha: usize = fl - 1 - (5 + 5 * l) + 12;
    let ghost c6 = code@;
    let f6 = emit_pick_q(d_alpha);
    let ghost f6s = f6@;
    append_code(&mut code, f6);
    let ghost c7 = code@;
    let f7 = emit_one(Instr::QMul);
    let ghost f7s = f7@;
    append_code(&mut code, f7);
    proof {
        lemma_full_alpha_at(*inp, ll);
        assert forall|s: Seq<u32>| #[trigger] run(s + fr + q_items(cur), code@) == Some(
            s + fr + q_items(cur) + q_items(sib) + q_items(layer_m2(*inp, ii, ll)),
        ) by {
            let st = s + fr + q_items(cur);
            let b2 = st + q_items(sib);
            lemma_run_app(st, c6, f6s);
            lemma_run_app(st, c7, f7s);
            let m1 = qmul(qsub(xv, yv), itw);
            let b3 = b2 + q_items(m1);
            assert(b3.len() - 1 - (d_alpha as int) == s.len() + 5 + 5 * ll);
            lemma_add_assoc(s + fr, q_items(cur), q_items(sib));
            lemma_add_assoc(s, fr, q_items(cur) + q_items(sib));
            lemma_add_assoc(s + fr, q_items(cur) + q_items(sib), q_items(m1));
            lemma_add_assoc(s, fr, (q_items(cur) + q_items(sib)) + q_items(m1));
            lemma_subrange_mid(
                s,
                fr,
                ((q_items(cur) + q_items(sib)) + q_items(m1)),
                5 + 5 * ll,
                4,
            );
            assert(b3.subrange(s.len() + 5 + 5 * ll, s.len() + 9 + 5 * ll) == q_items(alpha));
            lemma_q_binop(b2, m1, alpha);
        }
    }
    code
}

/// The scaled difference of one layer: (x - y) * itwiddle * alpha.
pub open spec fn layer_m2(inp: VerifierInput, i: int, l: int) -> (int, int, int, int) {
    let cur = fold_upto(inp, i, l);
    let sib = inp.fold_hints@[i].siblings@[l].t();
    let itw = inp.fold_hints@[i].itwiddles@[l].t();
    let alpha = inp.layers@[l].alpha.t();
    let x = if fold_bit(inp.queries@[i].index as int, l) == 0 {
        cur
    } else {
        sib
    };
    let y = if fold_bit(inp.queries@[i].index as int, l) == 0 {
        sib
    } else {
        cur
    };
    qmul(qmul(qsub(x, y), itw), alpha)
}

/// Emits the second half of one layer: adds the oriented pair onto the
/// scaled difference and sweeps the consumed pair away, leaving the next
/// layer's value alone above the region.
#[verifier::rlimit(100)]
fn emit_layer_finish(inp: &VerifierInput, i: usize, l: usize, odd: bool) -> (frag: Vec<Instr>)
    requires
        inp.wf(),
        i < inp.queries@.len(),
        l < inp.layers@.len(),
        odd <==> fold_bit(inp.queries@[i as int].index as int, l as int) == 1,
    ensures
        forall|s: Seq<u32>|
            #[trigger] run(
                s + full_region(*inp) + q_items(fold_upto(*inp, i as int, l as int)) + q_items(
                    inp.fold_hints@[i as int].siblings@[l as int].t(),
                ) + q_items(layer_m2(*inp, i as int, l as int)),
                frag@,
            ) == Some(s + full_region(*inp) + q_items(fold_upto(*inp, i as int, l as int + 1))),
{
    let ghost ii = i as int;
    let ghost ll = l as int;
    let ghost fr = full_region(*inp);
    let ghost cur = fold_upto(*inp, ii, ll);
    let ghost sib = inp.fold_hints@[ii].siblings@[ll].t();
    let ghost itw = inp.fold_hints@[ii].itwiddles@[ll].t();
    let ghost alpha = inp.layers@[ll].alpha.t();
    let ghost m2 = layer_m2(*inp, ii, ll);
    let ghost xv = if fold_bit(inp.queries@[ii].index as int, ll) == 0 {
        cur
    } else {
        sib
    };
    let ghost yv = if fold_bit(inp.queries@[ii].index as int, ll) == 0 {
        sib
    } else {
        cur
    };
    proof {
        lemma_full_region_len(*inp);
        lemma_fold_upto_valid(*inp, ii, ll);
        assert(inp.fold_hints@[ii].siblings@[ll].wf());
        assert(inp.fold_hints@[ii].itwiddles@[ll].wf());
        assert(inp.layers@[ll].wf());
        lemma_qsub_valid(xv, yv);
        lemma_qmul_valid(qsub(xv, yv), itw);
        lemma_qmul_valid(qmul(qsub(xv, yv), itw), alpha);
        lemma_qadd_valid(xv, yv);
    }
    // the oriented pair again, summed
    let (d_x, d_y): (usize, usize) = if odd {
        (7, 15)
    } else {
        (11, 11)
    };
    let mut code = emit_pick_q(d_x);
    let ghost c1 = code@;
    let p2 = emit_pick_q(d_y);
    let ghost p2s = p2@;
    append_code(&mut code, p2);
    let ghost c2 = code@;
    let f3 = emit_one(Instr::QAdd);
    let ghost f3s = f3@;
    append_code(&mut code, f3);
    let ghost c3 = code@;
    let f4 = emit_one(Instr::QAdd);
    let ghost f4s = f4@;
    append_code(&mut code, f4);
    let ghost c4 = code@;
    let f5 = emit_one(Instr::SweepQ(8));
    let ghost f5s = f5@;
    append_code(&mut code, f5);
    proof {
        assert forall|s: Seq<u32>|
            #[trigger] run(
                s + fr + q_items(cur) + q_items(sib) + q_items(m2),
                code@,
            ) == Some(s + fr + q_items(fold_upto(*inp, ii, ll + 1))) by {
            let base = s + fr;
            let stin = base + q_items(cur) + q_items(sib) + q_items(m2);
            lemma_run_app(stin, c1, p2s);
            lemma_run_app(stin, c2, f3s);
            lemma_run_app(stin, c3, f4s);
            lemma_run_app(stin, c4, f5s);
            assert(stin.subrange(stin.len() - 1 - (d_x as int), stin.len() + 3 - (d_x as int))
                =~= q_items(xv));
            let st2 = stin + q_items(xv);
            assert(st2.subrange(st2.len() - 1 - (d_y as int), st2.len() + 3 - (d_y as int))
                =~= q_items(yv));
            lemma_q_binop(stin, xv, yv);
            lemma_q_binop(base + q_items(cur) + q_items(sib), m2, qadd(xv, yv));
            let nxt = qadd(m2, qadd(xv, yv));
            assert(nxt == fold_upto(*inp, ii, ll + 1));
            let st3 = base + q_items(cur) + q_items(sib) + q_items(nxt);
            assert(st3.len() >= 12);
            assert(step(st3, Instr::SweepQ(8)) == Some(
                st3.take(st3.len() - 12) + st3.skip(st3.len() - 4),
            ));
            assert(st3.take(st3.len() - 12) =~= base);
            assert(st3.skip(st3.len() - 4) =~= q_items(nxt));
        }
    }
    code
}

/// The per-query fold stage of the verifier pipeline.
pub struct FibonacciPerQueryFoldGadget;

impl FibonacciPerQueryFoldGadget {
    /// Emits the folding of query `i`: running it on the working region
    /// with the query's quotient seed on top consumes the seed, folds it
    /// across every layer, and verifies the result against the last-layer
    /// constant; on mismatch the program aborts.
    pub fn run(inp: &VerifierInput, i: usize) -> (code: Vec<Instr>)
        requires
            inp.wf(),
            i < inp.queries@.len(),
        ensures
            forall|s: Seq<u32>|
                #[trigger] run(
                    s + full_region(*inp) + q_items(quotient_value(*inp, i as int)),
                    code@,
                ) == (if query_ok(*inp, i as int) {
                    Some(s + full_region(*inp))
                } else {
                    Option::<Seq<u32>>::None
                }),
    {
        let n_l = inp.layers.len();
        let n_q = inp.queries.len();
        let fsl: usize = 8 + 5 * n_l + 11 * n_q;
        let fl: usize = fsl + 100;
        let ghost ii = i as int;
        let ghost fr = full_region(*inp);
        let ghost seed = quotient_value(*inp, ii);
        let mut code: Vec<Instr> = Vec::new();
        let mut pos: u32 = inp.queries[i].index;
        let mut l: usize = 0;
        proof {
            assert(q_items(fold_upto(*inp, ii, 0)) == q_items(seed));
        }
        while l < n_l
            invariant
                inp.wf(),
                i < inp.queries@.len(),
                ii == i as int,
                fr == full_region(*inp),
                seed == quotient_value(*inp, ii),
                n_l == inp.layers@.len(),
                l <= n_l,
                pos as int == fold_pos(inp.queries@[ii].index as int, l as int),
                forall|s: Seq<u32>| #[trigger] run(s + fr + q_items(seed), code@) == Some(
                    s + fr + q_items(fold_upto(*inp, ii, l as int)),
                ),
            decreases n_l - l,
        {
            let odd: bool = pos % 2 == 1;
            let ghost prev = code@;
            let f1 = emit_layer_scale(inp, i, l, odd);
            let ghost f1s = f1@;
            append_code(&mut code, f1);
            let ghost mid = code@;
            let f2 = emit_layer_finish(inp, i, l, odd);
            let ghost f2s = f2@;
            append_code(&mut code, f2);
            proof {
                assert forall|s: Seq<u32>| #[trigger] run(s + fr + q_items(seed), code@) == Some(
                    s + fr + q_items(fold_upto(*inp, ii, l as int + 1)),
                ) by {
                    lemma_run_app(s + fr + q_items(seed), prev, f1s);
                    lemma_run_app(s + fr + q_items(seed), mid, f2s);
                }
            }
            pos = pos / 2;
            l = l + 1;
        }
        // the terminal comparison against the last-layer constant
        let ghost fin = fold_upto(*inp, ii, n_l as int);
        let d_last: usize = fl - 1 - (4 + 5 * n_l) + 4;
        let ghost prev = code@;
        let f6 = emit_pick_q(d_last);
        let ghost f6s = f6@;
        append_code(&mut code, f6);
        let ghost mid = code@;
        let f7 = emit_one(Instr::QEqVerify);
        let ghost f7s = f7@;
        append_code(&mut code, f7);
        proof {
            lemma_full_region_len(*inp);
            lemma_full_last_at(*inp);
            lemma_fold_upto_valid(*inp, ii, n_l as int);
            assert forall|s: Seq<u32>|
                #[trigger] run(s + fr + q_items(seed), code@) == (if query_ok(*inp, ii) {
                    Some(s + fr)
                } else {
                    Option::<Seq<u32>>::None
                }) by {
                let base = s + fr;
                let stin = base + q_items(fin);
                lemma_run_app(s + fr + q_items(seed), prev, f6s);
                lemma_run_app(s + fr + q_items(seed), mid, f7s);
                assert(stin.len() - 1 - (d_last as int) == s.len() + 4 + 5 * (n_l as int));
                lemma_subrange_mid(s, fr, q_items(fin), 4 + 5 * (n_l as int), 4);
                assert(stin.subrange(
                    s.len() + 4 + 5 * (n_l as int),
                    s.len() + 8 + 5 * (n_l as int),
                ) == q_items(inp.last_layer.t()));
                lemma_q_binop(base, fin, inp.last_layer.t());
                if fin == inp.last_layer.t() {
                    assert(query_ok(*inp, ii));
                } else {
                    assert(!query_ok(*inp, ii));
                }
            }
        }
        code
    }
}

} // verus!
