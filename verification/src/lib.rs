//! Generator of loop-free stack-machine verifier programs for a FRI/STARK
//! proof over the M31 field. The library builds, as pure functions of the
//! public protocol parameters and of the proof-derived values, the
//! instruction sequences of the verifier pipeline: challenge layout,
//! preparation of evaluation coefficients, per-query quotient checks,
//! per-query proximity folding, and final stack cleanup. The semantics of
//! the instruction set is given as a specification-level interpreter, and
//! every generator's contract states exactly what running its output does
//! to any stack: the whole verifier program leaves exactly one success
//! marker when every query's folded value meets the last-layer constant,
//! and aborts otherwise.
use vstd::prelude::*;

pub mod field;
pub mod ir;
pub mod regions;
pub mod fiat_shamir;
pub mod prepare;
pub mod quotients;
pub mod fold;
pub mod interp;

use crate::fiat_shamir::FibonacciFiatShamirGadget;
use crate::fold::query_ok;
use crate::fold::FibonacciPerQueryFoldGadget;
use crate::ir::append_code;
use crate::ir::emit_one;
use crate::ir::lemma_run_app;
use crate::ir::q_items;
use crate::ir::run;
use crate::ir::Instr;
use crate::prepare::FibonacciPrepareGadget;
use crate::quotients::quotient_value;
use crate::quotients::FibonacciPerQueryQuotientGadget;
use crate::regions::full_region;
use crate::regions::lemma_full_region_len;
use crate::regions::VerifierInput;

verus! {

/// The trace log-size of the Fibonacci computation this verifier targets.
pub const FIB_LOG_SIZE: u32 = 5;

/// The number of proximity-argument queries, a public security parameter.
pub const N_QUERIES: usize = 3;

/// The first `k` queries' folded values meet the last-layer constant.
pub open spec fn all_queries_ok_upto(inp: VerifierInput, k: int) -> bool {
    forall|i: int| 0 <= i < k ==> query_ok(inp, i)
}

/// Every query passes: the condition under which the proof data is
/// consistent and verification succeeds.
pub open spec fn all_queries_ok(inp: VerifierInput) -> bool {
    all_queries_ok_upto(inp, inp.n_queries())
}

/// Flipping the expected last-layer constant of a consistent input to any
/// other value makes verification fail: the folded values never depend on
/// that constant, so every query now misses its terminal comparison.
pub proof fn lemma_last_layer_mutation(a: VerifierInput, b: VerifierInput)
    requires
        a.circle_poly_alpha == b.circle_poly_alpha,
        a.layers@ == b.layers@,
        a.queries@ == b.queries@,
        a.prepare == b.prepare,
        a.fold_hints@ == b.fold_hints@,
        b.last_layer.t() != a.last_layer.t(),
        all_queries_ok(a),
        a.n_queries() >= 1,
    ensures
        !all_queries_ok(b),
{
    crate::fold::lemma_fold_ignores_last_layer(a, b, 0, a.n_layers());
    assert(query_ok(a, 0));
    assert(!query_ok(b, 0));
}

/// A verifier program generator for the Fibonacci proof.
pub struct FibonacciVerifierGadget;

impl FibonacciVerifierGadget {
    /// Emits the whole verifier program: the challenge region, the
    /// prepared region, one quotient and one fold pass per query in index
    /// order, then the cleanup that removes every working item and leaves
    /// the single success marker. Run on an empty stack, the program ends
    /// with exactly one item — the success marker — when the proof data is
    /// consistent, and aborts otherwise; nothing else is left behind.
    pub fn run_verifier(inp: &VerifierInput) -> (code: Vec<Instr>)
        requires
            inp.wf(),
        ensures
            all_queries_ok(*inp) ==> run(Seq::empty(), code@) == Some(seq![1u32]),
            !all_queries_ok(*inp) ==> run(Seq::empty(), code@) == Option::<Seq<u32>>::None,
    {
        let n_l = inp.layers.len();
        let n_q = inp.queries.len();
        let fl: usize = 8 + 5 * n_l + 11 * n_q + 100;
        let ghost base0 = Seq::<u32>::empty();
        let ghost fr = full_region(*inp);
        proof {
            lemma_full_region_len(*inp);
        }
        // the challenge region, then the prepared region above it
        let mut code = FibonacciFiatShamirGadget::run(inp);
        let ghost c1 = code@;
        let f1 = FibonacciPrepareGadget::run(inp);
        let ghost f1s = f1@;
        append_code(&mut code, f1);
        proof {
            assert(run(base0, c1) == Some(base0 + crate::regions::fs_region(*inp)));
            lemma_run_app(base0, c1, f1s);
            assert(run(base0, code@) == Some(
                base0 + crate::regions::fs_region(*inp) + crate::regions::prepare_region(*inp),
            ));
            assert(base0 + crate::regions::fs_region(*inp) + crate::regions::prepare_region(*inp)
                =~= base0 + fr);
        }
        // one quotient and one fold pass per query, in index order
        let mut i: usize = 0;
        while i < n_q
            invariant
                inp.wf(),
                n_q == inp.queries@.len(),
                i <= n_q,
                base0 == Seq::<u32>::empty(),
                fr == full_region(*inp),
                all_queries_ok_upto(*inp, i as int) ==> run(base0, code@) == Some(base0 + fr),
                !all_queries_ok_upto(*inp, i as int) ==> run(base0, code@)
                    == Option::<Seq<u32>>::None,
            decreases n_q - i,
        {
            let ghost prev = code@;
            let fq = FibonacciPerQueryQuotientGadget::run(inp, i);
            let ghost fqs = fq@;
            append_code(&mut code, fq);
            let ghost mid = code@;
            let ff = FibonacciPerQueryFoldGadget::run(inp, i);
            let ghost ffs = ff@;
            append_code(&mut code, ff);
            proof {
                let ii = i as int;
                lemma_run_app(base0, prev, fqs);
                lemma_run_app(base0, mid, ffs);
                if all_queries_ok_upto(*inp, ii) {
                    assert(run(base0, prev) == Some(base0 + fr));
                    assert(run(base0 + fr, fqs) == Some(
                        base0 + fr + q_items(quotient_value(*inp, ii)),
                    ));
                    if query_ok(*inp, ii) {
                        assert(run(base0 + fr + q_items(quotient_value(*inp, ii)), ffs) == Some(
                            base0 + fr,
                        ));
                        assert(all_queries_ok_upto(*inp, ii + 1));
                    } else {
                        assert(!all_queries_ok_upto(*inp, ii + 1));
                    }
                } else {
                    assert(!all_queries_ok_upto(*inp, ii + 1));
                }
            }
            i = i + 1;
        }
        // stack hygiene: everything below goes, the success marker remains
        let ghost prev = code@;
        let f2 = emit_one(Instr::DropN(fl));
        let ghost f2s = f2@;
        append_code(&mut code, f2);
        let ghost mid = code@;
        let f3 = emit_one(Instr::PushItem(1));
        let ghost f3s = f3@;
        append_code(&mut code, f3);
        proof {
            lemma_run_app(base0, prev, f2s);
            lemma_run_app(base0, mid, f3s);
            if all_queries_ok(*inp) {
                assert((base0 + fr).len() == fl);
                assert((base0 + fr).take(0) =~= base0);
                assert(base0.push(1u32) =~= seq![1u32]);
            }
        }
        code
    }
}

} // verus!
