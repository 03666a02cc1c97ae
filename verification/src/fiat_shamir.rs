//! The Fiat-Shamir stage: lays the replayed transcript challenges and the
//! proof's raw openings onto the stack in the fixed protocol order. The
//! challenges themselves are re-derived from the transcript by the caller
//! (the transcript primitive is an outside collaborator); this stage owns
//! the exact order and width of everything it writes.
use vstd::prelude::*;

use crate::field::QM31;
use crate::ir::append_code;
use crate::ir::emit_one;
use crate::ir::emit_push_q;
use crate::ir::lemma_run_app;
use crate::ir::q_items;
use crate::ir::run;
use crate::ir::Instr;
use crate::regions::comp_one_items;
use crate::regions::comp_items;
use crate::regions::fs_region;
use crate::regions::indices_items;
use crate::regions::layer_items;
use crate::regions::layers_items;
use crate::regions::trace_items;
use crate::regions::FriLayer;
use crate::regions::QueryOpenings;
use crate::regions::VerifierInput;

verus! {

/// Emits one layer entry: the commitment item, then the folding challenge.
fn emit_layer(l: &FriLayer) -> (frag: Vec<Instr>)
    requires
        l.wf(),
    ensures
        forall|s: Seq<u32>| #[trigger] run(s, frag@) == Some(s + layer_items(*l)),
{
    let mut frag = emit_one(Instr::PushItem(l.commitment));
    let ghost c1 = frag@;
    let tail = emit_push_q(&l.alpha);
    let ghost tl = tail@;
    append_code(&mut frag, tail);
    proof {
        assert forall|s: Seq<u32>| #[trigger] run(s, frag@) == Some(s + layer_items(*l)) by {
            lemma_run_app(s, c1, tl);
            assert(s.push(l.commitment) + q_items(l.alpha.t()) =~= s + layer_items(*l));
        }
    }
    frag
}

/// Emits the eight opened composition values of one query.
fn emit_comp(q: &QueryOpenings) -> (frag: Vec<Instr>)
    ensures
        forall|s: Seq<u32>| #[trigger] run(s, frag@) == Some(s + comp_one_items(*q)),
{
    let mut v: Vec<Instr> = Vec::new();
    v.push(Instr::PushItem(q.comp0));
    v.push(Instr::PushItem(q.comp1));
    v.push(Instr::PushItem(q.comp2));
    v.push(Instr::PushItem(q.comp3));
    v.push(Instr::PushItem(q.comp4));
    v.push(Instr::PushItem(q.comp5));
    v.push(Instr::PushItem(q.comp6));
    v.push(Instr::PushItem(q.comp7));
    proof {
        assert forall|s: Seq<u32>| #[trigger] run(s, v@) == Some(s + comp_one_items(*q)) by {
            let mut p = Seq::<Instr>::empty();
            crate::ir::lemma_run_snoc(s, p, Instr::PushItem(q.comp0));
            crate::ir::lemma_run_snoc(s, p.push(Instr::PushItem(q.comp0)), Instr::PushItem(q.comp1));
            let p2 = p.push(Instr::PushItem(q.comp0)).push(Instr::PushItem(q.comp1));
            crate::ir::lemma_run_snoc(s, p2, Instr::PushItem(q.comp2));
            let p3 = p2.push(Instr::PushItem(q.comp2));
            crate::ir::lemma_run_snoc(s, p3, Instr::PushItem(q.comp3));
            let p4 = p3.push(Instr::PushItem(q.comp3));
            crate::ir::lemma_run_snoc(s, p4, Instr::PushItem(q.comp4));
            let p5 = p4.push(Instr::PushItem(q.comp4));
            crate::ir::lemma_run_snoc(s, p5, Instr::PushItem(q.comp5));
            let p6 = p5.push(Instr::PushItem(q.comp5));
            crate::ir::lemma_run_snoc(s, p6, Instr::PushItem(q.comp6));
            let p7 = p6.push(Instr::PushItem(q.comp6));
            crate::ir::lemma_run_snoc(s, p7, Instr::PushItem(q.comp7));
            assert(v@ =~= p7.push(Instr::PushItem(q.comp7)));
            assert(s.push(q.comp0).push(q.comp1).push(q.comp2).push(q.comp3).push(q.comp4).push(
                q.comp5,
            ).push(q.comp6).push(q.comp7) =~= s + comp_one_items(*q));
        }
    }
    v
}

/// The Fiat-Shamir stage of the verifier pipeline.
pub struct FibonacciFiatShamirGadget;

impl FibonacciFiatShamirGadget {
    /// Emits the whole challenge region: the circle-poly combination
    /// coefficient, one (commitment, challenge) pair per layer, the
    /// expected last-layer constant, then per query the sampled index, the
    /// opened trace values and the opened composition values. Running the
    /// result on any stack pushes exactly that region.
    pub fn run(inp: &VerifierInput) -> (code: Vec<Instr>)
        requires
            inp.wf(),
        ensures
            forall|s: Seq<u32>| #[trigger] run(s, code@) == Some(s + fs_region(*inp)),
    {
        let n_layers = inp.layers.len();
        let n_queries = inp.queries.len();
        let mut code = emit_push_q(&inp.circle_poly_alpha);
        let ghost base = q_items(inp.circle_poly_alpha.t());

        let mut l: usize = 0;
        while l < n_layers
            invariant
                inp.wf(),
                n_layers == inp.layers@.len(),
                l <= n_layers,
                base == q_items(inp.circle_poly_alpha.t()),
                forall|s: Seq<u32>| #[trigger] run(s, code@) == Some(
                    s + base + layers_items(inp.layers@.take(l as int)),
                ),
            decreases n_layers - l,
        {
            let ghost prev = code@;
            let frag = emit_layer(&inp.layers[l]);
            let ghost fr = frag@;
            append_code(&mut code, frag);
            proof {
                let lt = inp.layers@.take(l + 1);
                assert(lt.drop_last() =~= inp.layers@.take(l as int));
                assert(lt.last() == inp.layers@[l as int]);
                assert forall|s: Seq<u32>| #[trigger] run(s, code@) == Some(
                    s + base + layers_items(inp.layers@.take(l + 1)),
                ) by {
                    lemma_run_app(s, prev, fr);
                    assert(s + base + layers_items(inp.layers@.take(l as int)) + layer_items(
                        inp.layers@[l as int],
                    ) =~= s + base + layers_items(lt));
                }
            }
            l = l + 1;
        }
        proof {
            assert(inp.layers@.take(n_layers as int) =~= inp.layers@);
        }
        let ghost base2 = base + layers_items(inp.layers@);

        let ghost prev = code@;
        let frag = emit_push_q(&inp.last_layer);
        let ghost fr = frag@;
        append_code(&mut code, frag);
        proof {
            assert forall|s: Seq<u32>| #[trigger] run(s, code@) == Some(
                s + base2 + q_items(inp.last_layer.t()),
            ) by {
                lemma_run_app(s, prev, fr);
                assert(s + base + layers_items(inp.layers@) + q_items(inp.last_layer.t()) =~= s
                    + base2 + q_items(inp.last_layer.t()));
            }
        }
        let ghost base3 = base2 + q_items(inp.last_layer.t());

        let mut i: usize = 0;
        while i < n_queries
            invariant
                inp.wf(),
                n_queries == inp.queries@.len(),
                i <= n_queries,
                forall|s: Seq<u32>| #[trigger] run(s, code@) == Some(
                    s + base3 + indices_items(inp.queries@.take(i as int)),
                ),
            decreases n_queries - i,
        {
            let ghost prev2 = code@;
            let frag2 = emit_one(Instr::PushItem(inp.queries[i].index));
            let ghost fr2 = frag2@;
            append_code(&mut code, frag2);
            proof {
                let qt = inp.queries@.take(i + 1);
                assert(qt.drop_last() =~= inp.queries@.take(i as int));
                assert(qt.last() == inp.queries@[i as int]);
                assert forall|s: Seq<u32>| #[trigger] run(s, code@) == Some(
                    s + base3 + indices_items(inp.queries@.take(i + 1)),
                ) by {
                    lemma_run_app(s, prev2, fr2);
                    assert((s + base3 + indices_items(inp.queries@.take(i as int))).push(
                        inp.queries@[i as int].index,
                    ) =~= s + base3 + indices_items(qt));
                }
            }
            i = i + 1;
        }
        proof {
            assert(inp.queries@.take(n_queries as int) =~= inp.queries@);
        }
        let ghost base4 = base3 + indices_items(inp.queries@);

        let mut i: usize = 0;
        while i < n_queries
            invariant
                inp.wf(),
                n_queries == inp.queries@.len(),
                i <= n_queries,
                forall|s: Seq<u32>| #[trigger] run(s, code@) == Some(
                    s + base4 + trace_items(inp.queries@.take(i as int)),
                ),
            decreases n_queries - i,
        {
            let ghost prev2 = code@;
            let frag2 = emit_one(Instr::PushItem(inp.queries[i].trace0));
            let ghost fr2 = frag2@;
            append_code(&mut code, frag2);
            let ghost mid = code@;
            let frag3 = emit_one(Instr::PushItem(inp.queries[i].trace1));
            let ghost fr3 = frag3@;
            append_code(&mut code, frag3);
            proof {
                let qt = inp.queries@.take(i + 1);
                assert(qt.drop_last() =~= inp.queries@.take(i as int));
                assert(qt.last() == inp.queries@[i as int]);
                assert forall|s: Seq<u32>| #[trigger] run(s, code@) == Some(
                    s + base4 + trace_items(inp.queries@.take(i + 1)),
                ) by {
                    lemma_run_app(s, prev2, fr2);
                    lemma_run_app(s, mid, fr3);
                    assert(mid =~= prev2 + fr2);
                    lemma_run_app(s, prev2, fr2 + fr3);
                    assert((s + base4 + trace_items(inp.queries@.take(i as int))).push(
                        inp.queries@[i as int].trace0,
                    ).push(inp.queries@[i as int].trace1) =~= s + base4 + trace_items(qt));
                }
            }
            i = i + 1;
        }
        proof {
            assert(inp.queries@.take(n_queries as int) =~= inp.queries@);
        }
        let ghost base5 = base4 + trace_items(inp.queries@);

        let mut i: usize = 0;
        while i < n_queries
            invariant
                inp.wf(),
                n_queries == inp.queries@.len(),
                i <= n_queries,
                forall|s: Seq<u32>| #[trigger] run(s, code@) == Some(
                    s + base5 + comp_items(inp.queries@.take(i as int)),
                ),
            decreases n_queries - i,
        {
            let ghost prev2 = code@;
            let frag2 = emit_comp(&inp.queries[i]);
            let ghost fr2 = frag2@;
            append_code(&mut code, frag2);
            proof {
                let qt = inp.queries@.take(i + 1);
                assert(qt.drop_last() =~= inp.queries@.take(i as int));
                assert(qt.last() == inp.queries@[i as int]);
                assert forall|s: Seq<u32>| #[trigger] run(s, code@) == Some(
                    s + base5 + comp_items(inp.queries@.take(i + 1)),
                ) by {
                    lemma_run_app(s, prev2, fr2);
                    assert(s + base5 + comp_items(inp.queries@.take(i as int)) + comp_one_items(
                        inp.queries@[i as int],
                    ) =~= s + base5 + comp_items(qt));
                }
            }
            i = i + 1;
        }
        proof {
            assert(inp.queries@.take(n_queries as int) =~= inp.queries@);
            assert forall|s: Seq<u32>| #[trigger] run(s, code@) == Some(s + fs_region(*inp)) by {
                assert(s + base5 + comp_items(inp.queries@) =~= s + fs_region(*inp));
            }
        }
        code
    }
}

} // verus!
