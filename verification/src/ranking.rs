//! Ranking blueprints by success rate, best first, as a stable sort on the
//! `f64` rate `times_succeeded / times_executed`.

use vstd::prelude::*;
use crate::model::Blueprint;
use crate::percent::{
    double_at_most, double_le, lemma_double_le_lex, lex_le, normal_or_zero, rate_double,
    success_rate_double,
};

verus! {

/// The `f64` success rate of a blueprint, as a double (0.0 when it never ran).
pub open spec fn rate_of(bp: Blueprint) -> (nat, nat) {
    rate_double(bp.times_succeeded as nat, bp.times_executed as nat)
}

/// Best first: no blueprint has a higher rate than one before it.
pub open spec fn ranked(bps: Seq<Blueprint>) -> bool {
    forall|i: int, j: int|
        0 <= i < j < bps.len() ==> double_le(rate_of(#[trigger] bps[j]), rate_of(#[trigger] bps[i]))
}

/// Two blueprints have the same rate.
pub open spec fn same_rate(a: Blueprint, b: Blueprint) -> bool {
    double_le(rate_of(a), rate_of(b)) && double_le(rate_of(b), rate_of(a))
}

/// `output` is `input` rearranged by `order` (`output[i] == input[order[i]]`,
/// each input used once), keeping blueprints of the same rate in their
/// input order.
pub open spec fn stable_arrangement(
    input: Seq<Blueprint>,
    output: Seq<Blueprint>,
    order: Seq<int>,
) -> bool {
    &&& order.len() == input.len()
    &&& output.len() == input.len()
    &&& order.no_duplicates()
    &&& forall|i: int|
        0 <= i < output.len() ==> 0 <= #[trigger] order[i] < input.len() && output[i]
            == input[order[i]]
    &&& forall|i: int, j: int|
        0 <= i < j < output.len() && same_rate(#[trigger] output[i], #[trigger] output[j])
            ==> order[i] < order[j]
}

/// `output` is `input` sorted by success rate, best first, stably: what
/// `sort_by` with a descending `partial_cmp` of the rates gives.
pub open spec fn ranking_of(input: Seq<Blueprint>, output: Seq<Blueprint>) -> bool {
    &&& ranked(output)
    &&& exists|order: Seq<int>| stable_arrangement(input, output, order)
}

/// The loop state of the insertion: `out` holds the first `i` inputs,
/// sorted (in the order of normalized doubles) and stable.
spec fn partial_ranking(input: Seq<Blueprint>, out: Seq<Blueprint>, order: Seq<int>, i: int) -> bool {
    &&& 0 <= i <= input.len()
    &&& out.len() == i
    &&& order.len() == i
    &&& order.no_duplicates()
    &&& forall|t: int| 0 <= t < i ==> normal_or_zero(rate_of(#[trigger] out[t]))
    &&& forall|t: int| 0 <= t < i ==> 0 <= #[trigger] order[t] < i && out[t] == input[order[t]]
    &&& forall|a: int, b: int|
        0 <= a < b < i ==> lex_le(rate_of(#[trigger] out[b]), rate_of(#[trigger] out[a]))
    &&& forall|a: int, b: int|
        0 <= a < b < i && lex_le(rate_of(#[trigger] out[a]), rate_of(#[trigger] out[b])) ==> order[a]
            < order[b]
}

proof fn lemma_insert_step(
    input: Seq<Blueprint>,
    out: Seq<Blueprint>,
    order: Seq<int>,
    i: int,
    p: int,
)
    requires
        partial_ranking(input, out, order, i),
        i < input.len(),
        0 <= p <= i,
        normal_or_zero(rate_of(input[i])),
        forall|t: int| 0 <= t < p ==> lex_le(rate_of(input[i]), rate_of(#[trigger] out[t])),
        p < i ==> !lex_le(rate_of(input[i]), rate_of(out[p])),
    ensures
        partial_ranking(input, out.insert(p, input[i]), order.insert(p, i), i + 1),
{
    let x = input[i];
    let out2 = out.insert(p, x);
    let order2 = order.insert(p, i);
    out.insert_ensures(p, x);
    order.insert_ensures(p, i);
    assert forall|t: int| 0 <= t < i + 1 implies normal_or_zero(rate_of(#[trigger] out2[t])) by {
        if t > p {
            assert(out2[t] == out[t - 1]);
        }
    }
    assert forall|t: int| 0 <= t < i + 1 implies 0 <= #[trigger] order2[t] < i + 1 && out2[t]
        == input[order2[t]] by {
        if t > p {
            assert(out2[t] == out[t - 1] && order2[t] == order[t - 1]);
        }
    }
    assert(order2.no_duplicates()) by {
        assert forall|a: int, b: int| 0 <= a < order2.len() && 0 <= b < order2.len() && a != b implies order2[a]
            != order2[b] by {
            let oa = if a < p { a } else if a == p { -1 } else { a - 1 };
            let ob = if b < p { b } else if b == p { -1 } else { b - 1 };
            if oa >= 0 {
                assert(order2[a] == order[oa]);
            }
            if ob >= 0 {
                assert(order2[b] == order[ob]);
            }
        }
    }
    assert forall|a: int, b: int| 0 <= a < b < i + 1 implies lex_le(
        rate_of(#[trigger] out2[b]),
        rate_of(#[trigger] out2[a]),
    ) by {
        if b < p {
            assert(out2[a] == out[a] && out2[b] == out[b]);
        } else if b == p {
            assert(out2[a] == out[a]);
        } else if a < p {
            assert(out2[a] == out[a] && out2[b] == out[b - 1]);
            assert(lex_le(rate_of(out[b - 1]), rate_of(out[p])));
        } else if a == p {
            assert(out2[b] == out[b - 1]);
            assert(lex_le(rate_of(out[b - 1]), rate_of(out[p])));
        } else {
            assert(out2[a] == out[a - 1] && out2[b] == out[b - 1]);
        }
    }
    assert forall|a: int, b: int|
        0 <= a < b < i + 1 && lex_le(
            rate_of(#[trigger] out2[a]),
            rate_of(#[trigger] out2[b]),
        ) implies order2[a] < order2[b] by {
        if b < p {
            assert(out2[a] == out[a] && out2[b] == out[b]);
            assert(order2[a] == order[a] && order2[b] == order[b]);
        } else if b == p {
            assert(order2[a] == order[a]);
        } else if a < p {
            assert(out2[a] == out[a] && out2[b] == out[b - 1]);
            assert(order2[a] == order[a] && order2[b] == order[b - 1]);
        } else if a == p {
            assert(out2[b] == out[b - 1]);
            assert(lex_le(rate_of(out[b - 1]), rate_of(out[p])));
        } else {
            assert(out2[a] == out[a - 1] && out2[b] == out[b - 1]);
            assert(order2[a] == order[a - 1] && order2[b] == order[b - 1]);
        }
    }
}

/// Rank blueprints by success rate, best first; blueprints of equal rate
/// keep their order.
pub fn rank_by_success_rate(blueprints: Vec<Blueprint>) -> (r: Vec<Blueprint>)
    ensures
        ranking_of(blueprints@, r@),
{
    let n = blueprints.len();
    let ghost input = blueprints@;
    let mut rest = blueprints;
    let mut out: Vec<Blueprint> = Vec::new();
    let mut keys: Vec<(u128, u128)> = Vec::new();
    let ghost mut order: Seq<int> = Seq::empty();
    let mut i: usize = 0;
    while i < n
        invariant
            n == input.len(),
            i <= n,
            rest@ == input.skip(i as int),
            keys@.len() == i,
            partial_ranking(input, out@, order, i as int),
            forall|t: int|
                0 <= t < i ==> (#[trigger] keys@[t].0 as nat, keys@[t].1 as nat) == rate_of(
                    out@[t],
                ),
        decreases n - i,
    {
        let bp = rest.remove(0);
        assert(bp == input[i as int]);
        assert(rest@ =~= input.skip(i + 1));
        let key = success_rate_double(bp.times_succeeded, bp.times_executed);
        let mut p: usize = 0;
        while p < keys.len() && double_at_most(key, keys[p])
            invariant
                p <= keys@.len(),
                keys@.len() == i,
                partial_ranking(input, out@, order, i as int),
                (key.0 as nat, key.1 as nat) == rate_of(bp),
                normal_or_zero(rate_of(bp)),
                forall|t: int|
                    0 <= t < i ==> (#[trigger] keys@[t].0 as nat, keys@[t].1 as nat) == rate_of(
                        out@[t],
                    ),
                forall|t: int| 0 <= t < p ==> lex_le(rate_of(bp), rate_of(#[trigger] out@[t])),
            decreases keys.len() - p,
        {
            proof {
                assert((keys@[p as int].0 as nat, keys@[p as int].1 as nat) == rate_of(
                    out@[p as int],
                ));
                lemma_double_le_lex(rate_of(bp), rate_of(out@[p as int]));
            }
            p = p + 1;
        }
        proof {
            if p < i {
                assert((keys@[p as int].0 as nat, keys@[p as int].1 as nat) == rate_of(
                    out@[p as int],
                ));
                lemma_double_le_lex(rate_of(bp), rate_of(out@[p as int]));
            }
            lemma_insert_step(input, out@, order, i as int, p as int);
        }
        let ghost old_keys = keys@;
        let ghost old_out = out@;
        out.insert(p, bp);
        keys.insert(p, key);
        proof {
            order = order.insert(p as int, i as int);
            old_keys.insert_ensures(p as int, key);
            old_out.insert_ensures(p as int, bp);
            assert forall|t: int| 0 <= t < i + 1 implies (#[trigger] keys@[t].0 as nat, keys@[t].1
                as nat) == rate_of(out@[t]) by {
                if t > p {
                    assert(keys@[t] == old_keys[t - 1] && out@[t] == old_out[t - 1]);
                }
            }
        }
        i = i + 1;
    }
    proof {
        assert forall|a: int, b: int| 0 <= a < b < out@.len() implies double_le(
            rate_of(#[trigger] out@[b]),
            rate_of(#[trigger] out@[a]),
        ) by {
            lemma_double_le_lex(rate_of(out@[b]), rate_of(out@[a]));
        }
        assert forall|a: int, b: int|
            0 <= a < b < out@.len() && same_rate(
                #[trigger] out@[a],
                #[trigger] out@[b],
            ) implies order[a] < order[b] by {
            lemma_double_le_lex(rate_of(out@[a]), rate_of(out@[b]));
        }
        assert(stable_arrangement(input, out@, order));
    }
    out
}

} // verus!
