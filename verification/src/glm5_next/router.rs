//! Feed-forward parts of the GLM-5.3-Flash text model: MLP sizes and expert routing.

use vstd::arithmetic::div_mod::{lemma_fundamental_div_mod, lemma_fundamental_div_mod_converse};
use vstd::prelude::*;
use vstd::set_lib::lemma_len_subset;

use super::decode::lemma_all_chosen;
use super::Glm5NextTextConfig;
use crate::error::LmError;
use crate::float::{F32, F64};
use crate::indices::is_among;
use crate::topk::{is_topk, no_nan, order_key, topk_last_dim};

verus! {

/// Sizes of a dense or shared-expert MLP.
#[derive(Debug, Clone, Copy, PartialEq, Eq, Structural)]
pub struct Glm5NextMLP {
    pub hidden_size: usize,
    pub intermediate_size: usize,
    /// Bound of the clamped gate.
    pub limit: F64,
}

impl Glm5NextMLP {
    pub fn new(hidden_size: usize, intermediate_size: usize, swiglu_limit: F64) -> (r: Self)
        ensures
            r.hidden_size == hidden_size,
            r.intermediate_size == intermediate_size,
            r.limit == swiglu_limit,
    {
        Glm5NextMLP { hidden_size, intermediate_size, limit: swiglu_limit }
    }
}

/// Negative infinity.
pub const NEG_INF_BITS: u32 = 0xFF80_0000;

/// Scores with every expert outside the chosen groups at negative infinity.
pub open spec fn masked_experts(scores: Seq<F32>, per_group: int, groups: Seq<usize>) -> Seq<F32> {
    Seq::new(
        scores.len(),
        |e: int|
            if groups.contains((e / per_group) as usize) {
                scores[e]
            } else {
                F32 { bits: 0xFF80_0000 }
            },
    )
}

/// Grouped top-k routing: experts are split into equal groups, the groups with the
/// highest scores are chosen, and the highest-scoring experts within them.
#[derive(Debug, Clone, Copy, PartialEq, Eq, Structural)]
pub struct Glm5NextTopkRouter {
    pub top_k: usize,
    pub num_experts: usize,
    pub hidden: usize,
    pub num_group: usize,
    pub topk_group: usize,
    pub norm_topk_prob: bool,
    pub routed_scaling_factor: F64,
}

impl Glm5NextTopkRouter {
    pub fn new(cfg: &Glm5NextTextConfig) -> (r: Self)
        ensures
            r.top_k == cfg.num_experts_per_tok,
            r.num_experts == cfg.n_routed_experts,
            r.hidden == cfg.hidden_size,
            r.num_group == cfg.n_group,
            r.topk_group == cfg.topk_group,
            r.norm_topk_prob == cfg.norm_topk_prob,
            r.routed_scaling_factor == cfg.routed_scaling_factor,
    {
        Glm5NextTopkRouter {
            top_k: cfg.num_experts_per_tok,
            num_experts: cfg.n_routed_experts,
            hidden: cfg.hidden_size,
            num_group: cfg.n_group,
            topk_group: cfg.topk_group,
            norm_topk_prob: cfg.norm_topk_prob,
            routed_scaling_factor: cfg.routed_scaling_factor,
        }
    }

    /// Experts per group.
    pub open spec fn per_group(&self) -> int {
        (self.num_experts / self.num_group) as int
    }

    /// Why a token cannot be routed by groups, if it cannot: the experts must split
    /// evenly into groups of at least two.
    pub open spec fn grouping_error(&self) -> Option<LmError> {
        if self.num_experts % self.num_group != 0 {
            Some(LmError::ExpertGroups { experts: self.num_experts, groups: self.num_group })
        } else if self.num_experts / self.num_group < 2 {
            Some(LmError::TopkWidth { k: 2, len: (self.num_experts / self.num_group) as usize })
        } else {
            None
        }
    }

    /// The two best experts of every group; the score of a group is the sum of
    /// theirs.
    pub fn group_tops(&self, scores: &Vec<F32>) -> (r: Result<Vec<(usize, usize)>, LmError>)
        requires
            self.num_group > 0,
            scores@.len() == self.num_experts,
            self.num_experts <= u32::MAX,
            no_nan(scores@),
        ensures
            match self.grouping_error() {
                Some(e) => r == Err::<Vec<(usize, usize)>, LmError>(e),
                None => r is Ok && r->Ok_0@.len() == self.num_group && forall|g: int|
                    0 <= g < self.num_group ==> is_topk(
                        scores@.subrange(g * self.per_group(), (g + 1) * self.per_group()),
                        2,
                        seq![
                            ((#[trigger] r->Ok_0@[g]).0 - g * self.per_group()) as usize,
                            (r->Ok_0@[g].1 - g * self.per_group()) as usize,
                        ],
                    ),
            },
            r is Ok ==> self.all_led(scores@, r->Ok_0@),
    {
        if self.num_experts % self.num_group != 0 {
            return Err(
                LmError::ExpertGroups { experts: self.num_experts, groups: self.num_group },
            );
        }
        let per: usize = self.num_experts / self.num_group;
        if per < 2 {
            return Err(LmError::TopkWidth { k: 2, len: per });
        }
        proof {
            lemma_fundamental_div_mod(self.num_experts as int, self.num_group as int);
        }
        let mut out: Vec<(usize, usize)> = Vec::with_capacity(self.num_group);
        let mut g: usize = 0;
        while g < self.num_group
            invariant
                g <= self.num_group,
                self.num_group > 0,
                scores@.len() == self.num_experts,
                self.num_experts <= u32::MAX,
                no_nan(scores@),
                per == self.per_group(),
                per >= 2,
                self.num_experts == self.num_group * per,
                out@.len() == g,
                forall|a: int|
                    0 <= a < g ==> is_topk(
                        scores@.subrange(a * self.per_group(), (a + 1) * self.per_group()),
                        2,
                        seq![
                            ((#[trigger] out@[a]).0 - a * self.per_group()) as usize,
                            (out@[a].1 - a * self.per_group()) as usize,
                        ],
                    ),
                forall|a: int|
                    0 <= a < g ==> (#[trigger] out@[a]).0 >= a * self.per_group() && out@[a].1 >= a
                        * self.per_group(),
            decreases self.num_group - g,
        {
            proof {
                assert(0 <= g * per && g * per + per <= self.num_group * per && (g + 1) * per == g
                    * per + per) by (nonlinear_arith)
                    requires
                        0 <= g < self.num_group,
                        per >= 0,
                ;
            }
            let start: usize = g * per;
            let ghost part = scores@.subrange(start as int, start + per);
            let mut row: Vec<F32> = Vec::with_capacity(per);
            let mut i: usize = 0;
            while i < per
                invariant
                    i <= per,
                    start + per <= scores@.len(),
                    scores@.len() <= u32::MAX,
                    part == scores@.subrange(start as int, start + per),
                    row@.len() == i,
                    forall|x: int| 0 <= x < i ==> #[trigger] row@[x] == part[x],
                decreases per - i,
            {
                row.push(scores[start + i]);
                i = i + 1;
            }
            proof {
                assert(row@ =~= part);
                assert forall|x: int| 0 <= x < part.len() implies !(#[trigger] part[x]).is_nan() by {
                    assert(part[x] == scores@[start + x]);
                }
            }
            let best: Vec<usize> = match topk_last_dim(&row, 2) {
                Ok(best) => best,
                Err(e) => {
                    return Err(e);
                },
            };
            proof {
                assert(best@[0] < part.len() && best@[1] < part.len());
                assert(best@ =~= seq![best@[0], best@[1]]);
            }
            out.push((start + best[0], start + best[1]));
            g = g + 1;
        }
        proof {
            assert forall|e: int| 0 <= e < self.num_experts implies #[trigger] self.is_led(
                scores@,
                out@,
                e,
            ) by {
                law_group_tops(self, scores@, out@, e);
            }
        }
        Ok(out)
    }

    /// Every expert is led by the pair of its group.
    pub open spec fn all_led(&self, scores: Seq<F32>, tops: Seq<(usize, usize)>) -> bool {
        forall|e: int| 0 <= e < self.num_experts ==> #[trigger] self.is_led(scores, tops, e)
    }

    /// The pair of the group of expert `e` are two experts of that group, best first, and
    /// `e` is one of them or scores no higher than either.
    pub open spec fn is_led(&self, scores: Seq<F32>, tops: Seq<(usize, usize)>, e: int) -> bool {
        let per = self.num_experts as int / self.num_group as int;
        let pair = tops[e / per];
        &&& pair.0 as int / per == e / per
        &&& pair.1 as int / per == e / per
        &&& pair.0 < scores.len()
        &&& pair.1 < scores.len()
        &&& pair.0 != pair.1
        &&& order_key(scores[pair.0 as int]) >= order_key(scores[pair.1 as int])
        &&& e == pair.0 || e == pair.1 || order_key(scores[e]) <= order_key(
            scores[pair.1 as int],
        )
    }

    /// Chooses `top_k` experts for a token from its expert scores and its group
    /// scores.
    pub fn forward(&self, scores: &Vec<F32>, group_scores: &Vec<F32>) -> (r: Result<
        Vec<usize>,
        LmError,
    >)
        requires
            self.num_group > 0,
            self.num_experts <= u32::MAX,
            scores@.len() == self.num_experts,
            group_scores@.len() == self.num_group,
            self.num_group <= u32::MAX,
            no_nan(scores@),
            no_nan(group_scores@),
        ensures
            self.grouping_error() is Some ==> r == Err::<Vec<usize>, LmError>(
                self.grouping_error()->Some_0,
            ),
            self.grouping_error() is None && self.topk_group > self.num_group ==> r == Err::<
                Vec<usize>,
                LmError,
            >(LmError::TopkWidth { k: self.topk_group, len: self.num_group }),
            self.grouping_error() is None && self.topk_group <= self.num_group && self.top_k
                > self.num_experts ==> r == Err::<Vec<usize>, LmError>(
                LmError::TopkWidth { k: self.top_k, len: self.num_experts },
            ),
            self.grouping_error() is None && self.topk_group <= self.num_group && self.top_k
                <= self.num_experts ==> r is Ok && self.routes(scores@, group_scores@, r->Ok_0@),
            r is Ok ==> exists|groups: Seq<usize>|
                #[trigger] is_topk(group_scores@, self.topk_group as nat, groups) && forall|
                    e: int,
                    i: int,
                |
                    0 <= e < self.num_experts && 0 <= i < self.top_k && groups.contains(
                        (e / (self.num_experts as int / self.num_group as int)) as usize,
                    ) && !#[trigger] r->Ok_0@.contains(e as usize) ==> order_key(scores@[e])
                        <= order_key(scores@[#[trigger] r->Ok_0@[i] as int]),
            r is Ok && self.topk_group == self.num_group ==> is_topk(
                scores@,
                self.top_k as nat,
                r->Ok_0@,
            ),
    {
        if self.num_experts % self.num_group != 0 {
            return Err(
                LmError::ExpertGroups { experts: self.num_experts, groups: self.num_group },
            );
        }
        let per: usize = self.num_experts / self.num_group;
        if per < 2 {
            return Err(LmError::TopkWidth { k: 2, len: per });
        }
        let groups: Vec<usize> = match topk_last_dim(group_scores, self.topk_group) {
            Ok(groups) => groups,
            Err(e) => {
                return Err(e);
            },
        };
        let ghost masked = masked_experts(scores@, per as int, groups@);
        let mut ranked: Vec<F32> = Vec::with_capacity(scores.len());
        let mut e: usize = 0;
        while e < scores.len()
            invariant
                e <= scores@.len(),
                per >= 2,
                scores@.len() <= u32::MAX,
                no_nan(scores@),
                masked == masked_experts(scores@, per as int, groups@),
                ranked@.len() == e,
                forall|x: int| 0 <= x < e ==> #[trigger] ranked@[x] == masked[x],
            decreases scores@.len() - e,
        {
            if is_among(&groups, e / per) {
                ranked.push(scores[e]);
            } else {
                ranked.push(F32 { bits: NEG_INF_BITS });
            }
            e = e + 1;
        }
        proof {
            assert(ranked@ =~= masked);
            assert forall|x: int| 0 <= x < masked.len() implies !(#[trigger] masked[x]).is_nan() by {
                assert(!scores@[x].is_nan());
            }
        }
        let r: Result<Vec<usize>, LmError> = topk_last_dim(&ranked, self.top_k);
        proof {
            if r is Ok {
                lemma_fundamental_div_mod(self.num_experts as int, self.num_group as int);
                assert(self.routes(scores@, group_scores@, r->Ok_0@));
                law_routing_takes_the_best(self, scores@, group_scores@, r->Ok_0@);
                if self.topk_group == self.num_group {
                    law_routing_without_groups(self, scores@, group_scores@, r->Ok_0@);
                }
            }
        }
        r
    }

    /// `chosen` are the best experts of the best groups.
    pub open spec fn routes(
        &self,
        scores: Seq<F32>,
        group_scores: Seq<F32>,
        chosen: Seq<usize>,
    ) -> bool {
        exists|groups: Seq<usize>| #[trigger]
            is_topk(group_scores, self.topk_group as nat, groups) && is_topk(
                masked_experts(scores, self.per_group(), groups),
                self.top_k as nat,
                chosen,
            )
    }
}

/// The two experts that stand for a group lead it: every expert of the group is one of
/// them or scores no higher than either.
pub proof fn law_group_tops(
    router: &Glm5NextTopkRouter,
    scores: Seq<F32>,
    tops: Seq<(usize, usize)>,
    e: int,
)
    requires
        router.num_group > 0,
        router.num_experts == router.num_group * (router.num_experts as int
            / router.num_group as int),
        scores.len() == router.num_experts,
        tops.len() == router.num_group,
        forall|g: int|
            0 <= g < router.num_group ==> is_topk(
                scores.subrange(g * router.per_group(), (g + 1) * router.per_group()),
                2,
                seq![
                    ((#[trigger] tops[g]).0 - g * router.per_group()) as usize,
                    (tops[g].1 - g * router.per_group()) as usize,
                ],
            ),
        forall|g: int|
            0 <= g < router.num_group ==> (#[trigger] tops[g]).0 >= g * router.per_group()
                && tops[g].1 >= g * router.per_group(),
        0 <= e < router.num_experts,
    ensures
        ({
            let per = router.num_experts as int / router.num_group as int;
            let pair = tops[e / per];
            &&& pair.0 as int / per == e / per
            &&& pair.1 as int / per == e / per
            &&& pair.0 < scores.len()
            &&& pair.1 < scores.len()
            &&& pair.0 != pair.1
            &&& order_key(scores[pair.0 as int]) >= order_key(scores[pair.1 as int])
            &&& e == pair.0 || e == pair.1 || order_key(scores[e]) <= order_key(
                scores[pair.1 as int],
            )
        }),
{
    let per = router.num_experts as int / router.num_group as int;
    let n = router.num_group as int;
    assert(per > 0) by (nonlinear_arith)
        requires
            0 <= e < n * per,
            n > 0,
    ;
    lemma_fundamental_div_mod(e, per);
    let g = e / per;
    let t = e % per;
    assert(0 <= g < n) by (nonlinear_arith)
        requires
            e == per * g + t,
            0 <= t < per,
            0 <= e < n * per,
    ;
    assert(0 <= g * per && (g + 1) * per == g * per + per && g * per + per <= n * per && per * g
        == g * per) by (nonlinear_arith)
        requires
            0 <= g < n,
            per > 0,
    ;
    let part = scores.subrange(g * per, (g + 1) * per);
    let pair = tops[g];
    let a = (pair.0 - g * per) as usize;
    let b = (pair.1 - g * per) as usize;
    let best = seq![a, b];
    assert(is_topk(part, 2, best));
    assert(best[0] < part.len() && best[1] < part.len() && best[0] != best[1]);
    lemma_fundamental_div_mod_converse(pair.0 as int, per, g, a as int);
    lemma_fundamental_div_mod_converse(pair.1 as int, per, g, b as int);
    assert(part[a as int] == scores[pair.0 as int] && part[b as int] == scores[pair.1 as int]);
    assert(order_key(part[best[0] as int]) >= order_key(part[best[1] as int]));
    if e != pair.0 && e != pair.1 {
        assert(!best.contains(t as usize)) by {
            if best.contains(t as usize) {
                let x = choose|x: int| 0 <= x < 2 && best[x] == t as usize;
                assert(x == 0 || x == 1);
            }
        }
        assert(part[t] == scores[e]);
        assert(order_key(part[t]) <= order_key(part[best[1] as int]));
    }
}

/// Routing takes the best: within the chosen groups no expert that is left out scores
/// higher than one that is chosen.
pub proof fn law_routing_takes_the_best(
    router: &Glm5NextTopkRouter,
    scores: Seq<F32>,
    group_scores: Seq<F32>,
    chosen: Seq<usize>,
)
    requires
        router.num_group > 0,
        scores.len() == router.num_experts,
        no_nan(scores),
        router.routes(scores, group_scores, chosen),
    ensures
        exists|groups: Seq<usize>|
            #[trigger] is_topk(group_scores, router.topk_group as nat, groups) && forall|
                e: int,
                i: int,
            |
                0 <= e < router.num_experts && 0 <= i < router.top_k && groups.contains(
                    (e / (router.num_experts as int / router.num_group as int)) as usize,
                ) && !#[trigger] chosen.contains(e as usize) ==> order_key(scores[e]) <= order_key(
                    scores[#[trigger] chosen[i] as int],
                ),
        chosen.len() == router.top_k,
        forall|i: int| 0 <= i < chosen.len() ==> #[trigger] chosen[i] < router.num_experts,
        forall|i: int, j: int|
            0 <= i < j < chosen.len() ==> #[trigger] chosen[i] != #[trigger] chosen[j],
{
    let per = router.per_group();
    let groups = choose|groups: Seq<usize>| #[trigger]
        is_topk(group_scores, router.topk_group as nat, groups) && is_topk(
            masked_experts(scores, per, groups),
            router.top_k as nat,
            chosen,
        );
    let masked = masked_experts(scores, per, groups);
    let low = F32 { bits: 0xFF80_0000 };
    assert(order_key(low) == -0x7F80_0000);
    assert forall|e: int, i: int|
        0 <= e < router.num_experts && 0 <= i < router.top_k && groups.contains(
            (e / (router.num_experts as int / router.num_group as int)) as usize,
        ) && !#[trigger] chosen.contains(e as usize) implies order_key(scores[e]) <= order_key(
        scores[#[trigger] chosen[i] as int],
    ) by {
        let c = chosen[i] as int;
        assert(chosen[i] < masked.len());
        assert(order_key(masked[e]) <= order_key(masked[c]));
        assert(masked[e] == scores[e]);
        // An expert outside the groups ranks at negative infinity, below every number.
        assert(!scores[c].is_nan());
    }
}

/// Where every group is chosen, routing takes the experts with the highest scores of all.
pub proof fn law_routing_without_groups(
    router: &Glm5NextTopkRouter,
    scores: Seq<F32>,
    group_scores: Seq<F32>,
    chosen: Seq<usize>,
)
    requires
        router.num_group > 0,
        router.num_experts == router.num_group * (router.num_experts as int
            / router.num_group as int),
        router.topk_group == router.num_group,
        scores.len() == router.num_experts,
        group_scores.len() == router.num_group,
        router.routes(scores, group_scores, chosen),
    ensures
        is_topk(scores, router.top_k as nat, chosen),
{
    let per = router.num_experts as int / router.num_group as int;
    let n = router.num_group as int;
    let groups = choose|groups: Seq<usize>| #[trigger]
        is_topk(group_scores, router.topk_group as nat, groups) && is_topk(
            masked_experts(scores, router.per_group(), groups),
            router.top_k as nat,
            chosen,
        );
    let masked = masked_experts(scores, router.per_group(), groups);
    assert forall|e: int| 0 <= e < scores.len() implies #[trigger] masked[e] == scores[e] by {
        assert(per > 0) by (nonlinear_arith)
            requires
                0 <= e < n * per,
                n > 0,
        ;
        lemma_fundamental_div_mod(e, per);
        let g = e / per;
        let t = e % per;
        assert(0 <= g < n) by (nonlinear_arith)
            requires
                e == per * g + t,
                0 <= t < per,
                0 <= e < n * per,
        ;
        lemma_all_chosen(router.num_group as nat, groups, g);
    }
    assert(masked =~= scores);
}

/// Expert `x` of the chosen groups, counted group by group.
spec fn grouped_expert(groups: Seq<usize>, per: int, x: int) -> int {
    groups[x / per] * per + x % per
}

/// Routing stays within the chosen groups: where they hold enough experts and no
/// score is negative infinity, every chosen expert belongs to a chosen group.
pub proof fn law_routing_stays_in_groups(
    router: &Glm5NextTopkRouter,
    scores: Seq<F32>,
    groups: Seq<usize>,
    chosen: Seq<usize>,
    i: int,
)
    requires
        router.num_group > 0,
        router.num_experts == router.num_group * router.per_group(),
        router.per_group() > 0,
        scores.len() == router.num_experts,
        forall|e: int| 0 <= e < scores.len() ==> order_key(#[trigger] scores[e]) > -0x7F80_0000,
        groups.len() == router.topk_group,
        forall|a: int| 0 <= a < groups.len() ==> #[trigger] groups[a] < router.num_group,
        forall|a: int, b: int|
            0 <= a < b < groups.len() ==> #[trigger] groups[a] != #[trigger] groups[b],
        router.top_k <= router.topk_group * router.per_group(),
        is_topk(
            masked_experts(scores, router.per_group(), groups),
            router.top_k as nat,
            chosen,
        ),
        0 <= i < chosen.len(),
    ensures
        groups.contains((chosen[i] as int / router.per_group()) as usize),
{
    let per = router.per_group();
    let masked = masked_experts(scores, per, groups);
    let bad = chosen[i] as int;
    assert(chosen[i] < masked.len());
    let low = F32 { bits: 0xFF80_0000 };
    assert(order_key(low) == -0x7F80_0000);
    if !groups.contains((bad / per) as usize) {
        assert(masked[bad] == low);
        let n = (groups.len() * per) as nat;
        assert(n >= 0) by (nonlinear_arith)
            requires
                n == groups.len() * per,
                per > 0,
        ;
        let live = Seq::new(n, |x: int| grouped_expert(groups, per, x));
        assert forall|x: int| 0 <= x < n implies 0 <= x / per < groups.len() && 0 <= #[trigger]
            live[x] < scores.len() && live[x] / per == groups[x / per] && live[x] % per == x
            % per by {
            lemma_fundamental_div_mod(x, per);
            let q = x / per;
            let t = x % per;
            assert(0 <= q < groups.len()) by (nonlinear_arith)
                requires
                    x == per * q + t,
                    0 <= t < per,
                    0 <= x < groups.len() * per,
                    per > 0,
            ;
            let g = groups[q] as int;
            assert(0 <= g < router.num_group);
            lemma_fundamental_div_mod_converse(g * per + t, per, g, t);
            assert(0 <= g * per && g * per + per <= router.num_group * per) by (nonlinear_arith)
                requires
                    0 <= g < router.num_group,
                    per > 0,
            ;
        }
        assert(live.no_duplicates()) by {
            assert forall|x: int, y: int| 0 <= x < n && 0 <= y < n && x != y implies live[x]
                != live[y] by {
                if live[x] == live[y] {
                    let a = x / per;
                    let b = y / per;
                    assert(groups[a] == groups[b] && x % per == y % per);
                    if a < b {
                        assert(groups[a] != groups[b]);
                    } else if b < a {
                        assert(groups[b] != groups[a]);
                    }
                    lemma_fundamental_div_mod(x, per);
                    lemma_fundamental_div_mod(y, per);
                    assert(x == y);
                }
            }
        }
        let ids = Seq::new(chosen.len(), |u: int| chosen[u] as int);
        let set = ids.to_set();
        live.unique_seq_to_set();
        ids.lemma_cardinality_of_set();
        vstd::seq_lib::seq_to_set_is_finite(ids);
        vstd::seq_lib::seq_to_set_is_finite(live);
        assert(ids[i] == bad);
        assert forall|e: int| live.to_set().insert(bad).contains(e) implies set.contains(e) by {
            if e != bad {
                let x = choose|x: int| 0 <= x < live.len() && live[x] == e;
                assert(live[x] / per == groups[x / per]);
                assert(groups.contains((e / per) as usize));
                assert(masked[e] == scores[e]);
                assert(order_key(scores[e]) > -0x7F80_0000);
                if !chosen.contains(e as usize) {
                    assert(order_key(masked[e]) <= order_key(masked[chosen[i] as int]));
                }
                let u = choose|u: int| 0 <= u < chosen.len() && chosen[u] == e as usize;
                assert(ids[u] == e);
            }
        }
        assert(!live.to_set().contains(bad)) by {
            if live.to_set().contains(bad) {
                let x = choose|x: int| 0 <= x < live.len() && live[x] == bad;
                assert(live[x] / per == groups[x / per]);
                assert(groups.contains((bad / per) as usize));
            }
        }
        lemma_len_subset(live.to_set().insert(bad), set);
    }
}

/// Routed and shared experts of a sparse layer.
#[derive(Debug, Clone, Copy, PartialEq, Eq, Structural)]
pub struct Glm5NextTextMoE {
    pub gate: Glm5NextTopkRouter,
    pub shared_experts: Glm5NextMLP,
}

impl Glm5NextTextMoE {
    /// The sizes that the configuration gives.
    pub open spec fn built(&self, cfg: &Glm5NextTextConfig) -> bool {
        &&& self.gate.top_k == cfg.num_experts_per_tok
        &&& self.gate.num_experts == cfg.n_routed_experts
        &&& self.gate.hidden == cfg.hidden_size
        &&& self.gate.num_group == cfg.n_group
        &&& self.gate.topk_group == cfg.topk_group
        &&& self.gate.norm_topk_prob == cfg.norm_topk_prob
        &&& self.gate.routed_scaling_factor == cfg.routed_scaling_factor
        &&& self.shared_experts.hidden_size == cfg.hidden_size
        &&& self.shared_experts.intermediate_size == cfg.moe_intermediate_size
            * cfg.n_shared_experts
        &&& self.shared_experts.limit == cfg.swiglu_limit
    }

    /// The shared MLP is as wide as all shared experts together.
    pub fn new(cfg: &Glm5NextTextConfig) -> (r: Self)
        requires
            cfg.moe_intermediate_size * cfg.n_shared_experts <= usize::MAX,
        ensures
            r.built(cfg),
            r.shared_experts.intermediate_size == cfg.moe_intermediate_size * cfg.n_shared_experts,
            r.shared_experts.limit == cfg.swiglu_limit,
            r.gate.hidden == cfg.hidden_size,
            r.shared_experts.hidden_size == cfg.hidden_size,
    {
        let shared_inter: usize = cfg.moe_intermediate_size * cfg.n_shared_experts;
        Glm5NextTextMoE {
            gate: Glm5NextTopkRouter::new(cfg),
            shared_experts: Glm5NextMLP::new(cfg.hidden_size, shared_inter, cfg.swiglu_limit),
        }
    }
}

/// The sizes of a sparse layer's MLP: router and shared experts read the same states, the
/// shared experts are as wide as `n_shared_experts` experts side by side, and the router
/// chooses `num_experts_per_tok` of `n_routed_experts` experts from `topk_group` of
/// `n_group` groups.
pub proof fn law_moe_sizes(m: &Glm5NextTextMoE, cfg: &Glm5NextTextConfig)
    requires
        m.built(cfg),
    ensures
        m.gate.hidden == m.shared_experts.hidden_size,
        m.gate.hidden == cfg.hidden_size,
        cfg.n_shared_experts > 0 ==> m.shared_experts.intermediate_size as int
            / cfg.n_shared_experts as int == cfg.moe_intermediate_size,
        cfg.n_shared_experts > 0 ==> m.shared_experts.intermediate_size as int
            % cfg.n_shared_experts as int == 0,
        m.shared_experts.limit == cfg.swiglu_limit,
        m.gate.top_k == cfg.num_experts_per_tok,
        m.gate.num_experts == cfg.n_routed_experts,
        m.gate.topk_group == cfg.topk_group,
        m.gate.num_group == cfg.n_group,
        m.gate.norm_topk_prob == cfg.norm_topk_prob,
        m.gate.routed_scaling_factor == cfg.routed_scaling_factor,
{
    if cfg.n_shared_experts > 0 {
        lemma_fundamental_div_mod_converse(
            m.shared_experts.intermediate_size as int,
            cfg.n_shared_experts as int,
            cfg.moe_intermediate_size as int,
            0,
        );
    }
}

} // verus!
