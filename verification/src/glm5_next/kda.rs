//! The KDA linear-attention block: sizes, and what its caches carry from call to
//! call.
//!
//! The short convolution runs over the concatenated query, key and value columns.
//! Its cache holds the last `kernel - 1` columns; the recurrent state is carried
//! along with it.

use vstd::prelude::*;

use super::Glm5NextTextConfig;
use crate::activation::Activation;
use crate::float::F64;

verus! {

/// What the block reads of a configuration.
pub trait KdaConfig {
    spec fn hidden(&self) -> usize;

    spec fn heads(&self) -> usize;

    spec fn width(&self) -> usize;

    spec fn kernel(&self) -> usize;

    spec fn lower_bound(&self) -> Option<F64>;

    spec fn eps(&self) -> F64;

    spec fn act(&self) -> Activation;

    fn hidden_size(&self) -> (r: usize)
        ensures
            r == self.hidden(),
    ;

    fn linear_num_heads(&self) -> (r: usize)
        ensures
            r == self.heads(),
    ;

    fn linear_head_dim(&self) -> (r: usize)
        ensures
            r == self.width(),
    ;

    fn linear_conv_kernel_dim(&self) -> (r: usize)
        ensures
            r == self.kernel(),
    ;

    fn linear_lower_bound(&self) -> (r: Option<F64>)
        ensures
            r == self.lower_bound(),
    ;

    fn rms_norm_eps(&self) -> (r: F64)
        ensures
            r == self.eps(),
    ;

    fn hidden_act(&self) -> (r: Activation)
        ensures
            r == self.act(),
    ;
}

impl KdaConfig for Glm5NextTextConfig {
    open spec fn hidden(&self) -> usize {
        self.hidden_size
    }

    open spec fn heads(&self) -> usize {
        self.linear_heads()
    }

    open spec fn width(&self) -> usize {
        self.linear_width()
    }

    open spec fn kernel(&self) -> usize {
        self.linear_kernel()
    }

    open spec fn lower_bound(&self) -> Option<F64> {
        self.linear_floor()
    }

    open spec fn eps(&self) -> F64 {
        self.rms_norm_eps
    }

    open spec fn act(&self) -> Activation {
        self.hidden_act
    }

    fn hidden_size(&self) -> usize {
        self.hidden_size
    }

    fn linear_num_heads(&self) -> usize {
        self.linear_num_heads()
    }

    fn linear_head_dim(&self) -> usize {
        self.linear_head_dim()
    }

    fn linear_conv_kernel_dim(&self) -> usize {
        self.linear_conv_kernel_dim()
    }

    fn linear_lower_bound(&self) -> Option<F64> {
        self.linear_lower_bound()
    }

    fn rms_norm_eps(&self) -> F64 {
        self.rms_norm_eps
    }

    fn hidden_act(&self) -> Activation {
        self.hidden_act
    }
}

/// How the short convolution is carried out over old columns followed by new ones.
#[derive(Debug, Clone, Copy, PartialEq, Eq, Structural)]
pub struct ConvPlan {
    /// Zero columns in front of a fresh call that is too short to fill the cache.
    pub zeros: usize,
    /// Columns taken from the cache, in front of the new ones.
    pub cached: usize,
    /// New columns.
    pub len: usize,
    /// Zero columns added on both sides.
    pub pad: usize,
    /// First output column that is kept; `len` of them are.
    pub take: usize,
    /// First column of the new cache; `kernel - 1` of them are kept.
    pub keep: usize,
}

/// The plan for `len` new columns: a fresh call is padded on the left with zeros; with a
/// cache, one token is convolved without padding and more tokens behind the cached
/// context.
pub open spec fn conv_plan(kernel: int, has_cache: bool, len: int) -> ConvPlan {
    let w = kernel - 1;
    if !has_cache {
        let zeros = if len < w {
            w - len
        } else {
            0
        };
        ConvPlan {
            zeros: zeros as usize,
            cached: 0,
            len: len as usize,
            pad: w as usize,
            take: zeros as usize,
            keep: (zeros + len - w) as usize,
        }
    } else if len == 1 {
        ConvPlan { zeros: 0, cached: w as usize, len: 1, pad: 0, take: 0, keep: 1 }
    } else {
        ConvPlan {
            zeros: 0,
            cached: w as usize,
            len: len as usize,
            pad: w as usize,
            take: w as usize,
            keep: len as usize,
        }
    }
}

/// The input column that tap `j` of output column `i` reads; outside the columns it
/// reads zero.
pub open spec fn conv_tap(plan: ConvPlan, i: int, j: int) -> int {
    plan.take + i - plan.pad + j
}

/// A column, or nothing, which stands for zero, outside.
pub open spec fn column<T>(cols: Seq<T>, a: int) -> Option<T> {
    if 0 <= a < cols.len() {
        Some(cols[a])
    } else {
        None
    }
}

/// What a tap reads of columns that may be zero.
pub open spec fn tap_reads<T>(cols: Seq<Option<T>>, a: int) -> Option<T> {
    if 0 <= a < cols.len() {
        cols[a]
    } else {
        None
    }
}

/// The cache after `history`: its last `kernel - 1` columns, with zeros in front of a
/// shorter history.
pub open spec fn conv_state<T>(history: Seq<T>, kernel: int) -> Seq<Option<T>> {
    Seq::new((kernel - 1) as nat, |i: int| column(history, history.len() - (kernel - 1) + i))
}

/// The columns that a call convolves: zeros, cached columns and new ones.
pub open spec fn conv_input<T>(plan: ConvPlan, state: Seq<Option<T>>, new: Seq<T>) -> Seq<Option<T>> {
    Seq::new(plan.zeros as nat, |i: int| None::<T>) + state.take(plan.cached as int)
        + new.map_values(|c: T| Some(c))
}

/// The cache that a call leaves.
pub open spec fn conv_leaves<T>(plan: ConvPlan, kernel: int, state: Seq<Option<T>>, new: Seq<T>) -> Seq<
    Option<T>,
> {
    conv_input(plan, state, new).subrange(plan.keep as int, plan.keep + kernel - 1)
}

/// The convolution is causal over the whole history: output `i` of a call reads the
/// `kernel` columns that end at its own position, zero before the first one,
/// whatever part of the history came from the cache; and the cache afterwards holds
/// the last `kernel - 1` columns. Calls and histories of every length are covered.
pub proof fn law_conv_reads_last_columns<T>(history: Seq<T>, new: Seq<T>, kernel: int, i: int, j: int)
    requires
        1 <= kernel <= usize::MAX,
        0 < new.len() <= usize::MAX,
        0 <= i < new.len(),
        0 <= j < kernel,
    ensures
        ({
            let plan = conv_plan(kernel, history.len() > 0, new.len() as int);
            let state = conv_state(history, kernel);
            let full = conv_input(plan, state, new);
            let all = history + new;
            &&& full.len() == plan.zeros + plan.cached + plan.len
            &&& plan.keep + kernel - 1 <= full.len()
            &&& tap_reads(full, conv_tap(plan, i, j)) == column(
                all,
                history.len() + i - (kernel - 1) + j,
            )
            &&& conv_leaves(plan, kernel, state, new) == conv_state(all, kernel)
        }),
{
    let w = kernel - 1;
    let plan = conv_plan(kernel, history.len() > 0, new.len() as int);
    let state = conv_state(history, kernel);
    let full = conv_input(plan, state, new);
    let all = history + new;
    let front = Seq::new(plan.zeros as nat, |z: int| None::<T>);
    let olds = state.take(plan.cached as int);
    let news = new.map_values(|c: T| Some(c));
    assert(full == front + olds + news);
    assert forall|a: int| 0 <= a < full.len() implies #[trigger] full[a] == column(
        all,
        history.len() - (plan.zeros + plan.cached) + a,
    ) by {
        if a < plan.zeros {
            assert(full[a] == front[a]);
        } else if a < plan.zeros + plan.cached {
            assert(full[a] == olds[a - plan.zeros]);
            let h = history.len() - w + a;
            if h >= 0 {
                assert(all[h] == history[h]);
            }
        } else {
            let n = a - (plan.zeros + plan.cached);
            assert(full[a] == news[n]);
            assert(all[history.len() + n] == new[n]);
        }
    }
    let f = conv_tap(plan, i, j);
    if 0 <= f < full.len() {
        assert(full[f] == column(all, history.len() - (plan.zeros + plan.cached) + f));
    }
    assert(conv_leaves(plan, kernel, state, new) =~= conv_state(all, kernel)) by {
        assert forall|a: int| 0 <= a < w implies #[trigger] conv_leaves(
            plan,
            kernel,
            state,
            new,
        )[a] == conv_state(all, kernel)[a] by {
            assert(full[plan.keep + a] == column(
                all,
                history.len() - (plan.zeros + plan.cached) + plan.keep + a,
            ));
        }
    }
}

/// Prefilling and then decoding sees what one pass sees: a token fed after others
/// reads the same columns as in a single call over all of them, and leaves the same
/// cache, however short the first call was.
pub proof fn law_conv_split_matches_single_pass<T>(
    first: Seq<T>,
    second: Seq<T>,
    kernel: int,
    i: int,
    j: int,
)
    requires
        1 <= kernel <= usize::MAX,
        0 < first.len(),
        0 < second.len(),
        first.len() + second.len() <= usize::MAX,
        0 <= i < second.len(),
        0 <= j < kernel,
    ensures
        ({
            let split = conv_plan(kernel, true, second.len() as int);
            let single = conv_plan(kernel, false, (first.len() + second.len()) as int);
            let state = conv_state(first, kernel);
            let none = conv_state(Seq::<T>::empty(), kernel);
            let all = first + second;
            &&& tap_reads(conv_input(split, state, second), conv_tap(split, i, j)) == tap_reads(
                conv_input(single, none, all),
                conv_tap(single, first.len() + i, j),
            )
            &&& conv_leaves(split, kernel, state, second) == conv_leaves(single, kernel, none, all)
        }),
{
    let all = first + second;
    law_conv_reads_last_columns(first, second, kernel, i, j);
    law_conv_reads_last_columns(Seq::<T>::empty(), all, kernel, first.len() + i, j);
    assert(Seq::<T>::empty() + all =~= all);
}

/// The recurrent state after a run of tokens.
pub open spec fn recur<S, T>(step: spec_fn(S, T) -> S, start: S, tokens: Seq<T>) -> S
    decreases tokens.len(),
{
    if tokens.len() == 0 {
        start
    } else {
        step(recur(step, start, tokens.drop_last()), tokens.last())
    }
}

/// The state that a call starts from: the cached one, or zero.
pub open spec fn start_state<S>(plan: KdaPlan, cached: S, zero: S) -> S {
    if plan.resume {
        cached
    } else {
        zero
    }
}

/// Resuming the recurrence sees what one pass sees: a call on a fresh block followed
/// by a call that resumes leaves the state of a single call over all the tokens.
pub proof fn law_resumed_recurrence_matches_single_pass<S, T>(
    step: spec_fn(S, T) -> S,
    zero: S,
    stale: S,
    fresh: KdaPlan,
    next: KdaPlan,
    first: Seq<T>,
    second: Seq<T>,
)
    requires
        !fresh.resume,
        next.resume,
    ensures
        ({
            let carried = recur(step, start_state(fresh, stale, zero), first);
            recur(step, start_state(next, carried, zero), second) == recur(
                step,
                zero,
                first + second,
            )
        }),
    decreases second.len(),
{
    if second.len() == 0 {
        assert(first + second =~= first);
    } else {
        law_resumed_recurrence_matches_single_pass(
            step,
            zero,
            stale,
            fresh,
            next,
            first,
            second.drop_last(),
        );
        assert((first + second).drop_last() =~= first + second.drop_last());
    }
}

/// One call of the block.
#[derive(Debug, Clone, Copy, PartialEq, Eq, Structural)]
pub struct KdaPlan {
    pub conv: ConvPlan,
    /// Whether the recurrence continues from the cached state, or starts from zero.
    pub resume: bool,
    /// First channel of the query, key and value columns; each is `qkv_dim` wide.
    pub q_start: usize,
    pub k_start: usize,
    pub v_start: usize,
}

/// The arithmetic of a block, token by token: `X` is a token's hidden state, `T` its
/// query, key and value column, `U` the convolved column, `S` the recurrent state and
/// `O` the output row.
#[verifier::reject_recursive_types(X)]
#[verifier::reject_recursive_types(T)]
#[verifier::reject_recursive_types(U)]
#[verifier::reject_recursive_types(S)]
pub struct KdaMath<X, T, U, S, O> {
    pub project: spec_fn(X) -> T,
    pub convolve: spec_fn(Seq<Option<T>>) -> U,
    pub zero: S,
    pub step: spec_fn(S, U, X) -> S,
    pub emit: spec_fn(S, U, X) -> O,
}

/// What a block carries from call to call: the convolution's columns and the recurrent
/// state.
pub struct KdaCache<T, S> {
    pub columns: Seq<Option<T>>,
    pub state: S,
}

impl<X, T, U, S, O> KdaMath<X, T, U, S, O> {
    /// The columns of the tokens.
    pub open spec fn columns_of(&self, xs: Seq<X>) -> Seq<T> {
        xs.map_values(|x: X| (self.project)(x))
    }

    /// The convolved column of token `i` of a planned call.
    pub open spec fn mixed(&self, plan: ConvPlan, kernel: int, cache: KdaCache<T, S>, xs: Seq<X>, i: int) -> U {
        let full = conv_input(plan, cache.columns, self.columns_of(xs));
        (self.convolve)(Seq::new(kernel as nat, |j: int| tap_reads(full, conv_tap(plan, i, j))))
    }

    /// The recurrent state after the first `n` tokens of a planned call.
    pub open spec fn state_after(&self, plan: KdaPlan, kernel: int, cache: KdaCache<T, S>, xs: Seq<X>, n: nat) -> S
        decreases n,
    {
        if n == 0 {
            start_state(plan, cache.state, self.zero)
        } else {
            (self.step)(
                self.state_after(plan, kernel, cache, xs, (n - 1) as nat),
                self.mixed(plan.conv, kernel, cache, xs, n - 1),
                xs[n - 1],
            )
        }
    }

    /// The output rows of a planned call.
    pub open spec fn outputs(&self, plan: KdaPlan, kernel: int, cache: KdaCache<T, S>, xs: Seq<X>) -> Seq<O> {
        Seq::new(
            xs.len(),
            |i: int|
                (self.emit)(
                    self.state_after(plan, kernel, cache, xs, (i + 1) as nat),
                    self.mixed(plan.conv, kernel, cache, xs, i),
                    xs[i],
                ),
        )
    }

    /// What a planned call leaves in the caches.
    pub open spec fn leaves(&self, plan: KdaPlan, kernel: int, cache: KdaCache<T, S>, xs: Seq<X>) -> KdaCache<T, S> {
        KdaCache {
            columns: conv_leaves(plan.conv, kernel, cache.columns, self.columns_of(xs)),
            state: self.state_after(plan, kernel, cache, xs, xs.len()),
        }
    }

    /// The convolved column at position `p` of a whole sequence: of the `kernel` columns
    /// that end there, with zeros before the first.
    pub open spec fn mixed_at(&self, kernel: int, xs: Seq<X>, p: int) -> U {
        (self.convolve)(
            Seq::new(kernel as nat, |j: int| column(self.columns_of(xs), p - (kernel - 1) + j)),
        )
    }

    /// The recurrent state after the first `n` tokens of a whole sequence.
    pub open spec fn state_at(&self, kernel: int, xs: Seq<X>, n: nat) -> S
        decreases n,
    {
        if n == 0 {
            self.zero
        } else {
            (self.step)(
                self.state_at(kernel, xs, (n - 1) as nat),
                self.mixed_at(kernel, xs, n - 1),
                xs[n - 1],
            )
        }
    }

    /// The output row at position `p` of a whole sequence.
    pub open spec fn output_at(&self, kernel: int, xs: Seq<X>, p: int) -> O {
        (self.emit)(
            self.state_at(kernel, xs, (p + 1) as nat),
            self.mixed_at(kernel, xs, p),
            xs[p],
        )
    }

    /// What the caches hold after a whole sequence.
    pub open spec fn cache_at(&self, kernel: int, xs: Seq<X>) -> KdaCache<T, S> {
        KdaCache {
            columns: conv_state(self.columns_of(xs), kernel),
            state: self.state_at(kernel, xs, xs.len()),
        }
    }

    /// The columns of a sequence in two parts.
    proof fn lemma_columns(&self, a: Seq<X>, b: Seq<X>)
        ensures
            self.columns_of(a + b) == self.columns_of(a) + self.columns_of(b),
    {
        assert(self.columns_of(a + b) =~= self.columns_of(a) + self.columns_of(b));
    }

    /// Positions before the end do not depend on what follows.
    pub proof fn lemma_prefix(&self, kernel: int, a: Seq<X>, b: Seq<X>, n: nat)
        requires
            kernel >= 1,
            n <= a.len(),
        ensures
            self.state_at(kernel, a, n) == self.state_at(kernel, a + b, n),
            n > 0 ==> self.mixed_at(kernel, a, n - 1) == self.mixed_at(kernel, a + b, n - 1),
        decreases n,
    {
        if n > 0 {
            self.lemma_prefix(kernel, a, b, (n - 1) as nat);
            self.lemma_columns(a, b);
            let p = n - 1;
            assert(Seq::new(
                kernel as nat,
                |j: int| column(self.columns_of(a), p - (kernel - 1) + j),
            ) =~= Seq::new(
                kernel as nat,
                |j: int| column(self.columns_of(a + b), p - (kernel - 1) + j),
            ));
            assert((a + b)[p] == a[p]);
        }
    }

    /// A planned call continues the history: its columns and states are those of the
    /// whole sequence.
    proof fn lemma_call(&self, plan: KdaPlan, kernel: int, history: Seq<X>, xs: Seq<X>, n: nat)
        requires
            1 <= kernel <= usize::MAX,
            0 < xs.len() <= usize::MAX,
            n <= xs.len(),
            plan.conv == conv_plan(kernel, history.len() > 0, xs.len() as int),
            plan.resume == (history.len() > 0),
        ensures
            self.state_after(plan, kernel, self.cache_at(kernel, history), xs, n) == self.state_at(
                kernel,
                history + xs,
                history.len() + n,
            ),
            n > 0 ==> self.mixed(
                plan.conv,
                kernel,
                self.cache_at(kernel, history),
                xs,
                n - 1,
            ) == self.mixed_at(kernel, history + xs, history.len() + n - 1),
        decreases n,
    {
        let cache = self.cache_at(kernel, history);
        let all = history + xs;
        if n == 0 {
            self.lemma_prefix(kernel, history, xs, history.len());
        } else {
            self.lemma_call(plan, kernel, history, xs, (n - 1) as nat);
            self.lemma_columns(history, xs);
            let hc = self.columns_of(history);
            let xc = self.columns_of(xs);
            let i = n - 1;
            let full = conv_input(plan.conv, cache.columns, xc);
            let mine = Seq::new(kernel as nat, |j: int| tap_reads(full, conv_tap(plan.conv, i, j)));
            let whole = Seq::new(
                kernel as nat,
                |j: int|
                    column(self.columns_of(all), history.len() + i - (kernel - 1) + j),
            );
            assert forall|j: int| 0 <= j < kernel implies #[trigger] mine[j] == whole[j] by {
                law_conv_reads_last_columns(hc, xc, kernel, i, j);
            }
            assert(mine =~= whole);
            assert(all[history.len() + i] == xs[i]);
        }
    }
}

/// A call gives the rows that one pass over the whole sequence gives at its positions,
/// and leaves the caches of that pass: a fresh call of every length, and any later one.
pub proof fn law_call_continues_the_history<X, T, U, S, O>(
    math: KdaMath<X, T, U, S, O>,
    plan: KdaPlan,
    kernel: int,
    history: Seq<X>,
    xs: Seq<X>,
)
    requires
        1 <= kernel <= usize::MAX,
        0 < xs.len() <= usize::MAX,
        plan.conv == conv_plan(kernel, history.len() > 0, xs.len() as int),
        plan.resume == (history.len() > 0),
    ensures
        math.outputs(plan, kernel, math.cache_at(kernel, history), xs).len() == xs.len(),
        forall|i: int|
            0 <= i < xs.len() ==> #[trigger] math.outputs(
                plan,
                kernel,
                math.cache_at(kernel, history),
                xs,
            )[i] == math.output_at(kernel, history + xs, history.len() + i),
        math.leaves(plan, kernel, math.cache_at(kernel, history), xs) == math.cache_at(
            kernel,
            history + xs,
        ),
{
    let cache = math.cache_at(kernel, history);
    assert forall|i: int| 0 <= i < xs.len() implies #[trigger] math.outputs(
        plan,
        kernel,
        cache,
        xs,
    )[i] == math.output_at(kernel, history + xs, history.len() + i) by {
        math.lemma_call(plan, kernel, history, xs, (i + 1) as nat);
        assert((history + xs)[history.len() + i] == xs[i]);
    }
    math.lemma_call(plan, kernel, history, xs, xs.len());
    math.lemma_columns(history, xs);
    law_conv_reads_last_columns(math.columns_of(history), math.columns_of(xs), kernel, 0, 0);
}

/// Prefill and decode give what one call over all the tokens gives, row for row, and
/// leave the same caches: the rows of the prefill are the first rows of the whole, and
/// those of the second call are the rest. `stale` is what the caches of a fresh block
/// are taken to hold; it is not read.
pub proof fn law_split_call_matches_single_pass<X, T, U, S, O>(
    math: KdaMath<X, T, U, S, O>,
    fresh: KdaPlan,
    next: KdaPlan,
    single: KdaPlan,
    kernel: int,
    stale: KdaCache<T, S>,
    first: Seq<X>,
    second: Seq<X>,
)
    requires
        1 <= kernel <= usize::MAX,
        0 < first.len(),
        0 < second.len(),
        first.len() + second.len() <= usize::MAX,
        fresh.conv == conv_plan(kernel, false, first.len() as int),
        !fresh.resume,
        next.conv == conv_plan(kernel, true, second.len() as int),
        next.resume,
        single.conv == conv_plan(kernel, false, (first.len() + second.len()) as int),
        !single.resume,
    ensures
        ({
            let carried = math.leaves(fresh, kernel, stale, first);
            &&& math.outputs(fresh, kernel, stale, first) + math.outputs(
                next,
                kernel,
                carried,
                second,
            ) == math.outputs(single, kernel, stale, first + second)
            &&& math.leaves(next, kernel, carried, second) == math.leaves(
                single,
                kernel,
                stale,
                first + second,
            )
        }),
{
    let none = Seq::<X>::empty();
    let all = first + second;
    let empty = math.cache_at(kernel, none);
    assert(none + first =~= first);
    assert(none + all =~= all);
    lemma_fresh_ignores_cache(math, fresh, kernel, stale, empty, first);
    lemma_fresh_ignores_cache(math, single, kernel, stale, empty, all);
    law_call_continues_the_history(math, fresh, kernel, none, first);
    law_call_continues_the_history(math, next, kernel, first, second);
    law_call_continues_the_history(math, single, kernel, none, all);
    let a = math.outputs(fresh, kernel, stale, first);
    let b = math.outputs(next, kernel, math.leaves(fresh, kernel, stale, first), second);
    let c = math.outputs(single, kernel, stale, all);
    assert forall|p: int| 0 <= p < c.len() implies #[trigger] (a + b)[p] == c[p] by {
        assert(c[p] == math.output_at(kernel, all, p));
        if p < first.len() {
            assert(a[p] == math.output_at(kernel, first, p));
            math.lemma_prefix(kernel, first, second, (p + 1) as nat);
            assert(all[p] == first[p]);
        } else {
            assert(b[p - first.len()] == math.output_at(kernel, all, p));
        }
    }
    assert(a + b =~= c);
}

/// A fresh call does not read the caches.
proof fn lemma_fresh_ignores_cache<X, T, U, S, O>(
    math: KdaMath<X, T, U, S, O>,
    plan: KdaPlan,
    kernel: int,
    a: KdaCache<T, S>,
    b: KdaCache<T, S>,
    xs: Seq<X>,
)
    requires
        plan.conv.cached == 0,
        !plan.resume,
    ensures
        math.outputs(plan, kernel, a, xs) == math.outputs(plan, kernel, b, xs),
        math.leaves(plan, kernel, a, xs) == math.leaves(plan, kernel, b, xs),
{
    assert(a.columns.take(0) =~= b.columns.take(0));
    assert forall|n: nat| #[trigger] math.state_after(plan, kernel, a, xs, n) == math.state_after(
        plan,
        kernel,
        b,
        xs,
        n,
    ) by {
        lemma_fresh_state(math, plan, kernel, a, b, xs, n);
    }
    assert(math.outputs(plan, kernel, a, xs) =~= math.outputs(plan, kernel, b, xs));
}

proof fn lemma_fresh_state<X, T, U, S, O>(
    math: KdaMath<X, T, U, S, O>,
    plan: KdaPlan,
    kernel: int,
    a: KdaCache<T, S>,
    b: KdaCache<T, S>,
    xs: Seq<X>,
    n: nat,
)
    requires
        plan.conv.cached == 0,
        !plan.resume,
    ensures
        math.state_after(plan, kernel, a, xs, n) == math.state_after(plan, kernel, b, xs, n),
    decreases n,
{
    assert(a.columns.take(0) =~= b.columns.take(0));
    if n > 0 {
        lemma_fresh_state(math, plan, kernel, a, b, xs, (n - 1) as nat);
    }
}

/// The sizes of a block and whether its caches are filled.
pub struct KdaLinearAttention {
    pub hidden_size: usize,
    pub num_heads: usize,
    pub head_dim: usize,
    pub qkv_dim: usize,
    pub conv_kernel: usize,
    pub conv_dim: usize,
    pub lower_bound: Option<F64>,
    pub rms_norm_eps: F64,
    pub activation: Activation,
    pub cached: bool,
    pub layer_index: usize,
}

impl KdaLinearAttention {
    /// The sizes belong together.
    pub open spec fn wf(&self) -> bool {
        &&& self.qkv_dim == self.head_dim * self.num_heads
        &&& self.conv_dim == self.qkv_dim * 3
        &&& self.conv_kernel >= 1
    }

    /// Nothing but the caches changes.
    pub open spec fn same_settings(&self, other: &Self) -> bool {
        &&& self.hidden_size == other.hidden_size
        &&& self.num_heads == other.num_heads
        &&& self.head_dim == other.head_dim
        &&& self.qkv_dim == other.qkv_dim
        &&& self.conv_kernel == other.conv_kernel
        &&& self.conv_dim == other.conv_dim
        &&& self.lower_bound == other.lower_bound
        &&& self.rms_norm_eps == other.rms_norm_eps
        &&& self.activation == other.activation
        &&& self.layer_index == other.layer_index
    }

    /// The sizes that the configuration gives layer `layer_idx`.
    pub open spec fn built<C: KdaConfig>(&self, cfg: &C, layer_idx: int) -> bool {
        &&& self.layer_index == layer_idx
        &&& self.hidden_size == cfg.hidden()
        &&& self.num_heads == cfg.heads()
        &&& self.head_dim == cfg.width()
        &&& self.qkv_dim == cfg.width() * cfg.heads()
        &&& self.conv_kernel == cfg.kernel()
        &&& self.conv_dim == cfg.width() * cfg.heads() * 3
        &&& self.lower_bound == cfg.lower_bound()
        &&& self.rms_norm_eps == cfg.eps()
        &&& self.activation == cfg.act()
    }

    /// Where a call finds queries, keys and values in the convolved channels.
    pub open spec fn splits_channels(&self, plan: KdaPlan) -> bool {
        &&& plan.q_start == 0
        &&& plan.k_start == self.qkv_dim
        &&& plan.v_start == 2 * self.qkv_dim
    }

    /// A block with empty caches.
    pub fn new<C: KdaConfig>(cfg: &C, layer_idx: usize) -> (r: Self)
        requires
            cfg.width() * cfg.heads() * 3 <= usize::MAX,
            cfg.kernel() >= 1,
        ensures
            r.wf(),
            !r.cached,
            r.built(cfg, layer_idx as int),
    {
        let num_heads: usize = cfg.linear_num_heads();
        let head_dim: usize = cfg.linear_head_dim();
        proof {
            assert(0 <= head_dim * num_heads) by (nonlinear_arith)
                requires
                    head_dim >= 0,
                    num_heads >= 0,
            ;
        }
        let qkv_dim: usize = head_dim * num_heads;
        KdaLinearAttention {
            hidden_size: cfg.hidden_size(),
            num_heads,
            head_dim,
            qkv_dim,
            conv_kernel: cfg.linear_conv_kernel_dim(),
            conv_dim: qkv_dim * 3,
            lower_bound: cfg.linear_lower_bound(),
            rms_norm_eps: cfg.rms_norm_eps(),
            activation: cfg.hidden_act(),
            cached: false,
            layer_index: layer_idx,
        }
    }

    /// The index of the layer the block belongs to.
    pub fn layer_idx(&self) -> (r: usize)
        ensures
            r == self.layer_index,
    {
        self.layer_index
    }

    /// Empties the caches.
    pub fn clear_cache(&mut self)
        ensures
            final(self).same_settings(old(self)),
            !final(self).cached,
    {
        self.cached = false;
    }

    /// Plans a call over `seq_len` tokens and marks the caches as filled.
    ///
    /// A fresh block convolves the tokens behind zeros and starts the recurrence from zero;
    /// later calls continue from the cached columns and the cached state.
    pub fn forward(&mut self, seq_len: usize) -> (r: KdaPlan)
        requires
            old(self).wf(),
            seq_len > 0,
            seq_len + old(self).conv_kernel <= usize::MAX,
        ensures
            final(self).wf(),
            final(self).same_settings(old(self)),
            final(self).cached,
            r.conv == conv_plan(old(self).conv_kernel as int, old(self).cached, seq_len as int),
            r.resume == old(self).cached,
            r.q_start == 0,
            r.k_start == old(self).qkv_dim,
            r.v_start == 2 * old(self).qkv_dim,
            old(self).splits_channels(r),
    {
        let w: usize = self.conv_kernel - 1;
        let resume: bool = self.cached;
        let conv: ConvPlan = if !resume {
            let zeros: usize = if seq_len < w {
                w - seq_len
            } else {
                0
            };
            ConvPlan {
                zeros,
                cached: 0,
                len: seq_len,
                pad: w,
                take: zeros,
                keep: zeros + seq_len - w,
            }
        } else if seq_len == 1 {
            ConvPlan { zeros: 0, cached: w, len: 1, pad: 0, take: 0, keep: 1 }
        } else {
            ConvPlan { zeros: 0, cached: w, len: seq_len, pad: w, take: w, keep: seq_len }
        };
        self.cached = true;
        KdaPlan {
            conv,
            resume,
            q_start: 0,
            k_start: self.qkv_dim,
            v_start: 2 * self.qkv_dim,
        }
    }
}

/// The sizes of a linear layer: it convolves queries, keys and values of all heads side by
/// side, over as many columns as the configured kernel.
pub proof fn law_linear_layer_sizes(
    a: &KdaLinearAttention,
    cfg: &Glm5NextTextConfig,
    layer_idx: int,
)
    requires
        a.built(cfg, layer_idx),
    ensures
        a.hidden_size == cfg.hidden_size,
        a.layer_index == layer_idx,
        a.qkv_dim == a.num_heads * a.head_dim,
        a.conv_dim == a.qkv_dim + a.qkv_dim + a.qkv_dim,
        cfg.linear_attn_config.num_heads > 0 ==> a.num_heads == cfg.linear_attn_config.num_heads,
        cfg.linear_attn_config.head_dim > 0 ==> a.head_dim == cfg.linear_attn_config.head_dim,
        cfg.linear_attn_config.short_conv_kernel_size > 0 ==> a.conv_kernel
            == cfg.linear_attn_config.short_conv_kernel_size,
        a.lower_bound == cfg.linear_floor(),
        a.rms_norm_eps == cfg.rms_norm_eps,
        a.activation == cfg.hidden_act,
{
    let h = a.num_heads as int;
    let d = a.head_dim as int;
    assert(d * h == h * d) by (nonlinear_arith);
}

/// Queries, keys and values lie back to back in the convolved channels, each as wide as
/// all heads together, and fill them. `plan` is a call's plan for the block.
pub proof fn law_channels_are_split_evenly(a: &KdaLinearAttention, plan: KdaPlan)
    requires
        a.wf(),
        a.splits_channels(plan),
    ensures
        plan.q_start == 0,
        plan.q_start + a.num_heads * a.head_dim == plan.k_start,
        plan.k_start + a.num_heads * a.head_dim == plan.v_start,
        plan.v_start + a.num_heads * a.head_dim == a.conv_dim,
{
    let h = a.num_heads as int;
    let d = a.head_dim as int;
    assert(d * h == h * d) by (nonlinear_arith);
}

/// The parts of a convolution plan: a fresh call takes nothing from the cache and stands
/// behind just as many zeros as fill up the cache; a later call takes the whole cache. The
/// kept outputs are those of the new columns, and the new cache is the end of the input.
pub proof fn law_conv_plan_parts(kernel: int, has_cache: bool, len: int)
    requires
        1 <= kernel,
        1 <= len,
        kernel + len <= usize::MAX,
    ensures
        ({
            let plan = conv_plan(kernel, has_cache, len);
            let width = plan.zeros + plan.cached + plan.len;
            &&& plan.len == len
            &&& plan.cached == if has_cache { kernel - 1 } else { 0 }
            &&& has_cache ==> plan.zeros == 0
            &&& !has_cache ==> (plan.zeros > 0 ==> plan.zeros + len == kernel - 1)
            &&& width >= kernel - 1
            &&& plan.keep + (kernel - 1) == width
            &&& plan.take - plan.pad + (kernel - 1) == plan.zeros + plan.cached
            &&& plan.pad == if has_cache && len == 1 {
                0
            } else {
                kernel - 1
            }
        }),
{
}

} // verus!
