//! Passes that load their weights through the two bounded caches: whether a model is
//! built whole or streamed layer by layer, it computes with the same weights.

use vstd::prelude::*;

use crate::cache::{
    distinct, faithful, holds_name, inserted, lemma_inserted, lemma_touched, load_gives,
    load_leaves, position, touched, CachedTensor, Entry,
};

verus! {

/// Where weights come from: the checkpoint, the copy that goes to the compute device, and
/// the budgets of the two caches.
#[verifier::reject_recursive_types(T)]
pub struct Source<T> {
    pub store: spec_fn(Seq<char>) -> CachedTensor<T>,
    pub copied: spec_fn(CachedTensor<T>) -> CachedTensor<T>,
    pub device_budget: nat,
    pub host_budget: nat,
}

/// What the two caches hold.
#[verifier::reject_recursive_types(T)]
pub struct Caches<T> {
    pub device: Seq<Entry<T>>,
    pub host: Seq<Entry<T>>,
}

impl<T> Source<T> {
    /// The weight `name` as it is on the device.
    pub open spec fn weight(&self, name: Seq<char>) -> CachedTensor<T> {
        (self.copied)((self.store)(name))
    }

    /// Both caches hold what the checkpoint does.
    pub open spec fn holds(&self, c: Caches<T>) -> bool {
        &&& distinct(c.device)
        &&& distinct(c.host)
        &&& faithful(c.host, self.store)
        &&& faithful(c.device, |name: Seq<char>| self.weight(name))
    }

    /// What a request gives: the weight on the device, or a copy of the one in host
    /// memory, or of the one that is read.
    pub open spec fn fetched(&self, c: Caches<T>, name: Seq<char>) -> CachedTensor<T> {
        if holds_name(c.device, name) {
            c.device[position(c.device, name)].1
        } else {
            (self.copied)(load_gives(c.host, name, self.store))
        }
    }

    /// The caches after a request.
    pub open spec fn after_fetch(&self, c: Caches<T>, name: Seq<char>) -> Caches<T> {
        if holds_name(c.device, name) {
            Caches { device: touched(c.device, name), host: c.host }
        } else {
            Caches {
                device: inserted(c.device, name, self.fetched(c, name), self.device_budget),
                host: load_leaves(c.host, name, self.store, self.host_budget),
            }
        }
    }

    /// What requests of `names` in turn give.
    pub open spec fn fetched_all(&self, c: Caches<T>, names: Seq<Seq<char>>) -> Seq<CachedTensor<T>>
        decreases names.len(),
    {
        if names.len() == 0 {
            Seq::empty()
        } else {
            let early = names.drop_last();
            self.fetched_all(c, early).push(
                self.fetched(self.after_all(c, early), names.last()),
            )
        }
    }

    /// The caches after requests of `names` in turn.
    pub open spec fn after_all(&self, c: Caches<T>, names: Seq<Seq<char>>) -> Caches<T>
        decreases names.len(),
    {
        if names.len() == 0 {
            c
        } else {
            self.after_fetch(self.after_all(c, names.drop_last()), names.last())
        }
    }

    /// The caches after the first `n` layers were requested.
    pub open spec fn after_layers(&self, c: Caches<T>, layers: Seq<Seq<Seq<char>>>, n: nat) -> Caches<T>
        decreases n,
    {
        if n == 0 {
            c
        } else {
            self.after_all(self.after_layers(c, layers, (n - 1) as nat), layers[n - 1])
        }
    }

    /// The weights of layer `i`, requested after those of the layers before it.
    pub open spec fn layer_weights(&self, c: Caches<T>, layers: Seq<Seq<Seq<char>>>, i: int) -> Seq<
        CachedTensor<T>,
    > {
        self.fetched_all(self.after_layers(c, layers, i as nat), layers[i])
    }

    /// A request gives the checkpoint's weight and leaves caches that hold what the
    /// checkpoint does.
    proof fn lemma_fetch(&self, c: Caches<T>, name: Seq<char>)
        requires
            self.holds(c),
        ensures
            self.fetched(c, name) == self.weight(name),
            self.holds(self.after_fetch(c, name)),
    {
        let weight = |n: Seq<char>| self.weight(n);
        if holds_name(c.device, name) {
            let p = position(c.device, name);
            assert(c.device[p].0 == name && c.device[p].1 == weight(name));
            lemma_touched(c.device, name, weight);
        } else {
            if holds_name(c.host, name) {
                let p = position(c.host, name);
                assert(c.host[p].0 == name);
                lemma_touched(c.host, name, self.store);
            } else {
                lemma_inserted(c.host, name, self.store, self.host_budget);
            }
            assert(self.fetched(c, name) == weight(name));
            lemma_inserted(c.device, name, weight, self.device_budget);
        }
    }

    /// The same of a run of requests.
    proof fn lemma_fetch_all(&self, c: Caches<T>, names: Seq<Seq<char>>)
        requires
            self.holds(c),
        ensures
            self.fetched_all(c, names) == names.map_values(|n: Seq<char>| self.weight(n)),
            self.holds(self.after_all(c, names)),
        decreases names.len(),
    {
        if names.len() > 0 {
            let early = names.drop_last();
            self.lemma_fetch_all(c, early);
            self.lemma_fetch(self.after_all(c, early), names.last());
        }
        assert(self.fetched_all(c, names) =~= names.map_values(|n: Seq<char>| self.weight(n)));
    }

    proof fn lemma_layers(&self, c: Caches<T>, layers: Seq<Seq<Seq<char>>>, n: nat)
        requires
            self.holds(c),
            n <= layers.len(),
        ensures
            self.holds(self.after_layers(c, layers, n)),
            forall|i: int|
                0 <= i < n ==> #[trigger] self.layer_weights(c, layers, i) == layers[i].map_values(
                    |name: Seq<char>| self.weight(name),
                ),
        decreases n,
    {
        if n > 0 {
            let before = self.after_layers(c, layers, (n - 1) as nat);
            self.lemma_layers(c, layers, (n - 1) as nat);
            self.lemma_fetch_all(before, layers[n - 1]);
        }
    }
}

/// A model as a chain: `embed` gives the first hidden state from the root weights, `layer`
/// runs layer `i` with its weights, and `finish` gives the logits.
#[verifier::reject_recursive_types(T)]
#[verifier::reject_recursive_types(H)]
pub struct Chain<T, H, L> {
    pub embed: spec_fn(Seq<CachedTensor<T>>) -> H,
    pub layer: spec_fn(int, Seq<CachedTensor<T>>, H) -> H,
    pub finish: spec_fn(Seq<CachedTensor<T>>, Seq<CachedTensor<T>>, H) -> L,
}

impl<T, H, L> Chain<T, H, L> {
    /// The hidden state after the first `n` layers, with the weights of all layers at
    /// hand.
    pub open spec fn eager_hidden(&self, start: H, weights: Seq<Seq<CachedTensor<T>>>, n: nat) -> H
        decreases n,
    {
        if n == 0 {
            start
        } else {
            (self.layer)(
                n - 1,
                weights[n - 1],
                self.eager_hidden(start, weights, (n - 1) as nat),
            )
        }
    }

    /// The logits of a model that is built whole, all weights first, and then run.
    pub open spec fn eager(
        &self,
        src: Source<T>,
        c: Caches<T>,
        roots: Seq<Seq<char>>,
        layers: Seq<Seq<Seq<char>>>,
        heads: Seq<Seq<char>>,
    ) -> L {
        let after_roots = src.after_all(c, roots);
        let root_weights = src.fetched_all(c, roots);
        let weights = Seq::new(layers.len(), |i: int| src.layer_weights(after_roots, layers, i));
        let head_weights = src.fetched_all(
            src.after_layers(after_roots, layers, layers.len()),
            heads,
        );
        (self.finish)(
            root_weights,
            head_weights,
            self.eager_hidden((self.embed)(root_weights), weights, layers.len()),
        )
    }

    /// The hidden state after the first `n` layers, each loaded, run and dropped in turn.
    pub open spec fn streamed_hidden(
        &self,
        src: Source<T>,
        c: Caches<T>,
        start: H,
        layers: Seq<Seq<Seq<char>>>,
        n: nat,
    ) -> H
        decreases n,
    {
        if n == 0 {
            start
        } else {
            (self.layer)(
                n - 1,
                src.layer_weights(c, layers, n - 1),
                self.streamed_hidden(src, c, start, layers, (n - 1) as nat),
            )
        }
    }

    /// The logits of a streaming pass.
    pub open spec fn streamed(
        &self,
        src: Source<T>,
        c: Caches<T>,
        roots: Seq<Seq<char>>,
        layers: Seq<Seq<Seq<char>>>,
        heads: Seq<Seq<char>>,
    ) -> L {
        let after_roots = src.after_all(c, roots);
        let root_weights = src.fetched_all(c, roots);
        let head_weights = src.fetched_all(
            src.after_layers(after_roots, layers, layers.len()),
            heads,
        );
        (self.finish)(
            root_weights,
            head_weights,
            self.streamed_hidden(
                src,
                after_roots,
                (self.embed)(root_weights),
                layers,
                layers.len(),
            ),
        )
    }
}

/// The caches that a pass leaves.
pub open spec fn left_by_pass<T>(
    src: Source<T>,
    c: Caches<T>,
    roots: Seq<Seq<char>>,
    layers: Seq<Seq<Seq<char>>>,
    heads: Seq<Seq<char>>,
) -> Caches<T> {
    src.after_all(src.after_layers(src.after_all(c, roots), layers, layers.len()), heads)
}

/// A streaming pass gives the logits of the model built whole, whatever the caches of
/// either hold of the checkpoint and whatever their budgets are; and it leaves caches
/// from which a second pass gives the same logits again.
pub proof fn law_streaming_matches_eager<T, H, L>(
    model: Chain<T, H, L>,
    a: Source<T>,
    b: Source<T>,
    c: Caches<T>,
    d: Caches<T>,
    roots: Seq<Seq<char>>,
    layers: Seq<Seq<Seq<char>>>,
    heads: Seq<Seq<char>>,
)
    requires
        a.store == b.store,
        a.copied == b.copied,
        a.holds(c),
        b.holds(d),
    ensures
        model.streamed(a, c, roots, layers, heads) == model.eager(b, d, roots, layers, heads),
        a.holds(left_by_pass(a, c, roots, layers, heads)),
        model.streamed(a, left_by_pass(a, c, roots, layers, heads), roots, layers, heads)
            == model.streamed(a, c, roots, layers, heads),
{
    lemma_streamed_equals_eager(model, a, b, c, d, roots, layers, heads);
    let left = left_by_pass(a, c, roots, layers, heads);
    let after_roots = a.after_all(c, roots);
    a.lemma_fetch_all(c, roots);
    a.lemma_layers(after_roots, layers, layers.len());
    a.lemma_fetch_all(a.after_layers(after_roots, layers, layers.len()), heads);
    lemma_streamed_equals_eager(model, a, b, left, d, roots, layers, heads);
}

proof fn lemma_streamed_equals_eager<T, H, L>(
    model: Chain<T, H, L>,
    a: Source<T>,
    b: Source<T>,
    c: Caches<T>,
    d: Caches<T>,
    roots: Seq<Seq<char>>,
    layers: Seq<Seq<Seq<char>>>,
    heads: Seq<Seq<char>>,
)
    requires
        a.store == b.store,
        a.copied == b.copied,
        a.holds(c),
        b.holds(d),
    ensures
        model.streamed(a, c, roots, layers, heads) == model.eager(b, d, roots, layers, heads),
{
    let c1 = a.after_all(c, roots);
    let d1 = b.after_all(d, roots);
    let n = layers.len();
    a.lemma_fetch_all(c, roots);
    b.lemma_fetch_all(d, roots);
    a.lemma_layers(c1, layers, n);
    b.lemma_layers(d1, layers, n);
    a.lemma_fetch_all(a.after_layers(c1, layers, n), heads);
    b.lemma_fetch_all(b.after_layers(d1, layers, n), heads);
    let weights = Seq::new(n, |i: int| b.layer_weights(d1, layers, i));
    assert forall|i: int| 0 <= i < n implies #[trigger] a.layer_weights(c1, layers, i)
        == weights[i] by {
        assert(layers[i].map_values(|m: Seq<char>| a.weight(m)) =~= layers[i].map_values(
            |m: Seq<char>| b.weight(m),
        ));
    }
    assert(a.fetched_all(c, roots) =~= b.fetched_all(d, roots));
    assert(a.fetched_all(a.after_layers(c1, layers, n), heads) =~= b.fetched_all(
        b.after_layers(d1, layers, n),
        heads,
    ));
    lemma_same_hidden(
        model,
        a,
        c1,
        (model.embed)(a.fetched_all(c, roots)),
        layers,
        weights,
        n,
    );
}

proof fn lemma_same_hidden<T, H, L>(
    model: Chain<T, H, L>,
    src: Source<T>,
    c: Caches<T>,
    start: H,
    layers: Seq<Seq<Seq<char>>>,
    weights: Seq<Seq<CachedTensor<T>>>,
    n: nat,
)
    requires
        n <= weights.len(),
        forall|i: int|
            0 <= i < weights.len() ==> #[trigger] src.layer_weights(c, layers, i) == weights[i],
    ensures
        model.streamed_hidden(src, c, start, layers, n) == model.eager_hidden(start, weights, n),
    decreases n,
{
    if n > 0 {
        lemma_same_hidden(model, src, c, start, layers, weights, (n - 1) as nat);
        assert(src.layer_weights(c, layers, n - 1) == weights[n - 1]);
    }
}

} // verus!
