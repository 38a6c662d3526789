//! A size-bounded cache of materialized tensors that evicts the least recently
//! used entries first.

use vstd::prelude::*;

use crate::blocks::{count_elems, counts_fit, elem_count};
use crate::dtype::{dtype_size, DType};

verus! {

/// A materialized tensor: its shape and element type, and the data itself.
pub struct CachedTensor<T> {
    pub dims: Vec<usize>,
    pub dtype: DType,
    pub data: T,
}

impl<T> CachedTensor<T> {
    /// Resident size in bytes.
    pub open spec fn bytes(&self) -> nat {
        elem_count(self.dims@) * dtype_size(self.dtype)
    }

    /// The size and the counts it is computed from fit in a word.
    pub open spec fn sized(&self) -> bool {
        &&& counts_fit(self.dims@)
        &&& self.bytes() <= usize::MAX
    }

    /// Element count times element size.
    pub fn bytes_of(&self) -> (r: usize)
        requires
            self.sized(),
        ensures
            r == self.bytes(),
    {
        let n: usize = self.dims.len();
        proof {
            assert(self.dims@.take(n as int) =~= self.dims@);
        }
        count_elems(self.dims.as_slice(), n) * self.dtype.size_in_bytes()
    }
}

/// One resident entry.
pub type Entry<T> = (Seq<char>, CachedTensor<T>);

/// Total size of a run of entries.
pub open spec fn total_bytes<T>(entries: Seq<Entry<T>>) -> nat
    decreases entries.len(),
{
    if entries.len() == 0 {
        0
    } else {
        total_bytes(entries.drop_last()) + entries.last().1.bytes()
    }
}

pub open spec fn holds_name<T>(entries: Seq<Entry<T>>, name: Seq<char>) -> bool {
    exists|i: int| 0 <= i < entries.len() && #[trigger] entries[i].0 == name
}

/// Where `name` is resident.
pub open spec fn position<T>(entries: Seq<Entry<T>>, name: Seq<char>) -> int {
    choose|i: int| 0 <= i < entries.len() && #[trigger] entries[i].0 == name
}

/// The entries with `name` taken out.
pub open spec fn without<T>(entries: Seq<Entry<T>>, name: Seq<char>) -> Seq<Entry<T>> {
    if holds_name(entries, name) {
        entries.remove(position(entries, name))
    } else {
        entries
    }
}

/// The entries after dropping the oldest ones until the rest fits.
pub open spec fn trimmed<T>(entries: Seq<Entry<T>>, max: nat) -> Seq<Entry<T>>
    decreases entries.len(),
{
    if total_bytes(entries) <= max || entries.len() == 0 {
        entries
    } else {
        trimmed(entries.drop_first(), max)
    }
}

pub open spec fn distinct<T>(entries: Seq<Entry<T>>) -> bool {
    forall|i: int, j: int|
        0 <= i < j < entries.len() ==> #[trigger] entries[i].0 != #[trigger] entries[j].0
}

/// The entries once the resident tensor under `name` was used: it is the newest.
pub open spec fn touched<T>(entries: Seq<Entry<T>>, name: Seq<char>) -> Seq<Entry<T>> {
    without(entries, name).push((name, entries[position(entries, name)].1))
}

/// The entries once `t` was cached under `name`, in place of any tensor there.
pub open spec fn inserted<T>(
    entries: Seq<Entry<T>>,
    name: Seq<char>,
    t: CachedTensor<T>,
    max: nat,
) -> Seq<Entry<T>> {
    trimmed(without(entries, name).push((name, t)), max)
}

/// How many tensors caching `t` under `name` evicts. A replaced tensor is not
/// evicted; one that does not fit by itself is.
pub open spec fn evicted_by<T>(
    entries: Seq<Entry<T>>,
    name: Seq<char>,
    t: CachedTensor<T>,
    max: nat,
) -> int {
    without(entries, name).len() + 1 - inserted(entries, name, t, max).len()
}

/// Entries from the least to the most recently used, within a byte budget.
pub struct LruCache<T> {
    entries: Vec<(String, CachedTensor<T>)>,
    bytes: usize,
    max_bytes: usize,
}

impl<T> View for LruCache<T> {
    type V = Seq<Entry<T>>;

    /// The resident entries, least recently used first.
    closed spec fn view(&self) -> Seq<Entry<T>> {
        Seq::new(self.entries@.len(), |i: int| (self.entries@[i].0@, self.entries@[i].1))
    }
}

/// Appending an entry adds its size.
proof fn lemma_total_push<T>(entries: Seq<Entry<T>>, e: Entry<T>)
    ensures
        total_bytes(entries.push(e)) == total_bytes(entries) + e.1.bytes(),
{
    assert(entries.push(e).drop_last() =~= entries);
}

/// Removing an entry subtracts its size.
proof fn lemma_total_remove<T>(entries: Seq<Entry<T>>, i: int)
    requires
        0 <= i < entries.len(),
    ensures
        total_bytes(entries) == total_bytes(entries.remove(i)) + entries[i].1.bytes(),
    decreases entries.len(),
{
    if i == entries.len() - 1 {
        assert(entries.remove(i) =~= entries.drop_last());
    } else {
        lemma_total_remove(entries.drop_last(), i);
        assert(entries.remove(i).drop_last() =~= entries.drop_last().remove(i));
    }
}

/// With distinct names an entry is where its name is.
proof fn lemma_position<T>(entries: Seq<Entry<T>>, i: int)
    requires
        distinct(entries),
        0 <= i < entries.len(),
    ensures
        holds_name(entries, entries[i].0),
        position(entries, entries[i].0) == i,
{
    let j = position(entries, entries[i].0);
    assert(entries[i].0 == entries[i].0);
    assert(0 <= j < entries.len() && entries[j].0 == entries[i].0);
}

/// Evicting keeps a run of the most recently used entries that fits the budget,
/// and no longer than it must: one entry more would not fit.
pub proof fn law_trimmed_is_longest_fitting_suffix<T>(entries: Seq<Entry<T>>, max: nat)
    ensures
        trimmed(entries, max).len() <= entries.len(),
        trimmed(entries, max) == entries.skip(entries.len() - trimmed(entries, max).len()),
        total_bytes(trimmed(entries, max)) <= max,
        trimmed(entries, max).len() < entries.len() ==> total_bytes(
            entries.skip(entries.len() - trimmed(entries, max).len() - 1),
        ) > max,
    decreases entries.len(),
{
    if total_bytes(entries) <= max || entries.len() == 0 {
        assert(entries.skip(0) =~= entries);
    } else {
        let rest = entries.drop_first();
        law_trimmed_is_longest_fitting_suffix(rest, max);
        let t = trimmed(rest, max);
        assert(rest.skip(rest.len() - t.len()) =~= entries.skip(entries.len() - t.len()));
        if t.len() < rest.len() {
            assert(rest.skip(rest.len() - t.len() - 1) =~= entries.skip(
                entries.len() - t.len() - 1,
            ));
        } else {
            assert(entries.skip(0) =~= entries);
        }
    }
}

/// A tensor that fits the budget by itself stays resident when it is inserted,
/// as the most recently used entry.
pub proof fn law_fitting_insert_stays<T>(entries: Seq<Entry<T>>, e: Entry<T>, max: nat)
    requires
        e.1.bytes() <= max,
    ensures
        trimmed(entries.push(e), max).len() > 0,
        trimmed(entries.push(e), max).last() == e,
    decreases entries.len(),
{
    let all = entries.push(e);
    if total_bytes(all) <= max {
    } else if entries.len() == 0 {
        lemma_total_push(entries, e);
    } else {
        assert(all.drop_first() =~= entries.drop_first().push(e));
        law_fitting_insert_stays(entries.drop_first(), e, max);
    }
}

/// A tensor over the budget is dropped at once, after everything older.
proof fn lemma_oversized_leaves<T>(entries: Seq<Entry<T>>, e: Entry<T>, max: nat)
    requires
        e.1.bytes() > max,
    ensures
        trimmed(entries.push(e), max) == Seq::<Entry<T>>::empty(),
    decreases entries.len(),
{
    let all = entries.push(e);
    lemma_total_push(entries, e);
    if entries.len() == 0 {
        let none = all.drop_first();
        assert(none =~= Seq::<Entry<T>>::empty());
        assert(trimmed(none, max) == none);
    } else {
        assert(all.drop_first() =~= entries.drop_first().push(e));
        lemma_oversized_leaves(entries.drop_first(), e, max);
    }
}

/// A read gives back what was inserted: a tensor that fits the budget is found under its
/// name afterwards, and every other entry that stays is as it was.
pub proof fn law_insert_is_read_back<T>(
    entries: Seq<Entry<T>>,
    name: Seq<char>,
    t: CachedTensor<T>,
    max: nat,
)
    requires
        distinct(entries),
        t.bytes() <= max,
    ensures
        ({
            let after = inserted(entries, name, t, max);
            &&& holds_name(after, name)
            &&& after[position(after, name)].1 == t
            &&& forall|i: int|
                0 <= i < after.len() && (#[trigger] after[i]).0 != name ==> entries.contains(
                    after[i],
                )
        }),
{
    let rest = without(entries, name);
    let all = rest.push((name, t));
    let after = inserted(entries, name, t, max);
    law_fitting_insert_stays(rest, (name, t), max);
    law_trimmed_is_longest_fitting_suffix(all, max);
    let cut = all.len() - after.len();
    assert forall|i: int| 0 <= i < rest.len() implies #[trigger] rest[i].0 != name
        && entries.contains(rest[i]) by {
        if holds_name(entries, name) {
            let p = position(entries, name);
            let k = if i < p {
                i
            } else {
                i + 1
            };
            assert(entries[k] == rest[i]);
            assert(entries[p].0 == name);
        } else {
            assert(entries[i] == rest[i]);
        }
    }
    assert forall|i: int| 0 <= i < after.len() implies #[trigger] after[i] == all[cut + i] by {
        assert(after[i] == all.skip(cut)[i]);
    }
    let last = after.len() - 1;
    assert(after[last].0 == name);
    let p = position(after, name);
    assert(0 <= p < after.len() && after[p].0 == name);
    if p < last {
        assert(after[p] == rest[cut + p]);
    }
}

/// The names of the entries.
pub open spec fn names_of<T>(entries: Seq<Entry<T>>) -> Set<Seq<char>> {
    entries.map_values(|e: Entry<T>| e.0).to_set()
}

/// Taking a name out leaves every other entry as it was, in order.
proof fn lemma_without<T>(entries: Seq<Entry<T>>, name: Seq<char>)
    requires
        distinct(entries),
    ensures
        distinct(without(entries, name)),
        !holds_name(without(entries, name), name),
        forall|i: int|
            0 <= i < without(entries, name).len() ==> entries.contains(
                #[trigger] without(entries, name)[i],
            ),
        forall|n: Seq<char>|
            n != name ==> (#[trigger] holds_name(entries, n) == holds_name(
                without(entries, name),
                n,
            )),
{
    let rest = without(entries, name);
    if holds_name(entries, name) {
        let p = position(entries, name);
        assert(entries[p].0 == name);
        assert forall|i: int| 0 <= i < rest.len() implies #[trigger] rest[i].0 != name
            && entries.contains(rest[i]) by {
            assert(rest[i] == entries[if i < p {
                i
            } else {
                i + 1
            }]);
        }
        assert forall|n: Seq<char>| n != name && #[trigger] holds_name(entries, n) implies holds_name(
            rest,
            n,
        ) by {
            let k = position(entries, n);
            assert(entries[k].0 == n);
            assert(rest[if k < p {
                k
            } else {
                k - 1
            }] == entries[k]);
        }
        assert forall|n: Seq<char>| n != name && holds_name(rest, n) implies #[trigger] holds_name(
            entries,
            n,
        ) by {
            let k = position(rest, n);
            assert(rest[k].0 == n);
            assert(rest[k] == entries[if k < p {
                k
            } else {
                k + 1
            }]);
        }
    }
}

/// A name is in the set where an entry carries it; with distinct names there are as
/// many as entries.
proof fn lemma_names_of<T>(entries: Seq<Entry<T>>)
    requires
        distinct(entries),
    ensures
        names_of(entries).len() == entries.len(),
        names_of(entries).finite(),
        forall|n: Seq<char>| #[trigger] names_of(entries).contains(n) <==> holds_name(entries, n),
{
    let names = entries.map_values(|e: Entry<T>| e.0);
    assert(names.no_duplicates()) by {
        assert forall|i: int, j: int|
            0 <= i < names.len() && 0 <= j < names.len() && i != j implies names[i] != names[j] by {
            if i < j {
                assert(entries[i].0 != entries[j].0);
            } else {
                assert(entries[j].0 != entries[i].0);
            }
        }
    }
    names.unique_seq_to_set();
    assert forall|n: Seq<char>| #[trigger] names_of(entries).contains(n) <==> holds_name(
        entries,
        n,
    ) by {
        if names_of(entries).contains(n) {
            let i = choose|i: int| 0 <= i < names.len() && names[i] == n;
            assert(entries[i].0 == n);
        }
        if holds_name(entries, n) {
            let i = position(entries, n);
            assert(names[i] == n);
        }
    }
}

/// Caching a tensor keeps a run of the most recently used tensors that fits the budget:
/// everything evicted was used less recently than everything kept, and taking the last
/// evicted one back would exceed the budget. The tensor itself stays, with its value,
/// exactly if it fits by itself. As many are evicted as the names, the new one among
/// them, outnumber what stays: a replaced tensor is not evicted.
pub proof fn law_insert_keeps_the_most_recent<T>(
    entries: Seq<Entry<T>>,
    name: Seq<char>,
    t: CachedTensor<T>,
    max: nat,
)
    requires
        distinct(entries),
    ensures
        ({
            let all = without(entries, name).push((name, t));
            let after = inserted(entries, name, t, max);
            let cut = evicted_by(entries, name, t, max);
            &&& 0 <= cut <= all.len()
            &&& after == all.skip(cut)
            &&& distinct(after)
            &&& total_bytes(after) <= max
            &&& cut > 0 ==> total_bytes(all.skip(cut - 1)) > max
            &&& holds_name(after, name) <==> t.bytes() <= max
            &&& t.bytes() <= max ==> after.last() == (name, t) && after[position(after, name)].1 == t
            &&& t.bytes() > max ==> after.len() == 0
            &&& cut == names_of(entries).insert(name).len() - after.len()
        }),
{
    let rest = without(entries, name);
    let all = rest.push((name, t));
    let after = inserted(entries, name, t, max);
    let cut = evicted_by(entries, name, t, max);
    law_trimmed_is_longest_fitting_suffix(all, max);
    lemma_without(entries, name);
    assert(distinct(all)) by {
        assert forall|i: int, j: int| 0 <= i < j < all.len() implies #[trigger] all[i].0
            != #[trigger] all[j].0 by {
            assert(rest[i].0 != name);
        }
    }
    assert forall|i: int, j: int| 0 <= i < j < after.len() implies #[trigger] after[i].0
        != #[trigger] after[j].0 by {
        assert(after[i] == all[cut + i] && after[j] == all[cut + j]);
    }
    if t.bytes() <= max {
        law_fitting_insert_stays(rest, (name, t), max);
        lemma_position(after, after.len() - 1);
    } else {
        lemma_oversized_leaves(rest, (name, t), max);
    }
    lemma_names_of(entries);
    lemma_names_of(all);
    assert(names_of(entries).insert(name) =~= names_of(all)) by {
        assert forall|n: Seq<char>| names_of(entries).insert(name).contains(n)
            == names_of(all).contains(n) by {
            if n == name {
                assert(all[rest.len() as int].0 == name);
                assert(holds_name(all, name));
            } else if holds_name(entries, n) {
                let i = position(rest, n);
                assert(rest[i].0 == n);
                assert(all[i] == rest[i]);
            } else if holds_name(all, n) {
                let i = position(all, n);
                assert(all[i].0 == n);
                assert(rest[i] == all[i]);
                assert(holds_name(rest, n));
            }
        }
    }
}

/// What a cache is asked to do.
pub enum CacheOp<T> {
    /// A tensor is cached under a name.
    Insert(Seq<char>, CachedTensor<T>),
    /// The tensor under a name is asked for.
    Use(Seq<char>),
    /// Everything is dropped.
    Clear,
}

/// The entries after a history of operations on an empty cache.
pub open spec fn replayed<T>(ops: Seq<CacheOp<T>>, max: nat) -> Seq<Entry<T>>
    decreases ops.len(),
{
    if ops.len() == 0 {
        Seq::empty()
    } else {
        let before = replayed(ops.drop_last(), max);
        match ops.last() {
            CacheOp::Insert(name, t) => inserted(before, name, t, max),
            CacheOp::Use(name) => if holds_name(before, name) {
                touched(before, name)
            } else {
                before
            },
            CacheOp::Clear => Seq::empty(),
        }
    }
}

/// The latest operation that caches or asks for `name`, or -1.
pub open spec fn last_use<T>(ops: Seq<CacheOp<T>>, name: Seq<char>) -> int
    decreases ops.len(),
{
    if ops.len() == 0 {
        -1
    } else {
        let hit = match ops.last() {
            CacheOp::Insert(n, _) => n == name,
            CacheOp::Use(n) => n == name,
            CacheOp::Clear => false,
        };
        if hit {
            ops.len() - 1
        } else {
            last_use(ops.drop_last(), name)
        }
    }
}

/// Entries stand in the order of their last use.
pub open spec fn by_recency<T>(entries: Seq<Entry<T>>, ops: Seq<CacheOp<T>>) -> bool {
    &&& forall|i: int| 0 <= i < entries.len() ==> last_use(ops, (#[trigger] entries[i]).0) < ops.len()
    &&& forall|i: int, j: int|
        0 <= i < j < entries.len() ==> last_use(ops, (#[trigger] entries[i]).0) < last_use(
            ops,
            (#[trigger] entries[j]).0,
        )
}

/// Whatever was asked of a cache, its names are distinct, its tensors fit the budget
/// together, and they stand in the order of their last use, so that the front, which is
/// evicted first, is what was used least recently.
pub proof fn law_every_history_keeps_the_budget<T>(ops: Seq<CacheOp<T>>, max: nat)
    ensures
        distinct(replayed(ops, max)),
        total_bytes(replayed(ops, max)) <= max,
        by_recency(replayed(ops, max), ops),
    decreases ops.len(),
{
    if ops.len() > 0 {
        let early = ops.drop_last();
        let before = replayed(early, max);
        law_every_history_keeps_the_budget(early, max);
        match ops.last() {
            CacheOp::Insert(name, t) => {
                lemma_newest_is_last(ops, before, name, t);
                law_insert_keeps_the_most_recent(before, name, t, max);
                let all = without(before, name).push((name, t));
                let after = inserted(before, name, t, max);
                let cut = evicted_by(before, name, t, max);
                assert forall|i: int| 0 <= i < after.len() implies last_use(
                    ops,
                    (#[trigger] after[i]).0,
                ) < ops.len() by {
                    assert(after[i] == all[cut + i]);
                }
                assert forall|i: int, j: int| 0 <= i < j < after.len() implies last_use(
                    ops,
                    (#[trigger] after[i]).0,
                ) < last_use(ops, (#[trigger] after[j]).0) by {
                    assert(after[i] == all[cut + i] && after[j] == all[cut + j]);
                }
            },
            CacheOp::Use(name) => {
                if holds_name(before, name) {
                    let p = position(before, name);
                    assert(before[p].0 == name);
                    lemma_newest_is_last(ops, before, name, before[p].1);
                    lemma_total_remove(before, p);
                    lemma_total_push(without(before, name), before[p]);
                    lemma_without(before, name);
                    let after = touched(before, name);
                    assert forall|i: int, j: int| 0 <= i < j < after.len() implies #[trigger]
                        after[i].0 != #[trigger] after[j].0 by {
                        assert(without(before, name)[i].0 != name);
                    }
                } else {
                    assert forall|i: int| 0 <= i < before.len() implies last_use(
                        ops,
                        (#[trigger] before[i]).0,
                    ) == last_use(early, before[i].0) by {
                        assert(before[i].0 != name);
                    }
                }
            },
            CacheOp::Clear => {},
        }
    }
}

/// An entry used by the last operation goes behind everything else.
proof fn lemma_newest_is_last<T>(
    ops: Seq<CacheOp<T>>,
    before: Seq<Entry<T>>,
    name: Seq<char>,
    t: CachedTensor<T>,
)
    requires
        ops.len() > 0,
        distinct(before),
        by_recency(before, ops.drop_last()),
        match ops.last() {
            CacheOp::Insert(n, _) => n == name,
            CacheOp::Use(n) => n == name,
            CacheOp::Clear => false,
        },
    ensures
        by_recency(without(before, name).push((name, t)), ops),
{
    let early = ops.drop_last();
    let rest = without(before, name);
    let all = rest.push((name, t));
    lemma_without(before, name);
    assert forall|i: int| 0 <= i < rest.len() implies last_use(ops, (#[trigger] rest[i]).0)
        == last_use(early, rest[i].0) && last_use(ops, rest[i].0) < ops.len() - 1 by {
        assert(rest[i].0 != name);
        let k = choose|k: int| 0 <= k < before.len() && before[k] == rest[i];
        assert(last_use(early, before[k].0) < early.len());
    }
    assert(last_use(ops, name) == ops.len() - 1);
    assert forall|i: int, j: int| 0 <= i < j < all.len() implies last_use(
        ops,
        (#[trigger] all[i]).0,
    ) < last_use(ops, (#[trigger] all[j]).0) by {
        assert(all[i] == rest[i]);
        if j < rest.len() {
            assert(all[j] == rest[j]);
            if holds_name(before, name) {
                let p = position(before, name);
                let a = if i < p {
                    i
                } else {
                    i + 1
                };
                let b = if j < p {
                    j
                } else {
                    j + 1
                };
                assert(rest[i] == before[a] && rest[j] == before[b]);
                assert(last_use(early, before[a].0) < last_use(early, before[b].0));
            } else {
                assert(last_use(early, before[i].0) < last_use(early, before[j].0));
            }
        }
    }
}

/// Every entry is what the store holds under its name.
pub open spec fn faithful<T>(
    entries: Seq<Entry<T>>,
    store: spec_fn(Seq<char>) -> CachedTensor<T>,
) -> bool {
    forall|i: int| 0 <= i < entries.len() ==> (#[trigger] entries[i]).1 == store(entries[i].0)
}

/// Using a tensor keeps the entries faithful.
pub proof fn lemma_touched<T>(
    entries: Seq<Entry<T>>,
    name: Seq<char>,
    store: spec_fn(Seq<char>) -> CachedTensor<T>,
)
    requires
        distinct(entries),
        faithful(entries, store),
        holds_name(entries, name),
    ensures
        distinct(touched(entries, name)),
        faithful(touched(entries, name), store),
        total_bytes(touched(entries, name)) == total_bytes(entries),
{
    let rest = without(entries, name);
    let p = position(entries, name);
    let after = touched(entries, name);
    assert(entries[p].0 == name);
    lemma_without(entries, name);
    lemma_rest_is_faithful(entries, name, store);
    lemma_total_remove(entries, p);
    lemma_total_push(rest, entries[p]);
    assert forall|i: int, j: int| 0 <= i < j < after.len() implies #[trigger] after[i].0
        != #[trigger] after[j].0 by {
        assert(rest[i].0 != name);
    }
}

/// Caching the stored tensor keeps the entries faithful.
pub proof fn lemma_inserted<T>(
    entries: Seq<Entry<T>>,
    name: Seq<char>,
    store: spec_fn(Seq<char>) -> CachedTensor<T>,
    max: nat,
)
    requires
        distinct(entries),
        faithful(entries, store),
    ensures
        distinct(inserted(entries, name, store(name), max)),
        faithful(inserted(entries, name, store(name), max), store),
        total_bytes(inserted(entries, name, store(name), max)) <= max,
{
    let after = inserted(entries, name, store(name), max);
    let all = without(entries, name).push((name, store(name)));
    let cut = evicted_by(entries, name, store(name), max);
    law_insert_keeps_the_most_recent(entries, name, store(name), max);
    lemma_rest_is_faithful(entries, name, store);
    assert forall|i: int| 0 <= i < after.len() implies (#[trigger] after[i]).1 == store(
        after[i].0,
    ) by {
        assert(after[i] == all[cut + i]);
    }
}

proof fn lemma_rest_is_faithful<T>(
    entries: Seq<Entry<T>>,
    name: Seq<char>,
    store: spec_fn(Seq<char>) -> CachedTensor<T>,
)
    requires
        distinct(entries),
        faithful(entries, store),
    ensures
        faithful(without(entries, name), store),
{
    let rest = without(entries, name);
    lemma_without(entries, name);
    assert forall|i: int| 0 <= i < rest.len() implies (#[trigger] rest[i]).1 == store(
        rest[i].0,
    ) by {
        let k = choose|k: int| 0 <= k < entries.len() && entries[k] == rest[i];
        assert(entries[k].1 == store(entries[k].0));
    }
}

/// What a load gives: the resident tensor, or the stored one.
pub open spec fn load_gives<T>(
    entries: Seq<Entry<T>>,
    name: Seq<char>,
    store: spec_fn(Seq<char>) -> CachedTensor<T>,
) -> CachedTensor<T> {
    if holds_name(entries, name) {
        entries[position(entries, name)].1
    } else {
        store(name)
    }
}

/// The entries after a load.
pub open spec fn load_leaves<T>(
    entries: Seq<Entry<T>>,
    name: Seq<char>,
    store: spec_fn(Seq<char>) -> CachedTensor<T>,
    max: nat,
) -> Seq<Entry<T>> {
    if holds_name(entries, name) {
        touched(entries, name)
    } else {
        inserted(entries, name, store(name), max)
    }
}

/// The entries after loads of `names` in turn, from an empty cache.
pub open spec fn after_loads<T>(
    names: Seq<Seq<char>>,
    store: spec_fn(Seq<char>) -> CachedTensor<T>,
    max: nat,
) -> Seq<Entry<T>>
    decreases names.len(),
{
    if names.len() == 0 {
        Seq::empty()
    } else {
        load_leaves(after_loads(names.drop_last(), store, max), names.last(), store, max)
    }
}

/// As long as the store does not change, a load gives the stored tensor, whatever was
/// loaded or evicted before and whatever its size, and the budget is kept. Loading a name
/// twice so gives the same, and so does loading the same names in any other order or with
/// another budget.
pub proof fn law_loads_read_the_store<T>(
    names: Seq<Seq<char>>,
    store: spec_fn(Seq<char>) -> CachedTensor<T>,
    max: nat,
    name: Seq<char>,
)
    ensures
        load_gives(after_loads(names, store, max), name, store) == store(name),
        faithful(after_loads(names, store, max), store),
        distinct(after_loads(names, store, max)),
        total_bytes(after_loads(names, store, max)) <= max,
    decreases names.len(),
{
    let entries = after_loads(names, store, max);
    if names.len() > 0 {
        let early = names.drop_last();
        let last = names.last();
        let before = after_loads(early, store, max);
        law_loads_read_the_store(early, store, max, last);
        if holds_name(before, last) {
            lemma_touched(before, last, store);
        } else {
            lemma_inserted(before, last, store, max);
        }
    }
    if holds_name(entries, name) {
        let p = position(entries, name);
        assert(entries[p].0 == name);
    }
}

impl<T> LruCache<T> {
    /// Names are distinct, sizes are within the budget and add up.
    pub closed spec fn wf(&self) -> bool {
        &&& distinct(self@)
        &&& self.bytes == total_bytes(self@)
        &&& self.bytes <= self.max_bytes
        &&& forall|i: int| 0 <= i < self.entries@.len() ==> (#[trigger] self.entries@[i]).1.sized()
    }

    /// The byte budget.
    pub closed spec fn budget(&self) -> nat {
        self.max_bytes as nat
    }

    /// What the invariant says of the entries.
    pub proof fn lemma_within_budget(&self)
        requires
            self.wf(),
        ensures
            distinct(self@),
            total_bytes(self@) <= self.budget(),
    {
    }

    /// An empty cache with a byte budget.
    pub fn new(max_bytes: usize) -> (c: Self)
        ensures
            c.wf(),
            c@ == Seq::<Entry<T>>::empty(),
            c.budget() == max_bytes,
    {
        let c = LruCache { entries: Vec::new(), bytes: 0, max_bytes };
        proof {
            assert(c@ =~= Seq::<Entry<T>>::empty());
        }
        c
    }

    /// The byte budget.
    pub fn max_bytes(&self) -> (r: usize)
        ensures
            r == self.budget(),
    {
        self.max_bytes
    }

    /// The index of `name`.
    fn find(&self, name: &str) -> (r: Option<usize>)
        requires
            distinct(self@),
        ensures
            match r {
                Some(i) => i < self@.len() && self@[i as int].0 == name@ && holds_name(self@, name@)
                    && position(self@, name@) == i,
                None => !holds_name(self@, name@),
            },
    {
        let key: String = name.to_owned();
        let mut i: usize = 0;
        while i < self.entries.len()
            invariant
                i <= self.entries@.len(),
                key@ == name@,
                distinct(self@),
                forall|j: int| 0 <= j < i ==> #[trigger] self@[j].0 != name@,
            decreases self.entries@.len() - i,
        {
            if self.entries[i].0 == key {
                proof {
                    assert(self@[i as int].0 == name@);
                    lemma_position(self@, i as int);
                }
                return Some(i);
            }
            i = i + 1;
        }
        None
    }

    /// The tensor under `name`, if it is resident. Recency does not change.
    pub fn peek(&self, name: &str) -> (r: Option<&CachedTensor<T>>)
        requires
            self.wf(),
        ensures
            r is Some <==> holds_name(self@, name@),
            r is Some ==> *r->Some_0 == self@[position(self@, name@)].1,
    {
        match self.find(name) {
            Some(i) => Some(&self.entries[i].1),
            None => None,
        }
    }

    /// Makes `name` the most recently used entry, if it is resident.
    pub fn touch(&mut self, name: &str) -> (r: bool)
        requires
            old(self).wf(),
        ensures
            final(self).wf(),
            final(self).budget() == old(self).budget(),
            r == holds_name(old(self)@, name@),
            !r ==> final(self)@ == old(self)@,
            r ==> final(self)@ == touched(old(self)@, name@),
    {
        let ghost before = self@;
        match self.find(name) {
            Some(i) => {
                let e: (String, CachedTensor<T>) = self.entries.remove(i);
                self.entries.push(e);
                proof {
                    assert(before[i as int] == (name@, before[i as int].1));
                    assert(self@ =~= before.remove(i as int).push(before[i as int]));
                    lemma_total_remove(before, i as int);
                    lemma_total_push(before.remove(i as int), before[i as int]);
                }
                true
            },
            None => false,
        }
    }

    /// The most recently used tensor.
    pub fn newest(&self) -> (r: &CachedTensor<T>)
        requires
            self@.len() > 0,
        ensures
            *r == self@.last().1,
    {
        let last: usize = self.entries.len() - 1;
        &self.entries[last].1
    }

    /// The tensor under `name`, if it is resident; it becomes the most recently
    /// used one.
    pub fn get(&mut self, name: &str) -> (r: Option<&CachedTensor<T>>)
        requires
            old(self).wf(),
        ensures
            final(self).wf(),
            final(self).budget() == old(self).budget(),
            r is Some <==> holds_name(old(self)@, name@),
            r is None ==> final(self)@ == old(self)@,
            r is Some ==> *r->Some_0 == old(self)@[position(old(self)@, name@)].1,
            r is Some ==> final(self)@ == touched(old(self)@, name@),
    {
        if self.touch(name) {
            Some(self.newest())
        } else {
            None
        }
    }

    /// Caches a tensor under `name` as the most recently used entry, in place of
    /// any tensor already there, and evicts the least recently used entries while
    /// the budget is exceeded. Returns how many were evicted.
    pub fn insert(&mut self, name: &str, t: CachedTensor<T>) -> (r: usize)
        requires
            old(self).wf(),
            t.sized(),
        ensures
            final(self).wf(),
            final(self).budget() == old(self).budget(),
            final(self)@ == inserted(old(self)@, name@, t, old(self).budget()),
            r == evicted_by(old(self)@, name@, t, old(self).budget()),
    {
        let ghost before = self@;
        let ghost max = self.max_bytes as nat;
        match self.find(name) {
            Some(i) => {
                let e: (String, CachedTensor<T>) = self.entries.remove(i);
                let size: usize = e.1.bytes_of();
                proof {
                    lemma_total_remove(before, i as int);
                    assert(self@ =~= before.remove(i as int));
                }
                self.bytes = self.bytes - size;
            },
            None => {},
        }
        let ghost rest = self@;
        proof {
            assert(rest == without(before, name@));
        }
        let size: usize = t.bytes_of();
        let ghost item: Entry<T> = (name@, t);
        let ghost full = rest.push(item);
        self.entries.push((name.to_owned(), t));
        proof {
            assert(self@ =~= full);
            lemma_total_push(rest, item);
            assert(distinct(full));
        }
        let count: usize = self.entries.len();
        if size > self.max_bytes {
            self.entries.clear();
            self.bytes = 0;
            proof {
                lemma_oversized_leaves(rest, item, max);
                assert(self@ =~= Seq::<Entry<T>>::empty());
            }
            return count;
        }
        let room: usize = self.max_bytes - size;
        let ghost mut older = rest;
        let mut dropped: usize = 0;
        while self.bytes > room
            invariant
                distinct(self@),
                self@ == older.push(item),
                item.1.bytes() == size,
                self.bytes == total_bytes(older),
                self.max_bytes == old(self).max_bytes,
                max == self.max_bytes,
                size + room == max,
                trimmed(full, max) == trimmed(self@, max),
                dropped == full.len() - self@.len(),
                full.len() == count,
                forall|i: int|
                    0 <= i < self.entries@.len() ==> (#[trigger] self.entries@[i]).1.sized(),
            decreases self@.len(),
        {
            let ghost cur = self@;
            proof {
                assert(older.len() > 0);
                lemma_total_push(older, item);
                assert(self.entries@[0].1.sized());
                assert(cur[0] == older[0]);
                lemma_total_remove(older, 0);
                assert(older.remove(0) =~= older.drop_first());
                assert(cur.remove(0) =~= older.drop_first().push(item));
                assert(cur.remove(0) =~= cur.drop_first());
                older = older.drop_first();
            }
            let e: (String, CachedTensor<T>) = self.entries.remove(0);
            let gone: usize = e.1.bytes_of();
            proof {
                assert(self@ =~= cur.remove(0));
            }
            self.bytes = self.bytes - gone;
            dropped = dropped + 1;
        }
        proof {
            lemma_total_push(older, item);
        }
        self.bytes = self.bytes + size;
        dropped
    }

    /// Resident size in bytes.
    pub fn resident_bytes(&self) -> (r: usize)
        requires
            self.wf(),
        ensures
            r == total_bytes(self@),
            r <= self.budget(),
    {
        self.bytes
    }

    /// Number of resident tensors.
    pub fn len(&self) -> (r: usize)
        ensures
            r == self@.len(),
    {
        self.entries.len()
    }

    pub fn is_empty(&self) -> (r: bool)
        ensures
            r <==> self@.len() == 0,
    {
        self.entries.len() == 0
    }

    /// Drops every entry.
    pub fn clear(&mut self)
        requires
            old(self).wf(),
        ensures
            final(self).wf(),
            final(self)@ == Seq::<Entry<T>>::empty(),
            final(self).budget() == old(self).budget(),
    {
        self.entries.clear();
        self.bytes = 0;
        proof {
            assert(self@ =~= Seq::<Entry<T>>::empty());
        }
    }
}

/// A cache of materialized weights that counts its evictions.
pub struct WeightCache<T> {
    lru: LruCache<T>,
    evictions: usize,
}

impl<T> View for WeightCache<T> {
    type V = Seq<Entry<T>>;

    /// The resident entries, least recently used first.
    closed spec fn view(&self) -> Seq<Entry<T>> {
        self.lru@
    }
}

impl<T> WeightCache<T> {
    /// The invariant of the entries.
    pub closed spec fn wf(&self) -> bool {
        self.lru.wf()
    }

    /// The byte budget.
    pub closed spec fn budget(&self) -> nat {
        self.lru.budget()
    }

    /// How many entries were evicted so far.
    pub closed spec fn evicted(&self) -> nat {
        self.evictions as nat
    }

    /// What the invariant says of the entries.
    pub proof fn lemma_within_budget(&self)
        requires
            self.wf(),
        ensures
            distinct(self@),
            total_bytes(self@) <= self.budget(),
    {
        self.lru.lemma_within_budget();
    }

    /// An empty cache with a byte budget.
    pub fn new(max_bytes: usize) -> (c: Self)
        ensures
            c.wf(),
            c@ == Seq::<Entry<T>>::empty(),
            c.budget() == max_bytes,
            c.evicted() == 0,
    {
        WeightCache { lru: LruCache::new(max_bytes), evictions: 0 }
    }

    /// Makes `name` the most recently used entry, if it is resident.
    pub fn touch(&mut self, name: &str) -> (r: bool)
        requires
            old(self).wf(),
        ensures
            final(self).wf(),
            final(self).budget() == old(self).budget(),
            final(self).evicted() == old(self).evicted(),
            r == holds_name(old(self)@, name@),
            !r ==> final(self)@ == old(self)@,
            r ==> final(self)@ == touched(old(self)@, name@),
    {
        self.lru.touch(name)
    }

    /// The most recently used tensor.
    pub fn newest(&self) -> (r: &CachedTensor<T>)
        requires
            self@.len() > 0,
        ensures
            *r == self@.last().1,
    {
        self.lru.newest()
    }

    /// The tensor under `name`, if it is resident; it becomes the most recently
    /// used one.
    pub fn get(&mut self, name: &str) -> (r: Option<&CachedTensor<T>>)
        requires
            old(self).wf(),
        ensures
            final(self).wf(),
            final(self).budget() == old(self).budget(),
            final(self).evicted() == old(self).evicted(),
            r is Some <==> holds_name(old(self)@, name@),
            r is None ==> final(self)@ == old(self)@,
            r is Some ==> *r->Some_0 == old(self)@[position(old(self)@, name@)].1,
            r is Some ==> final(self)@ == touched(old(self)@, name@),
    {
        if self.touch(name) {
            Some(self.newest())
        } else {
            None
        }
    }

    /// Caches a tensor under `name` as the most recently used entry, in place of
    /// any tensor already there, and evicts the least recently used entries while
    /// the budget is exceeded.
    pub fn insert(&mut self, name: &str, t: CachedTensor<T>)
        requires
            old(self).wf(),
            t.sized(),
            old(self).evicted() + evicted_by(old(self)@, name@, t, old(self).budget())
                <= usize::MAX,
        ensures
            final(self).wf(),
            final(self).budget() == old(self).budget(),
            final(self)@ == inserted(old(self)@, name@, t, old(self).budget()),
            final(self).evicted() == old(self).evicted() + evicted_by(
                old(self)@,
                name@,
                t,
                old(self).budget(),
            ),
    {
        let dropped: usize = self.lru.insert(name, t);
        self.evictions = self.evictions + dropped;
    }

    /// Resident size in bytes.
    pub fn resident_bytes(&self) -> (r: usize)
        requires
            self.wf(),
        ensures
            r == total_bytes(self@),
            r <= self.budget(),
    {
        self.lru.resident_bytes()
    }

    /// Number of resident tensors.
    pub fn len(&self) -> (r: usize)
        ensures
            r == self@.len(),
    {
        self.lru.len()
    }

    /// Number of evictions since construction.
    pub fn evictions(&self) -> (r: usize)
        ensures
            r == self.evicted(),
    {
        self.evictions
    }
}

/// A tensor takes its element count times the size of an element, and entries together
/// what they take one by one.
pub proof fn law_resident_bytes<T>(a: Seq<Entry<T>>, b: Seq<Entry<T>>, e: Entry<T>)
    ensures
        total_bytes(Seq::<Entry<T>>::empty()) == 0,
        total_bytes(seq![e]) == elem_count(e.1.dims@) * dtype_size(e.1.dtype),
        total_bytes(a + b) == total_bytes(a) + total_bytes(b),
    decreases b.len(),
{
    assert(seq![e].drop_last() =~= Seq::<Entry<T>>::empty());
    if b.len() == 0 {
        assert(a + b =~= a);
    } else {
        law_resident_bytes(a, b.drop_last(), e);
        assert((a + b).drop_last() =~= a + b.drop_last());
    }
}

/// Using a resident tensor only moves it: everything else stays, in its order, and the
/// tensor itself is the newest. `p` is where it was, and `i` is any other place.
pub proof fn law_touch_only_moves<T>(entries: Seq<Entry<T>>, name: Seq<char>, p: int, i: int)
    requires
        distinct(entries),
        0 <= p < entries.len(),
        entries[p].0 == name,
        0 <= i < entries.len(),
    ensures
        touched(entries, name).len() == entries.len(),
        touched(entries, name).last() == entries[p],
        i < p ==> touched(entries, name)[i] == entries[i],
        i > p ==> touched(entries, name)[i - 1] == entries[i],
        total_bytes(touched(entries, name)) == total_bytes(entries),
{
    lemma_position(entries, p);
    assert(holds_name(entries, name));
    assert(entries[p] == (name, entries[p].1));
    let rest = entries.remove(p);
    lemma_total_remove(entries, p);
    lemma_total_push(rest, entries[p]);
}

/// Caching a tensor within the budget leaves everything else as it is, in its order: only
/// what was resident under the name goes. `i` is any place of another name.
pub proof fn law_insert_within_budget<T>(
    entries: Seq<Entry<T>>,
    name: Seq<char>,
    t: CachedTensor<T>,
    max: nat,
    p: int,
    i: int,
)
    requires
        distinct(entries),
        total_bytes(entries) + t.bytes() <= max,
        0 <= i < entries.len(),
        entries[i].0 != name,
        (0 <= p < entries.len() && entries[p].0 == name) || (p == entries.len() && !holds_name(
            entries,
            name,
        )),
    ensures
        ({
            let after = inserted(entries, name, t, max);
            &&& after.last() == (name, t)
            &&& after.len() == if p < entries.len() {
                entries.len()
            } else {
                entries.len() + 1
            }
            &&& i < p ==> after[i] == entries[i]
            &&& i > p ==> after[i - 1] == entries[i]
        }),
{
    let rest = without(entries, name);
    lemma_total_push(rest, (name, t));
    if p < entries.len() {
        lemma_position(entries, p);
        assert(holds_name(entries, name));
        lemma_total_remove(entries, p);
    }
}

/// What is resident under a name is found, and nothing is found under another.
pub proof fn law_lookup<T>(entries: Seq<Entry<T>>, name: Seq<char>, p: int)
    requires
        distinct(entries),
        0 <= p < entries.len(),
    ensures
        entries[p].0 == name ==> holds_name(entries, name) && position(entries, name) == p,
        holds_name(entries, name) && position(entries, name) == p ==> entries[p].0 == name,
{
    if entries[p].0 == name {
        lemma_position(entries, p);
    }
}

} // verus!
