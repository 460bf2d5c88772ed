//! Sequences of operations: what holds of a cache after any run of inserts
//! and lookups, and how its recency order reflects the order of the calls.

use crate::lru_state::LruState;
use crate::seq_facts::lemma_remove_value_at;
use vstd::prelude::*;

verus! {

/// One mutating operation on a cache.
pub enum Op<V> {
    /// An insert of `key` with `value`.
    Put { key: Seq<char>, value: V },
    /// A lookup of `key`.
    Get { key: Seq<char> },
}

impl<V> LruState<V> {
    /// The state after one operation.
    pub open spec fn step(self, op: Op<V>) -> Self {
        match op {
            Op::Put { key, value } => self.put(key, value),
            Op::Get { key } => self.touch(key),
        }
    }
}

/// The state of a cache of the given capacity after the operations `ops`,
/// applied in order to the empty cache.
pub open spec fn run<V>(capacity: nat, ops: Seq<Op<V>>) -> LruState<V>
    decreases ops.len(),
{
    if ops.len() == 0 {
        LruState::empty(capacity)
    } else {
        run(capacity, ops.drop_last()).step(ops.last())
    }
}

/// Whether operation number `i` of `ops` touches `key`: it inserts the key,
/// or it looks the key up and finds it.
pub open spec fn touches<V>(capacity: nat, ops: Seq<Op<V>>, i: int, key: Seq<char>) -> bool
    recommends
        0 <= i < ops.len(),
{
    match ops[i] {
        Op::Put { key: k, .. } => k == key,
        Op::Get { key: k } => k == key && run(capacity, ops.take(i)).entries.contains_key(key),
    }
}

/// The number of the latest operation of `ops` that touches `key`, or -1 if
/// none does.
pub open spec fn last_touch<V>(capacity: nat, ops: Seq<Op<V>>, key: Seq<char>) -> int
    decreases ops.len(),
{
    if ops.len() == 0 {
        -1
    } else if touches(capacity, ops, ops.len() - 1, key) {
        ops.len() - 1
    } else {
        last_touch(capacity, ops.drop_last(), key)
    }
}

/// Whether the recency order reached by `ops` lists the resident keys by the
/// time of their last touch, earliest first.
pub open spec fn ordered_by_last_touch<V>(capacity: nat, ops: Seq<Op<V>>) -> bool {
    let order = run(capacity, ops).order;
    &&& forall|i: int|
        0 <= i < order.len() ==> 0 <= #[trigger] last_touch(capacity, ops, order[i])
    &&& forall|i: int, j: int|
        0 <= i < j < order.len() ==> last_touch(capacity, ops, #[trigger] order[i]) < last_touch(
            capacity,
            ops,
            #[trigger] order[j],
        )
}

/// After any sequence of operations the cache is valid: it holds no more
/// than its capacity, and its recency order lists exactly the resident keys,
/// each once.
pub proof fn lemma_run_inv<V>(capacity: nat, ops: Seq<Op<V>>)
    ensures
        run(capacity, ops).inv(),
        run(capacity, ops).capacity == capacity,
        run(capacity, ops).size() <= capacity,
    decreases ops.len(),
{
    if ops.len() == 0 {
        LruState::<V>::lemma_empty(capacity);
    } else {
        let before = run(capacity, ops.drop_last());
        lemma_run_inv(capacity, ops.drop_last());
        match ops.last() {
            Op::Put { key, value } => before.lemma_put_inv(key, value),
            Op::Get { key } => before.lemma_touch_inv(key),
        }
    }
    run(capacity, ops).lemma_size();
}

/// `last_touch` names an operation of the sequence that touches the key and
/// is followed by none that does; it is -1 exactly if no operation touches
/// the key.
pub proof fn lemma_last_touch<V>(capacity: nat, ops: Seq<Op<V>>, key: Seq<char>)
    ensures
        -1 <= last_touch(capacity, ops, key) < ops.len(),
        last_touch(capacity, ops, key) >= 0 ==> touches(
            capacity,
            ops,
            last_touch(capacity, ops, key),
            key,
        ),
        forall|i: int|
            last_touch(capacity, ops, key) < i < ops.len() ==> !#[trigger] touches(
                capacity,
                ops,
                i,
                key,
            ),
    decreases ops.len(),
{
    if ops.len() > 0 {
        let shorter = ops.drop_last();
        lemma_last_touch(capacity, shorter, key);
        assert forall|i: int| 0 <= i < shorter.len() implies touches(capacity, shorter, i, key)
            == touches(capacity, ops, i, key) by {
            assert(shorter.take(i) =~= ops.take(i));
        }
    }
}

/// One more operation keeps the recency order sorted by last touch, if it
/// touches `used` only and leaves an order made of keys of the old order, in
/// their old relative order, followed by `used`.
proof fn lemma_touch_order_step<V>(
    capacity: nat,
    ops: Seq<Op<V>>,
    kept: Seq<Seq<char>>,
    used: Seq<char>,
    from: spec_fn(int) -> int,
)
    requires
        ops.len() > 0,
        ordered_by_last_touch(capacity, ops.drop_last()),
        touches(capacity, ops, ops.len() - 1, used),
        run(capacity, ops).order == kept.push(used),
        forall|i: int|
            0 <= i < kept.len() ==> 0 <= #[trigger] from(i) < run(
                capacity,
                ops.drop_last(),
            ).order.len() && kept[i] == run(capacity, ops.drop_last()).order[from(i)] && kept[i]
                != used,
        forall|i: int, j: int|
            0 <= i < j < kept.len() ==> #[trigger] from(i) < #[trigger] from(j),
    ensures
        ordered_by_last_touch(capacity, ops),
{
    let shorter = ops.drop_last();
    let last = ops.len() - 1;
    let before = run(capacity, shorter).order;
    let after = run(capacity, ops).order;
    assert(last_touch(capacity, ops, used) == last);
    assert forall|i: int| 0 <= i < kept.len() implies #[trigger] last_touch(
        capacity,
        ops,
        after[i],
    ) == last_touch(capacity, shorter, before[from(i)]) && 0 <= last_touch(
        capacity,
        ops,
        after[i],
    ) < last by {
        assert(0 <= from(i) < before.len());
        assert(after[i] == kept[i]);
        assert(!touches(capacity, ops, last, kept[i]));
        lemma_last_touch(capacity, shorter, before[from(i)]);
    }
    assert forall|i: int, j: int| 0 <= i < j < after.len() implies last_touch(
        capacity,
        ops,
        #[trigger] after[i],
    ) < last_touch(capacity, ops, #[trigger] after[j]) by {
        assert(0 <= from(i) < before.len());
        if j < kept.len() {
            assert(from(i) < from(j));
        } else {
            assert(after[j] == used);
        }
    }
    assert forall|i: int| 0 <= i < after.len() implies 0 <= #[trigger] last_touch(
        capacity,
        ops,
        after[i],
    ) by {
        if i == kept.len() {
            assert(after[i] == used);
        }
    }
}

/// After any sequence of operations the recency order lists the resident
/// keys in the order in which they were last touched, by an insert or a
/// successful lookup: the front key is the one touched longest ago.
pub proof fn lemma_order_is_touch_order<V>(capacity: nat, ops: Seq<Op<V>>)
    ensures
        ordered_by_last_touch(capacity, ops),
    decreases ops.len(),
{
    if ops.len() > 0 {
        let shorter = ops.drop_last();
        let before = run(capacity, shorter);
        let after = run(capacity, ops);
        lemma_order_is_touch_order(capacity, shorter);
        lemma_run_inv(capacity, shorter);
        before.lemma_size();
        assert(ops.take(ops.len() - 1) =~= shorter);
        let used = match ops.last() {
            Op::Put { key, .. } => key,
            Op::Get { key } => key,
        };
        let resident = before.entries.contains_key(used);
        assert(resident <==> before.order.to_set().contains(used));
        if ops.last() is Put && capacity == 0 {
            assert(after.order.len() == 0);
        } else if ops.last() is Get && !resident {
            assert(after == before);
            assert forall|k: Seq<char>| #[trigger]
                last_touch(capacity, ops, k) == last_touch(capacity, shorter, k) by {}
        } else if resident {
            let at = choose|at: int| 0 <= at < before.order.len() && before.order[at] == used;
            lemma_remove_value_at(before.order, at);
            let kept = before.order.remove(at);
            assert(after.order == kept.push(used));
            lemma_touch_order_step(
                capacity,
                ops,
                kept,
                used,
                |i: int|
                    if i < at {
                        i
                    } else {
                        i + 1
                    },
            );
        } else {
            assert forall|i: int| 0 <= i < before.order.len() implies before.order[i]
                != used by {
                assert(before.order.contains(before.order[i]));
            }
            if before.size() >= capacity {
                let kept = before.order.drop_first();
                assert(after.order == kept.push(used));
                lemma_touch_order_step(capacity, ops, kept, used, |i: int| i + 1);
            } else {
                assert(after.order == before.order.push(used));
                lemma_touch_order_step(capacity, ops, before.order, used, |i: int| i);
            }
        }
    }
}

/// After any sequence of operations, an insert of a new key into the full
/// cache evicts the resident key whose last touch lies furthest back.
pub proof fn lemma_evicts_least_recently_touched<V>(
    capacity: nat,
    ops: Seq<Op<V>>,
    key: Seq<char>,
    value: V,
)
    requires
        capacity > 0,
        !run(capacity, ops).entries.contains_key(key),
        run(capacity, ops).size() == capacity,
    ensures
        run(capacity, ops).entries.contains_key(run(capacity, ops).least_recent()),
        !run(capacity, ops.push(Op::Put { key, value })).entries.contains_key(
            run(capacity, ops).least_recent(),
        ),
        forall|k: Seq<char>|
            k != run(capacity, ops).least_recent() && #[trigger] run(
                capacity,
                ops,
            ).entries.contains_key(k) ==> last_touch(
                capacity,
                ops,
                run(capacity, ops).least_recent(),
            ) < last_touch(capacity, ops, k) && run(
                capacity,
                ops.push(Op::Put { key, value }),
            ).entries.contains_key(k),
{
    let before = run(capacity, ops);
    let longer = ops.push(Op::Put { key, value });
    assert(longer.drop_last() =~= ops);
    lemma_run_inv(capacity, ops);
    lemma_order_is_touch_order(capacity, ops);
    before.lemma_size();
    before.lemma_put_absent_when_full(key, value);
    assert forall|k: Seq<char>|
        k != before.least_recent() && #[trigger] before.entries.contains_key(
            k,
        ) implies last_touch(capacity, ops, before.least_recent()) < last_touch(
        capacity,
        ops,
        k,
    ) by {
        assert(before.order.to_set().contains(k));
        let at = choose|at: int| 0 <= at < before.order.len() && before.order[at] == k;
        assert(before.order[0] == before.least_recent());
        assert(0 < at);
    }
}

} // verus!
