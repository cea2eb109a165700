use std::sync::Arc;
use vstd::prelude::*;

verus! {

/// One subscription: the `index`-th entry of the subscription list of the
/// controller keyed `controller`.
#[derive(Clone, Copy, Debug, PartialEq, Eq, Structural)]
pub struct Slot {
    pub controller: u64,
    pub index: usize,
}

/// One invocation that a tick owes: the controller of `slot` on `entity`.
#[verifier::reject_recursive_types(EN)]
pub struct Dispatch<EN: ?Sized> {
    pub slot: Slot,
    pub entity: Arc<EN>,
}

/// The slot and entity of each dispatch, in order.
pub open spec fn dispatch_pairs<EN: ?Sized>(d: Seq<Dispatch<EN>>) -> Seq<(Slot, Arc<EN>)> {
    d.map_values(|x: Dispatch<EN>| (x.slot, x.entity))
}

/// Which slots resolved, from what resolving each one returned.
pub open spec fn alive_of<EN: ?Sized>(resolved: Seq<Option<Arc<EN>>>) -> Seq<bool> {
    resolved.map_values(|o: Option<Arc<EN>>| o is Some)
}

/// The dispatches owed for `slots` when the `i`-th slot's reference resolved to
/// `resolved[i]`: each slot that resolved, with its entity, in slot order.
pub open spec fn dispatches_of<EN: ?Sized>(
    slots: Seq<Slot>,
    resolved: Seq<Option<Arc<EN>>>,
) -> Seq<(Slot, Arc<EN>)>
    decreases slots.len(),
{
    if slots.len() == 0 {
        Seq::empty()
    } else {
        let n = slots.len() - 1;
        let rest = dispatches_of(slots.take(n), resolved);
        match resolved[n] {
            Some(e) => rest.push((slots[n], e)),
            None => rest,
        }
    }
}

/// Pairs each slot whose reference resolved with the entity it resolved to, and
/// skips the others, keeping slot order.
pub fn collect_dispatches<EN: ?Sized>(slots: &Vec<Slot>, resolved: Vec<Option<Arc<EN>>>) -> (r: Vec<
    Dispatch<EN>,
>)
    requires
        resolved@.len() == slots@.len(),
    ensures
        dispatch_pairs(r@) == dispatches_of(slots@, resolved@),
{
    let ghost all = resolved@;
    let mut rest = resolved;
    let mut r: Vec<Dispatch<EN>> = Vec::new();
    let mut i: usize = 0;
    assert(dispatch_pairs(r@) =~= Seq::<(Slot, Arc<EN>)>::empty());
    while i < slots.len()
        invariant
            i <= slots@.len(),
            all.len() == slots@.len(),
            rest@ == all.subrange(i as int, all.len() as int),
            dispatch_pairs(r@) == dispatches_of(slots@.take(i as int), all),
        decreases slots@.len() - i,
    {
        assert(slots@.take(i as int + 1).take(i as int) =~= slots@.take(i as int));
        let next = rest.remove(0);
        assert(rest@ =~= all.subrange(i as int + 1, all.len() as int));
        match next {
            Some(entity) => {
                let ghost prev = r@;
                r.push(Dispatch { slot: slots[i], entity });
                assert(dispatch_pairs(r@) =~= dispatch_pairs(prev).push((slots@[i as int], entity)));
            },
            None => {},
        }
        i = i + 1;
    }
    assert(slots@.take(slots@.len() as int) =~= slots@);
    r
}

/// The slots of the owed dispatches are the slots that resolved.
pub proof fn lemma_dispatch_slots<EN: ?Sized>(slots: Seq<Slot>, resolved: Seq<Option<Arc<EN>>>)
    requires
        resolved.len() >= slots.len(),
    ensures
        dispatches_of(slots, resolved).map_values(|p: (Slot, Arc<EN>)| p.0) == live_slots(
            slots,
            alive_of(resolved),
        ),
    decreases slots.len(),
{
    if slots.len() > 0 {
        let n = slots.len() - 1;
        lemma_dispatch_slots(slots.take(n), resolved);
        let rest = dispatches_of(slots.take(n), resolved);
        match resolved[n] {
            Some(e) => {
                assert(rest.push((slots[n], e)).map_values(|p: (Slot, Arc<EN>)| p.0) =~= rest.map_values(
                    |p: (Slot, Arc<EN>)| p.0,
                ).push(slots[n]));
            },
            None => {},
        }
    }
}

/// Each owed dispatch carries the entity its slot resolved to.
pub proof fn lemma_dispatch_entity<EN: ?Sized>(
    slots: Seq<Slot>,
    resolved: Seq<Option<Arc<EN>>>,
    k: int,
)
    requires
        resolved.len() >= slots.len(),
        0 <= k < dispatches_of(slots, resolved).len(),
    ensures
        exists|i: int|
            0 <= i < slots.len() && resolved[i] == Some(dispatches_of(slots, resolved)[k].1)
                && slots[i] == dispatches_of(slots, resolved)[k].0,
    decreases slots.len(),
{
    let n = slots.len() - 1;
    let rest = dispatches_of(slots.take(n), resolved);
    if k < rest.len() {
        lemma_dispatch_entity(slots.take(n), resolved, k);
        let i = choose|i: int|
            0 <= i < slots.take(n).len() && resolved[i] == Some(rest[k].1) && slots.take(n)[i]
                == rest[k].0;
        assert(slots[i] == slots.take(n)[i]);
    } else {
        assert(resolved[n] is Some);
        assert(resolved[n] == Some(dispatches_of(slots, resolved)[k].1));
    }
}

/// The slots of the subscription lists `subs`, controller after controller in the
/// order `order`, each list front to back.
pub open spec fn slots_of<W>(order: Seq<u64>, subs: Map<u64, Seq<W>>) -> Seq<Slot>
    decreases order.len(),
{
    if order.len() == 0 {
        Seq::empty()
    } else {
        let c = order.last();
        slots_of(order.drop_last(), subs) + Seq::new(
            subs[c].len(),
            |i: int| Slot { controller: c, index: i as usize },
        )
    }
}

/// Every slot names a controller of `order` and an index inside its list.
pub proof fn lemma_slot_in_range<W>(order: Seq<u64>, subs: Map<u64, Seq<W>>, k: int)
    requires
        0 <= k < slots_of(order, subs).len(),
        forall|c: u64| order.contains(c) ==> #[trigger] subs[c].len() <= usize::MAX,
    ensures
        order.contains(slots_of(order, subs)[k].controller),
        slots_of(order, subs)[k].index < subs[slots_of(order, subs)[k].controller].len(),
    decreases order.len(),
{
    let prefix = order.drop_last();
    let c = order.last();
    let head = slots_of(prefix, subs);
    assert(order.contains(c)) by {
        assert(order[order.len() - 1] == c);
    }
    if k < head.len() {
        assert forall|d: u64| prefix.contains(d) implies #[trigger] subs[d].len() <= usize::MAX by {
            let m = choose|m: int| 0 <= m < prefix.len() && prefix[m] == d;
            assert(order[m] == d);
        }
        lemma_slot_in_range(prefix, subs, k);
        let d = head[k].controller;
        let m = choose|m: int| 0 <= m < prefix.len() && prefix[m] == d;
        assert(order[m] == d);
    }
}

/// Each entry of a listed controller's subscription list has its slot.
pub proof fn lemma_slot_present<W>(order: Seq<u64>, subs: Map<u64, Seq<W>>, c: u64, k: int)
    requires
        order.contains(c),
        0 <= k < subs[c].len(),
        k <= usize::MAX,
    ensures
        slots_of(order, subs).contains(Slot { controller: c, index: k as usize }),
    decreases order.len(),
{
    let prefix = order.drop_last();
    let head = slots_of(prefix, subs);
    let s = Slot { controller: c, index: k as usize };
    if order.last() == c {
        assert(slots_of(order, subs)[head.len() + k] == s);
    } else {
        let m = choose|m: int| 0 <= m < order.len() && order[m] == c;
        assert(prefix[m] == c);
        lemma_slot_present(prefix, subs, c, k);
        let n = choose|n: int| 0 <= n < head.len() && head[n] == s;
        assert(slots_of(order, subs)[n] == s);
    }
}

/// Distinct controllers, each list short enough for its indices: every slot
/// appears once.
pub proof fn lemma_slots_distinct<W>(order: Seq<u64>, subs: Map<u64, Seq<W>>)
    requires
        order.no_duplicates(),
        forall|c: u64| order.contains(c) ==> #[trigger] subs[c].len() <= usize::MAX,
    ensures
        slots_of(order, subs).no_duplicates(),
    decreases order.len(),
{
    if order.len() > 0 {
        let prefix = order.drop_last();
        let c = order.last();
        let head = slots_of(prefix, subs);
        let all = slots_of(order, subs);
        assert(prefix.no_duplicates());
        assert forall|d: u64| prefix.contains(d) implies #[trigger] subs[d].len() <= usize::MAX by {
            let m = choose|m: int| 0 <= m < prefix.len() && prefix[m] == d;
            assert(order[m] == d);
        }
        assert(order.contains(c)) by {
            assert(order[order.len() - 1] == c);
        }
        lemma_slots_distinct(prefix, subs);
        assert forall|a: int, b: int| 0 <= a < b < all.len() implies all[a] != all[b] by {
            if b >= head.len() && a < head.len() {
                lemma_slot_in_range(prefix, subs, a);
                if prefix.contains(c) {
                    let m = choose|m: int| 0 <= m < prefix.len() && prefix[m] == c;
                    assert(order[m] == order[order.len() - 1]);
                }
            }
        }
    }
}

/// The slots whose entity resolved (`alive[i]` for the `i`-th slot), in order.
pub open spec fn live_slots(slots: Seq<Slot>, alive: Seq<bool>) -> Seq<Slot>
    decreases slots.len(),
{
    if slots.len() == 0 {
        Seq::empty()
    } else {
        let n = slots.len() - 1;
        let rest = live_slots(slots.take(n), alive);
        if alive[n] {
            rest.push(slots[n])
        } else {
            rest
        }
    }
}

/// Everything that `live_slots` keeps is a slot of the input whose entity resolved.
pub proof fn lemma_live_slots_from(slots: Seq<Slot>, alive: Seq<bool>, s: Slot)
    requires
        live_slots(slots, alive).contains(s),
    ensures
        exists|j: int| 0 <= j < slots.len() && alive[j] && slots[j] == s,
    decreases slots.len(),
{
    let n = slots.len() - 1;
    let rest = live_slots(slots.take(n), alive);
    if alive[n] && s == slots[n] {
        assert(0 <= n < slots.len() && alive[n] && slots[n] == s);
    } else {
        if alive[n] {
            let k = choose|k: int| 0 <= k < rest.push(slots[n]).len() && rest.push(slots[n])[k] == s;
            assert(rest[k] == s);
        }
        assert(rest.contains(s));
        lemma_live_slots_from(slots.take(n), alive, s);
        let j = choose|j: int| 0 <= j < slots.take(n).len() && alive[j] && slots.take(n)[j] == s;
        assert(slots[j] == s);
    }
}

/// A slot whose entity resolved is kept.
pub proof fn lemma_live_slots_keeps(slots: Seq<Slot>, alive: Seq<bool>, i: int)
    requires
        0 <= i < slots.len(),
        alive[i],
    ensures
        live_slots(slots, alive).contains(slots[i]),
    decreases slots.len(),
{
    let n = slots.len() - 1;
    let rest = live_slots(slots.take(n), alive);
    if i == n {
        assert(rest.push(slots[n])[rest.len() as int] == slots[i]);
    } else {
        lemma_live_slots_keeps(slots.take(n), alive, i);
        assert(slots.take(n)[i] == slots[i]);
        if alive[n] {
            let k = choose|k: int| 0 <= k < rest.len() && rest[k] == slots[i];
            assert(rest.push(slots[n])[k] == slots[i]);
        }
    }
}

/// Selecting live slots keeps distinct slots distinct.
pub proof fn lemma_live_slots_distinct(slots: Seq<Slot>, alive: Seq<bool>)
    requires
        slots.no_duplicates(),
    ensures
        live_slots(slots, alive).no_duplicates(),
    decreases slots.len(),
{
    if slots.len() > 0 {
        let n = slots.len() - 1;
        let rest = live_slots(slots.take(n), alive);
        assert(slots.take(n).no_duplicates());
        lemma_live_slots_distinct(slots.take(n), alive);
        if alive[n] {
            if rest.contains(slots[n]) {
                lemma_live_slots_from(slots.take(n), alive, slots[n]);
                let j = choose|j: int| 0 <= j < slots.take(n).len() && alive[j] && slots.take(n)[j] == slots[n];
                assert(slots[j] == slots[n]);
            }
            assert(rest.push(slots[n]).no_duplicates()) by {
                assert forall|a: int, b: int| 0 <= a < b < rest.len() + 1 implies rest.push(slots[n])[a] != rest.push(slots[n])[b] by {
                    if b == rest.len() {
                        assert(rest.contains(rest[a]));
                    }
                }
            }
        }
    }
}

/// Dispatch coverage: when the slots are distinct, a tick that selects the live
/// ones dispatches each slot whose entity resolved exactly once, and none whose
/// entity is gone.
pub proof fn lemma_dispatch_exactly_once(slots: Seq<Slot>, alive: Seq<bool>, i: int)
    requires
        slots.no_duplicates(),
        alive.len() == slots.len(),
        0 <= i < slots.len(),
    ensures
        live_slots(slots, alive).no_duplicates(),
        live_slots(slots, alive).contains(slots[i]) == alive[i],
{
    lemma_live_slots_distinct(slots, alive);
    if alive[i] {
        lemma_live_slots_keeps(slots, alive, i);
    } else if live_slots(slots, alive).contains(slots[i]) {
        lemma_live_slots_from(slots, alive, slots[i]);
    }
}

} // verus!
