use std::collections::BTreeMap;
use std::collections::BTreeSet;
use std::sync::Arc;
use vstd::prelude::*;

use crate::dispatch::{
    alive_of, collect_dispatches, dispatch_pairs, dispatches_of, lemma_dispatch_entity,
    lemma_dispatch_exactly_once, lemma_dispatch_slots, lemma_slot_present, lemma_slots_distinct,
    slots_of, Dispatch, Slot,
};
use crate::handle::WeakRef;
use crate::keys::{has_free_from, is_first_free, keygen};

verus! {

broadcast use vstd::std_specs::btree::group_btree_axioms;

/// Why a registration by keys was refused.
#[derive(Clone, Copy, Debug, PartialEq, Eq, Structural)]
pub enum RegisterError {
    /// No controller holds the given key; the entity key is known.
    MissingController,
    /// No entity holds the given key; the controller key is known.
    MissingEntity,
    /// Neither key is known.
    MissingBoth,
}

/// The registry: entities and controllers under keys of their own, and for each
/// controller the weak references to the entities subscribed to it.
///
/// `EN` is what an entity handle shares (a lockable entity), `CT` what a
/// controller handle shares, `G` the global state handed to every invocation.
#[verifier::reject_recursive_types(EN)]
#[verifier::reject_recursive_types(CT)]
pub struct XGEngine<EN: ?Sized, CT: ?Sized, G> {
    pub global_state: G,
    entities: BTreeMap<u64, Arc<EN>>,
    controllers: BTreeMap<u64, Arc<CT>>,
    subscriptions: BTreeMap<u64, Vec<WeakRef<EN>>>,
    controller_order: Vec<u64>,
    used_entity_keys: BTreeSet<u64>,
    next_entity_key: u64,
    used_controller_keys: BTreeSet<u64>,
    next_controller_key: u64,
}

impl<EN: ?Sized, CT: ?Sized, G> XGEngine<EN, CT, G> {
    /// The entity table: each entity's shared handle, by entity key.
    pub closed spec fn entity_table(&self) -> Map<u64, Arc<EN>> {
        self.entities@
    }

    /// The controller table: each controller's shared handle, by controller key.
    pub closed spec fn controller_table(&self) -> Map<u64, Arc<CT>> {
        self.controllers@
    }

    /// The global state handed to every invocation.
    pub closed spec fn global(&self) -> G {
        self.global_state
    }

    /// The subscription list of each controller, by controller key.
    pub closed spec fn subs(&self) -> Map<u64, Seq<WeakRef<EN>>> {
        self.subscriptions@.map_values(|v: Vec<WeakRef<EN>>| v@)
    }

    /// The controller keys, in the order the controllers were added.
    pub closed spec fn order(&self) -> Seq<u64> {
        self.controller_order@
    }

    /// Where the next probe for an entity key starts.
    pub closed spec fn entity_cursor(&self) -> u64 {
        self.next_entity_key
    }

    /// Where the next probe for a controller key starts.
    pub closed spec fn controller_cursor(&self) -> u64 {
        self.next_controller_key
    }

    /// Every subscription of the registry, controller after controller in the
    /// order they were added, each list front to back.
    pub open spec fn slots(&self) -> Seq<Slot> {
        slots_of(self.order(), self.subs())
    }

    /// A free entity key is left at or after the cursor.
    pub open spec fn entity_key_available(&self) -> bool {
        has_free_from(self.entity_table().dom(), self.entity_cursor())
    }

    /// A free controller key is left at or after the cursor.
    pub open spec fn controller_key_available(&self) -> bool {
        has_free_from(self.controller_table().dom(), self.controller_cursor())
    }

    pub closed spec fn wf(&self) -> bool {
        &&& self.used_entity_keys@ == self.entities@.dom()
        &&& self.used_controller_keys@ == self.controllers@.dom()
        &&& self.subscriptions@.dom() == self.controllers@.dom()
        &&& self.controller_order@.no_duplicates()
        &&& forall|k: u64| #[trigger]
            self.controllers@.contains_key(k) <==> self.controller_order@.contains(k)
        &&& forall|k: u64| #[trigger] self.entities@.contains_key(k) ==> k <= self.next_entity_key
        &&& forall|k: u64| #[trigger]
            self.controllers@.contains_key(k) ==> k <= self.next_controller_key
    }

    /// The handle of the entity keyed `key`, if there is one.
    pub fn entity_handle(&self, key: u64) -> (r: Option<&Arc<EN>>)
        ensures
            r is Some == self.entity_table().contains_key(key),
            r is Some ==> *r->0 == self.entity_table()[key],
    {
        self.entities.get(&key)
    }

    /// The handle of the controller keyed `key`, if there is one.
    pub fn controller_handle(&self, key: u64) -> (r: Option<&Arc<CT>>)
        ensures
            r is Some == self.controller_table().contains_key(key),
            r is Some ==> *r->0 == self.controller_table()[key],
    {
        self.controllers.get(&key)
    }

    /// How many entities the registry holds.
    pub fn entity_count(&self) -> (r: usize)
        ensures
            r == self.entity_table().len(),
    {
        self.entities.len()
    }

    /// How many controllers the registry holds.
    pub fn controller_count(&self) -> (r: usize)
        ensures
            r == self.controller_table().len(),
    {
        self.controllers.len()
    }

    /// Whether another entity can be added: a free key is left at or after the
    /// cursor.
    pub fn entity_keys_left(&self) -> (r: bool)
        requires
            self.wf(),
        ensures
            r == self.entity_key_available(),
    {
        let k = self.next_entity_key;
        if k < u64::MAX {
            assert(!self.entities@.contains_key((k + 1) as u64));
            true
        } else {
            let r = !self.used_entity_keys.contains(&k);
            if !r {
                assert forall|j: u64| k <= j implies self.entities@.contains_key(j) by {
                    assert(j == k);
                }
            }
            r
        }
    }

    /// Whether another controller can be added: a free key is left at or after
    /// the cursor.
    pub fn controller_keys_left(&self) -> (r: bool)
        requires
            self.wf(),
        ensures
            r == self.controller_key_available(),
    {
        let k = self.next_controller_key;
        if k < u64::MAX {
            assert(!self.controllers@.contains_key((k + 1) as u64));
            true
        } else {
            let r = !self.used_controller_keys.contains(&k);
            if !r {
                assert forall|j: u64| k <= j implies self.controllers@.contains_key(j) by {
                    assert(j == k);
                }
            }
            r
        }
    }

    /// Stores `entity` under a fresh key, the first free one at or after the
    /// cursor, and returns that key. Nothing else changes.
    pub fn entity(&mut self, entity: Arc<EN>) -> (key: u64)
        requires
            old(self).wf(),
            old(self).entity_key_available(),
        ensures
            final(self).wf(),
            is_first_free(old(self).entity_table().dom(), old(self).entity_cursor(), key),
            !old(self).entity_table().contains_key(key),
            final(self).entity_table() == old(self).entity_table().insert(key, entity),
            final(self).entity_cursor() == key,
            final(self).controller_table() == old(self).controller_table(),
            final(self).controller_cursor() == old(self).controller_cursor(),
            final(self).subs() == old(self).subs(),
            final(self).order() == old(self).order(),
            final(self).global() == old(self).global(),
            key < u64::MAX ==> final(self).entity_key_available(),
    {
        let key = keygen(&self.used_entity_keys, &mut self.next_entity_key);
        self.used_entity_keys.insert(key);
        self.entities.insert(key, entity);
        assert(self.used_entity_keys@ =~= self.entities@.dom());
        if key < u64::MAX {
            assert(!self.entities@.contains_key((key + 1) as u64));
        }
        key
    }

    /// Stores `controller` under a fresh key, the first free one at or after the
    /// cursor, with an empty subscription list, and returns that key.
    pub fn controller(&mut self, controller: Arc<CT>) -> (key: u64)
        requires
            old(self).wf(),
            old(self).controller_key_available(),
        ensures
            final(self).wf(),
            is_first_free(old(self).controller_table().dom(), old(self).controller_cursor(), key),
            !old(self).controller_table().contains_key(key),
            final(self).controller_table() == old(self).controller_table().insert(key, controller),
            final(self).controller_cursor() == key,
            final(self).subs() == old(self).subs().insert(key, Seq::<WeakRef<EN>>::empty()),
            final(self).order() == old(self).order().push(key),
            final(self).entity_table() == old(self).entity_table(),
            final(self).entity_cursor() == old(self).entity_cursor(),
            final(self).global() == old(self).global(),
            key < u64::MAX ==> final(self).controller_key_available(),
    {
        let key = keygen(&self.used_controller_keys, &mut self.next_controller_key);
        self.used_controller_keys.insert(key);
        self.controllers.insert(key, controller);
        self.subscriptions.insert(key, Vec::new());
        self.controller_order.push(key);
        assert(self.used_controller_keys@ =~= self.controllers@.dom());
        assert(self.subs() =~= old(self).subs().insert(key, Seq::<WeakRef<EN>>::empty()));
        assert(!old(self).controller_order@.contains(key));
        assert forall|k: u64| #[trigger]
            self.controllers@.contains_key(k) <==> self.controller_order@.contains(k) by {
            if k != key && self.controller_order@.contains(k) {
                let i = choose|i: int| 0 <= i < self.controller_order@.len() && self.controller_order@[i] == k;
                assert(old(self).controller_order@[i] == k);
            }
            if k != key && old(self).controllers@.contains_key(k) {
                assert(old(self).controller_order@.contains(k));
                let i = choose|i: int| 0 <= i < old(self).controller_order@.len() && old(self).controller_order@[i] == k;
                assert(self.controller_order@[i] == k);
            }
            if k == key {
                assert(self.controller_order@[self.controller_order@.len() - 1] == k);
            }
        }
        if key < u64::MAX {
            assert(!self.controllers@.contains_key((key + 1) as u64));
        }
        key
    }

    /// Appends `entity` to the subscription list of the controller keyed
    /// `controller`. No uniqueness check: a second registration of the same
    /// reference makes a second entry.
    pub fn register(&mut self, controller: u64, entity: WeakRef<EN>)
        requires
            old(self).wf(),
            old(self).controller_table().contains_key(controller),
        ensures
            final(self).wf(),
            final(self).subs() == old(self).subs().insert(
                controller,
                old(self).subs()[controller].push(entity),
            ),
            final(self).entity_table() == old(self).entity_table(),
            final(self).controller_table() == old(self).controller_table(),
            final(self).order() == old(self).order(),
            final(self).entity_cursor() == old(self).entity_cursor(),
            final(self).controller_cursor() == old(self).controller_cursor(),
            final(self).global() == old(self).global(),
    {
        let mut list = self.subscriptions.remove(&controller).unwrap();
        list.push(entity);
        self.subscriptions.insert(controller, list);
        assert(self.subs() =~= old(self).subs().insert(
            controller,
            old(self).subs()[controller].push(entity),
        ));
        assert(self.subscriptions@.dom() =~= old(self).subscriptions@.dom());
    }

    /// Every subscription as a slot: controller after controller in the order they
    /// were added, each list front to back.
    pub fn subscription_slots(&self) -> (r: Vec<Slot>)
        requires
            self.wf(),
        ensures
            r@ == self.slots(),
    {
        let ghost order = self.controller_order@;
        let mut r: Vec<Slot> = Vec::new();
        let mut i: usize = 0;
        while i < self.controller_order.len()
            invariant
                self.wf(),
                order == self.controller_order@,
                i <= order.len(),
                r@ == slots_of(order.take(i as int), self.subs()),
            decreases order.len() - i,
        {
            let c = self.controller_order[i];
            assert(self.controller_order@.contains(c));
            let list = self.subscriptions.get(&c).unwrap();
            let ghost base = r@;
            let mut j: usize = 0;
            while j < list.len()
                invariant
                    j <= list@.len(),
                    list@ == self.subs()[c],
                    r@ == base + Seq::new(j as nat, |k: int| Slot { controller: c, index: k as usize }),
                decreases list@.len() - j,
            {
                r.push(Slot { controller: c, index: j });
                j = j + 1;
                assert(r@ =~= base + Seq::new(j as nat, |k: int| Slot { controller: c, index: k as usize }));
            }
            assert(order.take(i as int + 1).drop_last() =~= order.take(i as int));
            i = i + 1;
        }
        assert(order.take(order.len() as int) =~= order);
        r
    }

    /// One tick's worth of work: resolves the weak reference of every
    /// subscription, in slot order, and owes one invocation of the slot's
    /// controller on each entity that resolved; an entity that is gone is skipped.
    pub fn run_all(&self) -> (r: Vec<Dispatch<EN>>)
        requires
            self.wf(),
        ensures
            exists|resolved: Seq<Option<Arc<EN>>>|
                self.resolution(resolved) && dispatch_pairs(r@) == dispatches_of(
                    self.slots(),
                    resolved,
                ),
    {
        let ghost order = self.controller_order@;
        let mut slots: Vec<Slot> = Vec::new();
        let mut resolved: Vec<Option<Arc<EN>>> = Vec::new();
        let mut i: usize = 0;
        while i < self.controller_order.len()
            invariant
                self.wf(),
                order == self.controller_order@,
                i <= order.len(),
                slots@ == slots_of(order.take(i as int), self.subs()),
                resolved@.len() == slots@.len(),
                forall|k: int|
                    0 <= k < slots@.len() && (#[trigger] resolved@[k]) is Some ==> resolved@[k]->0
                        == self.subs()[slots@[k].controller][slots@[k].index as int].source(),
            decreases order.len() - i,
        {
            let c = self.controller_order[i];
            assert(self.controller_order@.contains(c));
            let list = self.subscriptions.get(&c).unwrap();
            let ghost base = slots@;
            let mut j: usize = 0;
            while j < list.len()
                invariant
                    j <= list@.len(),
                    list@ == self.subs()[c],
                    slots@ == base + Seq::new(j as nat, |k: int| Slot { controller: c, index: k as usize }),
                    resolved@.len() == slots@.len(),
                    forall|k: int|
                        0 <= k < slots@.len() && (#[trigger] resolved@[k]) is Some ==> resolved@[k]->0
                            == self.subs()[slots@[k].controller][slots@[k].index as int].source(),
                decreases list@.len() - j,
            {
                slots.push(Slot { controller: c, index: j });
                resolved.push(list[j].upgrade());
                j = j + 1;
                assert(slots@ =~= base + Seq::new(j as nat, |k: int| Slot { controller: c, index: k as usize }));
            }
            assert(order.take(i as int + 1).drop_last() =~= order.take(i as int));
            i = i + 1;
        }
        assert(order.take(order.len() as int) =~= order);
        let ghost res = resolved@;
        let r = collect_dispatches(&slots, resolved);
        assert(self.resolution(res));
        r
    }

    /// `resolved` is what resolving the subscriptions, slot by slot, may have
    /// returned: one result per slot, and each entity that came back is the one
    /// the slot's reference was taken from.
    pub open spec fn resolution(&self, resolved: Seq<Option<Arc<EN>>>) -> bool {
        &&& resolved.len() == self.slots().len()
        &&& forall|k: int|
            0 <= k < resolved.len() && (#[trigger] resolved[k]) is Some ==> resolved[k]->0
                == self.subs()[self.slots()[k].controller][self.slots()[k].index as int].source()
    }

    /// Subscribes the entity keyed `entity_id` to the controller keyed
    /// `controller_id`, and says which key was missing when either was. On an
    /// error nothing changes.
    pub fn try_register_by_id(&mut self, controller_id: u64, entity_id: u64) -> (r: Result<
        (),
        RegisterError,
    >)
        requires
            old(self).wf(),
        ensures
            final(self).wf(),
            r == registration_outcome(
                old(self).controller_table().contains_key(controller_id),
                old(self).entity_table().contains_key(entity_id),
            ),
            r is Ok ==> subscribed_to_entity(*old(self), *final(self), controller_id, entity_id),
            r is Err ==> final(self).subs() == old(self).subs(),
            final(self).entity_table() == old(self).entity_table(),
            final(self).controller_table() == old(self).controller_table(),
            final(self).order() == old(self).order(),
            final(self).entity_cursor() == old(self).entity_cursor(),
            final(self).controller_cursor() == old(self).controller_cursor(),
            final(self).global() == old(self).global(),
    {
        let has_controller = self.controllers.contains_key(&controller_id);
        match self.entities.get(&entity_id) {
            Some(entity) => {
                if has_controller {
                    let w = WeakRef::downgrade(entity);
                    self.register(controller_id, w);
                    Ok(())
                } else {
                    Err(RegisterError::MissingController)
                }
            },
            None => {
                if has_controller {
                    Err(RegisterError::MissingEntity)
                } else {
                    Err(RegisterError::MissingBoth)
                }
            },
        }
    }

    /// Subscribes the entity keyed `entity_id` to the controller keyed
    /// `controller_id`; `false`, with nothing changed, when either key is unknown.
    pub fn register_by_id(&mut self, controller_id: u64, entity_id: u64) -> (r: bool)
        requires
            old(self).wf(),
        ensures
            final(self).wf(),
            r == (old(self).controller_table().contains_key(controller_id)
                && old(self).entity_table().contains_key(entity_id)),
            r ==> subscribed_to_entity(*old(self), *final(self), controller_id, entity_id),
            !r ==> final(self).subs() == old(self).subs(),
            final(self).entity_table() == old(self).entity_table(),
            final(self).controller_table() == old(self).controller_table(),
            final(self).order() == old(self).order(),
            final(self).entity_cursor() == old(self).entity_cursor(),
            final(self).controller_cursor() == old(self).controller_cursor(),
            final(self).global() == old(self).global(),
    {
        let r = self.try_register_by_id(controller_id, entity_id);
        r.is_ok()
    }

    /// An empty registry around the given global state.
    pub fn new(global_state: G) -> (r: Self)
        ensures
            r.wf(),
            r.entity_table() == Map::<u64, Arc<EN>>::empty(),
            r.controller_table() == Map::<u64, Arc<CT>>::empty(),
            r.subs() == Map::<u64, Seq<WeakRef<EN>>>::empty(),
            r.order() == Seq::<u64>::empty(),
            r.global() == global_state,
            r.entity_cursor() == 0,
            r.controller_cursor() == 0,
            r.entity_key_available(),
            r.controller_key_available(),
    {
        let r = XGEngine {
            entities: BTreeMap::new(),
            controllers: BTreeMap::new(),
            global_state,
            subscriptions: BTreeMap::new(),
            controller_order: Vec::new(),
            used_entity_keys: BTreeSet::new(),
            next_entity_key: 0,
            used_controller_keys: BTreeSet::new(),
            next_controller_key: 0,
        };
        assert(r.subs() =~= Map::<u64, Seq<WeakRef<EN>>>::empty());
        assert(!r.entities@.contains_key(0));
        assert(!r.controllers@.contains_key(0));
        r
    }
}

/// `post` is `pre` with one entity added under `key`, a key that `pre` did not
/// hold: what `entity` ensures of the entity table.
pub open spec fn entity_added<EN: ?Sized, CT: ?Sized, G>(
    pre: XGEngine<EN, CT, G>,
    post: XGEngine<EN, CT, G>,
    key: u64,
) -> bool {
    &&& !pre.entity_table().contains_key(key)
    &&& post.entity_table().dom() == pre.entity_table().dom().insert(key)
}

/// `post` is `pre` with `w` appended to the list of the controller keyed `c`:
/// what `register` ensures.
pub open spec fn subscribed<EN: ?Sized, CT: ?Sized, G>(
    pre: XGEngine<EN, CT, G>,
    post: XGEngine<EN, CT, G>,
    c: u64,
    w: WeakRef<EN>,
) -> bool {
    &&& pre.controller_table().contains_key(c)
    &&& post.subs() == pre.subs().insert(c, pre.subs()[c].push(w))
    &&& post.order() == pre.order()
    &&& post.controller_table() == pre.controller_table()
}

/// `post` is `pre` with a reference taken from the handle of the entity keyed
/// `e` appended to the list of the controller keyed `c`: what a successful
/// registration by keys ensures.
pub open spec fn subscribed_to_entity<EN: ?Sized, CT: ?Sized, G>(
    pre: XGEngine<EN, CT, G>,
    post: XGEngine<EN, CT, G>,
    c: u64,
    e: u64,
) -> bool {
    let w = post.subs()[c].last();
    &&& pre.entity_table().contains_key(e)
    &&& w.source() == pre.entity_table()[e]
    &&& subscribed(pre, post, c, w)
}

/// Every subscription list is short enough for its indices to be `usize`.
pub open spec fn lists_indexable<EN: ?Sized, CT: ?Sized, G>(e: XGEngine<EN, CT, G>) -> bool {
    forall|c: u64| e.subs().contains_key(c) ==> #[trigger] e.subs()[c].len() <= usize::MAX
}

/// Along any run of entity additions, the keys handed out are pairwise distinct.
pub proof fn lemma_entity_keys_distinct<EN: ?Sized, CT: ?Sized, G>(
    states: Seq<XGEngine<EN, CT, G>>,
    keys: Seq<u64>,
)
    requires
        states.len() == keys.len() + 1,
        forall|i: int| 0 <= i < keys.len() ==> entity_added(states[i], #[trigger] states[i + 1], keys[i]),
    ensures
        forall|i: int, j: int| 0 <= i < j < keys.len() ==> keys[i] != keys[j],
{
    assert forall|i: int, j: int| 0 <= i < j < keys.len() implies keys[i] != keys[j] by {
        lemma_key_kept(states, keys, i, j);
        let n = j;
        assert(entity_added(states[n], states[n + 1], keys[n]));
    }
}

/// A key handed out at step `i` is still held at every later step `j`.
proof fn lemma_key_kept<EN: ?Sized, CT: ?Sized, G>(
    states: Seq<XGEngine<EN, CT, G>>,
    keys: Seq<u64>,
    i: int,
    j: int,
)
    requires
        states.len() == keys.len() + 1,
        forall|n: int| 0 <= n < keys.len() ==> entity_added(states[n], #[trigger] states[n + 1], keys[n]),
        0 <= i < j <= keys.len(),
    ensures
        states[j].entity_table().contains_key(keys[i]),
    decreases j - i,
{
    let n = j - 1;
    assert(entity_added(states[n], states[n + 1], keys[n]));
    assert(states[j].entity_table().dom() == states[n].entity_table().dom().insert(keys[n]));
    if n > i {
        lemma_key_kept(states, keys, i, j - 1);
    }
}

/// Registration is not idempotent: registering the entity keyed `e` twice to
/// the controller keyed `c` leaves two more entries, both taken from that
/// entity's handle, under two distinct slots; in a tick where both resolve, each
/// is owed a dispatch carrying that entity.
pub proof fn lemma_double_registration<EN: ?Sized, CT: ?Sized, G>(
    pre: XGEngine<EN, CT, G>,
    mid: XGEngine<EN, CT, G>,
    post: XGEngine<EN, CT, G>,
    c: u64,
    e: u64,
    resolved: Seq<Option<Arc<EN>>>,
)
    requires
        pre.wf(),
        subscribed_to_entity(pre, mid, c, e),
        subscribed_to_entity(mid, post, c, e),
        mid.entity_table() == pre.entity_table(),
        pre.subs()[c].len() + 2 <= usize::MAX,
        post.resolution(resolved),
    ensures
        ({
            let n = pre.subs()[c].len();
            let first = Slot { controller: c, index: n as usize };
            let second = Slot { controller: c, index: (n + 1) as usize };
            &&& post.subs()[c].len() == n + 2
            &&& post.subs()[c].take(n as int) == pre.subs()[c]
            &&& post.subs()[c][n as int].source() == pre.entity_table()[e]
            &&& post.subs()[c][n as int + 1].source() == pre.entity_table()[e]
            &&& first != second
            &&& post.slots().contains(first)
            &&& post.slots().contains(second)
            &&& forall|i: int|
                0 <= i < post.slots().len() && (post.slots()[i] == first || post.slots()[i]
                    == second) && (#[trigger] resolved[i]) is Some ==> dispatches_of(
                    post.slots(),
                    resolved,
                ).contains((post.slots()[i], pre.entity_table()[e]))
        }),
{
    let n = pre.subs()[c].len();
    let list = post.subs()[c];
    assert(pre.order().contains(c));
    assert(list =~= pre.subs()[c].push(mid.subs()[c].last()).push(list.last()));
    assert(list.take(n as int) =~= pre.subs()[c]);
    lemma_slot_present(post.order(), post.subs(), c, n as int);
    lemma_slot_present(post.order(), post.subs(), c, n as int + 1);
    assert forall|i: int|
        0 <= i < post.slots().len() && (post.slots()[i] == Slot { controller: c, index: n as usize }
            || post.slots()[i] == Slot { controller: c, index: (n + 1) as usize })
            && (#[trigger] resolved[i]) is Some implies dispatches_of(post.slots(), resolved).contains(
        (post.slots()[i], pre.entity_table()[e]),
    ) by {
        lemma_dispatched_when_resolved(post.slots(), resolved, i);
    }
}

/// A slot whose reference resolved is owed a dispatch with what it resolved to.
proof fn lemma_dispatched_when_resolved<EN: ?Sized>(
    slots: Seq<Slot>,
    resolved: Seq<Option<Arc<EN>>>,
    i: int,
)
    requires
        resolved.len() >= slots.len(),
        0 <= i < slots.len(),
        resolved[i] is Some,
    ensures
        dispatches_of(slots, resolved).contains((slots[i], resolved[i]->0)),
    decreases slots.len(),
{
    let n = slots.len() - 1;
    let rest = dispatches_of(slots.take(n), resolved);
    if i == n {
        assert(dispatches_of(slots, resolved)[rest.len() as int] == (slots[i], resolved[i]->0));
    } else {
        lemma_dispatched_when_resolved(slots.take(n), resolved, i);
        let k = choose|k: int| 0 <= k < rest.len() && rest[k] == (slots.take(n)[i], resolved[i]->0);
        assert(dispatches_of(slots, resolved)[k] == rest[k]);
    }
}

/// Dispatch coverage: in a tick over a well-formed registry, whatever the weak
/// references resolve to, each subscription whose entity is alive is owed
/// exactly one dispatch, carrying the entity its reference was taken from; one
/// whose entity is gone is skipped; and every dispatch carries the entity of its
/// own slot.
pub proof fn lemma_tick_coverage<EN: ?Sized, CT: ?Sized, G>(
    e: XGEngine<EN, CT, G>,
    resolved: Seq<Option<Arc<EN>>>,
    i: int,
)
    requires
        e.wf(),
        lists_indexable(e),
        e.resolution(resolved),
        0 <= i < e.slots().len(),
    ensures
        dispatches_of(e.slots(), resolved).map_values(|p: (Slot, Arc<EN>)| p.0).no_duplicates(),
        dispatches_of(e.slots(), resolved).map_values(|p: (Slot, Arc<EN>)| p.0).contains(
            e.slots()[i],
        ) == resolved[i] is Some,
        resolved[i] is Some ==> dispatches_of(e.slots(), resolved).contains(
            (e.slots()[i], e.subs()[e.slots()[i].controller][e.slots()[i].index as int].source()),
        ),
        forall|k: int|
            0 <= k < dispatches_of(e.slots(), resolved).len() ==> (#[trigger] dispatches_of(
                e.slots(),
                resolved,
            )[k]).1 == e.subs()[dispatches_of(e.slots(), resolved)[k].0.controller][dispatches_of(
                e.slots(),
                resolved,
            )[k].0.index as int].source(),
{
    let slots = e.slots();
    let d = dispatches_of(slots, resolved);
    assert forall|c: u64| e.order().contains(c) implies #[trigger] e.subs()[c].len()
        <= usize::MAX by {
        assert(e.subs().contains_key(c));
    }
    lemma_slots_distinct(e.order(), e.subs());
    lemma_dispatch_slots(slots, resolved);
    lemma_dispatch_exactly_once(slots, alive_of(resolved), i);
    if resolved[i] is Some {
        lemma_dispatched_when_resolved(slots, resolved, i);
    }
    assert forall|k: int| 0 <= k < d.len() implies (#[trigger] d[k]).1 == e.subs()[d[k].0.controller][d[k].0.index as int].source() by {
        lemma_dispatch_entity(slots, resolved, k);
        let j = choose|j: int| 0 <= j < slots.len() && resolved[j] == Some(d[k].1) && slots[j] == d[k].0;
        assert(resolved[j] is Some);
    }
}

/// What a registration by keys returns, given which of the two keys are known.
pub open spec fn registration_outcome(has_controller: bool, has_entity: bool) -> Result<
    (),
    RegisterError,
> {
    if has_controller && has_entity {
        Ok(())
    } else if has_entity {
        Err(RegisterError::MissingController)
    } else if has_controller {
        Err(RegisterError::MissingEntity)
    } else {
        Err(RegisterError::MissingBoth)
    }
}

} // verus!
