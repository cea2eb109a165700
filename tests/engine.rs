use rayon::prelude::ParallelIterator;
use rayon::iter::IntoParallelRefIterator;
use std::collections::BTreeSet;
use std::sync::{Arc, Mutex};
use typemap::{Key, ShareMap};
use xg_engine::{collect_dispatches, keygen, Dispatch, RegisterError, Slot, WeakRef, XGEngine};

struct Props {
    map: ShareMap,
}

trait Control {
    fn control(&mut self, entity: &Arc<Mutex<Props>>, global: &Arc<Mutex<ShareMap>>);
}

type Engine = XGEngine<Mutex<Props>, Mutex<Box<dyn Control + Send>>, Arc<Mutex<ShareMap>>>;

struct Touched;
impl Key for Touched {
    type Value = bool;
}

struct Hits;
impl Key for Hits {
    type Value = u64;
}

struct Counter;
impl Key for Counter {
    type Value = u64;
}

/// Marks the entity as touched.
struct Toucher;
impl Control for Toucher {
    fn control(&mut self, entity: &Arc<Mutex<Props>>, _global: &Arc<Mutex<ShareMap>>) {
        entity.lock().unwrap().map.insert::<Touched>(true);
    }
}

/// Counts its own invocations, the hits on the entity, and a shared counter.
struct Tally {
    calls: Arc<Mutex<u64>>,
}
impl Control for Tally {
    fn control(&mut self, entity: &Arc<Mutex<Props>>, global: &Arc<Mutex<ShareMap>>) {
        *self.calls.lock().unwrap() += 1;
        {
            let mut e = entity.lock().unwrap();
            let n = e.map.get::<Hits>().cloned().unwrap_or(0);
            e.map.insert::<Hits>(n + 1);
        }
        let mut g = global.lock().unwrap();
        let n = g.get::<Counter>().cloned().unwrap_or(0);
        g.insert::<Counter>(n + 1);
    }
}

fn engine() -> Engine {
    XGEngine::new(Arc::new(Mutex::new(ShareMap::custom())))
}

fn props() -> Arc<Mutex<Props>> {
    Arc::new(Mutex::new(Props { map: ShareMap::custom() }))
}

fn add_controller(e: &mut Engine, c: Box<dyn Control + Send>) -> u64 {
    e.controller(Arc::new(Mutex::new(c)))
}

/// Carries out one tick's dispatches, in parallel.
fn tick(e: &Engine) -> usize {
    let work: Vec<Dispatch<Mutex<Props>>> = e.run_all();
    work.par_iter().for_each(|d| {
        let controller = e.controller_handle(d.slot.controller).unwrap();
        let mut controller = controller.lock().unwrap();
        controller.control(&d.entity, &e.global_state);
    });
    work.len()
}

fn hits(p: &Arc<Mutex<Props>>) -> u64 {
    p.lock().unwrap().map.get::<Hits>().cloned().unwrap_or(0)
}

fn counter(e: &Engine) -> u64 {
    e.global_state.lock().unwrap().get::<Counter>().cloned().unwrap_or(0)
}

#[test]
fn entity_keys_are_pairwise_distinct() {
    let mut e = engine();
    let mut keys = Vec::new();
    for _ in 0..6 {
        keys.push(e.entity(props()));
    }
    assert_eq!(keys, vec![0, 1, 2, 3, 4, 5]);
    let distinct: BTreeSet<u64> = keys.iter().cloned().collect();
    assert_eq!(distinct.len(), keys.len());
    assert_eq!(e.entity_count(), 6);
}

#[test]
fn controller_keys_are_pairwise_distinct() {
    let mut e = engine();
    let a = add_controller(&mut e, Box::new(Toucher));
    let b = add_controller(&mut e, Box::new(Toucher));
    let c = add_controller(&mut e, Box::new(Toucher));
    assert_eq!((a, b, c), (0, 1, 2));
    assert_eq!(e.controller_count(), 3);
    assert!(e.subscription_slots().is_empty());
}

#[test]
fn keygen_after_contiguous_prefix() {
    let mut used: BTreeSet<u64> = (0..5).collect();
    let mut next: u64 = 2;
    let k = keygen(&used, &mut next);
    assert_eq!(k, 5);
    assert_eq!(next, 5);
    used.insert(k);
    let k2 = keygen(&used, &mut next);
    assert_eq!(k2, 6);
    assert_eq!(next, 6);
}

#[test]
fn keygen_takes_first_gap_and_never_moves_back() {
    let used: BTreeSet<u64> = [0, 1, 3, 4].iter().cloned().collect();
    let mut next: u64 = 0;
    assert_eq!(keygen(&used, &mut next), 2);
    assert_eq!(next, 2);
    let mut from_three: u64 = 3;
    assert_eq!(keygen(&used, &mut from_three), 5);
    let mut free_cursor: u64 = 9;
    assert_eq!(keygen(&used, &mut free_cursor), 9);
    assert_eq!(free_cursor, 9);
}

#[test]
fn keygen_at_top_of_key_space() {
    let used: BTreeSet<u64> = [u64::MAX - 1].iter().cloned().collect();
    let mut next: u64 = u64::MAX - 1;
    assert_eq!(keygen(&used, &mut next), u64::MAX);
}

#[test]
fn key_availability_reported() {
    let e = engine();
    assert!(e.entity_keys_left());
    assert!(e.controller_keys_left());
}

#[test]
fn double_registration_runs_twice() {
    let mut e = engine();
    let p = props();
    let ek = e.entity(p.clone());
    let calls = Arc::new(Mutex::new(0));
    let ck = add_controller(&mut e, Box::new(Tally { calls: calls.clone() }));
    assert!(e.register_by_id(ck, ek));
    assert!(e.register_by_id(ck, ek));
    assert_eq!(
        e.subscription_slots(),
        vec![Slot { controller: ck, index: 0 }, Slot { controller: ck, index: 1 }]
    );
    let work = e.run_all();
    assert_eq!(work.len(), 2);
    assert!(work.iter().all(|d| Arc::ptr_eq(&d.entity, &p)));
    drop(work);
    assert_eq!(tick(&e), 2);
    assert_eq!(*calls.lock().unwrap(), 2);
    assert_eq!(hits(&p), 2);
}

#[test]
fn dropped_entity_is_skipped() {
    let mut e = engine();
    let calls = Arc::new(Mutex::new(0));
    let ck = add_controller(&mut e, Box::new(Tally { calls: calls.clone() }));
    let outside = props();
    e.register(ck, WeakRef::downgrade(&outside));
    let kept = props();
    e.register(ck, WeakRef::downgrade(&kept));
    drop(outside);
    let work = e.run_all();
    assert_eq!(work.len(), 1);
    assert_eq!(work[0].slot, Slot { controller: ck, index: 1 });
    assert_eq!(tick(&e), 1);
    assert_eq!(*calls.lock().unwrap(), 1);
    assert_eq!(hits(&kept), 1);
    assert_eq!(e.subscription_slots().len(), 2);
}

#[test]
fn weak_ref_resolves_while_owned() {
    let p = props();
    let w = WeakRef::downgrade(&p);
    let back = w.upgrade();
    assert!(back.is_some());
    assert!(Arc::ptr_eq(&back.unwrap(), &p));
    drop(p);
    assert!(w.upgrade().is_none());
}

#[test]
fn every_live_pair_dispatched_once() {
    let mut e = engine();
    let ps: Vec<Arc<Mutex<Props>>> = (0..3).map(|_| props()).collect();
    let keys: Vec<u64> = ps.iter().map(|p| e.entity(p.clone())).collect();
    let calls_a = Arc::new(Mutex::new(0));
    let calls_b = Arc::new(Mutex::new(0));
    let a = add_controller(&mut e, Box::new(Tally { calls: calls_a.clone() }));
    let b = add_controller(&mut e, Box::new(Tally { calls: calls_b.clone() }));
    assert!(e.register_by_id(a, keys[0]));
    assert!(e.register_by_id(a, keys[1]));
    assert!(e.register_by_id(b, keys[1]));
    assert!(e.register_by_id(b, keys[2]));
    let work = e.run_all();
    let slots: Vec<Slot> = work.iter().map(|d| d.slot).collect();
    assert_eq!(
        slots,
        vec![
            Slot { controller: a, index: 0 },
            Slot { controller: a, index: 1 },
            Slot { controller: b, index: 0 },
            Slot { controller: b, index: 1 },
        ]
    );
    assert!(Arc::ptr_eq(&work[2].entity, &ps[1]));
    assert_eq!(tick(&e), 4);
    assert_eq!(*calls_a.lock().unwrap(), 2);
    assert_eq!(*calls_b.lock().unwrap(), 2);
    assert_eq!((hits(&ps[0]), hits(&ps[1]), hits(&ps[2])), (1, 2, 1));
}

#[test]
fn missing_keys_refused_without_change() {
    let mut e = engine();
    let ek = e.entity(props());
    let ck = add_controller(&mut e, Box::new(Toucher));
    assert!(e.register_by_id(ck, ek));
    let before = e.subscription_slots();
    assert!(!e.register_by_id(ck + 7, ek));
    assert!(!e.register_by_id(ck, ek + 7));
    assert!(!e.register_by_id(ck + 7, ek + 7));
    assert_eq!(e.subscription_slots(), before);
    assert_eq!(e.try_register_by_id(ck + 7, ek), Err(RegisterError::MissingController));
    assert_eq!(e.try_register_by_id(ck, ek + 7), Err(RegisterError::MissingEntity));
    assert_eq!(e.try_register_by_id(ck + 7, ek + 7), Err(RegisterError::MissingBoth));
    assert_eq!(e.subscription_slots(), before);
    assert_eq!(e.try_register_by_id(ck, ek), Ok(()));
    assert_eq!(e.subscription_slots().len(), 2);
}

#[test]
fn missing_keys_on_empty_registry() {
    let mut e = engine();
    assert!(!e.register_by_id(0, 0));
    assert_eq!(e.try_register_by_id(0, 0), Err(RegisterError::MissingBoth));
    assert!(e.subscription_slots().is_empty());
}

#[test]
fn concurrent_tick_loses_no_update() {
    let mut e = engine();
    let ps: Vec<Arc<Mutex<Props>>> = (0..4).map(|_| props()).collect();
    let keys: Vec<u64> = ps.iter().map(|p| e.entity(p.clone())).collect();
    let a = add_controller(&mut e, Box::new(Tally { calls: Arc::new(Mutex::new(0)) }));
    let b = add_controller(&mut e, Box::new(Tally { calls: Arc::new(Mutex::new(0)) }));
    assert!(e.register_by_id(a, keys[0]));
    assert!(e.register_by_id(a, keys[1]));
    assert!(e.register_by_id(b, keys[2]));
    assert!(e.register_by_id(b, keys[3]));
    for _ in 0..25 {
        tick(&e);
    }
    assert_eq!(counter(&e), 100);
    for p in &ps {
        assert_eq!(hits(p), 25);
    }
}

#[test]
fn end_to_end_touch() {
    let mut e = engine();
    let e1 = props();
    let e2 = props();
    let e3 = props();
    let k1 = e.entity(e1.clone());
    let k2 = e.entity(e2.clone());
    e.entity(e3.clone());
    let c1 = add_controller(&mut e, Box::new(Toucher));
    assert!(e.register_by_id(c1, k1));
    assert!(e.register_by_id(c1, k2));
    assert_eq!(tick(&e), 2);
    assert_eq!(e1.lock().unwrap().map.get::<Touched>(), Some(&true));
    assert_eq!(e2.lock().unwrap().map.get::<Touched>(), Some(&true));
    assert_eq!(e1.lock().unwrap().map.len(), 1);
    assert!(e3.lock().unwrap().map.is_empty());
    assert_eq!(counter(&e), 0);
}

#[test]
fn collect_dispatches_pairs_resolved_in_order() {
    let slots = vec![
        Slot { controller: 0, index: 0 },
        Slot { controller: 0, index: 1 },
        Slot { controller: 3, index: 0 },
    ];
    let a = props();
    let b = props();
    let r = collect_dispatches(&slots, vec![Some(a.clone()), None, Some(b.clone())]);
    assert_eq!(r.len(), 2);
    assert_eq!(r[0].slot, Slot { controller: 0, index: 0 });
    assert!(Arc::ptr_eq(&r[0].entity, &a));
    assert_eq!(r[1].slot, Slot { controller: 3, index: 0 });
    assert!(Arc::ptr_eq(&r[1].entity, &b));
    assert!(collect_dispatches::<Mutex<Props>>(&slots, vec![None, None, None]).is_empty());
    assert!(collect_dispatches::<Mutex<Props>>(&Vec::new(), Vec::new()).is_empty());
}

#[test]
fn handles_found_by_key() {
    let mut e = engine();
    let p = props();
    let k = e.entity(p.clone());
    assert!(Arc::ptr_eq(e.entity_handle(k).unwrap(), &p));
    assert!(e.entity_handle(k + 1).is_none());
    let c = add_controller(&mut e, Box::new(Toucher));
    assert!(e.controller_handle(c).is_some());
    assert!(e.controller_handle(c + 1).is_none());
    assert_eq!((e.entity_count(), e.controller_count()), (1, 1));
}
