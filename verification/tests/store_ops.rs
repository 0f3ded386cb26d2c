//! Entity lifecycle, attach/detach, runtime borrow locks, deferred commands,
//! queries and deep copies, exercised through the public registry API.

use registry::Command;
use registry::Component;
use registry::Query;
use registry::QueryTerm;
use registry::Registry;
use registry::Singleton;

const HEALTH: u128 = 0x2cd4dd4a45854d4f;
const POSITION: u128 = 0x896edd230a474a84;
const MONSTER: u128 = 0x243a0a9badb34dd4;
const GLOBAL: u128 = 0x09e6782196be4dba;

#[derive(Clone, Debug, PartialEq)]
enum Val {
    Health { amount: f32 },
    Position { x: f32, y: f32 },
    Monster,
    Global { monster_count: i32 },
}

impl Component for Val {
    // The verifier's specification members: never called at run time; an
    // implementation outside the verifier provides them with diverging
    // bodies.
    fn key(self) -> u128 {
        unreachable!()
    }

    fn enc(self) -> registry::SpecSeq<u8> {
        unreachable!()
    }

    fn dec(_key: u128, _bytes: registry::SpecSeq<u8>) -> Option<Val> {
        unreachable!()
    }

    fn type_key(&self) -> u128 {
        match self {
            Val::Health { .. } => HEALTH,
            Val::Position { .. } => POSITION,
            Val::Monster => MONSTER,
            Val::Global { .. } => GLOBAL,
        }
    }

    fn encode(&self) -> Vec<u8> {
        match self {
            Val::Health { amount } => amount.to_le_bytes().to_vec(),
            Val::Position { x, y } => {
                let mut b = x.to_le_bytes().to_vec();
                b.extend_from_slice(&y.to_le_bytes());
                b
            }
            Val::Monster => Vec::new(),
            Val::Global { monster_count } => monster_count.to_le_bytes().to_vec(),
        }
    }

    fn decode(key: u128, bytes: &[u8]) -> Option<Val> {
        match key {
            HEALTH => {
                let b: [u8; 4] = bytes.try_into().ok()?;
                Some(Val::Health { amount: f32::from_le_bytes(b) })
            }
            POSITION => {
                if bytes.len() != 8 {
                    return None;
                }
                let x = f32::from_le_bytes(bytes[0..4].try_into().ok()?);
                let y = f32::from_le_bytes(bytes[4..8].try_into().ok()?);
                Some(Val::Position { x, y })
            }
            MONSTER => {
                if bytes.is_empty() {
                    Some(Val::Monster)
                } else {
                    None
                }
            }
            GLOBAL => {
                let b: [u8; 4] = bytes.try_into().ok()?;
                Some(Val::Global { monster_count: i32::from_le_bytes(b) })
            }
            _ => None,
        }
    }

    fn duplicate(&self) -> Val {
        self.clone()
    }
}

impl Singleton for Val {
    fn default_spec(_key: u128) -> Val {
        unreachable!()
    }

    fn default_for(key: u128) -> Val {
        match key {
            HEALTH => Val::Health { amount: 0.0 },
            POSITION => Val::Position { x: 0.0, y: 0.0 },
            MONSTER => Val::Monster,
            _ => Val::Global { monster_count: 0 },
        }
    }
}

fn world() -> Registry<Val> {
    let mut r: Registry<Val> = Registry::new();
    r.register_component(HEALTH);
    r.register_component(POSITION);
    r.register_component(MONSTER);
    r.register_singleton(GLOBAL);
    r
}

#[test]
fn spawn_despawn_lifecycle() {
    let mut r = world();
    let e1 = r.spawn();
    let e2 = r.spawn();
    assert!(r.contains(e1));
    assert!(r.contains(e2));
    assert_eq!(r.len(), 2);
    r.despawn(e1);
    assert!(!r.contains(e1));
    assert_eq!(r.len(), 1);
    assert_eq!(r.iter(), vec![e2]);
}

#[test]
fn stale_handle_never_resolves_after_reuse() {
    let mut r = world();
    let e1 = r.spawn();
    assert!(r.component_attach(e1, Val::Health { amount: 7.0 }));
    r.despawn(e1);
    // The slot is reused at a later generation; the old handle stays dead.
    let e2 = r.spawn();
    assert_eq!(e2.index, e1.index);
    assert_ne!(e2.generation, e1.generation);
    assert!(!r.contains(e1));
    assert!(r.component(e1, HEALTH).is_none());
    assert!(r.component_mut(e1, HEALTH).is_none());
    assert!(!r.component_has(e1, HEALTH));
}

#[test]
fn despawn_purges_every_store() {
    let mut r = world();
    let e1 = r.spawn();
    assert!(r.component_attach(e1, Val::Health { amount: 1.0 }));
    assert!(r.component_attach(e1, Val::Position { x: 2.0, y: 3.0 }));
    assert!(r.component_attach(e1, Val::Monster));
    r.despawn(e1);
    for key in [HEALTH, POSITION, MONSTER] {
        assert!(r.component_mut(e1, key).is_none());
        assert!(!r.component_has(e1, key));
    }
}

#[test]
fn attach_on_dead_handle_fails() {
    let mut r = world();
    let e1 = r.spawn();
    r.despawn(e1);
    assert!(!r.component_attach(e1, Val::Monster));
}

#[test]
fn detach_returns_owned_value() {
    let mut r = world();
    let e1 = r.spawn();
    assert!(r.component_attach(e1, Val::Health { amount: 42.0 }));
    let v = r.component_detach(e1, HEALTH);
    assert_eq!(v, Some(Val::Health { amount: 42.0 }));
    assert!(r.component_detach(e1, HEALTH).is_none());
    assert!(!r.component_has(e1, HEALTH));
}

#[test]
fn detach_of_borrowed_cell_is_unavailable() {
    let mut r = world();
    let e1 = r.spawn();
    assert!(r.component_attach(e1, Val::Health { amount: 5.0 }));
    let borrowed = r.component(e1, HEALTH);
    assert!(borrowed.is_some());
    // An outstanding borrow makes a detach report "unavailable" instead of
    // invalidating the borrow.
    assert!(r.component_detach(e1, HEALTH).is_none());
    r.component_release(e1, HEALTH);
    assert_eq!(r.component_detach(e1, HEALTH), Some(Val::Health { amount: 5.0 }));
}

#[test]
fn attach_over_borrowed_cell_fails() {
    let mut r = world();
    let e1 = r.spawn();
    assert!(r.component_attach(e1, Val::Health { amount: 5.0 }));
    let borrowed = r.component_mut(e1, HEALTH);
    assert!(borrowed.is_some());
    assert!(!r.component_attach(e1, Val::Health { amount: 9.0 }));
    r.component_mut_release(e1, HEALTH, Val::Health { amount: 6.0 });
    assert!(r.component_attach(e1, Val::Health { amount: 9.0 }));
    assert_eq!(r.component(e1, HEALTH), Some(Val::Health { amount: 9.0 }));
    r.component_release(e1, HEALTH);
}

#[test]
fn conflict_skip_on_exclusive_borrow() {
    let mut r = world();
    let e1 = r.spawn();
    let e2 = r.spawn();
    assert!(r.component_attach(e1, Val::Health { amount: 1.0 }));
    assert!(r.component_attach(e1, Val::Position { x: 0.0, y: 0.0 }));
    assert!(r.component_attach(e2, Val::Health { amount: 2.0 }));

    let held = r.component_mut(e1, HEALTH);
    assert!(held.is_some());
    // Same entity, same kind: unavailable in both modes.
    assert!(r.component(e1, HEALTH).is_none());
    assert!(r.component_mut(e1, HEALTH).is_none());
    // Other entity, same kind: available.
    let other = r.component_mut(e2, HEALTH);
    assert_eq!(other, Some(Val::Health { amount: 2.0 }));
    r.component_mut_release(e2, HEALTH, other.unwrap());
    // Same entity, other kind: available.
    let pos = r.component_mut(e1, POSITION);
    assert!(pos.is_some());
    r.component_mut_release(e1, POSITION, pos.unwrap());

    r.component_mut_release(e1, HEALTH, held.unwrap());
    assert!(r.component(e1, HEALTH).is_some());
    r.component_release(e1, HEALTH);
}

#[test]
fn shared_borrows_coexist() {
    let mut r = world();
    let e1 = r.spawn();
    assert!(r.component_attach(e1, Val::Health { amount: 3.0 }));
    assert!(r.component(e1, HEALTH).is_some());
    assert!(r.component(e1, HEALTH).is_some());
    // Two readers outstanding: a writer is refused.
    assert!(r.component_mut(e1, HEALTH).is_none());
    r.component_release(e1, HEALTH);
    assert!(r.component_mut(e1, HEALTH).is_none());
    r.component_release(e1, HEALTH);
    assert!(r.component_mut(e1, HEALTH).is_some());
}

#[test]
fn singleton_roundtrip_and_conflicts() {
    let mut r = world();
    assert_eq!(r.singleton(GLOBAL), Some(Val::Global { monster_count: 0 }));
    r.singleton_release(GLOBAL);
    let g = r.singleton_mut(GLOBAL);
    assert_eq!(g, Some(Val::Global { monster_count: 0 }));
    assert!(r.singleton(GLOBAL).is_none());
    r.singleton_mut_release(GLOBAL, Val::Global { monster_count: 11 });
    assert_eq!(r.singleton(GLOBAL), Some(Val::Global { monster_count: 11 }));
    r.singleton_release(GLOBAL);
}

#[test]
fn commands_execute_in_fifo_order() {
    let mut r = world();
    let e1 = r.spawn();
    // Attach, overwrite, despawn another entity: applied oldest first.
    r.push(Command::Attach(e1, Val::Health { amount: 1.0 }));
    r.push(Command::Attach(e1, Val::Health { amount: 2.0 }));
    assert!(!r.component_has(e1, HEALTH));
    r.execute();
    assert_eq!(r.component(e1, HEALTH), Some(Val::Health { amount: 2.0 }));
    r.component_release(e1, HEALTH);

    r.push(Command::Detach(e1, HEALTH));
    r.push(Command::Spawn);
    r.push(Command::Despawn(e1));
    r.execute();
    assert!(!r.contains(e1));
    assert_eq!(r.len(), 1);
}

#[test]
fn iteration_follows_allocator_order_not_insertion_order() {
    let mut r = world();
    let e1 = r.spawn();
    let e2 = r.spawn();
    let e3 = r.spawn();
    r.despawn(e2);
    // The freed slot is reused: the new entity sits between the older ones.
    let e4 = r.spawn();
    assert_eq!(e4.index, e2.index);
    assert_eq!(r.iter(), vec![e1, e4, e3]);
}

#[test]
fn execute_drains_the_queue_once() {
    let mut r = world();
    r.push(Command::Spawn);
    r.push(Command::Spawn);
    r.execute();
    assert_eq!(r.len(), 2);
    // The queue was taken as a snapshot and emptied: nothing left to run.
    r.execute();
    assert_eq!(r.len(), 2);
}

#[test]
fn query_conjunction_excludes_partial_entities() {
    let mut r = world();
    let e1 = r.spawn();
    let e2 = r.spawn();
    let e3 = r.spawn();
    assert!(r.component_attach(e1, Val::Health { amount: 1.0 }));
    assert!(r.component_attach(e1, Val::Position { x: 0.0, y: 0.0 }));
    // e2 misses Position even though it holds everything else.
    assert!(r.component_attach(e2, Val::Health { amount: 2.0 }));
    assert!(r.component_attach(e2, Val::Monster));
    assert!(r.component_attach(e3, Val::Position { x: 9.0, y: 9.0 }));

    let q = Query {
        terms: vec![
            QueryTerm { key: HEALTH, exclusive: false },
            QueryTerm { key: POSITION, exclusive: true },
        ],
    };
    assert_eq!(r.query_ids(&q), vec![e1]);

    let bundle = r.query_at(e1, &q).expect("all terms present and free");
    assert_eq!(
        bundle,
        vec![Val::Health { amount: 1.0 }, Val::Position { x: 0.0, y: 0.0 }]
    );
    assert!(r.query_at(e2, &q).is_none());
    r.query_release(e1, &q, bundle);
}

#[test]
fn query_skips_contended_entities() {
    let mut r = world();
    let e1 = r.spawn();
    let e2 = r.spawn();
    for e in [e1, e2] {
        assert!(r.component_attach(e, Val::Health { amount: 1.0 }));
        assert!(r.component_attach(e, Val::Position { x: 0.0, y: 0.0 }));
    }
    let held = r.component_mut(e1, POSITION);
    assert!(held.is_some());
    let q = Query {
        terms: vec![
            QueryTerm { key: HEALTH, exclusive: false },
            QueryTerm { key: POSITION, exclusive: true },
        ],
    };
    // e1's Position cell is held exclusively, so only e2 qualifies.
    assert_eq!(r.query_ids(&q), vec![e2]);
    r.component_mut_release(e1, POSITION, held.unwrap());
    assert_eq!(r.query_ids(&q), vec![e1, e2]);
}

#[test]
fn clone_is_independent_both_ways() {
    let mut r = world();
    let e1 = r.spawn();
    assert!(r.component_attach(e1, Val::Health { amount: 10.0 }));
    let mut c = r.clone();

    // Mutate the original; the copy keeps its value.
    let v = r.component_mut(e1, HEALTH).unwrap();
    assert_eq!(v, Val::Health { amount: 10.0 });
    r.component_mut_release(e1, HEALTH, Val::Health { amount: 99.0 });
    assert_eq!(c.component(e1, HEALTH), Some(Val::Health { amount: 10.0 }));
    c.component_release(e1, HEALTH);

    // Mutate the copy; the original keeps its value.
    let w = c.component_mut(e1, HEALTH).unwrap();
    c.component_mut_release(e1, HEALTH, Val::Health { amount: -1.0 });
    assert_eq!(w, Val::Health { amount: 10.0 });
    assert_eq!(r.component(e1, HEALTH), Some(Val::Health { amount: 99.0 }));
    r.component_release(e1, HEALTH);

    // The copy's command queue starts empty: executing it changes nothing.
    let before = c.len();
    c.execute();
    assert_eq!(c.len(), before);
}

#[test]
fn health_position_scenario() {
    let mut r = world();
    let e1 = r.spawn();
    assert!(r.component_attach(e1, Val::Health { amount: 100.0 }));
    assert!(r.component_attach(e1, Val::Position { x: 0.0, y: 0.0 }));

    let got = r.component_mut(e1, POSITION).unwrap();
    let moved = match got {
        Val::Position { x, y } => Val::Position { x: x + 1.0, y },
        other => other,
    };
    r.component_mut_release(e1, POSITION, moved);

    match r.component(e1, POSITION).unwrap() {
        Val::Position { x, y } => {
            assert_eq!(x, 1.0);
            assert_eq!(y, 0.0);
        }
        other => panic!("not a position: {:?}", other),
    }
    r.component_release(e1, POSITION);

    r.despawn(e1);
    assert!(r.component(e1, POSITION).is_none());
}

#[test]
fn components_lists_unheld_cells_in_slot_order() {
    let mut r = world();
    let e1 = r.spawn();
    let e2 = r.spawn();
    let e3 = r.spawn();
    assert!(r.component_attach(e1, Val::Health { amount: 1.0 }));
    assert!(r.component_attach(e2, Val::Health { amount: 2.0 }));
    assert!(r.component_attach(e3, Val::Health { amount: 3.0 }));
    assert_eq!(
        r.components(HEALTH),
        vec![
            (e1, Val::Health { amount: 1.0 }),
            (e2, Val::Health { amount: 2.0 }),
            (e3, Val::Health { amount: 3.0 }),
        ]
    );
    // An exclusively held cell is skipped; shared borrows are not.
    let held = r.component_mut(e2, HEALTH);
    assert!(held.is_some());
    assert!(r.component(e3, HEALTH).is_some());
    assert_eq!(
        r.components(HEALTH),
        vec![(e1, Val::Health { amount: 1.0 }), (e3, Val::Health { amount: 3.0 })]
    );
    r.component_mut_release(e2, HEALTH, held.unwrap());
    r.component_release(e3, HEALTH);
}

#[test]
fn clear_twice_equals_clear_once() {
    let mut r = world();
    let e1 = r.spawn();
    let _e2 = r.spawn();
    assert!(r.component_attach(e1, Val::Health { amount: 4.0 }));
    r.singleton_mut(GLOBAL);
    r.singleton_mut_release(GLOBAL, Val::Global { monster_count: 5 });

    r.clear();
    let once = r.serialize();
    assert_eq!(r.len(), 0);
    assert_eq!(r.singleton(GLOBAL), Some(Val::Global { monster_count: 0 }));
    r.singleton_release(GLOBAL);

    r.clear();
    let twice = r.serialize();
    assert_eq!(r.len(), 0);
    assert_eq!(r.singleton(GLOBAL), Some(Val::Global { monster_count: 0 }));
    r.singleton_release(GLOBAL);

    assert_eq!(once, twice);
}
