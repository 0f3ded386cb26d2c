//! Serialize, clear and deserialize: the snapshot restores entity identity,
//! component values and singleton values, skips unknown type keys, and
//! rejects malformed bytes without touching the registry.

use registry::Component;
use registry::Registry;
use registry::Singleton;

const COUNTER: u128 = 0x11;
const LABEL: u128 = 0x22;
const EXTRA: u128 = 0x33;

#[derive(Clone, Debug, PartialEq)]
enum Item {
    Counter(u64),
    Label(Vec<u8>),
    Extra(u8),
}

impl Component for Item {
    // The verifier's specification members: never called at run time; an
    // implementation outside the verifier provides them with diverging
    // bodies.
    fn key(self) -> u128 {
        unreachable!()
    }

    fn enc(self) -> registry::SpecSeq<u8> {
        unreachable!()
    }

    fn dec(_key: u128, _bytes: registry::SpecSeq<u8>) -> Option<Item> {
        unreachable!()
    }

    fn type_key(&self) -> u128 {
        match self {
            Item::Counter(_) => COUNTER,
            Item::Label(_) => LABEL,
            Item::Extra(_) => EXTRA,
        }
    }

    fn encode(&self) -> Vec<u8> {
        match self {
            Item::Counter(n) => n.to_le_bytes().to_vec(),
            Item::Label(b) => b.clone(),
            Item::Extra(b) => vec![*b],
        }
    }

    fn decode(key: u128, bytes: &[u8]) -> Option<Item> {
        match key {
            COUNTER => {
                let b: [u8; 8] = bytes.try_into().ok()?;
                Some(Item::Counter(u64::from_le_bytes(b)))
            }
            LABEL => Some(Item::Label(bytes.to_vec())),
            EXTRA => {
                if bytes.len() == 1 {
                    Some(Item::Extra(bytes[0]))
                } else {
                    None
                }
            }
            _ => None,
        }
    }

    fn duplicate(&self) -> Item {
        self.clone()
    }
}

impl Singleton for Item {
    fn default_spec(_key: u128) -> Item {
        unreachable!()
    }

    fn default_for(key: u128) -> Item {
        match key {
            LABEL => Item::Label(Vec::new()),
            EXTRA => Item::Extra(0),
            _ => Item::Counter(0),
        }
    }
}

#[test]
fn empty_registry_serializes_to_three_zero_counts() {
    let r: Registry<Item> = Registry::new();
    // No slots, no stores, no singletons: three zero `u64` counts.
    assert_eq!(r.serialize(), vec![0u8; 24]);
}

#[test]
fn roundtrip_restores_entities_components_and_singletons() {
    let mut r: Registry<Item> = Registry::new();
    r.register_component(COUNTER);
    r.register_component(LABEL);
    r.register_singleton(EXTRA);

    let e1 = r.spawn();
    let e2 = r.spawn();
    let e3 = r.spawn();
    r.despawn(e2);
    assert!(r.component_attach(e1, Item::Counter(7)));
    assert!(r.component_attach(e3, Item::Counter(9)));
    assert!(r.component_attach(e3, Item::Label(b"hello".to_vec())));
    r.singleton_mut(EXTRA);
    r.singleton_mut_release(EXTRA, Item::Extra(42));

    let bytes = r.serialize();
    r.clear();
    assert_eq!(r.len(), 0);
    assert_eq!(r.singleton(EXTRA), Some(Item::Extra(0)));
    r.singleton_release(EXTRA);

    assert!(r.deserialize(&bytes));
    assert_eq!(r.len(), 2);
    assert!(r.contains(e1));
    assert!(!r.contains(e2));
    assert!(r.contains(e3));
    assert_eq!(r.component(e1, COUNTER), Some(Item::Counter(7)));
    r.component_release(e1, COUNTER);
    assert_eq!(r.component(e3, COUNTER), Some(Item::Counter(9)));
    r.component_release(e3, COUNTER);
    assert_eq!(r.component(e3, LABEL), Some(Item::Label(b"hello".to_vec())));
    r.component_release(e3, LABEL);
    assert!(r.component(e1, LABEL).is_none());
    assert_eq!(r.singleton(EXTRA), Some(Item::Extra(42)));
    r.singleton_release(EXTRA);
}

#[test]
fn roundtrip_discards_lock_state() {
    let mut r: Registry<Item> = Registry::new();
    r.register_component(COUNTER);
    let e1 = r.spawn();
    assert!(r.component_attach(e1, Item::Counter(1)));
    // Serialize while the cell is held exclusively; the restored cell is free.
    let held = r.component_mut(e1, COUNTER);
    assert!(held.is_some());
    let bytes = r.serialize();
    assert!(r.deserialize(&bytes));
    assert!(r.component_mut(e1, COUNTER).is_some());
    r.component_mut_release(e1, COUNTER, Item::Counter(1));
}

#[test]
fn snapshot_keys_not_registered_are_ignored() {
    let mut writer: Registry<Item> = Registry::new();
    writer.register_component(COUNTER);
    writer.register_component(LABEL);
    let e1 = writer.spawn();
    assert!(writer.component_attach(e1, Item::Counter(3)));
    assert!(writer.component_attach(e1, Item::Label(b"x".to_vec())));
    let bytes = writer.serialize();

    // The reader never registered LABEL: that section is silently dropped.
    let mut reader: Registry<Item> = Registry::new();
    reader.register_component(COUNTER);
    assert!(reader.deserialize(&bytes));
    assert!(reader.contains(e1));
    assert_eq!(reader.component(e1, COUNTER), Some(Item::Counter(3)));
    reader.component_release(e1, COUNTER);
}

#[test]
fn malformed_bytes_are_rejected_without_change() {
    let mut r: Registry<Item> = Registry::new();
    r.register_component(COUNTER);
    let e1 = r.spawn();
    assert!(r.component_attach(e1, Item::Counter(5)));
    let good = r.serialize();

    // Truncated input.
    let mut truncated = good.clone();
    truncated.pop();
    assert!(!r.deserialize(&truncated));
    // Trailing garbage.
    let mut padded = good.clone();
    padded.push(0);
    assert!(!r.deserialize(&padded));
    // Empty input.
    assert!(!r.deserialize(&Vec::new()));

    // Nothing changed.
    assert_eq!(r.serialize(), good);
    assert_eq!(r.component(e1, COUNTER), Some(Item::Counter(5)));
    r.component_release(e1, COUNTER);
}

#[test]
fn undecodable_payload_for_registered_key_is_rejected() {
    let mut writer: Registry<Item> = Registry::new();
    writer.register_component(EXTRA);
    let e1 = writer.spawn();
    assert!(writer.component_attach(e1, Item::Extra(1)));
    let good = writer.serialize();

    // Corrupt the one-byte payload into a two-byte one the codec refuses.
    // The layout ends with: payload length (8), payload (1), singleton
    // count (8). Bump the length and insert a second payload byte, so the
    // frame still parses but the value no longer decodes.
    let mut bad = good.clone();
    let n = bad.len();
    bad[n - 17] = 2;
    bad.insert(n - 8, 0);
    assert!(!writer.deserialize(&bad));
    // The good snapshot still applies.
    assert!(writer.deserialize(&good));
    assert_eq!(writer.component(e1, EXTRA), Some(Item::Extra(1)));
    writer.component_release(e1, EXTRA);
}

#[test]
fn store_not_in_snapshot_is_emptied() {
    let mut writer: Registry<Item> = Registry::new();
    writer.register_component(COUNTER);
    let e1 = writer.spawn();
    assert!(writer.component_attach(e1, Item::Counter(3)));
    let bytes = writer.serialize();

    // The reader also has LABEL registered with data attached; the snapshot
    // does not mention LABEL, so after restoring, no stale LABEL cell may
    // survive under the replaced slot table.
    let mut reader: Registry<Item> = Registry::new();
    reader.register_component(COUNTER);
    reader.register_component(LABEL);
    let f1 = reader.spawn();
    assert!(reader.component_attach(f1, Item::Label(b"stale".to_vec())));
    assert!(reader.deserialize(&bytes));
    assert!(reader.component(f1, LABEL).is_none());
    assert_eq!(reader.component(e1, COUNTER), Some(Item::Counter(3)));
    reader.component_release(e1, COUNTER);
}
