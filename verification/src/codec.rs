//! The snapshot codec: the registry's own framing of a snapshot as bytes.
//!
//! A snapshot is `{ slot table; (type key -> cell records) per component
//! store; (type key -> payload) per singleton }`. The framing here — counts,
//! lengths and little-endian integers — belongs to the registry; the bytes
//! inside each cell or singleton payload belong to the application's codec,
//! reached through the [`Component`](crate::component::Component) trait.
//!
//! Parsing is exact: a parse succeeds on precisely the byte strings this
//! module's encoding produces, consumed to the last byte.

use vstd::bytes::*;
use vstd::prelude::*;
use vstd::slice::slice_subrange;

use crate::component::Component;
use crate::component::Singleton;
use crate::entity::EntityId;
use crate::entity::EntityTable;
use crate::entity::EntityTableView;
use crate::entity::Slot;
use crate::registry::Registry;
use crate::registry::RegistryView;
use crate::singleton_storage::SingletonStorage;
use crate::storage::Lock;
use crate::storage::Storage;
use crate::storage::StorageView;
use crate::storage::StoreCell;

verus! {

// ---------------------------------------------------------------------------
// Encoding, as specification
// ---------------------------------------------------------------------------

/// A `u64` as eight little-endian bytes.
pub open spec fn enc_u64(x: u64) -> Seq<u8> {
    spec_u64_to_le_bytes(x)
}

/// A `u128` as sixteen little-endian bytes.
pub open spec fn enc_u128(x: u128) -> Seq<u8> {
    spec_u128_to_le_bytes(x)
}

/// One slot: its generation, then one occupancy byte.
pub open spec fn enc_slot(s: Slot) -> Seq<u8> {
    enc_u64(s.generation) + seq![
        if s.live {
            1u8
        } else {
            0u8
        },
    ]
}

/// The slots at or after `i`, in order.
pub open spec fn enc_slots_from(slots: Seq<Slot>, i: int) -> Seq<u8>
    decreases slots.len() - i,
{
    if i < 0 || i >= slots.len() {
        Seq::empty()
    } else {
        enc_slot(slots[i]) + enc_slots_from(slots, i + 1)
    }
}

/// How many cells at or after `i` are occupied.
pub open spec fn count_present_from<V>(cells: Seq<Option<StoreCell<V>>>, i: int) -> nat
    decreases cells.len() - i,
{
    if i < 0 || i >= cells.len() {
        0
    } else {
        (if cells[i] is Some {
            1nat
        } else {
            0nat
        }) + count_present_from(cells, i + 1)
    }
}

/// One occupied cell: slot index, generation, then the length-framed payload
/// the application's codec gives for the value.
pub open spec fn enc_cell<V: Component>(index: int, c: StoreCell<V>) -> Seq<u8> {
    enc_u64(index as u64) + enc_u64(c.generation) + enc_u64(c.value.enc().len() as u64)
        + c.value.enc()
}

/// The occupied cells at or after `i`, in index order.
pub open spec fn enc_cells_from<V: Component>(cells: Seq<Option<StoreCell<V>>>, i: int) -> Seq<u8>
    decreases cells.len() - i,
{
    if i < 0 || i >= cells.len() {
        Seq::empty()
    } else {
        match cells[i] {
            Some(c) => enc_cell(i, c) + enc_cells_from(cells, i + 1),
            None => enc_cells_from(cells, i + 1),
        }
    }
}

/// One column store: its type key, the count of occupied cells, the cells.
pub open spec fn enc_store<V: Component>(st: StorageView<V>) -> Seq<u8> {
    enc_u128(st.key) + enc_u64(count_present_from(st.cells, 0) as u64) + enc_cells_from(
        st.cells,
        0,
    )
}

/// The stores at or after `i`, in registration order.
pub open spec fn enc_stores_from<V: Component>(stores: Seq<StorageView<V>>, i: int) -> Seq<u8>
    decreases stores.len() - i,
{
    if i < 0 || i >= stores.len() {
        Seq::empty()
    } else {
        enc_store(stores[i]) + enc_stores_from(stores, i + 1)
    }
}

/// One singleton: its type key, then the length-framed payload of its value.
pub open spec fn enc_single<V: Component>(sl: SingletonStorage<V>) -> Seq<u8> {
    enc_u128(sl.key) + enc_u64(sl.value.enc().len() as u64) + sl.value.enc()
}

/// The singletons at or after `i`, in registration order.
pub open spec fn enc_singles_from<V: Component>(
    singles: Seq<SingletonStorage<V>>,
    i: int,
) -> Seq<u8>
    decreases singles.len() - i,
{
    if i < 0 || i >= singles.len() {
        Seq::empty()
    } else {
        enc_single(singles[i]) + enc_singles_from(singles, i + 1)
    }
}

/// The whole snapshot: slot table, component stores, singletons, each section
/// prefixed with its count. Locks are not persisted: a restored registry is
/// fully unlocked.
pub open spec fn enc_registry<V: Component>(v: RegistryView<V>) -> Seq<u8> {
    enc_u64(v.entities.slots.len() as u64) + enc_slots_from(v.entities.slots, 0) + enc_u64(
        v.components.len() as u64,
    ) + enc_stores_from(v.components, 0) + enc_u64(v.singletons.len() as u64) + enc_singles_from(
        v.singletons,
        0,
    )
}

// ---------------------------------------------------------------------------
// Parsing, as specification
// ---------------------------------------------------------------------------

/// One parsed cell record: a slot index, a generation, an opaque payload.
#[verifier::ext_equal]
pub struct RawCellV {
    pub index: u64,
    pub generation: u64,
    pub payload: Seq<u8>,
}

/// One parsed store section: a type key and its cell records.
#[verifier::ext_equal]
pub struct RawStoreV {
    pub key: u128,
    pub cells: Seq<RawCellV>,
}

/// One parsed singleton section: a type key and its payload.
#[verifier::ext_equal]
pub struct RawSingleV {
    pub key: u128,
    pub payload: Seq<u8>,
}

/// A parsed snapshot.
#[verifier::ext_equal]
pub struct SnapshotV {
    pub slots: Seq<Slot>,
    pub stores: Seq<RawStoreV>,
    pub singles: Seq<RawSingleV>,
}

/// Reads a `u64` at `i`; `None` past the end.
pub open spec fn parse_u64(b: Seq<u8>, i: int) -> Option<(u64, int)> {
    if 0 <= i && i + 8 <= b.len() {
        Some((spec_u64_from_le_bytes(b.subrange(i, i + 8)), i + 8))
    } else {
        None
    }
}

/// Reads a `u128` at `i`.
pub open spec fn parse_u128(b: Seq<u8>, i: int) -> Option<(u128, int)> {
    if 0 <= i && i + 16 <= b.len() {
        Some((spec_u128_from_le_bytes(b.subrange(i, i + 16)), i + 16))
    } else {
        None
    }
}

/// Reads one slot at `i`: a generation and an occupancy byte, which must be
/// zero or one.
pub open spec fn parse_slot(b: Seq<u8>, i: int) -> Option<(Slot, int)> {
    match parse_u64(b, i) {
        None => None,
        Some((g, j)) => {
            if j + 1 <= b.len() {
                if b[j] == 0u8 {
                    Some((Slot { generation: g, live: false }, j + 1))
                } else if b[j] == 1u8 {
                    Some((Slot { generation: g, live: true }, j + 1))
                } else {
                    None
                }
            } else {
                None
            }
        },
    }
}

/// Reads `n` slots at `i`.
pub open spec fn parse_slots(b: Seq<u8>, i: int, n: nat) -> Option<(Seq<Slot>, int)>
    decreases n,
{
    if n == 0 {
        Some((Seq::empty(), i))
    } else {
        match parse_slot(b, i) {
            None => None,
            Some((s, j)) => match parse_slots(b, j, (n - 1) as nat) {
                None => None,
                Some((rest, k)) => Some((seq![s] + rest, k)),
            },
        }
    }
}

/// Reads a length-framed payload at `i`.
pub open spec fn parse_payload(b: Seq<u8>, i: int) -> Option<(Seq<u8>, int)> {
    match parse_u64(b, i) {
        None => None,
        Some((n, j)) => {
            if j + n <= b.len() {
                Some((b.subrange(j, j + n), j + n))
            } else {
                None
            }
        },
    }
}

/// Reads one cell record at `i`.
pub open spec fn parse_cell(b: Seq<u8>, i: int) -> Option<(RawCellV, int)> {
    match parse_u64(b, i) {
        None => None,
        Some((index, j)) => match parse_u64(b, j) {
            None => None,
            Some((generation, j2)) => match parse_payload(b, j2) {
                None => None,
                Some((payload, j3)) => Some((RawCellV { index, generation, payload }, j3)),
            },
        },
    }
}

/// Reads `n` cell records at `i`.
pub open spec fn parse_cells(b: Seq<u8>, i: int, n: nat) -> Option<(Seq<RawCellV>, int)>
    decreases n,
{
    if n == 0 {
        Some((Seq::empty(), i))
    } else {
        match parse_cell(b, i) {
            None => None,
            Some((c, j)) => match parse_cells(b, j, (n - 1) as nat) {
                None => None,
                Some((rest, k)) => Some((seq![c] + rest, k)),
            },
        }
    }
}

/// Reads one store section at `i`.
pub open spec fn parse_store(b: Seq<u8>, i: int) -> Option<(RawStoreV, int)> {
    match parse_u128(b, i) {
        None => None,
        Some((key, j)) => match parse_u64(b, j) {
            None => None,
            Some((n, j2)) => match parse_cells(b, j2, n as nat) {
                None => None,
                Some((cells, j3)) => Some((RawStoreV { key, cells }, j3)),
            },
        },
    }
}

/// Reads `n` store sections at `i`.
pub open spec fn parse_stores(b: Seq<u8>, i: int, n: nat) -> Option<(Seq<RawStoreV>, int)>
    decreases n,
{
    if n == 0 {
        Some((Seq::empty(), i))
    } else {
        match parse_store(b, i) {
            None => None,
            Some((s, j)) => match parse_stores(b, j, (n - 1) as nat) {
                None => None,
                Some((rest, k)) => Some((seq![s] + rest, k)),
            },
        }
    }
}

/// Reads one singleton section at `i`.
pub open spec fn parse_single(b: Seq<u8>, i: int) -> Option<(RawSingleV, int)> {
    match parse_u128(b, i) {
        None => None,
        Some((key, j)) => match parse_payload(b, j) {
            None => None,
            Some((payload, j2)) => Some((RawSingleV { key, payload }, j2)),
        },
    }
}

/// Reads `n` singleton sections at `i`.
pub open spec fn parse_singles(b: Seq<u8>, i: int, n: nat) -> Option<(Seq<RawSingleV>, int)>
    decreases n,
{
    if n == 0 {
        Some((Seq::empty(), i))
    } else {
        match parse_single(b, i) {
            None => None,
            Some((s, j)) => match parse_singles(b, j, (n - 1) as nat) {
                None => None,
                Some((rest, k)) => Some((seq![s] + rest, k)),
            },
        }
    }
}

/// Parses a whole snapshot; every byte must be consumed.
pub open spec fn parse_snapshot(b: Seq<u8>) -> Option<SnapshotV> {
    match parse_u64(b, 0) {
        None => None,
        Some((nslots, i)) => match parse_slots(b, i, nslots as nat) {
            None => None,
            Some((slots, i2)) => match parse_u64(b, i2) {
                None => None,
                Some((nstores, i3)) => match parse_stores(b, i3, nstores as nat) {
                    None => None,
                    Some((stores, i4)) => match parse_u64(b, i4) {
                        None => None,
                        Some((nsingles, i5)) => match parse_singles(b, i5, nsingles as nat) {
                            None => None,
                            Some((singles, i6)) => {
                                if i6 == b.len() {
                                    Some(SnapshotV { slots, stores, singles })
                                } else {
                                    None
                                }
                            },
                        },
                    },
                },
            },
        },
    }
}

// ---------------------------------------------------------------------------
// Encoding, executable
// ---------------------------------------------------------------------------

/// Appends a `u64`, little endian.
fn put_u64(out: &mut Vec<u8>, x: u64)
    ensures
        final(out)@ == old(out)@ + enc_u64(x),
{
    let mut b = u64_to_le_bytes(x);
    out.append(&mut b);
}

/// Appends a `u128`, little endian.
fn put_u128(out: &mut Vec<u8>, x: u128)
    ensures
        final(out)@ == old(out)@ + enc_u128(x),
{
    let mut b = u128_to_le_bytes(x);
    out.append(&mut b);
}

/// Appends every slot in order.
fn put_slots(out: &mut Vec<u8>, slots: &Vec<Slot>)
    ensures
        final(out)@ == old(out)@ + enc_slots_from(slots@, 0),
{
    let mut i: usize = 0;
    while i < slots.len()
        invariant
            0 <= i <= slots@.len(),
            out@ + enc_slots_from(slots@, i as int) == old(out)@ + enc_slots_from(slots@, 0),
        decreases slots@.len() - i,
    {
        let ghost mid = out@;
        let s = slots[i];
        put_u64(out, s.generation);
        if s.live {
            out.push(1u8);
        } else {
            out.push(0u8);
        }
        proof {
            assert(out@ =~= mid + enc_slot(slots@[i as int]));
            assert(out@ + enc_slots_from(slots@, i + 1) =~= mid + enc_slots_from(
                slots@,
                i as int,
            ));
        }
        i = i + 1;
    }
}

/// How many cells of the store are occupied.
fn count_present<V: Component>(cells: &Vec<Option<StoreCell<V>>>) -> (n: usize)
    ensures
        n == count_present_from(cells@, 0),
{
    let mut n: usize = 0;
    let mut i: usize = 0;
    while i < cells.len()
        invariant
            0 <= i <= cells@.len(),
            n <= i,
            n + count_present_from(cells@, i as int) == count_present_from(cells@, 0),
        decreases cells@.len() - i,
    {
        match &cells[i] {
            Some(_) => {
                n = n + 1;
            },
            None => {},
        }
        i = i + 1;
    }
    n
}

/// Appends one store section: key, occupied-cell count, cells.
fn put_store<V: Component>(out: &mut Vec<u8>, st: &Storage<V>)
    ensures
        final(out)@ == old(out)@ + enc_store(st@),
{
    put_u128(out, st.key);
    let n = count_present(&st.cells);
    put_u64(out, n as u64);
    let ghost base = out@;
    let mut i: usize = 0;
    while i < st.cells.len()
        invariant
            0 <= i <= st.cells@.len(),
            out@ + enc_cells_from(st.cells@, i as int) == base + enc_cells_from(st.cells@, 0),
        decreases st.cells@.len() - i,
    {
        let ghost mid = out@;
        match &st.cells[i] {
            None => {},
            Some(c) => {
                put_u64(out, i as u64);
                put_u64(out, c.generation);
                let mut payload = c.value.encode();
                put_u64(out, payload.len() as u64);
                out.append(&mut payload);
                proof {
                    assert(out@ =~= mid + enc_cell(i as int, st.cells@[i as int]->Some_0));
                }
            },
        }
        proof {
            assert(out@ + enc_cells_from(st.cells@, i + 1) =~= mid + enc_cells_from(
                st.cells@,
                i as int,
            ));
        }
        i = i + 1;
    }
    proof {
        assert(out@ =~= old(out)@ + enc_store(st@));
    }
}

/// Appends one singleton section: key, length-framed payload.
fn put_single<V: Component>(out: &mut Vec<u8>, sl: &SingletonStorage<V>)
    ensures
        final(out)@ == old(out)@ + enc_single(*sl),
{
    put_u128(out, sl.key);
    let mut payload = sl.value.encode();
    put_u64(out, payload.len() as u64);
    out.append(&mut payload);
    proof {
        assert(out@ =~= old(out)@ + enc_single(*sl));
    }
}

// ---------------------------------------------------------------------------
// Parsing, executable
// ---------------------------------------------------------------------------

/// One parsed cell record.
pub struct RawCell {
    pub index: u64,
    pub generation: u64,
    pub payload: Vec<u8>,
}

/// One parsed store section.
pub struct RawStore {
    pub key: u128,
    pub cells: Vec<RawCell>,
}

/// One parsed singleton section.
pub struct RawSingle {
    pub key: u128,
    pub payload: Vec<u8>,
}

/// A parsed snapshot.
pub struct RawSnapshot {
    pub slots: Vec<Slot>,
    pub stores: Vec<RawStore>,
    pub singles: Vec<RawSingle>,
}

impl View for RawCell {
    type V = RawCellV;

    open spec fn view(&self) -> RawCellV {
        RawCellV { index: self.index, generation: self.generation, payload: self.payload@ }
    }
}

impl View for RawStore {
    type V = RawStoreV;

    open spec fn view(&self) -> RawStoreV {
        RawStoreV { key: self.key, cells: self.cells@.map_values(|c: RawCell| c@) }
    }
}

impl View for RawSingle {
    type V = RawSingleV;

    open spec fn view(&self) -> RawSingleV {
        RawSingleV { key: self.key, payload: self.payload@ }
    }
}

impl View for RawSnapshot {
    type V = SnapshotV;

    open spec fn view(&self) -> SnapshotV {
        SnapshotV {
            slots: self.slots@,
            stores: self.stores@.map_values(|s: RawStore| s@),
            singles: self.singles@.map_values(|s: RawSingle| s@),
        }
    }
}

/// Reads a `u64` at `i`.
fn get_u64(b: &Vec<u8>, i: usize) -> (r: Option<(u64, usize)>)
    ensures
        r is Some <==> parse_u64(b@, i as int) is Some,
        r matches Some((x, j)) ==> parse_u64(b@, i as int) == Some((x, j as int)),
{
    if i <= b.len() && b.len() - i >= 8 {
        let s = slice_subrange(b.as_slice(), i, i + 8);
        Some((u64_from_le_bytes(s), i + 8))
    } else {
        None
    }
}

/// Reads a `u128` at `i`.
fn get_u128(b: &Vec<u8>, i: usize) -> (r: Option<(u128, usize)>)
    ensures
        r is Some <==> parse_u128(b@, i as int) is Some,
        r matches Some((x, j)) ==> parse_u128(b@, i as int) == Some((x, j as int)),
{
    if i <= b.len() && b.len() - i >= 16 {
        let s = slice_subrange(b.as_slice(), i, i + 16);
        Some((u128_from_le_bytes(s), i + 16))
    } else {
        None
    }
}

/// Reads one slot at `i`.
fn get_slot(b: &Vec<u8>, i: usize) -> (r: Option<(Slot, usize)>)
    ensures
        r is Some <==> parse_slot(b@, i as int) is Some,
        r matches Some((s, j)) ==> parse_slot(b@, i as int) == Some((s, j as int)),
{
    match get_u64(b, i) {
        None => None,
        Some((g, j)) => {
            if j < b.len() {
                let byte = b[j];
                if byte == 0 {
                    Some((Slot { generation: g, live: false }, j + 1))
                } else if byte == 1 {
                    Some((Slot { generation: g, live: true }, j + 1))
                } else {
                    None
                }
            } else {
                None
            }
        },
    }
}

/// Reads `n` slots at `i`.
fn get_slots(b: &Vec<u8>, i: usize, n: u64) -> (r: Option<(Vec<Slot>, usize)>)
    ensures
        r is Some <==> parse_slots(b@, i as int, n as nat) is Some,
        r matches Some((v, j)) ==> parse_slots(b@, i as int, n as nat) == Some((v@, j as int)),
{
    let mut out: Vec<Slot> = Vec::new();
    let mut k: u64 = 0;
    let mut cur: usize = i;
    while k < n
        invariant
            0 <= k <= n,
            ({
                let inner = parse_slots(b@, cur as int, (n - k) as nat);
                let outer = parse_slots(b@, i as int, n as nat);
                match inner {
                    None => outer is None,
                    Some(p) => outer == Some((out@ + p.0, p.1)),
                }
            }),
        decreases n - k,
    {
        match get_slot(b, cur) {
            None => {
                return None;
            },
            Some((s, j)) => {
                let ghost outpre = out@;
                out.push(s);
                proof {
                    match parse_slots(b@, j as int, (n - k - 1) as nat) {
                        None => {},
                        Some(p) => {
                            assert(outpre + (seq![s] + p.0) =~= out@ + p.0);
                        },
                    }
                }
                cur = j;
                k = k + 1;
            },
        }
    }
    proof {
        assert(parse_slots(b@, cur as int, 0) == Some((Seq::<Slot>::empty(), cur as int)));
        assert(out@ + Seq::<Slot>::empty() =~= out@);
    }
    Some((out, cur))
}

/// Reads a length-framed payload at `i`.
fn get_payload(b: &Vec<u8>, i: usize) -> (r: Option<(Vec<u8>, usize)>)
    ensures
        r is Some <==> parse_payload(b@, i as int) is Some,
        r matches Some((v, j)) ==> parse_payload(b@, i as int) == Some((v@, j as int)),
{
    match get_u64(b, i) {
        None => None,
        Some((n, j)) => {
            if n <= (b.len() - j) as u64 {
                let m = n as usize;
                let s = slice_subrange(b.as_slice(), j, j + m);
                Some((vstd::slice::slice_to_vec(s), j + m))
            } else {
                None
            }
        },
    }
}

/// Reads one cell record at `i`.
fn get_cell(b: &Vec<u8>, i: usize) -> (r: Option<(RawCell, usize)>)
    ensures
        r is Some <==> parse_cell(b@, i as int) is Some,
        r matches Some((c, j)) ==> parse_cell(b@, i as int) == Some((c@, j as int)),
{
    match get_u64(b, i) {
        None => None,
        Some((index, j)) => match get_u64(b, j) {
            None => None,
            Some((generation, j2)) => match get_payload(b, j2) {
                None => None,
                Some((payload, j3)) => Some((RawCell { index, generation, payload }, j3)),
            },
        },
    }
}

/// Reads `n` cell records at `i`.
fn get_cells(b: &Vec<u8>, i: usize, n: u64) -> (r: Option<(Vec<RawCell>, usize)>)
    ensures
        r is Some <==> parse_cells(b@, i as int, n as nat) is Some,
        r matches Some((v, j)) ==> parse_cells(b@, i as int, n as nat) == Some((
            v@.map_values(|c: RawCell| c@),
            j as int,
        )),
{
    let mut out: Vec<RawCell> = Vec::new();
    let mut k: u64 = 0;
    let mut cur: usize = i;
    while k < n
        invariant
            0 <= k <= n,
            ({
                let inner = parse_cells(b@, cur as int, (n - k) as nat);
                let outer = parse_cells(b@, i as int, n as nat);
                match inner {
                    None => outer is None,
                    Some(p) => outer == Some((out@.map_values(|c: RawCell| c@) + p.0, p.1)),
                }
            }),
        decreases n - k,
    {
        match get_cell(b, cur) {
            None => {
                return None;
            },
            Some((c, j)) => {
                let ghost outpre = out@;
                let ghost cv = c@;
                out.push(c);
                proof {
                    assert(out@.map_values(|c: RawCell| c@) =~= outpre.map_values(
                        |c: RawCell| c@,
                    ).push(cv));
                    match parse_cells(b@, j as int, (n - k - 1) as nat) {
                        None => {},
                        Some(p) => {
                            assert(outpre.map_values(|c: RawCell| c@) + (seq![cv] + p.0)
                                =~= out@.map_values(|c: RawCell| c@) + p.0);
                        },
                    }
                }
                cur = j;
                k = k + 1;
            },
        }
    }
    proof {
        assert(parse_cells(b@, cur as int, 0) == Some((Seq::<RawCellV>::empty(), cur as int)));
        assert(out@.map_values(|c: RawCell| c@) + Seq::<RawCellV>::empty() =~= out@.map_values(
            |c: RawCell| c@,
        ));
    }
    Some((out, cur))
}

/// Reads one store section at `i`.
fn get_store(b: &Vec<u8>, i: usize) -> (r: Option<(RawStore, usize)>)
    ensures
        r is Some <==> parse_store(b@, i as int) is Some,
        r matches Some((s, j)) ==> parse_store(b@, i as int) == Some((s@, j as int)),
{
    match get_u128(b, i) {
        None => None,
        Some((key, j)) => match get_u64(b, j) {
            None => None,
            Some((n, j2)) => match get_cells(b, j2, n) {
                None => None,
                Some((cells, j3)) => Some((RawStore { key, cells }, j3)),
            },
        },
    }
}

/// Reads `n` store sections at `i`.
fn get_stores(b: &Vec<u8>, i: usize, n: u64) -> (r: Option<(Vec<RawStore>, usize)>)
    ensures
        r is Some <==> parse_stores(b@, i as int, n as nat) is Some,
        r matches Some((v, j)) ==> parse_stores(b@, i as int, n as nat) == Some((
            v@.map_values(|s: RawStore| s@),
            j as int,
        )),
{
    let mut out: Vec<RawStore> = Vec::new();
    let mut k: u64 = 0;
    let mut cur: usize = i;
    while k < n
        invariant
            0 <= k <= n,
            ({
                let inner = parse_stores(b@, cur as int, (n - k) as nat);
                let outer = parse_stores(b@, i as int, n as nat);
                match inner {
                    None => outer is None,
                    Some(p) => outer == Some((out@.map_values(|s: RawStore| s@) + p.0, p.1)),
                }
            }),
        decreases n - k,
    {
        match get_store(b, cur) {
            None => {
                return None;
            },
            Some((s, j)) => {
                let ghost outpre = out@;
                let ghost sv = s@;
                out.push(s);
                proof {
                    assert(out@.map_values(|s: RawStore| s@) =~= outpre.map_values(
                        |s: RawStore| s@,
                    ).push(sv));
                    match parse_stores(b@, j as int, (n - k - 1) as nat) {
                        None => {},
                        Some(p) => {
                            assert(outpre.map_values(|s: RawStore| s@) + (seq![sv] + p.0)
                                =~= out@.map_values(|s: RawStore| s@) + p.0);
                        },
                    }
                }
                cur = j;
                k = k + 1;
            },
        }
    }
    proof {
        assert(parse_stores(b@, cur as int, 0) == Some((Seq::<RawStoreV>::empty(), cur as int)));
        assert(out@.map_values(|s: RawStore| s@) + Seq::<RawStoreV>::empty() =~= out@.map_values(
            |s: RawStore| s@,
        ));
    }
    Some((out, cur))
}

/// Reads one singleton section at `i`.
fn get_single(b: &Vec<u8>, i: usize) -> (r: Option<(RawSingle, usize)>)
    ensures
        r is Some <==> parse_single(b@, i as int) is Some,
        r matches Some((s, j)) ==> parse_single(b@, i as int) == Some((s@, j as int)),
{
    match get_u128(b, i) {
        None => None,
        Some((key, j)) => match get_payload(b, j) {
            None => None,
            Some((payload, j2)) => Some((RawSingle { key, payload }, j2)),
        },
    }
}

/// Reads `n` singleton sections at `i`.
fn get_singles(b: &Vec<u8>, i: usize, n: u64) -> (r: Option<(Vec<RawSingle>, usize)>)
    ensures
        r is Some <==> parse_singles(b@, i as int, n as nat) is Some,
        r matches Some((v, j)) ==> parse_singles(b@, i as int, n as nat) == Some((
            v@.map_values(|s: RawSingle| s@),
            j as int,
        )),
{
    let mut out: Vec<RawSingle> = Vec::new();
    let mut k: u64 = 0;
    let mut cur: usize = i;
    while k < n
        invariant
            0 <= k <= n,
            ({
                let inner = parse_singles(b@, cur as int, (n - k) as nat);
                let outer = parse_singles(b@, i as int, n as nat);
                match inner {
                    None => outer is None,
                    Some(p) => outer == Some((out@.map_values(|s: RawSingle| s@) + p.0, p.1)),
                }
            }),
        decreases n - k,
    {
        match get_single(b, cur) {
            None => {
                return None;
            },
            Some((s, j)) => {
                let ghost outpre = out@;
                let ghost sv = s@;
                out.push(s);
                proof {
                    assert(out@.map_values(|s: RawSingle| s@) =~= outpre.map_values(
                        |s: RawSingle| s@,
                    ).push(sv));
                    match parse_singles(b@, j as int, (n - k - 1) as nat) {
                        None => {},
                        Some(p) => {
                            assert(outpre.map_values(|s: RawSingle| s@) + (seq![sv] + p.0)
                                =~= out@.map_values(|s: RawSingle| s@) + p.0);
                        },
                    }
                }
                cur = j;
                k = k + 1;
            },
        }
    }
    proof {
        assert(parse_singles(b@, cur as int, 0) == Some((Seq::<RawSingleV>::empty(), cur as int)));
        assert(out@.map_values(|s: RawSingle| s@) + Seq::<RawSingleV>::empty() =~= out@.map_values(
            |s: RawSingle| s@,
        ));
    }
    Some((out, cur))
}

/// Parses a whole snapshot; every byte must be consumed.
fn get_snapshot(b: &Vec<u8>) -> (r: Option<RawSnapshot>)
    ensures
        r is Some <==> parse_snapshot(b@) is Some,
        r matches Some(s) ==> parse_snapshot(b@) == Some(s@),
{
    match get_u64(b, 0) {
        None => None,
        Some((nslots, i)) => match get_slots(b, i, nslots) {
            None => None,
            Some((slots, i2)) => match get_u64(b, i2) {
                None => None,
                Some((nstores, i3)) => match get_stores(b, i3, nstores) {
                    None => None,
                    Some((stores, i4)) => match get_u64(b, i4) {
                        None => None,
                        Some((nsingles, i5)) => match get_singles(b, i5, nsingles) {
                            None => None,
                            Some((singles, i6)) => {
                                if i6 == b.len() {
                                    Some(RawSnapshot { slots, stores, singles })
                                } else {
                                    None
                                }
                            },
                        },
                    },
                },
            },
        },
    }
}

// ---------------------------------------------------------------------------
// Applying a snapshot, as specification
// ---------------------------------------------------------------------------

/// Whether some store in `comps` carries `key`.
pub open spec fn store_key_registered<V: Component>(
    comps: Seq<StorageView<V>>,
    key: u128,
) -> bool {
    exists|j: int| 0 <= j < comps.len() && (#[trigger] comps[j]).key == key
}

/// The position in `comps` of the store carrying `key`.
pub open spec fn store_key_index<V: Component>(comps: Seq<StorageView<V>>, key: u128) -> int {
    choose|j: int| 0 <= j < comps.len() && (#[trigger] comps[j]).key == key
}

/// With distinct keys, the position of a store under its key is the position
/// of any store carrying that key.
pub proof fn lemma_store_key_index_unique<V: Component>(
    comps: Seq<StorageView<V>>,
    key: u128,
    i: int,
)
    requires
        forall|a: int, b: int|
            0 <= a < b < comps.len() ==> (#[trigger] comps[a]).key != (#[trigger] comps[b]).key,
        0 <= i < comps.len(),
        comps[i].key == key,
    ensures
        store_key_registered(comps, key),
        store_key_index(comps, key) == i,
{
    assert(store_key_registered(comps, key));
    let c = store_key_index::<V>(comps, key);
    if c != i {
        if c < i {
            assert(comps[c].key != comps[i].key);
        } else {
            assert(comps[i].key != comps[c].key);
        }
    }
}

/// Whether some singleton slot in `sings` carries `key`.
pub open spec fn single_key_registered<V: Component>(
    sings: Seq<SingletonStorage<V>>,
    key: u128,
) -> bool {
    exists|j: int| 0 <= j < sings.len() && (#[trigger] sings[j]).key == key
}

/// The position in `sings` of the slot carrying `key`.
pub open spec fn single_key_index<V: Component>(
    sings: Seq<SingletonStorage<V>>,
    key: u128,
) -> int {
    choose|j: int| 0 <= j < sings.len() && (#[trigger] sings[j]).key == key
}

/// The singleton analogue of [`lemma_store_key_index_unique`].
pub proof fn lemma_single_key_index_unique<V: Component>(
    sings: Seq<SingletonStorage<V>>,
    key: u128,
    i: int,
)
    requires
        forall|a: int, b: int|
            0 <= a < b < sings.len() ==> (#[trigger] sings[a]).key != (#[trigger] sings[b]).key,
        0 <= i < sings.len(),
        sings[i].key == key,
    ensures
        single_key_registered(sings, key),
        single_key_index(sings, key) == i,
{
    assert(single_key_registered(sings, key));
    let c = single_key_index::<V>(sings, key);
    if c != i {
        if c < i {
            assert(sings[c].key != sings[i].key);
        } else {
            assert(sings[i].key != sings[c].key);
        }
    }
}

/// Whether a store's records can be applied: every record names an in-range
/// slot and its payload decodes for the store's kind.
pub open spec fn records_ok<V: Component>(key: u128, recs: Seq<RawCellV>, nslots: nat) -> bool {
    forall|i: int|
        0 <= i < recs.len() ==> {
            &&& (#[trigger] recs[i]).index < nslots
            &&& V::dec(key, recs[i].payload) is Some
        }
}

/// The cells a store holds after its records are applied in order: each
/// record's decoded value at its slot index, unlocked.
pub open spec fn cells_from_records<V: Component>(key: u128, recs: Seq<RawCellV>) -> Seq<
    Option<StoreCell<V>>,
>
    decreases recs.len(),
{
    if recs.len() == 0 {
        Seq::empty()
    } else {
        let prev = cells_from_records::<V>(key, recs.drop_last());
        let r = recs.last();
        StorageView::<V>::padded(prev, r.index + 1).update(
            r.index as int,
            Some(
                StoreCell {
                    generation: r.generation,
                    state: Lock::Free,
                    value: V::dec(key, r.payload)->Some_0,
                },
            ),
        )
    }
}

/// The stores after the snapshot's store sections replace, in order, the
/// contents of each section's registered store; unregistered keys are
/// silently ignored.
pub open spec fn apply_stores_spec<V: Component>(
    comps: Seq<StorageView<V>>,
    snaps: Seq<RawStoreV>,
) -> Seq<StorageView<V>>
    decreases snaps.len(),
{
    if snaps.len() == 0 {
        comps
    } else {
        let prev = apply_stores_spec(comps, snaps.drop_last());
        let s = snaps.last();
        if store_key_registered(prev, s.key) {
            prev.update(
                store_key_index(prev, s.key),
                StorageView { key: s.key, cells: cells_from_records::<V>(s.key, s.cells) },
            )
        } else {
            prev
        }
    }
}

/// The singleton slots after the snapshot's singleton sections replace, in
/// order, each section's registered slot, unlocked; unregistered keys are
/// silently ignored.
pub open spec fn apply_singles_spec<V: Component>(
    sings: Seq<SingletonStorage<V>>,
    snaps: Seq<RawSingleV>,
) -> Seq<SingletonStorage<V>>
    decreases snaps.len(),
{
    if snaps.len() == 0 {
        sings
    } else {
        let prev = apply_singles_spec(sings, snaps.drop_last());
        let s = snaps.last();
        if single_key_registered(prev, s.key) {
            prev.update(
                single_key_index(prev, s.key),
                SingletonStorage {
                    key: s.key,
                    state: Lock::Free,
                    value: V::dec(s.key, s.payload)->Some_0,
                },
            )
        } else {
            prev
        }
    }
}

impl<V: Component> RegistryView<V> {
    /// Whether the snapshot can be applied to this registry: every section
    /// whose key is registered here decodes cleanly and stays in range.
    /// Sections for unregistered keys are ignored, decodable or not.
    pub open spec fn snapshot_ok(self, snap: SnapshotV) -> bool {
        &&& forall|i: int|
            0 <= i < snap.stores.len() ==> (self.comp_registered((#[trigger] snap.stores[i]).key)
                ==> records_ok::<V>(snap.stores[i].key, snap.stores[i].cells, snap.slots.len()))
        &&& forall|i: int|
            0 <= i < snap.singles.len() ==> (self.sing_registered(
                (#[trigger] snap.singles[i]).key,
            ) ==> V::dec(snap.singles[i].key, snap.singles[i].payload) is Some)
    }

    /// The registry a snapshot restores: the slot table is replaced
    /// wholesale; every store is emptied and then the snapshot's sections
    /// fill the stores they name, everything unlocked; the command queue
    /// stays. A registered store the snapshot does not name ends up empty —
    /// its old cells would otherwise outlive the replaced slot table and
    /// could resolve under stale handles.
    pub open spec fn deserialize_spec(self, snap: SnapshotV) -> RegistryView<V> {
        RegistryView {
            entities: EntityTableView {
                slots: snap.slots,
                free: EntityTableView::dead_free_from(snap.slots, 0),
            },
            components: apply_stores_spec(
                self.components.map_values(|s: StorageView<V>| s.clear_spec()),
                snap.stores,
            ),
            singletons: apply_singles_spec(self.singletons, snap.singles),
            queue: self.queue,
        }
    }
}

// ---------------------------------------------------------------------------
// Serialize and deserialize, executable
// ---------------------------------------------------------------------------

impl<V: Component> Registry<V> {
    /// The snapshot of this registry as bytes: slot table, every component
    /// store's occupied cells, every singleton's value, with payloads encoded
    /// by the application's codec. Lock states are not persisted.
    pub fn serialize(&self) -> (bytes: Vec<u8>)
        ensures
            bytes@ == enc_registry(self@),
    {
        let mut out: Vec<u8> = Vec::new();
        put_u64(&mut out, self.entities.slots.len() as u64);
        put_slots(&mut out, &self.entities.slots);
        put_u64(&mut out, self.components.len() as u64);
        let ghost base = out@;
        let mut i: usize = 0;
        while i < self.components.len()
            invariant
                0 <= i <= self.components@.len(),
                out@ + enc_stores_from(self@.components, i as int) == base + enc_stores_from(
                    self@.components,
                    0,
                ),
            decreases self.components@.len() - i,
        {
            let ghost mid = out@;
            put_store(&mut out, &self.components[i]);
            proof {
                assert(self.components@[i as int]@ == self@.components[i as int]);
                assert(out@ + enc_stores_from(self@.components, i + 1) =~= mid + enc_stores_from(
                    self@.components,
                    i as int,
                ));
            }
            i = i + 1;
        }
        put_u64(&mut out, self.singletons.len() as u64);
        let ghost base2 = out@;
        let mut i: usize = 0;
        while i < self.singletons.len()
            invariant
                0 <= i <= self.singletons@.len(),
                out@ + enc_singles_from(self@.singletons, i as int) == base2 + enc_singles_from(
                    self@.singletons,
                    0,
                ),
            decreases self.singletons@.len() - i,
        {
            let ghost mid = out@;
            put_single(&mut out, &self.singletons[i]);
            proof {
                assert(out@ + enc_singles_from(self@.singletons, i + 1) =~= mid + enc_singles_from(
                    self@.singletons,
                    i as int,
                ));
            }
            i = i + 1;
        }
        proof {
            assert(out@ =~= enc_registry(self@));
        }
        out
    }

    /// Whether the parsed snapshot can be applied here: every section for a
    /// registered key must decode and stay in range.
    fn check_snapshot(&self, snap: &RawSnapshot) -> (r: bool)
        requires
            self@.wf(),
        ensures
            r == self@.snapshot_ok(snap@),
    {
        let nslots = snap.slots.len() as u64;
        let mut i: usize = 0;
        while i < snap.stores.len()
            invariant
                0 <= i <= snap.stores@.len(),
                self@.wf(),
                nslots == snap@.slots.len(),
                forall|a: int|
                    0 <= a < i ==> (self@.comp_registered((#[trigger] snap@.stores[a]).key)
                        ==> records_ok::<V>(
                        snap@.stores[a].key,
                        snap@.stores[a].cells,
                        snap@.slots.len(),
                    )),
            decreases snap.stores@.len() - i,
        {
            let s = &snap.stores[i];
            proof {
                assert(snap@.stores[i as int] == s@);
            }
            match self.find_component(s.key) {
                None => {},
                Some(_) => {
                    proof {
                        assert(self@.comp_registered(s@.key));
                    }
                    let mut m: usize = 0;
                    while m < s.cells.len()
                        invariant
                            0 <= m <= s.cells@.len(),
                            self@.comp_registered(s@.key),
                            snap@.stores[i as int] == s@,
                            0 <= i < snap@.stores.len(),
                            nslots == snap@.slots.len(),
                            forall|c: int|
                                0 <= c < m ==> {
                                    &&& (#[trigger] s@.cells[c]).index < nslots
                                    &&& V::dec(s@.key, s@.cells[c].payload) is Some
                                },
                        decreases s.cells@.len() - m,
                    {
                        let c = &s.cells[m];
                        proof {
                            assert(s@.cells[m as int] == c@);
                        }
                        if c.index >= nslots {
                            proof {
                                assert(s@.cells[m as int].index >= snap@.slots.len());
                                assert(!records_ok::<V>(s@.key, s@.cells, snap@.slots.len()));
                                assert(!self@.snapshot_ok(snap@));
                            }
                            return false;
                        }
                        match V::decode(s.key, c.payload.as_slice()) {
                            Some(_) => {},
                            None => {
                                proof {
                                    assert(V::dec(s@.key, s@.cells[m as int].payload) is None);
                                    assert(!records_ok::<V>(s@.key, s@.cells, snap@.slots.len()));
                                    assert(!self@.snapshot_ok(snap@));
                                }
                                return false;
                            },
                        }
                        m = m + 1;
                    }
                    proof {
                        assert(records_ok::<V>(
                            snap@.stores[i as int].key,
                            snap@.stores[i as int].cells,
                            snap@.slots.len(),
                        ));
                    }
                },
            }
            i = i + 1;
        }
        let mut i: usize = 0;
        while i < snap.singles.len()
            invariant
                0 <= i <= snap.singles@.len(),
                self@.wf(),
                forall|a: int|
                    0 <= a < i ==> (self@.sing_registered((#[trigger] snap@.singles[a]).key)
                        ==> V::dec(snap@.singles[a].key, snap@.singles[a].payload) is Some),
                forall|a: int|
                    0 <= a < snap@.stores.len() ==> (self@.comp_registered(
                        (#[trigger] snap@.stores[a]).key,
                    ) ==> records_ok::<V>(
                        snap@.stores[a].key,
                        snap@.stores[a].cells,
                        snap@.slots.len(),
                    )),
            decreases snap.singles@.len() - i,
        {
            let s = &snap.singles[i];
            proof {
                assert(snap@.singles[i as int] == s@);
            }
            match self.find_singleton(s.key) {
                None => {},
                Some(_) => {
                    match V::decode(s.key, s.payload.as_slice()) {
                        Some(_) => {},
                        None => {
                            proof {
                                assert(self@.sing_registered(s@.key));
                                assert(V::dec(s@.key, s@.payload) is None);
                                assert(!self@.snapshot_ok(snap@));
                            }
                            return false;
                        },
                    }
                },
            }
            i = i + 1;
        }
        true
    }

    /// Builds a store's cells from its records, decoding each payload.
    fn build_cells(key: u128, recs: &Vec<RawCell>, nslots: usize) -> (cells: Vec<
        Option<StoreCell<V>>,
    >)
        requires
            records_ok::<V>(key, recs@.map_values(|c: RawCell| c@), nslots as nat),
        ensures
            cells@ == cells_from_records::<V>(key, recs@.map_values(|c: RawCell| c@)),
            cells@.len() <= nslots,
            forall|i: int|
                0 <= i < cells@.len() ==> ((#[trigger] cells@[i]) matches Some(c) ==> {
                    &&& c.value.key() == key
                    &&& c.state == Lock::Free
                }),
    {
        let ghost recsv = recs@.map_values(|c: RawCell| c@);
        let mut cells: Vec<Option<StoreCell<V>>> = Vec::new();
        let mut k: usize = 0;
        while k < recs.len()
            invariant
                0 <= k <= recs@.len(),
                recsv == recs@.map_values(|c: RawCell| c@),
                records_ok::<V>(key, recsv, nslots as nat),
                nslots <= usize::MAX,
                cells@.len() <= nslots,
                cells@ == cells_from_records::<V>(key, recsv.take(k as int)),
                forall|i: int|
                    0 <= i < cells@.len() ==> ((#[trigger] cells@[i]) matches Some(c) ==> {
                        &&& c.value.key() == key
                        &&& c.state == Lock::Free
                    }),
            decreases recs@.len() - k,
        {
            let r = &recs[k];
            proof {
                assert(recsv[k as int] == recs@[k as int]@);
            }
            match V::decode(key, r.payload.as_slice()) {
                None => {
                    proof {
                        assert(V::dec(key, recsv[k as int].payload) is Some);
                        assert(false);
                    }
                },
                Some(v) => {
                    let ghost pre = cells@;
                    let idx = r.index as usize;
                    while cells.len() <= idx
                        invariant
                            idx < usize::MAX,
                            cells@ =~= StorageView::<V>::padded(pre, cells@.len() as int),
                            cells@.len() <= idx + 1 || cells@ == pre,
                        decreases idx + 1 - cells@.len(),
                    {
                        cells.push(None);
                        proof {
                            assert(cells@ =~= StorageView::<V>::padded(pre, cells@.len() as int));
                        }
                    }
                    proof {
                        assert(cells@ =~= StorageView::<V>::padded(pre, idx + 1 as int));
                    }
                    cells[idx] = Some(StoreCell { generation: r.generation, state: Lock::Free, value: v });
                    proof {
                        assert(recsv.take(k + 1 as int).drop_last() =~= recsv.take(k as int));
                        assert(recsv.take(k + 1 as int).last() == recsv[k as int]);
                        assert(cells@ =~= cells_from_records::<V>(key, recsv.take(k + 1 as int)));
                    }
                },
            }
            k = k + 1;
        }
        proof {
            assert(recsv.take(recs@.len() as int) =~= recsv);
        }
        cells
    }

    /// Restores this registry from snapshot bytes. Succeeds exactly when the
    /// bytes parse as a snapshot whose sections, for every registered key,
    /// decode and stay in range; then the slot table is replaced wholesale,
    /// each registered store or singleton named by the snapshot is replaced
    /// wholesale and unlocked, and snapshot keys not registered here are
    /// silently ignored. On failure nothing changes at all.
    pub fn deserialize(&mut self, bytes: &Vec<u8>) -> (ok: bool)
        requires
            old(self)@.wf(),
        ensures
            final(self)@.wf(),
            ok <==> (parse_snapshot(bytes@) is Some && old(self)@.snapshot_ok(
                parse_snapshot(bytes@)->Some_0,
            )),
            ok ==> final(self)@ == old(self)@.deserialize_spec(parse_snapshot(bytes@)->Some_0),
            !ok ==> final(self)@ == old(self)@,
    {
        let ghost pre = self@;
        let snap = match get_snapshot(bytes) {
            None => {
                return false;
            },
            Some(s) => s,
        };
        if !self.check_snapshot(&snap) {
            return false;
        }
        let ghost snapv = snap@;
        let RawSnapshot { slots, stores, singles } = snap;
        let free = EntityTable::rebuild_free(&slots);
        let nslots = slots.len();
        self.entities = EntityTable { slots, free };
        proof {
            EntityTableView::lemma_dead_free_from_props(self@.entities.slots, 0);
            assert(self@.entities.wf());
            assert(self@.components == pre.components);
            assert(self@.singletons == pre.singletons);
        }
        proof {
            assert forall|j: int| 0 <= j < pre.components.len() implies (
            #[trigger] self.components@[j])@ == pre.components[j] by {
                assert(pre.components[j] == self.components@[j]@);
            }
        }
        let mut i: usize = 0;
        while i < self.components.len()
            invariant
                0 <= i <= self.components@.len(),
                self.components@.len() == pre.components.len(),
                self.entities@ == (EntityTableView {
                    slots: snapv.slots,
                    free: EntityTableView::dead_free_from(snapv.slots, 0),
                }),
                self.singletons@ == pre.singletons,
                self.commands.items@ == pre.queue,
                forall|j: int|
                    0 <= j < i ==> (#[trigger] self.components@[j])@ == pre.components[j].clear_spec(),
                forall|j: int| i <= j < pre.components.len() ==> (#[trigger] self.components@[j])@
                    == pre.components[j],
                forall|j: int| 0 <= j < pre.components.len() ==> (#[trigger] self.components@[j])@.wf(),
            decreases self.components@.len() - i,
        {
            let st = &mut self.components[i];
            st.clear();
            i = i + 1;
        }
        let ghost cleared = pre.components.map_values(|s: StorageView<V>| s.clear_spec());
        proof {
            assert(self@.components =~= cleared);
        }
        let mut i: usize = 0;
        while i < stores.len()
            invariant
                0 <= i <= stores@.len(),
                self@.wf(),
                nslots as nat == snapv.slots.len(),
                snapv.stores == stores@.map_values(|s: RawStore| s@),
                snapv.singles == singles@.map_values(|s: RawSingle| s@),
                self@.entities == (EntityTableView {
                    slots: snapv.slots,
                    free: EntityTableView::dead_free_from(snapv.slots, 0),
                }),
                self@.singletons == pre.singletons,
                self@.queue == pre.queue,
                pre.wf(),
                cleared == pre.components.map_values(|s: StorageView<V>| s.clear_spec()),
                self@.components == apply_stores_spec(cleared, snapv.stores.take(i as int)),
                forall|a: int, b: int|
                    0 <= a < b < self@.components.len() ==> (#[trigger] self@.components[a]).key
                        != (#[trigger] self@.components[b]).key,
                forall|j: int| 0 <= j < self@.components.len() ==> (#[trigger] self@.components[j]).key
                    == pre.components[j].key,
                self@.components.len() == pre.components.len(),
                pre.snapshot_ok(snapv),
            decreases stores@.len() - i,
        {
            let ghost cur = self@.components;
            let s = &stores[i];
            proof {
                assert(snapv.stores[i as int] == stores@[i as int]@);
            }
            match self.find_component(s.key) {
                None => {
                    proof {
                        assert(!store_key_registered(cur, snapv.stores[i as int].key));
                        assert(snapv.stores.take(i + 1 as int).drop_last() =~= snapv.stores.take(
                            i as int,
                        ));
                        assert(snapv.stores.take(i + 1 as int).last() == snapv.stores[i as int]);
                    }
                },
                Some(j) => {
                    proof {
                        assert(pre.components[j as int].key == s@.key);
                        assert(pre.comp_registered(s@.key)) by {
                            pre.lemma_comp_index_unique(s@.key, j as int);
                        }
                        assert(records_ok::<V>(s@.key, s@.cells, snapv.slots.len()));
                    }
                    let cells = Self::build_cells(s.key, &s.cells, nslots);
                    self.components[j] = Storage { key: s.key, cells };
                    proof {
                        lemma_store_key_index_unique(cur, snapv.stores[i as int].key, j as int);
                        assert(snapv.stores.take(i + 1 as int).drop_last() =~= snapv.stores.take(
                            i as int,
                        ));
                        assert(snapv.stores.take(i + 1 as int).last() == snapv.stores[i as int]);
                        assert(self@.components =~= cur.update(
                            j as int,
                            StorageView {
                                key: snapv.stores[i as int].key,
                                cells: cells_from_records::<V>(
                                    snapv.stores[i as int].key,
                                    snapv.stores[i as int].cells,
                                ),
                            },
                        ));
                        assert(self@.components =~= apply_stores_spec(
                            cleared,
                            snapv.stores.take(i + 1 as int),
                        ));
                    }
                },
            }
            i = i + 1;
        }
        proof {
            assert(snapv.stores.take(stores@.len() as int) =~= snapv.stores);
        }
        let mut i: usize = 0;
        while i < singles.len()
            invariant
                0 <= i <= singles@.len(),
                self@.wf(),
                snapv.singles == singles@.map_values(|s: RawSingle| s@),
                self@.entities == (EntityTableView {
                    slots: snapv.slots,
                    free: EntityTableView::dead_free_from(snapv.slots, 0),
                }),
                self@.components == apply_stores_spec(cleared, snapv.stores),
                cleared == pre.components.map_values(|s: StorageView<V>| s.clear_spec()),
                self@.queue == pre.queue,
                pre.wf(),
                self@.singletons == apply_singles_spec(pre.singletons, snapv.singles.take(i as int)),
                forall|a: int, b: int|
                    0 <= a < b < self@.singletons.len() ==> (#[trigger] self@.singletons[a]).key
                        != (#[trigger] self@.singletons[b]).key,
                forall|j: int| 0 <= j < self@.singletons.len() ==> (#[trigger] self@.singletons[j]).key
                    == pre.singletons[j].key,
                self@.singletons.len() == pre.singletons.len(),
                pre.snapshot_ok(snapv),
            decreases singles@.len() - i,
        {
            let ghost cur = self@.singletons;
            let s = &singles[i];
            proof {
                assert(snapv.singles[i as int] == singles@[i as int]@);
            }
            match self.find_singleton(s.key) {
                None => {
                    proof {
                        assert(!single_key_registered(cur, snapv.singles[i as int].key));
                        assert(snapv.singles.take(i + 1 as int).drop_last() =~= snapv.singles.take(
                            i as int,
                        ));
                        assert(snapv.singles.take(i + 1 as int).last() == snapv.singles[i as int]);
                    }
                },
                Some(j) => {
                    proof {
                        assert(pre.singletons[j as int].key == s@.key);
                        assert(pre.sing_registered(s@.key)) by {
                            pre.lemma_sing_index_unique(s@.key, j as int);
                        }
                        assert(V::dec(s@.key, s@.payload) is Some);
                    }
                    let v = match V::decode(s.key, s.payload.as_slice()) {
                        Some(v) => v,
                        None => {
                            proof {
                                assert(false);
                            }
                            return false;
                        },
                    };
                    self.singletons[j] = SingletonStorage {
                        key: s.key,
                        state: Lock::Free,
                        value: v,
                    };
                    proof {
                        lemma_single_key_index_unique(cur, snapv.singles[i as int].key, j as int);
                        assert(snapv.singles.take(i + 1 as int).drop_last() =~= snapv.singles.take(
                            i as int,
                        ));
                        assert(snapv.singles.take(i + 1 as int).last() == snapv.singles[i as int]);
                        assert(self@.singletons =~= cur.update(
                            j as int,
                            SingletonStorage {
                                key: snapv.singles[i as int].key,
                                state: Lock::Free,
                                value: V::dec(
                                    snapv.singles[i as int].key,
                                    snapv.singles[i as int].payload,
                                )->Some_0,
                            },
                        ));
                        assert(self@.singletons =~= apply_singles_spec(
                            pre.singletons,
                            snapv.singles.take(i + 1 as int),
                        ));
                    }
                },
            }
            i = i + 1;
        }
        proof {
            assert(snapv.singles.take(singles@.len() as int) =~= snapv.singles);
            assert(self@ =~= pre.deserialize_spec(snapv));
        }
        true
    }
}

// ---------------------------------------------------------------------------
// The round trip: parsing an encoding gives back the snapshot it came from,
// and applying that snapshot to a cleared registry restores entity identity
// and every stored value.
// ---------------------------------------------------------------------------

/// The cell records serialization writes for the occupied cells at or after
/// `k`: one record per occupied cell, in index order.
pub open spec fn records_from_cells<V: Component>(
    cells: Seq<Option<StoreCell<V>>>,
    k: int,
) -> Seq<RawCellV>
    decreases cells.len() - k,
{
    if k < 0 || k >= cells.len() {
        Seq::empty()
    } else {
        let rest = records_from_cells(cells, k + 1);
        match cells[k] {
            Some(c) => seq![
                RawCellV { index: k as u64, generation: c.generation, payload: c.value.enc() },
            ] + rest,
            None => rest,
        }
    }
}

/// The snapshot that serializing a registry writes.
pub open spec fn snapshot_of<V: Component>(v: RegistryView<V>) -> SnapshotV {
    SnapshotV {
        slots: v.entities.slots,
        stores: Seq::new(
            v.components.len(),
            |i: int|
                RawStoreV {
                    key: v.components[i].key,
                    cells: records_from_cells(v.components[i].cells, 0),
                },
        ),
        singles: Seq::new(
            v.singletons.len(),
            |i: int| RawSingleV { key: v.singletons[i].key, payload: v.singletons[i].value.enc() },
        ),
    }
}

/// The machine-size side conditions under which an encoding parses back: no
/// section count, cell index or payload length overflows its frame.
pub open spec fn snapshot_bounded<V: Component>(v: RegistryView<V>) -> bool {
    &&& v.entities.slots.len() <= u64::MAX
    &&& v.components.len() <= u64::MAX
    &&& v.singletons.len() <= u64::MAX
    &&& forall|i: int|
        0 <= i < v.components.len() ==> {
            &&& (#[trigger] v.components[i]).cells.len() <= u64::MAX
            &&& forall|c: int|
                0 <= c < v.components[i].cells.len() ==> ((#[trigger] v.components[i].cells[c])
                    matches Some(x) ==> x.value.enc().len() <= u64::MAX)
        }
    &&& forall|i: int|
        0 <= i < v.singletons.len() ==> (#[trigger] v.singletons[i]).value.enc().len()
            <= u64::MAX
}

/// The bytes of an embedded chunk index back into the surrounding string.
proof fn lemma_subrange_index(b: Seq<u8>, i: int, e: Seq<u8>)
    requires
        0 <= i,
        i + e.len() <= b.len(),
        b.subrange(i, i + e.len()) == e,
    ensures
        forall|t: int| 0 <= t < e.len() ==> b[i + t] == #[trigger] e[t],
{
    assert forall|t: int| 0 <= t < e.len() implies b[i + t] == #[trigger] e[t] by {
        assert(b.subrange(i, i + e.len())[t] == b[i + t]);
    }
}

/// A stretch of `b` equal to `e1 + e2` splits into a stretch equal to `e1`
/// followed by one equal to `e2`.
proof fn lemma_chunk(b: Seq<u8>, i: int, e1: Seq<u8>, e2: Seq<u8>)
    requires
        0 <= i,
        i + e1.len() + e2.len() <= b.len(),
        b.subrange(i, i + e1.len() + e2.len()) == e1 + e2,
    ensures
        b.subrange(i, i + e1.len()) == e1,
        b.subrange(i + e1.len(), i + e1.len() + e2.len()) == e2,
{
    let l1 = e1.len() as int;
    let l2 = e2.len() as int;
    lemma_subrange_index(b, i, e1 + e2);
    assert forall|t: int| 0 <= t < l1 implies b.subrange(i, i + l1)[t] == e1[t] by {
        assert(b.subrange(i, i + l1)[t] == b[i + t]);
        assert(b[i + t] == (e1 + e2)[t]);
    }
    assert(b.subrange(i, i + l1) =~= e1);
    assert forall|t: int| 0 <= t < l2 implies b.subrange(i + l1, i + l1 + l2)[t] == e2[t] by {
        assert(b.subrange(i + l1, i + l1 + l2)[t] == b[i + l1 + t]);
        assert(b[i + l1 + t] == (e1 + e2)[l1 + t]);
    }
    assert(b.subrange(i + l1, i + l1 + l2) =~= e2);
}

/// A `u64` encoded at `i` parses back.
proof fn lemma_parse_u64_enc(b: Seq<u8>, i: int, x: u64)
    requires
        0 <= i,
        i + 8 <= b.len(),
        b.subrange(i, i + 8) == enc_u64(x),
    ensures
        parse_u64(b, i) == Some((x, i + 8)),
{
    lemma_auto_spec_u64_to_from_le_bytes();
    assert(enc_u64(x).len() == 8);
    assert(spec_u64_from_le_bytes(spec_u64_to_le_bytes(x)) == x);
}

/// A `u128` encoded at `i` parses back.
proof fn lemma_parse_u128_enc(b: Seq<u8>, i: int, x: u128)
    requires
        0 <= i,
        i + 16 <= b.len(),
        b.subrange(i, i + 16) == enc_u128(x),
    ensures
        parse_u128(b, i) == Some((x, i + 16)),
{
    lemma_auto_spec_u128_to_from_le_bytes();
    assert(enc_u128(x).len() == 16);
    assert(spec_u128_from_le_bytes(spec_u128_to_le_bytes(x)) == x);
}

/// Slots encoded at `i` parse back to exactly those slots.
proof fn lemma_parse_slots_enc(b: Seq<u8>, i: int, slots: Seq<Slot>, k: int)
    requires
        0 <= k <= slots.len(),
        0 <= i,
        i + enc_slots_from(slots, k).len() <= b.len(),
        b.subrange(i, i + enc_slots_from(slots, k).len()) == enc_slots_from(slots, k),
    ensures
        parse_slots(b, i, (slots.len() - k) as nat) == Some(
            (slots.skip(k), i + enc_slots_from(slots, k).len()),
        ),
    decreases slots.len() - k,
{
    lemma_auto_spec_u64_to_from_le_bytes();
    let e = enc_slots_from(slots, k);
    if k == slots.len() {
        assert(slots.skip(k) =~= Seq::<Slot>::empty());
    } else {
        let s = slots[k];
        let byte: u8 = if s.live {
            1u8
        } else {
            0u8
        };
        let e1 = enc_slot(s);
        let e2 = enc_slots_from(slots, k + 1);
        assert(e == e1 + e2);
        assert(e1.len() == 9);
        lemma_chunk(b, i, e1, e2);
        assert(e1 =~= enc_u64(s.generation) + seq![byte]);
        lemma_chunk(b, i, enc_u64(s.generation), seq![byte]);
        lemma_parse_u64_enc(b, i, s.generation);
        assert(b.subrange(i + 8, i + 9)[0] == b[i + 8]);
        assert(b[i + 8] == byte);
        assert(parse_slot(b, i) == Some((s, i + 9)));
        lemma_parse_slots_enc(b, i + 9, slots, k + 1);
        assert(seq![s] + slots.skip(k + 1) =~= slots.skip(k));
    }
}

/// The occupied cells encoded at `i` parse back to the store's records.
proof fn lemma_parse_cells_enc<V: Component>(
    b: Seq<u8>,
    i: int,
    cells: Seq<Option<StoreCell<V>>>,
    k: int,
)
    requires
        0 <= k <= cells.len(),
        cells.len() <= u64::MAX,
        forall|c: int|
            0 <= c < cells.len() ==> ((#[trigger] cells[c]) matches Some(x) ==> x.value.enc().len()
                <= u64::MAX),
        0 <= i,
        i + enc_cells_from(cells, k).len() <= b.len(),
        b.subrange(i, i + enc_cells_from(cells, k).len()) == enc_cells_from(cells, k),
    ensures
        parse_cells(b, i, count_present_from(cells, k)) == Some(
            (records_from_cells(cells, k), i + enc_cells_from(cells, k).len()),
        ),
    decreases cells.len() - k,
{
    lemma_auto_spec_u64_to_from_le_bytes();
    let e = enc_cells_from(cells, k);
    if k == cells.len() {
        assert(records_from_cells(cells, k) =~= Seq::<RawCellV>::empty());
        assert(count_present_from(cells, k) == 0);
    } else {
        match cells[k] {
            None => {
                assert(e == enc_cells_from(cells, k + 1));
                lemma_parse_cells_enc(b, i, cells, k + 1);
            },
            Some(c) => {
                let p = c.value.enc();
                let ea = enc_u64(k as u64);
                let eb = enc_u64(c.generation);
                let ec2 = enc_u64(p.len() as u64);
                let e1 = enc_cell(k, c);
                let e2 = enc_cells_from(cells, k + 1);
                assert(e == e1 + e2);
                assert(e1 == ea + eb + ec2 + p);
                assert(e1.len() == 24 + p.len());
                lemma_chunk(b, i, e1, e2);
                assert(e1 =~= ea + (eb + (ec2 + p)));
                lemma_chunk(b, i, ea, eb + (ec2 + p));
                lemma_parse_u64_enc(b, i, k as u64);
                lemma_chunk(b, i + 8, eb, ec2 + p);
                lemma_parse_u64_enc(b, i + 8, c.generation);
                lemma_chunk(b, i + 16, ec2, p);
                lemma_parse_u64_enc(b, i + 16, p.len() as u64);
                assert((p.len() as u64) as int == p.len());
                assert(parse_payload(b, i + 16) == Some((p, i + 24 + p.len())));
                let rec = RawCellV { index: k as u64, generation: c.generation, payload: p };
                assert(parse_cell(b, i) == Some((rec, i + 24 + p.len())));
                lemma_parse_cells_enc(b, i + e1.len(), cells, k + 1);
                assert(count_present_from(cells, k) == 1 + count_present_from(cells, k + 1));
                assert(seq![rec] + records_from_cells(cells, k + 1) =~= records_from_cells(
                    cells,
                    k,
                ));
            },
        }
    }
}

/// Occupied cells are never more numerous than the cells at or after `k`.
proof fn lemma_count_present_bound<V>(cells: Seq<Option<StoreCell<V>>>, k: int)
    ensures
        count_present_from(cells, k) <= cells.len(),
        0 <= k <= cells.len() ==> count_present_from(cells, k) + k <= cells.len(),
    decreases cells.len() - k,
{
    if 0 <= k && k < cells.len() {
        lemma_count_present_bound(cells, k + 1);
    }
}

/// A store section encoded at `i` parses back to its key and records.
proof fn lemma_parse_store_enc<V: Component>(b: Seq<u8>, i: int, st: StorageView<V>)
    requires
        st.cells.len() <= u64::MAX,
        forall|c: int|
            0 <= c < st.cells.len() ==> ((#[trigger] st.cells[c]) matches Some(x)
                ==> x.value.enc().len() <= u64::MAX),
        0 <= i,
        i + enc_store(st).len() <= b.len(),
        b.subrange(i, i + enc_store(st).len()) == enc_store(st),
    ensures
        parse_store(b, i) == Some(
            (
                RawStoreV { key: st.key, cells: records_from_cells(st.cells, 0) },
                i + enc_store(st).len(),
            ),
        ),
{
    lemma_auto_spec_u64_to_from_le_bytes();
    lemma_auto_spec_u128_to_from_le_bytes();
    let e = enc_store(st);
    let n = count_present_from(st.cells, 0);
    lemma_count_present_bound(st.cells, 0);
    let ec = enc_cells_from(st.cells, 0);
    assert(e == enc_u128(st.key) + enc_u64(n as u64) + ec);
    assert(e =~= enc_u128(st.key) + (enc_u64(n as u64) + ec));
    lemma_chunk(b, i, enc_u128(st.key), enc_u64(n as u64) + ec);
    lemma_parse_u128_enc(b, i, st.key);
    lemma_chunk(b, i + 16, enc_u64(n as u64), ec);
    lemma_parse_u64_enc(b, i + 16, n as u64);
    lemma_parse_cells_enc(b, i + 24, st.cells, 0);
    assert((n as u64) as nat == n);
}

/// Store sections encoded at `i` parse back to their sections.
proof fn lemma_parse_stores_enc<V: Component>(b: Seq<u8>, i: int, stores: Seq<StorageView<V>>, k: int)
    requires
        0 <= k <= stores.len(),
        forall|s: int|
            0 <= s < stores.len() ==> {
                &&& (#[trigger] stores[s]).cells.len() <= u64::MAX
                &&& forall|c: int|
                    0 <= c < stores[s].cells.len() ==> ((#[trigger] stores[s].cells[c]) matches Some(
                        x,
                    ) ==> x.value.enc().len() <= u64::MAX)
            },
        0 <= i,
        i + enc_stores_from(stores, k).len() <= b.len(),
        b.subrange(i, i + enc_stores_from(stores, k).len()) == enc_stores_from(stores, k),
    ensures
        parse_stores(b, i, (stores.len() - k) as nat) == Some(
            (
                Seq::new(
                    (stores.len() - k) as nat,
                    |m: int|
                        RawStoreV {
                            key: stores[k + m].key,
                            cells: records_from_cells(stores[k + m].cells, 0),
                        },
                ),
                i + enc_stores_from(stores, k).len(),
            ),
        ),
    decreases stores.len() - k,
{
    let e = enc_stores_from(stores, k);
    if k == stores.len() {
        assert(Seq::new(
            0,
            |m: int|
                RawStoreV {
                    key: stores[k + m].key,
                    cells: records_from_cells(stores[k + m].cells, 0),
                },
        ) =~= Seq::<RawStoreV>::empty());
    } else {
        let e1 = enc_store(stores[k]);
        let e2 = enc_stores_from(stores, k + 1);
        assert(e == e1 + e2);
        lemma_chunk(b, i, e1, e2);
        lemma_parse_store_enc(b, i, stores[k]);
        lemma_parse_stores_enc(b, i + e1.len(), stores, k + 1);
        let hd = RawStoreV { key: stores[k].key, cells: records_from_cells(stores[k].cells, 0) };
        let tl = Seq::new(
            (stores.len() - k - 1) as nat,
            |m: int|
                RawStoreV {
                    key: stores[k + 1 + m].key,
                    cells: records_from_cells(stores[k + 1 + m].cells, 0),
                },
        );
        assert(seq![hd] + tl =~= Seq::new(
            (stores.len() - k) as nat,
            |m: int|
                RawStoreV {
                    key: stores[k + m].key,
                    cells: records_from_cells(stores[k + m].cells, 0),
                },
        ));
    }
}

/// A singleton section encoded at `i` parses back.
proof fn lemma_parse_single_enc<V: Component>(b: Seq<u8>, i: int, sl: SingletonStorage<V>)
    requires
        sl.value.enc().len() <= u64::MAX,
        0 <= i,
        i + enc_single(sl).len() <= b.len(),
        b.subrange(i, i + enc_single(sl).len()) == enc_single(sl),
    ensures
        parse_single(b, i) == Some(
            (RawSingleV { key: sl.key, payload: sl.value.enc() }, i + enc_single(sl).len()),
        ),
{
    lemma_auto_spec_u64_to_from_le_bytes();
    lemma_auto_spec_u128_to_from_le_bytes();
    let e = enc_single(sl);
    let p = sl.value.enc();
    assert(e == enc_u128(sl.key) + enc_u64(p.len() as u64) + p);
    assert(e =~= enc_u128(sl.key) + (enc_u64(p.len() as u64) + p));
    lemma_chunk(b, i, enc_u128(sl.key), enc_u64(p.len() as u64) + p);
    lemma_parse_u128_enc(b, i, sl.key);
    lemma_chunk(b, i + 16, enc_u64(p.len() as u64), p);
    lemma_parse_u64_enc(b, i + 16, p.len() as u64);
    assert((p.len() as u64) as int == p.len());
    assert(parse_payload(b, i + 16) == Some((p, i + 24 + p.len())));
}

/// Singleton sections encoded at `i` parse back to their sections.
proof fn lemma_parse_singles_enc<V: Component>(
    b: Seq<u8>,
    i: int,
    singles: Seq<SingletonStorage<V>>,
    k: int,
)
    requires
        0 <= k <= singles.len(),
        forall|s: int|
            0 <= s < singles.len() ==> (#[trigger] singles[s]).value.enc().len() <= u64::MAX,
        0 <= i,
        i + enc_singles_from(singles, k).len() <= b.len(),
        b.subrange(i, i + enc_singles_from(singles, k).len()) == enc_singles_from(singles, k),
    ensures
        parse_singles(b, i, (singles.len() - k) as nat) == Some(
            (
                Seq::new(
                    (singles.len() - k) as nat,
                    |m: int|
                        RawSingleV {
                            key: singles[k + m].key,
                            payload: singles[k + m].value.enc(),
                        },
                ),
                i + enc_singles_from(singles, k).len(),
            ),
        ),
    decreases singles.len() - k,
{
    let e = enc_singles_from(singles, k);
    if k == singles.len() {
        assert(Seq::new(
            0,
            |m: int| RawSingleV { key: singles[k + m].key, payload: singles[k + m].value.enc() },
        ) =~= Seq::<RawSingleV>::empty());
    } else {
        let e1 = enc_single(singles[k]);
        let e2 = enc_singles_from(singles, k + 1);
        assert(e == e1 + e2);
        lemma_chunk(b, i, e1, e2);
        lemma_parse_single_enc(b, i, singles[k]);
        lemma_parse_singles_enc(b, i + e1.len(), singles, k + 1);
        let hd = RawSingleV { key: singles[k].key, payload: singles[k].value.enc() };
        let tl = Seq::new(
            (singles.len() - k - 1) as nat,
            |m: int|
                RawSingleV { key: singles[k + 1 + m].key, payload: singles[k + 1 + m].value.enc() },
        );
        assert(seq![hd] + tl =~= Seq::new(
            (singles.len() - k) as nat,
            |m: int|
                RawSingleV { key: singles[k + m].key, payload: singles[k + m].value.enc() },
        ));
    }
}

/// Parsing what `serialize` wrote gives back exactly the snapshot of the
/// registry it was written from.
pub proof fn lemma_parse_of_enc<V: Component>(v: RegistryView<V>)
    requires
        snapshot_bounded(v),
    ensures
        parse_snapshot(enc_registry(v)) == Some(snapshot_of(v)),
{
    lemma_auto_spec_u64_to_from_le_bytes();
    let b = enc_registry(v);
    let a1 = enc_u64(v.entities.slots.len() as u64);
    let a2 = enc_slots_from(v.entities.slots, 0);
    let a3 = enc_u64(v.components.len() as u64);
    let a4 = enc_stores_from(v.components, 0);
    let a5 = enc_u64(v.singletons.len() as u64);
    let a6 = enc_singles_from(v.singletons, 0);
    assert(b == a1 + a2 + a3 + a4 + a5 + a6);
    let i1 = a1.len() as int;
    let i2 = i1 + a2.len();
    let i3 = i2 + a3.len();
    let i4 = i3 + a4.len();
    let i5 = i4 + a5.len();
    let i6 = i5 + a6.len();
    assert(b.len() == i6);
    assert(b.subrange(0, i6) =~= b);
    assert(b =~= a1 + (a2 + (a3 + (a4 + (a5 + a6)))));
    lemma_chunk(b, 0, a1, a2 + (a3 + (a4 + (a5 + a6))));
    lemma_parse_u64_enc(b, 0, v.entities.slots.len() as u64);
    lemma_chunk(b, i1, a2, a3 + (a4 + (a5 + a6)));
    lemma_parse_slots_enc(b, i1, v.entities.slots, 0);
    assert(v.entities.slots.skip(0) =~= v.entities.slots);
    lemma_chunk(b, i2, a3, a4 + (a5 + a6));
    lemma_parse_u64_enc(b, i2, v.components.len() as u64);
    lemma_chunk(b, i3, a4, a5 + a6);
    lemma_parse_stores_enc(b, i3, v.components, 0);
    lemma_chunk(b, i4, a5, a6);
    lemma_parse_u64_enc(b, i4, v.singletons.len() as u64);
    lemma_parse_singles_enc(b, i5, v.singletons, 0);
    let snap = snapshot_of(v);
    assert(Seq::new(
        v.components.len(),
        |m: int|
            RawStoreV {
                key: v.components[0 + m].key,
                cells: records_from_cells(v.components[0 + m].cells, 0),
            },
    ) =~= snap.stores);
    assert(Seq::new(
        v.singletons.len(),
        |m: int|
            RawSingleV { key: v.singletons[0 + m].key, payload: v.singletons[0 + m].value.enc() },
    ) =~= snap.singles);
    assert(parse_snapshot(b) == Some(snap));
}

/// The records of a store's cells: each names an occupied in-range cell,
/// carries its generation and encoded value, and the indices ascend strictly;
/// every occupied cell is named by some record.
proof fn lemma_records_from_cells_props<V: Component>(cells: Seq<Option<StoreCell<V>>>, k: int)
    requires
        0 <= k,
        cells.len() <= u64::MAX,
    ensures
        ({
            let rs = records_from_cells(cells, k);
            &&& forall|m: int|
                0 <= m < rs.len() ==> {
                    &&& k <= (#[trigger] rs[m]).index < cells.len()
                    &&& cells[rs[m].index as int] is Some
                    &&& rs[m].generation == cells[rs[m].index as int]->Some_0.generation
                    &&& rs[m].payload == cells[rs[m].index as int]->Some_0.value.enc()
                }
            &&& forall|m1: int, m2: int| 0 <= m1 < m2 < rs.len() ==> rs[m1].index < rs[m2].index
            &&& forall|j: int|
                k <= j < cells.len() && (#[trigger] cells[j]) is Some ==> exists|m: int|
                    0 <= m < rs.len() && (#[trigger] rs[m]).index == j
        }),
    decreases cells.len() - k,
{
    if k < 0 || k >= cells.len() {
    } else {
        lemma_records_from_cells_props(cells, k + 1);
        let rs = records_from_cells(cells, k);
        let rest = records_from_cells(cells, k + 1);
        match cells[k] {
            Some(c) => {
                let hd = RawCellV { index: k as u64, generation: c.generation, payload: c.value.enc() };
                assert(rs == seq![hd] + rest);
                assert(rs[0] == hd);
                assert(forall|m: int| 1 <= m < rs.len() ==> rs[m] == rest[m - 1]);
                assert forall|m: int| 0 <= m < rs.len() implies {
                    &&& k <= (#[trigger] rs[m]).index < cells.len()
                    &&& cells[rs[m].index as int] is Some
                    &&& rs[m].generation == cells[rs[m].index as int]->Some_0.generation
                    &&& rs[m].payload == cells[rs[m].index as int]->Some_0.value.enc()
                } by {
                    if m >= 1 {
                        assert(rs[m] == rest[m - 1]);
                        assert(k + 1 <= rest[m - 1].index);
                    } else {
                        assert(rs[0] == hd);
                    }
                }
                assert forall|m1: int, m2: int| 0 <= m1 < m2 < rs.len() implies rs[m1].index
                    < rs[m2].index by {
                    assert(rs[m2] == rest[m2 - 1]);
                    assert(k + 1 <= rest[m2 - 1].index);
                    if m1 >= 1 {
                        assert(rs[m1] == rest[m1 - 1]);
                    } else {
                        assert(rs[0].index == k as u64);
                    }
                }
                assert forall|j: int|
                    k <= j < cells.len() && (#[trigger] cells[j]) is Some implies exists|m: int|
                    0 <= m < rs.len() && (#[trigger] rs[m]).index == j by {
                    if j == k {
                        assert(rs[0].index == k as u64);
                        assert(0 <= 0 < rs.len() && rs[0].index == j);
                    } else {
                        assert(k + 1 <= j < cells.len() && cells[j] is Some);
                        assert(exists|m: int| 0 <= m < rest.len() && (#[trigger] rest[m]).index == j);
                        let m0 = choose|m: int|
                            0 <= m < rest.len() && (#[trigger] rest[m]).index == j;
                        assert(rs[m0 + 1] == rest[m0]);
                        assert(0 <= m0 + 1 < rs.len() && rs[m0 + 1].index == j);
                    }
                }
            },
            None => {
                assert(rs == rest);
                assert forall|j: int|
                    k <= j < cells.len() && (#[trigger] cells[j]) is Some implies exists|m: int|
                    0 <= m < rs.len() && (#[trigger] rs[m]).index == j by {
                    if j > k {
                        assert(k + 1 <= j < cells.len() && cells[j] is Some);
                        assert(exists|m: int| 0 <= m < rest.len() && (#[trigger] rest[m]).index == j);
                        let m0 = choose|m: int|
                            0 <= m < rest.len() && (#[trigger] rest[m]).index == j;
                        assert(0 <= m0 < rs.len() && rs[m0].index == j);
                    }
                }
            },
        }
    }
}

/// Replaying records with strictly ascending indices fills exactly the named
/// cells, each with its record's decoded value, unlocked, and nothing else.
proof fn lemma_cells_from_records_props<V: Component>(key: u128, recs: Seq<RawCellV>)
    requires
        forall|m1: int, m2: int| 0 <= m1 < m2 < recs.len() ==> recs[m1].index < recs[m2].index,
    ensures
        ({
            let rc = cells_from_records::<V>(key, recs);
            &&& rc.len() == if recs.len() == 0 {
                0int
            } else {
                recs.last().index + 1
            }
            &&& forall|m: int|
                0 <= m < recs.len() ==> rc[(#[trigger] recs[m]).index as int] == Some(
                    StoreCell {
                        generation: recs[m].generation,
                        state: Lock::Free,
                        value: V::dec(key, recs[m].payload)->Some_0,
                    },
                )
            &&& forall|j: int|
                0 <= j < rc.len() && !(exists|m: int|
                    0 <= m < recs.len() && (#[trigger] recs[m]).index == j) ==> rc[j] is None
        }),
    decreases recs.len(),
{
    if recs.len() == 0 {
    } else {
        let prev_recs = recs.drop_last();
        lemma_cells_from_records_props::<V>(key, prev_recs);
        let prev = cells_from_records::<V>(key, prev_recs);
        let r = recs.last();
        let rc = cells_from_records::<V>(key, recs);
        assert(forall|m: int| 0 <= m < prev_recs.len() ==> prev_recs[m] == #[trigger] recs[m]);
        assert(prev.len() <= r.index) by {
            if prev_recs.len() > 0 {
                assert(prev_recs.last().index == recs[recs.len() - 2].index);
                assert(recs[recs.len() - 2].index < r.index);
            }
        }
        let padded = StorageView::<V>::padded(prev, r.index + 1);
        assert(rc == padded.update(
            r.index as int,
            Some(
                StoreCell {
                    generation: r.generation,
                    state: Lock::Free,
                    value: V::dec(key, r.payload)->Some_0,
                },
            ),
        ));
        assert(rc.len() == r.index + 1);
        assert forall|m: int| 0 <= m < recs.len() implies rc[(#[trigger] recs[m]).index as int]
            == Some(
            StoreCell {
                generation: recs[m].generation,
                state: Lock::Free,
                value: V::dec(key, recs[m].payload)->Some_0,
            },
        ) by {
            if m < recs.len() - 1 {
                assert(recs[m] == prev_recs[m]);
                assert(recs[m].index < r.index);
                assert(recs[m].index < prev.len() || prev[recs[m].index as int] is None);
                assert(prev[recs[m].index as int] == rc[recs[m].index as int]);
            }
        }
        assert forall|j: int|
            0 <= j < rc.len() && !(exists|m: int|
                0 <= m < recs.len() && (#[trigger] recs[m]).index == j) implies rc[j] is None by {
            if j != r.index {
                if j < prev.len() {
                    assert(!(exists|m: int|
                        0 <= m < prev_recs.len() && (#[trigger] prev_recs[m]).index == j)) by {
                        if exists|m: int|
                            0 <= m < prev_recs.len() && (#[trigger] prev_recs[m]).index == j {
                            let m0 = choose|m: int|
                                0 <= m < prev_recs.len() && (#[trigger] prev_recs[m]).index == j;
                            assert(recs[m0].index == j);
                        }
                    }
                    assert(prev[j] is None);
                    assert(rc[j] == prev[j]);
                } else {
                    assert(rc[j] is None);
                }
            } else {
                assert(recs[recs.len() - 1].index == j);
            }
        }
    }
}

/// Rebuilding a store from its own records gives back the same occupied
/// cells with the same values, all unlocked, under a codec that round-trips.
proof fn lemma_rebuild_store<V: Component>(key: u128, cells: Seq<Option<StoreCell<V>>>)
    requires
        cells.len() <= u64::MAX,
        forall|j: int|
            0 <= j < cells.len() ==> ((#[trigger] cells[j]) matches Some(c) ==> c.value.key()
                == key),
        forall|x: V| #[trigger] V::dec(x.key(), x.enc()) == Some(x),
    ensures
        ({
            let rc = cells_from_records::<V>(key, records_from_cells(cells, 0));
            &&& rc.len() <= cells.len()
            &&& forall|j: int|
                0 <= j < cells.len() ==> ((#[trigger] cells[j]) matches Some(c) ==> {
                    &&& j < rc.len()
                    &&& rc[j] == Some(
                        StoreCell { generation: c.generation, state: Lock::Free, value: c.value },
                    )
                })
            &&& forall|j: int|
                0 <= j < rc.len() && (#[trigger] rc[j]) is Some ==> (0 <= j < cells.len()
                    && cells[j] is Some)
        }),
{
    let rs = records_from_cells(cells, 0);
    lemma_records_from_cells_props(cells, 0);
    lemma_cells_from_records_props::<V>(key, rs);
    let rc = cells_from_records::<V>(key, rs);
    assert(rc.len() <= cells.len()) by {
        if rs.len() > 0 {
            assert(rs.last().index < cells.len());
        }
    }
    assert forall|j: int| 0 <= j < cells.len() implies ((#[trigger] cells[j]) matches Some(c)
        ==> {
        &&& j < rc.len()
        &&& rc[j] == Some(StoreCell { generation: c.generation, state: Lock::Free, value: c.value })
    }) by {
        match cells[j] {
            Some(c) => {
                let m0 = choose|m: int| 0 <= m < rs.len() && (#[trigger] rs[m]).index == j;
                assert(rs[m0].generation == c.generation);
                assert(rs[m0].payload == c.value.enc());
                assert(V::dec(key, rs[m0].payload) == Some(c.value)) by {
                    assert(c.value.key() == key);
                    assert(V::dec(c.value.key(), c.value.enc()) == Some(c.value));
                }
                assert(rc[j] == Some(
                    StoreCell { generation: c.generation, state: Lock::Free, value: c.value },
                ));
                assert(j < rc.len()) by {
                    assert(rc[rs[m0].index as int] is Some);
                    if j >= rc.len() {
                        assert(rc[j] == Some(
                            StoreCell {
                                generation: c.generation,
                                state: Lock::Free,
                                value: c.value,
                            },
                        ));
                    }
                }
            },
            None => {},
        }
    }
    assert forall|j: int| 0 <= j < rc.len() && (#[trigger] rc[j]) is Some implies (0 <= j
        < cells.len() && cells[j] is Some) by {
        if !(exists|m: int| 0 <= m < rs.len() && (#[trigger] rs[m]).index == j) {
            assert(rc[j] is None);
        } else {
            let m0 = choose|m: int| 0 <= m < rs.len() && (#[trigger] rs[m]).index == j;
            assert(cells[rs[m0].index as int] is Some);
        }
    }
}

/// Applying, in order, the first `k` store sections of a registry's own
/// snapshot to its cleared stores rebuilds the first `k` stores and leaves
/// the rest cleared.
proof fn lemma_apply_stores_all<V: Component>(
    cleared: Seq<StorageView<V>>,
    snaps: Seq<RawStoreV>,
    orig: Seq<StorageView<V>>,
    k: int,
)
    requires
        cleared.len() == orig.len(),
        snaps.len() == orig.len(),
        0 <= k <= orig.len(),
        forall|j: int| 0 <= j < orig.len() ==> (#[trigger] cleared[j]).key == orig[j].key,
        forall|a: int, b: int|
            0 <= a < b < orig.len() ==> (#[trigger] orig[a]).key != (#[trigger] orig[b]).key,
        forall|j: int|
            0 <= j < orig.len() ==> #[trigger] snaps[j] == (RawStoreV {
                key: orig[j].key,
                cells: records_from_cells(orig[j].cells, 0),
            }),
    ensures
        ({
            let ap = apply_stores_spec(cleared, snaps.take(k));
            &&& ap.len() == orig.len()
            &&& forall|j: int|
                0 <= j < k ==> #[trigger] ap[j] == (StorageView {
                    key: orig[j].key,
                    cells: cells_from_records::<V>(
                        orig[j].key,
                        records_from_cells(orig[j].cells, 0),
                    ),
                })
            &&& forall|j: int| k <= j < orig.len() ==> #[trigger] ap[j] == cleared[j]
        }),
    decreases k,
{
    if k == 0 {
        assert(snaps.take(0) =~= Seq::<RawStoreV>::empty());
    } else {
        lemma_apply_stores_all(cleared, snaps, orig, k - 1);
        let prev = apply_stores_spec(cleared, snaps.take(k - 1));
        assert(snaps.take(k).drop_last() =~= snaps.take(k - 1));
        assert(snaps.take(k).last() == snaps[k - 1]);
        let s = snaps[k - 1];
        assert(forall|j: int| 0 <= j < orig.len() ==> (#[trigger] prev[j]).key == orig[j].key);
        assert forall|a: int, b: int|
            0 <= a < b < prev.len() implies (#[trigger] prev[a]).key != (#[trigger] prev[b]).key by {
            assert(orig[a].key != orig[b].key);
        }
        assert(prev[k - 1].key == s.key);
        lemma_store_key_index_unique(prev, s.key, k - 1);
        assert(apply_stores_spec(cleared, snaps.take(k)) == prev.update(
            k - 1,
            StorageView { key: s.key, cells: cells_from_records::<V>(s.key, s.cells) },
        ));
    }
}

/// The singleton analogue of [`lemma_apply_stores_all`].
proof fn lemma_apply_singles_all<V: Component>(
    cleared: Seq<SingletonStorage<V>>,
    snaps: Seq<RawSingleV>,
    orig: Seq<SingletonStorage<V>>,
    k: int,
)
    requires
        cleared.len() == orig.len(),
        snaps.len() == orig.len(),
        0 <= k <= orig.len(),
        forall|j: int| 0 <= j < orig.len() ==> (#[trigger] cleared[j]).key == orig[j].key,
        forall|a: int, b: int|
            0 <= a < b < orig.len() ==> (#[trigger] orig[a]).key != (#[trigger] orig[b]).key,
        forall|j: int|
            0 <= j < orig.len() ==> #[trigger] snaps[j] == (RawSingleV {
                key: orig[j].key,
                payload: orig[j].value.enc(),
            }),
    ensures
        ({
            let ap = apply_singles_spec(cleared, snaps.take(k));
            &&& ap.len() == orig.len()
            &&& forall|j: int|
                0 <= j < k ==> #[trigger] ap[j] == (SingletonStorage {
                    key: orig[j].key,
                    state: Lock::Free,
                    value: V::dec(orig[j].key, orig[j].value.enc())->Some_0,
                })
            &&& forall|j: int| k <= j < orig.len() ==> #[trigger] ap[j] == cleared[j]
        }),
    decreases k,
{
    if k == 0 {
        assert(snaps.take(0) =~= Seq::<RawSingleV>::empty());
    } else {
        lemma_apply_singles_all(cleared, snaps, orig, k - 1);
        let prev = apply_singles_spec(cleared, snaps.take(k - 1));
        assert(snaps.take(k).drop_last() =~= snaps.take(k - 1));
        assert(snaps.take(k).last() == snaps[k - 1]);
        let s = snaps[k - 1];
        assert(forall|j: int| 0 <= j < orig.len() ==> (#[trigger] prev[j]).key == orig[j].key);
        assert forall|a: int, b: int|
            0 <= a < b < prev.len() implies (#[trigger] prev[a]).key != (#[trigger] prev[b]).key by {
            assert(orig[a].key != orig[b].key);
        }
        assert(prev[k - 1].key == s.key);
        lemma_single_key_index_unique(prev, s.key, k - 1);
        assert(apply_singles_spec(cleared, snaps.take(k)) == prev.update(
            k - 1,
            SingletonStorage {
                key: s.key,
                state: Lock::Free,
                value: V::dec(s.key, s.payload)->Some_0,
            },
        ));
    }
}

/// The round trip: serialize, clear, deserialize. The bytes written for a
/// well-formed registry parse back as its own snapshot; that snapshot
/// applies cleanly to the cleared registry; and the restored registry has
/// the same slot table — so the same entity count and the same live handles —
/// the same component value wherever one was attached, and the same singleton
/// values, everything unlocked. It holds whenever the application's codec
/// round-trips its own values, which the snapshot format presumes of it.
pub proof fn lemma_snapshot_round_trip<V: Singleton>(v: RegistryView<V>)
    requires
        v.wf(),
        snapshot_bounded(v),
        forall|x: V| #[trigger] V::dec(x.key(), x.enc()) == Some(x),
    ensures
        parse_snapshot(enc_registry(v)) == Some(snapshot_of(v)),
        v.clear_spec().snapshot_ok(snapshot_of(v)),
        ({
            let r = v.clear_spec().deserialize_spec(snapshot_of(v));
            &&& r.entities.slots == v.entities.slots
            &&& r.entities.live_count() == v.entities.live_count()
            &&& forall|id: EntityId| r.entities.spec_live(id) == v.entities.spec_live(id)
            &&& forall|key: u128| r.comp_registered(key) == v.comp_registered(key)
            &&& forall|key: u128, id: EntityId|
                v.comp_registered(key) ==> #[trigger] r.comp_present(key, id)
                    == v.comp_present(key, id)
            &&& forall|key: u128, id: EntityId|
                v.comp_present(key, id) ==> #[trigger] r.comp_value(key, id) == v.comp_value(
                    key,
                    id,
                ) && r.comp_state(key, id) is Free
            &&& forall|key: u128|
                v.sing_registered(key) ==> r.sing_registered(key) && (#[trigger] r.sing_slot(
                    key,
                )).value == v.sing_slot(key).value && r.sing_slot(key).state is Free
        }),
{
    lemma_parse_of_enc(v);
    let snap = snapshot_of(v);
    let c = v.clear_spec();
    let r = c.deserialize_spec(snap);

    // The cleared registry keeps the keys, so registration is unchanged.
    assert(c.components.len() == v.components.len());
    assert(forall|j: int|
        0 <= j < v.components.len() ==> (#[trigger] c.components[j]).key == v.components[j].key);
    assert(c.singletons.len() == v.singletons.len());
    assert(forall|j: int|
        0 <= j < v.singletons.len() ==> (#[trigger] c.singletons[j]).key == v.singletons[j].key);

    // The snapshot is acceptable to the cleared registry.
    assert forall|i: int|
        0 <= i < snap.stores.len() && c.comp_registered(
            (#[trigger] snap.stores[i]).key,
        ) implies records_ok::<V>(snap.stores[i].key, snap.stores[i].cells, snap.slots.len()) by {
        let st = v.components[i];
        lemma_records_from_cells_props(st.cells, 0);
        assert(st.cells.len() <= v.entities.slots.len());
        assert forall|m: int| 0 <= m < snap.stores[i].cells.len() implies {
            &&& (#[trigger] snap.stores[i].cells[m]).index < snap.slots.len()
            &&& V::dec(snap.stores[i].key, snap.stores[i].cells[m].payload) is Some
        } by {
            let rec = records_from_cells(st.cells, 0)[m];
            assert(rec.index < st.cells.len());
            let cell = st.cells[rec.index as int]->Some_0;
            assert(rec.payload == cell.value.enc());
            assert(cell.value.key() == st.key);
            assert(V::dec(cell.value.key(), cell.value.enc()) == Some(cell.value));
        }
    }
    assert forall|i: int|
        0 <= i < snap.singles.len() && c.sing_registered(
            (#[trigger] snap.singles[i]).key,
        ) implies V::dec(snap.singles[i].key, snap.singles[i].payload) is Some by {
        let sl = v.singletons[i];
        assert(sl.value.key() == sl.key);
        assert(V::dec(sl.value.key(), sl.value.enc()) == Some(sl.value));
    }
    assert(c.snapshot_ok(snap));

    // The restored slot table is the one serialized.
    assert(r.entities.slots == v.entities.slots);
    assert(r.entities.live_count() == v.entities.live_count());

    // Stores: the deserialize pre-clear is a no-op on the already cleared
    // stores, and applying every section rebuilds every store.
    let base = c.components.map_values(|s: StorageView<V>| s.clear_spec());
    assert(base.len() == v.components.len());
    assert(forall|j: int|
        0 <= j < v.components.len() ==> (#[trigger] base[j]).key == v.components[j].key);
    assert(snap.stores.take(snap.stores.len() as int) =~= snap.stores);
    lemma_apply_stores_all(base, snap.stores, v.components, v.components.len() as int);
    assert(r.components == apply_stores_spec(base, snap.stores));
    assert(r.components.len() == v.components.len());
    assert forall|j: int| 0 <= j < v.components.len() implies (#[trigger] r.components[j]).key
        == v.components[j].key by {
        assert(r.components[j] == (StorageView {
            key: v.components[j].key,
            cells: cells_from_records::<V>(
                v.components[j].key,
                records_from_cells(v.components[j].cells, 0),
            ),
        }));
    }

    // Registration agrees in both directions.
    assert forall|key: u128| r.comp_registered(key) == v.comp_registered(key) by {
        if v.comp_registered(key) {
            let j = v.comp_index(key);
            assert(r.components[j].key == key);
            assert(r.comp_registered(key));
        }
        if r.comp_registered(key) {
            let j = r.comp_index(key);
            assert(v.components[j].key == key);
            assert(v.comp_registered(key));
        }
    }

    // Presence, values and lock states per store.
    assert forall|key: u128, id: EntityId| v.comp_registered(key) implies {
        &&& #[trigger] r.comp_present(key, id) == v.comp_present(key, id)
        &&& (v.comp_present(key, id) ==> r.comp_value(key, id) == v.comp_value(key, id)
            && r.comp_state(key, id) is Free)
    } by {
        let j = v.comp_index(key);
        v.lemma_comp_index_unique(key, j);
        assert(r.components[j].key == key);
        assert forall|a: int, b: int|
            0 <= a < b < r.components.len() implies (#[trigger] r.components[a]).key != (
        #[trigger] r.components[b]).key by {
            assert(v.components[a].key != v.components[b].key);
        }
        lemma_store_key_index_unique(r.components, key, j);
        assert(r.comp_index(key) == j) by {
            let cidx = r.comp_index(key);
            assert(r.components[cidx].key == key);
            if cidx != j {
                assert(r.components[cidx].key != r.components[j].key);
            }
        }
        let st = v.components[j];
        lemma_rebuild_store::<V>(key, st.cells);
        let rst = r.components[j];
        assert(rst.cells == cells_from_records::<V>(key, records_from_cells(st.cells, 0)));
        if v.comp_present(key, id) {
            let cell = st.cells[id.index as int]->Some_0;
            assert(rst.cells[id.index as int] == Some(
                StoreCell { generation: cell.generation, state: Lock::Free, value: cell.value },
            ));
            assert(r.comp_present(key, id));
            assert(r.comp_value(key, id) == v.comp_value(key, id));
            assert(r.comp_state(key, id) is Free);
        } else {
            if r.comp_present(key, id) {
                assert(rst.cells[id.index as int] is Some);
                assert(st.cells[id.index as int] is Some);
                let cell = st.cells[id.index as int]->Some_0;
                assert(rst.cells[id.index as int] == Some(
                    StoreCell { generation: cell.generation, state: Lock::Free, value: cell.value },
                ));
                assert(cell.generation == id.generation);
                assert(v.comp_present(key, id));
            }
        }
    }

    // Singletons: every slot gets its serialized value back, unlocked.
    assert(snap.singles.take(snap.singles.len() as int) =~= snap.singles);
    lemma_apply_singles_all(c.singletons, snap.singles, v.singletons, v.singletons.len() as int);
    assert(r.singletons == apply_singles_spec(c.singletons, snap.singles));
    assert forall|key: u128| v.sing_registered(key) implies {
        &&& r.sing_registered(key)
        &&& (#[trigger] r.sing_slot(key)).value == v.sing_slot(key).value
        &&& r.sing_slot(key).state is Free
    } by {
        let j = v.sing_index(key);
        v.lemma_sing_index_unique(key, j);
        let sl = v.singletons[j];
        assert(V::dec(sl.value.key(), sl.value.enc()) == Some(sl.value));
        assert(sl.value.key() == key);
        assert(r.singletons[j] == (SingletonStorage {
            key: key,
            state: Lock::Free,
            value: sl.value,
        }));
        assert(r.sing_registered(key));
        assert(r.singletons.len() == v.singletons.len());
        assert forall|a: int, b: int|
            0 <= a < b < r.singletons.len() implies (#[trigger] r.singletons[a]).key != (
        #[trigger] r.singletons[b]).key by {
            assert(r.singletons[a].key == v.singletons[a].key);
            assert(r.singletons[b].key == v.singletons[b].key);
            assert(v.singletons[a].key != v.singletons[b].key);
        }
        assert(r.sing_index(key) == j) by {
            let cidx = r.sing_index(key);
            assert(r.singletons[cidx].key == key);
            if cidx < j {
                assert(r.singletons[cidx].key != r.singletons[j].key);
            } else if cidx > j {
                assert(r.singletons[j].key != r.singletons[cidx].key);
            }
        }
        assert(r.sing_slot(key) == r.singletons[j]);
    }

    assert forall|key: u128, id: EntityId| v.comp_registered(key) implies #[trigger] r.comp_present(
        key,
        id,
    ) == v.comp_present(key, id) by {
        assert(r.comp_present(key, id) == v.comp_present(key, id));
    }
    assert forall|key: u128, id: EntityId| v.comp_present(key, id) implies #[trigger] r.comp_value(
        key,
        id,
    ) == v.comp_value(key, id) && r.comp_state(key, id) is Free by {
        assert(v.comp_registered(key));
        assert(r.comp_present(key, id) == v.comp_present(key, id));
    }
}

} // verus!
