use crate::assets::HidAsset;
use crate::buffers::{padded, HidBuffer};
use crate::device::DeviceId;
use crate::events::NativeEvent;
use crate::systems::decodes;
use vstd::prelude::*;

verus! {

/// What the registry keeps of one connected device.
#[derive(Debug)]
pub struct ConnectionRecord {
    path: String,
    id: DeviceId,
    handle: u64,
    last_report: HidBuffer,
    seen: bool,
}

/// The state of one connection: the device model, the handle that its events
/// carry, the last report read from it, and whether the device was seen since
/// the last sweep.
pub struct Connection {
    pub id: DeviceId,
    pub handle: u64,
    pub last_report: Seq<u8>,
    pub seen: bool,
}

impl ConnectionRecord {
    /// The path that the transport knows the device by.
    pub closed spec fn spec_path(&self) -> Seq<char> {
        self.path@
    }

    /// The state of the connection.
    pub closed spec fn state(&self) -> Connection {
        Connection {
            id: self.id,
            handle: self.handle,
            last_report: self.last_report.0@,
            seen: self.seen,
        }
    }
}

/// One of the records is for `path`.
spec fn has_path(records: Seq<ConnectionRecord>, path: Seq<char>) -> bool {
    exists|i: int| 0 <= i < records.len() && (#[trigger] records[i]).spec_path() == path
}

/// The place of the record for `path`.
spec fn slot_of(records: Seq<ConnectionRecord>, path: Seq<char>) -> int {
    choose|i: int| 0 <= i < records.len() && (#[trigger] records[i]).spec_path() == path
}

/// One of the assets is for the device model `id`.
spec fn has_id(assets: Seq<(DeviceId, HidAsset)>, id: DeviceId) -> bool {
    exists|i: int| 0 <= i < assets.len() && (#[trigger] assets[i]).0 == id
}

/// The place of the asset for the device model `id`.
spec fn asset_slot(assets: Seq<(DeviceId, HidAsset)>, id: DeviceId) -> int {
    choose|i: int| 0 <= i < assets.len() && (#[trigger] assets[i]).0 == id
}

/// The asset of each device model that the list has one for.
spec fn asset_map(assets: Seq<(DeviceId, HidAsset)>) -> Map<DeviceId, HidAsset> {
    Map::new(|id: DeviceId| has_id(assets, id), |id: DeviceId| assets[asset_slot(assets, id)].1)
}

/// The state of each connection that the list has a record for, by its path.
spec fn connection_map(records: Seq<ConnectionRecord>) -> Map<Seq<char>, Connection> {
    Map::new(
        |path: Seq<char>| has_path(records, path),
        |path: Seq<char>| records[slot_of(records, path)].state(),
    )
}

/// No path has two records, no handle is used twice, and every handle was
/// minted before `next_handle`.
spec fn records_wf(records: Seq<ConnectionRecord>, next_handle: u64) -> bool {
    &&& forall|i: int, j: int|
        0 <= i < j < records.len() ==> (#[trigger] records[i]).spec_path() != (
        #[trigger] records[j]).spec_path()
    &&& forall|i: int, j: int|
        0 <= i < j < records.len() ==> (#[trigger] records[i]).state().handle != (
        #[trigger] records[j]).state().handle
    &&& forall|i: int| 0 <= i < records.len() ==> (#[trigger] records[i]).state().handle < next_handle
}

/// No device model has two assets, and every asset is ready for decoding.
spec fn assets_wf(assets: Seq<(DeviceId, HidAsset)>) -> bool {
    &&& forall|i: int, j: int|
        0 <= i < j < assets.len() ==> (#[trigger] assets[i]).0 != (#[trigger] assets[j]).0
    &&& forall|i: int| 0 <= i < assets.len() ==> (#[trigger] assets[i]).1.wf()
}

/// Where no path has two records, a record is found at its own place.
proof fn lemma_slot_of(records: Seq<ConnectionRecord>, i: int)
    requires
        forall|a: int, b: int|
            0 <= a < b < records.len() ==> (#[trigger] records[a]).spec_path() != (
            #[trigger] records[b]).spec_path(),
        0 <= i < records.len(),
    ensures
        has_path(records, records[i].spec_path()),
        slot_of(records, records[i].spec_path()) == i,
        connection_map(records).contains_key(records[i].spec_path()),
        connection_map(records)[records[i].spec_path()] == records[i].state(),
{
    let j = slot_of(records, records[i].spec_path());
    if j < i {
        assert(records[j].spec_path() != records[i].spec_path());
    }
    if i < j {
        assert(records[i].spec_path() != records[j].spec_path());
    }
}

/// Where no device model has two assets, an asset is found at its own place.
proof fn lemma_asset_slot(assets: Seq<(DeviceId, HidAsset)>, i: int)
    requires
        forall|a: int, b: int|
            0 <= a < b < assets.len() ==> (#[trigger] assets[a]).0 != (#[trigger] assets[b]).0,
        0 <= i < assets.len(),
    ensures
        has_id(assets, assets[i].0),
        asset_slot(assets, assets[i].0) == i,
        asset_map(assets).contains_key(assets[i].0),
        asset_map(assets)[assets[i].0] == assets[i].1,
{
    let j = asset_slot(assets, assets[i].0);
    if j < i {
        assert(assets[j].0 != assets[i].0);
    }
    if i < j {
        assert(assets[i].0 != assets[j].0);
    }
}

/// A record for a new path is one more connection.
proof fn lemma_connection_push(
    records: Seq<ConnectionRecord>,
    record: ConnectionRecord,
    next_handle: u64,
)
    requires
        records_wf(records, next_handle),
        !has_path(records, record.spec_path()),
        record.state().handle == next_handle,
        next_handle < u64::MAX,
    ensures
        records_wf(records.push(record), (next_handle + 1) as u64),
        connection_map(records.push(record)) == connection_map(records).insert(
            record.spec_path(),
            record.state(),
        ),
{
    let grown = records.push(record);
    assert forall|a: int, b: int| 0 <= a < b < grown.len() implies (#[trigger] grown[a]).spec_path()
        != (#[trigger] grown[b]).spec_path() by {
        assert(grown[a] == records[a]);
        if b < records.len() {
            assert(grown[b] == records[b]);
        }
    }
    assert forall|a: int, b: int| 0 <= a < b < grown.len() implies (
    #[trigger] grown[a]).state().handle != (#[trigger] grown[b]).state().handle by {
        assert(grown[a] == records[a]);
        if b < records.len() {
            assert(grown[b] == records[b]);
        }
    }
    assert forall|a: int| 0 <= a < grown.len() implies (#[trigger] grown[a]).state().handle
        < next_handle + 1 by {
        if a < records.len() {
            assert(grown[a] == records[a]);
        }
    }
    assert forall|path: Seq<char>|
        connection_map(grown).contains_key(path) <==> connection_map(records).insert(
            record.spec_path(),
            record.state(),
        ).contains_key(path) by {
        if has_path(grown, path) {
            let i = choose|i: int|
                0 <= i < grown.len() && (#[trigger] grown[i]).spec_path() == path;
            if i < records.len() {
                assert(records[i].spec_path() == path);
            }
        }
        if has_path(records, path) {
            let i = choose|i: int|
                0 <= i < records.len() && (#[trigger] records[i]).spec_path() == path;
            assert(grown[i].spec_path() == path);
        }
        if path == record.spec_path() {
            assert(grown[records.len() as int].spec_path() == path);
        }
    }
    assert forall|path: Seq<char>| #[trigger]
        connection_map(grown).contains_key(path) implies connection_map(grown)[path]
        == connection_map(records).insert(record.spec_path(), record.state())[path] by {
        let i = slot_of(grown, path);
        lemma_slot_of(grown, i);
        if i < records.len() {
            assert(grown[i] == records[i]);
            lemma_slot_of(records, i);
        }
    }
    assert(connection_map(grown) =~= connection_map(records).insert(
        record.spec_path(),
        record.state(),
    ));
}

/// A record put in the place of another for the same path, with the same
/// handle, changes the state of that one connection.
proof fn lemma_connection_update(
    records: Seq<ConnectionRecord>,
    i: int,
    record: ConnectionRecord,
    next_handle: u64,
)
    requires
        records_wf(records, next_handle),
        0 <= i < records.len(),
        record.spec_path() == records[i].spec_path(),
        record.state().handle == records[i].state().handle,
    ensures
        records_wf(records.update(i, record), next_handle),
        connection_map(records.update(i, record)) == connection_map(records).insert(
            record.spec_path(),
            record.state(),
        ),
{
    let changed = records.update(i, record);
    assert forall|a: int, b: int| 0 <= a < b < changed.len() implies (
    #[trigger] changed[a]).spec_path() != (#[trigger] changed[b]).spec_path() by {
        assert(records[a].spec_path() != records[b].spec_path());
    }
    assert forall|a: int, b: int| 0 <= a < b < changed.len() implies (
    #[trigger] changed[a]).state().handle != (#[trigger] changed[b]).state().handle by {
        assert(records[a].state().handle != records[b].state().handle);
    }
    assert forall|a: int| 0 <= a < changed.len() implies (#[trigger] changed[a]).state().handle
        < next_handle by {
        assert(records[a].state().handle < next_handle);
    }
    assert forall|path: Seq<char>|
        connection_map(changed).contains_key(path) <==> connection_map(records).insert(
            record.spec_path(),
            record.state(),
        ).contains_key(path) by {
        if has_path(changed, path) {
            let a = choose|a: int|
                0 <= a < changed.len() && (#[trigger] changed[a]).spec_path() == path;
            assert(records[a].spec_path() == path);
        }
        if has_path(records, path) {
            let a = choose|a: int|
                0 <= a < records.len() && (#[trigger] records[a]).spec_path() == path;
            assert(changed[a].spec_path() == path);
        }
        if path == record.spec_path() {
            assert(changed[i].spec_path() == path);
        }
    }
    assert forall|path: Seq<char>| #[trigger]
        connection_map(changed).contains_key(path) implies connection_map(changed)[path]
        == connection_map(records).insert(record.spec_path(), record.state())[path] by {
        let a = slot_of(changed, path);
        lemma_slot_of(changed, a);
        if a != i {
            assert(changed[a] == records[a]);
            lemma_slot_of(records, a);
        }
    }
    assert(connection_map(changed) =~= connection_map(records).insert(
        record.spec_path(),
        record.state(),
    ));
}

/// An asset for a new device model is one more known model.
proof fn lemma_asset_push(assets: Seq<(DeviceId, HidAsset)>, id: DeviceId, asset: HidAsset)
    requires
        assets_wf(assets),
        asset.wf(),
        !has_id(assets, id),
    ensures
        assets_wf(assets.push((id, asset))),
        asset_map(assets.push((id, asset))) == asset_map(assets).insert(id, asset),
{
    let grown = assets.push((id, asset));
    assert forall|a: int, b: int| 0 <= a < b < grown.len() implies (#[trigger] grown[a]).0 != (
    #[trigger] grown[b]).0 by {
        assert(grown[a] == assets[a]);
        if b < assets.len() {
            assert(grown[b] == assets[b]);
        }
    }
    assert forall|a: int| 0 <= a < grown.len() implies (#[trigger] grown[a]).1.wf() by {
        if a < assets.len() {
            assert(grown[a] == assets[a]);
        }
    }
    assert forall|other: DeviceId|
        asset_map(grown).contains_key(other) <==> asset_map(assets).insert(
            id,
            asset,
        ).contains_key(other) by {
        if has_id(grown, other) {
            let i = choose|i: int| 0 <= i < grown.len() && (#[trigger] grown[i]).0 == other;
            if i < assets.len() {
                assert(assets[i].0 == other);
            }
        }
        if has_id(assets, other) {
            let i = choose|i: int| 0 <= i < assets.len() && (#[trigger] assets[i]).0 == other;
            assert(grown[i].0 == other);
        }
        if other == id {
            assert(grown[assets.len() as int].0 == other);
        }
    }
    assert forall|other: DeviceId| #[trigger]
        asset_map(grown).contains_key(other) implies asset_map(grown)[other] == asset_map(
        assets,
    ).insert(id, asset)[other] by {
        let i = asset_slot(grown, other);
        lemma_asset_slot(grown, i);
        if i < assets.len() {
            assert(grown[i] == assets[i]);
            lemma_asset_slot(assets, i);
        }
    }
    assert(asset_map(grown) =~= asset_map(assets).insert(id, asset));
}

/// An asset put in the place of another for the same device model replaces it.
proof fn lemma_asset_update(assets: Seq<(DeviceId, HidAsset)>, i: int, asset: HidAsset)
    requires
        assets_wf(assets),
        asset.wf(),
        0 <= i < assets.len(),
    ensures
        assets_wf(assets.update(i, (assets[i].0, asset))),
        asset_map(assets.update(i, (assets[i].0, asset))) == asset_map(assets).insert(
            assets[i].0,
            asset,
        ),
{
    let id = assets[i].0;
    let changed = assets.update(i, (id, asset));
    assert forall|a: int, b: int| 0 <= a < b < changed.len() implies (#[trigger] changed[a]).0 != (
    #[trigger] changed[b]).0 by {
        assert(assets[a].0 != assets[b].0);
    }
    assert forall|a: int| 0 <= a < changed.len() implies (#[trigger] changed[a]).1.wf() by {
        if a != i {
            assert(changed[a] == assets[a]);
        }
    }
    assert forall|other: DeviceId|
        asset_map(changed).contains_key(other) <==> asset_map(assets).insert(
            id,
            asset,
        ).contains_key(other) by {
        if has_id(changed, other) {
            let a = choose|a: int| 0 <= a < changed.len() && (#[trigger] changed[a]).0 == other;
            assert(assets[a].0 == other);
        }
        if has_id(assets, other) {
            let a = choose|a: int| 0 <= a < assets.len() && (#[trigger] assets[a]).0 == other;
            assert(changed[a].0 == other);
        }
        if other == id {
            assert(changed[i].0 == other);
        }
    }
    assert forall|other: DeviceId| #[trigger]
        asset_map(changed).contains_key(other) implies asset_map(changed)[other] == asset_map(
        assets,
    ).insert(id, asset)[other] by {
        let a = asset_slot(changed, other);
        lemma_asset_slot(changed, a);
        if a != i {
            assert(changed[a] == assets[a]);
            lemma_asset_slot(assets, a);
        }
    }
    assert(asset_map(changed) =~= asset_map(assets).insert(id, asset));
}

/// The records that a sweep keeps make up the connections that were seen.
proof fn lemma_swept(
    records: Seq<ConnectionRecord>,
    kept: Seq<ConnectionRecord>,
    origin: Seq<int>,
    next_handle: u64,
)
    requires
        records_wf(records, next_handle),
        origin.len() == kept.len(),
        forall|k: int| 0 <= k < origin.len() ==> 0 <= #[trigger] origin[k] < records.len(),
        forall|k: int, m: int| 0 <= k < m < origin.len() ==> origin[k] < origin[m],
        forall|k: int|
            0 <= k < origin.len() ==> {
                &&& records[#[trigger] origin[k]].state().seen
                &&& kept[k].spec_path() == records[origin[k]].spec_path()
                &&& kept[k].state() == Connection { seen: false, ..records[origin[k]].state() }
            },
        forall|i: int|
            0 <= i < records.len() && (#[trigger] records[i]).state().seen ==> exists|k: int|
                0 <= k < origin.len() && #[trigger] origin[k] == i,
    ensures
        records_wf(kept, next_handle),
        connection_map(kept) == swept(connection_map(records)),
{
    assert forall|a: int, b: int| 0 <= a < b < kept.len() implies (#[trigger] kept[a]).spec_path()
        != (#[trigger] kept[b]).spec_path() by {
        assert(origin[a] < origin[b]);
        assert(records[origin[a]].spec_path() != records[origin[b]].spec_path());
    }
    assert forall|a: int, b: int| 0 <= a < b < kept.len() implies (
    #[trigger] kept[a]).state().handle != (#[trigger] kept[b]).state().handle by {
        assert(origin[a] < origin[b]);
        assert(records[origin[a]].state().handle != records[origin[b]].state().handle);
    }
    assert forall|a: int| 0 <= a < kept.len() implies (#[trigger] kept[a]).state().handle
        < next_handle by {
        assert(records[origin[a]].state().handle < next_handle);
    }
    let target = swept(connection_map(records));
    assert forall|path: Seq<char>|
        connection_map(kept).contains_key(path) <==> target.contains_key(path) by {
        if has_path(kept, path) {
            let k = choose|k: int| 0 <= k < kept.len() && (#[trigger] kept[k]).spec_path() == path;
            lemma_slot_of(records, origin[k]);
        }
        if target.contains_key(path) {
            let i = slot_of(records, path);
            lemma_slot_of(records, i);
            let k = choose|k: int| 0 <= k < origin.len() && #[trigger] origin[k] == i;
            assert(kept[k].spec_path() == path);
        }
    }
    assert forall|path: Seq<char>| #[trigger]
        connection_map(kept).contains_key(path) implies connection_map(kept)[path]
        == target[path] by {
        let k = slot_of(kept, path);
        lemma_slot_of(kept, k);
        lemma_slot_of(records, origin[k]);
    }
    assert(connection_map(kept) =~= target);
}

/// The handles that a sweep returns are those of the connections that were
/// not seen, each once.
proof fn lemma_gone(records: Seq<ConnectionRecord>, gone: Seq<u64>, left: Seq<int>)
    requires
        forall|a: int, b: int|
            0 <= a < b < records.len() ==> (#[trigger] records[a]).spec_path() != (
            #[trigger] records[b]).spec_path(),
        forall|a: int, b: int|
            0 <= a < b < records.len() ==> (#[trigger] records[a]).state().handle != (
            #[trigger] records[b]).state().handle,
        left.len() == gone.len(),
        forall|k: int| 0 <= k < left.len() ==> 0 <= #[trigger] left[k] < records.len(),
        forall|k: int, m: int| 0 <= k < m < left.len() ==> left[k] < left[m],
        forall|k: int|
            0 <= k < left.len() ==> !records[#[trigger] left[k]].state().seen && gone[k]
                == records[left[k]].state().handle,
        forall|i: int|
            0 <= i < records.len() && !(#[trigger] records[i]).state().seen ==> exists|k: int|
                0 <= k < left.len() && #[trigger] left[k] == i,
    ensures
        gone.no_duplicates(),
        forall|handle: u64|
            gone.contains(handle) <==> unseen_handle(connection_map(records), handle),
{
    assert forall|a: int, b: int| 0 <= a < gone.len() && 0 <= b < gone.len() && a != b implies gone[a]
        != gone[b] by {
        if a < b {
            assert(left[a] < left[b]);
            assert(records[left[a]].state().handle != records[left[b]].state().handle);
        } else {
            assert(left[b] < left[a]);
            assert(records[left[b]].state().handle != records[left[a]].state().handle);
        }
    }
    assert forall|handle: u64|
        gone.contains(handle) <==> unseen_handle(connection_map(records), handle) by {
        if gone.contains(handle) {
            let k = choose|k: int| 0 <= k < gone.len() && gone[k] == handle;
            lemma_slot_of(records, left[k]);
            let path = records[left[k]].spec_path();
            assert(connection_map(records).contains_key(path) && !connection_map(
                records,
            )[path].seen && connection_map(records)[path].handle == handle);
        }
        if unseen_handle(connection_map(records), handle) {
            let path = choose|path: Seq<char>|
                connection_map(records).contains_key(path) && !(#[trigger] connection_map(
                    records,
                )[path]).seen && connection_map(records)[path].handle == handle;
            let i = slot_of(records, path);
            let k = choose|k: int| 0 <= k < left.len() && #[trigger] left[k] == i;
            assert(gone[k] == handle);
        }
    }
}

/// What the registry makes of a device that the transport lists.
#[derive(Debug)]
pub enum Observation {
    /// The device is passed over: nothing is known of its model, or no handle
    /// is left to give it.
    Ignored,
    /// The device is new: it is connected from now on, under this handle.
    /// Nothing is read from it yet.
    Connected { handle: u64, name: String },
    /// The device is connected already: its next report is due.
    Present { handle: u64 },
}

/// A report of zeros.
pub open spec fn zeros() -> Seq<u8> {
    Seq::new(256, |i: int| 0u8)
}

/// The connections that stay after a sweep: those that were seen, each marked
/// as not seen again.
pub open spec fn swept(connected: Map<Seq<char>, Connection>) -> Map<Seq<char>, Connection> {
    Map::new(
        |path: Seq<char>| connected.contains_key(path) && connected[path].seen,
        |path: Seq<char>| Connection { seen: false, ..connected[path] },
    )
}

/// The handle belongs to a connection that was not seen.
pub open spec fn unseen_handle(connected: Map<Seq<char>, Connection>, handle: u64) -> bool {
    exists|path: Seq<char>|
        connected.contains_key(path) && !(#[trigger] connected[path]).seen && connected[path].handle
            == handle
}

/// The known device mappings and the devices that are connected.
#[derive(Debug)]
pub struct HumanInterfaceDevices {
    assets: Vec<(DeviceId, HidAsset)>,
    connected: Vec<ConnectionRecord>,
    next_handle: u64,
}

impl HumanInterfaceDevices {
    /// The asset of each known device model.
    pub closed spec fn assets(&self) -> Map<DeviceId, HidAsset> {
        asset_map(self.assets@)
    }

    /// The state of each connected device, by its path.
    pub closed spec fn connected(&self) -> Map<Seq<char>, Connection> {
        connection_map(self.connected@)
    }

    /// The handle that the next connection gets.
    pub closed spec fn next_handle(&self) -> u64 {
        self.next_handle
    }

    /// No device model has two assets, every asset is ready for decoding, no
    /// path is connected twice, and every handle in use is its connection's own.
    pub closed spec fn wf(&self) -> bool {
        &&& assets_wf(self.assets@)
        &&& records_wf(self.connected@, self.next_handle)
    }

    /// A registry that knows no device model and has no device connected.
    pub fn new() -> (registry: Self)
        ensures
            registry.wf(),
            registry.assets() == Map::<DeviceId, HidAsset>::empty(),
            registry.connected() == Map::<Seq<char>, Connection>::empty(),
            registry.next_handle() == 0,
    {
        let registry = HumanInterfaceDevices {
            assets: Vec::new(),
            connected: Vec::new(),
            next_handle: 0,
        };
        proof {
            assert(registry.assets() =~= Map::<DeviceId, HidAsset>::empty());
            assert(registry.connected() =~= Map::<Seq<char>, Connection>::empty());
        }
        registry
    }

    /// The place of the asset for `id`, if the model is known.
    fn find_asset(&self, id: DeviceId) -> (found: Option<usize>)
        ensures
            match found {
                Some(i) => i < self.assets@.len() && self.assets@[i as int].0 == id,
                None => !has_id(self.assets@, id),
            },
    {
        let mut i: usize = 0;
        while i < self.assets.len()
            invariant
                0 <= i <= self.assets.len(),
                forall|k: int| 0 <= k < i ==> (#[trigger] self.assets@[k]).0 != id,
            decreases self.assets.len() - i,
        {
            if self.assets[i].0 == id {
                return Some(i);
            }
            i += 1;
        }
        None
    }

    /// The place of the record for `path`, if a device is connected there.
    fn find_connection(&self, path: &String) -> (found: Option<usize>)
        ensures
            match found {
                Some(i) => i < self.connected@.len() && self.connected@[i as int].spec_path()
                    == path@,
                None => !has_path(self.connected@, path@),
            },
    {
        let mut i: usize = 0;
        while i < self.connected.len()
            invariant
                0 <= i <= self.connected.len(),
                forall|k: int| 0 <= k < i ==> (#[trigger] self.connected@[k]).spec_path() != path@,
            decreases self.connected.len() - i,
        {
            if self.connected[i].path == *path {
                return Some(i);
            }
            i += 1;
        }
        None
    }

    /// Makes a device model known, with the asset to decode it by. An asset
    /// that the model already had is replaced.
    pub fn insert(&mut self, id: DeviceId, asset: HidAsset)
        requires
            old(self).wf(),
            asset.wf(),
        ensures
            final(self).wf(),
            final(self).assets() == old(self).assets().insert(id, asset),
            final(self).connected() == old(self).connected(),
            final(self).next_handle() == old(self).next_handle(),
    {
        let found = self.find_asset(id);
        match found {
            Some(i) => {
                proof {
                    lemma_asset_update(self.assets@, i as int, asset);
                }
                self.assets.set(i, (id, asset));
            },
            None => {
                proof {
                    lemma_asset_push(self.assets@, id, asset);
                }
                self.assets.push((id, asset));
            },
        }
    }

    /// The asset of a device model, if the model is known.
    pub fn asset(&self, id: DeviceId) -> (asset: Option<&HidAsset>)
        requires
            self.wf(),
        ensures
            asset is Some <==> self.assets().contains_key(id),
            asset matches Some(found) ==> *found == self.assets()[id] && found.wf(),
    {
        match self.find_asset(id) {
            Some(i) => {
                proof {
                    lemma_asset_slot(self.assets@, i as int);
                }
                Some(&self.assets[i].1)
            },
            None => None,
        }
    }

    /// The handles of all the devices that are connected, each once.
    pub fn devices(&self) -> (handles: Vec<u64>)
        requires
            self.wf(),
        ensures
            handles@.no_duplicates(),
            forall|handle: u64|
                handles@.contains(handle) <==> exists|path: Seq<char>|
                    self.connected().contains_key(path) && (#[trigger] self.connected()[path]).handle
                        == handle,
    {
        let mut handles: Vec<u64> = Vec::new();
        let mut i: usize = 0;
        while i < self.connected.len()
            invariant
                0 <= i <= self.connected.len(),
                self.wf(),
                handles@.len() == i,
                forall|k: int|
                    0 <= k < i ==> handles@[k] == (#[trigger] self.connected@[k]).state().handle,
            decreases self.connected.len() - i,
        {
            handles.push(self.connected[i].handle);
            i += 1;
        }
        proof {
            let records = self.connected@;
            assert forall|a: int, b: int|
                0 <= a < handles@.len() && 0 <= b < handles@.len() && a != b implies handles@[a]
                != handles@[b] by {
                if a < b {
                    assert(records[a].state().handle != records[b].state().handle);
                } else {
                    assert(records[b].state().handle != records[a].state().handle);
                }
            }
            assert forall|handle: u64|
                handles@.contains(handle) <==> exists|path: Seq<char>|
                    self.connected().contains_key(path) && (#[trigger] self.connected()[path]).handle
                        == handle by {
                if handles@.contains(handle) {
                    let k = choose|k: int| 0 <= k < handles@.len() && handles@[k] == handle;
                    lemma_slot_of(records, k);
                    let path = records[k].spec_path();
                    assert(self.connected().contains_key(path) && self.connected()[path].handle
                        == handle);
                }
                if exists|path: Seq<char>|
                    self.connected().contains_key(path) && (#[trigger] self.connected()[path]).handle
                        == handle {
                    let path = choose|path: Seq<char>|
                        self.connected().contains_key(path) && (
                        #[trigger] self.connected()[path]).handle == handle;
                    let k = slot_of(records, path);
                    assert(handles@[k] == handle);
                }
            }
        }
        handles
    }

    /// Takes note of a device that the transport lists under `path` as one of
    /// the model `id`. A device of a known model that was not connected gets a
    /// fresh handle and a last report of zeros; one that was connected is
    /// marked as seen.
    pub fn observe(&mut self, path: String, id: DeviceId) -> (observed: Observation)
        requires
            old(self).wf(),
        ensures
            final(self).wf(),
            final(self).assets() == old(self).assets(),
            match observed {
                Observation::Ignored => {
                    &&& !old(self).assets().contains_key(id) || (!old(self).connected().contains_key(
                        path@,
                    ) && old(self).next_handle() == u64::MAX)
                    &&& final(self).connected() == old(self).connected()
                    &&& final(self).next_handle() == old(self).next_handle()
                },
                Observation::Connected { handle, name } => {
                    &&& old(self).assets().contains_key(id)
                    &&& !old(self).connected().contains_key(path@)
                    &&& handle == old(self).next_handle()
                    &&& final(self).next_handle() == handle + 1
                    &&& name@ == old(self).assets()[id].spec_name()
                    &&& final(self).connected() == old(self).connected().insert(
                        path@,
                        Connection { id, handle, last_report: zeros(), seen: true },
                    )
                },
                Observation::Present { handle } => {
                    &&& old(self).assets().contains_key(id)
                    &&& old(self).connected().contains_key(path@)
                    &&& handle == old(self).connected()[path@].handle
                    &&& final(self).next_handle() == old(self).next_handle()
                    &&& final(self).connected() == old(self).connected().insert(
                        path@,
                        Connection { seen: true, ..old(self).connected()[path@] },
                    )
                },
            },
    {
        let Some(a) = self.find_asset(id) else {
            return Observation::Ignored;
        };
        proof {
            lemma_asset_slot(self.assets@, a as int);
        }
        match self.find_connection(&path) {
            Some(c) => {
                let ghost before = self.connected@;
                proof {
                    lemma_slot_of(before, c as int);
                }
                self.connected[c].seen = true;
                proof {
                    lemma_connection_update(
                        before,
                        c as int,
                        self.connected@[c as int],
                        self.next_handle,
                    );
                    assert(self.connected@ =~= before.update(c as int, self.connected@[c as int]));
                }
                Observation::Present { handle: self.connected[c].handle }
            },
            None => {
                if self.next_handle == u64::MAX {
                    return Observation::Ignored;
                }
                let handle = self.next_handle;
                let name = self.assets[a].1.name().to_owned();
                let record = ConnectionRecord {
                    path,
                    id,
                    handle,
                    last_report: HidBuffer::default(),
                    seen: true,
                };
                proof {
                    assert(record.state().last_report =~= zeros());
                    lemma_connection_push(self.connected@, record, self.next_handle);
                }
                self.connected.push(record);
                self.next_handle = handle + 1;
                Observation::Connected { handle, name }
            },
        }
    }

    /// Takes in what was read from the device at `path`: the changes against
    /// its last report are returned, and the new report is kept in its place.
    /// A read of nothing, or of more than a report holds, changes nothing, and
    /// neither does a read from a device that is not connected or whose model
    /// is not known.
    pub fn report(&mut self, path: &String, id: DeviceId, bytes: &[u8]) -> (events: Vec<
        NativeEvent,
    >)
        requires
            old(self).wf(),
        ensures
            final(self).wf(),
            final(self).assets() == old(self).assets(),
            final(self).next_handle() == old(self).next_handle(),
            ({
                let applies = old(self).assets().contains_key(id) && old(
                    self,
                ).connected().contains_key(path@) && 1 <= bytes@.len() <= 256;
                &&& !applies ==> events@.len() == 0 && final(self).connected() == old(
                    self,
                ).connected()
                &&& applies ==> {
                    &&& decodes(
                        events@,
                        old(self).assets()[id].mapping(),
                        old(self).connected()[path@].last_report,
                        padded(bytes@),
                    )
                    &&& final(self).connected() == old(self).connected().insert(
                        path@,
                        Connection {
                            last_report: padded(bytes@),
                            ..old(self).connected()[path@]
                        },
                    )
                }
            }),
    {
        let Some(a) = self.find_asset(id) else {
            return Vec::new();
        };
        let Some(c) = self.find_connection(path) else {
            return Vec::new();
        };
        let Some(next) = HidBuffer::from_read(bytes) else {
            return Vec::new();
        };
        let ghost before = self.connected@;
        proof {
            lemma_asset_slot(self.assets@, a as int);
            lemma_slot_of(before, c as int);
        }
        let events = self.assets[a].1.decode(&self.connected[c].last_report, &next);
        self.connected[c].last_report = next;
        proof {
            lemma_connection_update(before, c as int, self.connected@[c as int], self.next_handle);
            assert(self.connected@ =~= before.update(c as int, self.connected@[c as int]));
        }
        events
    }

    /// Ends a round over the devices that the transport lists: every
    /// connection whose device was not seen in the round is dropped, and its
    /// handle returned; the others start the next round as not seen.
    pub fn sweep(&mut self) -> (gone: Vec<u64>)
        requires
            old(self).wf(),
        ensures
            final(self).wf(),
            final(self).assets() == old(self).assets(),
            final(self).next_handle() == old(self).next_handle(),
            final(self).connected() == swept(old(self).connected()),
            gone@.no_duplicates(),
            forall|handle: u64|
                gone@.contains(handle) <==> unseen_handle(old(self).connected(), handle),
    {
        let mut kept: Vec<ConnectionRecord> = Vec::new();
        let mut gone: Vec<u64> = Vec::new();
        let ghost records = self.connected@;
        let ghost mut origin: Seq<int> = Seq::empty();
        let ghost mut left: Seq<int> = Seq::empty();
        let mut t: usize = 0;
        while t < self.connected.len()
            invariant
                0 <= t <= records.len(),
                records == self.connected@,
                records_wf(records, self.next_handle),
                origin.len() == kept@.len(),
                left.len() == gone@.len(),
                forall|k: int| 0 <= k < origin.len() ==> 0 <= #[trigger] origin[k] < t,
                forall|k: int, m: int| 0 <= k < m < origin.len() ==> origin[k] < origin[m],
                forall|k: int|
                    0 <= k < origin.len() ==> {
                        &&& records[#[trigger] origin[k]].state().seen
                        &&& kept@[k].spec_path() == records[origin[k]].spec_path()
                        &&& kept@[k].state() == Connection {
                            seen: false,
                            ..records[origin[k]].state()
                        }
                    },
                forall|i: int|
                    0 <= i < t && (#[trigger] records[i]).state().seen ==> exists|k: int|
                        0 <= k < origin.len() && #[trigger] origin[k] == i,
                forall|k: int| 0 <= k < left.len() ==> 0 <= #[trigger] left[k] < t,
                forall|k: int, m: int| 0 <= k < m < left.len() ==> left[k] < left[m],
                forall|k: int|
                    0 <= k < left.len() ==> !records[#[trigger] left[k]].state().seen && gone@[k]
                        == records[left[k]].state().handle,
                forall|i: int|
                    0 <= i < t && !(#[trigger] records[i]).state().seen ==> exists|k: int|
                        0 <= k < left.len() && #[trigger] left[k] == i,
            decreases records.len() - t,
        {
            let record = &self.connected[t];
            if record.seen {
                let copy = ConnectionRecord {
                    path: record.path.clone(),
                    id: record.id,
                    handle: record.handle,
                    last_report: record.last_report,
                    seen: false,
                };
                kept.push(copy);
                proof {
                    let ghost earlier = origin;
                    origin = origin.push(t as int);
                    assert forall|i: int|
                        0 <= i < t + 1 && (#[trigger] records[i]).state().seen implies exists|
                        k: int,
                    |
                        0 <= k < origin.len() && #[trigger] origin[k] == i by {
                        if i < t {
                            let k = choose|k: int| 0 <= k < earlier.len() && #[trigger] earlier[k] == i;
                            assert(origin[k] == i);
                        } else {
                            assert(origin[earlier.len() as int] == i);
                        }
                    }
                }
            } else {
                gone.push(record.handle);
                proof {
                    let ghost earlier = left;
                    left = left.push(t as int);
                    assert forall|i: int|
                        0 <= i < t + 1 && !(#[trigger] records[i]).state().seen implies exists|
                        k: int,
                    |
                        0 <= k < left.len() && #[trigger] left[k] == i by {
                        if i < t {
                            let k = choose|k: int| 0 <= k < earlier.len() && #[trigger] earlier[k] == i;
                            assert(left[k] == i);
                        } else {
                            assert(left[earlier.len() as int] == i);
                        }
                    }
                }
            }
            t += 1;
        }
        proof {
            lemma_swept(records, kept@, origin, self.next_handle);
            lemma_gone(records, gone@, left);
        }
        self.connected = kept;
        gone
    }

    /// No two connections share a handle, and every handle in use was minted
    /// before the next one: a device that connects gets a handle that no
    /// connection has or ever had. Every last report has the length of a report,
    /// and every known asset is ready for decoding.
    pub proof fn lemma_handles_are_fresh(&self)
        requires
            self.wf(),
        ensures
            forall|path: Seq<char>| #[trigger]
                self.connected().contains_key(path) ==> self.connected()[path].handle
                    < self.next_handle() && self.connected()[path].last_report.len() == 256,
            forall|first: Seq<char>, second: Seq<char>|
                #![trigger self.connected()[first], self.connected()[second]]
                self.connected().contains_key(first) && self.connected().contains_key(second)
                    && first != second ==> self.connected()[first].handle
                    != self.connected()[second].handle,
            forall|id: DeviceId| #[trigger]
                self.assets().contains_key(id) ==> self.assets()[id].wf(),
    {
        let records = self.connected@;
        assert forall|path: Seq<char>| #[trigger]
            self.connected().contains_key(path) implies self.connected()[path].handle
            < self.next_handle() && self.connected()[path].last_report.len() == 256 by {
            let i = slot_of(records, path);
            assert(records[i].state().handle < self.next_handle);
        }
        assert forall|first: Seq<char>, second: Seq<char>|
            #![trigger self.connected()[first], self.connected()[second]]
            self.connected().contains_key(first) && self.connected().contains_key(second) && first
                != second implies self.connected()[first].handle
            != self.connected()[second].handle by {
            let i = slot_of(records, first);
            let j = slot_of(records, second);
            if i < j {
                assert(records[i].state().handle != records[j].state().handle);
            } else if j < i {
                assert(records[j].state().handle != records[i].state().handle);
            }
        }
        assert forall|id: DeviceId| #[trigger]
            self.assets().contains_key(id) implies self.assets()[id].wf() by {
            let i = asset_slot(self.assets@, id);
            assert(self.assets@[i].1.wf());
        }
    }

    /// A handle that a sweep returns is the handle of no connection that stays.
    pub proof fn lemma_gone_is_gone(&self, handle: u64)
        requires
            self.wf(),
            unseen_handle(self.connected(), handle),
        ensures
            forall|path: Seq<char>| #[trigger]
                swept(self.connected()).contains_key(path) ==> swept(self.connected())[path].handle
                    != handle,
    {
        self.lemma_handles_are_fresh();
        let lost = choose|lost: Seq<char>|
            self.connected().contains_key(lost) && !(#[trigger] self.connected()[lost]).seen
                && self.connected()[lost].handle == handle;
        assert forall|path: Seq<char>| #[trigger]
            swept(self.connected()).contains_key(path) implies swept(self.connected())[path].handle
            != handle by {
            assert(self.connected()[path].seen);
            assert(path != lost);
            assert(self.connected()[path].handle != self.connected()[lost].handle);
        }
    }
}

} // verus!
