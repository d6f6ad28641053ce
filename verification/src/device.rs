use crate::bindings::Bind;
use crate::input::InputType;
use std::collections::HashMap;
use vstd::prelude::*;

verus! {

/// Identifies a device model: every device of one model shares a mapping.
#[derive(Debug, Clone, Copy, PartialEq, Eq, Hash, Structural)]
pub struct DeviceId {
    pub vendor_id: u16,
    pub product_id: u16,
}

impl DeviceId {
    pub fn new(vendor_id: u16, product_id: u16) -> (id: Self)
        ensures
            id.vendor_id == vendor_id,
            id.product_id == product_id,
    {
        Self { vendor_id, product_id }
    }
}

/// The mapping that a list of entries denotes when it is read front to back
/// and a later entry replaces an earlier one with the same key.
pub open spec fn map_of(entries: Seq<(Bind, InputType)>) -> Map<Bind, InputType>
    decreases entries.len(),
{
    if entries.len() == 0 {
        Map::empty()
    } else {
        map_of(entries.drop_last()).insert(entries.last().0, entries.last().1)
    }
}

/// No logical input is listed twice.
pub open spec fn distinct_keys(entries: Seq<(Bind, InputType)>) -> bool {
    forall|i: int, j: int|
        0 <= i < j < entries.len() ==> (#[trigger] entries[i]).0 != (#[trigger] entries[j]).0
}

/// A key is in the mapping exactly when some entry lists it.
pub proof fn lemma_map_of_dom(entries: Seq<(Bind, InputType)>, bind: Bind)
    ensures
        map_of(entries).contains_key(bind) <==> exists|i: int|
            0 <= i < entries.len() && (#[trigger] entries[i]).0 == bind,
    decreases entries.len(),
{
    if entries.len() > 0 {
        let front = entries.drop_last();
        lemma_map_of_dom(front, bind);
        if map_of(entries).contains_key(bind) {
            if entries.last().0 == bind {
                assert(entries[entries.len() - 1].0 == bind);
            } else {
                let i = choose|i: int| 0 <= i < front.len() && (#[trigger] front[i]).0 == bind;
                assert(entries[i].0 == bind);
            }
        }
        if exists|i: int| 0 <= i < entries.len() && (#[trigger] entries[i]).0 == bind {
            let i = choose|i: int| 0 <= i < entries.len() && (#[trigger] entries[i]).0 == bind;
            if i < entries.len() - 1 {
                assert(front[i].0 == bind);
            }
        }
    }
}

/// Where no key is listed twice, every entry gives its key's value.
pub proof fn lemma_map_of_entry(entries: Seq<(Bind, InputType)>, i: int)
    requires
        distinct_keys(entries),
        0 <= i < entries.len(),
    ensures
        map_of(entries).contains_key(entries[i].0),
        map_of(entries)[entries[i].0] == entries[i].1,
    decreases entries.len(),
{
    let front = entries.drop_last();
    if i < entries.len() - 1 {
        assert(distinct_keys(front)) by {
            assert forall|a: int, b: int| 0 <= a < b < front.len() implies (#[trigger] front[a]).0
                != (#[trigger] front[b]).0 by {
                assert(entries[a].0 != entries[b].0);
            }
        }
        lemma_map_of_entry(front, i);
        assert(front[i] == entries[i]);
        assert(entries[i].0 != entries[entries.len() - 1].0);
    }
}

/// Replacing the value of a listed key is an insertion under that key.
pub proof fn lemma_map_of_update(entries: Seq<(Bind, InputType)>, j: int, input: InputType)
    requires
        distinct_keys(entries),
        0 <= j < entries.len(),
    ensures
        distinct_keys(entries.update(j, (entries[j].0, input))),
        map_of(entries.update(j, (entries[j].0, input))) == map_of(entries).insert(
            entries[j].0,
            input,
        ),
    decreases entries.len(),
{
    let bind = entries[j].0;
    let updated = entries.update(j, (bind, input));
    let front = entries.drop_last();
    assert(distinct_keys(updated)) by {
        assert forall|a: int, b: int| 0 <= a < b < updated.len() implies (#[trigger] updated[a]).0
            != (#[trigger] updated[b]).0 by {
            assert(entries[a].0 != entries[b].0);
        }
    }
    if j == entries.len() - 1 {
        assert(updated.drop_last() =~= front);
        assert(map_of(updated) =~= map_of(entries).insert(bind, input));
    } else {
        assert(distinct_keys(front)) by {
            assert forall|a: int, b: int| 0 <= a < b < front.len() implies (#[trigger] front[a]).0
                != (#[trigger] front[b]).0 by {
                assert(entries[a].0 != entries[b].0);
            }
        }
        lemma_map_of_update(front, j, input);
        assert(front[j] == entries[j]);
        assert(updated.drop_last() =~= front.update(j, (bind, input)));
        assert(updated.last() == entries.last());
        assert(entries[j].0 != entries[entries.len() - 1].0);
        assert(map_of(updated) =~= map_of(entries).insert(bind, input));
    }
}

/// A mapping with no key listed twice has as many keys as entries.
pub proof fn lemma_map_of_len(entries: Seq<(Bind, InputType)>)
    requires
        distinct_keys(entries),
    ensures
        map_of(entries).dom().finite(),
        map_of(entries).dom().len() == entries.len(),
    decreases entries.len(),
{
    if entries.len() > 0 {
        let front = entries.drop_last();
        assert(distinct_keys(front)) by {
            assert forall|a: int, b: int| 0 <= a < b < front.len() implies (#[trigger] front[a]).0
                != (#[trigger] front[b]).0 by {
                assert(entries[a].0 != entries[b].0);
            }
        }
        lemma_map_of_len(front);
        lemma_map_of_dom(front, entries.last().0);
        if map_of(front).contains_key(entries.last().0) {
            let i = choose|i: int| 0 <= i < front.len() && (#[trigger] front[i]).0 == entries.last().0;
            assert(entries[i].0 != entries[entries.len() - 1].0);
        }
        assert(map_of(entries).dom() =~= map_of(front).dom().insert(entries.last().0));
    }
}

/// The index knows the place of every entry by the number of its logical
/// input, and nothing else.
spec fn index_matches(entries: Seq<(Bind, InputType)>, index: Map<u64, usize>) -> bool {
    &&& forall|i: int|
        0 <= i < entries.len() ==> index.contains_key((#[trigger] entries[i]).0.spec_code())
            && index[entries[i].0.spec_code()] == i
    &&& forall|code: u64| #[trigger]
        index.contains_key(code) ==> index[code] < entries.len() && entries[index[code] as int].0.spec_code()
            == code
}

/// All that is known of a device's layout: where each logical input lives in a report.
///
/// The entries are kept in a list in which no logical input occurs twice; the
/// mapping they denote is the view. An index by the number of each logical
/// input finds an entry without a walk through the list.
#[derive(Debug)]
pub struct DeviceMap {
    entries: Vec<(Bind, InputType)>,
    index: HashMap<u64, usize>,
}

impl Clone for DeviceMap {
    fn clone(&self) -> (copy: Self)
        ensures
            copy.entries() == self.entries(),
            self.wf() ==> copy.wf(),
    {
        let mut entries: Vec<(Bind, InputType)> = Vec::new();
        let mut i: usize = 0;
        while i < self.entries.len()
            invariant
                0 <= i <= self.entries.len(),
                entries@ == self.entries@.take(i as int),
            decreases self.entries.len() - i,
        {
            entries.push(self.entries[i]);
            proof {
                assert(entries@ =~= self.entries@.take(i + 1));
            }
            i += 1;
        }
        proof {
            assert(self.entries@.take(self.entries.len() as int) =~= self.entries@);
        }
        DeviceMap { entries, index: self.index.clone() }
    }
}

impl View for DeviceMap {
    type V = Map<Bind, InputType>;

    open spec fn view(&self) -> Map<Bind, InputType> {
        map_of(self.entries())
    }
}

impl DeviceMap {
    /// The entries in the order in which they are walked.
    pub closed spec fn entries(&self) -> Seq<(Bind, InputType)> {
        self.entries@
    }

    /// The index finds every entry, and only entries.
    pub closed spec fn indexed(&self) -> bool {
        index_matches(self.entries@, self.index@)
    }

    /// No logical input is listed twice, and the index finds every entry.
    pub open spec fn wf(&self) -> bool {
        distinct_keys(self.entries()) && self.indexed()
    }

    /// Builds the mapping that `entries` denotes; of two entries for one
    /// logical input the later one counts.
    pub fn new(entries: Vec<(Bind, InputType)>) -> (device_map: Self)
        ensures
            device_map.wf(),
            device_map@ == map_of(entries@),
            distinct_keys(entries@) ==> device_map.entries() == entries@,
    {
        let mut kept: Vec<(Bind, InputType)> = Vec::new();
        let mut index: HashMap<u64, usize> = HashMap::new();
        let mut i: usize = 0;
        while i < entries.len()
            invariant
                0 <= i <= entries.len(),
                distinct_keys(kept@),
                index_matches(kept@, index@),
                map_of(kept@) == map_of(entries@.take(i as int)),
                distinct_keys(entries@) ==> kept@ == entries@.take(i as int),
            decreases entries.len() - i,
        {
            let (bind, input) = entries[i];
            let ghost before = kept@;
            let code = bind.code();
            let known = index.get(&code);
            match known {
                Some(place) => {
                    let j = *place;
                    proof {
                        before[j as int].0.lemma_code_is_injective(bind);
                        lemma_map_of_update(before, j as int, input);
                        if distinct_keys(entries@) {
                            assert(entries@[j as int].0 == entries@.take(i as int)[j as int].0);
                            assert(entries@[j as int].0 != entries@[i as int].0);
                        }
                    }
                    kept.set(j, (bind, input));
                    proof {
                        assert forall|k: int| 0 <= k < kept@.len() implies index@.contains_key(
                            (#[trigger] kept@[k]).0.spec_code(),
                        ) && index@[kept@[k].0.spec_code()] == k by {
                            assert(before[k].0 == kept@[k].0);
                        }
                    }
                },
                None => {
                    proof {
                        assert forall|k: int| 0 <= k < before.len() implies (
                        #[trigger] before[k]).0 != bind by {
                            assert(index@.contains_key(before[k].0.spec_code()));
                        }
                    }
                    let ghost index_before = index@;
                    index.insert(code, kept.len());
                    kept.push((bind, input));
                    proof {
                        assert(kept@.drop_last() =~= before);
                        assert(distinct_keys(kept@)) by {
                            assert forall|a: int, b: int| 0 <= a < b < kept@.len() implies (
                            #[trigger] kept@[a]).0 != (#[trigger] kept@[b]).0 by {
                                assert(kept@[a] == before[a]);
                                if b < before.len() {
                                    assert(kept@[b] == before[b]);
                                }
                            }
                        }
                        assert forall|k: int| 0 <= k < kept@.len() implies index@.contains_key(
                            (#[trigger] kept@[k]).0.spec_code(),
                        ) && index@[kept@[k].0.spec_code()] == k by {
                            if k < before.len() {
                                assert(kept@[k] == before[k]);
                                assert(index_before.contains_key(before[k].0.spec_code()));
                            }
                        }
                        assert forall|other: u64| #[trigger]
                            index@.contains_key(other) implies index@[other] < kept@.len()
                            && kept@[index@[other] as int].0.spec_code() == other by {
                            if other != code {
                                assert(index_before.contains_key(other));
                                assert(kept@[index_before[other] as int] == before[index_before[other] as int]);
                            }
                        }
                    }
                },
            }
            proof {
                let next = entries@.take(i + 1);
                assert(next.drop_last() =~= entries@.take(i as int));
                assert(next.last() == entries@[i as int]);
                if distinct_keys(entries@) {
                    assert(kept@ =~= next);
                }
            }
            i += 1;
        }
        proof {
            assert(entries@.take(entries.len() as int) =~= entries@);
        }
        DeviceMap { entries: kept, index }
    }

    /// The number of logical inputs.
    pub fn len(&self) -> (n: usize)
        requires
            self.wf(),
        ensures
            n == self.entries().len(),
            n == self@.dom().len(),
    {
        proof {
            lemma_map_of_len(self.entries());
        }
        self.entries.len()
    }

    /// Every logical input with its pointer, each once.
    pub fn iter(&self) -> (entries: &Vec<(Bind, InputType)>)
        ensures
            entries@ == self.entries(),
    {
        &self.entries
    }

    /// The pointer of a logical input, if the device has it.
    pub fn get(&self, bind: &Bind) -> (input: Option<&InputType>)
        requires
            self.wf(),
        ensures
            match input {
                Some(found) => self@.contains_key(*bind) && *found == self@[*bind],
                None => !self@.contains_key(*bind),
            },
    {
        let known = self.index.get(&bind.code());
        proof {
            lemma_map_of_dom(self.entries(), *bind);
        }
        match known {
            Some(place) => {
                let j = *place;
                proof {
                    self.entries@[j as int].0.lemma_code_is_injective(*bind);
                    lemma_map_of_entry(self.entries(), j as int);
                }
                Some(&self.entries[j].1)
            },
            None => {
                proof {
                    assert forall|k: int| 0 <= k < self.entries@.len() implies (
                    #[trigger] self.entries@[k]).0 != *bind by {
                        assert(self.index@.contains_key(self.entries@[k].0.spec_code()));
                    }
                }
                None
            },
        }
    }
}

/// A device mapping as it is kept on disk: a name, the device model it is
/// for, and the mapping itself.
#[derive(Debug)]
pub struct DeviceAsset {
    name: String,
    pid: u16,
    vid: u16,
    mappings: DeviceMap,
}

impl Clone for DeviceAsset {
    fn clone(&self) -> (copy: Self)
        ensures
            copy.spec_name() == self.spec_name(),
            copy.spec_pid() == self.spec_pid(),
            copy.spec_vid() == self.spec_vid(),
            copy.spec_mappings().entries() == self.spec_mappings().entries(),
            self.spec_mappings().wf() ==> copy.spec_mappings().wf(),
    {
        DeviceAsset {
            name: self.name.clone(),
            pid: self.pid,
            vid: self.vid,
            mappings: self.mappings.clone(),
        }
    }
}

impl DeviceAsset {
    /// The name, as a sequence of characters.
    pub closed spec fn spec_name(&self) -> Seq<char> {
        self.name@
    }

    /// The product id.
    pub closed spec fn spec_pid(&self) -> u16 {
        self.pid
    }

    /// The vendor id.
    pub closed spec fn spec_vid(&self) -> u16 {
        self.vid
    }

    /// The mapping.
    pub closed spec fn spec_mappings(&self) -> DeviceMap {
        self.mappings
    }

    pub fn new(name: String, pid: u16, vid: u16, mappings: DeviceMap) -> (asset: DeviceAsset)
        ensures
            asset.spec_name() == name@,
            asset.spec_pid() == pid,
            asset.spec_vid() == vid,
            asset.spec_mappings() == mappings,
    {
        DeviceAsset { name, pid, vid, mappings }
    }

    pub fn name(&self) -> (name: &str)
        ensures
            name@ == self.spec_name(),
    {
        self.name.as_str()
    }

    /// Product ID
    pub fn pid(&self) -> (pid: u16)
        ensures
            pid == self.spec_pid(),
    {
        self.pid
    }

    /// Vendor ID
    pub fn vid(&self) -> (vid: u16)
        ensures
            vid == self.spec_vid(),
    {
        self.vid
    }

    pub fn mappings(&self) -> (mappings: &DeviceMap)
        ensures
            *mappings == self.spec_mappings(),
    {
        &self.mappings
    }
}

impl From<&DeviceAsset> for DeviceId {
    /// The device model that an asset is for.
    fn from(device: &DeviceAsset) -> (id: Self) {
        Self { vendor_id: device.vid(), product_id: device.pid() }
    }
}

impl vstd::std_specs::convert::FromSpecImpl<&DeviceAsset> for DeviceId {
    open spec fn obeys_from_spec() -> bool {
        true
    }

    open spec fn from_spec(device: &DeviceAsset) -> Self {
        DeviceId { vendor_id: device.spec_vid(), product_id: device.spec_pid() }
    }
}

} // verus!
