use crate::bindings::Bind;
use crate::device::{distinct_keys, lemma_map_of_dom, lemma_map_of_entry, map_of, DeviceMap};
use crate::input::InputType;
use vstd::prelude::*;

verus! {

/// The last report read from a device.
#[derive(Debug, Clone, Copy, PartialEq, Eq, Hash)]
pub struct HidBuffer(pub [u8; 256]);

impl Default for HidBuffer {
    /// A report of zeros: the state of a device before anything was read from it.
    fn default() -> (buffer: Self)
        ensures
            forall|i: int| 0 <= i < 256 ==> buffer.0@[i] == 0,
    {
        HidBuffer([0u8; 256])
    }
}

/// The bytes that a device returned, followed by zeros up to the length of a report.
pub open spec fn padded(bytes: Seq<u8>) -> Seq<u8> {
    Seq::new(256, |i: int| if i < bytes.len() { bytes[i] } else { 0u8 })
}

impl HidBuffer {
    /// The report that a read from a device makes: the bytes that came, with
    /// zeros behind them. A read of nothing makes none, and neither does one
    /// that is longer than a report.
    pub fn from_read(bytes: &[u8]) -> (report: Option<HidBuffer>)
        ensures
            report is Some <==> 1 <= bytes@.len() <= 256,
            report matches Some(buffer) ==> buffer.0@ == padded(bytes@),
    {
        if bytes.len() == 0 || bytes.len() > 256 {
            return None;
        }
        let mut raw = [0u8; 256];
        let mut i: usize = 0;
        while i < bytes.len()
            invariant
                0 <= i <= bytes.len() <= 256,
                forall|j: int| 0 <= j < i ==> raw@[j] == bytes@[j],
                forall|j: int| i <= j < 256 ==> raw@[j] == 0,
            decreases bytes.len() - i,
        {
            raw[i] = bytes[i];
            i += 1;
        }
        proof {
            assert(raw@ =~= padded(bytes@));
        }
        Some(HidBuffer(raw))
    }
}

/// The logical input `bind` is a button of `mapping` that is read from the byte at `offset`.
pub open spec fn consults(mapping: Map<Bind, InputType>, bind: Bind, offset: u8) -> bool {
    &&& mapping.contains_key(bind)
    &&& mapping[bind] matches InputType::Button(ptr)
    &&& ptr.0 == offset
}

/// A mapping turned round: each byte offset that some button is read from,
/// with the buttons that are read from it. Axes are left out.
pub open spec fn inverted(mapping: Map<Bind, InputType>) -> Map<u8, Set<Bind>> {
    Map::new(
        |offset: u8| exists|bind: Bind| consults(mapping, bind, offset),
        |offset: u8| Set::new(|bind: Bind| consults(mapping, bind, offset)),
    )
}

/// Some group of `groups` is for `offset` and holds `bind`.
pub open spec fn listed(groups: Seq<(u8, Seq<Bind>)>, offset: u8, bind: Bind) -> bool {
    exists|g: int|
        0 <= g < groups.len() && (#[trigger] groups[g]).0 == offset && groups[g].1.contains(bind)
}

/// The index that a list of groups denotes.
pub open spec fn index_of(groups: Seq<(u8, Seq<Bind>)>) -> Map<u8, Set<Bind>> {
    Map::new(
        |offset: u8| exists|g: int| 0 <= g < groups.len() && (#[trigger] groups[g]).0 == offset,
        |offset: u8| Set::new(|bind: Bind| listed(groups, offset, bind)),
    )
}

/// No offset has two groups, no group is empty, and no group holds a button twice.
pub open spec fn groups_wf(groups: Seq<(u8, Seq<Bind>)>) -> bool {
    &&& forall|g: int, h: int|
        0 <= g < h < groups.len() ==> (#[trigger] groups[g]).0 != (#[trigger] groups[h]).0
    &&& forall|g: int| 0 <= g < groups.len() ==> (#[trigger] groups[g]).1.len() > 0
    &&& forall|g: int| 0 <= g < groups.len() ==> (#[trigger] groups[g]).1.no_duplicates()
}

/// What the executable groups hold, as plain sequences.
pub open spec fn groups_of(groups: Seq<(u8, Vec<Bind>)>) -> Seq<(u8, Seq<Bind>)> {
    Seq::new(groups.len(), |g: int| (groups[g].0, groups[g].1@))
}

/// One of the first `n` entries is the button `bind`, read from the byte at `offset`.
spec fn button_before(
    entries: Seq<(Bind, InputType)>,
    n: int,
    offset: u8,
    bind: Bind,
) -> bool {
    exists|t: int|
        0 <= t < n && (#[trigger] entries[t]).0 == bind && is_button_at(entries[t].1, offset)
}

/// The input is a button that is read from the byte at `offset`.
spec fn is_button_at(input: InputType, offset: u8) -> bool {
    input matches InputType::Button(ptr) && ptr.0 == offset
}

/// With no key listed twice, the buttons among all the entries are the buttons of
/// the mapping that the entries denote.
proof fn lemma_button_before_all(entries: Seq<(Bind, InputType)>, offset: u8, bind: Bind)
    requires
        distinct_keys(entries),
    ensures
        button_before(entries, entries.len() as int, offset, bind) <==> consults(
            map_of(entries),
            bind,
            offset,
        ),
{
    lemma_map_of_dom(entries, bind);
    if button_before(entries, entries.len() as int, offset, bind) {
        let t = choose|t: int|
            0 <= t < entries.len() && (#[trigger] entries[t]).0 == bind && is_button_at(
                entries[t].1,
                offset,
            );
        lemma_map_of_entry(entries, t);
    }
    if consults(map_of(entries), bind, offset) {
        let t = choose|t: int| 0 <= t < entries.len() && (#[trigger] entries[t]).0 == bind;
        lemma_map_of_entry(entries, t);
        assert(is_button_at(entries[t].1, offset));
    }
}

/// Putting one more button into the groups adds exactly that button to what is listed.
proof fn lemma_listed_step(
    before: Seq<(u8, Seq<Bind>)>,
    after: Seq<(u8, Seq<Bind>)>,
    offset: u8,
    bind: Bind,
)
    requires
        groups_wf(before),
        !listed(before, offset, bind),
        ({
            ||| exists|j: int|
                0 <= j < before.len() && (#[trigger] before[j]).0 == offset && after
                    == before.update(j, (offset, before[j].1.push(bind)))
            ||| (forall|g: int| 0 <= g < before.len() ==> (#[trigger] before[g]).0 != offset)
                && after == before.push((offset, seq![bind]))
        }),
    ensures
        groups_wf(after),
        forall|o: u8, b: Bind|
            listed(after, o, b) <==> listed(before, o, b) || (o == offset && b == bind),
{
    if exists|j: int|
        0 <= j < before.len() && (#[trigger] before[j]).0 == offset && after == before.update(
            j,
            (offset, before[j].1.push(bind)),
        ) {
        let j = choose|j: int|
            0 <= j < before.len() && (#[trigger] before[j]).0 == offset && after == before.update(
                j,
                (offset, before[j].1.push(bind)),
            );
        let grown = before[j].1.push(bind);
        assert(after[j] == (offset, grown));
        assert(grown.no_duplicates()) by {
            assert(!before[j].1.contains(bind));
            assert forall|a: int, b: int| 0 <= a < grown.len() && 0 <= b < grown.len() && a
                != b implies grown[a] != grown[b] by {
                if a < before[j].1.len() && b < before[j].1.len() {
                    assert(before[j].1[a] != before[j].1[b]);
                } else if a < before[j].1.len() {
                    assert(before[j].1.contains(before[j].1[a]));
                } else {
                    assert(before[j].1.contains(before[j].1[b]));
                }
            }
        }
        assert(groups_wf(after)) by {
            assert forall|g: int, h: int| 0 <= g < h < after.len() implies (#[trigger] after[g]).0
                != (#[trigger] after[h]).0 by {
                assert(before[g].0 != before[h].0);
            }
            assert forall|g: int| 0 <= g < after.len() implies (#[trigger] after[g]).1.len()
                > 0 by {
                assert(before[g].1.len() > 0);
            }
            assert forall|g: int| 0 <= g < after.len() implies (#[trigger] after[g]).1.no_duplicates() by {
                assert(before[g].1.no_duplicates());
            }
        }
        assert forall|o: u8, b: Bind|
            listed(after, o, b) <==> listed(before, o, b) || (o == offset && b == bind) by {
            if listed(after, o, b) {
                let g = choose|g: int|
                    0 <= g < after.len() && (#[trigger] after[g]).0 == o && after[g].1.contains(b);
                if g == j {
                    let k = choose|k: int| 0 <= k < grown.len() && grown[k] == b;
                    if k < before[j].1.len() {
                        assert(before[j].1[k] == b);
                        assert(before[j].1.contains(b));
                    }
                } else {
                    assert(before[g] == after[g]);
                }
            }
            if listed(before, o, b) {
                let g = choose|g: int|
                    0 <= g < before.len() && (#[trigger] before[g]).0 == o && before[g].1.contains(
                        b,
                    );
                if g == j {
                    let k = choose|k: int| 0 <= k < before[j].1.len() && before[j].1[k] == b;
                    assert(grown[k] == b);
                }
                assert(after[g].0 == o && after[g].1.contains(b));
            }
            if o == offset && b == bind {
                assert(grown[grown.len() - 1] == bind);
                assert(after[j].0 == o && after[j].1.contains(b));
            }
        }
    } else {
        let single = seq![bind];
        assert(single[0] == bind);
        assert(after[before.len() as int] == (offset, single));
        assert(groups_wf(after)) by {
            assert forall|g: int, h: int| 0 <= g < h < after.len() implies (#[trigger] after[g]).0
                != (#[trigger] after[h]).0 by {
                if h < before.len() {
                    assert(before[g].0 != before[h].0);
                } else {
                    assert(before[g].0 != offset);
                }
            }
            assert forall|g: int| 0 <= g < after.len() implies (#[trigger] after[g]).1.len()
                > 0 by {
                if g < before.len() {
                    assert(before[g].1.len() > 0);
                }
            }
            assert forall|g: int| 0 <= g < after.len() implies (#[trigger] after[g]).1.no_duplicates() by {
                if g < before.len() {
                    assert(before[g].1.no_duplicates());
                }
            }
        }
        assert forall|o: u8, b: Bind|
            listed(after, o, b) <==> listed(before, o, b) || (o == offset && b == bind) by {
            if listed(after, o, b) {
                let g = choose|g: int|
                    0 <= g < after.len() && (#[trigger] after[g]).0 == o && after[g].1.contains(b);
                if g < before.len() {
                    assert(before[g] == after[g]);
                } else {
                    let k = choose|k: int| 0 <= k < single.len() && single[k] == b;
                }
            }
            if listed(before, o, b) {
                let g = choose|g: int|
                    0 <= g < before.len() && (#[trigger] before[g]).0 == o && before[g].1.contains(
                        b,
                    );
                assert(after[g].0 == o && after[g].1.contains(b));
            }
            if o == offset && b == bind {
                let g = before.len() as int;
                assert(after[g].0 == o && after[g].1.contains(b));
            }
        }
    }
}

/// Looking at one more entry adds that entry, if it is a button, to the buttons seen.
proof fn lemma_button_before_step(entries: Seq<(Bind, InputType)>, n: int)
    requires
        0 <= n < entries.len(),
    ensures
        forall|o: u8, b: Bind|
            button_before(entries, n + 1, o, b) <==> button_before(entries, n, o, b) || (
            entries[n].0 == b && is_button_at(entries[n].1, o)),
{
    assert forall|o: u8, b: Bind|
        button_before(entries, n + 1, o, b) <==> button_before(entries, n, o, b) || (entries[n].0
            == b && is_button_at(entries[n].1, o)) by {
        if button_before(entries, n, o, b) {
            let t = choose|t: int|
                0 <= t < n && (#[trigger] entries[t]).0 == b && is_button_at(entries[t].1, o);
            assert(0 <= t < n + 1 && entries[t].0 == b && is_button_at(entries[t].1, o));
        }
        if entries[n].0 == b && is_button_at(entries[n].1, o) {
            assert(0 <= n < n + 1 && entries[n].0 == b && is_button_at(entries[n].1, o));
        }
    }
}

/// The lists of groups that are well formed and list exactly the buttons of a
/// mapping denote that mapping turned round.
proof fn lemma_index_of_inverted(groups: Seq<(u8, Seq<Bind>)>, mapping: Map<Bind, InputType>)
    requires
        groups_wf(groups),
        forall|o: u8, b: Bind| listed(groups, o, b) <==> consults(mapping, b, o),
    ensures
        index_of(groups) == inverted(mapping),
{
    assert forall|o: u8| index_of(groups).contains_key(o) <==> inverted(mapping).contains_key(
        o,
    ) by {
        if index_of(groups).contains_key(o) {
            let g = choose|g: int| 0 <= g < groups.len() && (#[trigger] groups[g]).0 == o;
            assert(groups[g].1.len() > 0);
            let b = groups[g].1[0];
            assert(groups[g].1.contains(b));
            assert(listed(groups, o, b));
            assert(consults(mapping, b, o));
        }
        if inverted(mapping).contains_key(o) {
            let b = choose|b: Bind| consults(mapping, b, o);
            assert(listed(groups, o, b));
        }
    }
    assert forall|o: u8| #[trigger]
        index_of(groups).contains_key(o) implies index_of(groups)[o] =~= inverted(mapping)[o] by {
        assert forall|b: Bind|
            index_of(groups)[o].contains(b) <==> inverted(mapping)[o].contains(b) by {
            assert(listed(groups, o, b) <==> consults(mapping, b, o));
        }
    }
    assert(index_of(groups) =~= inverted(mapping));
}

/// Where no offset has two groups, the index has as many offsets as there are groups.
pub proof fn lemma_index_len(groups: Seq<(u8, Seq<Bind>)>)
    requires
        forall|g: int, h: int|
            0 <= g < h < groups.len() ==> (#[trigger] groups[g]).0 != (#[trigger] groups[h]).0,
    ensures
        index_of(groups).dom().finite(),
        index_of(groups).dom().len() == groups.len(),
    decreases groups.len(),
{
    if groups.len() == 0 {
        assert(index_of(groups).dom() =~= Set::<u8>::empty());
    } else {
        let front = groups.drop_last();
        let offset = groups.last().0;
        assert forall|g: int, h: int| 0 <= g < h < front.len() implies (#[trigger] front[g]).0 != (
        #[trigger] front[h]).0 by {
            assert(groups[g].0 != groups[h].0);
        }
        lemma_index_len(front);
        assert(!index_of(front).dom().contains(offset)) by {
            if index_of(front).dom().contains(offset) {
                let g = choose|g: int| 0 <= g < front.len() && (#[trigger] front[g]).0 == offset;
                assert(groups[g].0 != groups[groups.len() - 1].0);
            }
        }
        assert forall|o: u8|
            index_of(groups).dom().contains(o) <==> index_of(front).dom().insert(offset).contains(
                o,
            ) by {
            if index_of(groups).dom().contains(o) {
                let g = choose|g: int| 0 <= g < groups.len() && (#[trigger] groups[g]).0 == o;
                if g < front.len() {
                    assert(front[g].0 == o);
                }
            }
            if index_of(front).dom().contains(o) {
                let g = choose|g: int| 0 <= g < front.len() && (#[trigger] front[g]).0 == o;
                assert(groups[g].0 == o);
            }
            if o == offset {
                assert(groups[groups.len() - 1].0 == o);
            }
        }
        assert(index_of(groups).dom() =~= index_of(front).dom().insert(offset));
    }
}

/// An index from byte offsets to the buttons that are read from each: a device
/// mapping turned round, so that a byte that did not change rules out all its
/// buttons at once. It is built from a mapping and never changed.
#[derive(Debug)]
pub struct BufferMap {
    groups: Vec<(u8, Vec<Bind>)>,
}

impl Clone for BufferMap {
    fn clone(&self) -> (copy: Self)
        ensures
            copy.groups() == self.groups(),
    {
        let mut groups: Vec<(u8, Vec<Bind>)> = Vec::new();
        let mut g: usize = 0;
        while g < self.groups.len()
            invariant
                0 <= g <= self.groups.len(),
                groups_of(groups@) == groups_of(self.groups@).take(g as int),
            decreases self.groups.len() - g,
        {
            let binds = &self.groups[g].1;
            let mut group: Vec<Bind> = Vec::new();
            let mut k: usize = 0;
            while k < binds.len()
                invariant
                    0 <= k <= binds.len(),
                    group@ == binds@.take(k as int),
                decreases binds.len() - k,
            {
                group.push(binds[k]);
                proof {
                    assert(group@ =~= binds@.take(k + 1));
                }
                k += 1;
            }
            proof {
                assert(binds@.take(binds.len() as int) =~= binds@);
            }
            let ghost before = groups_of(groups@);
            groups.push((self.groups[g].0, group));
            proof {
                assert(groups_of(groups@) =~= before.push((self.groups@[g as int].0, binds@)));
                assert(groups_of(groups@) =~= groups_of(self.groups@).take(g + 1));
            }
            g += 1;
        }
        proof {
            assert(groups_of(self.groups@).take(self.groups.len() as int) =~= groups_of(
                self.groups@,
            ));
        }
        BufferMap { groups }
    }
}

impl View for BufferMap {
    type V = Map<u8, Set<Bind>>;

    open spec fn view(&self) -> Map<u8, Set<Bind>> {
        index_of(self.groups())
    }
}

impl BufferMap {
    /// The groups in the order in which they are walked.
    pub closed spec fn groups(&self) -> Seq<(u8, Seq<Bind>)> {
        groups_of(self.groups@)
    }

    /// No offset has two groups, no group is empty, no group holds a button twice.
    pub open spec fn wf(&self) -> bool {
        groups_wf(self.groups())
    }

    /// The index of the group for `offset`, if there is one.
    fn find_group(groups: &Vec<(u8, Vec<Bind>)>, offset: u8) -> (found: Option<usize>)
        ensures
            match found {
                Some(j) => j < groups.len() && groups@[j as int].0 == offset,
                None => forall|g: int| 0 <= g < groups.len() ==> (#[trigger] groups@[g]).0 != offset,
            },
    {
        let mut j: usize = 0;
        while j < groups.len()
            invariant
                0 <= j <= groups.len(),
                forall|g: int| 0 <= g < j ==> (#[trigger] groups@[g]).0 != offset,
            decreases groups.len() - j,
        {
            if groups[j].0 == offset {
                return Some(j);
            }
            j += 1;
        }
        None
    }

    /// Turns a device mapping round: every button goes into the group of the
    /// byte it is read from. Axes are not indexed.
    pub fn from(device_map: &DeviceMap) -> (buffer_map: BufferMap)
        requires
            device_map.wf(),
        ensures
            buffer_map.wf(),
            buffer_map@ == inverted(device_map@),
    {
        let entries = device_map.iter();
        let mut groups: Vec<(u8, Vec<Bind>)> = Vec::new();
        let mut i: usize = 0;
        while i < entries.len()
            invariant
                0 <= i <= entries.len(),
                distinct_keys(entries@),
                groups_wf(groups_of(groups@)),
                forall|o: u8, b: Bind|
                    listed(groups_of(groups@), o, b) <==> button_before(entries@, i as int, o, b),
            decreases entries.len() - i,
        {
            let (bind, input) = entries[i];
            let ghost before = groups_of(groups@);
            proof {
                lemma_button_before_step(entries@, i as int);
            }
            match input {
                InputType::Button(ptr) => {
                    proof {
                        if listed(before, ptr.0, bind) {
                            assert(button_before(entries@, i as int, ptr.0, bind));
                            let t = choose|t: int|
                                0 <= t < i && (#[trigger] entries@[t]).0 == bind && is_button_at(
                                    entries@[t].1,
                                    ptr.0,
                                );
                            assert(entries@[t].0 != entries@[i as int].0);
                        }
                    }
                    match Self::find_group(&groups, ptr.0) {
                        Some(j) => {
                            groups[j].1.push(bind);
                            proof {
                                assert(before[j as int].0 == ptr.0);
                                assert(groups_of(groups@) =~= before.update(
                                    j as int,
                                    (ptr.0, before[j as int].1.push(bind)),
                                ));
                            }
                        },
                        None => {
                            let mut group: Vec<Bind> = Vec::new();
                            group.push(bind);
                            groups.push((ptr.0, group));
                            proof {
                                assert(group@ =~= seq![bind]);
                                assert(groups_of(groups@) =~= before.push((ptr.0, seq![bind])));
                                assert forall|g: int| 0 <= g < before.len() implies (
                                #[trigger] before[g]).0 != ptr.0 by {
                                    assert(groups@[g].0 != ptr.0);
                                }
                            }
                        },
                    }
                    proof {
                        lemma_listed_step(before, groups_of(groups@), ptr.0, bind);
                    }
                },
                InputType::Axis(_) => {},
            }
            i += 1;
        }
        let buffer_map = BufferMap { groups };
        proof {
            assert forall|o: u8, b: Bind|
                listed(buffer_map.groups(), o, b) <==> consults(device_map@, b, o) by {
                lemma_button_before_all(entries@, o, b);
            }
            lemma_index_of_inverted(buffer_map.groups(), device_map@);
        }
        buffer_map
    }

    /// The number of byte offsets that some button is read from.
    pub fn len(&self) -> (n: usize)
        requires
            self.wf(),
        ensures
            n == self.groups().len(),
            n == self@.dom().len(),
    {
        proof {
            lemma_index_len(self.groups());
        }
        self.groups.len()
    }

    /// Every indexed byte offset with its buttons, each offset once.
    pub fn iter(&self) -> (groups: &Vec<(u8, Vec<Bind>)>)
        ensures
            groups_of(groups@) == self.groups(),
    {
        &self.groups
    }
}

/// Where the groups denote a mapping turned round, they list exactly the
/// buttons of the mapping, each under the byte it is read from.
pub proof fn lemma_listed_consults(groups: Seq<(u8, Seq<Bind>)>, mapping: Map<Bind, InputType>)
    requires
        index_of(groups) == inverted(mapping),
    ensures
        forall|o: u8, b: Bind| listed(groups, o, b) <==> consults(mapping, b, o),
{
    assert forall|o: u8, b: Bind| listed(groups, o, b) <==> consults(mapping, b, o) by {
        if listed(groups, o, b) {
            let g = choose|g: int|
                0 <= g < groups.len() && (#[trigger] groups[g]).0 == o && groups[g].1.contains(b);
            assert(index_of(groups).contains_key(o));
            assert(index_of(groups)[o].contains(b));
            assert(inverted(mapping)[o].contains(b));
        }
        if consults(mapping, b, o) {
            assert(inverted(mapping).contains_key(o));
            assert(inverted(mapping)[o].contains(b));
            assert(index_of(groups)[o].contains(b));
        }
    }
}

/// Every button of a mapping is in the index, in the group of the byte it is
/// read from.
pub proof fn lemma_index_holds_every_button(mapping: Map<Bind, InputType>, bind: Bind)
    requires
        mapping.contains_key(bind),
        mapping[bind] is Button,
    ensures
        inverted(mapping).contains_key(mapping[bind]->Button_0.0),
        inverted(mapping)[mapping[bind]->Button_0.0].contains(bind),
{
    assert(consults(mapping, bind, mapping[bind]->Button_0.0));
}

} // verus!
