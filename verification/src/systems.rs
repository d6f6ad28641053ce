use crate::bindings::Bind;
use crate::buffers::{consults, groups_of, groups_wf, inverted, listed, BufferMap, HidBuffer};
use crate::device::{distinct_keys, lemma_map_of_dom, lemma_map_of_entry, map_of, DeviceMap};
use crate::events::{AxisValue, BindingEvent, NativeEvent};
use crate::input::{AxisPointer, ButtonPointer, ButtonQuery, InputType};
use crate::validation::axes_valid;
use vstd::prelude::*;

verus! {

/// Whether a button counts as pressed when its byte holds `bufv`.
pub fn check_button(bufv: u8, button: &ButtonPointer) -> (pressed: bool)
    ensures
        pressed == button.1.pressed(bufv),
{
    match button.1 {
        ButtonQuery::Bit(mask) => bufv & mask != 0,
        ButtonQuery::Eq(value) => bufv == value,
    }
}

/// The raw value that a report holds for an axis.
pub fn calc_axis(buffer: &[u8], ptr: &AxisPointer) -> (raw: u32)
    requires
        ptr.within(buffer@.len()),
    ensures
        raw == ptr.raw(buffer@),
        raw <= 65280,
{
    let fine: u32 = buffer[ptr.fine as usize] as u32;
    let coarse: u32 = buffer[ptr.coarse as usize] as u32;
    coarse * 255 + fine
}

/// The new normalized value of an axis, or nothing where neither of its bytes
/// differs between the two reports.
pub fn proccess_axis(ptr: &AxisPointer, buf_new: &[u8], buf_last: &[u8]) -> (value: Option<
    AxisValue,
>)
    requires
        ptr.valid(),
        ptr.within(buf_new@.len()),
        ptr.within(buf_last@.len()),
    ensures
        value == axis_change(*ptr, buf_last@, buf_new@),
        value is None <==> ptr.unchanged(buf_last@, buf_new@),
        value matches Some(found) ==> found.numerator == ptr.numerator(buf_new@)
            && found.denominator == ptr.max_raw(),
{
    let fine_val = buf_new[ptr.fine as usize];
    let coarse_val = buf_new[ptr.coarse as usize];
    let fine_last = buf_last[ptr.fine as usize];
    let coarse_last = buf_last[ptr.coarse as usize];
    if fine_val == fine_last && coarse_val == coarse_last {
        return None;
    }
    let max_raw: i32 = 255 * (ptr.octaves as i32);
    let mut raw_value: i32 = calc_axis(buf_new, ptr) as i32;
    if ptr.inverted {
        raw_value = max_raw - raw_value;
    }
    let numerator: i32 = if ptr.abs {
        clamp_to(raw_value, 0, max_raw)
    } else {
        clamp_to(2 * raw_value - max_raw, -max_raw, max_raw)
    };
    Some(AxisValue { numerator, denominator: max_raw })
}

/// The value nearest to `x` that is neither below `lo` nor above `hi`.
fn clamp_to(x: i32, lo: i32, hi: i32) -> (clamped: i32)
    ensures
        clamped == crate::input::clamp(x as int, lo as int, hi as int),
{
    if x < lo {
        lo
    } else if x > hi {
        hi
    } else {
        x
    }
}

/// The normalized value that `next` holds for an axis.
pub open spec fn axis_value(ptr: AxisPointer, next: Seq<u8>) -> AxisValue {
    AxisValue { numerator: ptr.numerator(next) as i32, denominator: ptr.max_raw() as i32 }
}

/// What is reported of an axis: its new value, unless neither byte differs.
pub open spec fn axis_change(ptr: AxisPointer, prev: Seq<u8>, next: Seq<u8>) -> Option<AxisValue> {
    if ptr.unchanged(prev, next) {
        None
    } else {
        Some(axis_value(ptr, next))
    }
}

/// What is reported of a button: pressed or released, unless it is in the
/// same state in both reports.
pub open spec fn button_change(ptr: ButtonPointer, prev: Seq<u8>, next: Seq<u8>) -> Option<
    BindingEvent,
> {
    let was = ptr.1.pressed(prev[ptr.0 as int]);
    let is = ptr.1.pressed(next[ptr.0 as int]);
    if was == is {
        None
    } else if is {
        Some(BindingEvent::Pressed)
    } else {
        Some(BindingEvent::Released)
    }
}

/// What is reported of a logical input when `next` follows `prev`, if anything.
pub open spec fn expected(input: InputType, prev: Seq<u8>, next: Seq<u8>) -> Option<BindingEvent> {
    match input {
        InputType::Button(ptr) => button_change(ptr, prev, next),
        InputType::Axis(ptr) => match axis_change(ptr, prev, next) {
            Some(value) => Some(BindingEvent::Value(value)),
            None => None,
        },
    }
}

/// The events are the changes between two reports under a mapping: each event
/// is the change of an input of the mapping, no input has two events, every
/// input that changed has one, and buttons come before axes.
pub open spec fn decodes(
    events: Seq<NativeEvent>,
    mapping: Map<Bind, InputType>,
    prev: Seq<u8>,
    next: Seq<u8>,
) -> bool {
    &&& forall|i: int|
        0 <= i < events.len() ==> mapping.contains_key((#[trigger] events[i]).bind) && expected(
            mapping[events[i].bind],
            prev,
            next,
        ) == Some(events[i].state)
    &&& forall|i: int, j: int|
        0 <= i < j < events.len() ==> (#[trigger] events[i]).bind != (#[trigger] events[j]).bind
    &&& forall|bind: Bind|
        mapping.contains_key(bind) && expected(#[trigger] mapping[bind], prev, next) is Some
            ==> reports(events, bind)
    &&& forall|i: int, j: int|
        0 <= i < j < events.len() && (#[trigger] events[i]).state is Value ==> (
        #[trigger] events[j]).state is Value
}

/// Some event is about `bind`.
pub open spec fn reports(events: Seq<NativeEvent>, bind: Bind) -> bool {
    exists|i: int| 0 <= i < events.len() && (#[trigger] events[i]).bind == bind
}

/// The button `bind` stands in the groups before place `k` of group `g`.
spec fn came_before(groups: Seq<(u8, Seq<Bind>)>, g: int, k: int, bind: Bind) -> bool {
    exists|h: int, j: int|
        0 <= h < groups.len() && 0 <= j < groups[h].1.len() && #[trigger] groups[h].1[j] == bind
            && (h < g || (h == g && j < k))
}

/// What holds of the events while the groups are walked, on reaching place `k`
/// of group `g`: they are the changes of the buttons that came before.
spec fn button_pass(
    events: Seq<NativeEvent>,
    groups: Seq<(u8, Seq<Bind>)>,
    g: int,
    k: int,
    mapping: Map<Bind, InputType>,
    prev: Seq<u8>,
    next: Seq<u8>,
) -> bool {
    &&& forall|i: int|
        0 <= i < events.len() ==> {
            &&& came_before(groups, g, k, (#[trigger] events[i]).bind)
            &&& mapping.contains_key(events[i].bind)
            &&& mapping[events[i].bind] is Button
            &&& expected(mapping[events[i].bind], prev, next) == Some(events[i].state)
        }
    &&& forall|i: int, j: int|
        0 <= i < j < events.len() ==> (#[trigger] events[i]).bind != (#[trigger] events[j]).bind
    &&& forall|bind: Bind|
        #[trigger] came_before(groups, g, k, bind) && mapping.contains_key(bind) && expected(
            mapping[bind],
            prev,
            next,
        ) is Some ==> reports(events, bind)
}

/// One place further, one more button has come before.
proof fn lemma_came_before_step(groups: Seq<(u8, Seq<Bind>)>, g: int, k: int)
    requires
        0 <= g < groups.len(),
        0 <= k < groups[g].1.len(),
    ensures
        forall|bind: Bind|
            came_before(groups, g, k + 1, bind) <==> came_before(groups, g, k, bind) || bind
                == groups[g].1[k],
{
    assert forall|bind: Bind|
        came_before(groups, g, k + 1, bind) <==> came_before(groups, g, k, bind) || bind
            == groups[g].1[k] by {
        if came_before(groups, g, k, bind) {
            let (h, j) = choose|h: int, j: int|
                0 <= h < groups.len() && 0 <= j < groups[h].1.len() && #[trigger] groups[h].1[j]
                    == bind && (h < g || (h == g && j < k));
            assert(groups[h].1[j] == bind && (h < g || (h == g && j < k + 1)));
        }
        if bind == groups[g].1[k] {
            assert(groups[g].1[k] == bind && (g < g || (g == g && k < k + 1)));
        }
    }
}

/// The end of one group is the start of the next.
proof fn lemma_came_before_wrap(groups: Seq<(u8, Seq<Bind>)>, g: int)
    requires
        0 <= g < groups.len(),
    ensures
        forall|bind: Bind|
            came_before(groups, g + 1, 0, bind) <==> came_before(
                groups,
                g,
                groups[g].1.len() as int,
                bind,
            ),
{
    let n = groups[g].1.len() as int;
    assert forall|bind: Bind|
        came_before(groups, g + 1, 0, bind) <==> came_before(groups, g, n, bind) by {
        if came_before(groups, g + 1, 0, bind) {
            let (h, j) = choose|h: int, j: int|
                0 <= h < groups.len() && 0 <= j < groups[h].1.len() && #[trigger] groups[h].1[j]
                    == bind && (h < g + 1 || (h == g + 1 && j < 0));
            assert(groups[h].1[j] == bind && (h < g || (h == g && j < n)));
        }
        if came_before(groups, g, n, bind) {
            let (h, j) = choose|h: int, j: int|
                0 <= h < groups.len() && 0 <= j < groups[h].1.len() && #[trigger] groups[h].1[j]
                    == bind && (h < g || (h == g && j < n));
            assert(groups[h].1[j] == bind && (h < g + 1 || (h == g + 1 && j < 0)));
        }
    }
}

/// A button that did not change is passed without an event.
proof fn lemma_pass_skip(
    events: Seq<NativeEvent>,
    groups: Seq<(u8, Seq<Bind>)>,
    g: int,
    k: int,
    mapping: Map<Bind, InputType>,
    prev: Seq<u8>,
    next: Seq<u8>,
)
    requires
        button_pass(events, groups, g, k, mapping, prev, next),
        0 <= g < groups.len(),
        0 <= k < groups[g].1.len(),
        mapping.contains_key(groups[g].1[k]) ==> expected(mapping[groups[g].1[k]], prev, next)
            is None,
    ensures
        button_pass(events, groups, g, k + 1, mapping, prev, next),
{
    lemma_came_before_step(groups, g, k);
    assert forall|i: int| 0 <= i < events.len() implies came_before(
        groups,
        g,
        k + 1,
        (#[trigger] events[i]).bind,
    ) by {
        assert(came_before(groups, g, k, events[i].bind));
    }
    assert forall|bind: Bind|
        #[trigger] came_before(groups, g, k + 1, bind) && mapping.contains_key(bind) && expected(
            mapping[bind],
            prev,
            next,
        ) is Some implies reports(events, bind) by {
        assert(came_before(groups, g, k, bind));
    }
}

/// A button that changed is passed with its event.
proof fn lemma_pass_push(
    events: Seq<NativeEvent>,
    groups: Seq<(u8, Seq<Bind>)>,
    g: int,
    k: int,
    mapping: Map<Bind, InputType>,
    prev: Seq<u8>,
    next: Seq<u8>,
    state: BindingEvent,
)
    requires
        button_pass(events, groups, g, k, mapping, prev, next),
        groups_wf(groups),
        forall|o: u8, b: Bind| listed(groups, o, b) <==> consults(mapping, b, o),
        0 <= g < groups.len(),
        0 <= k < groups[g].1.len(),
        mapping.contains_key(groups[g].1[k]),
        mapping[groups[g].1[k]] is Button,
        expected(mapping[groups[g].1[k]], prev, next) == Some(state),
    ensures
        button_pass(
            events.push(NativeEvent { bind: groups[g].1[k], state }),
            groups,
            g,
            k + 1,
            mapping,
            prev,
            next,
        ),
{
    let bind = groups[g].1[k];
    let grown = events.push(NativeEvent { bind, state });
    lemma_came_before_step(groups, g, k);
    assert(!came_before(groups, g, k, bind)) by {
        if came_before(groups, g, k, bind) {
            let (h, j) = choose|h: int, j: int|
                0 <= h < groups.len() && 0 <= j < groups[h].1.len() && #[trigger] groups[h].1[j]
                    == bind && (h < g || (h == g && j < k));
            if h == g {
                assert(groups[g].1.no_duplicates());
            } else {
                assert(groups[h].1.contains(bind));
                assert(groups[g].1.contains(bind));
                assert(listed(groups, groups[h].0, bind));
                assert(listed(groups, groups[g].0, bind));
                assert(consults(mapping, bind, groups[h].0));
                assert(consults(mapping, bind, groups[g].0));
                assert(groups[h].0 != groups[g].0);
            }
        }
    }
    assert forall|i: int| 0 <= i < grown.len() implies {
        &&& came_before(groups, g, k + 1, (#[trigger] grown[i]).bind)
        &&& mapping.contains_key(grown[i].bind)
        &&& mapping[grown[i].bind] is Button
        &&& expected(mapping[grown[i].bind], prev, next) == Some(grown[i].state)
    } by {
        if i < events.len() {
            assert(grown[i] == events[i]);
            assert(came_before(groups, g, k, events[i].bind));
        }
    }
    assert forall|i: int, j: int| 0 <= i < j < grown.len() implies (#[trigger] grown[i]).bind != (
    #[trigger] grown[j]).bind by {
        assert(grown[i] == events[i]);
        assert(came_before(groups, g, k, events[i].bind));
        if j < events.len() {
            assert(grown[j] == events[j]);
        }
    }
    assert forall|b: Bind|
        #[trigger] came_before(groups, g, k + 1, b) && mapping.contains_key(b) && expected(
            mapping[b],
            prev,
            next,
        ) is Some implies reports(grown, b) by {
        if b == bind {
            assert(grown[events.len() as int].bind == b);
        } else {
            assert(came_before(groups, g, k, b));
            let i = choose|i: int| 0 <= i < events.len() && (#[trigger] events[i]).bind == b;
            assert(grown[i].bind == b);
        }
    }
}

/// A group whose byte did not change is passed as a whole, without events.
proof fn lemma_pass_skip_group(
    events: Seq<NativeEvent>,
    groups: Seq<(u8, Seq<Bind>)>,
    g: int,
    k: int,
    mapping: Map<Bind, InputType>,
    prev: Seq<u8>,
    next: Seq<u8>,
)
    requires
        button_pass(events, groups, g, k, mapping, prev, next),
        forall|o: u8, b: Bind| listed(groups, o, b) <==> consults(mapping, b, o),
        0 <= g < groups.len(),
        0 <= k <= groups[g].1.len(),
        prev[groups[g].0 as int] == next[groups[g].0 as int],
    ensures
        button_pass(events, groups, g, groups[g].1.len() as int, mapping, prev, next),
    decreases groups[g].1.len() - k,
{
    if k < groups[g].1.len() {
        let bind = groups[g].1[k];
        assert(groups[g].1.contains(bind));
        assert(listed(groups, groups[g].0, bind));
        assert(consults(mapping, bind, groups[g].0));
        lemma_pass_skip(events, groups, g, k, mapping, prev, next);
        lemma_pass_skip_group(events, groups, g, k + 1, mapping, prev, next);
    }
}

/// From the end of one group the walk goes on at the start of the next.
proof fn lemma_pass_wrap(
    events: Seq<NativeEvent>,
    groups: Seq<(u8, Seq<Bind>)>,
    g: int,
    mapping: Map<Bind, InputType>,
    prev: Seq<u8>,
    next: Seq<u8>,
)
    requires
        button_pass(events, groups, g, groups[g].1.len() as int, mapping, prev, next),
        0 <= g < groups.len(),
    ensures
        button_pass(events, groups, g + 1, 0, mapping, prev, next),
{
    lemma_came_before_wrap(groups, g);
    let n = groups[g].1.len() as int;
    assert forall|i: int| 0 <= i < events.len() implies came_before(
        groups,
        g + 1,
        0,
        (#[trigger] events[i]).bind,
    ) by {
        assert(came_before(groups, g, n, events[i].bind));
    }
    assert forall|bind: Bind|
        #[trigger] came_before(groups, g + 1, 0, bind) && mapping.contains_key(bind) && expected(
            mapping[bind],
            prev,
            next,
        ) is Some implies reports(events, bind) by {
        assert(came_before(groups, g, n, bind));
    }
}

/// The button pass: walks the index group by group, skips every group whose
/// byte did not change, and reports each button of the others that changed.
fn button_changes(
    prev: &[u8],
    next: &[u8],
    device_map: &DeviceMap,
    buffer_map: &BufferMap,
) -> (events: Vec<NativeEvent>)
    requires
        prev@.len() == 256,
        next@.len() == 256,
        device_map.wf(),
        buffer_map.wf(),
        buffer_map@ == inverted(device_map@),
    ensures
        button_pass(
            events@,
            buffer_map.groups(),
            buffer_map.groups().len() as int,
            0,
            device_map@,
            prev@,
            next@,
        ),
{
    let groups = buffer_map.iter();
    let ghost listing = groups_of(groups@);
    let mut events: Vec<NativeEvent> = Vec::new();
    proof {
        crate::buffers::lemma_listed_consults(listing, device_map@);
    }
    let mut g: usize = 0;
    while g < groups.len()
        invariant
            0 <= g <= groups.len(),
            prev@.len() == 256,
            next@.len() == 256,
            device_map.wf(),
            listing == groups_of(groups@),
            groups_wf(listing),
            forall|o: u8, b: Bind| listed(listing, o, b) <==> consults(device_map@, b, o),
            button_pass(events@, listing, g as int, 0, device_map@, prev@, next@),
        decreases groups.len() - g,
    {
        let offset = groups[g].0;
        let last = prev[offset as usize];
        let new = next[offset as usize];
        if last == new {
            proof {
                lemma_pass_skip_group(events@, listing, g as int, 0, device_map@, prev@, next@);
            }
        } else {
            let binds = &groups[g].1;
            let mut k: usize = 0;
            while k < binds.len()
                invariant
                    0 <= g < groups.len(),
                    0 <= k <= binds.len(),
                    prev@.len() == 256,
                    next@.len() == 256,
                    device_map.wf(),
                    listing == groups_of(groups@),
                    binds@ == listing[g as int].1,
                    offset == listing[g as int].0,
                    last == prev@[offset as int],
                    new == next@[offset as int],
                    groups_wf(listing),
                    forall|o: u8, b: Bind| listed(listing, o, b) <==> consults(device_map@, b, o),
                    button_pass(events@, listing, g as int, k as int, device_map@, prev@, next@),
                decreases binds.len() - k,
            {
                let bind = binds[k];
                proof {
                    assert(listing[g as int].1.contains(bind));
                    assert(listed(listing, offset, bind));
                    assert(consults(device_map@, bind, offset));
                }
                let found = device_map.get(&bind);
                if let Some(input) = found {
                    if let InputType::Button(ptr) = *input {
                        let pressed_new = check_button(new, &ptr);
                        let pressed_last = check_button(last, &ptr);
                        if pressed_new != pressed_last {
                            let state = if pressed_new {
                                BindingEvent::Pressed
                            } else {
                                BindingEvent::Released
                            };
                            proof {
                                lemma_pass_push(
                                    events@,
                                    listing,
                                    g as int,
                                    k as int,
                                    device_map@,
                                    prev@,
                                    next@,
                                    state,
                                );
                            }
                            events.push(NativeEvent { bind, state });
                        } else {
                            proof {
                                lemma_pass_skip(
                                    events@,
                                    listing,
                                    g as int,
                                    k as int,
                                    device_map@,
                                    prev@,
                                    next@,
                                );
                            }
                        }
                    } else {
                        proof {
                            assert(false);
                        }
                    }
                } else {
                    proof {
                        assert(false);
                    }
                }
                k += 1;
            }
        }
        proof {
            lemma_pass_wrap(events@, listing, g as int, device_map@, prev@, next@);
        }
        g += 1;
    }
    events
}

/// One of the first `t` entries is for `bind`.
spec fn key_before(entries: Seq<(Bind, InputType)>, t: int, bind: Bind) -> bool {
    exists|u: int| 0 <= u < t && (#[trigger] entries[u]).0 == bind
}

/// What holds of the events while the entries are walked for their axes, on
/// reaching entry `t`: they are the changes of all the buttons and of the axes
/// among the entries before.
spec fn axis_pass(
    events: Seq<NativeEvent>,
    entries: Seq<(Bind, InputType)>,
    t: int,
    mapping: Map<Bind, InputType>,
    prev: Seq<u8>,
    next: Seq<u8>,
) -> bool {
    &&& forall|i: int|
        0 <= i < events.len() ==> {
            &&& mapping.contains_key((#[trigger] events[i]).bind)
            &&& expected(mapping[events[i].bind], prev, next) == Some(events[i].state)
            &&& mapping[events[i].bind] is Axis ==> key_before(entries, t, events[i].bind)
        }
    &&& forall|i: int, j: int|
        0 <= i < j < events.len() ==> (#[trigger] events[i]).bind != (#[trigger] events[j]).bind
    &&& forall|bind: Bind|
        mapping.contains_key(bind) && (#[trigger] mapping[bind]) is Button && expected(
            mapping[bind],
            prev,
            next,
        ) is Some ==> reports(events, bind)
    &&& forall|u: int|
        0 <= u < t && (#[trigger] entries[u]).1 is Axis && expected(entries[u].1, prev, next)
            is Some ==> reports(events, entries[u].0)
    &&& forall|i: int, j: int|
        0 <= i < j < events.len() && (#[trigger] events[i]).state is Value ==> (
        #[trigger] events[j]).state is Value
}

/// When all the groups are walked, the axis pass can start.
proof fn lemma_axis_start(
    events: Seq<NativeEvent>,
    groups: Seq<(u8, Seq<Bind>)>,
    entries: Seq<(Bind, InputType)>,
    prev: Seq<u8>,
    next: Seq<u8>,
)
    requires
        button_pass(events, groups, groups.len() as int, 0, map_of(entries), prev, next),
        forall|o: u8, b: Bind| listed(groups, o, b) <==> consults(map_of(entries), b, o),
    ensures
        axis_pass(events, entries, 0, map_of(entries), prev, next),
{
    let mapping = map_of(entries);
    assert forall|bind: Bind|
        mapping.contains_key(bind) && (#[trigger] mapping[bind]) is Button && expected(
            mapping[bind],
            prev,
            next,
        ) is Some implies reports(events, bind) by {
        let offset = mapping[bind]->Button_0.0;
        assert(consults(mapping, bind, offset));
        assert(listed(groups, offset, bind));
        let g = choose|g: int|
            0 <= g < groups.len() && (#[trigger] groups[g]).0 == offset && groups[g].1.contains(
                bind,
            );
        let j = choose|j: int| 0 <= j < groups[g].1.len() && groups[g].1[j] == bind;
        assert(groups[g].1[j] == bind);
        assert(came_before(groups, groups.len() as int, 0, bind));
    }
}

/// An entry that is a button, or an axis that did not change, is passed
/// without an event.
proof fn lemma_axis_skip(
    events: Seq<NativeEvent>,
    entries: Seq<(Bind, InputType)>,
    t: int,
    prev: Seq<u8>,
    next: Seq<u8>,
)
    requires
        axis_pass(events, entries, t, map_of(entries), prev, next),
        0 <= t < entries.len(),
        entries[t].1 is Button || expected(entries[t].1, prev, next) is None,
    ensures
        axis_pass(events, entries, t + 1, map_of(entries), prev, next),
{
    let mapping = map_of(entries);
    assert forall|i: int|
        0 <= i < events.len() && mapping[(#[trigger] events[i]).bind] is Axis implies key_before(
        entries,
        t + 1,
        events[i].bind,
    ) by {
        assert(key_before(entries, t, events[i].bind));
        let u = choose|u: int| 0 <= u < t && (#[trigger] entries[u]).0 == events[i].bind;
        assert(0 <= u < t + 1 && entries[u].0 == events[i].bind);
    }
}

/// An axis that changed is passed with its event.
proof fn lemma_axis_push(
    events: Seq<NativeEvent>,
    entries: Seq<(Bind, InputType)>,
    t: int,
    prev: Seq<u8>,
    next: Seq<u8>,
    value: AxisValue,
)
    requires
        axis_pass(events, entries, t, map_of(entries), prev, next),
        distinct_keys(entries),
        0 <= t < entries.len(),
        entries[t].1 is Axis,
        expected(entries[t].1, prev, next) == Some(BindingEvent::Value(value)),
    ensures
        axis_pass(
            events.push(NativeEvent { bind: entries[t].0, state: BindingEvent::Value(value) }),
            entries,
            t + 1,
            map_of(entries),
            prev,
            next,
        ),
{
    let mapping = map_of(entries);
    let bind = entries[t].0;
    let grown = events.push(NativeEvent { bind, state: BindingEvent::Value(value) });
    lemma_map_of_entry(entries, t);
    assert(0 <= t < t + 1 && entries[t].0 == bind);
    assert forall|i: int| 0 <= i < events.len() implies (#[trigger] events[i]).bind != bind by {
        if events[i].bind == bind {
            assert(key_before(entries, t, bind));
            let u = choose|u: int| 0 <= u < t && (#[trigger] entries[u]).0 == bind;
            assert(entries[u].0 != entries[t].0);
        }
    }
    assert forall|i: int| 0 <= i < grown.len() implies {
        &&& mapping.contains_key((#[trigger] grown[i]).bind)
        &&& expected(mapping[grown[i].bind], prev, next) == Some(grown[i].state)
        &&& mapping[grown[i].bind] is Axis ==> key_before(entries, t + 1, grown[i].bind)
    } by {
        if i < events.len() {
            assert(grown[i] == events[i]);
            if mapping[events[i].bind] is Axis {
                assert(key_before(entries, t, events[i].bind));
                let u = choose|u: int| 0 <= u < t && (#[trigger] entries[u]).0 == events[i].bind;
                assert(0 <= u < t + 1 && entries[u].0 == events[i].bind);
            }
        }
    }
    assert forall|i: int, j: int| 0 <= i < j < grown.len() implies (#[trigger] grown[i]).bind != (
    #[trigger] grown[j]).bind by {
        assert(grown[i] == events[i]);
        if j < events.len() {
            assert(grown[j] == events[j]);
        }
    }
    assert forall|b: Bind|
        mapping.contains_key(b) && (#[trigger] mapping[b]) is Button && expected(
            mapping[b],
            prev,
            next,
        ) is Some implies reports(grown, b) by {
        assert(reports(events, b));
        let i = choose|i: int| 0 <= i < events.len() && (#[trigger] events[i]).bind == b;
        assert(grown[i].bind == b);
    }
    assert forall|u: int|
        0 <= u < t + 1 && (#[trigger] entries[u]).1 is Axis && expected(entries[u].1, prev, next)
            is Some implies reports(grown, entries[u].0) by {
        if u < t {
            assert(reports(events, entries[u].0));
            let i = choose|i: int|
                0 <= i < events.len() && (#[trigger] events[i]).bind == entries[u].0;
            assert(grown[i].bind == entries[u].0);
        } else {
            assert(grown[events.len() as int].bind == entries[u].0);
        }
    }
    assert forall|i: int, j: int|
        0 <= i < j < grown.len() && (#[trigger] grown[i]).state is Value implies (
    #[trigger] grown[j]).state is Value by {
        assert(grown[i] == events[i]);
        if j < events.len() {
            assert(grown[j] == events[j]);
        }
    }
}

/// When all the entries are walked, the events are the changes between the reports.
proof fn lemma_axis_end(
    events: Seq<NativeEvent>,
    entries: Seq<(Bind, InputType)>,
    prev: Seq<u8>,
    next: Seq<u8>,
)
    requires
        axis_pass(events, entries, entries.len() as int, map_of(entries), prev, next),
        distinct_keys(entries),
    ensures
        decodes(events, map_of(entries), prev, next),
{
    let mapping = map_of(entries);
    assert forall|bind: Bind|
        mapping.contains_key(bind) && expected(#[trigger] mapping[bind], prev, next)
            is Some implies reports(events, bind) by {
        if mapping[bind] is Axis {
            lemma_map_of_dom(entries, bind);
            let u = choose|u: int| 0 <= u < entries.len() && (#[trigger] entries[u]).0 == bind;
            lemma_map_of_entry(entries, u);
            assert(entries[u].1 is Axis);
        }
    }
}

/// The changes between two successive reports of one device: for every button
/// whose pressed state differs an event that says which way it went, and for
/// every axis of which a byte differs an event with its new normalized value.
/// Buttons are reported before axes.
pub fn step(
    prev: &HidBuffer,
    next: &HidBuffer,
    device_map: &DeviceMap,
    buffer_map: &BufferMap,
) -> (events: Vec<NativeEvent>)
    requires
        device_map.wf(),
        axes_valid(device_map@),
        buffer_map.wf(),
        buffer_map@ == inverted(device_map@),
    ensures
        decodes(events@, device_map@, prev.0@, next.0@),
        prev.0@ == next.0@ ==> events@.len() == 0,
{
    let prev_bytes = prev.0.as_slice();
    let next_bytes = next.0.as_slice();
    let mut events = button_changes(prev_bytes, next_bytes, device_map, buffer_map);
    let entries = device_map.iter();
    proof {
        crate::buffers::lemma_listed_consults(buffer_map.groups(), device_map@);
        lemma_axis_start(events@, buffer_map.groups(), entries@, prev_bytes@, next_bytes@);
    }
    let mut t: usize = 0;
    while t < entries.len()
        invariant
            0 <= t <= entries.len(),
            prev_bytes@.len() == 256,
            next_bytes@.len() == 256,
            distinct_keys(entries@),
            axes_valid(map_of(entries@)),
            axis_pass(events@, entries@, t as int, map_of(entries@), prev_bytes@, next_bytes@),
        decreases entries.len() - t,
    {
        let (bind, input) = entries[t];
        proof {
            lemma_map_of_entry(entries@, t as int);
        }
        match input {
            InputType::Axis(ptr) => {
                match proccess_axis(&ptr, next_bytes, prev_bytes) {
                    Some(value) => {
                        proof {
                            lemma_axis_push(
                                events@,
                                entries@,
                                t as int,
                                prev_bytes@,
                                next_bytes@,
                                value,
                            );
                        }
                        events.push(NativeEvent { bind, state: BindingEvent::Value(value) });
                    },
                    None => {
                        proof {
                            lemma_axis_skip(events@, entries@, t as int, prev_bytes@, next_bytes@);
                        }
                    },
                }
            },
            InputType::Button(_) => {
                proof {
                    lemma_axis_skip(events@, entries@, t as int, prev_bytes@, next_bytes@);
                }
            },
        }
        t += 1;
    }
    proof {
        lemma_axis_end(events@, entries@, prev_bytes@, next_bytes@);
        if prev.0@ == next.0@ {
            lemma_same_report_is_silent(events@, device_map@, prev.0@);
        }
    }
    events
}

/// The changes between the last report of a device and a new one; none where
/// either is missing.
pub fn transcode_device(
    cfg: &DeviceMap,
    map: &BufferMap,
    buf_new: Option<&HidBuffer>,
    buf_last: Option<&HidBuffer>,
) -> (events: Vec<NativeEvent>)
    requires
        cfg.wf(),
        axes_valid(cfg@),
        map.wf(),
        map@ == inverted(cfg@),
    ensures
        match (buf_last, buf_new) {
            (Some(last), Some(new)) => decodes(events@, cfg@, last.0@, new.0@),
            _ => events@.len() == 0,
        },
{
    match (buf_last, buf_new) {
        (Some(last), Some(new)) => step(last, new, cfg, map),
        _ => Vec::new(),
    }
}

/// A report that equals the one before it yields no events, whatever the mapping.
pub proof fn lemma_same_report_is_silent(
    events: Seq<NativeEvent>,
    mapping: Map<Bind, InputType>,
    report: Seq<u8>,
)
    requires
        decodes(events, mapping, report, report),
    ensures
        events.len() == 0,
{
    if events.len() > 0 {
        let bind = events[0].bind;
        assert(expected(mapping[bind], report, report) == Some(events[0].state));
    }
}

/// Of a button of the mapping, the events hold one event where its pressed
/// state differs between the two reports and none where it does not; that
/// event says `Pressed` exactly when the button is pressed in the new report.
pub proof fn lemma_button_events(
    events: Seq<NativeEvent>,
    mapping: Map<Bind, InputType>,
    prev: Seq<u8>,
    next: Seq<u8>,
    bind: Bind,
)
    requires
        decodes(events, mapping, prev, next),
        mapping.contains_key(bind),
        mapping[bind] is Button,
    ensures
        ({
            let ptr = mapping[bind]->Button_0;
            let was = ptr.1.pressed(prev[ptr.0 as int]);
            let is = ptr.1.pressed(next[ptr.0 as int]);
            &&& reports(events, bind) <==> was != is
            &&& forall|i: int, j: int|
                0 <= i < events.len() && 0 <= j < events.len() && (#[trigger] events[i]).bind
                    == bind && (#[trigger] events[j]).bind == bind ==> i == j
            &&& forall|i: int|
                0 <= i < events.len() && (#[trigger] events[i]).bind == bind ==> events[i].state
                    == if is {
                    BindingEvent::Pressed
                } else {
                    BindingEvent::Released
                }
            &&& events.filter(|event: NativeEvent| event.bind == bind).len() == if was != is {
                1nat
            } else {
                0nat
            }
        }),
{
    let ptr = mapping[bind]->Button_0;
    let was = ptr.1.pressed(prev[ptr.0 as int]);
    let is = ptr.1.pressed(next[ptr.0 as int]);
    if reports(events, bind) {
        let i = choose|i: int| 0 <= i < events.len() && (#[trigger] events[i]).bind == bind;
        assert(expected(mapping[bind], prev, next) == Some(events[i].state));
    }
    assert forall|i: int, j: int|
        0 <= i < events.len() && 0 <= j < events.len() && (#[trigger] events[i]).bind == bind && (
        #[trigger] events[j]).bind == bind implies i == j by {
        if i < j {
            assert(events[i].bind != events[j].bind);
        }
        if j < i {
            assert(events[j].bind != events[i].bind);
        }
    }
    lemma_count_of_bind(events, bind);
}

/// Where no two events are about the same input, the events about one input
/// are one or none.
pub proof fn lemma_count_of_bind(events: Seq<NativeEvent>, bind: Bind)
    requires
        forall|i: int, j: int|
            0 <= i < j < events.len() ==> (#[trigger] events[i]).bind != (#[trigger] events[j]).bind,
    ensures
        events.filter(|event: NativeEvent| event.bind == bind).len() == if reports(events, bind) {
            1nat
        } else {
            0nat
        },
    decreases events.len(),
{
    let about = |event: NativeEvent| event.bind == bind;
    reveal(Seq::filter);
    if events.len() > 0 {
        let front = events.drop_last();
        assert forall|i: int, j: int| 0 <= i < j < front.len() implies (#[trigger] front[i]).bind
            != (#[trigger] front[j]).bind by {
            assert(events[i].bind != events[j].bind);
        }
        lemma_count_of_bind(front, bind);
        if reports(front, bind) {
            let i = choose|i: int| 0 <= i < front.len() && (#[trigger] front[i]).bind == bind;
            assert(events[i].bind == bind);
            assert(events[i].bind != events[events.len() - 1].bind);
        }
        if reports(events, bind) {
            let i = choose|i: int| 0 <= i < events.len() && (#[trigger] events[i]).bind == bind;
            if i < events.len() - 1 {
                assert(front[i].bind == bind);
            }
        }
        if events.last().bind == bind {
            assert(events[events.len() - 1].bind == bind);
        }
    }
}

} // verus!
