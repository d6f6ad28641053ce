use crate::bindings::Bind;
use crate::device::{lemma_map_of_dom, lemma_map_of_entry, DeviceMap};
use crate::input::InputType;
use vstd::prelude::*;

verus! {

/// Why a mapping is turned down.
#[derive(Debug, Clone, Copy, PartialEq, Eq, Structural)]
pub enum MappingValidationError {
    /// An axis has no octaves, so its range is empty.
    ZeroOctaves { axis: Bind },
    /// Two buttons are read from the same byte by the same query: one change
    /// would be reported twice.
    DuplicateButton { first: Bind, second: Bind },
}

/// Every axis of the mapping has at least one octave.
pub open spec fn axes_valid(mapping: Map<Bind, InputType>) -> bool {
    forall|bind: Bind|
        mapping.contains_key(bind) ==> (#[trigger] mapping[bind] matches InputType::Axis(ptr)
            ==> ptr.valid())
}

/// Two different buttons of the mapping are read in exactly the same way.
pub open spec fn shares_pointer(mapping: Map<Bind, InputType>, first: Bind, second: Bind) -> bool {
    &&& first != second
    &&& mapping.contains_key(first)
    &&& mapping.contains_key(second)
    &&& mapping[first] is Button
    &&& mapping[first] == mapping[second]
}

/// No two buttons of the mapping are read in exactly the same way. Buttons
/// may share a byte as long as their queries differ.
pub open spec fn buttons_distinct(mapping: Map<Bind, InputType>) -> bool {
    forall|first: Bind, second: Bind| !shares_pointer(mapping, first, second)
}

/// What a mapping must meet before a device is decoded with it.
pub open spec fn valid_mapping(mapping: Map<Bind, InputType>) -> bool {
    axes_valid(mapping) && buttons_distinct(mapping)
}

impl MappingValidationError {
    /// The fault that the error names is in the mapping. A pair of buttons is
    /// only named where no axis is at fault.
    pub open spec fn found_in(self, mapping: Map<Bind, InputType>) -> bool {
        match self {
            MappingValidationError::ZeroOctaves { axis } => {
                &&& mapping.contains_key(axis)
                &&& mapping[axis] matches InputType::Axis(ptr)
                &&& ptr.octaves == 0
            },
            MappingValidationError::DuplicateButton { first, second } => {
                &&& axes_valid(mapping)
                &&& shares_pointer(mapping, first, second)
            },
        }
    }
}

impl DeviceMap {
    /// Checks the mapping: every axis has an octave, and no two buttons are
    /// read in exactly the same way. An axis without octaves is named before
    /// any pair of buttons.
    pub fn validate(&self) -> (checked: Result<(), MappingValidationError>)
        requires
            self.wf(),
        ensures
            checked is Ok <==> valid_mapping(self@),
            checked matches Err(error) ==> error.found_in(self@),
    {
        let entries = self.iter();
        let mut t: usize = 0;
        while t < entries.len()
            invariant
                0 <= t <= entries.len(),
                entries@ == self.entries(),
                self.wf(),
                forall|u: int|
                    0 <= u < t ==> ((#[trigger] entries@[u]).1 matches InputType::Axis(ptr)
                        ==> ptr.valid()),
            decreases entries.len() - t,
        {
            let (bind, input) = entries[t];
            if let InputType::Axis(ptr) = input {
                if ptr.octaves == 0 {
                    proof {
                        lemma_map_of_entry(entries@, t as int);
                    }
                    return Err(MappingValidationError::ZeroOctaves { axis: bind });
                }
            }
            t += 1;
        }
        proof {
            assert forall|bind: Bind| self@.contains_key(bind) implies (
            #[trigger] self@[bind] matches InputType::Axis(ptr) ==> ptr.valid()) by {
                lemma_map_of_dom(entries@, bind);
                let u = choose|u: int| 0 <= u < entries@.len() && (#[trigger] entries@[u]).0 == bind;
                lemma_map_of_entry(entries@, u);
            }
        }
        let mut i: usize = 0;
        while i < entries.len()
            invariant
                0 <= i <= entries.len(),
                entries@ == self.entries(),
                self.wf(),
                axes_valid(self@),
                forall|a: int, b: int|
                    0 <= a < b < entries.len() && a < i && (#[trigger] entries@[a]).1 is Button
                        ==> entries@[a].1 != (#[trigger] entries@[b]).1,
            decreases entries.len() - i,
        {
            let (first, input) = entries[i];
            if let InputType::Button(ptr) = input {
                let mut j: usize = i + 1;
                while j < entries.len()
                    invariant
                        0 <= i < j <= entries.len(),
                        entries@ == self.entries(),
                        self.wf(),
                        axes_valid(self@),
                        entries@[i as int] == (first, InputType::Button(ptr)),
                        forall|b: int| i < b < j ==> (#[trigger] entries@[b]).1 != entries@[i as int].1,
                    decreases entries.len() - j,
                {
                    let (second, other) = entries[j];
                    if let InputType::Button(twin) = other {
                        if twin == ptr {
                            proof {
                                lemma_map_of_entry(entries@, i as int);
                                lemma_map_of_entry(entries@, j as int);
                                assert(entries@[i as int].0 != entries@[j as int].0);
                                assert(shares_pointer(self@, first, second));
                            }
                            return Err(
                                MappingValidationError::DuplicateButton { first, second },
                            );
                        }
                    }
                    j += 1;
                }
            }
            i += 1;
        }
        proof {
            assert forall|first: Bind, second: Bind| !shares_pointer(self@, first, second) by {
                if shares_pointer(self@, first, second) {
                    lemma_map_of_dom(entries@, first);
                    lemma_map_of_dom(entries@, second);
                    let a = choose|a: int|
                        0 <= a < entries@.len() && (#[trigger] entries@[a]).0 == first;
                    let b = choose|b: int|
                        0 <= b < entries@.len() && (#[trigger] entries@[b]).0 == second;
                    lemma_map_of_entry(entries@, a);
                    lemma_map_of_entry(entries@, b);
                    if a < b {
                        assert(entries@[a].1 != entries@[b].1);
                    } else {
                        assert(entries@[b].1 != entries@[a].1);
                    }
                }
            }
        }
        Ok(())
    }
}

} // verus!
