use crate::bindings::Bind;
use crate::buffers::{inverted, BufferMap, HidBuffer};
use crate::device::{DeviceAsset, DeviceMap};
use crate::events::NativeEvent;
use crate::input::InputType;
use crate::systems::{decodes, step};
use crate::validation::{valid_mapping, MappingValidationError};
use vstd::prelude::*;

verus! {

/// A device mapping made ready for decoding: checked, and kept together with
/// its index by byte offset.
#[derive(Debug)]
pub struct HidAsset {
    name: String,
    input_mapping: DeviceMap,
    buffer_map: BufferMap,
}

impl HidAsset {
    /// The name, as a sequence of characters.
    pub closed spec fn spec_name(&self) -> Seq<char> {
        self.name@
    }

    /// The mapping.
    pub closed spec fn mapping(&self) -> Map<Bind, InputType> {
        self.input_mapping@
    }

    /// The index by byte offset.
    pub closed spec fn index(&self) -> Map<u8, Set<Bind>> {
        self.buffer_map@
    }

    /// The mapping is valid, and the index is that mapping turned round.
    pub closed spec fn wf(&self) -> bool {
        &&& self.input_mapping.wf()
        &&& self.buffer_map.wf()
        &&& valid_mapping(self.input_mapping@)
        &&& self.buffer_map@ == inverted(self.input_mapping@)
    }

    /// Checks the mapping of a device and indexes it. A mapping that is not
    /// valid is turned down as a whole.
    pub fn new(device: &DeviceAsset) -> (made: Result<HidAsset, MappingValidationError>)
        requires
            device.spec_mappings().wf(),
        ensures
            made is Ok <==> valid_mapping(device.spec_mappings()@),
            made matches Ok(asset) ==> {
                &&& asset.wf()
                &&& asset.spec_name() == device.spec_name()
                &&& asset.mapping() == device.spec_mappings()@
            },
            made matches Err(error) ==> error.found_in(device.spec_mappings()@),
    {
        match device.mappings().validate() {
            Ok(_) => {
                let input_mapping = device.mappings().clone();
                let buffer_map = BufferMap::from(&input_mapping);
                Ok(HidAsset { name: device.name().to_owned(), input_mapping, buffer_map })
            },
            Err(error) => Err(error),
        }
    }

    pub fn name(&self) -> (name: &str)
        ensures
            name@ == self.spec_name(),
    {
        self.name.as_str()
    }

    /// The mapping that the device is decoded with.
    pub fn input_mapping(&self) -> (input_mapping: &DeviceMap)
        requires
            self.wf(),
        ensures
            input_mapping.wf(),
            input_mapping@ == self.mapping(),
            valid_mapping(input_mapping@),
    {
        &self.input_mapping
    }

    /// The index of the mapping by byte offset.
    pub fn buffer_map(&self) -> (buffer_map: &BufferMap)
        requires
            self.wf(),
        ensures
            buffer_map.wf(),
            buffer_map@ == self.index(),
            buffer_map@ == inverted(self.mapping()),
    {
        &self.buffer_map
    }

    /// The changes between two successive reports of a device of this kind.
    pub fn decode(&self, prev: &HidBuffer, next: &HidBuffer) -> (events: Vec<NativeEvent>)
        requires
            self.wf(),
        ensures
            decodes(events@, self.mapping(), prev.0@, next.0@),
            prev.0@ == next.0@ ==> events@.len() == 0,
    {
        step(prev, next, &self.input_mapping, &self.buffer_map)
    }
}

impl Clone for HidAsset {
    fn clone(&self) -> (copy: Self)
        ensures
            copy.spec_name() == self.spec_name(),
            copy.mapping() == self.mapping(),
            copy.index() == self.index(),
            self.wf() ==> copy.wf(),
    {
        HidAsset {
            name: self.name.clone(),
            input_mapping: self.input_mapping.clone(),
            buffer_map: self.buffer_map.clone(),
        }
    }
}

} // verus!
