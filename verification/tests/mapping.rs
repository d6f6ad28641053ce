use bevy_hid::assets::HidAsset;
use bevy_hid::bindings::{Bind, BindId, BindType};
use bevy_hid::buffers::{BufferMap, HidBuffer};
use bevy_hid::device::{DeviceAsset, DeviceId, DeviceMap};
use bevy_hid::events::{BindingEvent, NativeEvent};
use bevy_hid::input::{AxisPointer, ButtonPointer, ButtonQuery, InputType};
use bevy_hid::validation::MappingValidationError;

fn button(id: u8) -> Bind {
    Bind::new(BindType::Button, BindId::Id(id))
}

fn bit(offset: u8, mask: u8) -> InputType {
    InputType::Button(ButtonPointer(offset, ButtonQuery::Bit(mask)))
}

fn axis(fine: u8, coarse: u8, octaves: u16) -> InputType {
    InputType::Axis(AxisPointer { fine, coarse, octaves, inverted: false, abs: false })
}

#[test]
fn bind_keeps_its_parts() {
    let bind = Bind::new(BindType::Thumbstick, BindId::Axis('y'));
    assert_eq!(bind.get_type(), BindType::Thumbstick);
    assert_eq!(bind.get_id(), BindId::Axis('y'));
    assert_ne!(bind, Bind::new(BindType::Thumbstick, BindId::Axis('x')));
}

#[test]
fn device_id_keeps_vendor_and_product() {
    let id = DeviceId::new(0x231d, 0x0200);
    assert_eq!(id.vendor_id, 0x231d);
    assert_eq!(id.product_id, 0x0200);
}

#[test]
fn device_asset_hands_back_what_it_was_made_of() {
    let map = DeviceMap::new(vec![(button(1), bit(2, 0x04))]);
    let asset = DeviceAsset::new("Stick".to_string(), 512, 8989, map);
    assert_eq!(asset.name(), "Stick");
    assert_eq!(asset.pid(), 512);
    assert_eq!(asset.vid(), 8989);
    assert_eq!(asset.mappings().len(), 1);
    assert_eq!(asset.mappings().get(&button(1)), Some(&bit(2, 0x04)));
    assert_eq!(DeviceId::from(&asset), DeviceId::new(8989, 512));
}

#[test]
fn device_map_looks_up_by_logical_input() {
    let map = DeviceMap::new(vec![(button(1), bit(0, 1)), (button(2), axis(1, 2, 4))]);
    assert_eq!(map.len(), 2);
    assert_eq!(map.get(&button(1)), Some(&bit(0, 1)));
    assert_eq!(map.get(&button(2)), Some(&axis(1, 2, 4)));
    assert_eq!(map.get(&button(3)), None);
    assert_eq!(map.iter(), &vec![(button(1), bit(0, 1)), (button(2), axis(1, 2, 4))]);
}

#[test]
fn later_entry_replaces_an_earlier_one() {
    let map = DeviceMap::new(vec![
        (button(1), bit(0, 1)),
        (button(2), bit(0, 2)),
        (button(1), bit(7, 0x80)),
    ]);
    assert_eq!(map.len(), 2);
    assert_eq!(map.get(&button(1)), Some(&bit(7, 0x80)));
    assert_eq!(map.get(&button(2)), Some(&bit(0, 2)));
}

#[test]
fn empty_device_map_has_nothing() {
    let map = DeviceMap::new(Vec::new());
    assert_eq!(map.len(), 0);
    assert_eq!(map.get(&button(1)), None);
    assert_eq!(BufferMap::from(&map).len(), 0);
}

#[test]
fn buffer_map_groups_buttons_by_offset() {
    let map = DeviceMap::new(vec![
        (button(1), bit(3, 0x01)),
        (button(2), bit(9, 0x01)),
        (button(3), bit(3, 0x02)),
        (button(4), axis(3, 4, 1)),
    ]);
    let index = BufferMap::from(&map);
    assert_eq!(index.len(), 2);
    let mut groups: Vec<(u8, Vec<Bind>)> = index.iter().clone();
    groups.sort_by_key(|group| group.0);
    assert_eq!(groups[0].0, 3);
    assert_eq!(groups[0].1.len(), 2);
    assert!(groups[0].1.contains(&button(1)));
    assert!(groups[0].1.contains(&button(3)));
    assert_eq!(groups[1], (9, vec![button(2)]));
}

#[test]
fn every_button_is_in_the_group_of_its_offset() {
    let entries: Vec<(Bind, InputType)> =
        (0..40u8).map(|n| (button(n), bit(n % 7, 1 << (n % 8)))).collect();
    let map = DeviceMap::new(entries.clone());
    let index = BufferMap::from(&map);
    assert_eq!(index.len(), 7);
    for (bind, input) in entries {
        let InputType::Button(ptr) = input else { panic!("only buttons were listed") };
        let holds = index
            .iter()
            .iter()
            .filter(|group| group.0 == ptr.0 && group.1.contains(&bind))
            .count();
        assert_eq!(holds, 1);
    }
}

#[test]
fn axes_are_not_indexed() {
    let map = DeviceMap::new(vec![(button(1), axis(3, 4, 1))]);
    assert_eq!(BufferMap::from(&map).len(), 0);
}

#[test]
fn default_buffer_is_all_zeros() {
    let buffer = HidBuffer::default();
    assert_eq!(buffer.0.len(), 256);
    assert!(buffer.0.iter().all(|byte| *byte == 0));
}

#[test]
fn a_read_is_padded_with_zeros() {
    let buffer = HidBuffer::from_read(&[1, 2, 3]).unwrap();
    assert_eq!(&buffer.0[..4], &[1, 2, 3, 0]);
    assert!(buffer.0[4..].iter().all(|byte| *byte == 0));
    let full = HidBuffer::from_read(&[7u8; 256]).unwrap();
    assert!(full.0.iter().all(|byte| *byte == 7));
}

#[test]
fn an_empty_or_overlong_read_makes_no_report() {
    assert_eq!(HidBuffer::from_read(&[]), None);
    assert_eq!(HidBuffer::from_read(&[0u8; 257]), None);
}

#[test]
fn buttons_may_share_a_byte() {
    let map = DeviceMap::new(vec![
        (button(1), bit(3, 0x01)),
        (button(2), bit(3, 0x02)),
        (button(3), InputType::Button(ButtonPointer(3, ButtonQuery::Eq(0x01)))),
        (button(4), axis(0, 1, 1)),
    ]);
    assert_eq!(map.validate(), Ok(()));
}

#[test]
fn an_axis_without_octaves_is_turned_down() {
    let map = DeviceMap::new(vec![(button(1), bit(3, 0x01)), (button(2), axis(0, 1, 0))]);
    assert_eq!(map.validate(), Err(MappingValidationError::ZeroOctaves { axis: button(2) }));
}

#[test]
fn two_buttons_read_alike_are_turned_down() {
    let map = DeviceMap::new(vec![
        (button(1), bit(3, 0x01)),
        (button(2), bit(4, 0x01)),
        (button(3), bit(3, 0x01)),
    ]);
    assert_eq!(
        map.validate(),
        Err(MappingValidationError::DuplicateButton { first: button(1), second: button(3) })
    );
}

#[test]
fn an_axis_at_fault_is_named_before_a_pair_of_buttons() {
    let map = DeviceMap::new(vec![
        (button(1), bit(3, 0x01)),
        (button(2), bit(3, 0x01)),
        (button(3), axis(0, 1, 0)),
    ]);
    assert_eq!(map.validate(), Err(MappingValidationError::ZeroOctaves { axis: button(3) }));
}

#[test]
fn an_asset_is_made_of_a_valid_mapping_only() {
    let good = DeviceAsset::new(
        "Pad".to_string(),
        1,
        2,
        DeviceMap::new(vec![(button(1), bit(0, 1)), (button(2), axis(1, 2, 1))]),
    );
    let asset = HidAsset::new(&good).unwrap();
    assert_eq!(asset.name(), "Pad");
    assert_eq!(asset.input_mapping().len(), 2);
    assert_eq!(asset.buffer_map().len(), 1);

    let bad = DeviceAsset::new(
        "Pad".to_string(),
        1,
        2,
        DeviceMap::new(vec![(button(2), axis(1, 2, 0))]),
    );
    assert_eq!(
        HidAsset::new(&bad).err(),
        Some(MappingValidationError::ZeroOctaves { axis: button(2) })
    );
}

#[test]
fn an_asset_decodes_with_its_own_index() {
    let device = DeviceAsset::new(
        "Pad".to_string(),
        1,
        2,
        DeviceMap::new(vec![(button(1), bit(0, 1))]),
    );
    let asset = HidAsset::new(&device).unwrap();
    let prev = HidBuffer::default();
    let next = HidBuffer::from_read(&[1]).unwrap();
    assert_eq!(
        asset.decode(&prev, &next),
        vec![NativeEvent { bind: button(1), state: BindingEvent::Pressed }]
    );
    assert_eq!(
        asset.clone().decode(&next, &prev),
        vec![NativeEvent { bind: button(1), state: BindingEvent::Released }]
    );
    assert!(asset.decode(&next, &next).is_empty());
}

#[test]
fn every_logical_input_has_a_code_of_its_own() {
    let types = [
        BindType::Button,
        BindType::Trigger,
        BindType::TsTrigger,
        BindType::Function,
        BindType::Thumbstick,
        BindType::Joystick,
        BindType::Rudder,
        BindType::Throttle,
        BindType::Pedal,
        BindType::DPad,
        BindType::HatSwitch,
        BindType::Wheel,
        BindType::Slider,
        BindType::Rotor,
        BindType::Other,
    ];
    let ids = [
        BindId::Main,
        BindId::Left,
        BindId::Right,
        BindId::Up,
        BindId::Down,
        BindId::UpRight,
        BindId::DownRight,
        BindId::UpLeft,
        BindId::DownLeft,
        BindId::Center,
        BindId::Start,
        BindId::Select,
        BindId::Mode,
        BindId::Id(0),
        BindId::Id(12),
        BindId::Id(255),
        BindId::Axis('\0'),
        BindId::Axis('x'),
        BindId::Axis(char::MAX),
    ];
    let mut codes = std::collections::HashSet::new();
    for bind_type in types {
        for bind_id in ids {
            assert!(codes.insert(Bind::new(bind_type, bind_id).code()));
        }
    }
    assert_eq!(codes.len(), types.len() * ids.len());
    assert_eq!(Bind::new(BindType::Button, BindId::Main).code(), 0);
    assert_eq!(Bind::new(BindType::Trigger, BindId::Id(3)).code(), (1 << 32) + 259);
    assert_eq!(Bind::new(BindType::Other, BindId::Axis('A')).code(), (14 << 32) + 65536 + 65);
}

#[test]
fn a_large_device_map_finds_every_input() {
    let entries: Vec<(Bind, InputType)> = (0..=255u8)
        .flat_map(|n| {
            [
                (Bind::new(BindType::Button, BindId::Id(n)), bit(n, 1)),
                (Bind::new(BindType::Slider, BindId::Id(n)), axis(n, n, 1)),
            ]
        })
        .collect();
    let map = DeviceMap::new(entries.clone());
    assert_eq!(map.len(), 512);
    for (bind, input) in &entries {
        assert_eq!(map.get(bind), Some(input));
    }
    assert_eq!(map.get(&Bind::new(BindType::Rotor, BindId::Id(0))), None);
    assert_eq!(map.clone().iter(), &entries);
    assert_eq!(map.validate(), Ok(()));
    assert_eq!(BufferMap::from(&map).len(), 256);
}
