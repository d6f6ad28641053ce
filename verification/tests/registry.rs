use bevy_hid::assets::HidAsset;
use bevy_hid::bindings::{Bind, BindId, BindType};
use bevy_hid::device::{DeviceAsset, DeviceId, DeviceMap};
use bevy_hid::events::{AxisValue, BindingEvent, NativeEvent};
use bevy_hid::input::{AxisPointer, ButtonPointer, ButtonQuery, InputType};
use bevy_hid::resources::{HumanInterfaceDevices, Observation};

fn fire() -> Bind {
    Bind::new(BindType::Trigger, BindId::Main)
}

fn throttle() -> Bind {
    Bind::new(BindType::Throttle, BindId::Main)
}

fn stick() -> HidAsset {
    let map = DeviceMap::new(vec![
        (fire(), InputType::Button(ButtonPointer(1, ButtonQuery::Bit(0x01)))),
        (
            throttle(),
            InputType::Axis(AxisPointer {
                fine: 2,
                coarse: 3,
                octaves: 1,
                inverted: false,
                abs: true,
            }),
        ),
    ]);
    HidAsset::new(&DeviceAsset::new("Stick".to_string(), 512, 8989, map)).unwrap()
}

fn id() -> DeviceId {
    DeviceId::new(8989, 512)
}

fn registry() -> HumanInterfaceDevices {
    let mut registry = HumanInterfaceDevices::new();
    registry.insert(id(), stick());
    registry
}

fn connected(observed: Observation) -> (u64, String) {
    match observed {
        Observation::Connected { handle, name } => (handle, name),
        other => panic!("expected a new connection, got {:?}", other),
    }
}

fn present(observed: Observation) -> u64 {
    match observed {
        Observation::Present { handle } => handle,
        other => panic!("expected a known connection, got {:?}", other),
    }
}

#[test]
fn connection_lifecycle() {
    let mut registry = registry();
    let path = "usb:1".to_string();

    let (handle, name) = connected(registry.observe(path.clone(), id()));
    assert_eq!(name, "Stick");
    assert!(registry.sweep().is_empty());
    assert_eq!(registry.devices(), vec![handle]);

    assert_eq!(present(registry.observe(path.clone(), id())), handle);
    let events = registry.report(&path, id(), &[1, 0x01, 51]);
    assert_eq!(
        events,
        vec![
            NativeEvent { bind: fire(), state: BindingEvent::Pressed },
            NativeEvent {
                bind: throttle(),
                state: BindingEvent::Value(AxisValue { numerator: 51, denominator: 255 }),
            },
        ]
    );
    assert!(registry.sweep().is_empty());

    assert_eq!(registry.sweep(), vec![handle]);
    assert!(registry.devices().is_empty());
}

#[test]
fn the_last_report_is_kept() {
    let mut registry = registry();
    let path = "usb:1".to_string();
    connected(registry.observe(path.clone(), id()));
    assert_eq!(registry.report(&path, id(), &[1, 0x01]).len(), 1);
    assert!(registry.report(&path, id(), &[1, 0x01]).is_empty());
    assert_eq!(
        registry.report(&path, id(), &[1, 0x00]),
        vec![NativeEvent { bind: fire(), state: BindingEvent::Released }]
    );
}

#[test]
fn an_unknown_model_is_ignored() {
    let mut registry = registry();
    let observed = registry.observe("usb:9".to_string(), DeviceId::new(1, 1));
    assert!(matches!(observed, Observation::Ignored));
    assert!(registry.devices().is_empty());
    assert!(registry.report(&"usb:9".to_string(), DeviceId::new(1, 1), &[1, 1]).is_empty());
    assert!(registry.sweep().is_empty());
}

#[test]
fn a_read_of_nothing_changes_nothing() {
    let mut registry = registry();
    let path = "usb:1".to_string();
    connected(registry.observe(path.clone(), id()));
    assert!(registry.report(&path, id(), &[]).is_empty());
    assert!(registry.report(&path, id(), &[1u8; 257]).is_empty());
    assert_eq!(
        registry.report(&path, id(), &[0, 1]),
        vec![NativeEvent { bind: fire(), state: BindingEvent::Pressed }]
    );
}

#[test]
fn a_report_from_a_device_that_is_not_connected_is_dropped() {
    let mut registry = registry();
    assert!(registry.report(&"usb:1".to_string(), id(), &[0, 1]).is_empty());
    assert!(registry.devices().is_empty());
}

#[test]
fn two_devices_of_one_model_have_their_own_state() {
    let mut registry = registry();
    let left = "usb:1".to_string();
    let right = "usb:2".to_string();
    let (first, _) = connected(registry.observe(left.clone(), id()));
    let (second, _) = connected(registry.observe(right.clone(), id()));
    assert_ne!(first, second);
    assert_eq!(registry.report(&left, id(), &[0, 1]).len(), 1);
    assert_eq!(registry.report(&right, id(), &[0, 1]).len(), 1);
    assert!(registry.report(&left, id(), &[0, 1]).is_empty());
    let mut handles = registry.devices();
    handles.sort();
    assert_eq!(handles, vec![first, second]);
}

#[test]
fn a_device_that_comes_back_gets_a_new_handle() {
    let mut registry = registry();
    let path = "usb:1".to_string();
    let (first, _) = connected(registry.observe(path.clone(), id()));
    assert!(registry.sweep().is_empty());
    assert_eq!(registry.sweep(), vec![first]);
    let (second, _) = connected(registry.observe(path.clone(), id()));
    assert_ne!(first, second);
    assert_eq!(
        registry.report(&path, id(), &[0, 1]),
        vec![NativeEvent { bind: fire(), state: BindingEvent::Pressed }]
    );
}

#[test]
fn only_the_devices_not_seen_are_dropped() {
    let mut registry = registry();
    let stays = "usb:1".to_string();
    let goes = "usb:2".to_string();
    let (kept, _) = connected(registry.observe(stays.clone(), id()));
    let (lost, _) = connected(registry.observe(goes.clone(), id()));
    assert!(registry.sweep().is_empty());
    assert_eq!(present(registry.observe(stays.clone(), id())), kept);
    assert_eq!(registry.sweep(), vec![lost]);
    assert_eq!(registry.devices(), vec![kept]);
}

#[test]
fn a_known_asset_can_be_looked_up_and_replaced() {
    let mut registry = registry();
    assert_eq!(registry.asset(id()).map(|asset| asset.name().to_string()), Some("Stick".to_string()));
    assert!(registry.asset(DeviceId::new(1, 1)).is_none());
    let other = HidAsset::new(&DeviceAsset::new(
        "Other".to_string(),
        512,
        8989,
        DeviceMap::new(Vec::new()),
    ))
    .unwrap();
    registry.insert(id(), other);
    let (_, name) = connected(registry.observe("usb:1".to_string(), id()));
    assert_eq!(name, "Other");
    assert!(registry.report(&"usb:1".to_string(), id(), &[0, 1]).is_empty());
}
