use bevy_hid::bindings::{Bind, BindId, BindType};
use bevy_hid::buffers::{BufferMap, HidBuffer};
use bevy_hid::device::DeviceMap;
use bevy_hid::events::{AxisValue, BindingEvent, NativeEvent};
use bevy_hid::input::{AxisPointer, ButtonPointer, ButtonQuery, InputType};
use bevy_hid::systems::{calc_axis, check_button, proccess_axis, step, transcode_device};

fn as_f32(value: AxisValue) -> f32 {
    value.numerator as f32 / value.denominator as f32
}

fn report(bytes: &[(usize, u8)]) -> HidBuffer {
    let mut buffer = HidBuffer::default();
    for (offset, byte) in bytes {
        buffer.0[*offset] = *byte;
    }
    buffer
}

fn button(id: u8) -> Bind {
    Bind::new(BindType::Button, BindId::Id(id))
}

fn has(events: &[NativeEvent], bind: Bind, state: BindingEvent) -> bool {
    events.iter().any(|event| event.bind == bind && event.state == state)
}

#[test]
fn test_proccess_axis() {
    let ptr = AxisPointer {
        fine: 0,
        coarse: 1,
        octaves: 256,
        inverted: false,
        abs: false,
    };
    let buf_new = [255, 255];
    let buf_last = [254, 255];
    let value = proccess_axis(&ptr, &buf_new, &buf_last).unwrap();
    assert_eq!(as_f32(value), 1.0);
}

#[test]
fn bit_packed_bank_reports_both_buttons() {
    let a = button(1);
    let b = button(2);
    let map = DeviceMap::new(vec![
        (a, InputType::Button(ButtonPointer(3, ButtonQuery::Bit(0x01)))),
        (b, InputType::Button(ButtonPointer(3, ButtonQuery::Bit(0x02)))),
    ]);
    let index = BufferMap::from(&map);
    let events = step(&report(&[]), &report(&[(3, 0x03)]), &map, &index);
    assert_eq!(events.len(), 2);
    assert!(has(&events, a, BindingEvent::Pressed));
    assert!(has(&events, b, BindingEvent::Pressed));
}

#[test]
fn hat_switch_releases_one_and_presses_the_other() {
    let up = Bind::new(BindType::HatSwitch, BindId::Up);
    let right = Bind::new(BindType::HatSwitch, BindId::Right);
    let map = DeviceMap::new(vec![
        (up, InputType::Button(ButtonPointer(5, ButtonQuery::Eq(1)))),
        (right, InputType::Button(ButtonPointer(5, ButtonQuery::Eq(3)))),
    ]);
    let index = BufferMap::from(&map);
    let events = step(&report(&[(5, 1)]), &report(&[(5, 3)]), &map, &index);
    assert_eq!(events.len(), 2);
    assert!(has(&events, up, BindingEvent::Released));
    assert!(has(&events, right, BindingEvent::Pressed));
}

#[test]
fn sixteen_bit_axis_midpoint_is_zero() {
    let axis = Bind::new(BindType::Joystick, BindId::Axis('x'));
    let ptr = AxisPointer { fine: 10, coarse: 11, octaves: 256, inverted: false, abs: false };
    let map = DeviceMap::new(vec![(axis, InputType::Axis(ptr))]);
    let index = BufferMap::from(&map);
    let events = step(&report(&[]), &report(&[(11, 128)]), &map, &index);
    assert_eq!(events.len(), 1);
    assert_eq!(events[0].bind, axis);
    match events[0].state {
        BindingEvent::Value(value) => {
            assert_eq!(value, AxisValue { numerator: 0, denominator: 65280 });
            assert!(as_f32(value).abs() < 1e-3);
        }
        _ => panic!("an axis reports a value"),
    }
}

#[test]
fn inverted_axis_at_full_is_minus_one() {
    let axis = Bind::new(BindType::Joystick, BindId::Axis('x'));
    let ptr = AxisPointer { fine: 10, coarse: 11, octaves: 256, inverted: true, abs: false };
    let map = DeviceMap::new(vec![(axis, InputType::Axis(ptr))]);
    let index = BufferMap::from(&map);
    let events = step(&report(&[]), &report(&[(10, 255), (11, 255)]), &map, &index);
    assert_eq!(events.len(), 1);
    match events[0].state {
        BindingEvent::Value(value) => {
            assert_eq!(value, AxisValue { numerator: -65280, denominator: 65280 });
            assert_eq!(as_f32(value), -1.0);
        }
        _ => panic!("an axis reports a value"),
    }
}

#[test]
fn absolute_axis_at_full_is_one() {
    let trigger = Bind::new(BindType::Trigger, BindId::Left);
    let ptr = AxisPointer { fine: 4, coarse: 5, octaves: 1, inverted: false, abs: true };
    let map = DeviceMap::new(vec![(trigger, InputType::Axis(ptr))]);
    let index = BufferMap::from(&map);
    let events = step(&report(&[]), &report(&[(4, 255)]), &map, &index);
    assert_eq!(events.len(), 1);
    match events[0].state {
        BindingEvent::Value(value) => {
            assert_eq!(value, AxisValue { numerator: 255, denominator: 255 });
            assert_eq!(as_f32(value), 1.0);
        }
        _ => panic!("an axis reports a value"),
    }
}

#[test]
fn identical_reports_yield_no_events() {
    let axis = Bind::new(BindType::Joystick, BindId::Axis('x'));
    let map = DeviceMap::new(vec![
        (button(1), InputType::Button(ButtonPointer(3, ButtonQuery::Bit(0x01)))),
        (button(2), InputType::Button(ButtonPointer(3, ButtonQuery::Eq(0x07)))),
        (
            axis,
            InputType::Axis(AxisPointer {
                fine: 3,
                coarse: 4,
                octaves: 4,
                inverted: false,
                abs: false,
            }),
        ),
    ]);
    let index = BufferMap::from(&map);
    let same = report(&[(3, 0x07), (4, 2)]);
    assert!(step(&same, &same, &map, &index).is_empty());
}

#[test]
fn buttons_come_before_axes() {
    let axis = Bind::new(BindType::Throttle, BindId::Main);
    let map = DeviceMap::new(vec![
        (
            axis,
            InputType::Axis(AxisPointer {
                fine: 0,
                coarse: 1,
                octaves: 1,
                inverted: false,
                abs: true,
            }),
        ),
        (button(1), InputType::Button(ButtonPointer(0, ButtonQuery::Bit(0x80)))),
    ]);
    let index = BufferMap::from(&map);
    let events = step(&report(&[]), &report(&[(0, 0x80)]), &map, &index);
    assert_eq!(
        events,
        vec![
            NativeEvent { bind: button(1), state: BindingEvent::Pressed },
            NativeEvent {
                bind: axis,
                state: BindingEvent::Value(AxisValue { numerator: 128, denominator: 255 }),
            },
        ]
    );
}

#[test]
fn zero_mask_is_never_pressed() {
    let ptr = ButtonPointer(0, ButtonQuery::Bit(0));
    assert!(!check_button(0x00, &ptr));
    assert!(!check_button(0xff, &ptr));
    let map = DeviceMap::new(vec![(button(1), InputType::Button(ptr))]);
    let index = BufferMap::from(&map);
    assert!(step(&report(&[]), &report(&[(0, 0xff)]), &map, &index).is_empty());
}

#[test]
fn check_button_reads_bits_and_values() {
    assert!(check_button(0x12, &ButtonPointer(0, ButtonQuery::Bit(0x10))));
    assert!(!check_button(0x12, &ButtonPointer(0, ButtonQuery::Bit(0x01))));
    assert!(check_button(3, &ButtonPointer(0, ButtonQuery::Eq(3))));
    assert!(!check_button(7, &ButtonPointer(0, ButtonQuery::Eq(3))));
}

#[test]
fn calc_axis_weighs_the_coarse_byte_by_255() {
    let ptr = AxisPointer { fine: 1, coarse: 0, octaves: 256, inverted: false, abs: false };
    assert_eq!(calc_axis(&[2, 7], &ptr), 2 * 255 + 7);
    assert_eq!(calc_axis(&[255, 255], &ptr), 65280);
}

#[test]
fn unchanged_axis_bytes_report_nothing() {
    let ptr = AxisPointer { fine: 0, coarse: 1, octaves: 256, inverted: false, abs: false };
    assert_eq!(proccess_axis(&ptr, &[9, 9, 1], &[9, 9, 2]), None);
}

#[test]
fn axis_value_is_clamped() {
    let ptr = AxisPointer { fine: 0, coarse: 1, octaves: 1, inverted: false, abs: false };
    let up = proccess_axis(&ptr, &[255, 255], &[0, 0]).unwrap();
    assert_eq!(up, AxisValue { numerator: 255, denominator: 255 });
    let inverted = AxisPointer { inverted: true, ..ptr };
    let down = proccess_axis(&inverted, &[255, 255], &[0, 0]).unwrap();
    assert_eq!(down, AxisValue { numerator: -255, denominator: 255 });
    let trigger = AxisPointer { abs: true, ..inverted };
    let floor = proccess_axis(&trigger, &[255, 255], &[0, 0]).unwrap();
    assert_eq!(floor, AxisValue { numerator: 0, denominator: 255 });
}

#[test]
fn inversion_negates_a_plain_axis() {
    let ptr = AxisPointer { fine: 0, coarse: 1, octaves: 256, inverted: false, abs: false };
    let inverted = AxisPointer { inverted: true, ..ptr };
    for (fine, coarse) in [(0u8, 0u8), (1, 0), (200, 17), (0, 128), (255, 255)] {
        let plain = proccess_axis(&ptr, &[fine, coarse], &[fine ^ 1, coarse]).unwrap();
        let turned = proccess_axis(&inverted, &[fine, coarse], &[fine ^ 1, coarse]).unwrap();
        assert_eq!(turned.numerator, -plain.numerator);
        assert_eq!(turned.denominator, plain.denominator);
    }
}

#[test]
fn plain_axis_at_rest_is_minus_one() {
    let ptr = AxisPointer { fine: 0, coarse: 1, octaves: 7, inverted: false, abs: false };
    let value = proccess_axis(&ptr, &[0, 0], &[1, 0]).unwrap();
    assert_eq!(value, AxisValue { numerator: -1785, denominator: 1785 });
    assert_eq!(as_f32(value), -1.0);
}

#[test]
fn transcode_needs_both_reports() {
    let map = DeviceMap::new(vec![(
        button(1),
        InputType::Button(ButtonPointer(0, ButtonQuery::Bit(1))),
    )]);
    let index = BufferMap::from(&map);
    let last = report(&[]);
    let new = report(&[(0, 1)]);
    assert!(transcode_device(&map, &index, Some(&new), None).is_empty());
    assert!(transcode_device(&map, &index, None, Some(&last)).is_empty());
    assert_eq!(
        transcode_device(&map, &index, Some(&new), Some(&last)),
        vec![NativeEvent { bind: button(1), state: BindingEvent::Pressed }]
    );
}
