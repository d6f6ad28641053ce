use vstd::prelude::*;

verus! {

/// Binding types are purely for the benefit of making mappings more human-readable.
/// Most systems should be fairly agnostic as to what is used.
#[derive(Debug, Clone, Copy, PartialEq, Eq, Hash, Structural)]
pub enum BindType {
    /// Standard button, either numerical or alphabetical.
    Button,
    /// A trigger device, such as L and R on a gamepad.
    Trigger,
    /// A two stage trigger, whose second stage can only fire while the first is down.
    TsTrigger,
    /// A function button (start, select, mode, ...).
    Function,
    /// A dual-axis thumbstick.
    Thumbstick,
    /// A flightstick or joystick.
    Joystick,
    /// A rudder control.
    Rudder,
    /// A throttle axis device.
    Throttle,
    /// Car pedals, a single-axis rudder pedal and the like.
    Pedal,
    /// A four-way button pad, sometimes with a central push option.
    DPad,
    /// An eight-way selector hat, usually found on flight sticks.
    HatSwitch,
    /// Mouse wheel, scroll wheel, steering wheel, or axis wheel on a throttle.
    Wheel,
    /// A single-axis slider.
    Slider,
    /// A potentiometer device, featuring a single axis.
    Rotor,
    /// Anything else.
    Other,
}

/// Identifiers tell bindings of the same type apart.
#[derive(Debug, Clone, Copy, PartialEq, Eq, Hash, Structural)]
pub enum BindId {
    /// Denotes the "main" device of this type.
    Main,
    Left,
    Right,
    Up,
    Down,
    UpRight,
    DownRight,
    UpLeft,
    DownLeft,
    Center,
    Start,
    Select,
    Mode,
    /// A numbered input.
    Id(u8),
    /// A lettered axis.
    Axis(char),
}

/// The main identifier of a logical input.
#[derive(Debug, Clone, Copy, PartialEq, Eq, Hash, Structural)]
pub struct Bind(pub BindType, pub BindId);

impl BindType {
    /// A number of its own for each binding type.
    pub open spec fn spec_code(self) -> u64 {
        match self {
            BindType::Button => 0,
            BindType::Trigger => 1,
            BindType::TsTrigger => 2,
            BindType::Function => 3,
            BindType::Thumbstick => 4,
            BindType::Joystick => 5,
            BindType::Rudder => 6,
            BindType::Throttle => 7,
            BindType::Pedal => 8,
            BindType::DPad => 9,
            BindType::HatSwitch => 10,
            BindType::Wheel => 11,
            BindType::Slider => 12,
            BindType::Rotor => 13,
            BindType::Other => 14,
        }
    }

    /// A number of its own for each binding type.
    pub fn code(&self) -> (code: u64)
        ensures
            code == self.spec_code(),
    {
        match self {
            BindType::Button => 0,
            BindType::Trigger => 1,
            BindType::TsTrigger => 2,
            BindType::Function => 3,
            BindType::Thumbstick => 4,
            BindType::Joystick => 5,
            BindType::Rudder => 6,
            BindType::Throttle => 7,
            BindType::Pedal => 8,
            BindType::DPad => 9,
            BindType::HatSwitch => 10,
            BindType::Wheel => 11,
            BindType::Slider => 12,
            BindType::Rotor => 13,
            BindType::Other => 14,
        }
    }
}

impl BindId {
    /// A number of its own for each identifier: the named ones come first,
    /// then the numbered ones, then the lettered ones.
    pub open spec fn spec_code(self) -> u64 {
        match self {
            BindId::Main => 0,
            BindId::Left => 1,
            BindId::Right => 2,
            BindId::Up => 3,
            BindId::Down => 4,
            BindId::UpRight => 5,
            BindId::DownRight => 6,
            BindId::UpLeft => 7,
            BindId::DownLeft => 8,
            BindId::Center => 9,
            BindId::Start => 10,
            BindId::Select => 11,
            BindId::Mode => 12,
            BindId::Id(n) => (256 + n) as u64,
            BindId::Axis(c) => (65536 + c as u32) as u64,
        }
    }

    /// A number of its own for each identifier.
    pub fn code(&self) -> (code: u64)
        ensures
            code == self.spec_code(),
            code < 0x1_0000_0000,
    {
        match self {
            BindId::Main => 0,
            BindId::Left => 1,
            BindId::Right => 2,
            BindId::Up => 3,
            BindId::Down => 4,
            BindId::UpRight => 5,
            BindId::DownRight => 6,
            BindId::UpLeft => 7,
            BindId::DownLeft => 8,
            BindId::Center => 9,
            BindId::Start => 10,
            BindId::Select => 11,
            BindId::Mode => 12,
            BindId::Id(n) => 256 + *n as u64,
            BindId::Axis(c) => 65536 + (*c as u32) as u64,
        }
    }
}

impl Bind {
    /// A number of its own for each logical input: no two inputs share one.
    pub open spec fn spec_code(self) -> u64 {
        (self.0.spec_code() * 0x1_0000_0000 + self.1.spec_code()) as u64
    }

    /// A number of its own for each logical input.
    pub fn code(&self) -> (code: u64)
        ensures
            code == self.spec_code(),
    {
        self.0.code() * 0x1_0000_0000 + self.1.code()
    }

    /// Two logical inputs with the same number are the same input.
    pub proof fn lemma_code_is_injective(self, other: Bind)
        requires
            self.spec_code() == other.spec_code(),
        ensures
            self == other,
    {
    }

    pub fn new(bind_type: BindType, bind_id: BindId) -> (bind: Self)
        ensures
            bind == Bind(bind_type, bind_id),
    {
        Self(bind_type, bind_id)
    }

    pub fn get_type(&self) -> (bind_type: BindType)
        ensures
            bind_type == self.0,
    {
        self.0
    }

    pub fn get_id(&self) -> (bind_id: BindId)
        ensures
            bind_id == self.1,
    {
        self.1
    }
}

} // verus!
