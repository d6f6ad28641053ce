use vstd::prelude::*;

verus! {

/// Rules for collecting button data from report bytes.
#[derive(Debug, Clone, Copy, PartialEq, Eq, Structural)]
pub enum ButtonQuery {
    /// Pressed when the byte has any bit of the mask set.
    Bit(u8),
    /// Pressed when the byte equals the value exactly.
    Eq(u8),
}

/// Where a button lives: the byte offset in a report, and how to read that byte.
#[derive(Debug, Clone, Copy, PartialEq, Eq, Structural)]
pub struct ButtonPointer(pub u8, pub ButtonQuery);

/// Where an axis lives and how its raw value is scaled.
#[derive(Debug, Clone, Copy, PartialEq, Eq, Structural)]
pub struct AxisPointer {
    /// The report byte that holds the low-order component.
    pub fine: u8,
    /// The report byte that holds the high-order component.
    pub coarse: u8,
    /// The number of coarse steps: the largest raw value is `255 * octaves`.
    pub octaves: u16,
    /// An inverted axis is mirrored around its midpoint.
    pub inverted: bool,
    /// An absolute axis only takes values between 0 and 1 once normalized.
    pub abs: bool,
}

/// A logical input is either a button or an axis.
#[derive(Debug, Clone, Copy, PartialEq, Eq, Structural)]
pub enum InputType {
    /// A single button.
    Button(ButtonPointer),
    /// A single axis.
    Axis(AxisPointer),
}

impl ButtonQuery {
    /// Whether a button read by this query counts as pressed when its byte is `byte`.
    pub open spec fn pressed(self, byte: u8) -> bool {
        match self {
            ButtonQuery::Bit(mask) => byte & mask != 0,
            ButtonQuery::Eq(value) => byte == value,
        }
    }
}

impl AxisPointer {
    /// The largest raw value of the axis.
    pub open spec fn max_raw(self) -> int {
        255 * self.octaves
    }

    /// An axis needs at least one octave, or its range is empty.
    pub open spec fn valid(self) -> bool {
        self.octaves >= 1
    }

    /// Both bytes of the axis lie inside a report of `len` bytes.
    pub open spec fn within(self, len: nat) -> bool {
        self.fine < len && self.coarse < len
    }

    /// The raw value that a report holds for the axis: 255 times the coarse
    /// byte, plus the fine byte.
    pub open spec fn raw(self, report: Seq<u8>) -> int {
        report[self.coarse as int] * 255 + report[self.fine as int]
    }

    /// The raw value, mirrored in the axis' range where the axis is inverted.
    pub open spec fn oriented(self, report: Seq<u8>) -> int {
        if self.inverted {
            self.max_raw() - self.raw(report)
        } else {
            self.raw(report)
        }
    }

    /// The normalized value of the axis, as a count of `1 / max_raw`: between
    /// `0` and `max_raw` for an absolute axis, between `-max_raw` and `max_raw`
    /// for any other, whose midpoint counts as zero.
    pub open spec fn numerator(self, report: Seq<u8>) -> int {
        if self.abs {
            clamp(self.oriented(report), 0, self.max_raw())
        } else {
            clamp(2 * self.oriented(report) - self.max_raw(), -self.max_raw(), self.max_raw())
        }
    }

    /// Neither byte of the axis differs between the two reports.
    pub open spec fn unchanged(self, prev: Seq<u8>, next: Seq<u8>) -> bool {
        prev[self.fine as int] == next[self.fine as int] && prev[self.coarse as int]
            == next[self.coarse as int]
    }
}

/// The value nearest to `x` that is neither below `lo` nor above `hi`.
pub open spec fn clamp(x: int, lo: int, hi: int) -> int {
    if x < lo {
        lo
    } else if x > hi {
        hi
    } else {
        x
    }
}

impl Default for AxisPointer {
    fn default() -> (ptr: Self)
        ensures
            ptr == (AxisPointer { fine: 0, coarse: 0, octaves: 0, inverted: false, abs: false }),
    {
        AxisPointer { fine: 0, coarse: 0, octaves: 0, inverted: false, abs: false }
    }
}

/// An axis that is neither inverted nor absolute is at -1 when both its bytes
/// are zero.
pub proof fn lemma_axis_at_rest(ptr: AxisPointer, report: Seq<u8>)
    requires
        ptr.valid(),
        !ptr.inverted,
        !ptr.abs,
        report[ptr.fine as int] == 0,
        report[ptr.coarse as int] == 0,
    ensures
        ptr.numerator(report) == -ptr.max_raw(),
{
}

/// An axis that is neither inverted nor absolute is at +1 when both its bytes
/// are 255, as long as its range is within what two bytes can hold: with one
/// octave, and with any number of them up to 256.
pub proof fn lemma_axis_at_full(ptr: AxisPointer, report: Seq<u8>)
    requires
        1 <= ptr.octaves <= 256,
        !ptr.inverted,
        !ptr.abs,
        report[ptr.fine as int] == 255,
        report[ptr.coarse as int] == 255,
    ensures
        ptr.numerator(report) == ptr.max_raw(),
{
}

/// Inverting an axis that is not absolute negates its value, on every report.
pub proof fn lemma_axis_inversion(ptr: AxisPointer, report: Seq<u8>)
    requires
        !ptr.abs,
    ensures
        (AxisPointer { inverted: true, ..ptr }).numerator(report) == -(AxisPointer {
            inverted: false,
            ..ptr
        }).numerator(report),
        (AxisPointer { inverted: true, ..ptr }).max_raw() == (AxisPointer {
            inverted: false,
            ..ptr
        }).max_raw(),
{
}

/// The value of an axis is never outside its range: between 0 and 1 where the
/// axis is absolute, between -1 and 1 where it is not.
pub proof fn lemma_axis_range(ptr: AxisPointer, report: Seq<u8>)
    requires
        ptr.valid(),
    ensures
        -ptr.max_raw() <= ptr.numerator(report) <= ptr.max_raw(),
        ptr.abs ==> 0 <= ptr.numerator(report),
        ptr.max_raw() >= 255,
{
}

} // verus!
