//! Decisions of the Windows tablet backend: what to do with a window message and what the
//! pen information that comes with it says.

use crate::adapter::windows::{WindowsPointerPhase, WindowsProximitySample, WindowsRawSample};
use crate::adapter::StylusAdapter;
use crate::float32::Float32;
use crate::float64::Float64;
use crate::geometry::Point;
use crate::sample::{Tilt, ToolCaps, ToolKind};
use vstd::prelude::*;

verus! {

pub const POINTER_FLAG_INRANGE: u32 = 0x2;

pub const POINTER_FLAG_INCONTACT: u32 = 0x4;

pub const PEN_FLAG_BARREL: u32 = 0x1;

pub const PEN_FLAG_INVERTED: u32 = 0x2;

pub const PEN_FLAG_ERASER: u32 = 0x4;

/// Why the backend could not be installed.
#[derive(Debug, Clone, Copy, PartialEq, Eq, Structural)]
pub enum WindowsTabletInstallError {
    SubclassFailed,
    NoQpcFrequency,
    NullHwnd,
}

impl WindowsTabletInstallError {
    /// The message for the user.
    pub fn message(self) -> (res: &'static str)
        ensures
            res@ == (match self {
                WindowsTabletInstallError::SubclassFailed => "SetWindowSubclass failed"@,
                WindowsTabletInstallError::NoQpcFrequency =>
                    "QueryPerformanceFrequency returned zero (system timer unavailable)"@,
                WindowsTabletInstallError::NullHwnd => "HWND is null"@,
            }),
    {
        match self {
            WindowsTabletInstallError::SubclassFailed => "SetWindowSubclass failed",
            WindowsTabletInstallError::NoQpcFrequency =>
                "QueryPerformanceFrequency returned zero (system timer unavailable)",
            WindowsTabletInstallError::NullHwnd => "HWND is null",
        }
    }
}

/// Why the backend cannot be installed, if something speaks against it beforehand: a null
/// window or a clock without a frequency.
pub fn install_precheck(hwnd_is_null: bool, qpc_frequency: Option<u64>) -> (res: Option<
    WindowsTabletInstallError,
>)
    ensures
        res == (if hwnd_is_null {
            Some(WindowsTabletInstallError::NullHwnd)
        } else if qpc_frequency is None || qpc_frequency == Some(0u64) {
            Some(WindowsTabletInstallError::NoQpcFrequency)
        } else {
            None
        }),
{
    if hwnd_is_null {
        return Some(WindowsTabletInstallError::NullHwnd);
    }
    match qpc_frequency {
        Some(freq) => if freq == 0 {
            Some(WindowsTabletInstallError::NoQpcFrequency)
        } else {
            None
        },
        None => Some(WindowsTabletInstallError::NoQpcFrequency),
    }
}

/// A window message, as far as pens are concerned.
#[derive(Debug, Clone, Copy, PartialEq, Eq, Structural)]
pub enum PointerMessage {
    DeviceInRange,
    DeviceOutOfRange,
    Enter,
    Leave,
    Down,
    Up,
    Update,
    CaptureChanged,
    /// A mouse that moves, or whose left button changes. Some drivers send these for a palm.
    Mouse,
    Destroy,
    Other,
}

/// What kind of pointer a message is about.
#[derive(Debug, Clone, Copy, PartialEq, Eq, Structural)]
pub enum PointerKind {
    Pen,
    Touch,
    Other,
}

/// What to do with a message.
#[derive(Debug, Clone, Copy, PartialEq, Eq, Structural)]
pub enum MessageStep {
    /// Tell the adapter that the pen came near or went away, then pass the message on.
    Proximity { is_entering: bool },
    /// Drop the message: a palm resting while the pen is near.
    Swallow,
    /// Cancel the pen's stroke, then pass the message on.
    Cancel,
    /// Take the pen's samples in, then pass the message on.
    Samples,
    /// Release what the backend holds, then pass the message on.
    Release,
    PassOn,
}

/// What the backend remembers between messages.
#[derive(Debug, Clone, Copy, PartialEq, Eq, Structural)]
pub struct SubclassState {
    pub pen_in_range: bool,
}

impl PointerMessage {
    /// A message about one pointer.
    pub open spec fn is_about_pointer(self) -> bool {
        self is Enter || self is Leave || self is Down || self is Up || self is Update
            || self is CaptureChanged
    }
}

impl SubclassState {
    /// What to do with a message about a pointer of the given kind (`None` where the kind
    /// could not be had).
    pub open spec fn step(self, msg: PointerMessage, kind: Option<PointerKind>) -> MessageStep {
        if msg is DeviceInRange {
            MessageStep::Proximity { is_entering: true }
        } else if msg is DeviceOutOfRange {
            MessageStep::Proximity { is_entering: false }
        } else if msg is Destroy {
            MessageStep::Release
        } else if msg is Mouse {
            if self.pen_in_range {
                MessageStep::Swallow
            } else {
                MessageStep::PassOn
            }
        } else if !msg.is_about_pointer() {
            MessageStep::PassOn
        } else if kind == Some(PointerKind::Touch) && self.pen_in_range {
            MessageStep::Swallow
        } else if kind != Some(PointerKind::Pen) {
            MessageStep::PassOn
        } else if msg is CaptureChanged {
            MessageStep::Cancel
        } else {
            MessageStep::Samples
        }
    }

    /// The state after a message.
    pub open spec fn after(self, msg: PointerMessage) -> SubclassState {
        SubclassState {
            pen_in_range: if msg is DeviceInRange {
                true
            } else if msg is DeviceOutOfRange {
                false
            } else {
                self.pen_in_range
            },
        }
    }

    /// A backend that has seen no pen.
    pub fn new() -> (res: SubclassState)
        ensures
            res == (SubclassState { pen_in_range: false }),
    {
        SubclassState { pen_in_range: false }
    }

    /// Decides what to do with a message.
    pub fn on_message(&mut self, msg: PointerMessage, kind: Option<PointerKind>) -> (res:
        MessageStep)
        ensures
            res == old(self).step(msg, kind),
            *final(self) == old(self).after(msg),
    {
        match msg {
            PointerMessage::DeviceInRange => {
                self.pen_in_range = true;
                MessageStep::Proximity { is_entering: true }
            },
            PointerMessage::DeviceOutOfRange => {
                self.pen_in_range = false;
                MessageStep::Proximity { is_entering: false }
            },
            PointerMessage::Destroy => MessageStep::Release,
            PointerMessage::Mouse => if self.pen_in_range {
                MessageStep::Swallow
            } else {
                MessageStep::PassOn
            },
            PointerMessage::Other => MessageStep::PassOn,
            _ => match kind {
                Some(PointerKind::Touch) => if self.pen_in_range {
                    MessageStep::Swallow
                } else {
                    MessageStep::PassOn
                },
                Some(PointerKind::Pen) => match msg {
                    PointerMessage::CaptureChanged => MessageStep::Cancel,
                    _ => MessageStep::Samples,
                },
                _ => MessageStep::PassOn,
            },
        }
    }
}

/// While a pen is near, nothing that a resting palm causes gets through: neither a message
/// about a touch nor one from a mouse.
pub proof fn lemma_palm_is_rejected(
    state: SubclassState,
    msg: PointerMessage,
    kind: Option<PointerKind>,
)
    requires
        state.pen_in_range,
        msg is Mouse || msg.is_about_pointer() && kind == Some(PointerKind::Touch),
    ensures
        state.step(msg, kind) is Swallow,
        state.after(msg).pen_in_range,
{
}

/// The pen information of one sample.
#[derive(Debug, Clone, Copy, PartialEq)]
pub struct PenInfo {
    pub pointer_flags: u32,
    /// In physical pixels of the client area.
    pub position: Point,
    pub performance_count: u64,
    /// From 0 to 1024.
    pub pressure: u32,
    pub tilt_x: i32,
    pub tilt_y: i32,
    pub rotation: u32,
    pub pen_flags: u32,
    pub source_device: usize,
}

/// Ticks of the performance counter in seconds.
pub open spec fn seconds_of(count: u64, frequency: u64) -> Float64 {
    Float64::of_whole(count as nat).quotient(Float64::of_whole(frequency as nat))
}

/// The key of a physical digitizer: its handle's low 32 bits, spread by a multiplication.
pub open spec fn device_key(handle: usize) -> u32 {
    ((handle as u32) * 0x9e37_79b9 % 0x1_0000_0000) as u32
}

/// The tool that the pen flags name.
pub open spec fn pen_tool(pen_flags: u32) -> ToolKind {
    if pen_flags & PEN_FLAG_ERASER != 0 {
        ToolKind::Eraser
    } else {
        ToolKind::Pen
    }
}

/// The pen flags as the adapter's button bits: 1 for the barrel, 4 for the inverted end.
pub open spec fn folded_buttons(pen_flags: u32) -> u32 {
    if pen_flags & PEN_FLAG_BARREL != 0 {
        if pen_flags & PEN_FLAG_INVERTED != 0 {
            5
        } else {
            1
        }
    } else if pen_flags & PEN_FLAG_INVERTED != 0 {
        4
    } else {
        0
    }
}

impl PenInfo {
    /// The phase of the sample that came with a message: down and up by the message, else a
    /// move in contact, a hover in range, or nothing.
    pub open spec fn phase(self, msg: PointerMessage) -> Option<WindowsPointerPhase> {
        if msg is Down {
            Some(WindowsPointerPhase::Down)
        } else if msg is Up {
            Some(WindowsPointerPhase::Up)
        } else if self.pointer_flags & POINTER_FLAG_INCONTACT != 0 {
            Some(WindowsPointerPhase::Move)
        } else if self.pointer_flags & POINTER_FLAG_INRANGE != 0 {
            Some(WindowsPointerPhase::Hover)
        } else {
            None
        }
    }

    /// The sample that the information stands for.
    pub open spec fn raw_sample(self, msg: PointerMessage, frequency: u64) -> Option<
        WindowsRawSample,
    > {
        match self.phase(msg) {
            Some(phase) => Some(
                WindowsRawSample {
                    position_physical_px: self.position,
                    timestamp_secs: seconds_of(self.performance_count, frequency),
                    pressure: Float32::of_whole(self.pressure as int).quotient(
                        Float32(0x4480_0000),
                    ).clamped(Float32(0), Float32(0x3f80_0000)),
                    tilt: Some(
                        Tilt {
                            x_deg: Float32::of_whole(self.tilt_x as int),
                            y_deg: Float32::of_whole(self.tilt_y as int),
                        },
                    ),
                    twist_deg: Some(Float32::of_whole(self.rotation as int)),
                    button_mask: folded_buttons(self.pen_flags),
                    device_id: device_key(self.source_device),
                    pointing_device_type: pen_tool(self.pen_flags),
                    source_phase: phase,
                },
            ),
            None => None,
        }
    }
}

/// The sample that cancels a stroke when the capture is lost.
pub open spec fn cancel_sample_of(info: Option<PenInfo>, frequency: u64) -> WindowsRawSample {
    WindowsRawSample {
        position_physical_px: match info {
            Some(i) => i.position,
            None => Point::origin(),
        },
        timestamp_secs: match info {
            Some(i) => seconds_of(i.performance_count, frequency),
            None => Float64(0),
        },
        pressure: Float32(0),
        tilt: None,
        twist_deg: None,
        button_mask: 0,
        device_id: match info {
            Some(i) => device_key(i.source_device),
            None => 0,
        },
        pointing_device_type: match info {
            Some(i) => pen_tool(i.pen_flags),
            None => ToolKind::Pen,
        },
        source_phase: WindowsPointerPhase::Cancel,
    }
}

/// The pointer that a message is about.
pub fn get_pointer_id_wparam(wparam: usize) -> (res: u32)
    ensures
        res == wparam % 0x1_0000,
{
    (wparam % 0x1_0000) as u32
}

/// Ticks of the performance counter in seconds.
pub fn performance_secs(count: u64, frequency: u64) -> (res: Float64)
    ensures
        res == seconds_of(count, frequency),
{
    Float64::from_u64(count).div(Float64::from_u64(frequency))
}

/// The key of a physical digitizer.
pub fn hash_source_device(handle: usize) -> (res: u32)
    ensures
        res == device_key(handle),
{
    let low: u32 = handle as u32;
    low.wrapping_mul(0x9e37_79b9)
}

/// What a pen is assumed to report when it comes near.
pub fn optimistic_caps() -> (res: ToolCaps)
    ensures
        res == (ToolCaps {
            pressure: true,
            tilt: true,
            twist: true,
            tangential_pressure: false,
            hover: true,
            barrel_button: false,
        }),
{
    ToolCaps {
        pressure: true,
        tilt: true,
        twist: true,
        tangential_pressure: false,
        hover: true,
        barrel_button: false,
    }
}

fn tool_from_flags(pen_flags: u32) -> (res: ToolKind)
    ensures
        res == pen_tool(pen_flags),
{
    if pen_flags & PEN_FLAG_ERASER != 0 {
        ToolKind::Eraser
    } else {
        ToolKind::Pen
    }
}

/// Builds the sample that pen information stands for.
pub fn build_pen_info(info: &PenInfo, msg: PointerMessage, frequency: u64) -> (res: Option<
    WindowsRawSample,
>)
    ensures
        res == info.raw_sample(msg, frequency),
{
    let in_range: bool = info.pointer_flags & POINTER_FLAG_INRANGE != 0;
    let in_contact: bool = info.pointer_flags & POINTER_FLAG_INCONTACT != 0;
    let source_phase = match msg {
        PointerMessage::Down => WindowsPointerPhase::Down,
        PointerMessage::Up => WindowsPointerPhase::Up,
        _ => if in_contact {
            WindowsPointerPhase::Move
        } else if in_range {
            WindowsPointerPhase::Hover
        } else {
            return None;
        },
    };
    let pressure = Float32::from_i64(info.pressure as i64).div(Float32(0x4480_0000)).clamp(
        Float32(0),
        Float32(0x3f80_0000),
    );
    let barrel: u32 = if info.pen_flags & PEN_FLAG_BARREL != 0 { 1 } else { 0 };
    let inverted: u32 = if info.pen_flags & PEN_FLAG_INVERTED != 0 { 4 } else { 0 };
    Some(
        WindowsRawSample {
            position_physical_px: info.position,
            timestamp_secs: performance_secs(info.performance_count, frequency),
            pressure,
            tilt: Some(
                Tilt {
                    x_deg: Float32::from_i64(info.tilt_x as i64),
                    y_deg: Float32::from_i64(info.tilt_y as i64),
                },
            ),
            twist_deg: Some(Float32::from_i64(info.rotation as i64)),
            button_mask: barrel + inverted,
            device_id: hash_source_device(info.source_device),
            pointing_device_type: tool_from_flags(info.pen_flags),
            source_phase,
        },
    )
}

/// The samples of a history that was read newest first, in the order of time, without those
/// that stand for nothing.
pub open spec fn samples_in_order(
    history: Seq<PenInfo>,
    msg: PointerMessage,
    frequency: u64,
) -> Seq<WindowsRawSample>
    decreases history.len(),
{
    if history.len() == 0 {
        Seq::empty()
    } else {
        let earlier = samples_in_order(history.drop_first(), msg, frequency);
        match history.first().raw_sample(msg, frequency) {
            Some(raw) => earlier.push(raw),
            None => earlier,
        }
    }
}

/// Builds the samples of a history that was read newest first, in the order of time.
pub fn build_pen_history(history: &Vec<PenInfo>, msg: PointerMessage, frequency: u64) -> (res: Vec<
    WindowsRawSample,
>)
    ensures
        res@ == samples_in_order(history@, msg, frequency),
{
    let mut res: Vec<WindowsRawSample> = Vec::new();
    let mut i: usize = history.len();
    assert(history@.skip(i as int) =~= Seq::<PenInfo>::empty());
    while i > 0
        invariant
            i <= history.len(),
            res@ == samples_in_order(history@.skip(i as int), msg, frequency),
        decreases i,
    {
        i = i - 1;
        assert(history@.skip(i as int).drop_first() =~= history@.skip(i + 1));
        assert(history@.skip(i as int).first() == history@[i as int]);
        if let Some(raw) = build_pen_info(&history[i], msg, frequency) {
            res.push(raw);
        }
    }
    assert(history@.skip(0) =~= history@);
    res
}

/// Builds the sample that cancels a stroke when the capture is lost.
pub fn build_cancel(info: Option<PenInfo>, frequency: u64) -> (res: WindowsRawSample)
    ensures
        res == cancel_sample_of(info, frequency),
{
    match info {
        Some(i) => WindowsRawSample {
            position_physical_px: i.position,
            timestamp_secs: performance_secs(i.performance_count, frequency),
            pressure: Float32(0),
            tilt: None,
            twist_deg: None,
            button_mask: 0,
            device_id: hash_source_device(i.source_device),
            pointing_device_type: tool_from_flags(i.pen_flags),
            source_phase: WindowsPointerPhase::Cancel,
        },
        None => WindowsRawSample {
            position_physical_px: Point::zero(),
            timestamp_secs: Float64(0),
            pressure: Float32(0),
            tilt: None,
            twist_deg: None,
            button_mask: 0,
            device_id: 0,
            pointing_device_type: ToolKind::Pen,
            source_phase: WindowsPointerPhase::Cancel,
        },
    }
}

/// Tells the adapter that a pen came near or went away. The device is not told apart.
pub fn deliver_proximity(adapter: &mut StylusAdapter, is_entering: bool, now: u128)
    ensures
        final(adapter)@ == old(adapter)@.after_windows_proximity(
            WindowsProximitySample {
                device_id: 0,
                pointing_device_type: ToolKind::Pen,
                caps: ToolCaps {
                    pressure: true,
                    tilt: true,
                    twist: true,
                    tangential_pressure: false,
                    hover: true,
                    barrel_button: false,
                },
                is_entering,
            },
            now,
        ),
{
    adapter.handle_windows_proximity(
        WindowsProximitySample {
            device_id: 0,
            pointing_device_type: ToolKind::Pen,
            caps: optimistic_caps(),
            is_entering,
        },
        now,
    );
}

} // verus!
