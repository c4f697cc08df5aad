//! Turns low-level input of the window system and of native tablet backends into one stream
//! of stylus events.
//!
//! Every handler takes the current time as nanoseconds since the session's input began. A
//! backend with a clock of its own anchors that clock at its first sample; clocks are never
//! mixed.

use crate::float32::Float32;
use crate::float64::Float64;
use crate::geometry::Point;
use crate::sample::{PointerId, Sample, ToolCaps, ToolKind};
use crate::stylus::{Phase, StylusEvent};
use std::collections::HashMap;
use vstd::prelude::*;

pub mod mac;
pub mod wayland;
pub mod web;
pub mod windows;
pub mod x11;

use crate::adapter::web::WebPointerState;

verus! {

/// What is known of one physical stylus, learned from proximity events or assumed at the
/// first stroke where none was seen.
#[derive(Debug, Clone, Copy, PartialEq)]
pub struct PenState {
    pub active_pointer_id: Option<PointerId>,
    pub caps: ToolCaps,
    pub tool: ToolKind,
    pub unique_id: Option<u64>,
    pub last_position: Option<Point>,
}

/// Where a platform clock, which counts seconds, stood when its first sample came in, and the
/// session time then, in nanoseconds.
#[derive(Debug, Clone, Copy, PartialEq)]
pub struct PlatformTimestampAnchor {
    pub first_platform_secs: Float64,
    pub adapter_nanos_at_first: u128,
}

impl PlatformTimestampAnchor {
    /// The anchor in force once a sample of the given times has come in.
    pub open spec fn anchored(
        slot: Option<PlatformTimestampAnchor>,
        platform_secs: Float64,
        now: u128,
    ) -> PlatformTimestampAnchor {
        match slot {
            Some(anchor) => anchor,
            None => PlatformTimestampAnchor {
                first_platform_secs: platform_secs,
                adapter_nanos_at_first: now,
            },
        }
    }

    /// The session time of a platform time: the time of the first sample plus what the
    /// platform clock has advanced since, never less than the former and at most the end of
    /// the range.
    pub open spec fn translated(self, platform_secs: Float64) -> u128 {
        let since = platform_secs.difference(self.first_platform_secs).larger(
            Float64(0),
        ).as_nanos();
        if self.adapter_nanos_at_first + since > u128::MAX {
            u128::MAX
        } else {
            (self.adapter_nanos_at_first + since) as u128
        }
    }

    /// Translates a platform time to session time, anchoring the platform clock if this is its
    /// first sample.
    pub fn translate_or_anchor(
        slot: &mut Option<PlatformTimestampAnchor>,
        platform_secs: Float64,
        now: u128,
    ) -> (res: u128)
        ensures
            *final(slot) == Some(
                PlatformTimestampAnchor::anchored(*old(slot), platform_secs, now),
            ),
            res == PlatformTimestampAnchor::anchored(*old(slot), platform_secs, now).translated(
                platform_secs,
            ),
    {
        let anchor = match *slot {
            Some(anchor) => anchor,
            None => PlatformTimestampAnchor {
                first_platform_secs: platform_secs,
                adapter_nanos_at_first: now,
            },
        };
        *slot = Some(anchor);
        let since: u128 = platform_secs.sub(anchor.first_platform_secs).max(Float64(0)).to_nanos();
        anchor.adapter_nanos_at_first.saturating_add(since)
    }
}

/// Phase of a finger on a touch screen.
#[derive(Debug, Clone, Copy, PartialEq, Eq, Structural)]
pub enum TouchPhase {
    Started,
    Moved,
    Ended,
    Cancelled,
}

/// How hard a finger presses, as the window system reports it.
#[derive(Debug, Clone, Copy, PartialEq)]
pub enum Force {
    /// In units of the sensor, with the most that it can report.
    Calibrated { force: Float64, max_possible_force: Float64 },
    /// From 0 to 1.
    Normalized(Float64),
}

impl Force {
    /// The pressure: the part of the most that can be reported. A sensor that can report
    /// nothing reports nothing.
    #[verifier::opaque]
    pub open spec fn pressure(self) -> Float32 {
        match self {
            Force::Calibrated { force, max_possible_force } => {
                if Float64(0).below(max_possible_force) {
                    Float32::narrowed(force.quotient(max_possible_force))
                } else {
                    Float32(0)
                }
            },
            Force::Normalized(n) => Float32::narrowed(n),
        }
    }
}

/// The pressure of a finger.
pub fn normalize_force(force: Force) -> (res: Float32)
    ensures
        res == force.pressure(),
{
    reveal(Force::pressure);
    match force {
        Force::Calibrated { force, max_possible_force } => {
            if Float64(0).lt(max_possible_force) {
                Float32::from_f64(force.div(max_possible_force))
            } else {
                Float32(0)
            }
        },
        Force::Normalized(n) => Float32::from_f64(n),
    }
}

/// A finger event of the window system.
#[derive(Debug, Clone, Copy, PartialEq)]
pub struct TouchInput {
    pub id: u64,
    pub phase: TouchPhase,
    pub location: Point,
    pub force: Option<Force>,
}

impl TouchInput {
    /// The pressure, where a force is reported.
    pub open spec fn pressure(self) -> Option<Float32> {
        match self.force {
            Some(force) => Some(force.pressure()),
            None => None,
        }
    }
}

/// An event of the window system, as far as it concerns pointers.
#[derive(Debug, Clone, Copy, PartialEq)]
pub enum WindowInput {
    CursorMoved { position: Point },
    LeftButton { pressed: bool },
    Touch(TouchInput),
    /// Anything else. The cursor leaving the window is among these: a stroke goes on until
    /// its button is released.
    Other,
}

/// Translates input into stylus events and queues them.
#[derive(Debug)]
pub struct StylusAdapter {
    next_pointer_id: u64,
    /// From the window system's finger to our pointer.
    touches: HashMap<u64, PointerId>,
    mouse_down: bool,
    cursor_position: Option<Point>,
    queue: Vec<StylusEvent>,
    /// By device.
    pens: HashMap<u32, PenState>,
    /// The pen that drives the pointer now; while there is one, mouse events are duplicates.
    active_pen_pointer: Option<PointerId>,
    /// Estimated samples that wait for their revision: from the update index to the pointer.
    pending_estimated: HashMap<u64, PointerId>,
    next_update_index: u64,
    mac_anchor: Option<PlatformTimestampAnchor>,
    wayland_anchor: Option<PlatformTimestampAnchor>,
    windows_anchor: Option<PlatformTimestampAnchor>,
    web_anchor: Option<PlatformTimestampAnchor>,
    /// From the browser's pointer, for the span of one gesture.
    web_pointers: HashMap<i32, WebPointerState>,
}

/// The mathematical content of an adapter.
#[verifier::ext_equal]
pub struct AdapterView {
    pub next_pointer: u64,
    pub touches: Map<u64, PointerId>,
    pub mouse_down: bool,
    pub cursor: Option<Point>,
    pub queue: Seq<StylusEvent>,
    pub pens: Map<u32, PenState>,
    pub active_pen: Option<PointerId>,
    pub pending: Map<u64, PointerId>,
    pub next_update: u64,
    pub mac_anchor: Option<PlatformTimestampAnchor>,
    pub wayland_anchor: Option<PlatformTimestampAnchor>,
    pub windows_anchor: Option<PlatformTimestampAnchor>,
    pub web_anchor: Option<PlatformTimestampAnchor>,
    pub web_pointers: Map<i32, WebPointerState>,
}

impl View for StylusAdapter {
    type V = AdapterView;

    closed spec fn view(&self) -> AdapterView {
        AdapterView {
            next_pointer: self.next_pointer_id,
            touches: self.touches@,
            mouse_down: self.mouse_down,
            cursor: self.cursor_position,
            queue: self.queue@,
            pens: self.pens@,
            active_pen: self.active_pen_pointer,
            pending: self.pending_estimated@,
            next_update: self.next_update_index,
            mac_anchor: self.mac_anchor,
            wayland_anchor: self.wayland_anchor,
            windows_anchor: self.windows_anchor,
            web_anchor: self.web_anchor,
            web_pointers: self.web_pointers@,
        }
    }
}

/// What can hold a pointer besides the mouse.
pub enum Holder {
    Finger(u64),
    Pen(u32),
    Browser(i32),
}

/// The pointer that is held.
pub open spec fn held(v: AdapterView, h: Holder) -> Option<PointerId> {
    match h {
        Holder::Finger(k) => if v.touches.contains_key(k) {
            Some(v.touches[k])
        } else {
            None
        },
        Holder::Pen(d) => if v.pens.contains_key(d) {
            v.pens[d].active_pointer_id
        } else {
            None
        },
        Holder::Browser(w) => if v.web_pointers.contains_key(w) {
            Some(v.web_pointers[w].adapter_pointer_id)
        } else {
            None
        },
    }
}

/// The pointer is in the middle of a stroke.
pub open spec fn drawing(v: AdapterView, pid: PointerId) -> bool {
    ||| pid == PointerId(0) && v.mouse_down
    ||| exists|h: Holder| #[trigger] held(v, h) == Some(pid)
}

/// A counter after one step, wrapping at the end of its range.
pub open spec fn next_number(n: u64) -> u64 {
    if n == u64::MAX {
        0
    } else {
        (n + 1) as u64
    }
}

/// The position, or the origin where none is known.
pub open spec fn or_origin(position: Option<Point>) -> Point {
    match position {
        Some(p) => p,
        None => Point::origin(),
    }
}

/// What a pen is assumed to report before any proximity event says so.
pub open spec fn optimistic_caps() -> ToolCaps {
    ToolCaps {
        pressure: true,
        tilt: true,
        twist: true,
        tangential_pressure: true,
        hover: false,
        barrel_button: false,
    }
}

/// What a pen is assumed to report before any proximity event says so.
pub fn optimistic_pen_caps() -> (res: ToolCaps)
    ensures
        res == optimistic_caps(),
{
    ToolCaps {
        pressure: true,
        tilt: true,
        twist: true,
        tangential_pressure: true,
        hover: false,
        barrel_button: false,
    }
}

/// `keys` names every entry of the pointer once, in some order.
pub open spec fn lists_entries(keys: Seq<u64>, m: Map<u64, PointerId>, pid: PointerId) -> bool {
    &&& keys.no_duplicates()
    &&& forall|k: u64| #[trigger]
        keys.contains(k) <==> m.contains_key(k) && m[k] == pid
}

/// `keys` names every key of the map once, in some order.
pub open spec fn lists_keys(keys: Seq<u64>, m: Map<u64, PointerId>) -> bool {
    &&& keys.no_duplicates()
    &&& keys.to_set() == m.dom()
}

/// `devices` names every pen with a stroke under way once, in some order.
pub open spec fn lists_drawing_pens(devices: Seq<u32>, pens: Map<u32, PenState>) -> bool {
    &&& devices.no_duplicates()
    &&& forall|d: u32| #[trigger]
        devices.contains(d) <==> pens.contains_key(d) && pens[d].active_pointer_id is Some
}

/// `keys` names every pointer of the browser once, in some order.
pub open spec fn lists_browsers(keys: Seq<i32>, m: Map<i32, WebPointerState>) -> bool {
    &&& keys.no_duplicates()
    &&& keys.to_set() == m.dom()
}

/// The cancel events of the pens in `devices`.
pub open spec fn pen_cancels(
    devices: Seq<u32>,
    pens: Map<u32, PenState>,
    now: u128,
) -> Seq<StylusEvent> {
    devices.map_values(
        |d: u32|
            StylusEvent::Sample {
                sample: Sample::of_pen(
                    or_origin(pens[d].last_position),
                    now,
                    pens[d].active_pointer_id->0,
                    pens[d].tool,
                ),
                phase: Phase::Cancel,
                caps: pens[d].caps,
            },
    )
}

/// The cancel events of the browser's pointers in `keys`.
pub open spec fn browser_cancels(
    keys: Seq<i32>,
    pointers: Map<i32, WebPointerState>,
    now: u128,
) -> Seq<StylusEvent> {
    keys.map_values(
        |k: i32|
            StylusEvent::Sample {
                sample: Sample::of_pen(
                    or_origin(pointers[k].last_position),
                    now,
                    pointers[k].adapter_pointer_id,
                    pointers[k].tool,
                ),
                phase: Phase::Cancel,
                caps: pointers[k].caps,
            },
    )
}

/// The cancel events of the fingers in `keys`.
pub open spec fn finger_cancels(
    keys: Seq<u64>,
    touches: Map<u64, PointerId>,
    position: Point,
    now: u128,
) -> Seq<StylusEvent> {
    keys.map_values(
        |k: u64|
            StylusEvent::Sample {
                sample: Sample::of_finger(position, now, touches[k], None),
                phase: Phase::Cancel,
                caps: ToolCaps::none(),
            },
    )
}

impl AdapterView {
    /// With one more event in the queue.
    pub open spec fn emit(self, event: StylusEvent) -> AdapterView {
        AdapterView { queue: self.queue.push(event), ..self }
    }

    /// With one more sample in the queue.
    pub open spec fn emit_sample(self, sample: Sample, phase: Phase, caps: ToolCaps) -> AdapterView {
        self.emit(StylusEvent::Sample { sample, phase, caps })
    }

    /// With one more mouse sample in the queue.
    pub open spec fn emit_mouse(self, position: Point, phase: Phase, now: u128) -> AdapterView {
        self.emit_sample(Sample::of_mouse(position, now, PointerId(0)), phase, ToolCaps::none())
    }

    /// Some pointer is in the middle of a gesture.
    pub open spec fn tracking(self) -> bool {
        exists|pid: PointerId| drawing(self, pid)
    }

    /// After a finger event.
    pub open spec fn after_touch(self, touch: TouchInput, now: u128) -> AdapterView {
        let caps = if touch.force is Some {
            ToolCaps::only_pressure()
        } else {
            ToolCaps::none()
        };
        match touch.phase {
            TouchPhase::Started => {
                let pid = PointerId(self.next_pointer);
                AdapterView {
                    next_pointer: next_number(self.next_pointer),
                    touches: self.touches.insert(touch.id, pid),
                    ..self
                }.emit_sample(
                    Sample::of_finger(touch.location, now, pid, touch.pressure()),
                    Phase::Down,
                    caps,
                )
            },
            TouchPhase::Moved => if self.touches.contains_key(touch.id) {
                self.emit_sample(
                    Sample::of_finger(touch.location, now, self.touches[touch.id], touch.pressure()),
                    Phase::Move,
                    caps,
                )
            } else {
                self
            },
            _ => if self.touches.contains_key(touch.id) {
                AdapterView { touches: self.touches.remove(touch.id), ..self }.emit_sample(
                    Sample::of_finger(touch.location, now, self.touches[touch.id], touch.pressure()),
                    if touch.phase == TouchPhase::Ended {
                        Phase::Up
                    } else {
                        Phase::Cancel
                    },
                    caps,
                )
            } else {
                self
            },
        }
    }

    /// After an event of the window system.
    pub open spec fn after_window_event(self, event: WindowInput, now: u128) -> AdapterView {
        if self.active_pen is Some {
            match event {
                WindowInput::CursorMoved { position } => AdapterView {
                    cursor: Some(position),
                    ..self
                },
                _ => self,
            }
        } else {
            match event {
                WindowInput::CursorMoved { position } => {
                    let moved = AdapterView { cursor: Some(position), ..self };
                    if self.mouse_down {
                        moved.emit_mouse(position, Phase::Move, now)
                    } else {
                        moved
                    }
                },
                WindowInput::LeftButton { pressed } => if pressed && !self.mouse_down
                    && self.cursor is Some {
                    AdapterView { mouse_down: true, ..self }.emit_mouse(
                        self.cursor->0,
                        Phase::Down,
                        now,
                    )
                } else if !pressed && self.mouse_down {
                    AdapterView { mouse_down: false, ..self }.emit_mouse(
                        or_origin(self.cursor),
                        Phase::Up,
                        now,
                    )
                } else {
                    self
                },
                WindowInput::Touch(touch) => self.after_touch(touch, now),
                WindowInput::Other => self,
            }
        }
    }

    /// Without the pending estimates of a pointer.
    pub open spec fn without_pending(self, pid: PointerId) -> AdapterView {
        AdapterView {
            pending: Map::new(
                |k: u64| self.pending.contains_key(k) && self.pending[k] != pid,
                |k: u64| self.pending[k],
            ),
            ..self
        }
    }

    /// The state of a pen, or `fresh` where the device is new.
    pub open spec fn pen_or(self, device: u32, fresh: PenState) -> PenState {
        if self.pens.contains_key(device) {
            self.pens[device]
        } else {
            fresh
        }
    }

    /// With a pen seen at a position; a new one starts out as `fresh`.
    pub open spec fn pen_seen(self, device: u32, fresh: PenState, position: Point) -> AdapterView {
        AdapterView {
            pens: self.pens.insert(
                device,
                PenState { last_position: Some(position), ..self.pen_or(device, fresh) },
            ),
            ..self
        }
    }

    /// With a pen's stroke begun under the next pointer, which from now on drives the pointer.
    pub open spec fn pen_begun(self, device: u32) -> AdapterView {
        let pid = PointerId(self.next_pointer);
        AdapterView {
            next_pointer: next_number(self.next_pointer),
            pens: self.pens.insert(
                device,
                PenState { active_pointer_id: Some(pid), ..self.pens[device] },
            ),
            active_pen: Some(pid),
            ..self
        }
    }

    /// With no pen driving the pointer if `pid` did.
    pub open spec fn pen_let_go(self, pid: PointerId) -> AdapterView {
        AdapterView {
            active_pen: if self.active_pen == Some(pid) {
                None
            } else {
                self.active_pen
            },
            ..self
        }
    }

    /// With a pen's stroke ended.
    pub open spec fn pen_ended(self, device: u32, pid: PointerId) -> AdapterView {
        AdapterView {
            pens: self.pens.insert(
                device,
                PenState { active_pointer_id: None, ..self.pens[device] },
            ),
            ..self
        }.pen_let_go(pid)
    }

    /// The pointer that a sample of a pen that was seen belongs to: a new one for a down, else
    /// that of the stroke under way.
    pub open spec fn pen_pointer(self, device: u32, phase: Phase) -> Option<PointerId> {
        if phase == Phase::Down {
            Some(PointerId(self.next_pointer))
        } else {
            self.pens[device].active_pointer_id
        }
    }

    /// After a sample of a pen that was seen. A down begins a stroke, an up or a cancel ends it.
    pub open spec fn after_pen_sample(
        self,
        device: u32,
        phase: Phase,
        sample: Sample,
    ) -> AdapterView {
        let caps = self.pens[device].caps;
        match self.pen_pointer(device, phase) {
            Some(pid) => if phase == Phase::Down {
                self.pen_begun(device).emit_sample(sample, phase, caps)
            } else if phase == Phase::Move {
                self.emit_sample(sample, phase, caps)
            } else {
                self.emit_sample(sample, phase, caps).pen_ended(device, pid)
            },
            None => self,
        }
    }

    /// After a pen has come into proximity and told what it is. A stroke of its that is under
    /// way goes on.
    pub open spec fn pen_entered(
        self,
        device: u32,
        caps: ToolCaps,
        tool: ToolKind,
        unique_id: Option<u64>,
    ) -> AdapterView {
        let known = self.pen_or(
            device,
            PenState { active_pointer_id: None, caps, tool, unique_id, last_position: None },
        );
        AdapterView {
            pens: self.pens.insert(device, PenState { caps, tool, unique_id, ..known }),
            ..self
        }
    }

    /// After a stroke was cut off: it is cancelled where it was last seen.
    pub open spec fn cut_off(
        self,
        pid: PointerId,
        position: Option<Point>,
        tool: ToolKind,
        caps: ToolCaps,
        now: u128,
    ) -> AdapterView {
        self.emit_sample(
            Sample::of_pen(or_origin(position), now, pid, tool),
            Phase::Cancel,
            caps,
        ).without_pending(pid).pen_let_go(pid)
    }

    /// After a pen has left proximity. It is forgotten; a stroke that was under way is
    /// cancelled.
    pub open spec fn pen_left(self, device: u32, now: u128) -> AdapterView {
        if self.pens.contains_key(device) {
            let pen = self.pens[device];
            let gone = AdapterView { pens: self.pens.remove(device), ..self };
            match pen.active_pointer_id {
                Some(pid) => gone.cut_off(pid, pen.last_position, pen.tool, pen.caps, now),
                None => gone,
            }
        } else {
            self
        }
    }

    /// After the mouse stroke, if any, is cancelled.
    pub open spec fn mouse_cancelled(self, now: u128) -> AdapterView {
        if self.mouse_down {
            AdapterView { mouse_down: false, ..self }.emit_mouse(
                or_origin(self.cursor),
                Phase::Cancel,
                now,
            )
        } else {
            self
        }
    }

    /// The pens without the strokes that were under way.
    pub open spec fn pens_lifted(self) -> Map<u32, PenState> {
        Map::new(
            |d: u32| self.pens.contains_key(d),
            |d: u32| PenState { active_pointer_id: None, ..self.pens[d] },
        )
    }

    /// After the application has lost the focus: the strokes of the mouse, of the pens in
    /// `devices`, of the fingers in `fingers` and of the browser's pointers in `browsers` are
    /// cancelled, in this order, and no estimate is awaited any more.
    pub open spec fn after_focus_lost(
        self,
        devices: Seq<u32>,
        fingers: Seq<u64>,
        browsers: Seq<i32>,
        now: u128,
    ) -> AdapterView {
        let quiet = self.mouse_cancelled(now);
        AdapterView {
            queue: quiet.queue + pen_cancels(devices, self.pens, now) + finger_cancels(
                fingers,
                self.touches,
                or_origin(self.cursor),
                now,
            ) + browser_cancels(browsers, self.web_pointers, now),
            pens: self.pens_lifted(),
            active_pen: None,
            touches: Map::empty(),
            web_pointers: Map::empty(),
            pending: Map::empty(),
            ..quiet
        }
    }
}

fn keys_of_touches(m: &HashMap<u64, PointerId>) -> (res: Vec<u64>)
    ensures
        lists_keys(res@, m@),
{
    let mut res: Vec<u64> = Vec::new();
    for k in it: m.keys()
        invariant
            res@ == it.seq().unref().take(it.index() as int),
            it.seq().unref().to_set() == m@.dom(),
            it.seq().no_duplicates(),
            it.index() == it.seq().len() ==> res@ == it.seq().unref(),
    {
        res.push(*k);
        assert(res@ =~= it.seq().unref().take(it.index() + 1));
        assert(it.index() + 1 == it.seq().len() ==> res@ =~= it.seq().unref());
    }
    res
}

fn keys_of_pens(m: &HashMap<u32, PenState>) -> (res: Vec<u32>)
    ensures
        res@.no_duplicates(),
        res@.to_set() == m@.dom(),
{
    let mut res: Vec<u32> = Vec::new();
    for k in it: m.keys()
        invariant
            res@ == it.seq().unref().take(it.index() as int),
            it.seq().unref().to_set() == m@.dom(),
            it.seq().no_duplicates(),
            it.index() == it.seq().len() ==> res@ == it.seq().unref(),
    {
        res.push(*k);
        assert(res@ =~= it.seq().unref().take(it.index() + 1));
        assert(it.index() + 1 == it.seq().len() ==> res@ =~= it.seq().unref());
    }
    res
}

fn keys_of_browsers(m: &HashMap<i32, WebPointerState>) -> (res: Vec<i32>)
    ensures
        lists_browsers(res@, m@),
{
    let mut res: Vec<i32> = Vec::new();
    for k in it: m.keys()
        invariant
            res@ == it.seq().unref().take(it.index() as int),
            it.seq().unref().to_set() == m@.dom(),
            it.seq().no_duplicates(),
            it.index() == it.seq().len() ==> res@ == it.seq().unref(),
    {
        res.push(*k);
        assert(res@ =~= it.seq().unref().take(it.index() + 1));
        assert(it.index() + 1 == it.seq().len() ==> res@ =~= it.seq().unref());
    }
    res
}

/// Takes the number of a counter and steps it on, wrapping at the end of its range.
fn take_number(counter: &mut u64) -> (n: u64)
    ensures
        n == *old(counter),
        *final(counter) == next_number(*old(counter)),
{
    let n: u64 = *counter;
    *counter = counter.wrapping_add(1);
    n
}

impl AdapterView {
    /// An adapter that has seen nothing. Pointer 0 is the mouse, so others start at 1.
    pub open spec fn initial() -> AdapterView {
        AdapterView {
            next_pointer: 1,
            touches: Map::empty(),
            mouse_down: false,
            cursor: None,
            queue: Seq::empty(),
            pens: Map::empty(),
            active_pen: None,
            pending: Map::empty(),
            next_update: 1,
            mac_anchor: None,
            wayland_anchor: None,
            windows_anchor: None,
            web_anchor: None,
            web_pointers: Map::empty(),
        }
    }
}

impl StylusAdapter {
    /// An adapter that has seen nothing.
    #[must_use]
    pub fn new() -> (res: StylusAdapter)
        ensures
            res@ == AdapterView::initial(),
    {
        let res = StylusAdapter {
            next_pointer_id: 1,
            touches: HashMap::new(),
            mouse_down: false,
            cursor_position: None,
            queue: Vec::new(),
            pens: HashMap::new(),
            active_pen_pointer: None,
            pending_estimated: HashMap::new(),
            next_update_index: 1,
            mac_anchor: None,
            wayland_anchor: None,
            windows_anchor: None,
            web_anchor: None,
            web_pointers: HashMap::new(),
        };
        assert(res@ =~= AdapterView::initial());
        res
    }

    /// Whether some pointer is in the middle of a gesture. While one is, events go on to the
    /// adapter even when the cursor crosses into a panel.
    #[must_use]
    pub fn is_tracking_pointer(&self) -> (res: bool)
        ensures
            res == self@.tracking(),
    {
        let devices = self.drawing_pens();
        proof {
            if self@.mouse_down {
                assert(drawing(self@, PointerId(0)));
            }
            if self@.touches.dom().len() > 0 {
                let k = self@.touches.dom().choose();
                assert(self@.touches.dom().contains(k));
                assert(held(self@, Holder::Finger(k)) == Some(self@.touches[k]));
                assert(drawing(self@, self@.touches[k]));
            }
            if self@.web_pointers.dom().len() > 0 {
                let k = self@.web_pointers.dom().choose();
                assert(self@.web_pointers.dom().contains(k));
                let pid = self@.web_pointers[k].adapter_pointer_id;
                assert(held(self@, Holder::Browser(k)) == Some(pid));
                assert(drawing(self@, pid));
            }
            if devices@.len() > 0 {
                let d = devices@[0];
                assert(devices@.contains(d));
                let pid = self@.pens[d].active_pointer_id->0;
                assert(held(self@, Holder::Pen(d)) == Some(pid));
                assert(drawing(self@, pid));
            }
            if exists|pid: PointerId| drawing(self@, pid) {
                let pid = choose|pid: PointerId| drawing(self@, pid);
                if !self@.mouse_down {
                    let h = choose|h: Holder| #[trigger] held(self@, h) == Some(pid);
                    match h {
                        Holder::Finger(k) => {
                            assert(self@.touches.dom().contains(k));
                        },
                        Holder::Pen(d) => {
                            assert(devices@.contains(d));
                        },
                        Holder::Browser(k) => {
                            assert(self@.web_pointers.dom().contains(k));
                        },
                    }
                }
            }
        }
        self.mouse_down || self.touches.len() > 0 || self.web_pointers.len() > 0 || devices.len()
            > 0
    }

    /// The pen pointer that drives the pointer now.
    pub fn active_pen_pointer(&self) -> (res: Option<PointerId>)
        ensures
            res == self@.active_pen,
    {
        self.active_pen_pointer
    }

    /// What is known of a pen.
    pub fn pen(&self, device_id: u32) -> (res: Option<PenState>)
        ensures
            res == (if self@.pens.contains_key(device_id) {
                Some(self@.pens[device_id])
            } else {
                None
            }),
    {
        match self.pens.get(&device_id) {
            Some(pen) => Some(*pen),
            None => None,
        }
    }

    /// How many estimated samples wait for their revision.
    pub fn pending_count(&self) -> (res: usize)
        ensures
            res == self@.pending.dom().len(),
    {
        self.pending_estimated.len()
    }

    /// How many fingers are down.
    pub fn touch_count(&self) -> (res: usize)
        ensures
            res == self@.touches.dom().len(),
    {
        self.touches.len()
    }

    /// Whether the mouse button is down.
    pub fn is_mouse_down(&self) -> (res: bool)
        ensures
            res == self@.mouse_down,
    {
        self.mouse_down
    }

    /// Takes the queued events, first in first out.
    pub fn drain(&mut self) -> (res: Vec<StylusEvent>)
        ensures
            res@ == old(self)@.queue,
            final(self)@ == (AdapterView { queue: Seq::empty(), ..old(self)@ }),
    {
        let mut res: Vec<StylusEvent> = Vec::new();
        std::mem::swap(&mut res, &mut self.queue);
        assert(self@.queue =~= Seq::<StylusEvent>::empty());
        res
    }

    /// Translates an event of the window system.
    pub fn on_window_event(&mut self, event: WindowInput, now: u128)
        ensures
            final(self)@ == old(self)@.after_window_event(event, now),
    {
        if self.active_pen_pointer.is_some() {
            if let WindowInput::CursorMoved { position } = event {
                self.cursor_position = Some(position);
            }
            return;
        }
        match event {
            WindowInput::CursorMoved { position } => {
                self.cursor_position = Some(position);
                if self.mouse_down {
                    self.emit_mouse(position, Phase::Move, now);
                }
            },
            WindowInput::LeftButton { pressed } => {
                if pressed {
                    if !self.mouse_down {
                        if let Some(p) = self.cursor_position {
                            self.mouse_down = true;
                            self.emit_mouse(p, Phase::Down, now);
                        }
                    }
                } else if self.mouse_down {
                    self.mouse_down = false;
                    let p = self.cursor_or_origin();
                    self.emit_mouse(p, Phase::Up, now);
                }
            },
            WindowInput::Touch(touch) => {
                self.handle_touch(touch, now);
            },
            WindowInput::Other => {},
        }
    }

    fn handle_touch(&mut self, touch: TouchInput, now: u128)
        ensures
            final(self)@ == old(self)@.after_touch(touch, now),
    {
        let caps = match touch.force {
            Some(_) => ToolCaps::pressure_only(),
            None => ToolCaps::empty(),
        };
        let (pid, phase) = match touch.phase {
            TouchPhase::Started => {
                let pid = PointerId(take_number(&mut self.next_pointer_id));
                self.touches.insert(touch.id, pid);
                (pid, Phase::Down)
            },
            TouchPhase::Moved => match self.touches.get(&touch.id) {
                Some(pid) => (*pid, Phase::Move),
                None => return,
            },
            TouchPhase::Ended => match self.touches.remove(&touch.id) {
                Some(pid) => (pid, Phase::Up),
                None => {
                    assert(self@.touches =~= old(self)@.touches);
                    return;
                },
            },
            TouchPhase::Cancelled => match self.touches.remove(&touch.id) {
                Some(pid) => (pid, Phase::Cancel),
                None => {
                    assert(self@.touches =~= old(self)@.touches);
                    return;
                },
            },
        };
        let pressure = match touch.force {
            Some(force) => Some(normalize_force(force)),
            None => None,
        };
        let sample = Sample::finger(touch.location, now, pid, pressure);
        self.emit_sample(sample, phase, caps);
    }

    fn cursor_or_origin(&self) -> (res: Point)
        ensures
            res == or_origin(self@.cursor),
    {
        match self.cursor_position {
            Some(p) => p,
            None => Point::zero(),
        }
    }

    fn emit_sample(&mut self, sample: Sample, phase: Phase, caps: ToolCaps)
        ensures
            final(self)@ == old(self)@.emit_sample(sample, phase, caps),
    {
        self.queue.push(StylusEvent::Sample { sample, phase, caps });
    }

    fn emit_mouse(&mut self, position: Point, phase: Phase, now: u128)
        ensures
            final(self)@ == old(self)@.emit_mouse(position, phase, now),
    {
        let sample = Sample::mouse(position, now, PointerId::mouse());
        self.emit_sample(sample, phase, ToolCaps::empty());
    }
}

impl StylusAdapter {
    /// Takes the estimates of a pointer that wait for a revision, in some order.
    fn take_pending_for_pointer(&mut self, pid: PointerId) -> (keys: Vec<u64>)
        ensures
            lists_entries(keys@, old(self)@.pending, pid),
            final(self)@ == old(self)@.without_pending(pid),
    {
        let all = keys_of_touches(&self.pending_estimated);
        let ghost before = self.pending_estimated@;
        let mut keys: Vec<u64> = Vec::new();
        let mut i: usize = 0;
        while i < all.len()
            invariant
                i <= all.len(),
                lists_keys(all@, before),
                before == old(self)@.pending,
                self@ == (AdapterView { pending: self@.pending, ..old(self)@ }),
                keys@.no_duplicates(),
                forall|k: u64| #[trigger]
                    keys@.contains(k) <==> all@.take(i as int).contains(k) && before[k] == pid,
                forall|k: u64| #[trigger]
                    self@.pending.contains_key(k) <==> before.contains_key(k) && !keys@.contains(k),
                forall|k: u64|
                    self@.pending.contains_key(k) ==> #[trigger] self@.pending[k] == before[k],
            decreases all.len() - i,
        {
            let k: u64 = all[i];
            let ghost earlier = all@.take(i as int);
            let ghost next = all@.take(i + 1);
            let ghost kept = keys@;
            proof {
                assert(all@.to_set().contains(k));
                assert(next =~= earlier.push(k));
                assert(!earlier.contains(k)) by {
                    if earlier.contains(k) {
                        let j = choose|j: int| 0 <= j < earlier.len() && earlier[j] == k;
                        assert(all@[j] == all@[i as int]);
                    }
                }
                assert forall|x: u64| next.contains(x) <==> (earlier.contains(x) || x == k) by {
                    lemma_push_contains(earlier, k, x);
                }
            }
            proof {
                assert(!kept.contains(k));
                assert(self@.pending.contains_key(k));
                assert(self@.pending[k] == before[k]);
            }
            let is_match = match self.pending_estimated.get(&k) {
                Some(owner) => *owner == pid,
                None => false,
            };
            if is_match {
                self.pending_estimated.remove(&k);
                keys.push(k);
                proof {
                    assert forall|x: u64| keys@.contains(x) <==> (kept.contains(x) || x == k) by {
                        lemma_push_contains(kept, k, x);
                    }
                }
            }
            assert forall|x: u64| #[trigger]
                keys@.contains(x) <==> all@.take(i + 1).contains(x) && before[x] == pid by {
                assert(next.contains(x) <==> (earlier.contains(x) || x == k));
                assert(kept.contains(x) <==> earlier.contains(x) && before[x] == pid);
            }
            i = i + 1;
        }
        proof {
            assert(all@.take(i as int) =~= all@);
            assert forall|k: u64| #[trigger]
                keys@.contains(k) <==> before.contains_key(k) && before[k] == pid by {
                assert(all@.contains(k) <==> all@.to_set().contains(k));
            }
            assert(self@.pending =~= old(self)@.without_pending(pid).pending);
        }
        keys
    }

    /// Notes that a pen was seen, and returns what it reports, what tool it is and which stroke
    /// of its is under way.
    fn see_pen(&mut self, device_id: u32, fresh: PenState, position: Point) -> (res: PenState)
        ensures
            final(self)@ == old(self)@.pen_seen(device_id, fresh, position),
            res == final(self)@.pens[device_id],
    {
        let known = match self.pens.get(&device_id) {
            Some(pen) => *pen,
            None => fresh,
        };
        let pen = PenState { last_position: Some(position), ..known };
        self.pens.insert(device_id, pen);
        pen
    }

    /// Begins a stroke of a pen that was seen under a new pointer.
    fn begin_pen(&mut self, device_id: u32, pen: PenState) -> (pid: PointerId)
        requires
            pen == old(self)@.pens[device_id],
        ensures
            pid == PointerId(old(self)@.next_pointer),
            final(self)@ == old(self)@.pen_begun(device_id),
    {
        let pid = PointerId(take_number(&mut self.next_pointer_id));
        self.pens.insert(device_id, PenState { active_pointer_id: Some(pid), ..pen });
        self.active_pen_pointer = Some(pid);
        pid
    }

    fn let_go_of_pen(&mut self, pid: PointerId)
        ensures
            final(self)@ == old(self)@.pen_let_go(pid),
    {
        if let Some(active) = self.active_pen_pointer {
            if active == pid {
                self.active_pen_pointer = None;
            }
        }
    }

    /// Ends a stroke of a pen.
    fn end_pen(&mut self, device_id: u32, pen: PenState, pid: PointerId)
        requires
            pen == old(self)@.pens[device_id],
        ensures
            final(self)@ == old(self)@.pen_ended(device_id, pid),
    {
        self.pens.insert(device_id, PenState { active_pointer_id: None, ..pen });
        self.let_go_of_pen(pid);
    }

    /// Takes note of what a pen that came into proximity is.
    fn enter_pen(&mut self, device_id: u32, caps: ToolCaps, tool: ToolKind, unique_id: Option<u64>)
        ensures
            final(self)@ == old(self)@.pen_entered(device_id, caps, tool, unique_id),
    {
        let known = match self.pens.get(&device_id) {
            Some(pen) => *pen,
            None => PenState {
                active_pointer_id: None,
                caps,
                tool,
                unique_id,
                last_position: None,
            },
        };
        self.pens.insert(device_id, PenState { caps, tool, unique_id, ..known });
    }

    /// Cancels a stroke that was cut off.
    fn cut_off(
        &mut self,
        pid: PointerId,
        position: Option<Point>,
        tool: ToolKind,
        caps: ToolCaps,
        now: u128,
    )
        ensures
            final(self)@ == old(self)@.cut_off(pid, position, tool, caps, now),
    {
        let position = match position {
            Some(p) => p,
            None => Point::zero(),
        };
        let sample = Sample::new_pen_placeholder(position, now, pid, tool);
        self.emit_sample(sample, Phase::Cancel, caps);
        self.take_pending_for_pointer(pid);
        self.let_go_of_pen(pid);
    }

    /// Forgets a pen that left proximity and cancels its stroke, if one was under way.
    fn leave_pen(&mut self, device_id: u32, now: u128)
        ensures
            final(self)@ == old(self)@.pen_left(device_id, now),
    {
        match self.pens.remove(&device_id) {
            Some(pen) => {
                if let Some(pid) = pen.active_pointer_id {
                    self.cut_off(pid, pen.last_position, pen.tool, pen.caps, now);
                }
            },
            None => {
                assert(self@.pens =~= old(self)@.pens);
            },
        }
    }

    /// The pens with a stroke under way, in some order.
    fn drawing_pens(&self) -> (res: Vec<u32>)
        ensures
            lists_drawing_pens(res@, self@.pens),
    {
        let all = keys_of_pens(&self.pens);
        let mut res: Vec<u32> = Vec::new();
        let mut i: usize = 0;
        while i < all.len()
            invariant
                i <= all.len(),
                all@.no_duplicates(),
                all@.to_set() == self@.pens.dom(),
                res@.no_duplicates(),
                forall|d: u32| #[trigger]
                    res@.contains(d) <==> all@.take(i as int).contains(d)
                        && self@.pens[d].active_pointer_id is Some,
            decreases all.len() - i,
        {
            let d: u32 = all[i];
            let ghost earlier = all@.take(i as int);
            let ghost kept = res@;
            proof {
                assert(all@.to_set().contains(d));
                assert(all@.take(i + 1) =~= earlier.push(d));
                assert(!earlier.contains(d)) by {
                    if earlier.contains(d) {
                        let j = choose|j: int| 0 <= j < earlier.len() && earlier[j] == d;
                        assert(all@[j] == all@[i as int]);
                    }
                }
            }
            assert(!kept.contains(d));
            if let Some(pen) = self.pens.get(&d) {
                if pen.active_pointer_id.is_some() {
                    res.push(d);
                }
            }
            assert forall|x: u32| #[trigger]
                res@.contains(x) <==> all@.take(i + 1).contains(x)
                    && self@.pens[x].active_pointer_id is Some by {
                lemma_push_contains(earlier, d, x);
                lemma_push_contains(kept, d, x);
                assert(kept.contains(x) <==> earlier.contains(x)
                    && self@.pens[x].active_pointer_id is Some);
            }
            i = i + 1;
        }
        proof {
            assert(all@.take(i as int) =~= all@);
            assert forall|d: u32| #[trigger]
                res@.contains(d) <==> self@.pens.contains_key(d)
                    && self@.pens[d].active_pointer_id is Some by {
                assert(all@.contains(d) <==> all@.to_set().contains(d));
            }
        }
        res
    }

    /// Cancels the strokes of all pens.
    fn cancel_pens(&mut self, now: u128) -> (devices: Ghost<Seq<u32>>)
        ensures
            lists_drawing_pens(devices@, old(self)@.pens),
            final(self)@ == (AdapterView {
                queue: old(self)@.queue + pen_cancels(devices@, old(self)@.pens, now),
                pens: old(self)@.pens_lifted(),
                active_pen: None,
                ..old(self)@
            }),
    {
        let ghost before = self@;
        let devices = self.drawing_pens();
        let ghost cancels = pen_cancels(devices@, before.pens, now);
        self.active_pen_pointer = None;
        let mut i: usize = 0;
        assert(before.queue + cancels.take(0) =~= before.queue);
        while i < devices.len()
            invariant
                i <= devices.len(),
                lists_drawing_pens(devices@, before.pens),
                cancels == pen_cancels(devices@, before.pens, now),
                self@ == (AdapterView {
                    queue: before.queue + cancels.take(i as int),
                    pens: self@.pens,
                    active_pen: None,
                    ..before
                }),
                self@.pens.dom() == before.pens.dom(),
                forall|d: u32|
                    before.pens.contains_key(d) ==> #[trigger] self@.pens[d] == (
                    if devices@.take(i as int).contains(d) {
                        PenState { active_pointer_id: None, ..before.pens[d] }
                    } else {
                        before.pens[d]
                    }),
            decreases devices.len() - i,
        {
            let d: u32 = devices[i];
            let ghost earlier = devices@.take(i as int);
            proof {
                assert(devices@.contains(d));
                assert(devices@.take(i + 1) =~= earlier.push(d));
                assert(!earlier.contains(d)) by {
                    if earlier.contains(d) {
                        let j = choose|j: int| 0 <= j < earlier.len() && earlier[j] == d;
                        assert(devices@[j] == devices@[i as int]);
                    }
                }
                assert(self@.pens[d] == before.pens[d]);
                assert(self@.pens.dom().contains(d));
                assert(cancels.take(i + 1) =~= cancels.take(i as int).push(cancels[i as int]));
            }
            let pen = self.pens.get(&d);
            if let Some(pen) = pen {
                let pen = *pen;
                if let Some(pid) = pen.active_pointer_id {
                    let position = match pen.last_position {
                        Some(p) => p,
                        None => Point::zero(),
                    };
                    let sample = Sample::new_pen_placeholder(position, now, pid, pen.tool);
                    self.emit_sample(sample, Phase::Cancel, pen.caps);
                    self.pens.insert(d, PenState { active_pointer_id: None, ..pen });
                }
            }
            proof {
                assert(self@.queue =~= before.queue + cancels.take(i + 1));
                assert(self@.pens.dom() =~= before.pens.dom());
                assert forall|x: u32| before.pens.contains_key(x) implies #[trigger] self@.pens[x]
                    == (if devices@.take(i + 1).contains(x) {
                    PenState { active_pointer_id: None, ..before.pens[x] }
                } else {
                    before.pens[x]
                }) by {
                    lemma_push_contains(earlier, d, x);
                }
            }
            i = i + 1;
        }
        proof {
            assert(devices@.take(i as int) =~= devices@);
            assert(cancels.take(i as int) =~= cancels);
            assert(self@.pens =~= before.pens_lifted()) by {
                assert forall|d: u32| before.pens.contains_key(d) implies self@.pens[d]
                    == before.pens_lifted()[d] by {
                    assert(devices@.contains(d) <==> before.pens[d].active_pointer_id is Some);
                }
            }
        }
        Ghost(devices@)
    }

    /// Cancels the strokes of all fingers.
    fn cancel_fingers(&mut self, now: u128) -> (keys: Ghost<Seq<u64>>)
        ensures
            lists_keys(keys@, old(self)@.touches),
            final(self)@ == (AdapterView {
                queue: old(self)@.queue + finger_cancels(
                    keys@,
                    old(self)@.touches,
                    or_origin(old(self)@.cursor),
                    now,
                ),
                touches: Map::empty(),
                ..old(self)@
            }),
    {
        let ghost quiet = self@;
        let position = self.cursor_or_origin();
        let keys = keys_of_touches(&self.touches);
        let mut i: usize = 0;
        let ghost cancels = finger_cancels(keys@, quiet.touches, position, now);
        assert(quiet.queue + cancels.take(0) =~= quiet.queue);
        while i < keys.len()
            invariant
                i <= keys.len(),
                lists_keys(keys@, quiet.touches),
                cancels == finger_cancels(keys@, quiet.touches, position, now),
                self@ == (AdapterView { queue: quiet.queue + cancels.take(i as int), ..quiet }),
            decreases keys.len() - i,
        {
            assert(keys@.to_set().contains(keys@[i as int]));
            if let Some(pid) = self.touches.get(&keys[i]) {
                let sample = Sample::finger(position, now, *pid, None);
                self.emit_sample(sample, Phase::Cancel, ToolCaps::empty());
                assert(cancels.take(i + 1) =~= cancels.take(i as int).push(cancels[i as int]));
                assert(self@.queue =~= quiet.queue + cancels.take(i + 1));
            }
            i = i + 1;
        }
        assert(cancels.take(i as int) =~= cancels);
        self.touches.clear();
        Ghost(keys@)
    }

    /// Cancels the gestures of all the browser's pointers.
    fn cancel_browsers(&mut self, now: u128) -> (keys: Ghost<Seq<i32>>)
        ensures
            lists_browsers(keys@, old(self)@.web_pointers),
            final(self)@ == (AdapterView {
                queue: old(self)@.queue + browser_cancels(keys@, old(self)@.web_pointers, now),
                web_pointers: Map::empty(),
                ..old(self)@
            }),
    {
        let ghost quiet = self@;
        let keys = keys_of_browsers(&self.web_pointers);
        let mut i: usize = 0;
        let ghost cancels = browser_cancels(keys@, quiet.web_pointers, now);
        assert(quiet.queue + cancels.take(0) =~= quiet.queue);
        while i < keys.len()
            invariant
                i <= keys.len(),
                lists_browsers(keys@, quiet.web_pointers),
                cancels == browser_cancels(keys@, quiet.web_pointers, now),
                self@ == (AdapterView { queue: quiet.queue + cancels.take(i as int), ..quiet }),
            decreases keys.len() - i,
        {
            assert(keys@.to_set().contains(keys@[i as int]));
            if let Some(state) = self.web_pointers.get(&keys[i]) {
                let state = *state;
                let position = match state.last_position {
                    Some(p) => p,
                    None => Point::zero(),
                };
                let sample = Sample::new_pen_placeholder(
                    position,
                    now,
                    state.adapter_pointer_id,
                    state.tool,
                );
                self.emit_sample(sample, Phase::Cancel, state.caps);
                assert(cancels.take(i + 1) =~= cancels.take(i as int).push(cancels[i as int]));
                assert(self@.queue =~= quiet.queue + cancels.take(i + 1));
            }
            i = i + 1;
        }
        assert(cancels.take(i as int) =~= cancels);
        self.web_pointers.clear();
        Ghost(keys@)
    }

    /// Cancels everything that is under way when the application loses the focus: the strokes
    /// of the mouse, of every pen, of every finger and of the browser's pointers.
    pub fn on_focus_lost(&mut self, now: u128)
        ensures
            exists|devices: Seq<u32>, fingers: Seq<u64>, browsers: Seq<i32>|
                {
                    &&& lists_drawing_pens(devices, old(self)@.pens)
                    &&& lists_keys(fingers, old(self)@.touches)
                    &&& lists_browsers(browsers, old(self)@.web_pointers)
                    &&& final(self)@ == #[trigger] old(self)@.after_focus_lost(
                        devices,
                        fingers,
                        browsers,
                        now,
                    )
                },
            forall|pid: PointerId| !drawing(final(self)@, pid),
    {
        if self.mouse_down {
            self.mouse_down = false;
            let p = self.cursor_or_origin();
            self.emit_mouse(p, Phase::Cancel, now);
        }
        assert(self@ == old(self)@.mouse_cancelled(now));
        let Ghost(devices) = self.cancel_pens(now);
        let Ghost(fingers) = self.cancel_fingers(now);
        let Ghost(browsers) = self.cancel_browsers(now);
        self.pending_estimated.clear();
        proof {
            assert(self@ =~= old(self)@.after_focus_lost(devices, fingers, browsers, now));
            assert forall|pid: PointerId| !drawing(self@, pid) by {
                assert forall|h: Holder| #[trigger] held(self@, h) is None by {}
            }
        }
    }
}

proof fn lemma_push_contains<A>(s: Seq<A>, k: A, x: A)
    ensures
        s.push(k).contains(x) <==> s.contains(x) || x == k,
{
    if s.contains(x) {
        let j = choose|j: int| 0 <= j < s.len() && s[j] == x;
        assert(s.push(k)[j] == x);
    }
    if x == k {
        assert(s.push(k)[s.len() as int] == x);
    }
    if s.push(k).contains(x) && x != k {
        let j = choose|j: int| 0 <= j < s.push(k).len() && s.push(k)[j] == x;
        assert(s[j] == x);
    }
}

impl Default for StylusAdapter {
    fn default() -> (res: StylusAdapter)
        ensures
            res@ == AdapterView::initial(),
    {
        StylusAdapter::new()
    }
}

} // verus!
