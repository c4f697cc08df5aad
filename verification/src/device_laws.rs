//! What is remembered of a device and told with its samples: where a pen was last seen, what it
//! can report, when a sample was taken; what becomes of a stroke whose device goes away; and what
//! the numbers of a device mean.

use crate::adapter::mac::{MacTabletOrigin, MacTabletPhase, MacTabletRawSample};
use crate::adapter::wayland::{WaylandProximitySample, WaylandRawSample, WaylandTabletPhase};
use crate::adapter::web::{WebProximitySample, WebRawSample, WebSourcePhase};
use crate::adapter::windows::{WindowsPointerPhase, WindowsProximitySample, WindowsRawSample};
use crate::adapter::x11::{X11ProximitySample, X11RawSample, X11TabletPhase};
use crate::adapter::{held, AdapterView, Force, Holder, PlatformTimestampAnchor};
use crate::brush::ONE;
use crate::float32::near::{lemma_quotient_near, lemma_whole_near, unit};
use crate::float32::Float32;
use crate::float64::error::distance;
use crate::float64::Float64;
use crate::geometry::Point;
use crate::input_laws::{ends, sample_of};
use crate::sample::{PointerId, SampleClass, ToolCaps, ToolKind};
use crate::stylus::{Phase, StylusEvent};
use crate::windows_tablet::{
    cancel_sample_of, device_key, samples_in_order, PenInfo, PointerMessage,
};
use vstd::arithmetic::power2::*;
use vstd::prelude::*;

verus! {

/// What a pen is taken to report that has not said so: its pressure and how it is held.
pub open spec fn assumed(caps: ToolCaps) -> bool {
    &&& caps.pressure && caps.tilt && caps.twist && caps.tangential_pressure
    &&& !caps.hover && !caps.barrel_button
}

/// The pen is known where it was seen, as the tool and with the capabilities that it was known
/// with before, or as it presents itself now.
pub open spec fn remembered(
    v: AdapterView,
    w: AdapterView,
    device: u32,
    position: Point,
    tool: ToolKind,
) -> bool {
    let pen = w.pens[device];
    &&& w.pens.contains_key(device)
    &&& pen.last_position == Some(position)
    &&& v.pens.contains_key(device) ==> pen.tool == v.pens[device].tool && pen.caps
        == v.pens[device].caps && pen.unique_id == v.pens[device].unique_id
    &&& !v.pens.contains_key(device) ==> pen.tool == tool && assumed(pen.caps)
}

/// What was queued last tells what its pen can report.
pub open spec fn tells_caps(w: AdapterView, device: u32) -> bool {
    w.queue.last()->caps == w.pens[device].caps
}

/// A tablet event of macOS leaves its pen remembered, and its sample says which buttons were
/// pressed, what the pen can report, and the time by the clock of the tablet.
pub proof fn lemma_mac_pens_are_remembered(
    v: AdapterView,
    raw: MacTabletRawSample,
    keys: Seq<u64>,
    now: u128,
)
    ensures
        ({
            let w = v.after_mac_raw(raw, keys, now);
            let s = sample_of(w.queue.last());
            let clock = PlatformTimestampAnchor::anchored(v.mac_anchor, raw.timestamp_secs, now);
            &&& remembered(
                v,
                w,
                raw.device_id,
                raw.position_physical_px,
                raw.pointing_device_type,
            )
            &&& w.mac_anchor == Some(clock)
            &&& raw.origin == MacTabletOrigin::MouseSubtype && (raw.source_phase
                == MacTabletPhase::Down || held(v, Holder::Pen(raw.device_id)) is Some) ==> {
                &&& s.timestamp == clock.translated(raw.timestamp_secs)
                &&& s.buttons.barrel == (raw.button_mask & 1 != 0)
                &&& s.buttons.secondary == (raw.button_mask & 2 != 0)
                &&& tells_caps(w, raw.device_id)
            }
        }),
{
}

/// A Wayland tablet event leaves its pen remembered, and its sample says what the pen can report
/// and the time by the clock of the compositor.
pub proof fn lemma_wayland_pens_are_remembered(v: AdapterView, raw: WaylandRawSample, now: u128)
    ensures
        ({
            let w = v.after_wayland_raw(raw, now);
            let s = sample_of(w.queue.last());
            let clock = PlatformTimestampAnchor::anchored(
                v.wayland_anchor,
                raw.timestamp_secs,
                now,
            );
            &&& remembered(
                v,
                w,
                raw.device_id,
                raw.position_physical_px,
                raw.pointing_device_type,
            )
            &&& w.wayland_anchor == Some(clock)
            &&& raw.source_phase == WaylandTabletPhase::Down || held(
                v,
                Holder::Pen(raw.device_id),
            ) is Some ==> {
                &&& s.timestamp == clock.translated(raw.timestamp_secs)
                &&& tells_caps(w, raw.device_id)
            }
        }),
{
}

/// An X11 tablet event leaves its pen remembered, and its sample says what the pen can report.
pub proof fn lemma_x11_pens_are_remembered(v: AdapterView, raw: X11RawSample, now: u128)
    ensures
        ({
            let w = v.after_x11_raw(raw, now);
            &&& remembered(
                v,
                w,
                raw.device_id,
                raw.position_physical_px,
                raw.pointing_device_type,
            )
            &&& raw.source_phase == X11TabletPhase::Down || held(
                v,
                Holder::Pen(raw.device_id),
            ) is Some ==> tells_caps(w, raw.device_id)
        }),
{
}

/// A Windows pointer event in contact leaves its pen remembered; one that hovers leaves all pens
/// as they are. Its sample says what the pen can report and the time by the performance counter.
pub proof fn lemma_windows_pens_are_remembered(v: AdapterView, raw: WindowsRawSample, now: u128)
    ensures
        ({
            let w = v.after_windows_raw(raw, now);
            let s = sample_of(w.queue.last());
            let clock = PlatformTimestampAnchor::anchored(
                v.windows_anchor,
                raw.timestamp_secs,
                now,
            );
            let hovers = raw.source_phase == WindowsPointerPhase::Hover;
            &&& w.windows_anchor == Some(clock)
            &&& hovers ==> w.pens == v.pens
            &&& !hovers ==> remembered(
                v,
                w,
                raw.device_id,
                raw.position_physical_px,
                raw.pointing_device_type,
            )
            &&& hovers || raw.source_phase == WindowsPointerPhase::Down || held(
                v,
                Holder::Pen(raw.device_id),
            ) is Some ==> s.timestamp == clock.translated(raw.timestamp_secs)
            &&& !hovers && (raw.source_phase == WindowsPointerPhase::Down || held(
                v,
                Holder::Pen(raw.device_id),
            ) is Some) ==> tells_caps(w, raw.device_id)
            &&& hovers && v.pens.contains_key(raw.device_id) ==> w.queue.last()->caps
                == v.pens[raw.device_id].caps
            &&& hovers && !v.pens.contains_key(raw.device_id) ==> assumed(w.queue.last()->caps)
        }),
{
}

/// A pointer of a browser is remembered where it went down or moved to, and forgotten when it goes
/// up; its samples carry the time by the clock of the page.
pub proof fn lemma_browser_pointers_are_remembered(v: AdapterView, raw: WebRawSample, now: u128)
    ensures
        ({
            let w = v.after_web_raw(raw, now);
            let s = sample_of(w.queue.last());
            let key = raw.pointer_id;
            let clock = PlatformTimestampAnchor::anchored(v.web_anchor, raw.timestamp_secs, now);
            &&& w.web_anchor == Some(clock)
            &&& raw.source_phase == WebSourcePhase::Down ==> {
                &&& w.web_pointers[key].last_position == Some(raw.position_physical_px)
                &&& assumed(w.web_pointers[key].caps)
                &&& assumed(w.queue.last()->caps)
            }
            &&& (raw.source_phase == WebSourcePhase::Move || raw.source_phase
                == WebSourcePhase::Predicted) && v.web_pointers.contains_key(key) ==> {
                &&& w.web_pointers[key].last_position == Some(raw.position_physical_px)
                &&& w.web_pointers[key].caps == v.web_pointers[key].caps
                &&& w.queue.last()->caps == v.web_pointers[key].caps
            }
            &&& raw.source_phase == WebSourcePhase::Up || raw.source_phase
                == WebSourcePhase::Cancel ==> !w.web_pointers.contains_key(key)
            &&& w.queue.len() > v.queue.len() ==> s.timestamp == clock.translated(
                raw.timestamp_secs,
            )
        }),
{
}

/// An event of macOS while its pen draws revises each sample that waited for it: with its
/// pressure, its tilt, its twist and its tangential pressure, in the order of the list, before
/// its own sample. None waits any longer.
pub proof fn lemma_waiting_samples_are_revised(
    v: AdapterView,
    raw: MacTabletRawSample,
    keys: Seq<u64>,
    now: u128,
    pid: PointerId,
    i: int,
)
    requires
        raw.source_phase != MacTabletPhase::Down,
        held(v, Holder::Pen(raw.device_id)) == Some(pid),
        0 <= i < keys.len(),
    ensures
        ({
            let w = v.after_mac_raw(raw, keys, now);
            let event = w.queue[v.queue.len() + i];
            &&& w.queue.len() >= v.queue.len() + keys.len()
            &&& w.queue.take(v.queue.len() as int) == v.queue
            &&& event matches StylusEvent::Revise { pointer_id, update_index, revision }
                && pointer_id == pid && update_index == keys[i] && revision.pressure == Some(
                raw.pressure,
            ) && revision.tilt == Some(raw.tilt) && revision.twist_deg == Some(raw.twist_deg)
                && revision.tangential_pressure == Some(raw.tangential_pressure)
            &&& forall|k: u64| #[trigger]
                w.pending.contains_key(k) <==> v.pending.contains_key(k) && v.pending[k] != pid
        }),
{
    let w = v.after_mac_raw(raw, keys, now);
    assert(w.queue.take(v.queue.len() as int) =~= v.queue);
}

/// A pen that comes near is known as it presents itself, where it was last seen, and a stroke of
/// its goes on.
pub open spec fn presented(
    v: AdapterView,
    w: AdapterView,
    device: u32,
    caps: ToolCaps,
    tool: ToolKind,
    unique_id: Option<u64>,
) -> bool {
    let pen = w.pens[device];
    &&& w.pens.contains_key(device)
    &&& pen.caps == caps
    &&& pen.tool == tool
    &&& pen.unique_id == unique_id
    &&& v.pens.contains_key(device) ==> pen.last_position == v.pens[device].last_position
    &&& !v.pens.contains_key(device) ==> pen.last_position is None
    &&& held(w, Holder::Pen(device)) == held(v, Holder::Pen(device))
    &&& w.queue == v.queue
    &&& w.active_pen == v.active_pen
    &&& forall|d: u32|
        d != device ==> (#[trigger] w.pens.contains_key(d) <==> v.pens.contains_key(d))
}

/// A pen that goes away is forgotten. A stroke of its is cancelled where the pen was last seen, or
/// at the origin where it never was, at the time at which it went.
pub open spec fn gone(v: AdapterView, w: AdapterView, device: u32, now: u128) -> bool {
    let h = Holder::Pen(device);
    let s = sample_of(w.queue.last());
    &&& !w.pens.contains_key(device)
    &&& ends(v, w, h, Phase::Cancel)
    &&& held(v, h) is Some ==> {
        let pen = v.pens[device];
        &&& w.queue.len() == v.queue.len() + 1
        &&& s.timestamp == now
        &&& s.tool == pen.tool
        &&& w.queue.last()->caps == pen.caps
        &&& pen.last_position is Some ==> s.position == pen.last_position->0
        &&& pen.last_position is None ==> s.position == (Point { x: Float64(0), y: Float64(0) })
        &&& s.pressure == Float32(0)
        &&& !s.buttons.contact
        &&& s.class == SampleClass::Committed
        &&& forall|k: u64| #[trigger]
            w.pending.contains_key(k) ==> v.pending.contains_key(k) && v.pending[k]
                != held(v, h)->0
    }
}

/// Pens of Wayland, X11 and Windows that come near are known as they present themselves, and
/// those that go away are forgotten, their strokes cancelled. A Windows pen keeps the hardware
/// identity that was known of it.
pub proof fn lemma_pens_come_and_go(
    v: AdapterView,
    wayland: WaylandProximitySample,
    x11: X11ProximitySample,
    windows: WindowsProximitySample,
    now: u128,
)
    ensures
        wayland.is_entering ==> presented(
            v,
            v.after_wayland_proximity(wayland, now),
            wayland.device_id,
            wayland.caps,
            wayland.pointing_device_type,
            wayland.hardware_serial,
        ),
        !wayland.is_entering ==> gone(
            v,
            v.after_wayland_proximity(wayland, now),
            wayland.device_id,
            now,
        ),
        x11.is_entering ==> presented(
            v,
            v.after_x11_proximity(x11, now),
            x11.device_id,
            x11.caps,
            x11.pointing_device_type,
            x11.unique_id,
        ),
        !x11.is_entering ==> gone(v, v.after_x11_proximity(x11, now), x11.device_id, now),
        windows.is_entering ==> presented(
            v,
            v.after_windows_proximity(windows, now),
            windows.device_id,
            windows.caps,
            windows.pointing_device_type,
            if v.pens.contains_key(windows.device_id) {
                v.pens[windows.device_id].unique_id
            } else {
                None
            },
        ),
        !windows.is_entering ==> gone(
            v,
            v.after_windows_proximity(windows, now),
            windows.device_id,
            now,
        ),
{
    lemma_pen_gone(v, wayland.device_id, now);
    lemma_pen_gone(v, x11.device_id, now);
    lemma_pen_gone(v, windows.device_id, now);
}

proof fn lemma_pen_gone(v: AdapterView, device: u32, now: u128)
    ensures
        gone(v, v.pen_left(device, now), device, now),
{
}

/// A pointer of a browser that comes near is known by what it says that it can report. One that
/// goes away in the middle of a gesture is cancelled where it was last seen. One that is not
/// known changes nothing.
pub proof fn lemma_browser_pointers_come_and_go(
    v: AdapterView,
    prox: WebProximitySample,
    now: u128,
)
    ensures
        ({
            let w = v.after_web_proximity(prox, now);
            let key = prox.pointer_id;
            let h = Holder::Browser(key);
            let state = v.web_pointers[key];
            let s = sample_of(w.queue.last());
            &&& !v.web_pointers.contains_key(key) ==> w == v
            &&& v.web_pointers.contains_key(key) && prox.is_entering ==> {
                &&& w.queue == v.queue
                &&& held(w, h) == held(v, h)
                &&& w.web_pointers[key].caps == prox.caps
                &&& w.web_pointers[key].tool == state.tool
                &&& w.web_pointers[key].last_position == state.last_position
            }
            &&& v.web_pointers.contains_key(key) && !prox.is_entering ==> {
                &&& ends(v, w, h, Phase::Cancel)
                &&& s.timestamp == now
                &&& s.tool == state.tool
                &&& w.queue.last()->caps == state.caps
                &&& state.last_position is Some ==> s.position == state.last_position->0
            }
        }),
{
}

/// A calibrated force presses as the part that it is of the most that can be reported; a sensor
/// that can report nothing does not press.
pub proof fn lemma_calibrated_force_is_a_part(force: Float64, most: Float64)
    ensures
        Float64(0).below(most) ==> (Force::Calibrated {
            force,
            max_possible_force: most,
        }).pressure() == Force::Normalized(force.quotient(most)).pressure(),
        !Float64(0).below(most) ==> (Force::Calibrated {
            force,
            max_possible_force: most,
        }).pressure() == Float32(0),
        Force::Normalized(force).pressure() == Float32::narrowed(force),
{
    reveal(Force::pressure);
}

/// Windows counts pressure in 1024 steps: so many of them are the pressure, and more are full
/// pressure.
pub proof fn lemma_windows_pressure_has_1024_steps(
    info: PenInfo,
    msg: PointerMessage,
    frequency: u64,
)
    requires
        info.phase(msg) is Some,
        info.pressure <= 0x1_0000,
    ensures
        ({
            let pressure = info.raw_sample(msg, frequency)->0.pressure.value();
            &&& info.pressure <= 1024 ==> 0x10_0000 * distance(
                1024 * pressure,
                info.pressure * unit(),
            ) <= info.pressure * unit() + 0x1000_0000 * 1024
            &&& info.pressure >= 1025 ==> pressure == unit()
        }),
{
    let n = info.pressure as int;
    let u = unit();
    lemma_whole_near(n);
    let x = Float32::of_whole(n);
    let steps = Float32(0x4480_0000);
    lemma2_to64();
    lemma2_to64_rest();
    lemma_pow2_strictly_increases(56, 149);
    lemma_pow2_adds(23, 136);
    lemma_pow2_adds(10, 149);
    assert(steps.value() == 1024 * u);
    crate::float32::lemma_value_of_one();
    let nu = n * u;
    assert(0 <= nu <= 0x1_0000 * u) by (nonlinear_arith)
        requires
            nu == n * u,
            0 <= n <= 0x1_0000,
            u > 0,
    ;
    lemma_quotient_near(x, steps);
    let q = x.quotient(steps);
    crate::float32::lemma_step(0, 0);
    if q.magnitude() > 0 {
        crate::float32::lemma_magnitude_value_increases(0, q.magnitude());
    }
    crate::float32::lemma_order_is_order_of_values(q, Float32(0));
    crate::float32::lemma_order_is_order_of_values(Float32(ONE), q);
    let qv = q.value();
    let xv = x.value();
    let q4 = 1024 * qv;
    assert(qv * (1024 * u) == q4 * u) by (nonlinear_arith)
        requires
            q4 == 1024 * qv,
    ;
    let gap = q4 - xv;
    assert(q4 * u - xv * u == gap * u && (1024 * u) * 0x80_0000 == (0x80_0000 * 1024) * u)
        by (nonlinear_arith)
        requires
            gap == q4 - xv,
    ;
    let most = xv + 0x80_0000 * 1024;
    assert(most * u == xv * u + 0x80_0000 * (1024 * u)) by (nonlinear_arith)
        requires
            most == xv + 0x80_0000 * 1024,
    ;
    assert(xv >= 0);
    assert(xv * u >= 0) by (nonlinear_arith)
        requires
            xv >= 0,
            u > 0,
    ;
    assert(-most <= 0x80_0000 * gap <= most) by (nonlinear_arith)
        requires
            -(most * u) <= 0x80_0000 * (gap * u) <= most * u,
            u > 0,
    ;
    if n >= 1025 {
        assert(nu >= 1025 * u) by (nonlinear_arith)
            requires
                nu == n * u,
                n >= 1025,
                u > 0,
        ;
    } else {
        assert(nu <= 1024 * u) by (nonlinear_arith)
            requires
                nu == n * u,
                n <= 1024,
                u > 0,
        ;
    }
}

/// Digitizers with different handles, up to 32 bits, get different keys.
pub proof fn lemma_device_keys_differ(a: usize, b: usize)
    requires
        a <= u32::MAX && b <= u32::MAX,
        a != b,
    ensures
        device_key(a) != device_key(b),
{
    lemma_key_gives_handle(a as u32);
    lemma_key_gives_handle(b as u32);
}

proof fn lemma_key_gives_handle(a: u32)
    ensures
        (a * 0x9e37_79b9 % 0x1_0000_0000) * 0x144c_bc89 % 0x1_0000_0000 == a,
{
    let m: int = 0x1_0000_0000;
    let x: int = a * 0x9e37_79b9;
    let q = x / m;
    let k = x % m;
    assert(x == m * q + k) by {
        vstd::arithmetic::div_mod::lemma_fundamental_div_mod(x, m);
    }
    // 0x9e37_79b9 * 0x144c_bc89 is one more than a multiple of 2^32.
    assert(k * 0x144c_bc89 == m * (210485888 * a - q * 0x144c_bc89) + a);
    vstd::arithmetic::div_mod::lemma_fundamental_div_mod_converse(
        k * 0x144c_bc89,
        m,
        210485888 * a - q * 0x144c_bc89,
        a as int,
    );
}

/// A history that was read newest first gives its samples oldest first: what an older part of it
/// gives comes before what a newer part gives. One entry gives its sample, if it has one.
pub proof fn lemma_history_is_told_oldest_first(
    newer: Seq<PenInfo>,
    older: Seq<PenInfo>,
    info: PenInfo,
    msg: PointerMessage,
    frequency: u64,
)
    ensures
        samples_in_order(newer + older, msg, frequency) == samples_in_order(older, msg, frequency)
            + samples_in_order(newer, msg, frequency),
        info.raw_sample(msg, frequency) is Some ==> samples_in_order(seq![info], msg, frequency)
            == seq![info.raw_sample(msg, frequency)->0],
        info.raw_sample(msg, frequency) is None ==> samples_in_order(
            seq![info],
            msg,
            frequency,
        ).len() == 0,
    decreases newer.len(),
{
    assert(seq![info].drop_first() =~= seq![]);
    assert(samples_in_order(seq![], msg, frequency) =~= seq![]);
    assert(info.raw_sample(msg, frequency) is Some ==> samples_in_order(
        seq![info],
        msg,
        frequency,
    ) =~= seq![info.raw_sample(msg, frequency)->0]);
    if newer.len() == 0 {
        assert(newer + older =~= older);
        assert(samples_in_order(older, msg, frequency) =~= samples_in_order(older, msg, frequency)
            + samples_in_order(newer, msg, frequency));
    } else {
        lemma_history_is_told_oldest_first(newer.drop_first(), older, info, msg, frequency);
        assert((newer + older).drop_first() =~= newer.drop_first() + older);
        assert((newer + older).first() == newer.first());
        assert(samples_in_order(newer + older, msg, frequency) =~= samples_in_order(
            older,
            msg,
            frequency,
        ) + samples_in_order(newer, msg, frequency));
    }
}

/// A lost capture cancels the stroke of the pen that the information names, where it was.
pub proof fn lemma_lost_capture_cancels(info: PenInfo, frequency: u64)
    ensures
        ({
            let raw = cancel_sample_of(Some(info), frequency);
            let bare = cancel_sample_of(None, frequency);
            &&& raw.source_phase == WindowsPointerPhase::Cancel
            &&& bare.source_phase == WindowsPointerPhase::Cancel
            &&& raw.position_physical_px == info.position
            &&& raw.device_id == device_key(info.source_device)
            &&& raw.pressure == Float32(0) && bare.pressure == Float32(0)
            &&& raw.tilt is None && bare.tilt is None
            &&& raw.button_mask == 0 && bare.button_mask == 0
            &&& info.pen_flags & 4 != 0 ==> raw.pointing_device_type == ToolKind::Eraser
            &&& info.pen_flags & 4 == 0 ==> raw.pointing_device_type == ToolKind::Pen
        }),
{
}

} // verus!
