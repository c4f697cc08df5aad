//! The logic of a stylus-first drawing program.
//!
//! * The document: [`geometry`], [`sample`], [`brush`], [`ids`], [`layer`], [`document`], and
//!   the [`engine`] that applies commands to it and keeps its history. What holds of them as
//!   a whole stands in [`document_laws`], [`layer_laws`], [`history_laws`] and
//!   [`engine_laws`]; what each command and each record does to what is read afterwards stands
//!   in [`command_laws`] and [`record_laws`].
//! * Input: the [`adapter`] turns the events of the window system and of native tablet
//!   backends ([`mac_tablet`], [`windows_tablet`], [`ios_touch`]) into one stream of
//!   [`stylus`] events, whose order [`adapter_laws`] and [`adapter_runs`] state; what each
//!   event becomes is stated in [`input_laws`] and [`device_laws`]. Keys, the mouse and
//!   gestures are read in [`shortcuts`] and [`window_input`], and [`key_laws`] says what each
//!   key does.
//! * The view of the page: [`viewport`], [`view_control`], [`page_border`], with
//!   [`viewport_laws`] and [`view_laws`].
//! * The controls: [`ui`], [`brush_panel`], [`layers_panel`], [`color_picker`], [`hex_color`],
//!   with [`panel_laws`] and [`control_laws`].
//! * The picture: a stroke becomes a [`ribbon`] along a [`curve`]; the [`compositor`] decides
//!   what is drawn where; [`brush_program`] and [`pigment`] say what a stroke does to a pixel,
//!   [`uniforms`] what the shaders are handed, and [`srgb`] what a color is in display bytes.
//!   [`curve_laws`] and the [`ribbon`] itself say where the sides of a stroke run,
//!   [`compositor_laws`] and [`frame_laws`] what a frame shows, and [`paint_laws`],
//!   [`channel_laws`], [`pigment_laws`], [`pigment_return`], [`pigment_symmetry`] and
//!   [`srgb_laws`] what holds of colors and widths.
//!
//! Numbers are IEEE-754 bit patterns, [`float32`] and [`float64`], with exact contracts: each
//! operation gives the number nearest to the mathematical result.

pub mod adapter;
pub mod adapter_laws;
pub mod adapter_runs;
pub mod brush;
pub mod brush_panel;
pub mod brush_program;
pub mod channel_laws;
pub mod color_picker;
pub mod command_laws;
pub mod compositor;
pub mod compositor_laws;
pub mod control_laws;
pub mod curve;
pub mod curve_laws;
pub mod device_laws;
pub mod document;
pub mod document_laws;
pub mod engine;
pub mod engine_laws;
pub mod float32;
pub mod float64;
pub mod frame_laws;
pub mod geometry;
pub mod hex_color;
pub mod history_laws;
pub mod ids;
pub mod input_laws;
pub mod ios_touch;
pub mod key_laws;
pub mod layer;
pub mod layer_laws;
pub mod layers_panel;
pub mod mac_tablet;
pub mod page_border;
pub mod paint_laws;
pub mod panel_laws;
pub mod pigment;
pub mod pigment_laws;
pub mod pigment_return;
pub mod pigment_symmetry;
pub mod record_laws;
pub mod ribbon;
pub mod rounding;
pub mod sample;
pub mod shortcuts;
pub mod srgb;
pub mod srgb_laws;
pub mod stylus;
pub mod text;
pub mod ui;
pub mod uniforms;
pub mod vector;
pub mod view_control;
pub mod view_laws;
pub mod viewport;
pub mod viewport_laws;
pub mod window_input;
pub mod windows_tablet;
