//! The window: what it holds, and what it does when you change something.

pub mod bindings;
pub mod bitmap;
pub mod design;
pub mod menu;
pub mod screen;
pub mod tabs;
pub mod theme;
pub mod values;
pub mod widget;

pub use screen::{
    recorded, repaint_interval, repaint_millis, show, toggle_enabled, Driver, CALIBRATION_NAMES,
};
pub use tabs::{
    field_unit, menu_row, widget_fields_for, widget_fields_of_kind, FieldKind, MenuDoes, MenuRow, Origin, Row,
    SectorRow, Tab, ValueRead, ValueRow, WaitingImport, ANIMATE_WORDS,
};
