//! Rendering of a directory listing as an aligned text table with
//! selectable columns (name, size, type).
pub mod column;
pub mod title;
pub mod record;
pub mod render;
pub mod listing;

pub use column::{active_columns, Column, Config};
pub use title::to_title;
pub use record::{collect_records, make_record, mime_label, Cell, Entry, Record};
pub use render::{column_width, column_widths, fit_columns, frame, layout, line_string, pad, render, Table};
pub use listing::{listing_lines, render_listing};
