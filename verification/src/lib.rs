//! Reshapes a flat table into a wide one that is aligned to an axis: the
//! values of one column, each once and in ascending order, form the axis;
//! other columns, or the groups of one column, are laid along it as series;
//! and each series can be summarised.

pub mod axis;
pub mod cell;
pub mod groups;
pub mod keys;
pub mod requests;
pub mod series;
pub mod stats;
pub mod table;
pub mod text;
pub mod values;

pub use crate::axis::{axis_cells, get_x_axis_frame};
pub use crate::cell::{decimal_text, Cell};
pub use crate::groups::{get_unique_row_count_of_column, get_unique_rows_of_column, labels_of};
pub use crate::keys::{bits_of_key, key_of_bits};
pub use crate::requests::{
    get_data_for_analytics, get_data_for_chart, get_data_for_table, GROUP_CAP,
};
pub use crate::series::{all_rows, join_series, rows_of_group, value_at};
pub use crate::stats::{get_col_analytics, summarize, Summary};
pub use crate::table::{find_column, get_columns, Column, Error, Table};
pub use crate::text::text_le_exec;
pub use crate::values::{copy_cells, page_cells, sorted_cells, value_cells};
