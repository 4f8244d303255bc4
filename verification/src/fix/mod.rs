//! FIX 4.4 tag-value messages: parsing, building, and the mapping between
//! messages and the engine's orders and execution reports.

pub mod message;
pub mod time;

pub use message::{
    cancel_message, rejection_message, session_message, execution_report_to_fix, execution_report_to_fix_with_side, order_from_cancel_replace,
    order_from_new_order_single, parse_fix_message, FixFieldError, FixMessage, FixWriter,
};
pub use time::{days_to_ymd, format_utc_timestamp};
