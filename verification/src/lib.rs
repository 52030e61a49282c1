//! Verified core of `pong`, a terminal ping monitor for several hosts.
//!
//! The library holds what the monitor decides and computes: per-host
//! statistics over round-trip times, the host status derived from them,
//! the reaction of the monitor to each event, the schedule of a ping loop,
//! the choice of an address for a host, and the text the screen shows.
//! Round-trip times are whole nanoseconds.

pub mod app;
pub mod chart;
pub mod ping;
pub mod stats;
pub mod text;
pub mod types;
pub mod wide;

pub use app::{key_action, App, AppEvent, Effect, KeyAction, KeyCode, KeyEvent};
pub use chart::{chart_points_for_width, chart_x_max};
pub use ping::{PingSchedule, PingStep};
pub use stats::{HostStats, Ratio};
pub use text::{elapsed_str, hosts_label};
pub use wide::U256;
pub use types::{
    first_usable, host_color, should_use_ip, Color, HostStatus, IpFamily, PingOutcome, PingResult,
};
