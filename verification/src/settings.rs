//! Settings / Control Center framework and panels.
//!
//! A typed settings framework whose panels bind to the config store: each [`Setting`] declares a
//! [`SettingKind`] constraint, [`Setting::set`] validates before it mutates, and a
//! [`SettingsPanel`] can load its values from and commit them back to any [`ConfigStore`].

pub mod panels;
pub mod system;
pub mod users;
pub mod value;

pub use panels::{
    accessibility_panel, audio_panel, input_panel, power_panel, A11ySettings, UpdatePanel,
    UpdateState,
};
pub use system::{format_bytes, SystemInfo, SystemInfoPanel};
pub use users::{AccountOp, AccountRow, UsersError, UsersPanel};
pub use value::{
    range, select, ConfigStore, Setting, SettingKind, SettingValue, SettingsError,
    SettingsPanel,
};
