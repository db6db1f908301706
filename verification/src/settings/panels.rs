//! The bundled Control Center panels.

use vstd::prelude::*;

use crate::a11y::TextScale;
use crate::settings::value::{
    range, select, toggle, Setting, SettingValue, SettingsError, SettingsPanel,
};

verus! {

/// The audio panel: output/input devices and volume.
pub fn audio_panel(outputs: &[&str], inputs: &[&str]) -> (r: SettingsPanel)
    ensures
        r@ == (crate::settings::value::Panel {
            id: "audio"@,
            title: "Audio"@,
            entries: seq![
                crate::settings::value::select_entry(
                    "audio.output.device"@,
                    "Output device"@,
                    crate::settings::value::labels(outputs@),
                    0,
                ),
                crate::settings::value::range_entry(
                    "audio.output.volume"@,
                    "Output volume"@,
                    0,
                    100,
                    60,
                ),
                crate::settings::value::toggle_entry("audio.output.mute"@, "Mute output"@, false),
                crate::settings::value::select_entry(
                    "audio.input.device"@,
                    "Input device"@,
                    crate::settings::value::labels(inputs@),
                    0,
                ),
                crate::settings::value::range_entry(
                    "audio.input.volume"@,
                    "Input volume"@,
                    0,
                    100,
                    40,
                ),
                crate::settings::value::toggle_entry("audio.input.mute"@, "Mute input"@, false),
            ],
        }),
{
    let mut settings: Vec<Setting> = Vec::new();
    settings.push(select("audio.output.device", "Output device", outputs, 0));
    settings.push(range("audio.output.volume", "Output volume", 0, 100, 60));
    settings.push(toggle("audio.output.mute", "Mute output", false));
    settings.push(select("audio.input.device", "Input device", inputs, 0));
    settings.push(range("audio.input.volume", "Input volume", 0, 100, 40));
    settings.push(toggle("audio.input.mute", "Mute input", false));
    SettingsPanel { id: "audio".to_owned(), title: "Audio".to_owned(), settings }
}

/// The power / battery panel.
pub fn power_panel() -> (r: SettingsPanel)
    ensures
        r@ == (crate::settings::value::Panel {
            id: "power"@,
            title: "Power & Battery"@,
            entries: seq![
                crate::settings::value::select_entry(
                    "power.profile"@,
                    "Power profile"@,
                    seq!["power-saver"@, "balanced"@, "performance"@],
                    1,
                ),
                crate::settings::value::range_entry(
                    "power.sleep_timeout_min"@,
                    "Sleep after (minutes)"@,
                    1,
                    120,
                    15,
                ),
                crate::settings::value::toggle_entry(
                    "power.dim_on_battery"@,
                    "Dim screen on battery"@,
                    true,
                ),
            ],
        }),
{
    let mut settings: Vec<Setting> = Vec::new();
    let profiles: [&str; 3] = ["power-saver", "balanced", "performance"];
    assert(crate::settings::value::labels(profiles@) =~= seq![
        "power-saver"@,
        "balanced"@,
        "performance"@,
    ]);
    settings.push(select("power.profile", "Power profile", &profiles, 1));
    settings.push(range("power.sleep_timeout_min", "Sleep after (minutes)", 1, 120, 15));
    settings.push(toggle("power.dim_on_battery", "Dim screen on battery", true));
    SettingsPanel { id: "power".to_owned(), title: "Power & Battery".to_owned(), settings }
}

/// The keyboard / mouse / layout panel.
pub fn input_panel(layouts: &[&str]) -> (r: SettingsPanel)
    ensures
        r@ == (crate::settings::value::Panel {
            id: "input"@,
            title: "Keyboard & Mouse"@,
            entries: seq![
                crate::settings::value::range_entry(
                    "input.key_repeat_rate"@,
                    "Key repeat rate"@,
                    1,
                    100,
                    30,
                ),
                crate::settings::value::range_entry(
                    "input.key_repeat_delay_ms"@,
                    "Key repeat delay (ms)"@,
                    100,
                    1000,
                    300,
                ),
                crate::settings::value::toggle_entry(
                    "input.mouse_acceleration"@,
                    "Pointer acceleration"@,
                    true,
                ),
                crate::settings::value::range_entry(
                    "input.pointer_speed"@,
                    "Pointer speed"@,
                    1,
                    10,
                    5,
                ),
                crate::settings::value::select_entry(
                    "input.keyboard_layout"@,
                    "Keyboard layout"@,
                    crate::settings::value::labels(layouts@),
                    0,
                ),
            ],
        }),
{
    let mut settings: Vec<Setting> = Vec::new();
    settings.push(range("input.key_repeat_rate", "Key repeat rate", 1, 100, 30));
    settings.push(range("input.key_repeat_delay_ms", "Key repeat delay (ms)", 100, 1000, 300));
    settings.push(toggle("input.mouse_acceleration", "Pointer acceleration", true));
    settings.push(range("input.pointer_speed", "Pointer speed", 1, 10, 5));
    settings.push(select("input.keyboard_layout", "Keyboard layout", layouts, 0));
    SettingsPanel { id: "input".to_owned(), title: "Keyboard & Mouse".to_owned(), settings }
}

/// The settings of a fresh accessibility panel.
pub open spec fn accessibility_entries() -> Seq<crate::settings::value::Entry> {
    seq![
        crate::settings::value::toggle_entry("a11y.high_contrast"@, "High contrast"@, false),
        crate::settings::value::select_entry(
            "a11y.text_scale"@,
            "Text size"@,
            seq!["100%"@, "125%"@, "150%"@, "200%"@],
            0,
        ),
        crate::settings::value::toggle_entry("a11y.screen_reader"@, "Screen reader"@, false),
        crate::settings::value::toggle_entry("a11y.reduce_motion"@, "Reduce motion"@, false),
        crate::settings::value::toggle_entry("a11y.keyboard_focus_ring"@, "Focus ring"@, true),
    ]
}

/// The accessibility panel.
pub fn accessibility_panel() -> (r: SettingsPanel)
    ensures
        r@ == (crate::settings::value::Panel {
            id: "accessibility"@,
            title: "Accessibility"@,
            entries: accessibility_entries(),
        }),
{
    let mut settings: Vec<Setting> = Vec::new();
    let sizes: [&str; 4] = ["100%", "125%", "150%", "200%"];
    assert(crate::settings::value::labels(sizes@) =~= seq!["100%"@, "125%"@, "150%"@, "200%"@]);
    settings.push(toggle("a11y.high_contrast", "High contrast", false));
    settings.push(select("a11y.text_scale", "Text size", &sizes, 0));
    settings.push(toggle("a11y.screen_reader", "Screen reader", false));
    settings.push(toggle("a11y.reduce_motion", "Reduce motion", false));
    settings.push(toggle("a11y.keyboard_focus_ring", "Focus ring", true));
    SettingsPanel { id: "accessibility".to_owned(), title: "Accessibility".to_owned(), settings }
}

/// The accessibility options resolved from [`accessibility_panel`].
#[derive(Debug, Clone, Copy, PartialEq, Eq, Structural)]
pub struct A11ySettings {
    /// Whether the high-contrast theme is enabled.
    pub high_contrast: bool,
    /// The global text scale.
    pub text_scale: TextScale,
    /// Whether the screen reader is enabled.
    pub screen_reader: bool,
    /// Whether motion should be reduced.
    pub reduce_motion: bool,
    /// Whether the keyboard focus ring is shown.
    pub focus_ring: bool,
}

/// The toggle under a key, or a default where there is none.
pub open spec fn toggle_of(
    es: Seq<crate::settings::value::Entry>,
    key: Seq<char>,
    default: bool,
) -> bool {
    match crate::settings::value::entry_of(es, key) {
        Some(e) => match e.value {
            crate::settings::value::Value::Toggle(b) => b,
            _ => default,
        },
        None => default,
    }
}

/// The text scale of a panel in thousandths: that of the chosen size, or 1000.
pub open spec fn scale_of(es: Seq<crate::settings::value::Entry>) -> u32 {
    match crate::settings::value::entry_of(es, "a11y.text_scale"@) {
        Some(e) => match e.value {
            crate::settings::value::Value::Choice(i) => if i == 1 {
                1250
            } else if i == 2 {
                1500
            } else if i == 3 {
                2000
            } else {
                1000
            },
            _ => 1000,
        },
        None => 1000,
    }
}

fn read_toggle(panel: &SettingsPanel, key: &str, default: bool) -> (r: bool)
    ensures
        r == toggle_of(panel@.entries, key@, default),
{
    match panel.find(key) {
        Some(s) => match &s.value {
            SettingValue::Toggle(b) => *b,
            _ => default,
        },
        None => default,
    }
}

impl A11ySettings {
    /// Resolve the accessibility options from an [`accessibility_panel`].
    pub fn from_panel(panel: &SettingsPanel) -> (r: Self)
        ensures
            r == (A11ySettings {
                high_contrast: toggle_of(panel@.entries, "a11y.high_contrast"@, false),
                text_scale: TextScale(scale_of(panel@.entries)),
                screen_reader: toggle_of(panel@.entries, "a11y.screen_reader"@, false),
                reduce_motion: toggle_of(panel@.entries, "a11y.reduce_motion"@, false),
                focus_ring: toggle_of(panel@.entries, "a11y.keyboard_focus_ring"@, true),
            }),
    {
        let permille: u32 = match panel.find("a11y.text_scale") {
            Some(s) => match &s.value {
                SettingValue::Choice(i) => if *i == 1 {
                    1250
                } else if *i == 2 {
                    1500
                } else if *i == 3 {
                    2000
                } else {
                    1000
                },
                _ => 1000,
            },
            None => 1000,
        };
        A11ySettings {
            high_contrast: read_toggle(panel, "a11y.high_contrast", false),
            text_scale: TextScale::new(permille),
            screen_reader: read_toggle(panel, "a11y.screen_reader", false),
            reduce_motion: read_toggle(panel, "a11y.reduce_motion", false),
            focus_ring: read_toggle(panel, "a11y.keyboard_focus_ring", true),
        }
    }
}

/// The result state of a software-update check.
#[derive(Debug, Clone, PartialEq, Eq)]
pub enum UpdateState {
    /// No update available.
    UpToDate,
    /// A check is in progress.
    Checking,
    /// An update is available.
    Available {
        /// The available version.
        version: String,
    },
    /// The check failed.
    Error(String),
}

/// The software-updates panel.
#[derive(Debug, Clone, PartialEq, Eq)]
pub struct UpdatePanel {
    /// The currently installed version.
    pub current_version: String,
    /// The update channel (`stable`/`beta`).
    pub channel: Setting,
    /// Whether to check automatically.
    pub auto_check: bool,
    /// The last check result.
    pub state: UpdateState,
}

impl UpdatePanel {
    /// Whether two panels differ in their check result at most.
    pub open spec fn same_setup(&self, other: &UpdatePanel) -> bool {
        &&& self.current_version == other.current_version
        &&& self.channel == other.channel
        &&& self.auto_check == other.auto_check
    }

    /// A panel for `current_version` on the stable channel, up to date.
    pub fn new(current_version: &str) -> (r: Self)
        ensures
            r.current_version@ == current_version@,
            r.channel@ == crate::settings::value::select_entry(
                "update.channel"@,
                "Update channel"@,
                seq!["stable"@, "beta"@],
                0,
            ),
            r.auto_check,
            r.state is UpToDate,
    {
        let channels: [&str; 2] = ["stable", "beta"];
        assert(crate::settings::value::labels(channels@) =~= seq!["stable"@, "beta"@]);
        UpdatePanel {
            current_version: current_version.to_owned(),
            channel: select("update.channel", "Update channel", &channels, 0),
            auto_check: true,
            state: UpdateState::UpToDate,
        }
    }

    /// Mark a check as started.
    pub fn begin_check(&mut self)
        ensures
            final(self).state is Checking,
            final(self).same_setup(old(self)),
    {
        self.state = UpdateState::Checking;
    }

    /// Record that `version` is available.
    pub fn report_available(&mut self, version: &str)
        ensures
            final(self).state matches UpdateState::Available { version: v } && v@ == version@,
            final(self).same_setup(old(self)),
    {
        self.state = UpdateState::Available { version: version.to_owned() };
    }

    /// Record that the system is up to date.
    pub fn report_up_to_date(&mut self)
        ensures
            final(self).state is UpToDate,
            final(self).same_setup(old(self)),
    {
        self.state = UpdateState::UpToDate;
    }

    /// Record a failed check.
    pub fn fail(&mut self, reason: &str)
        ensures
            final(self).state matches UpdateState::Error(why) && why@ == reason@,
            final(self).same_setup(old(self)),
    {
        self.state = UpdateState::Error(reason.to_owned());
    }

    /// Whether an update is available.
    pub fn has_update(&self) -> (r: bool)
        ensures
            r == (self.state is Available),
    {
        match &self.state {
            UpdateState::Available { .. } => true,
            _ => false,
        }
    }

    /// Switch the update channel by name.
    ///
    /// # Errors
    ///
    /// [`SettingsError::Unparsable`] if `name` is not a known channel.
    pub fn set_channel(&mut self, name: &str) -> (r: Result<(), SettingsError>)
        ensures
            r == crate::settings::value::raw_verdict(old(self).channel.kind@, name@),
            final(self).channel@ == crate::settings::value::restored(old(self).channel@, name@),
            final(self).current_version == old(self).current_version,
            final(self).auto_check == old(self).auto_check,
            final(self).state == old(self).state,
    {
        self.channel.set_from_str(name)
    }
}

} // verus!
