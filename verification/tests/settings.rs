//! Settings panels, accounts and updates.

use std::collections::BTreeMap;

use nexacore_ui::settings::{
    accessibility_panel, audio_panel, format_bytes, input_panel, power_panel, range, select,
    A11ySettings, AccountOp, AccountRow, ConfigStore, SettingValue, SettingsError,
    SystemInfo, SystemInfoPanel, UpdatePanel, UpdateState, UsersError, UsersPanel,
};

struct MapStore(BTreeMap<String, String>);
impl ConfigStore for MapStore {
    fn get(&self, key: &str) -> Option<String> {
        self.0.get(key).cloned()
    }
    fn set(&mut self, key: &str, value: &str) {
        self.0.insert(key.to_string(), value.to_string());
    }
}

#[test]
fn validation_enforces_kind_and_bounds() {
    let mut vol = range("v", "V", 0, 100, 50);
    assert_eq!(
        vol.set(SettingValue::Number(101)),
        Err(SettingsError::OutOfRange)
    );
    assert_eq!(
        vol.set(SettingValue::Toggle(true)),
        Err(SettingsError::TypeMismatch)
    );
    vol.set(SettingValue::Number(80)).unwrap();
    assert_eq!(vol.value, SettingValue::Number(80));

    let mut sel = select("s", "S", &["a", "b"], 0);
    assert_eq!(
        sel.set(SettingValue::Choice(2)),
        Err(SettingsError::BadChoice)
    );
    sel.set(SettingValue::Choice(1)).unwrap();
}

#[test]
fn commit_then_load_round_trips_through_the_store() {
    let mut panel = audio_panel(&["HDMI", "Speakers"], &["Mic"]);
    panel
        .set("audio.output.volume", SettingValue::Number(75))
        .unwrap();
    panel
        .set("audio.output.device", SettingValue::Choice(1))
        .unwrap();
    panel
        .set("audio.output.mute", SettingValue::Toggle(true))
        .unwrap();

    let mut store = MapStore(BTreeMap::new());
    panel.commit(&mut store);
    assert_eq!(store.get("audio.output.volume").as_deref(), Some("75"));
    assert_eq!(
        store.get("audio.output.device").as_deref(),
        Some("Speakers")
    );
    assert_eq!(store.get("audio.output.mute").as_deref(), Some("true"));

    // A fresh panel loads the same values back.
    let mut reloaded = audio_panel(&["HDMI", "Speakers"], &["Mic"]);
    reloaded.load(&store);
    assert_eq!(
        reloaded.find("audio.output.volume").unwrap().value,
        SettingValue::Number(75)
    );
    assert_eq!(
        reloaded.find("audio.output.device").unwrap().value,
        SettingValue::Choice(1)
    );
}

#[test]
fn panels_expose_expected_settings() {
    assert!(power_panel().find("power.profile").is_some());
    let input = input_panel(&["us", "it"]);
    assert!(input.find("input.keyboard_layout").is_some());
    // Unknown key is rejected.
    let mut p = power_panel();
    assert_eq!(
        p.set("nope", SettingValue::Toggle(true)),
        Err(SettingsError::BadChoice)
    );
}

#[test]
fn number_serialisation_handles_zero_and_negatives() {
    let mut s = range("n", "N", -50, 50, 0);
    assert_eq!(s.serialize_value(), "0");
    s.set(SettingValue::Number(-12)).unwrap();
    assert_eq!(s.serialize_value(), "-12");
    s.set_from_str("42").unwrap();
    assert_eq!(s.value, SettingValue::Number(42));
}

#[test]
fn system_info_panel_formats_memory_and_uptime() {
    let info = SystemInfo {
        product: "NexaCore OS".to_string(),
        version: "0.2.0".to_string(),
        kernel: "nexacore 0.2".to_string(),
        cpu_model: "Test CPU".to_string(),
        cpu_cores: 8,
        total_ram_bytes: 8 * 1024 * 1024 * 1024,
        uptime_secs: 273_132, // 3d 3h 52m
        hostname: "nexacore-01".to_string(),
    };
    let panel = SystemInfoPanel::from_info(&info);
    assert_eq!(panel.value("Memory"), Some("8.0 GiB"));
    assert_eq!(panel.value("Uptime"), Some("3d 3h 52m"));
    assert_eq!(panel.value("Cores"), Some("8"));
    assert_eq!(panel.value("Hostname"), Some("nexacore-01"));
}

#[test]
fn byte_formatting_picks_units() {
    assert_eq!(format_bytes(512), "512 B");
    assert_eq!(format_bytes(1536), "1.5 KiB");
    assert_eq!(format_bytes(1024 * 1024), "1.0 MiB");
}

#[test]
fn users_panel_enforces_account_policy() {
    let panel = UsersPanel::new(vec![
        AccountRow {
            username: "admin".to_string(),
            is_admin: true,
            enabled: true
        },
        AccountRow {
            username: "guest".to_string(),
            is_admin: false,
            enabled: true
        },
    ]);
    // Valid create.
    assert!(
        panel
            .validate(&AccountOp::Create {
                username: "dev".to_string(),
                admin: false
            })
            .is_ok()
    );
    // Duplicate + invalid username.
    assert_eq!(
        panel.validate(&AccountOp::Create {
            username: "guest".to_string(),
            admin: false
        }),
        Err(UsersError::DuplicateUser)
    );
    assert_eq!(
        panel.validate(&AccountOp::Create {
            username: "Bad".to_string(),
            admin: false
        }),
        Err(UsersError::InvalidUsername)
    );
    // Can't delete/demote/disable the sole enabled admin.
    assert_eq!(
        panel.validate(&AccountOp::Delete {
            username: "admin".to_string()
        }),
        Err(UsersError::LastAdmin)
    );
    assert_eq!(
        panel.validate(&AccountOp::SetAdmin {
            username: "admin".to_string(),
            admin: false
        }),
        Err(UsersError::LastAdmin)
    );
    // Unknown user + a normal delete are handled.
    assert_eq!(
        panel.validate(&AccountOp::Delete {
            username: "nobody".to_string()
        }),
        Err(UsersError::NoSuchUser)
    );
    assert!(
        panel
            .validate(&AccountOp::Delete {
                username: "guest".to_string()
            })
            .is_ok()
    );
}

#[test]
fn accessibility_panel_resolves_a11y_settings() {
    let mut panel = accessibility_panel();
    // Defaults: 100% scale, no high contrast, focus ring on.
    let base = A11ySettings::from_panel(&panel);
    assert_eq!(base.text_scale.percent(), 100);
    assert!(!base.high_contrast);
    assert!(base.focus_ring);

    panel
        .set("a11y.high_contrast", SettingValue::Toggle(true))
        .unwrap();
    panel
        .set("a11y.text_scale", SettingValue::Choice(2))
        .unwrap(); // 150%
    panel
        .set("a11y.screen_reader", SettingValue::Toggle(true))
        .unwrap();
    let a = A11ySettings::from_panel(&panel);
    assert!(a.high_contrast);
    assert_eq!(a.text_scale.percent(), 150);
    assert!(a.screen_reader);
}

#[test]
fn update_panel_tracks_check_state() {
    let mut p = UpdatePanel::new("0.2.0");
    assert_eq!(p.state, UpdateState::UpToDate);
    assert!(!p.has_update());
    p.begin_check();
    assert_eq!(p.state, UpdateState::Checking);
    p.report_available("0.3.0");
    assert!(p.has_update());
    assert_eq!(
        p.state,
        UpdateState::Available {
            version: "0.3.0".to_string()
        }
    );
    // Channel switch is validated.
    p.set_channel("beta").unwrap();
    assert_eq!(p.channel.value, SettingValue::Choice(1));
    assert_eq!(p.set_channel("nope"), Err(SettingsError::Unparsable));
}

#[test]
fn loading_ignores_what_does_not_parse() {
    let mut store = MapStore(BTreeMap::new());
    store.set("audio.output.volume", "loud");
    store.set("audio.output.mute", "true");
    let mut panel = audio_panel(&["HDMI"], &["Mic"]);
    let before = panel.find("audio.output.volume").unwrap().value.clone();
    panel.load(&store);
    assert_eq!(panel.find("audio.output.volume").unwrap().value, before);
    assert_eq!(
        panel.find("audio.output.mute").unwrap().value,
        SettingValue::Toggle(true)
    );
}

#[test]
fn a_commit_writes_every_setting_once_in_order() {
    struct Log(Vec<(String, String)>);
    impl ConfigStore for Log {
        fn get(&self, _key: &str) -> Option<String> {
            None
        }
        fn set(&mut self, key: &str, value: &str) {
            self.0.push((key.to_string(), value.to_string()));
        }
    }
    let panel = power_panel();
    let mut log = Log(Vec::new());
    panel.commit(&mut log);
    assert_eq!(log.0, panel.texts());
    assert_eq!(log.0.len(), panel.settings.len());
    // Answers are taken over in the same order.
    let mut other = power_panel();
    let answers = log.0.iter().map(|p| Some(p.1.clone())).collect();
    other.apply(&answers);
    assert_eq!(other, panel);
}

#[test]
fn values_are_read_back_from_their_text() {
    for n in [-50i64, -1, 0, 7, 50] {
        let mut s = range("n", "N", -50, 50, 0);
        s.set(SettingValue::Number(n)).unwrap();
        let text = s.serialize_value();
        let mut t = range("n", "N", -50, 50, 1);
        t.set_from_str(&text).unwrap();
        assert_eq!(t.value, SettingValue::Number(n));
    }
    let mut s = range("n", "N", -50, 50, 0);
    assert_eq!(s.set_from_str("51"), Err(SettingsError::OutOfRange));
    assert_eq!(s.set_from_str("x"), Err(SettingsError::Unparsable));
}

#[test]
fn a_second_administrator_can_go() {
    let row = |name: &str| AccountRow {
        username: name.to_string(),
        is_admin: true,
        enabled: true,
    };
    let panel = UsersPanel::new(vec![row("one"), row("two")]);
    assert_eq!(panel.enabled_admin_count(), 2);
    assert!(panel
        .validate(&AccountOp::Delete {
            username: "one".to_string()
        })
        .is_ok());
    let panel = UsersPanel::new(vec![row("one")]);
    assert_eq!(
        panel.validate(&AccountOp::SetEnabled {
            username: "one".to_string(),
            enabled: false
        }),
        Err(UsersError::LastAdmin)
    );
}

#[test]
fn an_update_check_can_fail() {
    let mut p = UpdatePanel::new("0.2.0");
    p.begin_check();
    p.fail("offline");
    assert_eq!(p.state, UpdateState::Error("offline".to_string()));
    p.report_up_to_date();
    assert_eq!(p.state, UpdateState::UpToDate);
}

/// A toggle is stored as `true` or `false`; any other text is unparsable and changes nothing.
#[test]
fn unparsable_toggle_keeps_its_default() {
    let mut store = MapStore(BTreeMap::new());
    store.set("power.dim_on_battery", "maybe");
    let mut p = power_panel();
    p.load(&store);
    assert_eq!(p, power_panel());
    assert_eq!(
        p.find("power.dim_on_battery").unwrap().value,
        SettingValue::Toggle(true)
    );
    let mut s = p.find("power.dim_on_battery").unwrap().clone();
    assert_eq!(s.set_from_str("yes"), Err(SettingsError::Unparsable));
    assert_eq!(s.value, SettingValue::Toggle(true));
    assert_eq!(s.set_from_str("false"), Ok(()));
    assert_eq!(s.value, SettingValue::Toggle(false));
    assert_eq!(s.set_from_str("true"), Ok(()));
    assert_eq!(s.value, SettingValue::Toggle(true));
}
