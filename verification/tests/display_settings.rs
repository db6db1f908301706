//! The display settings panel.

use nexacore_ui::display_settings::{
    DisplayError, DisplaySettingsPanel, OutputId, OutputMode, OutputState, PanelError,
};

#[derive(Debug, Clone, Copy, PartialEq, Eq)]
enum Rotation {
    Normal,
    Rotate90,
}

fn mode(width: u32, height: u32, refresh_mhz: u32) -> OutputMode {
    OutputMode {
        width,
        height,
        refresh_mhz,
    }
}

/// The logical size of a mode, scale and rotation.
fn extent(m: OutputMode, percent: u32, rotation: Rotation) -> (u32, u32) {
    let (w, h) = (m.width * 100 / percent, m.height * 100 / percent);
    match rotation {
        Rotation::Normal => (w, h),
        Rotation::Rotate90 => (h, w),
    }
}

fn supported(percent: u32) -> bool {
    percent >= 50
}

fn output(id: u32, name: &str, modes: Vec<OutputMode>) -> OutputState<Rotation> {
    let active = modes[0];
    OutputState {
        id: OutputId(id),
        name: name.to_string(),
        enabled: true,
        modes,
        active,
        scale_percent: 100,
        rotation: Rotation::Normal,
        position: (0, 0),
        logical_size: (active.width, active.height),
    }
}

fn panel() -> DisplaySettingsPanel<Rotation> {
    let a = output(
        1,
        "eDP-1",
        vec![mode(1920, 1080, 60_000), mode(1280, 720, 60_000)],
    );
    let b = output(2, "HDMI-A-1", vec![mode(1920, 1080, 60_000)]);
    let mut p = DisplaySettingsPanel::new(vec![a, b], Some(OutputId(1)));
    p.arrange_horizontal();
    p
}

#[test]
fn rows_expose_modes_and_primary() {
    let p = panel();
    let rows = p.rows();
    assert_eq!(rows.len(), 2);
    assert_eq!(rows[0].name, "eDP-1");
    assert_eq!(rows[0].modes.len(), 2);
    assert!(rows[0].modes[0].is_active); // 1920x1080 preferred
    assert!(rows[0].is_primary); // at global origin
    assert!(!rows[1].is_primary);
}

#[test]
fn set_scale_percent_updates_logical_size() {
    let mut p = panel();
    p.set_scale_percent(OutputId(1), 200, &supported, &extent)
        .unwrap();
    let row = &p.rows()[0];
    assert_eq!(row.scale_percent, 200);
    assert_eq!(row.logical_size, (960, 540));
}

#[test]
fn unsupported_scale_is_rejected() {
    let mut p = panel();
    // 0% is not a valid factor.
    assert_eq!(
        p.set_scale_percent(OutputId(1), 0, &supported, &extent),
        Err(PanelError::InvalidScale)
    );
}

#[test]
fn rotation_round_trips_into_row() {
    let mut p = panel();
    p.set_rotation(OutputId(1), Rotation::Rotate90, &extent)
        .unwrap();
    assert_eq!(p.rows()[0].rotation, Rotation::Rotate90);
    assert_eq!(p.rows()[0].logical_size, (1080, 1920));
}

#[test]
fn overlap_fails_validation() {
    let mut p = panel();
    p.move_output(OutputId(2), 0, 0).unwrap(); // stack on top of output 1
    assert_eq!(p.validate(), Err(PanelError::OverlappingLayout));
}

#[test]
fn disabling_all_fails_validation() {
    let mut p = panel();
    p.set_enabled(OutputId(1), false).unwrap();
    p.set_enabled(OutputId(2), false).unwrap();
    assert_eq!(p.validate(), Err(PanelError::NoEnabledOutput));
}

#[test]
fn valid_extended_desktop_passes() {
    let p = panel();
    assert!(p.validate().is_ok());
}

#[test]
fn unknown_output_edit_is_display_error() {
    let mut p = panel();
    assert_eq!(
        p.select_mode(OutputId(99), 0, &extent),
        Err(PanelError::Display(DisplayError::UnknownOutput(OutputId(
            99
        ))))
    );
}

#[test]
fn selecting_a_mode_changes_the_active_one() {
    let mut p = panel();
    p.select_mode(OutputId(1), 1, &extent).unwrap();
    let row = &p.rows()[0];
    assert!(!row.modes[0].is_active);
    assert!(row.modes[1].is_active);
    assert_eq!(row.logical_size, (1280, 720));
    assert_eq!(
        p.select_mode(OutputId(1), 2, &extent),
        Err(PanelError::Display(DisplayError::InvalidMode))
    );
}

#[test]
fn arranging_repairs_an_overlap_without_gaps() {
    let mut p = panel();
    p.move_output(OutputId(2), 5, 5).unwrap();
    assert!(p.validate().is_err());
    p.arrange_horizontal();
    assert_eq!(p.validate(), Ok(()));
    assert_eq!(p.rows()[0].position, (0, 0));
    assert_eq!(p.rows()[1].position, (1920, 0));
    p.set_enabled(OutputId(1), false).unwrap();
    p.arrange_horizontal();
    assert_eq!(p.rows()[1].position, (0, 0));
}

#[test]
fn panel_errors_have_messages() {
    assert_eq!(
        PanelError::InvalidScale.message(""),
        "display settings: unsupported scale"
    );
    assert_eq!(
        PanelError::Display(DisplayError::InvalidMode).message("no such mode"),
        "display settings: no such mode"
    );
}

#[test]
fn panels_and_rows_can_be_copied() {
    let p = panel();
    let mut q = p.clone();
    assert_eq!(q.rows(), p.rows());
    q.set_enabled(OutputId(1), false).unwrap();
    assert_ne!(q.rows(), p.rows());
    assert_eq!(p.rows()[0].clone(), p.rows()[0]);
}

#[test]
fn default_panel_has_no_output() {
    let p: DisplaySettingsPanel<Rotation> = DisplaySettingsPanel::default();
    assert!(p.rows().is_empty());
    assert_eq!(p.validate(), Err(PanelError::NoEnabledOutput));
}

#[test]
fn display_errors_become_panel_errors() {
    assert_eq!(
        PanelError::from(DisplayError::InvalidMode),
        PanelError::Display(DisplayError::InvalidMode)
    );
}

/// The primary output is the enabled one at the global origin.
#[test]
fn primary_follows_the_origin() {
    let primary = |p: &DisplaySettingsPanel<Rotation>| -> Vec<bool> {
        p.rows().iter().map(|r| r.is_primary).collect()
    };
    // The outputs trade places.
    let mut p = panel();
    p.move_output(OutputId(1), 1920, 0).unwrap();
    assert_eq!(primary(&p), [true, false]); // nothing at the origin yet
    p.move_output(OutputId(2), 0, 0).unwrap();
    assert_eq!(primary(&p), [false, true]);

    // The first is disabled and the rest arranged.
    let mut q = panel();
    q.set_enabled(OutputId(1), false).unwrap();
    q.arrange_horizontal();
    assert_eq!(primary(&q), [false, true]);
    q.set_enabled(OutputId(1), true).unwrap();
    q.arrange_horizontal();
    assert_eq!(primary(&q), [true, false]);

    // An edit that fails changes nothing.
    assert!(q.move_output(OutputId(9), 0, 0).is_err());
    assert_eq!(primary(&q), [true, false]);
}
