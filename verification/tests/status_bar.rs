//! The AI status bar.

use nexacore_ui::ai::{BackendKind, BackendStatusEvent};
use nexacore_ui::canvas::Canvas;
use nexacore_ui::color::{Palette, MUTED};
use nexacore_ui::geometry::Rect;
use nexacore_ui::status_bar::{BackendState, StatusBar};
use nexacore_ui::theme::{Shadow, Theme};

fn theme() -> Theme {
    Theme {
        bg_canvas: 0xFFF4_EBD0,
        bg_surface: 0xFF0F_4C5C,
        text: 0xFF1F_2421,
        accent: 0xFF5B_8A72,
        success: 0xFF5B_8A72,
        border: 0xFF1F_2421,
        text_scale: 1,
        padding: 8,
        spacing: 8,
        radius: 6,
        elevation: Shadow {
            offset_y: 2,
            blur: 4,
            spread: 0,
            color: 0x4000_0000,
        },
    }
}

fn palette() -> Palette {
    Palette {
        cream_50: 0xFFFB_F8EE,
        cream_300: 0xFFF4_EBD0,
        charcoal_900: 0xFF14_171A,
        charcoal_800: 0xFF1F_2421,
        charcoal_500: 0xFF5A_5F5C,
        petrol_300: 0xFF5D_95A3,
        petrol_500: 0xFF0F_4C5C,
        petrol_700: 0xFF0A_3541,
        sage_500: 0xFF5B_8A72,
        brick_500: 0xFF9A_3B2E,
        status_warning: 0xFFD9_A441,
        surface_dark: 0xFF20_2628,
        text_on_dark: 0xFFF0_F0EA,
        text_on_dark_secondary: 0xFFA8_ADA9,
        focus_ring: 0xFF2E_7F93,
    }
}

fn gpu_event(degraded: bool) -> BackendStatusEvent {
    BackendStatusEvent {
        backend: BackendKind::RemoteGpu,
        healthy: true,
        degraded,
    }
}

fn cpu_event(degraded: bool) -> BackendStatusEvent {
    BackendStatusEvent {
        backend: BackendKind::LocalCpu,
        healthy: true,
        degraded,
    }
}

/// The canonical bar rect for render tests.
fn bar_rect() -> Rect {
    Rect {
        x: 0,
        y: 0,
        w: 256,
        h: 28,
    }
}

/// Build a canvas backed by a `&mut [u32]` slice of the given dimensions.
fn make_canvas(pixels: &mut [u32], w: u32, h: u32) -> Canvas<'_> {
    Canvas::new(pixels, w, h).expect("valid dimensions")
}

#[test]
fn transitions_gpu_cpu_gpu() {
    let mut bar = StatusBar::new();
    assert_eq!(
        bar.state(),
        BackendState::Unknown,
        "initial state is Unknown"
    );

    // RemoteGpu && !degraded -> Gpu
    bar.apply(gpu_event(false));
    assert_eq!(bar.state(), BackendState::Gpu, "RemoteGpu/healthy -> Gpu");

    // LocalCpu && degraded -> CpuDegraded
    bar.apply(cpu_event(true));
    assert_eq!(
        bar.state(),
        BackendState::CpuDegraded,
        "LocalCpu/degraded -> CpuDegraded"
    );

    // Back to Gpu
    bar.apply(gpu_event(false));
    assert_eq!(bar.state(), BackendState::Gpu, "RemoteGpu/!degraded -> Gpu");
}

#[test]
fn degraded_flag_wins_over_remote_gpu() {
    // A RemoteGpu event with degraded:true must produce CpuDegraded.
    let mut bar = StatusBar::new();
    bar.apply(gpu_event(true));
    assert_eq!(
        bar.state(),
        BackendState::CpuDegraded,
        "RemoteGpu with degraded:true -> CpuDegraded"
    );
}

#[test]
fn all_four_event_combinations() {
    // Cover every combination: backend x degraded.
    let combinations = [
        (BackendKind::RemoteGpu, false, BackendState::Gpu),
        (BackendKind::RemoteGpu, true, BackendState::CpuDegraded),
        (BackendKind::LocalCpu, false, BackendState::CpuDegraded),
        (BackendKind::LocalCpu, true, BackendState::CpuDegraded),
    ];

    for (backend, degraded, expected) in combinations {
        let mut bar = StatusBar::new();
        bar.apply(BackendStatusEvent {
            backend,
            healthy: true,
            degraded,
        });
        assert_eq!(
            bar.state(),
            expected,
            "backend={backend:?} degraded={degraded} -> {expected:?}"
        );
    }
}

#[test]
fn apply_never_panics_with_all_field_combinations() {
    // Feed all 2x2x2 = 8 field combinations; confirm totality.
    let mut bar = StatusBar::new();
    for backend in [BackendKind::RemoteGpu, BackendKind::LocalCpu] {
        for healthy in [false, true] {
            for degraded in [false, true] {
                bar.apply(BackendStatusEvent {
                    backend,
                    healthy,
                    degraded,
                });
            }
        }
    }
    // Must reach here without panicking.
    // The final state is whatever the last event produced; we just
    // verify no panic occurred.
    let _ = bar.state();
}

/// Returns the pixel at the centre of the indicator box.
///
/// With the default theme (`padding = 8`) and a 28-px bar height the
/// indicator is `bar_h - 8 = 20` px square, top-left at
/// `(padding, (bar_h - ind_size)/2) = (8, 4)`.
/// The centre pixel is at `(8 + 20/2, 4 + 20/2) = (18, 14)`.
fn indicator_center_pixel(pixels: &[u32], w: u32) -> u32 {
    let theme = theme();
    let bar_h: u32 = 28;
    let ind_size = bar_h.saturating_sub(8).max(1); // 20
    let v_offset = bar_h.saturating_sub(ind_size) / 2; // 4
    let ind_x = theme.padding; // 8
    let ind_y = v_offset; // 4
    let cx = ind_x + ind_size / 2; // 18
    let cy = ind_y + ind_size / 2; // 14
    pixels[(cy as usize) * (w as usize) + (cx as usize)]
}

#[test]
fn render_gpu_indicator_is_sage() {
    let mut bar = StatusBar::new();
    bar.layout(bar_rect());
    bar.apply(gpu_event(false));

    let (w, h) = (256u32, 28u32);
    let mut pixels = vec![0u32; (w * h) as usize];
    {
        let mut canvas = make_canvas(&mut pixels, w, h);
        bar.render(&mut canvas, &theme(), &palette());
    }

    assert_eq!(
        indicator_center_pixel(&pixels, w),
        palette().sage_500,
        "Gpu state: indicator pixel must be SAGE"
    );
}

#[test]
fn render_cpu_degraded_indicator_is_brick() {
    let mut bar = StatusBar::new();
    bar.layout(bar_rect());
    bar.apply(cpu_event(true));

    let (w, h) = (256u32, 28u32);
    let mut pixels = vec![0u32; (w * h) as usize];
    {
        let mut canvas = make_canvas(&mut pixels, w, h);
        bar.render(&mut canvas, &theme(), &palette());
    }

    assert_eq!(
        indicator_center_pixel(&pixels, w),
        palette().brick_500,
        "CpuDegraded state: indicator pixel must be BRICK"
    );
}

#[test]
fn render_unknown_indicator_is_muted() {
    let mut bar = StatusBar::new();
    bar.layout(bar_rect());
    // Do NOT apply any event — state stays Unknown.

    let (w, h) = (256u32, 28u32);
    let mut pixels = vec![0u32; (w * h) as usize];
    {
        let mut canvas = make_canvas(&mut pixels, w, h);
        bar.render(&mut canvas, &theme(), &palette());
    }

    assert_eq!(
        indicator_center_pixel(&pixels, w),
        MUTED,
        "Unknown state: indicator pixel must be MUTED"
    );
}

#[test]
fn render_rect_partly_off_canvas_does_not_panic() {
    let mut bar = StatusBar::new();
    // Lay out a rect that is partly outside the canvas (canvas is 32x8;
    // the bar starts at x=20, so it overflows the right edge).
    bar.layout(Rect {
        x: 20,
        y: 0,
        w: 640,
        h: 28,
    });
    bar.apply(gpu_event(false));

    let (w, h) = (32u32, 8u32);
    let mut pixels = vec![0u32; (w * h) as usize];
    let mut canvas = make_canvas(&mut pixels, w, h);
    bar.render(&mut canvas, &theme(), &palette()); // must not panic
    assert_eq!(pixels.len(), (w * h) as usize, "buffer length unchanged");
}

#[test]
fn render_zero_size_rect_does_not_panic() {
    let mut bar = StatusBar::new();
    bar.layout(Rect {
        x: 0,
        y: 0,
        w: 0,
        h: 0,
    });

    let (w, h) = (64u32, 16u32);
    let mut pixels = vec![0u32; (w * h) as usize];
    let mut canvas = make_canvas(&mut pixels, w, h);
    bar.render(&mut canvas, &theme(), &palette()); // must not panic
}

#[test]
fn rapid_apply_last_event_wins() {
    let mut bar = StatusBar::new();
    for _ in 0..100 {
        bar.apply(gpu_event(false));
        bar.apply(cpu_event(true));
    }
    assert_eq!(bar.state(), BackendState::CpuDegraded);
    bar.apply(gpu_event(false));
    assert_eq!(bar.state(), BackendState::Gpu);
}

#[test]
fn painting_stays_inside_the_bar() {
    let mut bar = StatusBar::new();
    bar.layout(bar_rect());
    assert_eq!(bar.rect(), bar_rect());
    let (w, h) = (256u32, 40u32);
    let mut pixels = vec![7u32; (w * h) as usize];
    {
        let mut canvas = make_canvas(&mut pixels, w, h);
        bar.render(&mut canvas, &theme(), &palette());
    }
    assert!(pixels[(w * 28) as usize..].iter().all(|&p| p == 7));
    assert!(pixels[..(w * 28) as usize].iter().all(|&p| p != 7));
}
