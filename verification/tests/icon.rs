//! Icon paths, outlines and filling.

use nexacore_ui::ai::FloatBits;
use nexacore_ui::icon::{
    brand, brand_icon, edges, parse_path, render, IconPath, IconWeight, PathCommand, PathStep,
    Vertex, BEZIER_STEPS,
};

fn side(x: f32) -> FloatBits {
    FloatBits(x.to_bits())
}

/// Where each step of a path ends.
fn ends(steps: &[PathStep]) -> Vec<(f32, f32)> {
    let mut out = Vec::new();
    let (mut x, mut y) = (0.0f32, 0.0f32);
    let mut start = (0.0f32, 0.0f32);
    for s in steps {
        let n: Vec<f32> = s.numbers.iter().map(|t| t.parse().unwrap()).collect();
        let (bx, by) = if s.relative { (x, y) } else { (0.0, 0.0) };
        match s.command {
            PathCommand::Horizontal => x = bx + n[0],
            PathCommand::Vertical => y = by + n[0],
            PathCommand::Close => (x, y) = start,
            _ => {
                x = bx + n[n.len() - 2];
                y = by + n[n.len() - 1];
            }
        }
        if s.command == PathCommand::Move {
            start = (x, y);
        }
        out.push((x, y));
    }
    out
}

/// Fills a path without curves.
fn paint(path: &IconPath, size: u32, fill: u32) -> Vec<u32> {
    let points = ends(path.steps());
    let at = |v: Vertex| match v {
        Vertex::Origin => (0.0, 0.0),
        Vertex::End(i) => points[i],
        Vertex::Along(..) => panic!("no curves here"),
    };
    let scale = size as f32 / f32::from_bits(path.viewbox().0);
    let sides = edges(&path.contours());
    render(size, fill, &|x, y| {
        let (cx, cy) = (x as f32 + 0.5, y as f32 + 0.5);
        let mut n = 0;
        for &(a, b) in &sides {
            let ((x0, y0), (x1, y1)) = (at(a), at(b));
            let (py0, py1) = (y0 * scale, y1 * scale);
            if (py0 <= cy && cy < py1) || (py1 <= cy && cy < py0) {
                let t = (cy - py0) / (py1 - py0);
                if (x0 + t * (x1 - x0)) * scale <= cx {
                    n += 1;
                }
            }
        }
        n
    })
}

fn alpha_at(buf: &[u32], size: u32, x: u32, y: u32) -> u8 {
    let idx = (y * size + x) as usize;
    ((buf[idx] >> 24) & 0xFF) as u8
}

fn filled_count(buf: &[u32]) -> usize {
    buf.iter().filter(|&&p| (p >> 24) & 0xFF != 0).count()
}

#[test]
fn parse_square_path() {
    let p = parse_path("M4 4 H20 V20 H4 Z", side(24.0)).unwrap();
    assert_eq!(p.contours().len(), 1);
    assert!(!p.is_empty());
    assert_eq!(p.viewbox(), side(24.0));
}

#[test]
fn parse_relative_and_implicit_lineto() {
    // 'm' then implicit relative linetos.
    let p = parse_path("m4 4 l16 0 l0 16 l-16 0 z", side(24.0)).unwrap();
    assert_eq!(p.contours().len(), 1);
    assert!(!p.is_empty());
}

#[test]
fn parse_rejects_unsupported_command_and_bad_viewbox() {
    assert!(parse_path("M0 0 A 1 1 0 0 1 2 2", side(24.0)).is_none()); // arc unsupported
    assert!(parse_path("M0 0 L1 1", side(0.0)).is_none()); // bad viewbox
}

#[test]
fn parse_curve_flattens_to_segments() {
    let p = parse_path("M0 12 C0 0 24 0 24 12 Z", side(24.0)).unwrap();
    // One contour with the moveto + flattened curve points + close.
    assert!(p.contours()[0].len() > BEZIER_STEPS as usize);
}

#[test]
fn render_square_fills_interior_not_exterior() {
    let p = parse_path("M4 4 H20 V20 H4 Z", side(24.0)).unwrap();
    let buf = paint(&p, 24, 0xFF_FF_FF_FF);
    assert_eq!(buf.len(), 24 * 24);
    // Center is inside the 4..20 square.
    assert_eq!(alpha_at(&buf, 24, 12, 12), 0xFF);
    // Corners are outside.
    assert_eq!(alpha_at(&buf, 24, 1, 1), 0x00);
    assert_eq!(alpha_at(&buf, 24, 22, 22), 0x00);
}

#[test]
fn render_triangle_respects_diagonal() {
    // Right triangle with the right angle at the top-left.
    let p = parse_path("M2 2 L22 2 L2 22 Z", side(24.0)).unwrap();
    let buf = paint(&p, 24, 0xFF_FF_FF_FF);
    // Near the top-left is inside; the bottom-right is across the diagonal.
    assert_eq!(alpha_at(&buf, 24, 4, 4), 0xFF);
    assert_eq!(alpha_at(&buf, 24, 20, 20), 0x00);
}

#[test]
fn render_empty_for_zero_size() {
    let p = parse_path("M4 4 H20 V20 H4 Z", side(24.0)).unwrap();
    assert!(paint(&p, 0, 0xFF_FF_FF_FF).is_empty());
}

#[test]
fn brand_lookup_and_variants() {
    assert!(brand_icon("plus").is_some());
    assert!(brand_icon("nope").is_none());

    let plus = brand_icon("plus").unwrap();
    let reg = paint(&plus.path(IconWeight::Regular).unwrap(), 24, 0xFF_FF_FF_FF);
    let bold = paint(&plus.path(IconWeight::Bold).unwrap(), 24, 0xFF_FF_FF_FF);
    // Both render the plus center filled.
    assert_eq!(alpha_at(&reg, 24, 12, 12), 0xFF);
    assert_eq!(alpha_at(&bold, 24, 12, 12), 0xFF);
    // Bold has wider arms ⇒ strictly more filled pixels.
    assert!(
        filled_count(&bold) > filled_count(&reg),
        "bold {} should exceed regular {}",
        filled_count(&bold),
        filled_count(&reg)
    );
}

#[test]
fn brand_icons_all_parse() {
    for def in brand::all() {
        assert!(def.path(IconWeight::Regular).is_some(), "{}", def.name);
        assert!(def.path(IconWeight::Bold).is_some(), "{}", def.name);
    }
}

#[test]
fn icon_renders_at_multiple_sizes() {
    let sq = brand_icon("square").unwrap();
    for size in [16u32, 24, 48] {
        let buf = paint(&sq.path(IconWeight::Regular).unwrap(), size, 0xFF_10_20_30);
        assert_eq!(buf.len(), (size * size) as usize);
        // Center pixel is inside the square at every size.
        assert_eq!(alpha_at(&buf, size, size / 2, size / 2), 0xFF);
    }
}

#[test]
fn steps_hold_what_is_written() {
    let p = parse_path("m-1.5,+2 3 4h.5V7.z", side(24.0)).unwrap();
    let texts: Vec<Vec<&str>> = p
        .steps()
        .iter()
        .map(|s| s.numbers.iter().map(|n| n.as_str()).collect())
        .collect();
    assert_eq!(
        texts,
        [vec!["-1.5", "+2"], vec!["3", "4"], vec![".5"], vec!["7."], vec![]]
    );
    let commands: Vec<PathCommand> = p.steps().iter().map(|s| s.command).collect();
    assert_eq!(
        commands,
        [
            PathCommand::Move,
            PathCommand::Line,
            PathCommand::Horizontal,
            PathCommand::Vertical,
            PathCommand::Close
        ]
    );
    let relative: Vec<bool> = p.steps().iter().map(|s| s.relative).collect();
    assert_eq!(relative, [true, true, true, false, true]);
}

#[test]
fn malformed_data_is_refused() {
    for d in ["1 2", "M1", "M1 .", "M1 2 L+", "M0 0 Z 5", "M0 0 L1 1 é"] {
        assert!(parse_path(d, side(24.0)).is_none(), "{d}");
    }
    assert!(parse_path("", side(24.0)).unwrap().is_empty());
    for bad in [-1.0f32, f32::NAN, f32::INFINITY] {
        assert!(parse_path("M0 0 L1 1", side(bad)).is_none());
    }
}

#[test]
fn contours_are_closed_and_drawable() {
    let p = parse_path("M0 0 L1 0 L1 1 Z M5 5 M6 6 L7 7", side(8.0)).unwrap();
    let c = p.contours();
    assert_eq!(
        c,
        [
            vec![Vertex::End(0), Vertex::End(1), Vertex::End(2), Vertex::End(0)],
            vec![Vertex::End(5), Vertex::End(6)]
        ]
    );
    assert_eq!(edges(&c).len(), 6);
    // Without a move a contour begins at the origin.
    let p = parse_path("L1 0 Z", side(8.0)).unwrap();
    assert_eq!(p.contours(), [vec![Vertex::End(0), Vertex::Origin]]);
}

#[test]
fn filling_follows_the_parity_of_the_crossings() {
    assert_eq!(render(2, 9, &|x, y| (x + y) as usize), [0, 9, 9, 0]);
}

#[test]
fn brand_icons_are_in_name_order() {
    let names: Vec<&str> = brand::all().iter().map(|i| i.name).collect();
    assert_eq!(names, ["check", "plus", "square"]);
}
