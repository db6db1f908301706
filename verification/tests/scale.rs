//! Asset density and logical sizes.

use nexacore_ui::layout::Size;
use nexacore_ui::scale::AssetDensity;

/// Logical to device pixels, rounded.
fn scale_length(n: u32, factor: f32) -> u32 {
    (n as f32 * factor).round() as u32
}

#[test]
fn asset_density_picks_smallest_bucket_ge_scale() {
    assert_eq!(AssetDensity::for_scale(1.0f32.to_bits()), AssetDensity::X1);
    assert_eq!(
        AssetDensity::for_scale(1.5f32.to_bits()),
        AssetDensity::X2
    );
    assert_eq!(
        AssetDensity::for_scale(2.0f32.to_bits()),
        AssetDensity::X2
    );
    assert_eq!(
        AssetDensity::for_scale(2.5f32.to_bits()),
        AssetDensity::X3
    );
    assert_eq!(
        AssetDensity::for_scale(3.0f32.to_bits()),
        AssetDensity::X3
    );
    assert_eq!(
        AssetDensity::for_scale(5.0f32.to_bits()),
        AssetDensity::X3
    );
}

#[test]
fn asset_density_factor_and_suffix() {
    assert_eq!(AssetDensity::X1.factor(), 1);
    assert_eq!(AssetDensity::X2.factor(), 2);
    assert_eq!(AssetDensity::X3.factor(), 3);
    assert_eq!(AssetDensity::X2.suffix(), "@2x");
}

#[test]
fn size_scales_to_device_pixels() {
    let logical = Size { w: 100, h: 40 };
    assert_eq!(
        logical.scaled(&|n| scale_length(n, 2.0)),
        Size { w: 200, h: 80 }
    );
    // 1.5× rounds 100→150 and 40→60.
    assert_eq!(
        logical.scaled(&|n| scale_length(n, 1.5)),
        Size { w: 150, h: 60 }
    );
}

#[test]
fn density_grows_with_the_scale() {
    let scales = [0.5f32, 1.0, 1.01, 2.0, 2.01, 8.0];
    let densities: Vec<u32> = scales
        .iter()
        .map(|s| AssetDensity::for_scale(s.to_bits()).factor())
        .collect();
    assert_eq!(densities, [1, 1, 2, 2, 3, 3]);
}
