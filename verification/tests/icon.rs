use sapvault::icon::{adler32, build_ico, crc32, encode_png};

const ICO_SIZES: [u32; 6] = [16, 32, 48, 64, 128, 256];

fn lerp(a: f32, b: f32, t: f32) -> f32 {
    a + (b - a) * t
}

fn smoothstep(edge0: f32, edge1: f32, x: f32) -> f32 {
    if edge0 == edge1 {
        return if x < edge0 { 0.0 } else { 1.0 };
    }
    let t = ((x - edge0) / (edge1 - edge0)).clamp(0.0, 1.0);
    t * t * (3.0 - 2.0 * t)
}

/// Signed distance to a rounded rectangle centred on the origin.
fn rounded_rect_distance(x: f32, y: f32, half: f32, radius: f32) -> f32 {
    let qx = x.abs() - (half - radius);
    let qy = y.abs() - (half - radius);
    let dx = qx.max(0.0);
    let dy = qy.max(0.0);
    (dx * dx + dy * dy).sqrt() + qx.max(qy).min(0.0) - radius
}

/// A rounded gradient tile with a keyhole: the visual shorthand for "local,
/// encrypted credentials".
fn coverage(px: f32, py: f32, size: f32) -> (f32, f32, f32, f32) {
    let center = size / 2.0;
    let x = px - center;
    let y = py - center;
    let half = size * 0.44;
    let radius = size * 0.24;

    let tile = 1.0 - smoothstep(-0.7, 0.7, rounded_rect_distance(x, y, half, radius));

    // Vertical gradient background.
    let t = ((py / size) - 0.1).clamp(0.0, 1.0);
    let top = (0.30_f32, 0.47_f32, 0.96_f32);
    let bottom = (0.16_f32, 0.28_f32, 0.74_f32);
    let mut r = lerp(top.0, bottom.0, t);
    let mut g = lerp(top.1, bottom.1, t);
    let mut b = lerp(top.2, bottom.2, t);

    // Keyhole: circle plus a tapered stem.
    let hole_center_y = center - size * 0.10;
    let hole_radius = size * 0.115;
    let hole = 1.0
        - smoothstep(
            hole_radius - size * 0.012,
            hole_radius + size * 0.012,
            (x * x + (py - hole_center_y).powi(2)).sqrt(),
        );

    let stem_top = hole_center_y + hole_radius * 0.35;
    let stem_bottom = center + size * 0.20;
    let stem_half_width_top = size * 0.052;
    let stem_half_width_bottom = size * 0.088;
    let in_stem_band = smoothstep(stem_top - 1.0, stem_top + 1.0, py)
        * (1.0 - smoothstep(stem_bottom - 1.0, stem_bottom + 1.0, py));
    let band = ((py - stem_top) / (stem_bottom - stem_top)).clamp(0.0, 1.0);
    let stem_half_width = lerp(stem_half_width_top, stem_half_width_bottom, band);
    let stem = in_stem_band
        * (1.0 - smoothstep(stem_half_width - 0.8, stem_half_width + 0.8, x.abs()));

    let key_shape = hole.max(stem).clamp(0.0, 1.0);
    r = lerp(r, 1.0, key_shape);
    g = lerp(g, 1.0, key_shape);
    b = lerp(b, 1.0, key_shape);

    // Subtle top-left highlight so the tile does not read as a flat sticker.
    let highlight = (1.0 - smoothstep(0.0, size * 0.9, (x * x + y * y).sqrt())) * 0.10;
    r = (r + highlight).min(1.0);
    g = (g + highlight).min(1.0);
    b = (b + highlight).min(1.0);

    (r, g, b, tile)
}

/// Renders the icon with 4x4 supersampling for smooth edges.
fn render_icon(size: u32) -> Vec<u8> {
    let size = size.max(8);
    let mut out = vec![0u8; (size * size * 4) as usize];
    let samples = 4u32;
    for py in 0..size {
        for px in 0..size {
            let mut acc = (0.0_f32, 0.0_f32, 0.0_f32, 0.0_f32);
            for sy in 0..samples {
                for sx in 0..samples {
                    let fx = px as f32 + (sx as f32 + 0.5) / samples as f32;
                    let fy = py as f32 + (sy as f32 + 0.5) / samples as f32;
                    let (r, g, b, a) = coverage(fx, fy, size as f32);
                    acc.0 += r * a;
                    acc.1 += g * a;
                    acc.2 += b * a;
                    acc.3 += a;
                }
            }
            let total = (samples * samples) as f32;
            let alpha = acc.3 / total;
            let (r, g, b) = if acc.3 > 0.0 {
                (acc.0 / acc.3, acc.1 / acc.3, acc.2 / acc.3)
            } else {
                (0.0, 0.0, 0.0)
            };
            let index = ((py * size + px) * 4) as usize;
            out[index] = to_byte(r);
            out[index + 1] = to_byte(g);
            out[index + 2] = to_byte(b);
            out[index + 3] = to_byte(alpha);
        }
    }
    out
}

fn to_byte(value: f32) -> u8 {
    (value.clamp(0.0, 1.0) * 255.0).round() as u8
}

fn icon_file() -> Vec<u8> {
    let sizes: Vec<u32> = ICO_SIZES.to_vec();
    let images: Vec<Vec<u8>> = sizes.iter().map(|size| render_icon(*size)).collect();
    build_ico(&sizes, &images)
}

#[test]
fn ico_header_is_well_formed() {
    let ico = icon_file();
    assert_eq!(u16::from_le_bytes([ico[0], ico[1]]), 0);
    assert_eq!(u16::from_le_bytes([ico[2], ico[3]]), 1);
    assert_eq!(u16::from_le_bytes([ico[4], ico[5]]) as usize, ICO_SIZES.len());
}

#[test]
fn png_starts_with_the_signature() {
    let png = encode_png(&render_icon(16), 16, 16);
    assert_eq!(&png[..8], &[0x89, b'P', b'N', b'G', 0x0D, 0x0A, 0x1A, 0x0A]);
    assert_eq!(&png[12..16], b"IHDR");
}

#[test]
fn adler_and_crc_match_known_values() {
    assert_eq!(adler32(b"Wikipedia"), 0x11E6_0398);
    assert_eq!(crc32(b"123456789"), 0xCBF4_3926);
}

#[test]
fn checksums_of_nothing() {
    assert_eq!(adler32(b""), 1);
    assert_eq!(crc32(b""), 0);
}
