use rsfractal::fixed::SCALE;
use rsfractal::mandelbrot::palette_lookup;
use rsfractal::mandelbrot::Coloring;
use rsfractal::mandelbrot::Mandelbrot;
use rsfractal::mandelbrot::Rendering;

fn small_viewport(rendering: Rendering) -> Mandelbrot {
    let mut m = Mandelbrot::default();
    m.resolutions = vec![(64, 36)];
    m.selected_resolution = 0;
    m.max_iterations = 40;
    m.bailout = 4 * SCALE;
    m.coloring = Coloring::Palette;
    m.rendering = rendering;
    m
}

fn classification(pixels: &[u8]) -> Vec<bool> {
    pixels
        .chunks_exact(4)
        .map(|p| p[0] == 0 && p[1] == 0 && p[2] == 0)
        .collect()
}

#[test]
fn render_is_idempotent() {
    // two passes over the same viewport, each into a freshly zeroed
    // buffer, produce byte-identical output, in both rendering modes
    for rendering in [Rendering::Smooth, Rendering::Fast] {
        let m = small_viewport(rendering);
        let (w, h) = (m.width(), m.height());
        let mut first = vec![0u8; w * h * 4];
        let mut second = vec![0u8; w * h * 4];
        m.render(&mut first);
        m.render(&mut second);
        assert_eq!(first, second);
    }
}

#[test]
fn render_fills_the_whole_buffer() {
    for rendering in [Rendering::Smooth, Rendering::Fast] {
        let m = small_viewport(rendering);
        let (w, h) = (m.width(), m.height());
        let mut pixels = vec![0u8; w * h * 4];
        m.render(&mut pixels);
        assert_eq!(pixels.len(), w * h * 4);
        // every pixel was written: the alpha byte is always 255
        for p in pixels.chunks_exact(4) {
            assert_eq!(p[3], 255);
        }
    }
}

#[test]
fn scanner_matches_kernel_at_discontinuities() {
    // wherever the directly evaluated field changes between 4-connected
    // neighbours, the boundary-scanning approximation classifies both
    // pixels exactly as the kernel does
    let smooth = small_viewport(Rendering::Smooth);
    let fast = small_viewport(Rendering::Fast);
    let (w, h) = (smooth.width(), smooth.height());
    let mut exact_pixels = vec![0u8; w * h * 4];
    let mut fast_pixels = vec![0u8; w * h * 4];
    smooth.render(&mut exact_pixels);
    fast.render(&mut fast_pixels);
    let exact = classification(&exact_pixels);
    let approx = classification(&fast_pixels);
    let mut checked = 0usize;
    for y in 0..h {
        for x in 0..w {
            let i = y * w + x;
            let mut discontinuity = false;
            if x > 0 && exact[i - 1] != exact[i] {
                discontinuity = true;
            }
            if x + 1 < w && exact[i + 1] != exact[i] {
                discontinuity = true;
            }
            if y > 0 && exact[i - w] != exact[i] {
                discontinuity = true;
            }
            if y + 1 < h && exact[i + w] != exact[i] {
                discontinuity = true;
            }
            if discontinuity {
                assert_eq!(approx[i], exact[i], "pixel ({x}, {y})");
                checked += 1;
            }
        }
    }
    assert!(checked > 0, "the viewport must cut the set boundary");
}

#[test]
fn fast_band_frames_are_exact() {
    // every pixel on a band's frame (outer columns, first and last row
    // of each band of height/8 rows) is colored from its exact kernel
    // count
    let fast = small_viewport(Rendering::Fast);
    let (w, h) = (fast.width(), fast.height());
    let rows = (h / 8).max(1);
    let mut fast_pixels = vec![0u8; w * h * 4];
    fast.render(&mut fast_pixels);
    for y in 0..h {
        for x in 0..w {
            let on_frame = x == 0
                || x == w - 1
                || y % rows == 0
                || y % rows == rows - 1
                || y == h - 1;
            if !on_frame {
                continue;
            }
            let count = fast.count_at(x, y);
            let expected = fast.color_of_count(count);
            let i = (y * w + x) * 4;
            assert_eq!(
                &fast_pixels[i..i + 4],
                &[expected.r, expected.g, expected.b, 255]
            );
        }
    }
}

#[test]
fn palette_from_hex_texts() {
    let texts = vec!["#3e0000".to_string(), "6b1d09".to_string()];
    let p = rsfractal::mandelbrot::Palette::from_hex_colors("Custom", &texts).unwrap();
    assert_eq!(p.name, "Custom");
    assert_eq!(p.colors.len(), 2);
    assert_eq!(p.colors[0], rsfractal::color::Color::new(0x3e, 0x00, 0x00));
    assert_eq!(p.colors[1], rsfractal::color::Color::new(0x6b, 0x1d, 0x09));
    let bad = vec!["#3e0000".to_string(), "nope".to_string()];
    assert!(rsfractal::mandelbrot::Palette::from_hex_colors("Bad", &bad).is_none());
}

#[test]
fn palette_hits_first_and_last_control_color() {
    let m = Mandelbrot::default();
    let colors = &m.palettes[0].colors;
    assert_eq!(palette_lookup(colors, 0), colors[0]);
    assert_eq!(palette_lookup(colors, SCALE), colors[colors.len() - 1]);
}

#[test]
fn bounded_pixels_are_black() {
    let mut m = small_viewport(Rendering::Smooth);
    // center the viewport deep inside the set
    m.position = rsfractal::vector::Vector::new(0, 0);
    m.zoom = rsfractal::vector::Vector::new(SCALE / 16, SCALE / 16);
    let (w, h) = (m.width(), m.height());
    let mut pixels = vec![0u8; w * h * 4];
    m.render(&mut pixels);
    for p in pixels.chunks_exact(4) {
        assert_eq!(p, [0, 0, 0, 255]);
    }
}

#[test]
fn coloring_strategies_differ_only_in_hue_mapping() {
    // both strategies are pure functions of the count: rendering twice
    // with each gives self-consistent buffers of the same shape
    for coloring in [Coloring::Palette, Coloring::LCH] {
        let mut m = small_viewport(Rendering::Smooth);
        m.coloring = coloring;
        let (w, h) = (m.width(), m.height());
        let mut first = vec![0u8; w * h * 4];
        let mut second = vec![0u8; w * h * 4];
        m.render(&mut first);
        m.render(&mut second);
        assert_eq!(first, second);
    }
}
