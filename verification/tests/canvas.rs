use ray_tracer_challenge::canvas::Canvas;

type Rgb = (f64, f64, f64);

const BLACK: Rgb = (0.0, 0.0, 0.0);

fn levels(width: usize, height: usize) -> Canvas<(u8, u8, u8)> {
    Canvas::new_with_color(width, height, &(0, 0, 0))
}

#[test]
fn creating_a_canvas() {
    let c: Canvas<Rgb> = Canvas::new_with_color(10, 20, &BLACK);

    assert_eq!(c.width(), 10);
    assert_eq!(c.height(), 20);

    for pixel in c.data() {
        assert_eq!(*pixel, (0.0, 0.0, 0.0));
    }
}

#[test]
fn writing_pixels_to_canvas() {
    let mut c: Canvas<Rgb> = Canvas::new_with_color(10, 20, &BLACK);
    let r = (1.0, 0.0, 0.0);

    c.write((2, 3), r);

    assert_eq!(c.at((2, 3)).expect("pixel is defined"), &r);
}

#[test]
fn writing_outside_the_canvas_is_refused() {
    let mut c: Canvas<Rgb> = Canvas::new_with_color(10, 20, &BLACK);
    assert_eq!(c.write((10, 3), (1.0, 1.0, 1.0)), None);
    assert_eq!(c.write((3, 20), (1.0, 1.0, 1.0)), None);
    assert!(c.at((10, 0)).is_none());
    assert!(c.at((0, 20)).is_none());
    assert!(c.data().iter().all(|p| *p == BLACK));
}

#[test]
fn writing_a_pixel_leaves_the_others() {
    let mut c: Canvas<u32> = Canvas::new_with_color(4, 3, &0);
    assert_eq!(c.write((3, 1), 7), Some(()));
    assert_eq!(c.write((0, 2), 9), Some(()));
    assert_eq!(c.at((3, 1)), Some(&7));
    assert_eq!(c.at((0, 2)), Some(&9));
    assert_eq!(c.data()[4 * 1 + 3], 7);
    assert_eq!(c.data()[4 * 2], 9);
    let others = c.data().iter().filter(|p| **p == 0).count();
    assert_eq!(others, 10);
}

#[test]
fn constructing_ppm_header() {
    let c = levels(5, 3);
    let ppm = c.ppm();
    let lines = ppm.lines();

    let first3 = lines.take(3).collect::<Vec<_>>().join("\n");

    assert_eq!(
        first3,
        "P3
5 3
255"
    );
}

#[test]
fn constructing_ppm_pixel_data() {
    // The colors (1.5, 0, 0), (0, 0.5, 0) and (-0.5, 0, 1), scaled to 0..=255.
    let mut c = levels(5, 3);
    c.write((0, 0), (255, 0, 0));
    c.write((2, 1), (0, 128, 0));
    c.write((4, 2), (0, 0, 255));

    let ppm = c.ppm();
    let lines = ppm.lines();

    let lines4to6 = lines.skip(3).take(3).collect::<Vec<_>>().join("\n");

    assert_eq!(
        lines4to6,
        "255 0 0 0 0 0 0 0 0 0 0 0 0 0 0
0 0 0 0 0 0 0 128 0 0 0 0 0 0 0
0 0 0 0 0 0 0 0 0 0 0 0 0 0 255"
    );
}

#[test]
fn splitting_long_lines_in_ppm() {
    // The color (1.0, 0.8, 0.6), scaled to 0..=255.
    let c = Canvas::new_with_color(10, 2, &(255u8, 204u8, 153u8));

    let ppm = c.ppm();
    let lines = ppm.lines();

    let lines4to7 = lines.skip(3).take(4).collect::<Vec<_>>().join("\n");

    assert_eq!(
        lines4to7,
        "255 204 153 255 204 153 255 204 153 255 204 153 255 204 153 255 204
153 255 204 153 255 204 153 255 204 153 255 204 153
255 204 153 255 204 153 255 204 153 255 204 153 255 204 153 255 204
153 255 204 153 255 204 153 255 204 153 255 204 153"
    );
}

#[test]
fn ppm_files_terminated_by_newline() {
    let c = levels(5, 3);

    let ppm = c.ppm();
    assert!(ppm.ends_with('\n'));
}

#[test]
fn ppm_lines_never_exceed_seventy_characters() {
    let c = Canvas::new_with_color(37, 4, &(100u8, 7u8, 255u8));
    let ppm = c.ppm();
    assert!(ppm.lines().all(|l| l.len() <= 70));
    assert!(ppm.ends_with('\n'));
}

#[test]
fn ppm_of_an_empty_image_is_its_header() {
    let c = levels(3, 0);
    assert_eq!(c.ppm(), "P3\n3 0\n255\n\n");
}

#[test]
fn ppm_of_a_single_pixel() {
    let c = Canvas::new_with_color(1, 1, &(1u8, 22u8, 3u8));
    assert_eq!(c.ppm(), "P3\n1 1\n255\n1 22 3\n");
}

#[test]
fn every_level_reads_back_from_the_ppm() {
    let mut c = Canvas::new_with_color(256, 1, &(0u8, 0u8, 0u8));
    for v in 0..256usize {
        let l = v as u8;
        assert_eq!(c.write((v, 0), (l, 255 - l, l / 2)), Some(()));
    }
    let ppm = c.ppm();
    let numbers: Vec<usize> = ppm
        .lines()
        .skip(3)
        .flat_map(|l| l.split_whitespace().map(|w| w.parse::<usize>().unwrap()).collect::<Vec<_>>())
        .collect();
    assert_eq!(numbers.len(), 256 * 3);
    for v in 0..256usize {
        assert_eq!(numbers[3 * v], v);
        assert_eq!(numbers[3 * v + 1], 255 - v);
        assert_eq!(numbers[3 * v + 2], v / 2);
    }
}
