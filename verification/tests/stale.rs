use omoya::stale::{attribute, render_mask, scan, NamedRect, StaleRegion, StaleReport};

fn buf(w: usize, h: usize, v: u8) -> Vec<u8> {
    vec![v; w * h * 4]
}

#[test]
fn identical_buffers_are_clean_and_say_what_they_compared() {
    let (w, h) = (16, 8);
    let r = scan(&buf(w, h, 7), &buf(w, h, 7), w, h);
    assert_eq!(r.stale_pixels, 0);
    assert_eq!(r.compared_pixels, 128, "the denominator must be reported");
    assert!(r.is_clean());
}

#[test]
fn a_scan_that_compared_nothing_is_not_clean() {
    let r = scan(&[], &[], 16, 8);
    assert_eq!(r.stale_pixels, 0);
    assert_eq!(r.compared_pixels, 0);
    assert!(!r.is_clean(), "zero stale over zero compared is not health");
}

#[test]
fn a_stale_rectangle_is_found_and_merged_into_one_region() {
    let (w, h) = (32, 16);
    let mut sc = buf(w, h, 0);
    let sh = buf(w, h, 0);
    for y in 5..9 {
        for x in 10..16 {
            sc[(y * w + x) * 4 + 1] = 0xFF;
        }
    }
    let r = scan(&sh, &sc, w, h);
    assert_eq!(r.stale_pixels, 24);
    assert_eq!(r.regions.len(), 1, "one block must merge to one region");
    let g = &r.regions[0];
    assert_eq!((g.x, g.y, g.w, g.h), (10, 5, 6, 4));
}

#[test]
fn alpha_alone_is_not_staleness() {
    let (w, h) = (8, 4);
    let sh = buf(w, h, 0);
    let mut sc = buf(w, h, 0);
    for p in sc.chunks_exact_mut(4) {
        p[3] = 0xFF;
    }
    assert_eq!(scan(&sh, &sc, w, h).stale_pixels, 0, "the scanout plane has no meaningful alpha");
}

#[test]
fn a_region_is_attributed_to_the_smallest_element_containing_it() {
    let mut r = StaleReport {
        stale_pixels: 4,
        compared_pixels: 100,
        regions: vec![StaleRegion { x: 12, y: 12, w: 4, h: 4, pixels: 4, attribution: None }],
    };
    attribute(
        &mut r,
        &[
            NamedRect { name: "background".into(), x: 0, y: 0, w: 100, h: 100 },
            NamedRect { name: "window[0]".into(), x: 10, y: 10, w: 20, h: 20 },
        ],
    );
    assert_eq!(r.regions[0].attribution.as_deref(), Some("window[0]"));
}

#[test]
fn an_unattributed_region_is_reported_rather_than_dropped() {
    let mut r = StaleReport {
        stale_pixels: 1,
        compared_pixels: 100,
        regions: vec![StaleRegion { x: 90, y: 90, w: 2, h: 2, pixels: 1, attribution: None }],
    };
    attribute(&mut r, &[NamedRect { name: "w".into(), x: 0, y: 0, w: 10, h: 10 }]);
    assert!(r.regions[0].attribution.is_none(), "background staleness is a finding");
    assert_eq!(r.regions.len(), 1);
}

#[test]
fn the_mask_marks_stale_pixels_and_dims_the_rest() {
    let (w, h) = (2, 1);
    let sh = vec![0x40, 0x40, 0x40, 0xFF, 0x40, 0x40, 0x40, 0xFF];
    let mut sc = sh.clone();
    sc[4] = 0x00;
    let png = render_mask(&sh, &sc, w, h);
    let body = &png[png.len() - 6..];
    assert_eq!(&body[0..3], &[0x10, 0x10, 0x10], "clean pixel is dimmed 4x");
    assert_eq!(&body[3..6], &[0xBF, 0x61, 0x6A], "stale pixel is nord11");
}

#[test]
fn the_mask_starts_with_its_header() {
    let png = render_mask(&[0; 4], &[0; 4], 1, 1);
    assert!(png.starts_with(b"P6\n1 1\n255\n"));
    assert_eq!(png.len(), b"P6\n1 1\n255\n".len() + 3);
}

#[test]
fn two_separate_bands_are_two_regions() {
    let (w, h) = (8, 8);
    let sh = buf(w, h, 0);
    let mut sc = buf(w, h, 0);
    sc[(w + 2) * 4] = 1;
    sc[(5 * w + 2) * 4] = 1;
    let r = scan(&sh, &sc, w, h);
    assert_eq!(r.stale_pixels, 2);
    assert_eq!(r.regions.len(), 2);
}

#[test]
fn regions_sum_to_the_stale_count_and_cover_every_stale_pixel() {
    let (w, h) = (10, 6);
    let sh = buf(w, h, 0);
    let mut sc = buf(w, h, 0);
    let stale = [(1usize, 0usize), (4, 0), (3, 1), (8, 1), (0, 3), (9, 5), (5, 5)];
    for &(x, y) in stale.iter() {
        sc[(y * w + x) * 4 + 1] = 9;
    }
    let r = scan(&sh, &sc, w, h);
    assert_eq!(r.stale_pixels, stale.len() as u64);
    let sum: u64 = r.regions.iter().map(|g| g.pixels).sum();
    assert_eq!(sum, r.stale_pixels);
    for &(x, y) in stale.iter() {
        let (x, y) = (x as i32, y as i32);
        assert!(
            r.regions.iter().any(|g| g.x <= x && x < g.x + g.w && g.y <= y && y < g.y + g.h),
            "stale pixel ({x}, {y}) lies in no region"
        );
    }
}
