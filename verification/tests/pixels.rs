use omoya::geom::Rect;
use omoya::pixels::{dmabuf_accepts, DmabufRefusal, MODIFIER_LINEAR};
use omoya::pixels::{
    addressable, copy_damage, copy_normalising, copy_region, flush_full, normalise_opaque, shm_extent, PixelError,
    PixelFormat, FOURCC_ARGB8888, FOURCC_XRGB8888,
};

#[test]
fn the_fused_copy_matches_copy_then_normalise() {
    let cases: Vec<Vec<u8>> = vec![
        vec![1, 2, 3, 0xff, 4, 5, 6, 0xff],
        vec![1, 2, 3, 0x00, 4, 5, 6, 0x00],
        vec![1, 2, 3, 0xff, 4, 5, 6, 0x7f],
        vec![9, 8, 7, 0x01],
        vec![],
    ];
    for fourcc in [PixelFormat::Argb8888, PixelFormat::Xrgb8888] {
        for src in &cases {
            let mut want = src.clone();
            let want_opaque = normalise_opaque(&mut want, fourcc);
            let mut got = vec![0u8; src.len()];
            let got_opaque = copy_normalising(&mut got, src, fourcc);
            assert_eq!(got, want, "{fourcc:?}: fused bytes differ from copy-then-normalise for {src:?}");
            assert_eq!(got_opaque, want_opaque, "{fourcc:?}: fused opacity differs for {src:?}");
        }
    }
}

#[test]
fn the_fused_copy_does_not_read_the_destination() {
    let src = vec![10, 20, 30, 0x80];
    for fourcc in [PixelFormat::Argb8888, PixelFormat::Xrgb8888] {
        let mut from_dirty = vec![0xaa, 0xbb, 0xcc, 0xdd];
        let mut from_zero = vec![0u8; 4];
        let a = copy_normalising(&mut from_dirty, &src, fourcc);
        let b = copy_normalising(&mut from_zero, &src, fourcc);
        assert_eq!(from_dirty, from_zero, "{fourcc:?}: the prior contents of dst changed the result");
        assert_eq!(a, b);
    }
}

#[test]
fn xrgb_alpha_is_forced_and_argb_alpha_is_preserved() {
    let src = vec![1, 2, 3, 0x40];
    let mut x = vec![0u8; 4];
    assert!(copy_normalising(&mut x, &src, PixelFormat::Xrgb8888));
    assert_eq!(x[3], 0xff, "Xrgb must impose opacity");
    let mut a = vec![0u8; 4];
    assert!(!copy_normalising(&mut a, &src, PixelFormat::Argb8888));
    assert_eq!(a[3], 0x40, "Argb must preserve the client's alpha");
}

#[test]
fn only_the_two_reachable_formats_are_advertised() {
    assert_eq!(addressable(FOURCC_ARGB8888), Some(PixelFormat::Argb8888));
    assert_eq!(addressable(FOURCC_XRGB8888), Some(PixelFormat::Xrgb8888));
    assert_eq!(addressable(0x3231_5258), None);
}

#[test]
fn a_trailing_partial_pixel_is_copied_verbatim() {
    let src = vec![1, 2, 3, 4, 5, 6];
    let mut dst = vec![0u8; 6];
    assert!(copy_normalising(&mut dst, &src, PixelFormat::Xrgb8888));
    assert_eq!(dst, vec![1, 2, 3, 0xff, 5, 6]);
}

#[test]
fn the_geometry_a_client_claims_is_checked() {
    assert_eq!(shm_extent(8, 16, 4, 100), Ok(72));
    assert_eq!(shm_extent(8, 16, 4, 71), Err(PixelError::PoolTooShort));
    assert_eq!(shm_extent(0, usize::MAX, 2, 10), Err(PixelError::SizeOverflows));
    assert_eq!(shm_extent(usize::MAX, 1, 1, 10), Err(PixelError::OffsetOverflows));
    assert_eq!(PixelError::PoolTooShort.message(), "shm buffer shorter than its geometry");
}

#[test]
fn only_the_damaged_rows_are_copied() {
    let (w, h) = (4usize, 4usize);
    let stride = w * 4;
    let src: Vec<u8> = (0..stride * h).map(|i| (i % 251) as u8).collect();
    let mut buf = vec![0u8; stride * h];
    let damage = [Rect { x: 1, y: 1, w: 2, h: 2 }];
    let (opaque, copied) = copy_damage(&mut buf, &src, &damage, h, stride, PixelFormat::Argb8888);
    assert_eq!(copied, 2 * 2 * 4, "two rows of two pixels");
    assert!(!opaque, "the source's alpha is not all 0xff");
    for y in 0..h {
        for x in 0..stride {
            let inside = (1..3).contains(&y) && (4..12).contains(&x);
            let want = if inside { src[y * stride + x] } else { 0 };
            assert_eq!(buf[y * stride + x], want, "byte ({x},{y})");
        }
    }
}

#[test]
fn damage_past_the_buffer_is_clipped_not_a_panic() {
    let stride = 8;
    let src = vec![7u8; stride * 2];
    let mut buf = vec![0u8; stride * 2];
    let damage = [Rect { x: -5, y: -5, w: 100, h: 100 }, Rect { x: 10, y: 0, w: 1, h: 1 }];
    let (opaque, copied) = copy_damage(&mut buf, &src, &damage, 2, stride, PixelFormat::Xrgb8888);
    assert!(opaque);
    assert_eq!(copied, 16);
    assert_eq!(buf, vec![7, 7, 7, 0xff, 7, 7, 7, 0xff, 7, 7, 7, 0xff, 7, 7, 7, 0xff]);
}

#[test]
fn a_region_is_copied_row_by_row() {
    let stride = 12;
    let src: Vec<u8> = (0..36).collect();
    let out = copy_region(&src, stride, Some(Rect { x: 1, y: 1, w: 2, h: 2 })).unwrap();
    assert_eq!(out, vec![16, 17, 18, 19, 20, 21, 22, 23, 28, 29, 30, 31, 32, 33, 34, 35]);
    assert_eq!(copy_region(&src, stride, None), Err(PixelError::RegionOutside));
    assert_eq!(copy_region(&src, stride, Some(Rect { x: 0, y: 2, w: 3, h: 2 })), Err(PixelError::RegionOverruns));
}

#[test]
fn a_flush_copies_the_whole_frame_both_buffers_hold() {
    let shadow = vec![5u8; 12];
    let mut data = vec![0u8; 16];
    assert_eq!(flush_full(&mut data, &shadow, 4, 2), 8);
    assert_eq!(data, vec![5, 5, 5, 5, 5, 5, 5, 5, 0, 0, 0, 0, 0, 0, 0, 0]);
}

#[test]
fn dmabuf_formats_are_linear_only() {
    assert_eq!(dmabuf_accepts(1, MODIFIER_LINEAR, FOURCC_ARGB8888), Ok(()));
    assert_eq!(dmabuf_accepts(1, MODIFIER_LINEAR, FOURCC_XRGB8888), Ok(()));
    assert_eq!(dmabuf_accepts(1, 0x00ff_ffff_ffff_ffff, FOURCC_ARGB8888), Err(DmabufRefusal::NonLinear));
    assert_eq!(dmabuf_accepts(2, MODIFIER_LINEAR, FOURCC_ARGB8888), Err(DmabufRefusal::MultiPlane));
    assert_eq!(dmabuf_accepts(1, MODIFIER_LINEAR, 0x3231_5258), Err(DmabufRefusal::Format));
    assert_eq!(DmabufRefusal::NonLinear.message(), "non-linear modifier");
}
