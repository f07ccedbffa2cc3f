use avion_messager::sprite::{render_icon, render_rig_shapes, tow_line_rects, Bitmap, C_DARK};

fn px(b: &Bitmap, x: usize, y: usize) -> (u8, u8, u8, u8) {
    let i = (y * b.w + x) * 4;
    (b.px[i], b.px[i + 1], b.px[i + 2], b.px[i + 3])
}

#[test]
fn icone_32x32_non_vide() {
    let icon = render_icon();
    assert_eq!((icon.w, icon.h), (32, 32));
    assert!(icon.px.chunks_exact(4).any(|p| p[3] > 0));
}

#[test]
fn rig_shapes_banner_red_and_background_transparent() {
    let b = render_rig_shapes();
    assert_eq!((b.w, b.h), (900, 200));
    assert_eq!(b.px.len(), 900 * 200 * 4);
    assert_eq!(px(&b, 100, 100), (0x3b, 0x3b, 0xe2, 0xff));
    assert_eq!(px(&b, 10, 10).3, 0);
    assert_eq!(px(&b, 100, 74), (0xa9, 0xa9, 0xf7, 0xff));
    assert_eq!(px(&b, 852, 100), (0x47, 0x3f, 0x3b, 0xff));
    assert_eq!(px(&b, 845, 100), (0x3f, 0xcf, 0xff, 0xff));
}

#[test]
fn rig_shapes_premultiplied() {
    let b = render_rig_shapes();
    for p in b.px.chunks_exact(4) {
        assert!(p[0] <= p[3] && p[1] <= p[3] && p[2] <= p[3]);
    }
    let icon = render_icon();
    for p in icon.px.chunks_exact(4) {
        assert!(p[0] <= p[3] && p[1] <= p[3] && p[2] <= p[3]);
    }
}

#[test]
fn tow_line_dashes() {
    let r = tow_line_rects();
    assert_eq!(r.len(), 14);
    assert_eq!(r[0], (560, 94, 3, 5, C_DARK));
    assert_eq!(r[13], (690, 91, 3, 5, C_DARK));
}

#[test]
fn fill_rect_is_clipped() {
    let mut b = Bitmap::new(4, 3);
    b.fill_rect(-2, 1, 4, 10, 0x112233);
    assert_eq!(px(&b, 0, 1), (0x33, 0x22, 0x11, 0xff));
    assert_eq!(px(&b, 1, 2), (0x33, 0x22, 0x11, 0xff));
    assert_eq!(px(&b, 2, 1), (0, 0, 0, 0));
    assert_eq!(px(&b, 0, 0), (0, 0, 0, 0));
}

#[test]
fn icon_plane_nose_pixel() {
    let icon = render_icon();
    // nose rect (832, 92, 12, 20) -> (26, 12, 2, 4); hub (840, 94, 10, 10) -> (28, 12, 2, 2)
    assert_eq!(px(&icon, 26, 13), (0x36, 0x2f, 0x2b, 0xff));
    assert_eq!(px(&icon, 28, 12), (0x3f, 0xcf, 0xff, 0xff));
}
