use opennow_streamer::frame::{
    drm_format_of, pack_plane, plane_sizes, VASurfaceFormat, DRM_FORMAT_NV12, DRM_FORMAT_P010,
};

#[test]
fn test_locked_planes_layout() {
    let (y_size, uv_size) = plane_sizes(1920, 1080, 1);
    assert_eq!(y_size, 2073600);
    assert_eq!(uv_size, 1036800);
}

#[test]
fn test_drm_format_codes() {
    assert_eq!(DRM_FORMAT_NV12, 0x3231564E);
    assert_eq!(DRM_FORMAT_P010, 0x30313050);
}

#[test]
fn formats_map_to_fourcc() {
    assert_eq!(drm_format_of(VASurfaceFormat::NV12), Some(DRM_FORMAT_NV12));
    assert_eq!(drm_format_of(VASurfaceFormat::P010), Some(DRM_FORMAT_P010));
    assert_eq!(drm_format_of(VASurfaceFormat::Unknown), None);
    assert_eq!(plane_sizes(1920, 1080, 2), (4147200, 2073600));
}

#[test]
fn planes_are_packed_without_row_padding() {
    let src: Vec<u8> = (0..24).collect();
    assert_eq!(pack_plane(&src, 2, 8, 3, 3), Some(vec![2, 3, 4, 10, 11, 12, 18, 19, 20]));
    assert_eq!(pack_plane(&src, 0, 8, 8, 3), Some(src.clone()));
    assert_eq!(pack_plane(&src, 2, 8, 8, 3), None);
    assert_eq!(pack_plane(&src, 0, usize::MAX, 1, 3), None);
    assert_eq!(pack_plane(&src, 100, 8, 3, 0), Some(vec![]));
}
