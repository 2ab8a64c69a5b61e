use aevrix::hb_compositor::{readback_pitch, unpad_rows, CompositorError, GpuError, OffscreenTargetDesc};

#[test]
fn readback_rows_are_padded_to_the_copy_alignment() {
    assert_eq!(readback_pitch(1), (4, 256));
    assert_eq!(readback_pitch(64), (256, 256));
    assert_eq!(readback_pitch(65), (260, 512));
    assert_eq!(readback_pitch(0), (0, 0));
}

#[test]
fn unpadding_keeps_each_rows_pixels_in_order() {
    let data = [1u8, 2, 3, 4, 9, 9, 9, 9, 5, 6, 7, 8];
    assert_eq!(unpad_rows(&data, 1, 2, 8), vec![1, 2, 3, 4, 5, 6, 7, 8]);
    assert!(unpad_rows(&data, 1, 0, 8).is_empty());
    // A tight buffer comes back unchanged.
    assert_eq!(unpad_rows(&data, 3, 1, 12), data.to_vec());
}

#[test]
fn gpu_errors_describe_themselves() {
    assert_eq!(GpuError::Device("none".to_string()).message(), "adapter/device: none");
    assert_eq!(GpuError::Surface("lost".to_string()).message(), "surface: lost");
    assert_eq!(GpuError::Readback("map".to_string()).message(), "readback: map");
    assert_eq!(CompositorError::Pipeline("rect".to_string()).message(), "pipeline: rect");
    assert_eq!(CompositorError::Encode("pass".to_string()).message(), "encode: pass");
    let d = OffscreenTargetDesc { width: 640, height: 360 };
    assert_eq!((d.width, d.height), (640, 360));
}
