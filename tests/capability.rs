use opennow_streamer::capability::{
    get_supported_vulkan_codecs, is_vulkan_video_available, video_extensions, DeviceVideoExtensions,
};
use opennow_streamer::frame::VulkanVideoCodec;

fn names(list: &[&str]) -> Vec<String> {
    list.iter().map(|s| s.to_string()).collect()
}

#[test]
fn extensions_are_read_by_name() {
    let d = video_extensions(&names(&[
        "VK_KHR_swapchain",
        "VK_KHR_video_queue",
        "VK_KHR_video_decode_queue",
        "VK_KHR_video_decode_h265",
    ]));
    assert_eq!(
        d,
        DeviceVideoExtensions {
            video_queue: true,
            video_decode_queue: true,
            decode_h264: false,
            decode_h265: true,
        }
    );
    let none = video_extensions(&names(&["VK_KHR_video_queue_extra"]));
    assert!(!none.video_queue);
}

#[test]
fn availability_and_codecs_follow_the_devices() {
    let encode_only = DeviceVideoExtensions {
        video_queue: true,
        video_decode_queue: false,
        decode_h264: true,
        decode_h265: false,
    };
    assert!(!is_vulkan_video_available(&vec![encode_only]));
    assert!(get_supported_vulkan_codecs(&vec![encode_only]).is_empty());
    assert!(get_supported_vulkan_codecs(&vec![]).is_empty());
    let h265 = DeviceVideoExtensions {
        video_queue: true,
        video_decode_queue: true,
        decode_h264: false,
        decode_h265: true,
    };
    let both = DeviceVideoExtensions { decode_h264: true, ..h265 };
    let devices = vec![encode_only, h265, both];
    assert!(is_vulkan_video_available(&devices));
    assert_eq!(
        get_supported_vulkan_codecs(&devices),
        vec![VulkanVideoCodec::H264, VulkanVideoCodec::H265]
    );
    assert_eq!(get_supported_vulkan_codecs(&vec![h265, both]), vec![VulkanVideoCodec::H265, VulkanVideoCodec::H264]);
}
