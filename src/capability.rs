use crate::frame::VulkanVideoCodec;
use crate::text::{chars_of, same_chars};
use vstd::prelude::*;

verus! {

/// The video extensions one device offers.
#[derive(Debug, Clone, Copy, PartialEq, Eq, Structural)]
pub struct DeviceVideoExtensions {
    pub video_queue: bool,
    pub video_decode_queue: bool,
    pub decode_h264: bool,
    pub decode_h265: bool,
}

/// Whether one of `names` is `ext`.
pub open spec fn lists(names: Seq<String>, ext: Seq<char>) -> bool {
    exists|i: int| 0 <= i < names.len() && #[trigger] names[i]@ == ext
}

fn has_extension(names: &Vec<String>, ext: &str) -> (r: bool)
    ensures
        r == lists(names@, ext@),
{
    let want = chars_of(ext);
    let mut i: usize = 0;
    while i < names.len()
        invariant
            want@ == ext@,
            i <= names@.len(),
            forall|j: int| 0 <= j < i ==> names@[j]@ != ext@,
        decreases names@.len() - i,
    {
        let name = chars_of(names[i].as_str());
        if same_chars(&name, &want) {
            return true;
        }
        i = i + 1;
    }
    false
}

/// Reads a device's extension names.
pub fn video_extensions(names: &Vec<String>) -> (r: DeviceVideoExtensions)
    ensures
        r.video_queue == lists(names@, "VK_KHR_video_queue"@),
        r.video_decode_queue == lists(names@, "VK_KHR_video_decode_queue"@),
        r.decode_h264 == lists(names@, "VK_KHR_video_decode_h264"@),
        r.decode_h265 == lists(names@, "VK_KHR_video_decode_h265"@),
{
    DeviceVideoExtensions {
        video_queue: has_extension(names, "VK_KHR_video_queue"),
        video_decode_queue: has_extension(names, "VK_KHR_video_decode_queue"),
        decode_h264: has_extension(names, "VK_KHR_video_decode_h264"),
        decode_h265: has_extension(names, "VK_KHR_video_decode_h265"),
    }
}

/// A device that can run a hardware decode session.
pub open spec fn can_decode(d: DeviceVideoExtensions) -> bool {
    d.video_queue && d.video_decode_queue && (d.decode_h264 || d.decode_h265)
}

/// Whether some device can decode video in hardware.
pub fn is_vulkan_video_available(devices: &Vec<DeviceVideoExtensions>) -> (r: bool)
    ensures
        r == exists|i: int| 0 <= i < devices@.len() && can_decode(#[trigger] devices@[i]),
{
    let mut i: usize = 0;
    while i < devices.len()
        invariant
            i <= devices@.len(),
            forall|j: int| 0 <= j < i ==> !can_decode(#[trigger] devices@[j]),
        decreases devices@.len() - i,
    {
        let d = devices[i];
        if d.video_queue && d.video_decode_queue && (d.decode_h264 || d.decode_h265) {
            return true;
        }
        i = i + 1;
    }
    false
}

/// Codecs the first `n` devices decode, each once, in the order met (H.264
/// before H.265 on one device).
pub open spec fn codecs_upto(devices: Seq<DeviceVideoExtensions>, n: int) -> Seq<VulkanVideoCodec>
    decreases n,
{
    if n <= 0 {
        Seq::empty()
    } else {
        let c = codecs_upto(devices, n - 1);
        let d = devices[n - 1];
        let c1 = if d.decode_h264 && !c.contains(VulkanVideoCodec::H264) {
            c.push(VulkanVideoCodec::H264)
        } else {
            c
        };
        if d.decode_h265 && !c1.contains(VulkanVideoCodec::H265) {
            c1.push(VulkanVideoCodec::H265)
        } else {
            c1
        }
    }
}

fn contains_codec(list: &Vec<VulkanVideoCodec>, c: VulkanVideoCodec) -> (r: bool)
    ensures
        r == list@.contains(c),
{
    let mut i: usize = 0;
    while i < list.len()
        invariant
            i <= list@.len(),
            forall|j: int| 0 <= j < i ==> list@[j] != c,
        decreases list@.len() - i,
    {
        if list[i] == c {
            return true;
        }
        i = i + 1;
    }
    false
}

/// The codecs the hardware decodes; none when no device can decode.
pub fn get_supported_vulkan_codecs(devices: &Vec<DeviceVideoExtensions>) -> (r: Vec<
    VulkanVideoCodec,
>)
    ensures
        (exists|i: int| 0 <= i < devices@.len() && can_decode(#[trigger] devices@[i])) ==> r@
            == codecs_upto(devices@, devices@.len() as int),
        !(exists|i: int| 0 <= i < devices@.len() && can_decode(#[trigger] devices@[i])) ==> r@.len()
            == 0,
{
    let mut codecs: Vec<VulkanVideoCodec> = Vec::new();
    if !is_vulkan_video_available(devices) {
        return codecs;
    }
    let mut i: usize = 0;
    while i < devices.len()
        invariant
            i <= devices@.len(),
            codecs@ == codecs_upto(devices@, i as int),
        decreases devices@.len() - i,
    {
        let d = devices[i];
        if d.decode_h264 && !contains_codec(&codecs, VulkanVideoCodec::H264) {
            codecs.push(VulkanVideoCodec::H264);
        }
        if d.decode_h265 && !contains_codec(&codecs, VulkanVideoCodec::H265) {
            codecs.push(VulkanVideoCodec::H265);
        }
        i = i + 1;
    }
    codecs
}

} // verus!
