use crate::dpb::MAX_DPB_SLOTS;
use vstd::prelude::*;

verus! {

/// DRM fourcc of 8-bit 4:2:0 semi-planar frames.
pub const DRM_FORMAT_NV12: u32 = 0x3231564E;

/// DRM fourcc of 10-bit 4:2:0 semi-planar frames.
pub const DRM_FORMAT_P010: u32 = 0x30313050;

/// Pixel layout of a decoded surface.
#[derive(Debug, Clone, Copy, PartialEq, Eq, Structural)]
pub enum VASurfaceFormat {
    /// 8-bit 4:2:0.
    NV12,
    /// 10-bit 4:2:0 (HDR).
    P010,
    Unknown,
}

/// Offset and pitch of one plane of a multi-planar surface.
#[derive(Debug, Clone, Copy, PartialEq, Eq, Structural)]
pub struct PlaneInfo {
    pub offset: u32,
    pub pitch: u32,
}

/// Luma and interleaved chroma planes copied out of a surface, rows packed.
#[derive(Debug, Clone)]
pub struct LockedPlanes {
    pub y_plane: Vec<u8>,
    pub uv_plane: Vec<u8>,
    pub y_stride: u32,
    pub uv_stride: u32,
    pub width: u32,
    pub height: u32,
}

/// Video codecs a hardware decode session can be created for.
#[derive(Debug, Clone, Copy, PartialEq, Eq, Structural)]
pub enum VulkanVideoCodec {
    H264,
    H265,
    AV1,
}

/// Parameters of a hardware decode session.
#[derive(Debug, Clone, Copy, PartialEq, Eq, Structural)]
pub struct VulkanVideoConfig {
    pub codec: VulkanVideoCodec,
    pub width: u32,
    pub height: u32,
    pub is_10bit: bool,
    /// Decode surfaces: reference slots plus the picture being decoded.
    pub num_decode_surfaces: u32,
}

impl Default for VulkanVideoConfig {
    fn default() -> (r: Self)
        ensures
            r.codec == VulkanVideoCodec::H264,
            r.width == 1920,
            r.height == 1080,
            !r.is_10bit,
            r.num_decode_surfaces == MAX_DPB_SLOTS,
    {
        VulkanVideoConfig {
            codec: VulkanVideoCodec::H264,
            width: 1920,
            height: 1080,
            is_10bit: false,
            num_decode_surfaces: 17,
        }
    }
}

/// Counters a decode session reports.
#[derive(Debug, Clone, Copy, PartialEq, Eq, Structural)]
pub struct DecoderStats {
    pub frames_decoded: u64,
    pub dpb_size: u32,
    pub supports_dmabuf: bool,
}

/// The DRM fourcc a surface format is exported under; `None` for an unknown
/// format.
pub fn drm_format_of(format: VASurfaceFormat) -> (r: Option<u32>)
    ensures
        format == VASurfaceFormat::NV12 ==> r == Some(DRM_FORMAT_NV12),
        format == VASurfaceFormat::P010 ==> r == Some(DRM_FORMAT_P010),
        format == VASurfaceFormat::Unknown ==> r is None,
{
    match format {
        VASurfaceFormat::NV12 => Some(DRM_FORMAT_NV12),
        VASurfaceFormat::P010 => Some(DRM_FORMAT_P010),
        VASurfaceFormat::Unknown => None,
    }
}

/// Byte sizes of the luma plane and of the interleaved chroma plane (half the
/// rows) of a `width` by `height` frame with `bytes_per_sample` bytes a sample.
pub fn plane_sizes(width: u32, height: u32, bytes_per_sample: u32) -> (r: (u64, u64))
    requires
        1 <= bytes_per_sample <= 2,
        width * height * bytes_per_sample <= u64::MAX,
    ensures
        r.0 == width * height * bytes_per_sample,
        r.1 == width * (height / 2) * bytes_per_sample,
{
    let w = width as u64;
    let h = height as u64;
    let h2 = (height / 2) as u64;
    let b = bytes_per_sample as u64;
    proof {
        assert(w * h <= 0xffff_ffff * 0xffff_ffff) by (nonlinear_arith)
            requires
                w <= 0xffff_ffff,
                h <= 0xffff_ffff,
        ;
        assert(w * h2 <= w * h) by (nonlinear_arith)
            requires
                h2 <= h,
        ;
    }
    let y = w * h;
    let uv = w * h2;
    proof {
        assert(uv * b <= y * b) by (nonlinear_arith)
            requires
                uv <= y,
        ;
    }
    (y * b, uv * b)
}

/// `len` rounded up to a multiple of `alignment`.
pub open spec fn padded_len(len: int, alignment: int) -> int {
    ((len + alignment - 1) / alignment) * alignment
}

/// Bytes of the bitstream upload for an access unit of `len` bytes: `len`
/// rounded up to the hardware's size alignment (padded, never cut). `None`
/// when that exceeds the buffer's `capacity`: the frame is skipped.
pub fn upload_size(len: usize, alignment: usize, capacity: usize) -> (r: Option<usize>)
    requires
        alignment >= 1,
    ensures
        r is None <==> padded_len(len as int, alignment as int) > capacity,
        r matches Some(n) ==> {
            &&& n == padded_len(len as int, alignment as int)
            &&& n >= len
            &&& n % alignment == 0
            &&& n - len < alignment
        },
{
    let q = len / alignment;
    let rem = len % alignment;
    proof {
        if rem != 0 {
            assert(alignment >= 2);
            assert(q <= len / 2) by {
                vstd::arithmetic::div_mod::lemma_div_is_ordered_by_denominator(len as int, 2, alignment as int);
            }
        }
    }
    let blocks = if rem == 0 {
        q
    } else {
        q + 1
    };
    let ghost a = alignment as int;
    let ghost l = len as int;
    let ghost c = capacity as int;
    let ghost bl = blocks as int;
    proof {
        vstd::arithmetic::div_mod::lemma_fundamental_div_mod(l, a);
        vstd::arithmetic::div_mod::lemma_mod_bound(l, a);
        vstd::arithmetic::div_mod::lemma_fundamental_div_mod(c, a);
        vstd::arithmetic::div_mod::lemma_mod_bound(c, a);
        if l % a == 0 {
            assert((l + a - 1) / a == l / a) by {
                assert(l + a - 1 == a * (l / a) + (a - 1)) by (nonlinear_arith)
                    requires
                        l == (l / a) * a + l % a,
                        l % a == 0,
                ;
                vstd::arithmetic::div_mod::lemma_div_multiples_vanish_fancy(l / a, a - 1, a);
            }
        } else {
            assert((l + a - 1) / a == l / a + 1) by {
                assert(l + a - 1 == a * (l / a + 1) + (l % a - 1)) by (nonlinear_arith)
                    requires
                        l == (l / a) * a + l % a,
                ;
                vstd::arithmetic::div_mod::lemma_div_multiples_vanish_fancy(l / a + 1, l % a - 1, a);
            }
        }
        assert(bl == (l + a - 1) / a);
    }
    if blocks > capacity / alignment {
        proof {
            assert(bl * a > c) by (nonlinear_arith)
                requires
                    bl >= c / a + 1,
                    c == (c / a) * a + c % a,
                    c % a < a,
                    a >= 1,
            ;
        }
        return None;
    }
    proof {
        assert(bl * a <= c) by (nonlinear_arith)
            requires
                bl <= c / a,
                c == (c / a) * a + c % a,
                c % a >= 0,
                a >= 1,
        ;
        assert(bl * a >= l && bl * a - l < a) by (nonlinear_arith)
            requires
                l == (l / a) * a + l % a,
                0 <= l % a < a,
                l % a == 0 ==> bl == l / a,
                l % a != 0 ==> bl == l / a + 1,
        ;
        vstd::arithmetic::div_mod::lemma_mod_multiples_basic(bl, a);
    }
    Some(blocks * alignment)
}

/// `rows` rows of `width` bytes, the first at `offset` and each `stride`
/// after the previous, from a mapped surface buffer.
pub open spec fn strided_rows(src: Seq<u8>, offset: int, stride: int, width: int, rows: int) -> Seq<
    u8,
>
    decreases rows,
{
    if rows <= 0 {
        Seq::empty()
    } else {
        let r = rows - 1;
        strided_rows(src, offset, stride, width, r) + src.subrange(
            offset + r * stride,
            offset + r * stride + width,
        )
    }
}

/// Copies a plane out of a mapped surface buffer, dropping the row padding;
/// `None` when a row would reach past the buffer.
pub fn pack_plane(src: &[u8], offset: usize, stride: usize, width: usize, rows: usize) -> (r:
    Option<Vec<u8>>)
    ensures
        (rows == 0 || offset + (rows - 1) * stride + width <= src@.len()) <==> r is Some,
        r matches Some(v) ==> v@ == strided_rows(
            src@,
            offset as int,
            stride as int,
            width as int,
            rows as int,
        ),
{
    let n = src.len();
    if rows > 0 {
        let span = match (rows - 1).checked_mul(stride) {
            Some(x) => x,
            None => {
                proof {
                    assert(offset + (rows - 1) * stride + width > n);
                }
                return None;
            },
        };
        let start_last = match offset.checked_add(span) {
            Some(x) => x,
            None => {
                return None;
            },
        };
        let end_last = match start_last.checked_add(width) {
            Some(x) => x,
            None => {
                return None;
            },
        };
        if end_last > src.len() {
            return None;
        }
    }
    let mut out: Vec<u8> = Vec::new();
    let mut row: usize = 0;
    while row < rows
        invariant
            n == src@.len(),
            row <= rows,
            rows > 0 ==> offset + (rows - 1) * stride + width <= src@.len(),
            out@ == strided_rows(src@, offset as int, stride as int, width as int, row as int),
        decreases rows - row,
    {
        proof {
            assert(row * stride <= (rows - 1) * stride) by (nonlinear_arith)
                requires
                    row <= rows - 1,
            ;
            assert(offset + row * stride + width <= n);
        }
        let start = offset + row * stride;
        let ghost before = out@;
        let mut i: usize = 0;
        while i < width
            invariant
                n == src@.len(),
                i <= width,
                start + width <= src@.len(),
                out@ == before + src@.subrange(start as int, start + i),
            decreases width - i,
        {
            out.push(src[start + i]);
            i = i + 1;
            proof {
                assert(out@ =~= before + src@.subrange(start as int, start + i));
            }
        }
        row = row + 1;
    }
    Some(out)
}

} // verus!
