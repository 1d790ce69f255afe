use opennow_streamer::sdp::{
    extract_resolution, extract_video_codec, fix_dtls_setup_for_ice_lite, fix_server_ip,
    inject_provisional_ssrcs, is_ice_lite, prefer_codec, VideoCodec,
};

#[test]
fn test_fix_server_ip() {
    let sdp = "c=IN IP4 0.0.0.0\r\nm=video 9 UDP/TLS/RTP/SAVPF 96\r\n";
    let fixed = fix_server_ip(sdp, "192.168.1.1");
    assert!(fixed.contains("c=IN IP4 192.168.1.1"));
    assert!(!fixed.contains("a=candidate:"));
}

#[test]
fn test_inject_provisional_ssrcs_with_existing() {
    let sdp = "v=0\r\n\
        m=video 9 UDP/TLS/RTP/SAVPF 96\r\n\
        a=msid:stream1 video1\r\n\
        a=ssrc:1 msid:stream1 video1\r\n\
        a=ssrc:1 cname:test\r\n\
        m=audio 9 UDP/TLS/RTP/SAVPF 111\r\n";

    let result = inject_provisional_ssrcs(sdp);

    assert!(result.contains("a=ssrc:2 msid:stream1 video1"));
    assert!(result.contains("a=ssrc:3 msid:stream1 video1"));
    assert!(result.contains("a=ssrc:4 msid:stream1 video1"));
    assert!(result.contains("a=ssrc:2 cname:odrerir"));
    assert!(result.contains("a=ssrc:3 cname:odrerir"));
    assert!(result.contains("a=ssrc:4 cname:odrerir"));

    assert!(result.contains("a=ssrc:1 msid:stream1 video1"));
}

#[test]
fn test_inject_provisional_ssrcs_without_existing() {
    let sdp = "v=0\r\n\
        m=video 9 UDP/TLS/RTP/SAVPF 96\r\n\
        a=msid:stream1 video1\r\n\
        a=rtpmap:96 H264/90000\r\n\
        m=audio 9 UDP/TLS/RTP/SAVPF 111\r\n";

    let result = inject_provisional_ssrcs(sdp);

    assert!(result.contains("a=ssrc:2 msid:stream1 video1"));
    assert!(result.contains("a=ssrc:3 msid:stream1 video1"));
    assert!(result.contains("a=ssrc:4 msid:stream1 video1"));

    let video_pos = result.find("m=video").unwrap();
    let audio_pos = result.find("m=audio").unwrap();
    let ssrc2_pos = result.find("a=ssrc:2").unwrap();
    assert!(ssrc2_pos > video_pos && ssrc2_pos < audio_pos);
}

#[test]
fn test_inject_provisional_ssrcs_already_declared() {
    let sdp = "v=0\r\n\
        m=video 9 UDP/TLS/RTP/SAVPF 96\r\n\
        a=ssrc:1 cname:test\r\n\
        a=ssrc:2 cname:test\r\n\
        a=ssrc:3 cname:test\r\n\
        a=ssrc:4 cname:test\r\n\
        m=audio 9 UDP/TLS/RTP/SAVPF 111\r\n";

    let result = inject_provisional_ssrcs(sdp);

    let count = result.matches("a=ssrc:2").count();
    assert_eq!(count, 1, "Should not duplicate existing SSRC 2");
}

#[test]
fn injection_lands_after_the_last_ssrc_line_and_is_idempotent() {
    let sdp = "v=0\r\n\
        m=video 9 UDP/TLS/RTP/SAVPF 96\r\n\
        a=msid:s t\r\n\
        a=ssrc:1 msid:s t\r\n\
        a=ssrc:1 cname:x\r\n\
        a=rtpmap:96 H264/90000\r\n\
        m=audio 9 UDP/TLS/RTP/SAVPF 111\r\n";
    let once = inject_provisional_ssrcs(sdp);
    let expected = "v=0\r\n\
        m=video 9 UDP/TLS/RTP/SAVPF 96\r\n\
        a=msid:s t\r\n\
        a=ssrc:1 msid:s t\r\n\
        a=ssrc:1 cname:x\r\n\
        a=ssrc:2 msid:s t\r\n\
        a=ssrc:2 cname:odrerir\r\n\
        a=ssrc:3 msid:s t\r\n\
        a=ssrc:3 cname:odrerir\r\n\
        a=ssrc:4 msid:s t\r\n\
        a=ssrc:4 cname:odrerir\r\n\
        a=rtpmap:96 H264/90000\r\n\
        m=audio 9 UDP/TLS/RTP/SAVPF 111";
    assert_eq!(once, expected);
    assert_eq!(inject_provisional_ssrcs(&once), once);
}

#[test]
fn injection_defaults_and_partial_sets() {
    let sdp = "v=0\nm=video 9 RTP 96\na=ssrc:3 cname:x";
    let result = inject_provisional_ssrcs(sdp);
    assert_eq!(
        result,
        "v=0\nm=video 9 RTP 96\na=ssrc:3 cname:x\na=ssrc:2 msid:odrerir video\na=ssrc:2 cname:odrerir\na=ssrc:4 msid:odrerir video\na=ssrc:4 cname:odrerir"
    );
    let no_video = "v=0\r\nm=audio 9 RTP 111\r\n";
    assert_eq!(inject_provisional_ssrcs(no_video), no_video);
    let plus = "m=video 9 RTP 96\na=ssrc:+2 x\na=ssrc:03 x\na=ssrc:4 x\n";
    assert_eq!(inject_provisional_ssrcs(plus), plus);
}

#[test]
fn prefer_h264_drops_h265_lines() {
    let sdp = "v=0\r\n\
        m=video 9 UDP/TLS/RTP/SAVPF 96 98\r\n\
        a=rtpmap:96 H264/90000\r\n\
        a=fmtp:96 profile-level-id=42e01f\r\n\
        a=rtcp-fb:96 nack\r\n\
        a=rtpmap:98 H265/90000\r\n\
        a=fmtp:98 level-id=93\r\n\
        a=rtcp-fb:98 nack pli\r\n\
        m=audio 9 UDP/TLS/RTP/SAVPF 98\r\n\
        a=rtpmap:98 opus/48000\r\n";
    let result = prefer_codec(sdp, &VideoCodec::H264);
    let expected = "v=0\r\n\
        m=video 9 UDP/TLS/RTP/SAVPF 96\r\n\
        a=rtpmap:96 H264/90000\r\n\
        a=fmtp:96 profile-level-id=42e01f\r\n\
        a=rtcp-fb:96 nack\r\n\
        m=audio 9 UDP/TLS/RTP/SAVPF 98\r\n\
        a=rtpmap:98 opus/48000";
    assert_eq!(result, expected);
    assert!(!result.contains("H265"));
}

#[test]
fn prefer_codec_reads_hevc_as_h265() {
    let sdp = "m=video 9 RTP 96 100\na=rtpmap:96 H264/90000\na=rtpmap:100 hevc/90000\n";
    let result = prefer_codec(sdp, &VideoCodec::H265);
    assert_eq!(result, "m=video 9 RTP 100\na=rtpmap:100 hevc/90000");
}

#[test]
fn prefer_missing_codec_keeps_offer() {
    let sdp = "m=video 9 RTP 96\r\na=rtpmap:96 H264/90000\r\n";
    assert_eq!(prefer_codec(sdp, &VideoCodec::AV1), sdp);
}

#[test]
fn dtls_setup_becomes_active() {
    let answer = "v=0\r\na=setup:passive\r\nm=video 9 RTP 96\r\na=setup:passive\r\na=setup:actpass\r\n";
    let fixed = fix_dtls_setup_for_ice_lite(answer);
    assert_eq!(fixed.matches("passive").count(), 0);
    assert_eq!(fixed.matches("a=setup:active").count(), 2);
    assert_eq!(fixed, "v=0\r\na=setup:active\r\nm=video 9 RTP 96\r\na=setup:active\r\na=setup:actpass\r\n");
}

#[test]
fn server_ip_replaces_every_unset_address_only() {
    let sdp = "c=IN IP4 0.0.0.0\nm=audio 9 RTP 0\nc=IN IP4 0.0.0.0\nc=IN IP4 10.0.0.1\n";
    assert_eq!(
        fix_server_ip(sdp, "1.2.3.4"),
        "c=IN IP4 1.2.3.4\nm=audio 9 RTP 0\nc=IN IP4 1.2.3.4\nc=IN IP4 10.0.0.1\n"
    );
}

#[test]
fn codec_and_ice_lite_scans() {
    let sdp = "v=0\r\na=ice-lite \r\nm=audio 9 RTP 111\r\na=rtpmap:111 opus/48000\r\nm=video 9 RTP 96\r\na=rtpmap:96 H265/90000\r\n";
    assert_eq!(extract_video_codec(sdp), Some("H265".to_string()));
    assert!(is_ice_lite(sdp));
    assert!(!is_ice_lite("v=0\r\na=ice-lite-ish\r\n"));
    assert_eq!(extract_video_codec("m=audio 9 RTP 0\na=rtpmap:0 PCMU/8000\n"), None);
    assert_eq!(extract_resolution(sdp), None);
}

#[test]
fn dtls_fix_covers_every_setup_passive() {
    assert_eq!(fix_dtls_setup_for_ice_lite("setup:passive"), "setup:active");
    assert_eq!(
        fix_dtls_setup_for_ice_lite("a=setup:passive\r\nx setup:passive\r\n"),
        "a=setup:active\r\nx setup:active\r\n"
    );
}

#[test]
fn ice_lite_only_at_session_level() {
    assert!(!is_ice_lite("m=x\na=ice-lite"));
    assert!(is_ice_lite("v=0\na=ice-lite\nm=video 9 RTP 96\n"));
    assert!(!is_ice_lite("v=0\nm=video 9 RTP 96\na=ice-lite\n"));
}
