use ffmpeg_gif_maker::{
    decode_time, duration_from_ffmpeg_time_string, extract_duration, extract_frame_time,
    parse_digits, progress_from_durations, try_extract_duration, try_extract_frame_time, Duration,
    Progress,
};

#[test]
fn test_try_extract_duration() {
    let s = r#"""
Input #0, mov,mp4,m4a,3gp,3g2,mj2, from 'assets/flower.mp4':
  Metadata:
    major_brand     : mp42
    minor_version   : 0
    compatible_brands: mp42mp41isomavc1
    creation_time   : 2018-03-07T15:21:21.000000Z
  Duration: 00:00:05.06, start: 0.000000, bitrate: 1785 kb/s
  Stream #0:0[0x1](und): Video: h264 (High) (avc1 / 0x31637661), yuv420p(tv, smpte170m, progressive), 960x540 [SAR 1:1 DAR 16:9], 1538 kb/s, 29.97 fps, 29.97 tbr, 30k tbn (default)
    Metadata:
        """#;

    println!("{:?}", try_extract_duration(s));
    assert_eq!(try_extract_duration(s), Some(Duration::from_millis(5 * 1000 + 6)));
}

#[test]
fn test_try_extract_frame_time() {
    const FRAME_LINE: &'static str = r#"""
frame=   50 fps=3.9 q=-0.0 Lsize=   23430kB time=00:00:04.91 bitrate=39091.3kbits/s speed=0.379x    
  frame=   50 fps=3.9 q=-0.0 Lsize=   23430kB time=00:00:014.91 bitrate=39091.3kbits/s speed=0.379x    
        """#;
    println!("{:?}", try_extract_frame_time(FRAME_LINE));
    assert_eq!(try_extract_frame_time(FRAME_LINE), Some(Duration::from_millis(4 * 1000 + 91)));
}

#[test]
fn test_duration_from_ffmpeg_time_string() {
    let expected = Duration::from_millis(4 * 1000 + 91);
    let calulcated = duration_from_ffmpeg_time_string("00:00:04.91").unwrap();
    assert_eq!(expected, calulcated);
}

#[test]
fn parse_digits_reads_runs_of_digits() {
    assert_eq!(parse_digits(b"0"), Some(0));
    assert_eq!(parse_digits(b"042"), Some(42));
    assert_eq!(parse_digits(b"18446744073709551615"), Some(u64::MAX));
}

#[test]
fn parse_digits_rejects_signs_spaces_and_overflow() {
    assert_eq!(parse_digits(b""), None);
    assert_eq!(parse_digits(b"+"), None);
    assert_eq!(parse_digits(b"+7"), None);
    assert_eq!(parse_digits(b"-1"), None);
    assert_eq!(parse_digits(b" 1"), None);
    assert_eq!(parse_digits(b"1a"), None);
    assert_eq!(parse_digits(b"18446744073709551616"), None);
}

#[test]
fn decode_time_sums_all_fields() {
    assert_eq!(decode_time(b"1:2:3.04"), Some(Duration::from_millis(3_723_004)));
    assert_eq!(decode_time(b"00:00:00.00"), Some(Duration::from_millis(0)));
    assert_eq!(decode_time(b"00:59:59.999"), Some(Duration::from_millis(3_599_999)));
    assert_eq!(decode_time(b"123:00:00.00"), Some(Duration::from_millis(442_800_000)));
}

#[test]
fn decode_time_rejects_out_of_range_fields() {
    assert_eq!(decode_time(b"00:60:00.00"), None);
    assert_eq!(decode_time(b"00:00:60.00"), None);
    assert_eq!(decode_time(b"00:00:00.1000"), None);
    assert_eq!(decode_time(b"5124095576030432:00:00.00"), None);
}

#[test]
fn decode_time_rejects_wrong_arity_and_non_numbers() {
    assert_eq!(decode_time(b"00:04.91"), None);
    assert_eq!(decode_time(b"00:00:00:04.91"), None);
    assert_eq!(decode_time(b"00:00:04"), None);
    assert_eq!(decode_time(b"00:00:04.91.5"), None);
    assert_eq!(decode_time(b"aa:00:04.91"), None);
    assert_eq!(decode_time(b"00:00:04."), None);
    assert_eq!(decode_time(b"-577014:32:22.77"), None);
    assert_eq!(decode_time(b""), None);
    assert_eq!(decode_time(b"00:00:+4.91"), None);
    assert_eq!(decode_time(b"00:+0:04.91"), None);
    assert_eq!(decode_time(b"+0:00:04.91"), None);
    assert_eq!(decode_time(b"00:00:04.+91"), None);
    assert_eq!(decode_time(b"00:00: 4.91"), None);
    assert_eq!(decode_time(b"00::04.91"), None);
}

#[test]
fn decode_time_needs_a_fraction_of_two_or_three_digits() {
    assert_eq!(decode_time(b"00:00:04.9"), None);
    assert_eq!(decode_time(b"00:00:00.0005"), None);
    assert_eq!(decode_time(b"00:00:04.91"), Some(Duration::from_millis(4091)));
    assert_eq!(decode_time(b"00:00:04.910"), Some(Duration::from_millis(4910)));
    assert_eq!(decode_time(b"00:00:04.005"), Some(Duration::from_millis(4005)));
}

#[test]
fn round_trip_of_written_time_stamps() {
    for (h, m, s, c) in [(0u64, 0u64, 0u64, 0u64), (1, 59, 59, 998), (12, 3, 4, 56), (100, 0, 7, 5)] {
        let text = format!("{:02}:{:02}:{:02}.{:02}", h, m, s, c);
        let millis = h * 3_600_000 + m * 60_000 + s * 1_000 + c;
        assert_eq!(duration_from_ffmpeg_time_string(&text), Some(Duration::from_millis(millis)));
    }
}

#[test]
fn duration_line_at_the_start_of_the_text() {
    let d = try_extract_duration("  Duration: 00:00:05.06, start: 0.000000,");
    assert_eq!(d, Some(Duration::from_millis(5006)));
    let t = try_extract_frame_time(
        "frame=   50 fps=3.9 q=-0.0 Lsize=   23430kB time=00:00:04.91 bitrate=39091.3kbits/s",
    )
    .unwrap();
    let p = progress_from_durations(d.unwrap(), t);
    assert_eq!(p, Progress { done: 4091, total: 5006 });
    let ratio = p.done as f64 / p.total as f64;
    assert!(ratio > 0.817 && ratio < 0.818);
}

#[test]
fn duration_needs_its_own_line_and_a_start() {
    assert_eq!(try_extract_duration("x  Duration: 00:00:05.06, start: 0.0"), None);
    assert_eq!(try_extract_duration("\n  Duration: 00:00:05.06 bitrate: 1"), None);
    assert_eq!(try_extract_duration("no duration here"), None);
    assert_eq!(try_extract_duration("\n  Duration: N/A, start: 0.0"), None);
    assert_eq!(
        extract_duration(b"a\n  Duration: 01:00:00.50, start: 0.0\n  Duration: 00:00:01.00, start: 0"),
        Some(Duration::from_millis(3_600_050))
    );
}

#[test]
fn frame_time_comes_from_the_last_record() {
    let text = b"frame=  1 time=00:00:01.00 x\nframe=  2 time=00:00:02.00 y";
    assert_eq!(extract_frame_time(text), Some(Duration::from_millis(2000)));
    assert_eq!(extract_frame_time(b"frame=  1 fps=1"), None);
    assert_eq!(extract_frame_time(b"frame=  1 xtime=00:00:01.00"), None);
    assert_eq!(extract_frame_time(b"frame=  1\ttime=00:00:03.25\r"), Some(Duration::from_millis(3025)));
}

#[test]
fn frame_time_needs_a_frame_record() {
    assert_eq!(try_extract_frame_time("time=00:00:01.00"), None);
    assert_eq!(try_extract_frame_time("size=1kB time=00:00:01.00"), None);
    assert_eq!(try_extract_frame_time("xframe= 1 time=00:00:01.00"), None);
    assert_eq!(try_extract_frame_time("\nframe= 1 bitrate=N/A"), None);
    assert_eq!(try_extract_frame_time("frame= 1 time=00:00:01.00"), Some(Duration::from_millis(1000)));
}

#[test]
fn frame_record_is_read_the_same_wherever_it_stands() {
    assert_eq!(try_extract_frame_time("frame=time=00:00:01.00"), Some(Duration::from_millis(1000)));
    assert_eq!(try_extract_frame_time("x\nframe=time=00:00:01.00"), Some(Duration::from_millis(1000)));
}

#[test]
fn progress_of_a_zero_length_input_does_not_panic() {
    let p = progress_from_durations(Duration::from_millis(0), Duration::from_millis(40));
    assert_eq!(p, Progress { done: 0, total: 0 });
}

#[test]
fn progress_is_capped_and_monotone() {
    let total = Duration::from_millis(5006);
    let a = progress_from_durations(total, Duration::from_millis(1000));
    let b = progress_from_durations(total, Duration::from_millis(4091));
    let c = progress_from_durations(total, Duration::from_millis(5006));
    let d = progress_from_durations(total, Duration::from_millis(9000));
    assert_eq!(a, Progress { done: 1000, total: 5006 });
    assert!(a.done <= b.done && b.done <= c.done && c.done <= d.done);
    assert_eq!(c, Progress { done: 5006, total: 5006 });
    assert_eq!(d, Progress { done: 5006, total: 5006 });
}

#[test]
fn duration_millis_accessors() {
    assert_eq!(Duration::from_millis(42).as_millis(), 42);
}
