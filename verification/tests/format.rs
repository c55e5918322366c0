use rclean::format::{
    display_path, human_duration, human_rate, human_size, relative_display, strip_verbatim, Span,
};
use rclean::path::{Component, Part, Platform, Prefix, TreePath, Volume};

fn name(text: &str) -> Part {
    Part::name(text.as_bytes().to_vec())
}

fn unix(names: &[&str]) -> TreePath {
    let mut parts = vec![Part::root(Platform::Unix)];
    for text in names {
        parts.push(name(text));
    }
    TreePath { parts }
}

fn volume(prefix: &str) -> Volume {
    if let Some(share) = prefix.strip_prefix(r"\\?\UNC\") {
        let (server, name) = share.split_once('\\').unwrap();
        Volume::VerbatimShare(server.as_bytes().to_vec(), name.as_bytes().to_vec())
    } else if let Some(drive) = prefix.strip_prefix(r"\\?\") {
        Volume::VerbatimDrive(drive.as_bytes()[0])
    } else {
        Volume::Drive(prefix.as_bytes()[0])
    }
}

fn windows(prefix: &str, names: &[&str]) -> TreePath {
    let mut parts = vec![Part::plain(Component::Prefix(Prefix {
        shown: prefix.as_bytes().to_vec(),
        volume: volume(prefix),
    }))];
    if !names.is_empty() {
        parts.push(Part::root(Platform::Windows));
    }
    for text in names {
        parts.push(name(text));
    }
    TreePath { parts }
}

fn float_size(bytes: u64) -> String {
    let units = ["B", "KiB", "MiB", "GiB", "TiB"];
    let mut value = bytes as f64;
    let mut unit = 0;
    while value >= 1024.0 && unit < units.len() - 1 {
        value /= 1024.0;
        unit += 1;
    }
    if unit == 0 {
        format!("{value:.0} {}", units[unit])
    } else {
        format!("{value:.1} {}", units[unit])
    }
}

fn float_duration(secs: u64, nanos: u32) -> String {
    let duration = std::time::Duration::new(secs, nanos);
    if duration.as_secs() >= 60 {
        format!("{:.1}m", duration.as_secs_f64() / 60.0)
    } else if duration.as_secs() >= 1 {
        format!("{:.2}s", duration.as_secs_f64())
    } else {
        format!("{}ms", duration.as_millis())
    }
}

fn next_random(state: &mut u64) -> u64 {
    *state ^= *state << 13;
    *state ^= *state >> 7;
    *state ^= *state << 17;
    *state
}

#[test]
fn sizes_scale_to_binary_units() {
    assert_eq!(human_size(0), "0 B");
    assert_eq!(human_size(512), "512 B");
    assert_eq!(human_size(1024), "1.0 KiB");
    assert_eq!(human_size(1024 * 1024 * 1024), "1.0 GiB");
}

#[test]
fn sizes_round_as_floating_point_does() {
    assert_eq!(human_size(1023), "1023 B");
    assert_eq!(human_size(1280), "1.2 KiB");
    assert_eq!(human_size(1792), "1.8 KiB");
    assert_eq!(human_size(u64::MAX), "16777216.0 TiB");
    let mut state = 0x9e37_79b9_7f4a_7c15;
    for round in 0..4000 {
        let bytes = next_random(&mut state) >> (round % 64);
        assert_eq!(human_size(bytes), float_size(bytes), "{bytes}");
    }
    for exponent in 0..64u32 {
        for offset in [-2i64, -1, 0, 1, 2] {
            let bytes = (1u64 << exponent).wrapping_add(offset as u64);
            assert_eq!(human_size(bytes), float_size(bytes), "{bytes}");
        }
    }
    for quarter in 0..400u64 {
        let bytes = (1u64 << 53) + quarter * (1 << 38) + quarter;
        assert_eq!(human_size(bytes), float_size(bytes), "{bytes}");
    }
}

#[test]
fn durations_pick_a_unit() {
    assert_eq!(human_duration(Span::new(0, 999_999_999)), "999ms");
    assert_eq!(human_duration(Span::new(0, 0)), "0ms");
    assert_eq!(human_duration(Span::new(2, 0)), "2.00s");
    assert_eq!(human_duration(Span::new(59, 995_000_000)), float_duration(59, 995_000_000));
    assert_eq!(human_duration(Span::new(90, 0)), "1.5m");
}

#[test]
fn durations_round_as_floating_point_does() {
    for hundredth in 0..6000u64 {
        let nanos = (hundredth % 100) as u32 * 10_000_000 + 5_000_000;
        let secs = 1 + hundredth / 100;
        assert_eq!(
            human_duration(Span::new(secs, nanos)),
            float_duration(secs, nanos),
            "{secs} {nanos}"
        );
    }
    for half in 0..3000u64 {
        let secs = 63 + 6 * half;
        for nanos in [0, 1, 999_999_999] {
            assert_eq!(
                human_duration(Span::new(secs, nanos)),
                float_duration(secs, nanos),
                "{secs} {nanos}"
            );
        }
    }
    let mut state = 0x2545_f491_4f6c_dd1d;
    for round in 0..6000 {
        let secs = next_random(&mut state) >> (round % 64);
        let nanos = (next_random(&mut state) % 1_000_000_000) as u32;
        assert_eq!(
            human_duration(Span::new(secs, nanos)),
            float_duration(secs, nanos),
            "{secs} {nanos}"
        );
    }
    assert_eq!(
        human_duration(Span::new(u64::MAX, 999_999_999)),
        float_duration(u64::MAX, 999_999_999)
    );
}

#[test]
fn rates_are_sizes_per_second() {
    assert_eq!(human_rate(None), "—");
    assert_eq!(human_rate(Some(0)), "0 B/s");
    assert_eq!(human_rate(Some(2048)), "2.0 KiB/s");
}

#[test]
fn verbatim_prefix_is_stripped_for_display() {
    assert_eq!(
        display_path(&windows(r"\\?\C:", &["dev", "x"]), Platform::Windows),
        r"C:\dev\x"
    );
    assert_eq!(
        display_path(&windows(r"\\?\UNC\srv\share", &[]), Platform::Windows),
        r"\\srv\share"
    );
    assert_eq!(
        display_path(&windows("C:", &["dev", "x"]), Platform::Windows),
        r"C:\dev\x"
    );
    assert_eq!(strip_verbatim(r"\\?\C:\dev\x"), r"C:\dev\x");
    assert_eq!(strip_verbatim(r"\\?\UNC\srv\share"), r"\\srv\share");
    assert_eq!(strip_verbatim(r"C:\dev\x"), r"C:\dev\x");
}

#[test]
fn unix_paths_are_shown_as_they_are() {
    assert_eq!(display_path(&unix(&["a", "b"]), Platform::Unix), "/a/b");
    assert_eq!(display_path(&unix(&[]), Platform::Unix), "/");
    let odd = TreePath {
        parts: vec![Part::plain(Component::Current), Part::plain(Component::Parent), Part::name(vec![0x66, 0xff])],
    };
    assert_eq!(display_path(&odd, Platform::Unix), "./../f\u{fffd}");
}

#[test]
fn paths_below_the_root_are_shown_without_it() {
    let root = unix(&["dev"]);
    assert_eq!(relative_display(&unix(&["dev", "a", "b"]), &root, Platform::Unix), "a/b");
    assert_eq!(relative_display(&root, &root, Platform::Unix), "/dev");
    assert_eq!(relative_display(&unix(&["device"]), &root, Platform::Unix), "/device");
}

#[test]
fn drives_are_shown_as_they_are_written() {
    let low = windows("c:", &["dev", "x"]);
    assert_eq!(display_path(&low, Platform::Windows), r"c:\dev\x");
    assert_eq!(
        relative_display(&low, &windows("C:", &["dev"]), Platform::Windows),
        "x"
    );
    assert_eq!(
        relative_display(&low, &windows("C:", &["dev", "x"]), Platform::Windows),
        r"c:\dev\x"
    );
    assert_eq!(
        relative_display(&low, &windows("D:", &["dev"]), Platform::Windows),
        r"c:\dev\x"
    );
}

#[test]
fn halves_of_pairs_are_shown_as_one_character() {
    let half = |low: u8| vec![b'a', 0xed, low, 0x80, b'b'];
    let show = |name: Vec<u8>, platform: Platform| {
        let path = TreePath {
            parts: vec![Part::name(name)],
        };
        display_path(&path, platform)
    };
    for low in 0xa0..=0xbf {
        assert_eq!(show(half(low), Platform::Windows), "a\u{fffd}b");
        assert_eq!(show(half(low), Platform::Unix), "a\u{fffd}\u{fffd}\u{fffd}b");
    }
    assert_eq!(show(half(0x9f), Platform::Windows), "a\u{d7c0}b");
    assert_eq!(
        show(vec![0xed, 0xa0, 0x80, 0xed, 0xbf, 0xbf], Platform::Windows),
        "\u{fffd}\u{fffd}"
    );
    assert_eq!(show(vec![0xed, 0xa0], Platform::Windows), "\u{fffd}\u{fffd}");
    assert_eq!(
        show("\u{1f980}é".as_bytes().to_vec(), Platform::Windows),
        "\u{1f980}é"
    );
}
