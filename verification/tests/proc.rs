use rclean::execute::{cargo_metadata, cargo_target_directory, metadata_arguments};
use rclean::format::Span;
use rclean::path::{Part, Platform, TreePath};
use rclean::proc::{
    command_diagnostic, must_kill, run_with_timeout, speak, ChildEnd, ProcessOutput,
};

// A child that hangs is waited for no longer than its time, killed, and its
// end becomes an error.
#[test]
fn timeout_kills_hung_child() {
    let started = std::time::Instant::now();
    let end = ChildEnd::TimedOut;
    assert!(must_kill(&end));
    let result = run_with_timeout(end, Span::new(2, 0), "sleep test", Vec::new(), Vec::new());
    let error = result.expect_err("hung child should time out");
    assert!(error.contains("timed out"), "unexpected error: {error}");
    assert_eq!(
        error,
        "sleep test timed out after 2.00s; killed. Last diagnostic: no diagnostic output"
    );
    assert!(started.elapsed() < std::time::Duration::from_secs(30));
}

#[test]
fn fast_child_returns_output() {
    let end = ChildEnd::Exited { success: true };
    assert!(!must_kill(&end));
    let output = run_with_timeout(
        end,
        Span::new(60, 0),
        "cargo --version",
        b"cargo 1.90.0".to_vec(),
        b"note".to_vec(),
    )
    .expect("cargo --version should run");
    assert!(output.success);
    assert!(String::from_utf8_lossy(&output.stdout).contains("cargo"));
    assert_eq!(output.stderr, b"note");
}

#[test]
fn a_child_that_fails_is_still_a_result() {
    let output = run_with_timeout(
        ChildEnd::Exited { success: false },
        Span::new(60, 0),
        "x",
        Vec::new(),
        Vec::new(),
    )
    .unwrap();
    assert!(!output.success);
}

#[test]
fn children_that_cannot_be_run_are_errors() {
    let end = ChildEnd::NotStarted("no such file".to_string());
    assert!(!must_kill(&end));
    let error =
        run_with_timeout(end, Span::new(60, 0), "cargo metadata", Vec::new(), Vec::new())
            .unwrap_err();
    assert_eq!(error, "could not run cargo metadata: no such file");

    let end = ChildEnd::WaitFailed("lost".to_string());
    assert!(must_kill(&end));
    let error =
        run_with_timeout(end, Span::new(60, 0), "cargo metadata", Vec::new(), Vec::new())
            .unwrap_err();
    assert_eq!(error, "could not wait for cargo metadata: lost");

    let error = run_with_timeout(
        ChildEnd::TimedOut,
        Span::new(60, 0),
        "cargo metadata",
        b"out".to_vec(),
        b"  blocking\n".to_vec(),
    )
    .unwrap_err();
    assert_eq!(
        error,
        "cargo metadata timed out after 1.0m; killed. Last diagnostic: blocking"
    );
}

#[test]
fn diagnostics_are_trimmed_and_never_empty() {
    assert_eq!(command_diagnostic(b""), "no diagnostic output");
    assert_eq!(command_diagnostic(b" \t\r\n "), "no diagnostic output");
    assert_eq!(command_diagnostic(b"\n error: x y \n\n"), "error: x y");
    assert_eq!(
        command_diagnostic(&[b'a', 0xff, b'b', b'\n']),
        "a\u{fffd}b"
    );
    assert_eq!(speak("\u{3000}\u{85}text\u{a0}"), "text");
    assert_eq!(speak("\u{200b}"), "\u{200b}");
    assert_eq!(speak("\u{2003}"), "no diagnostic output");
}

#[test]
fn white_space_is_what_it_is_everywhere() {
    for code in 0..0x11_0000u32 {
        if let Some(c) = char::from_u32(code) {
            let padded = format!("{c}x{c}");
            let expected = if c.is_whitespace() {
                "x".to_string()
            } else {
                padded.clone()
            };
            assert_eq!(speak(&padded), expected);
            let listed = matches!(
                code,
                0x9..=0xd
                    | 0x20
                    | 0x85
                    | 0xa0
                    | 0x1680
                    | 0x2000..=0x200a
                    | 0x2028
                    | 0x2029
                    | 0x202f
                    | 0x205f
                    | 0x3000
            );
            assert_eq!(c.is_whitespace(), listed, "{code:x}");
        }
    }
}

#[test]
fn cargo_is_asked_and_understood() {
    assert_eq!(
        metadata_arguments(),
        vec!["metadata", "--format-version", "1", "--no-deps"]
    );
    assert_eq!(
        cargo_metadata(Ok(ProcessOutput {
            success: true,
            stdout: b"{}".to_vec(),
            stderr: b"warning".to_vec()
        })),
        Ok(b"{}".to_vec())
    );
    assert_eq!(
        cargo_metadata(Ok(ProcessOutput {
            success: false,
            stdout: b"{}".to_vec(),
            stderr: b"no manifest\n".to_vec()
        })),
        Err("cargo metadata failed: no manifest".to_string())
    );
    assert_eq!(
        cargo_metadata(Err("could not run".to_string())),
        Err("could not run".to_string())
    );
    let target = TreePath {
        parts: vec![Part::root(Platform::Unix), Part::name(b"t".to_vec())],
    };
    assert_eq!(cargo_target_directory(Ok(target.copy())), Ok(target));
    assert_eq!(
        cargo_target_directory(Err("eof".to_string())),
        Err("could not parse cargo metadata: eof".to_string())
    );
}
