use downmanager::cli::{
    byte_unit, calctimeleft, is_finished, parse_args, status_line, ProgressBar, SpeedWindow, BAR_WIDTH,
};
use downmanager::downloader::DownloadStatus;
use downmanager::error::Error;

fn args(list: &[&str]) -> Vec<String> {
    list.iter().map(|s| s.to_string()).collect()
}

#[test]
fn parse_args_help_version_recover() {
    for flag in ["--help", "-h"] {
        let a = parse_args(&args(&["downmanager", flag])).unwrap();
        assert!(a.help && !a.version && !a.recover && !a.force_connection);
        assert_eq!(a.url, "");
        assert!(a.dest_path.is_none() && a.force_connections_no.is_none());
    }
    for flag in ["--version", "-v"] {
        let a = parse_args(&args(&["downmanager", flag])).unwrap();
        assert!(!a.help && a.version && !a.recover);
        assert_eq!(a.url, "");
    }
    for flag in ["--recover", "-r"] {
        let a = parse_args(&args(&["downmanager", flag])).unwrap();
        assert!(!a.help && !a.version && a.recover);
        assert_eq!(a.url, "");
    }
}

#[test]
fn parse_args_url_only() {
    let a = parse_args(&args(&["downmanager", "https://example.com/f.iso"])).unwrap();
    assert_eq!(a.url, "https://example.com/f.iso");
    assert!(!a.help && !a.version && !a.recover && !a.force_connection);
    assert!(a.dest_path.is_none());
    assert!(a.force_connections_no.is_none());
    // A flag spelled differently is taken as a URL.
    let a = parse_args(&args(&["downmanager", "--HELP"])).unwrap();
    assert_eq!(a.url, "--HELP");
    assert!(!a.help);
}

#[test]
fn parse_args_destination() {
    let a = parse_args(&args(&["downmanager", "http://h/x", "out.bin"])).unwrap();
    assert_eq!(a.url, "http://h/x");
    assert_eq!(a.dest_path.as_deref(), Some("out.bin"));
    assert!(!a.force_connection);
}

#[test]
fn parse_args_forced_connections() {
    let a = parse_args(&args(&["downmanager", "http://h/x", "--force", "8"])).unwrap();
    assert_eq!(a.url, "http://h/x");
    assert!(a.force_connection);
    assert_eq!(a.force_connections_no, Some(8));
    assert!(a.dest_path.is_none());
    let a = parse_args(&args(&["downmanager", "http://h/x", "--force", "eight"])).unwrap();
    assert_eq!(a.force_connections_no, Some(1));
    let a = parse_args(&args(&["downmanager", "http://h/x", "--force", "+12"])).unwrap();
    assert_eq!(a.force_connections_no, Some(12));
    let a = parse_args(&args(&["downmanager", "http://h/x", "--force", "-1"])).unwrap();
    assert_eq!(a.force_connections_no, Some(u32::MAX));
    let a = parse_args(&args(&["downmanager", "http://h/x", "--force", "2147483648"])).unwrap();
    assert_eq!(a.force_connections_no, Some(1));
    let a = parse_args(&args(&["downmanager", "http://h/x", "--force", "-2147483648"])).unwrap();
    assert_eq!(a.force_connections_no, Some(2147483648));
    let a = parse_args(&args(&["downmanager", "http://h/x", "--force", ""])).unwrap();
    assert_eq!(a.force_connections_no, Some(1));
}

#[test]
fn parse_args_wrong_count() {
    assert!(matches!(parse_args(&args(&["downmanager"])), Err(Error::InvalidArguments)));
    assert!(matches!(parse_args(&args(&[])), Err(Error::InvalidArguments)));
    assert!(matches!(
        parse_args(&args(&["downmanager", "a", "b", "c", "d"])),
        Err(Error::InvalidArguments)
    ));
}

#[test]
fn time_left_formats() {
    assert_eq!(calctimeleft(0, 100, 0), "Unknown");
    assert_eq!(calctimeleft(0, 100, 10), "10s");
    assert_eq!(calctimeleft(50, 100, 100), "0s");
    assert_eq!(calctimeleft(0, 125, 1), "2m:5s");
    assert_eq!(calctimeleft(0, 3600, 1), "1h:0m:0s");
    assert_eq!(calctimeleft(1000, 1000 + 2 * 7384, 2), "2h:3m:4s");
}

#[test]
fn time_left_parts_add_up() {
    for t in [0u64, 59, 60, 3599, 3600, 86399, 123456] {
        let text = calctimeleft(0, t, 1);
        let (h, m, s) = (t / 3600, (t % 3600) / 60, t % 60);
        assert_eq!(h * 3600 + m * 60 + s, t);
        assert!(text.ends_with(&format!("{}s", s)));
    }
}

#[test]
fn progress_bar_fills_and_never_empties() {
    let mut bar = ProgressBar::new();
    assert_eq!(bar.text(), "-".repeat(BAR_WIDTH));
    bar.advance(3);
    assert_eq!(bar.text(), format!("###{}", "-".repeat(47)));
    bar.advance(1);
    assert_eq!(bar.filled, 3);
    assert_eq!(bar.text().chars().count(), BAR_WIDTH);
    bar.advance(50);
    assert_eq!(bar.text(), "#".repeat(50));
}

#[test]
fn byte_units() {
    assert_eq!(byte_unit(999), (1, "B"));
    assert_eq!(byte_unit(1000), (1000, "KB"));
    assert_eq!(byte_unit(999_999), (1000, "KB"));
    assert_eq!(byte_unit(1_000_000), (1_000_000, "MB"));
    assert_eq!(byte_unit(1_000_000_000), (1_000_000_000, "GB"));
    assert_eq!(byte_unit(5_000_000_000_000), (1_000_000_000_000, "TB"));
}

#[test]
fn status_lines() {
    assert_eq!(
        status_line(DownloadStatus::Connecting, 0, None),
        "DOWNLOAD STATUS: \x1b[33mCONNECTING\x1b[0m\tCONNECTIONS: 0\tHTTP STATUS: None\n"
    );
    assert_eq!(
        status_line(DownloadStatus::Downloading, 4, Some(200)),
        "DOWNLOAD STATUS: \x1b[32mDOWNLOADING\x1b[0m\tCONNECTIONS: 4\tHTTP STATUS: Some(200)\n"
    );
    assert_eq!(
        status_line(DownloadStatus::Failed, 1, Some(404)),
        "DOWNLOAD STATUS: \x1b[31mFAILED\x1b[0m\tCONNECTIONS: 1\tHTTP STATUS: Some(404)\n"
    );
    assert!(status_line(DownloadStatus::ConnectingNewConnection, 2, None)
        .contains("\x1b[33mADDING NEW CONNECTION\x1b[0m"));
    assert!(status_line(DownloadStatus::Stalled, 2, None).contains("\x1b[31mSTALLED"));
    assert!(status_line(DownloadStatus::Completed, 0, Some(206)).contains("\x1b[32mCOMPLETED"));
}

#[test]
fn speed_window_drops_old_samples() {
    let second = 1_000_000_000u64;
    let mut w = SpeedWindow::new();
    assert_eq!(w.record(0, 0), (0, 0));
    assert_eq!(w.record(5 * second, 500), (0, 0));
    // Ten and a half seconds is not more than ten whole seconds.
    assert_eq!(w.record(10 * second + second / 2, 900), (0, 0));
    // Eleven seconds after the first sample, it is dropped.
    assert_eq!(w.record(11 * second, 1000), (5 * second, 500));
    assert_eq!(w.samples.len(), 3);
    assert_eq!(w.record(100 * second, 2000), (100 * second, 2000));
    assert_eq!(w.samples.len(), 1);
}

#[test]
fn display_stops_on_completed_or_failed() {
    assert!(is_finished(DownloadStatus::Completed));
    assert!(is_finished(DownloadStatus::Failed));
    assert!(!is_finished(DownloadStatus::Connecting));
    assert!(!is_finished(DownloadStatus::Downloading));
    assert!(!is_finished(DownloadStatus::ConnectingNewConnection));
    assert!(!is_finished(DownloadStatus::Stalled));
}
