use downmanager::downloader::{
    accepts_byte_ranges, check_range_answer, connection_count, get_filename, numbered_file_name,
    url_file_name, DEFAULT_CONNECTIONS,
    parse_content_range, split_connections, ByteRange, Connection, ConnectionWriter,
    DownloadProgress, DownloadStatus, BATCH_SIZE,
};
use downmanager::error::Error;
use std::time::{Duration, Instant};

fn h(bytes: &[u8]) -> Option<&[u8]> {
    Some(bytes)
}

#[test]
fn split_into_four_equal_ranges() {
    let c = split_connections(100, 4);
    assert_eq!(c.len(), 4);
    let ranges: Vec<(u64, u64)> = c.iter().map(|c| (c.range.start, c.range.end)).collect();
    assert_eq!(ranges, vec![(0, 24), (25, 49), (50, 74), (75, 99)]);
    for (i, conn) in c.iter().enumerate() {
        assert_eq!(conn.id, i);
        assert_eq!(conn.downloaded, 0);
    }
}

#[test]
fn split_gives_remainder_to_last_range() {
    let c = split_connections(10, 4);
    let ranges: Vec<(u64, u64)> = c.iter().map(|c| (c.range.start, c.range.end)).collect();
    assert_eq!(ranges, vec![(0, 1), (2, 3), (4, 5), (6, 9)]);
    let c = split_connections(4, 4);
    let sizes: Vec<u64> = c.iter().map(|c| c.range.size()).collect();
    assert_eq!(sizes, vec![1, 1, 1, 1]);
    let c = split_connections(7, 1);
    assert_eq!((c[0].range.start, c[0].range.end), (0, 6));
}

#[test]
fn split_ranges_tile_the_file() {
    for (total, n) in [(1000u64, 4usize), (1001, 4), (17, 5), (u64::MAX, 3), (123456789, 7)] {
        let c = split_connections(total, n);
        assert_eq!(c[0].range.start, 0);
        assert_eq!(c[n - 1].range.end, total - 1);
        for i in 0..n - 1 {
            assert_eq!(c[i + 1].range.start, c[i].range.end + 1);
        }
        let sum: u128 = c.iter().map(|c| c.range.size() as u128).sum();
        assert_eq!(sum, total as u128);
    }
}

#[test]
fn byte_range_size() {
    assert_eq!(ByteRange { start: 0, end: 0 }.size(), 1);
    assert_eq!(ByteRange { start: 10, end: 19 }.size(), 10);
}

#[test]
fn content_range_parses() {
    assert_eq!(parse_content_range("bytes 0-499/1234").unwrap(), (0, 499, 1234));
    assert_eq!(parse_content_range("bytes +7-+8/+9").unwrap(), (7, 8, 9));
    assert_eq!(
        parse_content_range("bytes 18446744073709551615-0/1").unwrap(),
        (u64::MAX, 0, 1)
    );
}

#[test]
fn content_range_round_trip() {
    for (s, e, t) in [(0u64, 0u64, 1u64), (25, 49, 100), (u64::MAX, u64::MAX, u64::MAX)] {
        let text = format!("bytes {}-{}/{}", s, e, t);
        assert_eq!(parse_content_range(&text).unwrap(), (s, e, t));
    }
}

#[test]
fn content_range_refusals() {
    for bad in [
        "",
        "bytes",
        "Bytes 0-1/2",
        "bytes=0-1/2",
        "bytes 0-1",
        "bytes 01/2",
        "bytes 0-1/*",
        "bytes -1/2",
        "bytes 0-/2",
        "bytes 0-1/",
        "bytes 0-1/2/3",
        "bytes 0--1/2",
        "bytes 18446744073709551616-1/2",
        "bytes  0-1/2",
        "bytes 0-1/2 ",
    ] {
        assert!(
            matches!(parse_content_range(bad), Err(Error::InvalidArguments)),
            "{:?}",
            bad
        );
    }
}

#[test]
fn range_answer_check() {
    let range = ByteRange { start: 25, end: 49 };
    assert!(check_range_answer(h(b"bytes 25-49/100"), &range, 100).is_ok());
    assert!(matches!(check_range_answer(None, &range, 100), Err(Error::InvalidArguments)));
    assert!(matches!(
        check_range_answer(h(b"bytes 25-49/101"), &range, 100),
        Err(Error::InvalidArguments)
    ));
    assert!(matches!(
        check_range_answer(h(b"bytes 24-49/100"), &range, 100),
        Err(Error::InvalidArguments)
    ));
    assert!(matches!(
        check_range_answer(h(b"bytes 25-49/100\x7f"), &range, 100),
        Err(Error::InvalidArguments)
    ));
}

#[test]
fn accept_ranges_header() {
    assert!(accepts_byte_ranges(h(b"bytes")));
    assert!(accepts_byte_ranges(h(b"BYTES")));
    assert!(accepts_byte_ranges(h(b"ByTeS")));
    assert!(!accepts_byte_ranges(h(b"none")));
    assert!(!accepts_byte_ranges(h(b"bytes ")));
    assert!(!accepts_byte_ranges(h(b"byte\xc3")));
    assert!(!accepts_byte_ranges(None));
}

#[test]
fn file_name_from_disposition() {
    let n = get_filename(h(b"attachment; filename=\"report.pdf\""), "http://h/x").unwrap();
    assert_eq!(n, "report.pdf");
    let n = get_filename(h(b"attachment; filename=plain.txt"), "http://h/x").unwrap();
    assert_eq!(n, "plain.txt");
    let n = get_filename(h(b"filename=a.txt; filename=b.txt"), "http://h/x").unwrap();
    assert_eq!(n, "a.txt; ");
    let n = get_filename(h(b"attachment; filename=\"\"\"q\"\""), "http://h/x").unwrap();
    assert_eq!(n, "q");
}

#[test]
fn file_name_from_url() {
    let n = get_filename(None, "https://example.com/dir/file.zip").unwrap();
    assert_eq!(n, "file.zip");
    let n = get_filename(h(b"inline"), "https://example.com/dir/file.zip?x=1").unwrap();
    assert_eq!(n, "file.zip");
    let n = get_filename(None, "https://example.com/dir/").unwrap();
    assert_eq!(n, "Untitled");
    let n = get_filename(None, "https://example.com").unwrap();
    assert_eq!(n, "Untitled");
    let n = get_filename(None, "data:text/plain,hello").unwrap();
    assert_eq!(n, "Untitled");
    let n = get_filename(h(b"attachment; filename=\xff.txt"), "https://e.org/a/b.bin").unwrap();
    assert_eq!(n, "b.bin");
    assert!(matches!(get_filename(None, "not a url"), Err(Error::InvalidArguments)));
}

#[test]
fn file_names_stay_in_working_directory() {
    let url = "http://h/x";
    assert_eq!(get_filename(h(b"attachment; filename=../x"), url).unwrap(), "x");
    assert_eq!(get_filename(h(b"attachment; filename=\"/etc/passwd\""), url).unwrap(), "passwd");
    assert_eq!(get_filename(h(b"attachment; filename=a/b/"), url).unwrap(), "Untitled");
    assert_eq!(get_filename(h(b"attachment; filename=.."), url).unwrap(), "Untitled");
    assert_eq!(get_filename(h(b"attachment; filename=x/."), url).unwrap(), "Untitled");
    assert_eq!(get_filename(h(b"attachment; filename=\"\""), url).unwrap(), "Untitled");
    assert_eq!(get_filename(h(b"attachment; filename=.hidden"), url).unwrap(), ".hidden");
    assert_eq!(get_filename(None, "https://example.com/a/..").unwrap(), "Untitled");
    for (header, url) in [
        (h(b"filename=../../x/y/.."), "http://h/"),
        (None, "http://h/%2e%2e"),
        (h(b"filename=///"), "http://h/z"),
    ] {
        let n = get_filename(header, url).unwrap();
        assert!(!n.is_empty() && !n.contains('/') && n != "." && n != "..");
    }
}

#[test]
fn url_file_names() {
    assert_eq!(url_file_name("/dir/file.zip"), "file.zip");
    assert_eq!(url_file_name("/dir/"), "");
    assert_eq!(url_file_name("/"), "");
    assert_eq!(url_file_name("text/plain,hi"), "Untitled");
}

#[test]
fn numbered_names() {
    assert_eq!(numbered_file_name("movie", Some("mkv"), 1), "movie (1).mkv");
    assert_eq!(numbered_file_name("notes", None, 12), "notes (12)");
    let names: Vec<String> = (0..200).map(|c| numbered_file_name("f", Some("x"), c)).collect();
    for i in 0..names.len() {
        for j in 0..i {
            assert_ne!(names[i], names[j]);
        }
    }
}

#[test]
fn progress_first_bytes_start_download() {
    let mut p = DownloadProgress::new();
    assert_eq!(p.status, DownloadStatus::Connecting);
    assert_eq!(p.downloaded_size, 0);
    assert!(p.record_response(200, Some(1000)).is_ok());
    assert_eq!(p.http_status, Some(200));
    assert_eq!(p.total_size, Some(1000));
    let t0 = Instant::now();
    let t1 = t0 + Duration::from_secs(1);
    p.add_bytes(10, t0);
    assert_eq!(p.status, DownloadStatus::Downloading);
    assert_eq!(p.started_at, Some(t0));
    p.add_bytes(20, t1);
    assert_eq!(p.started_at, Some(t0));
    assert_eq!(p.last_bytestream, Some(t1));
    assert_eq!(p.downloaded_size, 30);
    p.complete_stream();
    assert_eq!(p.status, DownloadStatus::Completed);
    assert_eq!(p.connections, 0);
    assert_eq!(p.downloaded_size, 30);
}

#[test]
fn progress_refuses_error_status() {
    let mut p = DownloadProgress::new();
    assert!(matches!(p.record_response(404, None), Err(Error::NetworkStatus(404))));
    assert_eq!(p.http_status, Some(404));
    assert!(matches!(p.record_response(199, None), Err(Error::NetworkStatus(199))));
    assert!(p.record_response(299, None).is_ok());
    assert!(matches!(p.record_response(300, None), Err(Error::NetworkStatus(300))));
}

#[test]
fn plan_uses_ranges_only_when_all_agree() {
    let mut p = DownloadProgress::new();
    p.record_response(200, Some(100)).unwrap();
    let c = p.plan_connections(true, 206, 4).unwrap();
    assert_eq!(c.len(), 4);
    assert_eq!(p.connections, 4);
    p.complete_ranges(100);
    assert_eq!(p.downloaded_size, 100);
    assert_eq!(p.status, DownloadStatus::Completed);
    assert_eq!(p.connections, 0);

    for (len, accepts, probe) in [(Some(100), false, 206), (Some(100), true, 200), (None, true, 206)] {
        let mut p = DownloadProgress::new();
        p.record_response(200, len).unwrap();
        assert!(p.plan_connections(accepts, probe, 4).is_none());
        assert_eq!(p.connections, 1);
    }
    let mut p = DownloadProgress::new();
    p.record_response(200, Some(1000)).unwrap();
    assert_eq!(p.plan_connections(true, 206, 300).unwrap().len(), 300);
    assert_eq!(p.connections, 44);
}

#[test]
fn plan_small_files() {
    for total in 1u64..=3 {
        let mut p = DownloadProgress::new();
        p.record_response(200, Some(total)).unwrap();
        let c = p.plan_connections(true, 206, 4).unwrap();
        assert_eq!(c.len() as u64, total);
        assert_eq!(p.connections as u64, total);
        for (i, conn) in c.iter().enumerate() {
            assert_eq!((conn.range.start, conn.range.end), (i as u64, i as u64));
        }
    }
    let mut p = DownloadProgress::new();
    p.record_response(200, Some(0)).unwrap();
    assert!(p.plan_connections(true, 206, 4).is_none());
    assert_eq!(p.connections, 1);
    let mut p = DownloadProgress::new();
    p.record_response(200, Some(100)).unwrap();
    assert!(p.plan_connections(true, 206, 0).is_none());
    assert_eq!(p.connections, 1);
}

#[test]
fn connection_counts() {
    assert_eq!(connection_count(false, None), DEFAULT_CONNECTIONS);
    assert_eq!(connection_count(false, Some(9)), 4);
    assert_eq!(connection_count(true, Some(9)), 9);
    assert_eq!(connection_count(true, None), 4);
}

#[test]
fn progress_values_never_go_back() {
    let t0 = Instant::now();
    let mut p = DownloadProgress::new();
    let mut seen = vec![p];
    p.record_response(200, Some(10)).unwrap();
    seen.push(p);
    let conns = p.plan_connections(true, 206, 2).unwrap();
    seen.push(p);
    for (i, n) in [3u64, 2, 5].iter().enumerate() {
        p.add_bytes(*n, t0 + Duration::from_millis(i as u64));
        seen.push(p);
    }
    let total: u64 = conns.iter().map(|c| c.range.size()).sum();
    p.complete_ranges(total);
    seen.push(p);
    for w in seen.windows(2) {
        assert!(w[0].downloaded_size <= w[1].downloaded_size);
        if w[0].started_at.is_some() {
            assert_eq!(w[0].started_at, w[1].started_at);
        }
        if w[0].status != DownloadStatus::Connecting {
            assert_ne!(w[1].status, DownloadStatus::Connecting);
        }
    }
    assert_eq!(seen.iter().filter(|p| p.status == DownloadStatus::Completed).count(), 1);
    assert_eq!(p.downloaded_size, 10);
}

fn writer(start: u64, end: u64) -> ConnectionWriter {
    ConnectionWriter::new(Connection { id: 0, range: ByteRange { start, end }, downloaded: 0 })
}

#[test]
fn writer_batches_at_consecutive_offsets() {
    let mut w = writer(1000, 1000 + 2 * BATCH_SIZE as u64 + 9);
    assert!(w.push_chunk(&[1u8; 10]).is_none());
    let (batch, at) = w.push_chunk(&vec![2u8; BATCH_SIZE]).unwrap();
    assert_eq!(at, 1000);
    assert_eq!(batch.len(), BATCH_SIZE + 10);
    assert_eq!(&batch[..10], &[1u8; 10]);
    let (batch2, at2) = w.push_chunk(&vec![3u8; BATCH_SIZE]).unwrap();
    assert_eq!(at2, 1000 + BATCH_SIZE as u64 + 10);
    assert_eq!(batch2.len(), BATCH_SIZE);
    assert!(w.finish().is_none());
    assert!(w.check_complete().is_ok());
}

#[test]
fn writer_final_flush_and_incomplete_range() {
    let mut w = writer(0, 99);
    assert!(w.push_chunk(b"hello").is_none());
    assert!(w.push_chunk(b" world").is_none());
    let (rest, at) = w.finish().unwrap();
    assert_eq!(rest, b"hello world");
    assert_eq!(at, 0);
    assert_eq!(w.connection.downloaded, 11);
    assert!(matches!(w.check_complete(), Err(Error::InvalidArguments)));
    let mut w = writer(5, 15);
    w.push_chunk(b"0123456789a");
    w.finish();
    assert!(w.check_complete().is_ok());
}
