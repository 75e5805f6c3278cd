use fsync::bus::{ChangeBus, ChangeEvent, ChangeKind};
use fsync::config::Config;
use fsync::frame::{parse_command, stream_end, Command, ProtocolError};
use fsync::path::{resolve, simplify_path, PathError, Probe, ServerRoot};
use fsync::payload::{PayloadScanner, Scan};
use fsync::request::{parse_request, Parse};
use fsync::response::{decimal_bytes, list_response, refusal_response, response, stat_response, Refusal, Status};
use fsync::session::{change_for, Effect, Session};

const END: &[u8] = b"\r\nDONE\r\n";
const START: &[u8] = b"\r\nFSYNC\r\n";

fn segs(parts: &[&str]) -> Vec<Vec<u8>> {
    parts.iter().map(|p| p.as_bytes().to_vec()).collect()
}

/// Feeds `stream` to a fresh scanner in chunks of the given sizes (the last size repeats),
/// returning the payload handed out and every byte after the end marker, read or not.
fn scan_in_chunks(stream: &[u8], sizes: &[usize]) -> Result<(Vec<u8>, Vec<u8>), ProtocolError> {
    let mut scanner = PayloadScanner::new();
    let mut out = Vec::new();
    let mut pos = 0;
    let mut k = 0;
    loop {
        let size = sizes[k.min(sizes.len() - 1)];
        k += 1;
        let end = (pos + size).min(stream.len());
        match scanner.feed(&stream[pos..end])? {
            Scan::More(bytes) => out.extend_from_slice(&bytes),
            Scan::Found { payload, mut rest } => {
                out.extend_from_slice(&payload);
                rest.extend_from_slice(&stream[end..]);
                return Ok((out, rest));
            }
        }
        pos = end;
    }
}

fn with_end(payload: &[u8]) -> Vec<u8> {
    let mut v = payload.to_vec();
    v.extend_from_slice(END);
    v
}

#[test]
fn stream_end_finds_first_marker() {
    assert_eq!(stream_end(b"abc\r\nDONE\r\nxyz"), Some(3));
    assert_eq!(stream_end(b"\r\nDONE\r\n"), Some(0));
    assert_eq!(stream_end(b"\r\nDONE\r"), None);
    assert_eq!(stream_end(b""), None);
    assert_eq!(stream_end(b"\r\nDONE\r\nDONE\r\n"), Some(0));
}

#[test]
fn marker_split_across_reads_is_found() {
    let stream = with_end(b"hello world");
    // the first five marker bytes end one read, the last three start the next
    let split = 11 + 5;
    let (payload, rest) = scan_in_chunks(&stream, &[split, 3]).unwrap();
    assert_eq!(payload, b"hello world");
    assert!(rest.is_empty());
}

#[test]
fn chunking_does_not_change_payload() {
    let mut stream = b"some \r\nDON payload \r\n with marker prefixes \r\nDONE".to_vec();
    stream.extend_from_slice(END);
    stream.extend_from_slice(b"next");
    let whole = scan_in_chunks(&stream, &[stream.len()]).unwrap();
    for size in 1..20 {
        assert_eq!(scan_in_chunks(&stream, &[size]).unwrap(), whole);
    }
    assert_eq!(scan_in_chunks(&stream, &[3, 1, 7, 2]).unwrap(), whole);
    // the payload ends at the first full marker, the one that its own tail begins
    assert_eq!(whole.1, b"DONE\r\nnext");
}

#[test]
fn marker_prefix_in_payload_is_kept() {
    let (payload, _) = scan_in_chunks(&with_end(b"a\r\nDONE b"), &[4]).unwrap();
    assert_eq!(payload, b"a\r\nDONE b");
}

#[test]
fn payload_round_trips_at_edge_lengths() {
    for len in [0usize, 1, 7, 8, 70_000] {
        let payload: Vec<u8> = (0..len).map(|i| (i % 251) as u8).collect();
        for size in [1usize, 5, 8, 4096, 65_536] {
            let (out, rest) = scan_in_chunks(&with_end(&payload), &[size]).unwrap();
            assert_eq!(out, payload, "length {len}, reads of {size}");
            assert!(rest.is_empty());
        }
    }
}

#[test]
fn source_ending_before_marker_is_truncated() {
    let mut scanner = PayloadScanner::new();
    assert!(matches!(scanner.feed(b"partial\r\nDO"), Ok(Scan::More(_))));
    assert_eq!(scanner.feed(b"").err(), Some(ProtocolError::StreamTruncated));
}

#[test]
fn parses_get_request() {
    let mut req = START.to_vec();
    req.extend_from_slice(b"GET\r\n/docs/a.txt\r\n");
    req.extend_from_slice(END);
    req.extend_from_slice(b"tail");
    match parse_request(&req) {
        Parse::Request { command, arg, consumed } => {
            assert_eq!(command, Command::Get);
            assert_eq!(arg, Some(b"/docs/a.txt".to_vec()));
            assert_eq!(consumed, req.len() - 4);
        }
        _ => panic!("expected a request"),
    }
}

#[test]
fn parses_put_header_before_payload() {
    let mut req = START.to_vec();
    req.extend_from_slice(b"PUT\n/x\npayload bytes");
    match parse_request(&req) {
        Parse::Request { command, arg, consumed } => {
            assert_eq!(command, Command::Put);
            assert_eq!(arg, Some(b"/x".to_vec()));
            assert_eq!(&req[consumed..], b"payload bytes");
        }
        _ => panic!("expected a request"),
    }
}

#[test]
fn parses_command_without_argument() {
    let mut req = START.to_vec();
    req.extend_from_slice(b"PWD\r\n");
    req.extend_from_slice(END);
    match parse_request(&req) {
        Parse::Request { command, arg, consumed } => {
            assert_eq!(command, Command::Pwd);
            assert_eq!(arg, None);
            assert_eq!(consumed, req.len());
        }
        _ => panic!("expected a request"),
    }
}

#[test]
fn incomplete_header_needs_more() {
    assert!(matches!(parse_request(b""), Parse::NeedMore));
    assert!(matches!(parse_request(b"\r\nFSY"), Parse::NeedMore));
    assert!(matches!(parse_request(b"\r\nFSYNC\r\nGET\r\n/a\r\n"), Parse::NeedMore));
}

#[test]
fn unknown_command_is_dropped_to_frame_end() {
    let mut req = START.to_vec();
    req.extend_from_slice(b"FLY\r\n/a\r\n");
    req.extend_from_slice(END);
    match parse_request(&req) {
        Parse::Invalid { error, consumed } => {
            assert_eq!(error, ProtocolError::UnknownCommand);
            assert_eq!(consumed, req.len());
        }
        _ => panic!("expected an invalid request"),
    }
}

#[test]
fn malformed_start_then_valid_request_recovers() {
    let mut stream = b"HELLO\r\n".to_vec();
    stream.extend_from_slice(START);
    stream.extend_from_slice(b"PWD\r\n");
    stream.extend_from_slice(END);
    let consumed = match parse_request(&stream) {
        Parse::Invalid { error, consumed } => {
            assert_eq!(error, ProtocolError::BadStartMarker);
            consumed
        }
        _ => panic!("expected a bad start marker"),
    };
    assert_eq!(consumed, 7);
    match parse_request(&stream[consumed..]) {
        Parse::Request { command, .. } => assert_eq!(command, Command::Pwd),
        _ => panic!("expected the valid request"),
    }
}

#[test]
fn command_words() {
    assert_eq!(parse_command(b"MKDIR"), Some(Command::Mkdir));
    assert_eq!(parse_command(b"QUIT"), Some(Command::Quit));
    assert_eq!(parse_command(b"get"), None);
    assert_eq!(parse_command(b""), None);
}

#[test]
fn traversal_cannot_escape_root() {
    let cwd = segs(&["sub"]);
    assert_eq!(simplify_path(&cwd, b"../../../../etc/passwd"), Err(PathError::Escape));
    assert_eq!(simplify_path(&cwd, b".."), Ok(Vec::new()));
    assert_eq!(simplify_path(&Vec::new(), b".."), Err(PathError::Escape));
    assert_eq!(simplify_path(&cwd, b"/etc/passwd"), Ok(segs(&["etc", "passwd"])));
}

#[test]
fn dots_fold_and_relative_paths_use_cwd() {
    let cwd = segs(&["a", "b"]);
    assert_eq!(simplify_path(&cwd, b"./c/../d"), Ok(segs(&["a", "b", "d"])));
    assert_eq!(simplify_path(&cwd, b"/x/./y"), Ok(segs(&["x", "y"])));
    assert_eq!(simplify_path(&cwd, b""), Ok(cwd.clone()));
    assert_eq!(simplify_path(&cwd, b"/"), Ok(Vec::new()));
}

#[test]
fn malformed_paths_are_refused() {
    let cwd = Vec::new();
    assert_eq!(simplify_path(&cwd, b"a//b"), Err(PathError::Malformed));
    assert_eq!(simplify_path(&cwd, b"a/"), Err(PathError::Malformed));
    assert_eq!(simplify_path(&cwd, b"a\0b"), Err(PathError::Malformed));
    assert_eq!(resolve(&cwd, b"caf\xc3"), Err(PathError::Malformed));
    assert_eq!(resolve(&cwd, "café".as_bytes()), Ok(vec!["café".as_bytes().to_vec()]));
}

#[test]
fn server_root_renders_and_contains() {
    let root = ServerRoot::new(b"/srv/data/").unwrap();
    assert_eq!(root.render(&segs(&["a", "b.txt"])), b"/srv/data/a/b.txt");
    assert_eq!(root.render(&Vec::new()), b"/srv/data");
    assert!(root.contains(b"/srv/data"));
    assert!(root.contains(b"/srv/data/a"));
    assert!(!root.contains(b"/srv/database"));
    assert!(!root.contains(b"/etc"));
    assert!(ServerRoot::new(b"relative").is_none());
    let top = ServerRoot::new(b"/").unwrap();
    assert_eq!(top.render(&Vec::new()), b"/");
    assert_eq!(top.render(&segs(&["x"])), b"/x");
}

#[test]
fn sleep_wakes_on_put_to_watched_path_only() {
    let mut bus = ChangeBus::new();
    let a = bus.subscribe(Some(segs(&["x"]))).unwrap();
    let b = bus.subscribe(Some(segs(&["y"]))).unwrap();
    let woken = bus.publish(&ChangeEvent { path: segs(&["x"]), kind: ChangeKind::Created });
    assert_eq!(woken, vec![a]);
    let again = bus.publish(&ChangeEvent { path: segs(&["x"]), kind: ChangeKind::Modified });
    assert!(again.is_empty());
    let later = bus.publish(&ChangeEvent { path: segs(&["y"]), kind: ChangeKind::Removed });
    assert_eq!(later, vec![b]);
}

#[test]
fn whole_tree_and_ancestor_scopes_wake() {
    let mut bus = ChangeBus::new();
    let tree = bus.subscribe(None).unwrap();
    let dir = bus.subscribe(Some(segs(&["d"]))).unwrap();
    let other = bus.subscribe(Some(segs(&["d", "f", "g"]))).unwrap();
    let woken = bus.publish(&ChangeEvent { path: segs(&["d", "f"]), kind: ChangeKind::Modified });
    assert_eq!(woken, vec![tree, dir]);
    assert!(bus.cancel(other));
}

#[test]
fn cancelled_waiter_is_never_woken() {
    let mut bus = ChangeBus::new();
    let a = bus.subscribe(Some(segs(&["x"]))).unwrap();
    assert!(bus.cancel(a));
    assert!(!bus.cancel(a));
    let woken = bus.publish(&ChangeEvent { path: segs(&["x"]), kind: ChangeKind::Modified });
    assert!(woken.is_empty());
}

#[test]
fn cd_then_relative_get() {
    let mut session = Session::new();
    let target = match session.dispatch(Command::Cd, Some(b"/sub".to_vec())) {
        Effect::EnterDir(p) => p,
        _ => panic!("expected a directory check"),
    };
    assert_eq!(target, segs(&["sub"]));
    let reply = session.enter(true);
    assert_eq!(reply, response(Status::Success, b""));
    match session.dispatch(Command::Get, Some(b"file.txt".to_vec())) {
        Effect::Fetch(p) => assert_eq!(p, segs(&["sub", "file.txt"])),
        _ => panic!("expected a fetch"),
    }
}

#[test]
fn cd_to_file_leaves_cwd() {
    let mut session = Session::new();
    assert!(matches!(session.dispatch(Command::Cd, Some(b"f.txt".to_vec())), Effect::EnterDir(_)));
    let reply = session.enter(false);
    assert_eq!(reply, refusal_response(Refusal::NotADirectory));
    assert_eq!(session.pwd(), b"/");
    // a second answer has no pending CD to finish
    assert_eq!(session.enter(true), refusal_response(Refusal::InvalidRequest));
    assert_eq!(session.pwd(), b"/");
}

#[test]
fn pwd_and_stat_are_idempotent() {
    let mut session = Session::new();
    session.dispatch(Command::Cd, Some(b"a/b".to_vec()));
    session.enter(true);
    let first = match session.dispatch(Command::Pwd, None) {
        Effect::Reply(b) => b,
        _ => panic!("expected a reply"),
    };
    let mut expected = START.to_vec();
    expected.extend_from_slice(b"OK\r\n/a/b");
    expected.extend_from_slice(END);
    assert_eq!(first, expected);
    for _ in 0..3 {
        match session.dispatch(Command::Pwd, None) {
            Effect::Reply(b) => assert_eq!(b, first),
            _ => panic!("expected a reply"),
        }
        match session.dispatch(Command::Stat, Some(b"c".to_vec())) {
            Effect::Stat(p) => assert_eq!(p, segs(&["a", "b", "c"])),
            _ => panic!("expected a stat"),
        }
    }
}

#[test]
fn dispatch_refusals_and_close() {
    let mut session = Session::new();
    match session.dispatch(Command::Get, None) {
        Effect::Reply(b) => assert_eq!(b, refusal_response(Refusal::MissingPath)),
        _ => panic!("expected a refusal"),
    }
    match session.dispatch(Command::Del, Some(b"../x".to_vec())) {
        Effect::Reply(b) => assert_eq!(b, refusal_response(Refusal::Path(PathError::Escape))),
        _ => panic!("expected a refusal"),
    }
    assert!(matches!(session.dispatch(Command::Sleep, None), Effect::Wait(None)));
    assert!(matches!(session.dispatch(Command::List, None), Effect::List(p) if p.is_empty()));
    assert!(!session.closed());
    assert!(matches!(session.dispatch(Command::Quit, None), Effect::Close));
    assert!(session.closed());
}

#[test]
fn mutations_publish_changes() {
    let created = change_for(&Effect::Store(segs(&["x"])), false).unwrap();
    assert_eq!(created.kind, ChangeKind::Created);
    assert_eq!(created.path, segs(&["x"]));
    assert_eq!(change_for(&Effect::Store(segs(&["x"])), true).unwrap().kind, ChangeKind::Modified);
    assert_eq!(change_for(&Effect::Remove(segs(&["x"])), false).unwrap().kind, ChangeKind::Removed);
    assert_eq!(change_for(&Effect::CreateDir(segs(&["d"])), false).unwrap().kind, ChangeKind::Created);
    assert_eq!(change_for(&Effect::RemoveDir(segs(&["d"])), false).unwrap().kind, ChangeKind::Removed);
    assert!(change_for(&Effect::Fetch(segs(&["x"])), false).is_none());
}

#[test]
fn response_frames() {
    let r = refusal_response(Refusal::InvalidRequest);
    assert_eq!(r, b"\r\nFSYNC\r\nERROR\r\nInvalid request\r\nDONE\r\n");
    assert_eq!(decimal_bytes(0), b"0");
    assert_eq!(decimal_bytes(1234567890), b"1234567890");
    assert_eq!(decimal_bytes(u64::MAX), u64::MAX.to_string().as_bytes());
    assert_eq!(stat_response(false, 42, 1700000000), b"\r\nFSYNC\r\nOK\r\nfile 42 1700000000\r\nDONE\r\n");
    let entries = vec![(b"a".to_vec(), true), (b"b.txt".to_vec(), false)];
    assert_eq!(list_response(&entries), b"\r\nFSYNC\r\nOK\r\na dir\r\nb.txt file\r\n\r\nDONE\r\n");
}

#[test]
fn default_config() {
    let c = Config::default();
    assert_eq!(c.addr, "0.0.0.0");
    assert_eq!(c.port, 49152);
    assert!(c.cert_path.is_none() && c.key_path.is_none());
    assert!(!c.is_secure());
    let secure = Config { cert_path: Some("c.pem".into()), key_path: Some("k.pem".into()), ..Config::default() };
    assert!(secure.is_secure());
}

#[test]
fn fetched_bytes_match_stored_bytes() {
    for len in [0usize, 1, 7, 8, 100_000] {
        let payload: Vec<u8> = (0..len).map(|i| (i * 7 % 256) as u8).collect();
        // what a store receives: the payload, then the end marker
        let (stored, _) = scan_in_chunks(&with_end(&payload), &[4096]).unwrap();
        // what a fetch sends: the OUT head, the stored bytes, the end marker
        let mut sent = fsync::response::response_head(Status::Out);
        sent.extend_from_slice(&stored);
        sent.extend_from_slice(END);
        let head = b"\r\nFSYNC\r\nOUT\r\n";
        assert_eq!(&sent[..head.len()], head);
        let (fetched, rest) = scan_in_chunks(&sent[head.len()..], &[3]).unwrap();
        assert_eq!(fetched, payload);
        assert!(rest.is_empty());
    }
}

#[test]
fn sleep_wake_reply_names_change() {
    let event = ChangeEvent { path: segs(&["x", "y.txt"]), kind: ChangeKind::Modified };
    assert_eq!(fsync::session::wake_response(&event), b"\r\nFSYNC\r\nOK\r\nmodified /x/y.txt\r\nDONE\r\n");
}

#[test]
fn project_directories_name_the_application() {
    let dirs = [fsync::config::config_dir(), fsync::config::data_dir(), fsync::config::cache_dir()];
    if let [Some(config), Some(data), Some(cache)] = &dirs {
        assert!(config.ends_with("fsync"), "{config}");
        assert!(data.ends_with("fsync"), "{data}");
        assert!(cache.ends_with("fsync"), "{cache}");
        assert!(config != data && data != cache);
    } else {
        assert!(dirs.iter().all(|d| d.is_none()));
    }
}

#[test]
fn refused_upload_drops_its_payload() {
    let mut session = Session::new();
    match session.dispatch(Command::Put, Some(b"../outside".to_vec())) {
        Effect::RefuseUpload(b) => assert_eq!(b, refusal_response(Refusal::Path(PathError::Escape))),
        _ => panic!("expected a refused upload"),
    }
    match session.dispatch(Command::Put, None) {
        Effect::RefuseUpload(b) => assert_eq!(b, refusal_response(Refusal::MissingPath)),
        _ => panic!("expected a refused upload"),
    }
    // other refusals carry no payload
    match session.dispatch(Command::Get, Some(b"../outside".to_vec())) {
        Effect::Reply(b) => assert_eq!(b, refusal_response(Refusal::Path(PathError::Escape))),
        _ => panic!("expected a refusal"),
    }
    // a payload holding a whole frame is dropped as data, never read as a request
    let mut stream = START.to_vec();
    stream.extend_from_slice(b"PUT\n../outside\n");
    let mut payload = START.to_vec();
    payload.extend_from_slice(b"DEL\n/important\n");
    stream.extend_from_slice(&payload);
    stream.extend_from_slice(END);
    stream.extend_from_slice(START);
    stream.extend_from_slice(b"PWD\n");
    stream.extend_from_slice(END);
    let after_header = match parse_request(&stream) {
        Parse::Request { command: Command::Put, consumed, .. } => consumed,
        _ => panic!("expected the upload header"),
    };
    let (dropped, rest) = scan_in_chunks(&stream[after_header..], &[5]).unwrap();
    assert_eq!(dropped, payload);
    match parse_request(&rest) {
        Parse::Request { command, .. } => assert_eq!(command, Command::Pwd),
        _ => panic!("expected the next request"),
    }
}

#[test]
fn garbage_without_newline_resyncs_on_marker() {
    let mut stream = b"xyz".to_vec();
    stream.extend_from_slice(START);
    stream.extend_from_slice(b"PWD\r\n");
    stream.extend_from_slice(END);
    match parse_request(&stream) {
        Parse::Invalid { error, consumed } => {
            assert_eq!(error, ProtocolError::BadStartMarker);
            assert_eq!(consumed, 3);
        }
        _ => panic!("expected a bad start marker"),
    }
    match parse_request(&stream[3..]) {
        Parse::Request { command, .. } => assert_eq!(command, Command::Pwd),
        _ => panic!("expected the valid request"),
    }
    // a line end that may begin the next marker is kept
    match parse_request(b"ab\r\n") {
        Parse::Invalid { consumed, .. } => assert_eq!(consumed, 2),
        _ => panic!("expected a bad start marker"),
    }
    assert!(matches!(parse_request(b"\r\n"), Parse::NeedMore));
    assert!(matches!(parse_request(b"abc"), Parse::NeedMore));
}

#[test]
fn probing_for_the_real_location() {
    let root = ServerRoot::new(b"/srv/data").unwrap();
    assert_eq!(root.probe_step(Some(b"/srv/data/a/b"), true), Probe::Inside);
    assert_eq!(root.probe_step(Some(b"/srv/data"), true), Probe::Inside);
    assert_eq!(root.probe_step(Some(b"/etc/passwd"), true), Probe::Outside);
    assert_eq!(root.probe_step(None, true), Probe::Up);
    assert_eq!(root.probe_step(None, false), Probe::Outside);
}
