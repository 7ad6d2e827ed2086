use nln::{is_newline, last_not_newline, snickerdoodle, ChunkedSource, Trimmer};

fn trimmed(s: &[u8]) -> Vec<u8> {
    let mut end = s.len();
    while end > 0 && (s[end - 1] == b'\n' || s[end - 1] == b'\r') {
        end -= 1;
    }
    s[..end].to_vec()
}

fn run_chunked(s: &[u8], size: usize) -> Vec<u8> {
    let mut out = Vec::new();
    snickerdoodle(ChunkedSource::new(s, size), &mut out).unwrap();
    out
}

fn samples() -> Vec<Vec<u8>> {
    vec![
        b"".to_vec(),
        b"abc".to_vec(),
        b"abc\n".to_vec(),
        b"\n\n\n".to_vec(),
        b"\r\n\r\n".to_vec(),
        b"\nabc".to_vec(),
        b"ab\n\nc\n".to_vec(),
        b"a\rb\nc\r\nd\n".to_vec(),
        b"\r\n\nx\n\r\ny\r\r\n\n".to_vec(),
        b"x\n\n\n\n\n\n\n\n\ny".to_vec(),
    ]
}

#[test]
fn chunk_size_does_not_change_output() {
    for s in samples() {
        let expected = trimmed(&s);
        for size in [1usize, 2, 3, 4, 5, 7, 64] {
            assert_eq!(run_chunked(&s, size), expected, "chunk size {}", size);
        }
        let whole = run_chunked(&s, s.len().max(1));
        assert_eq!(whole, expected);
    }
}

#[test]
fn one_byte_chunks_scenarios() {
    assert_eq!(run_chunked(b"", 1), b"");
    assert_eq!(run_chunked(b"abc", 1), b"abc");
    assert_eq!(run_chunked(b"abc\r\n", 1), b"abc");
    assert_eq!(run_chunked(b"abc\r", 1), b"abc");
    assert_eq!(run_chunked(b"\n\n\n", 1), b"");
    assert_eq!(run_chunked(b"\nabc", 1), b"\nabc");
    assert_eq!(run_chunked(b"ab\n\nc\n", 1), b"ab\n\nc");
    assert_eq!(run_chunked(b"a\rb\nc\r\nd\n", 1), b"a\rb\nc\r\nd");
}

#[test]
fn large_input_in_small_chunks() {
    let mut input = vec![b'x'; 100000];
    input.extend_from_slice(b"\n\n\n");
    for size in [1usize, 3, 4096] {
        assert_eq!(run_chunked(&input, size), vec![b'x'; 100000]);
    }
}

#[test]
fn trimming_twice_is_trimming_once() {
    for s in samples() {
        let once = run_chunked(&s, 2);
        let twice = run_chunked(&once, 3);
        assert_eq!(once, twice);
    }
}

#[test]
fn output_never_ends_in_newline() {
    for s in samples() {
        for size in [1usize, 2, 5] {
            let out = run_chunked(&s, size);
            if let Some(&c) = out.last() {
                assert_ne!(c, b'\r');
                assert_ne!(c, b'\n');
            }
        }
    }
}

#[test]
fn interior_runs_kept_in_place() {
    let input = b"a\n\r\nb\r\rc\n";
    let out = run_chunked(input, 2);
    assert_eq!(out, b"a\n\r\nb\r\rc");
    assert_eq!(&input[..out.len()], out.as_slice());
}

#[test]
fn sink_keeps_earlier_contents() {
    let mut out = b"head:".to_vec();
    snickerdoodle(b"body\n\n".as_slice(), &mut out).unwrap();
    assert_eq!(out, b"head:body");
}

#[test]
fn is_newline_classes() {
    assert!(is_newline(b'\n'));
    assert!(is_newline(b'\r'));
    assert!(!is_newline(b'a'));
    assert!(!is_newline(b' '));
    assert!(!is_newline(0));
    assert!(!is_newline(0x0b));
}

#[test]
fn last_not_newline_positions() {
    assert_eq!(last_not_newline(b""), None);
    assert_eq!(last_not_newline(b"\r\n\n"), None);
    assert_eq!(last_not_newline(b"abc"), Some(2));
    assert_eq!(last_not_newline(b"ab\r\n"), Some(1));
    assert_eq!(last_not_newline(b"\nx\n"), Some(1));
}

#[test]
fn trimmer_holds_back_only_the_trailing_run() {
    let mut t = Trimmer::new();
    let mut out = Vec::new();
    t.push(b"ab\n", &mut out);
    assert_eq!(out, b"ab");
    assert_eq!(t.pending_len(), 1);
    t.push(b"\r\n", &mut out);
    assert_eq!(out, b"ab");
    assert_eq!(t.pending_len(), 3);
    t.push(b"c", &mut out);
    assert_eq!(out, b"ab\n\r\nc");
    assert_eq!(t.pending_len(), 0);
    t.push(b"\n", &mut out);
    assert_eq!(out, b"ab\n\r\nc");
    assert_eq!(t.pending_len(), 1);
}

#[test]
fn pending_bounded_by_longest_run() {
    let mut input = Vec::new();
    for _ in 0..1000 {
        input.extend_from_slice(b"line\n\n");
    }
    let mut t = Trimmer::new();
    let mut out = Vec::new();
    for chunk in input.chunks(7) {
        t.push(chunk, &mut out);
        assert!(t.pending_len() <= 2);
    }
    assert_eq!(out, trimmed(&input));
}
