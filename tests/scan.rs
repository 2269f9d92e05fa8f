use brc::partition::chunk_bounds;
use brc::scan::{memchr, split_by, Lines};

fn all_lines(bytes: &[u8]) -> Vec<Vec<u8>> {
    let mut lines = Lines::new(bytes);
    let mut out = Vec::new();
    while let Some(l) = lines.next() {
        out.push(l.to_vec());
    }
    out
}

#[test]
fn memchr_finds_first() {
    assert_eq!(memchr(b"ab;c;d", b';'), Some(2));
    assert_eq!(memchr(b"abc", b';'), None);
    assert_eq!(memchr(b"", b';'), None);
}

#[test]
fn split_by_first_delimiter() {
    assert_eq!(split_by(b"Station A;12.3", b';'), (&b"Station A"[..], &b"12.3"[..]));
    assert_eq!(split_by(b"a;b;c", b';'), (&b"a"[..], &b"b;c"[..]));
    assert_eq!(split_by(b"no delimiter", b';'), (&b"no delimiter"[..], &b""[..]));
}

#[test]
fn lines_with_and_without_final_terminator() {
    assert_eq!(all_lines(b"a\nbc\n"), vec![b"a".to_vec(), b"bc".to_vec()]);
    assert_eq!(all_lines(b"a\nbc"), vec![b"a".to_vec(), b"bc".to_vec()]);
    assert_eq!(all_lines(b"a\n\nb"), vec![b"a".to_vec(), b"".to_vec(), b"b".to_vec()]);
    assert!(all_lines(b"").is_empty());
}

#[test]
fn chunks_partition_on_line_ends() {
    let text: &[u8] = b"Station A;12.3\nStation B;-7.0\nStation A;15.0\nX;1.0\n";
    for n in 1..8usize {
        let b = chunk_bounds(text, n);
        assert_eq!(b.len(), n + 1);
        assert_eq!(b[0], 0);
        assert_eq!(b[n], text.len());
        let mut joined = Vec::new();
        for k in 0..n {
            assert!(b[k] <= b[k + 1]);
            if b[k] != 0 && b[k] != text.len() {
                assert_eq!(text[b[k] - 1], b'\n');
            }
            joined.extend(all_lines(&text[b[k]..b[k + 1]]));
        }
        assert_eq!(joined, all_lines(text));
    }
}

#[test]
fn chunks_single_worker_covers_all() {
    assert_eq!(chunk_bounds(b"abc\ndef", 1), vec![0, 7]);
    assert_eq!(chunk_bounds(b"", 3), vec![0, 0, 0, 0]);
    assert_eq!(chunk_bounds(b"ab\ncd\nef\n", 3), vec![0, 6, 9, 9]);
}
