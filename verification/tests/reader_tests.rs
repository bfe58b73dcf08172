use http_server::connection::LineStream;
use http_server::error::HttpError;
use http_server::wire::{bytes_equal, cross_boundary_separator, find_crlf, split_bytes};
use std::io::{Cursor, Read};

/// Hands out its chunks one per read, never more than the caller has room for.
struct Chunks {
    chunks: Vec<Vec<u8>>,
    next: usize,
    offset: usize,
}

impl Chunks {
    fn new(chunks: Vec<Vec<u8>>) -> Self {
        Self {
            chunks,
            next: 0,
            offset: 0,
        }
    }
}

impl Read for Chunks {
    fn read(&mut self, buf: &mut [u8]) -> std::io::Result<usize> {
        while self.next < self.chunks.len() && self.offset >= self.chunks[self.next].len() {
            self.next += 1;
            self.offset = 0;
        }
        if self.next >= self.chunks.len() {
            return Ok(0);
        }
        let chunk = &self.chunks[self.next];
        let n = std::cmp::min(chunk.len() - self.offset, buf.len());
        buf[..n].copy_from_slice(&chunk[self.offset..self.offset + n]);
        self.offset += n;
        Ok(n)
    }
}

/// Delivers some bytes, then fails.
struct Breaks {
    first: Vec<u8>,
    done: bool,
}

impl Read for Breaks {
    fn read(&mut self, buf: &mut [u8]) -> std::io::Result<usize> {
        if self.done {
            return Err(std::io::Error::new(std::io::ErrorKind::Other, "broken"));
        }
        self.done = true;
        let n = std::cmp::min(self.first.len(), buf.len());
        buf[..n].copy_from_slice(&self.first[..n]);
        Ok(n)
    }
}

/// Claims to have read more than it was given room for.
struct Liar;

impl Read for Liar {
    fn read(&mut self, buf: &mut [u8]) -> std::io::Result<usize> {
        Ok(buf.len() + 1)
    }
}

fn all_lines<T: Read>(ls: &mut LineStream<T>) -> Vec<Vec<u8>> {
    let mut lines = Vec::new();
    while let Ok(line) = ls.read_line() {
        lines.push(line);
    }
    lines
}

#[test]
fn every_split_gives_the_same_lines() {
    let buffer = b"GET / HTTP/1.1\r\nHost: a\r\n\r\nab\rcd\ne\r\n\r\r\n".to_vec();
    let mut whole = Cursor::new(buffer.clone());
    let expected = all_lines(&mut LineStream::new(&mut whole));
    assert_eq!(
        expected,
        vec![
            b"GET / HTTP/1.1".to_vec(),
            b"Host: a".to_vec(),
            b"".to_vec(),
            b"ab\rcd\ne".to_vec(),
            b"\r".to_vec(),
        ]
    );
    for k in 0..=buffer.len() {
        let mut source = Chunks::new(vec![buffer[..k].to_vec(), buffer[k..].to_vec()]);
        let got = all_lines(&mut LineStream::new(&mut source));
        assert_eq!(got, expected, "split at {k}");
    }
}

#[test]
fn split_between_cr_and_lf() {
    let mut source = Chunks::new(vec![b"one\r".to_vec(), b"\ntwo\r\n".to_vec()]);
    let mut ls = LineStream::new(&mut source);
    assert_eq!(ls.read_line().unwrap(), b"one".to_vec());
    assert_eq!(ls.read_line().unwrap(), b"two".to_vec());
    assert!(matches!(ls.read_line(), Err(HttpError::Closed)));
}

#[test]
fn one_byte_at_a_time() {
    let buffer = b"alpha\r\n\r\nbeta\r\n".to_vec();
    let chunks = buffer.iter().map(|b| vec![*b]).collect();
    let mut source = Chunks::new(chunks);
    let got = all_lines(&mut LineStream::new(&mut source));
    assert_eq!(got, vec![b"alpha".to_vec(), b"".to_vec(), b"beta".to_vec()]);
}

#[test]
fn cr_alone_at_a_seam_is_kept() {
    let mut source = Chunks::new(vec![b"a\r".to_vec(), b"b\r\n".to_vec()]);
    let mut ls = LineStream::new(&mut source);
    assert_eq!(ls.read_line().unwrap(), b"a\rb".to_vec());
}

#[test]
fn end_of_stream_with_nothing_pending_is_closed() {
    let mut source = Cursor::new(Vec::new());
    let mut ls = LineStream::new(&mut source);
    assert!(matches!(ls.read_line(), Err(HttpError::Closed)));
}

#[test]
fn unfinished_line_is_handed_out_once() {
    let mut source = Cursor::new(b"done\r\npart".to_vec());
    let mut ls = LineStream::new(&mut source);
    assert_eq!(ls.read_line().unwrap(), b"done".to_vec());
    assert_eq!(ls.read_line().unwrap(), b"part".to_vec());
    assert!(matches!(ls.read_line(), Err(HttpError::Closed)));
}

#[test]
fn failure_of_the_source_is_a_transport_error() {
    let mut source = Breaks {
        first: b"half".to_vec(),
        done: false,
    };
    let mut ls = LineStream::new(&mut source);
    assert!(matches!(ls.read_line(), Err(HttpError::Transport(_))));
    assert_eq!(ls.read_bytes(4).unwrap(), b"half".to_vec());
}

#[test]
fn a_source_that_overstates_is_refused() {
    let mut source = Liar;
    let mut ls = LineStream::new(&mut source);
    assert!(matches!(ls.read_line(), Err(HttpError::Overrun)));
}

#[test]
fn read_bytes_around_the_chunk_size() {
    for n in [0usize, 1, 1023, 1024, 1025, 2047, 2048, 2049, 5000] {
        let content: Vec<u8> = (0..n + 10).map(|i| (i % 251) as u8).collect();
        let mut source = Cursor::new(content.clone());
        let mut ls = LineStream::new(&mut source);
        let got = ls.read_bytes(n).unwrap();
        assert_eq!(got.len(), n);
        assert_eq!(got, content[..n].to_vec());
    }
}

#[test]
fn read_bytes_after_a_line_straddles_the_window() {
    let mut content = b"first\r\n".to_vec();
    let body: Vec<u8> = (0..3000u32).map(|i| (i % 253) as u8).collect();
    content.extend_from_slice(&body);
    content.extend_from_slice(b"last\r\n");
    let mut source = Cursor::new(content);
    let mut ls = LineStream::new(&mut source);
    assert_eq!(ls.read_line().unwrap(), b"first".to_vec());
    assert_eq!(ls.read_bytes(1017).unwrap(), body[..1017].to_vec());
    assert_eq!(ls.read_bytes(1983).unwrap(), body[1017..].to_vec());
    assert_eq!(ls.read_line().unwrap(), b"last".to_vec());
}

#[test]
fn read_bytes_takes_only_what_is_asked() {
    let mut source = Cursor::new(b"abcdef\r\n".to_vec());
    let mut ls = LineStream::new(&mut source);
    assert_eq!(ls.read_bytes(2).unwrap(), b"ab".to_vec());
    assert_eq!(ls.read_bytes(0).unwrap(), Vec::<u8>::new());
    assert_eq!(ls.read_line().unwrap(), b"cdef".to_vec());
}

#[test]
fn read_bytes_past_the_end_fails() {
    let mut source = Cursor::new(b"abc".to_vec());
    let mut ls = LineStream::new(&mut source);
    assert!(matches!(ls.read_bytes(4), Err(HttpError::Transport(_))));
}

#[test]
fn writing_through_the_reader_keeps_what_is_buffered() {
    let mut source = Cursor::new(b"one\r\ntwo\r\n".to_vec());
    let mut ls = LineStream::new(&mut source);
    assert_eq!(ls.read_line().unwrap(), b"one".to_vec());
    let position = ls.get_stream_mut().position();
    assert_eq!(position, 10);
    assert_eq!(ls.read_line().unwrap(), b"two".to_vec());
}

#[test]
fn separator_across_two_slices() {
    assert!(cross_boundary_separator(b"abc\r", b"\ndef"));
    assert!(!cross_boundary_separator(b"abc", b"\ndef"));
    assert!(!cross_boundary_separator(b"abc\r", b"def"));
    assert!(!cross_boundary_separator(b"", b"\n"));
    assert!(!cross_boundary_separator(b"\r", b""));
}

#[test]
fn first_terminator_in_a_window() {
    let window = b"ab\r\ncd\r\n";
    assert_eq!(find_crlf(window, 0, 8), Some(2));
    assert_eq!(find_crlf(window, 3, 8), Some(6));
    assert_eq!(find_crlf(window, 0, 3), None);
    assert_eq!(find_crlf(window, 7, 8), None);
    assert_eq!(find_crlf(window, 8, 8), None);
}

#[test]
fn pieces_between_separators() {
    assert_eq!(
        split_bytes(b"a,b,,c", b','),
        vec![b"a".to_vec(), b"b".to_vec(), b"".to_vec(), b"c".to_vec()]
    );
    assert_eq!(split_bytes(b"", b','), vec![Vec::<u8>::new()]);
    assert_eq!(split_bytes(b"a,", b','), vec![b"a".to_vec(), Vec::<u8>::new()]);
    assert!(bytes_equal(b"same", b"same"));
    assert!(!bytes_equal(b"same", b"some"));
    assert!(!bytes_equal(b"same", b"sam"));
}

fn lines_by_feeding(chunks: &[&[u8]]) -> Vec<Result<Vec<u8>, String>> {
    let mut nothing = std::io::empty();
    let mut ls = LineStream::new(&mut nothing);
    let mut out = Vec::new();
    for chunk in chunks {
        let mut step = ls.feed(chunk);
        loop {
            match step {
                Some(Ok(line)) => out.push(Ok(line)),
                Some(Err(e)) => {
                    out.push(Err(e.describe().to_string()));
                    break;
                }
                None => break,
            }
            step = ls.take_buffered_line().map(Ok);
        }
    }
    out
}

#[test]
fn fed_chunks_with_the_terminator_across_the_seam() {
    let mut nothing = std::io::empty();
    let mut ls = LineStream::new(&mut nothing);
    assert!(ls.feed(b"Hello\r").is_none());
    match ls.feed(b"\nWorld\r\n") {
        Some(Ok(line)) => assert_eq!(line, b"Hello".to_vec()),
        _ => panic!("the first line is complete"),
    }
    assert_eq!(ls.take_buffered_line(), Some(b"World".to_vec()));
    assert_eq!(ls.take_buffered_line(), None);
    assert!(matches!(ls.feed(b""), Some(Err(HttpError::Closed))));
}

#[test]
fn fed_line_longer_than_the_window_comes_back_whole() {
    let content: Vec<u8> = (0_u32..2000).map(|i| b'a' + (i % 26) as u8).collect();
    let mut nothing = std::io::empty();
    let mut ls = LineStream::new(&mut nothing);
    assert!(ls.feed(&content[..1024]).is_none());
    assert!(ls.feed(&content[1024..]).is_none());
    match ls.feed(b"\r\n") {
        Some(Ok(line)) => assert_eq!(line, content),
        _ => panic!("the line is complete"),
    }
}

#[test]
fn fed_tail_without_a_terminator_is_handed_out_at_the_end() {
    let mut nothing = std::io::empty();
    let mut ls = LineStream::new(&mut nothing);
    assert!(ls.feed(b"Hello").is_none());
    match ls.feed(b"") {
        Some(Ok(line)) => assert_eq!(line, b"Hello".to_vec()),
        _ => panic!("the tail is handed out"),
    }
    assert!(matches!(ls.feed(b""), Some(Err(HttpError::Closed))));
}

#[test]
fn fed_chunk_without_a_terminator_gives_no_line() {
    let mut nothing = std::io::empty();
    let mut ls = LineStream::new(&mut nothing);
    assert!(ls.feed(b"no end").is_none());
    assert!(ls.feed(b" yet\r").is_none());
    assert!(ls.feed(b"x").is_none());
    match ls.feed(b"\r\n") {
        Some(Ok(line)) => assert_eq!(line, b"no end yet\rx".to_vec()),
        _ => panic!("the line is complete"),
    }
}

#[test]
fn every_cut_of_fed_bytes_gives_the_same_lines() {
    let buffer = b"GET / HTTP/1.1\r\nHost: a\r\n\r\nab\rcd\ne\r\n\r\r\n".to_vec();
    let whole = lines_by_feeding(&[&buffer, b""]);
    assert_eq!(whole.len(), 6);
    assert_eq!(whole[5], Err(String::from("EOF")));
    for k in 1..buffer.len() {
        let cut = lines_by_feeding(&[&buffer[..k], &buffer[k..], b""]);
        assert_eq!(cut, whole, "cut at {k}");
    }
}

#[test]
fn outcome_of_a_failed_read_is_an_error_at_once() {
    let mut nothing = std::io::empty();
    let mut ls = LineStream::new(&mut nothing);
    assert!(ls.feed(b"pending").is_none());
    let failure = std::io::Error::new(std::io::ErrorKind::ConnectionReset, "reset");
    match ls.absorb(Err(failure)) {
        Some(Err(HttpError::Transport(e))) => {
            assert_eq!(e.kind(), std::io::ErrorKind::ConnectionReset)
        }
        _ => panic!("the failure of the source comes back"),
    }
    assert_eq!(ls.take_buffered(100), b"pending".to_vec());
}

#[test]
fn outcome_above_the_window_is_refused() {
    let mut nothing = std::io::empty();
    let mut ls = LineStream::new(&mut nothing);
    assert!(ls.feed(b"kept").is_none());
    assert!(matches!(ls.absorb(Ok(1025)), Some(Err(HttpError::Overrun))));
    assert_eq!(ls.take_buffered(4), b"kept".to_vec());
    assert!(matches!(ls.absorb(Ok(0)), Some(Err(HttpError::Closed))));
}

#[test]
fn buffered_bytes_are_taken_up_to_the_count() {
    let mut nothing = std::io::empty();
    let mut ls = LineStream::new(&mut nothing);
    match ls.feed(b"one\r\nrest of it") {
        Some(Ok(line)) => assert_eq!(line, b"one".to_vec()),
        _ => panic!("the line is complete"),
    }
    assert_eq!(ls.take_buffered(4), b"rest".to_vec());
    assert_eq!(ls.take_buffered(0), Vec::<u8>::new());
    assert_eq!(ls.take_buffered(100), b" of it".to_vec());
    assert_eq!(ls.take_buffered(1), Vec::<u8>::new());
}

#[test]
fn exact_read_joins_what_was_taken() {
    let mut nothing = std::io::empty();
    let mut ls = LineStream::new(&mut nothing);
    let joined = ls.join_exact(b"taken ".to_vec(), Ok(b"direct".to_vec()));
    assert_eq!(joined.unwrap(), b"taken direct".to_vec());
    let failure = std::io::Error::new(std::io::ErrorKind::UnexpectedEof, "short");
    match ls.join_exact(b"taken".to_vec(), Err(failure)) {
        Err(HttpError::Transport(e)) => assert_eq!(e.kind(), std::io::ErrorKind::UnexpectedEof),
        _ => panic!("the failure of the source comes back"),
    }
}

