use rencfs::error::{FsError, NO_SPACE};
use rencfs::mem_stream::{append_bytes, BoundedWriter, SliceReader};
use rencfs::stream_util::{
    copy, copy_exact, fill_zeros, read, seek_forward, seek_forward_exact, ByteSink, ByteSource,
    RandomReader, SeekFrom, BUF_SIZE,
};

/// A source that hands out one byte per call, however much is asked for.
struct Trickle {
    left: Vec<u8>,
    reads: usize,
}

impl Trickle {
    fn new(bytes: &[u8]) -> Self {
        Trickle { left: bytes.to_vec(), reads: 0 }
    }
}

impl ByteSource for Trickle {
    fn read(&mut self, buf: &mut [u8]) -> Result<usize, FsError> {
        self.reads += 1;
        if buf.is_empty() || self.left.is_empty() {
            return Ok(0);
        }
        buf[0] = self.left.remove(0);
        Ok(1)
    }
}

/// A sink that counts the calls it gets.
struct Counting {
    bytes: Vec<u8>,
    calls: usize,
}

impl ByteSink for Counting {
    fn write_all(&mut self, buf: &[u8]) -> Result<(), FsError> {
        self.calls += 1;
        self.bytes.extend_from_slice(buf);
        Ok(())
    }
}

fn pattern(len: usize) -> Vec<u8> {
    (0..len).map(|i| (i % 251) as u8).collect()
}

fn rest_of<R: ByteSource>(r: &mut R) -> Vec<u8> {
    let mut out: Vec<u8> = Vec::new();
    copy(r, &mut out, u64::MAX, true).unwrap();
    out
}

#[test]
fn seek_forward_of_zero_bytes_does_nothing() {
    let mut r = Trickle::new(&[1, 2, 3]);
    assert_eq!(seek_forward(&mut r, 0, false), Ok(0));
    assert_eq!(r.reads, 0);
    assert_eq!(r.left, vec![1, 2, 3]);
}

#[test]
fn seek_forward_advances_by_the_exact_length() {
    let data = pattern(100);
    let mut r = SliceReader::new(&data);
    assert_eq!(seek_forward(&mut r, 40, false), Ok(40));
    assert_eq!(rest_of(&mut r), data[40..].to_vec());
}

#[test]
fn seek_forward_over_one_byte_reads() {
    let mut r = Trickle::new(&[1, 2, 3, 4, 5]);
    assert_eq!(seek_forward(&mut r, 3, false), Ok(3));
    assert_eq!(r.left, vec![4, 5]);
    assert_eq!(r.reads, 3);
}

#[test]
fn seek_forward_past_the_end_is_an_error_unless_tolerated() {
    let data = pattern(10);
    let mut strict = SliceReader::new(&data);
    assert_eq!(seek_forward(&mut strict, 11, false), Err(FsError::UnexpectedEndOfStream));
    let mut lenient = SliceReader::new(&data);
    assert_eq!(seek_forward(&mut lenient, 11, true), Ok(10));
    let mut exact = SliceReader::new(&data);
    assert_eq!(seek_forward(&mut exact, 10, false), Ok(10));
}

#[test]
fn seek_forward_to_the_very_end_makes_no_further_read() {
    let mut r = Trickle::new(&[9, 9]);
    assert_eq!(seek_forward(&mut r, 2, false), Ok(2));
    assert_eq!(r.reads, 2);
}

#[test]
fn seek_forward_hands_on_the_failure_of_the_source() {
    let data = pattern(10);
    let mut r = SliceReader::failing(&data, FsError::Corruption);
    assert_eq!(seek_forward(&mut r, 10, false), Ok(10));
    let mut r = SliceReader::failing(&data, FsError::Corruption);
    assert_eq!(seek_forward(&mut r, 11, true), Err(FsError::Corruption));
    let mut r = SliceReader::failing(&data, FsError::IoFailure(5));
    assert_eq!(seek_forward(&mut r, 11, false), Err(FsError::IoFailure(5)));
}

#[test]
fn seek_forward_longer_than_the_buffer() {
    let len = 2 * BUF_SIZE + 17;
    let mut r = RandomReader::new(len + 5);
    assert_eq!(seek_forward(&mut r, len as u64, false), Ok(len as u64));
    assert_eq!(seek_forward(&mut r, 100, true), Ok(5));
}

#[test]
fn seek_forward_exact_needs_every_byte() {
    let data = pattern(8);
    let mut r = SliceReader::new(&data);
    assert_eq!(seek_forward_exact(&mut r, 8), Ok(()));
    let mut r = SliceReader::new(&data);
    assert_eq!(seek_forward_exact(&mut r, 9), Err(FsError::UnexpectedEndOfStream));
    let mut r = SliceReader::new(&data);
    assert_eq!(seek_forward_exact(&mut r, 3), Ok(()));
    assert_eq!(rest_of(&mut r), data[3..].to_vec());
}

#[test]
fn copy_moves_the_exact_bytes() {
    let data = pattern(1000);
    let mut r = SliceReader::new(&data);
    let mut w: Vec<u8> = vec![0xAA];
    assert_eq!(copy(&mut r, &mut w, 600, false), Ok(600));
    assert_eq!(w[0], 0xAA);
    assert_eq!(w[1..].to_vec(), data[..600].to_vec());
    assert_eq!(rest_of(&mut r), data[600..].to_vec());
}

#[test]
fn copy_of_zero_bytes_does_nothing() {
    let mut r = Trickle::new(&[1, 2, 3]);
    let mut w = Counting { bytes: Vec::new(), calls: 0 };
    assert_eq!(copy(&mut r, &mut w, 0, false), Ok(0));
    assert_eq!(r.reads, 0);
    assert_eq!(w.calls, 0);
}

#[test]
fn copy_from_a_short_source_is_an_error_unless_tolerated() {
    let data = pattern(10);
    let mut r = SliceReader::new(&data);
    let mut w: Vec<u8> = Vec::new();
    assert_eq!(copy(&mut r, &mut w, 25, false), Err(FsError::UnexpectedEndOfStream));
    assert_eq!(w, data);
    let mut r = SliceReader::new(&data);
    let mut w: Vec<u8> = Vec::new();
    assert_eq!(copy(&mut r, &mut w, 25, true), Ok(10));
    assert_eq!(w, data);
}

#[test]
fn copy_over_one_byte_reads() {
    let mut r = Trickle::new(&[5, 6, 7, 8]);
    let mut w: Vec<u8> = Vec::new();
    assert_eq!(copy(&mut r, &mut w, 3, false), Ok(3));
    assert_eq!(w, vec![5, 6, 7]);
    assert_eq!(r.left, vec![8]);
}

#[test]
fn copy_stops_at_the_limit_of_the_sink() {
    let data = [7u8; 10];
    let mut r = SliceReader::new(&data);
    let mut w = BoundedWriter::new(4);
    assert_eq!(copy(&mut r, &mut w, 10, false), Err(FsError::IoFailure(NO_SPACE)));
    assert_eq!(w.into_bytes(), vec![7u8; 4]);
}

#[test]
fn copy_into_a_sink_with_just_enough_room() {
    let data = pattern(10);
    let mut r = SliceReader::new(&data);
    let mut w = BoundedWriter::new(10);
    assert_eq!(copy(&mut r, &mut w, 10, false), Ok(10));
    assert_eq!(w.into_bytes(), data);
}

#[test]
fn copy_hands_on_the_failure_of_the_source() {
    let data = pattern(6);
    let mut r = SliceReader::failing(&data, FsError::IoFailure(5));
    let mut w: Vec<u8> = Vec::new();
    assert_eq!(copy(&mut r, &mut w, 7, true), Err(FsError::IoFailure(5)));
    assert_eq!(w, data);
}

#[test]
fn copy_longer_than_the_buffer() {
    let len = BUF_SIZE + BUF_SIZE / 2 + 3;
    let data = pattern(len);
    let mut r = SliceReader::new(&data);
    let mut w = Counting { bytes: Vec::new(), calls: 0 };
    assert_eq!(copy(&mut r, &mut w, len as u64, false), Ok(len as u64));
    assert_eq!(w.calls, 2);
    assert!(w.bytes == data);
}

#[test]
fn copy_exact_needs_every_byte() {
    let data = pattern(12);
    let mut r = SliceReader::new(&data);
    let mut w: Vec<u8> = Vec::new();
    assert_eq!(copy_exact(&mut r, &mut w, 12), Ok(()));
    assert_eq!(w, data);
    let mut r = SliceReader::new(&data);
    let mut w: Vec<u8> = Vec::new();
    assert_eq!(copy_exact(&mut r, &mut w, 13), Err(FsError::UnexpectedEndOfStream));
}

#[test]
fn fill_zeros_writes_the_exact_count() {
    let mut w: Vec<u8> = vec![1, 2];
    assert_eq!(fill_zeros(&mut w, 5), Ok(()));
    assert_eq!(w, vec![1, 2, 0, 0, 0, 0, 0]);
    assert_eq!(fill_zeros(&mut w, 0), Ok(()));
    assert_eq!(w.len(), 7);
}

#[test]
fn fill_zeros_longer_than_the_buffer() {
    let len = BUF_SIZE + 1;
    let mut w = Counting { bytes: Vec::new(), calls: 0 };
    assert_eq!(fill_zeros(&mut w, len as u64), Ok(()));
    assert_eq!(w.bytes.len(), len);
    assert!(w.bytes.iter().all(|b| *b == 0));
    assert_eq!(w.calls, 2);
}

#[test]
fn fill_zeros_stops_at_the_limit_of_the_sink() {
    let mut w = BoundedWriter::new(3);
    assert_eq!(fill_zeros(&mut w, 4), Err(FsError::IoFailure(NO_SPACE)));
    assert_eq!(w.into_bytes(), vec![0, 0, 0]);
    let mut w = BoundedWriter::new(3);
    assert_eq!(fill_zeros(&mut w, 3), Ok(()));
}

#[test]
fn read_asks_again_until_the_buffer_is_full() {
    let mut r = Trickle::new(&[1, 2, 3, 4, 5]);
    let mut buf = [0u8; 4];
    assert_eq!(read(&mut r, &mut buf), Ok(4));
    assert_eq!(buf, [1, 2, 3, 4]);
    assert_eq!(r.reads, 4);
}

#[test]
fn read_stops_at_the_end_of_the_source() {
    let data = [1u8, 2, 3];
    let mut r = SliceReader::new(&data);
    let mut buf = [9u8; 5];
    assert_eq!(read(&mut r, &mut buf), Ok(3));
    assert_eq!(buf, [1, 2, 3, 9, 9]);
    assert_eq!(read(&mut r, &mut buf), Ok(0));
    assert_eq!(buf, [1, 2, 3, 9, 9]);
}

#[test]
fn read_into_an_empty_buffer_asks_for_nothing() {
    let mut r = Trickle::new(&[1]);
    let mut buf = [0u8; 0];
    assert_eq!(read(&mut r, &mut buf), Ok(0));
    assert_eq!(r.reads, 0);
}

#[test]
fn read_hands_on_the_failure_of_the_source() {
    let data = [1u8, 2];
    let mut r = SliceReader::failing(&data, FsError::Corruption);
    let mut buf = [0u8; 2];
    assert_eq!(read(&mut r, &mut buf), Ok(2));
    let mut r = SliceReader::failing(&data, FsError::Corruption);
    let mut buf = [0u8; 3];
    assert_eq!(read(&mut r, &mut buf), Err(FsError::Corruption));
    assert_eq!(buf, [1, 2, 0]);
}

#[test]
fn random_reader_has_the_length_asked_for() {
    let mut r = RandomReader::new(1000);
    assert_eq!(seek_forward(&mut r, 2000, true), Ok(1000));
    let mut empty = RandomReader::new(0);
    assert_eq!(seek_forward(&mut empty, 1, true), Ok(0));
}

#[test]
fn random_reader_is_filled_with_random_bytes() {
    let mut a = RandomReader::new(64);
    let mut b = RandomReader::new(64);
    let first = rest_of(&mut a);
    let second = rest_of(&mut b);
    assert_eq!(first.len(), 64);
    assert!(first.iter().any(|x| *x != 0));
    assert_ne!(first, second);
}

#[test]
fn random_reader_clone_shares_the_bytes_and_starts_over() {
    let mut r = RandomReader::new(300);
    assert_eq!(seek_forward(&mut r, 100, false), Ok(100));
    let mut again = r.clone();
    let tail = rest_of(&mut r);
    let all = rest_of(&mut again);
    assert_eq!(tail.len(), 200);
    assert_eq!(all.len(), 300);
    assert_eq!(all[100..].to_vec(), tail);
}

#[test]
fn random_reader_with_given_bytes_reads_them() {
    let mut r = RandomReader::with_bytes(vec![4, 5, 6]);
    let mut buf = [0u8; 2];
    assert_eq!(r.read(&mut buf), Ok(2));
    assert_eq!(buf, [4, 5]);
    assert_eq!(r.read(&mut buf), Ok(1));
    assert_eq!(buf, [6, 5]);
    assert_eq!(r.read(&mut buf), Ok(0));
}

#[test]
fn random_reader_seeks_from_start_end_and_current() {
    let mut r = RandomReader::with_bytes(pattern(10));
    assert_eq!(r.seek(SeekFrom::Start(4)), Ok(4));
    assert_eq!(rest_of(&mut r.clone()).len(), 10);
    let mut buf = [0u8; 1];
    assert_eq!(r.read(&mut buf), Ok(1));
    assert_eq!(buf, [4]);
    assert_eq!(r.seek(SeekFrom::Current(2)), Ok(7));
    assert_eq!(r.seek(SeekFrom::Current(-7)), Ok(0));
    assert_eq!(r.seek(SeekFrom::End(-3)), Ok(7));
    assert_eq!(r.read(&mut buf), Ok(1));
    assert_eq!(buf, [7]);
    assert_eq!(r.seek(SeekFrom::End(0)), Ok(10));
    assert_eq!(r.read(&mut buf), Ok(0));
    assert_eq!(r.seek(SeekFrom::Start(10)), Ok(10));
}

#[test]
fn random_reader_refuses_a_seek_out_of_bounds() {
    let mut r = RandomReader::with_bytes(pattern(10));
    assert_eq!(r.seek(SeekFrom::Start(3)), Ok(3));
    assert_eq!(r.seek(SeekFrom::Start(11)), Err(FsError::InvalidArgument));
    assert_eq!(r.seek(SeekFrom::Start(u64::MAX)), Err(FsError::InvalidArgument));
    assert_eq!(r.seek(SeekFrom::End(1)), Err(FsError::InvalidArgument));
    assert_eq!(r.seek(SeekFrom::End(-11)), Err(FsError::InvalidArgument));
    assert_eq!(r.seek(SeekFrom::End(i64::MIN)), Err(FsError::InvalidArgument));
    assert_eq!(r.seek(SeekFrom::Current(-4)), Err(FsError::InvalidArgument));
    assert_eq!(r.seek(SeekFrom::Current(8)), Err(FsError::InvalidArgument));
    assert_eq!(r.seek(SeekFrom::Current(i64::MAX)), Err(FsError::InvalidArgument));
    assert_eq!(r.seek(SeekFrom::Current(0)), Ok(3));
}

#[test]
fn bounded_writer_takes_what_fits() {
    let mut w = BoundedWriter::new(5);
    assert_eq!(w.write_all(&[1, 2, 3]), Ok(()));
    assert_eq!(w.write_all(&[]), Ok(()));
    assert_eq!(w.write_all(&[4, 5, 6]), Err(FsError::IoFailure(NO_SPACE)));
    assert_eq!(w.write_all(&[]), Ok(()));
    assert_eq!(w.write_all(&[7]), Err(FsError::IoFailure(NO_SPACE)));
    assert_eq!(w.into_bytes(), vec![1, 2, 3, 4, 5]);
}

#[test]
fn vector_takes_everything() {
    let mut w: Vec<u8> = Vec::new();
    assert_eq!(w.write_all(&[1, 2]), Ok(()));
    assert_eq!(ByteSink::write_all(&mut w, &[3]), Ok(()));
    append_bytes(&mut w, &[4, 5]);
    assert_eq!(w, vec![1, 2, 3, 4, 5]);
}

#[test]
fn slice_reader_gives_short_answers_only_at_the_end() {
    let data = pattern(5);
    let mut r = SliceReader::new(&data);
    let mut buf = [0u8; 3];
    assert_eq!(r.read(&mut buf), Ok(3));
    assert_eq!(buf, [0, 1, 2]);
    assert_eq!(r.read(&mut buf), Ok(2));
    assert_eq!(buf, [3, 4, 2]);
    assert_eq!(r.read(&mut buf), Ok(0));
    let mut none = [0u8; 0];
    let mut f = SliceReader::failing(&data[..0], FsError::Corruption);
    assert_eq!(f.read(&mut none), Ok(0));
    assert_eq!(f.read(&mut buf), Err(FsError::Corruption));
}
