use uihlog::cached_writer::CachedWriter;
use uihlog::cached_writer::FileWriter;
use uihlog::mem_writer::MemFileWriter;

#[test]
fn cached_writer_it_works() {
    let token = b"BAR".to_vec();
    let filepath = b"FOO\\BAR.txt".to_vec();
    let mem = MemFileWriter::new();
    let mut cached_writer = CachedWriter::new(b"FOO\\".to_vec(), mem);
    let data = vec![0u8; 1024];

    for _ in 0..(1024 * 2 - 1) {
        cached_writer.write(&token, &data).unwrap();
    }
    assert!(cached_writer.writer().file_exists(&filepath) == false);

    for _ in 0..2 {
        cached_writer.write(&token, &data).unwrap();
    }
    assert!(cached_writer.writer().get_file_length(&filepath) == (1024 * 2 + 1) * 1024);
    assert!(cached_writer.writer().get_file_written_times(&filepath) == 1);

    cached_writer.write(&token, &data).unwrap();
    cached_writer.flush().unwrap();
    assert!(cached_writer.writer().get_file_length(&filepath) == (1024 * 2 + 2) * 1024);
    assert!(cached_writer.writer().get_file_written_times(&filepath) == 2);
}

#[test]
fn flush_with_no_pending_data_writes_nothing() {
    let token = b"KEY".to_vec();
    let filepath = b"OUT\\KEY.txt".to_vec();
    let mem = MemFileWriter::new();
    let mut cached_writer = CachedWriter::new(b"OUT\\".to_vec(), mem);
    let data = vec![7u8; 16];

    // nothing pending at all: no destination ever appears
    cached_writer.flush().unwrap();
    assert!(cached_writer.writer().file_exists(&filepath) == false);

    cached_writer.write(&token, &data).unwrap();
    cached_writer.flush().unwrap();
    assert!(cached_writer.writer().get_file_length(&filepath) == 16);
    assert!(cached_writer.writer().get_file_written_times(&filepath) == 1);

    // a second flush with no intervening writes performs no physical write
    cached_writer.flush().unwrap();
    assert!(cached_writer.writer().get_file_written_times(&filepath) == 1);
}

#[test]
fn second_flush_appends() {
    let token = b"K".to_vec();
    let filepath = b"D\\K.txt".to_vec();
    let mem = MemFileWriter::new();
    let mut cached_writer = CachedWriter::new(b"D\\".to_vec(), mem);

    cached_writer.write(&token, &b"one".to_vec()).unwrap();
    cached_writer.flush().unwrap();
    cached_writer.write(&token, &b"two".to_vec()).unwrap();
    cached_writer.flush().unwrap();
    assert!(cached_writer.writer().get_file_length(&filepath) == 6);
    assert!(cached_writer.writer().get_file_written_times(&filepath) == 2);
}

#[test]
fn append_to_missing_destination_is_an_error() {
    let mut mem = MemFileWriter::new();
    let r = mem.write(&b"nowhere.txt".to_vec(), &b"x".to_vec(), true);
    assert!(r.is_err());
    let r = mem.write(&b"somewhere.txt".to_vec(), &b"x".to_vec(), false);
    assert!(r.is_ok());
    let r = mem.write(&b"somewhere.txt".to_vec(), &b"y".to_vec(), true);
    assert!(r.is_ok());
    assert!(mem.get_file_length(&b"somewhere.txt".to_vec()) == 2);
}
