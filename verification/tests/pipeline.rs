use uihlog::cached_writer::CachedWriter;
use uihlog::folder_parser::dispatch_lines;
use uihlog::folder_parser::render_all;
use uihlog::log_parser::LogParser;
use uihlog::mem_writer::MemFileWriter;
use uihlog::sorted_file_list::SortedFileList;

fn one_record_file(desc: &[u8], server_ts: &[u8]) -> Vec<u8> {
    let mut f: Vec<u8> = Vec::new();
    f.extend_from_slice(b"(UTC+08:00)");
    f.extend_from_slice(b"\x03\x0a");
    f.extend_from_slice(b"LOG_DEV_INFO\x021641013262111\x02SRC(1:2)\x02f.cpp\x021\x02FOO\x020X1\x02");
    f.extend_from_slice(desc);
    f.push(0x02);
    f.extend_from_slice(server_ts);
    f.extend_from_slice(b"\x01\x0a");
    f
}

#[test]
fn records_of_one_source_keep_file_id_order() {
    // two sequential input files hold one record each for the same source;
    // the output file must show them in numeric file id order
    let files = vec![br"run\10.uihlog".to_vec(), br"run\2.uihlog".to_vec()];
    let mut sfl = SortedFileList::new(files);
    assert!(sfl.next().unwrap() == br"run\2.uihlog".to_vec());
    assert!(sfl.next().unwrap() == br"run\10.uihlog".to_vec());

    // in that order, file 2 first: each decode task gets its own decoder
    let buf_first = one_record_file(b"FROM-FILE-2", b"1641013262865");
    let buf_second = one_record_file(b"FROM-FILE-10", b"1641013262999");
    let mut p1 = LogParser::new();
    let batch_first = p1.parse_sync(&buf_first);
    let mut p2 = LogParser::new();
    let batch_second = p2.parse_sync(&buf_second);

    let mem = MemFileWriter::new();
    let mut out = CachedWriter::new(br"run\".to_vec(), mem);
    dispatch_lines(&mut out, &batch_first, true).unwrap();
    dispatch_lines(&mut out, &batch_second, true).unwrap();
    out.flush().unwrap();

    let mut expected: Vec<u8> = Vec::new();
    expected.extend_from_slice(
        b"DEV_INFO  220101 13:01:02.865 [220101 13:01:02.111] SRC(1:2) FROM-FILE-2 [FOO f.cpp 1] [0X1]\n",
    );
    expected.extend_from_slice(
        b"DEV_INFO  220101 13:01:02.999 [220101 13:01:02.111] SRC(1:2) FROM-FILE-10 [FOO f.cpp 1] [0X1]\n",
    );

    let src_path = br"run\SRC.txt".to_vec();
    assert!(out.writer().file_exists(&src_path));
    assert!(out.writer().get_file_content(&src_path) == expected);

    // the process key received the same two lines, in the same order
    let pid_path = br"run\1.txt".to_vec();
    assert!(out.writer().file_exists(&pid_path));
    assert!(out.writer().get_file_content(&pid_path) == expected);
}

#[test]
fn render_all_concatenates_in_order() {
    let mut buf = one_record_file(b"D1", b"1641013262865");
    // append a second record to the same file
    buf.extend_from_slice(b"LOG_DEV_INFO\x021641013262111\x02SRC(1:2)\x02f.cpp\x022\x02FOO\x020X1\x02D2\x021641013262999");
    buf.extend_from_slice(b"\x01\x0a");
    let mut parser = LogParser::new();
    let lines = parser.parse_sync(&buf);
    assert!(lines.len() == 2);
    let joined = render_all(&lines);
    let mut expected = lines[0].content.clone();
    expected.extend_from_slice(&lines[1].content);
    assert!(joined == expected);
    assert!(joined.starts_with(b"DEV_INFO  220101 13:01:02.865"));
}
