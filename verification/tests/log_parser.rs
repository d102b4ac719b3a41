use chrono::Offset;
use chrono::TimeZone;
use uihlog::log_parser::LogParser;

fn join_fields(fields: &[&[u8]]) -> Vec<u8> {
    let mut out: Vec<u8> = Vec::new();
    for (i, f) in fields.iter().enumerate() {
        if i > 0 {
            out.push(0x02);
        }
        out.extend_from_slice(f);
    }
    out
}

#[test]
fn timezone_parsing() {
    let hour = 3600;
    let minute = 60;
    assert!(LogParser::parse_timezone(&b"+08:00".to_vec()) == 8 * hour);
    assert!(LogParser::parse_timezone(&b"+00:00".to_vec()) == 0 * hour);
    assert!(LogParser::parse_timezone(&b"-00:00".to_vec()) == 0 * hour);
    assert!(LogParser::parse_timezone(&b"-07:30".to_vec()) == -(7 * hour + 30 * minute));
    let local = chrono::offset::Local
        .timestamp_opt(0, 0)
        .unwrap()
        .offset()
        .fix()
        .local_minus_utc();
    assert!(LogParser::parse_timezone(&b"BAD_TZ".to_vec()) == local);
}

#[test]
fn level_parsing() {
    assert!(LogParser::parse_level(&b"LOG_DEV_WARNING".to_vec()) == b"DEV_WARN ".to_vec());
    assert!(LogParser::parse_level(&b"LOG_SVC_INFO".to_vec()) == b"SVC_INFO ".to_vec());
    assert!(LogParser::parse_level(&b"LOG_SVC_ERROR".to_vec()) == b"SVC_ERROR".to_vec());
    assert!(LogParser::parse_level(&b"LOG_SVC_XFILE".to_vec()) == b"UNKNOWN_LEVEL".to_vec());
    assert!(LogParser::parse_level(&b"LOG_SVC".to_vec()) == b"INVALID_LEVEL".to_vec());
    assert!(LogParser::parse_level(&b"LOG_TRACE_INFO".to_vec()) == b"TRACE_INF".to_vec());
}

#[test]
fn src_parsing() {
    assert!(LogParser::parse_src(&b"BAD_SRCPIDTID".to_vec()) == b"INVALID_SRC".to_vec());
    assert!(LogParser::parse_src(&b"SRC/?\\*:(1:2)".to_vec()) == b"SRC_____".to_vec());
}

#[test]
fn pid_parsing() {
    assert!(LogParser::parse_pid(&b"SRC(1:2)".to_vec()) == b"1".to_vec());
    assert!(LogParser::parse_pid(&b"SRC".to_vec()) == b"INVALID_PID".to_vec());
    assert!(LogParser::parse_pid(&b"SRC(1".to_vec()) == b"INVALID_PID".to_vec());
}

#[test]
fn log_parser_it_works() {
    let fields1: Vec<&[u8]> = vec![
        b"LOG_DEV_INFO",
        b"1346714491516",
        b"SRC1(1:2)",
        b"file1.cpp",
        b"128",
        b"FOO1",
        b"0X2001",
        b"DESC1",
        b"1641013262865",
    ];
    let fields2: Vec<&[u8]> = vec![
        b"LOG_DEV_INFO",
        b"1641013262865",
        b"SRC2(3:4)",
        b"file2.cpp",
        b"256",
        b"FOO2",
        b"0X2002",
        b"DESC2\rMORE\nEVEN MORE",
        b"BAD_TIMESTAMP",
    ];
    let fields3: Vec<&[u8]> = vec![
        b"LOG_DEV_INFO",
        b"1641013262865",
        b"SRC3(5:6)",
        b"file3.cpp",
        b"512",
        b"FOO3",
        b"0X2003",
        b"DESC3",
    ];

    let mut logfile: Vec<u8> = Vec::new();
    logfile.extend_from_slice(b"timezone: (UTC+08:00)");
    logfile.extend_from_slice(b"\x03\x0a");
    logfile.extend_from_slice(&join_fields(&fields1));
    logfile.extend_from_slice(b"\x01\x0a");
    logfile.extend_from_slice(&join_fields(&fields2));
    logfile.extend_from_slice(b"\x01\x0a");
    logfile.extend_from_slice(&join_fields(&fields3));
    logfile.extend_from_slice(b"\x01\x0a");

    let mut parser = LogParser::new();
    let lines = parser.parse_sync(&logfile);
    assert!(lines.len() == 2);

    assert!(lines[0].src == b"SRC1".to_vec());
    assert!(lines[0].pid == b"1".to_vec());
    assert!(
        lines[0].content
            == b"DEV_INFO  220101 13:01:02.865 [120904 07:21:31.516] SRC1(1:2) DESC1 [FOO1 file1.cpp 128] [0X2001]\n".to_vec()
    );

    assert!(lines[1].src == b"SRC2".to_vec());
    assert!(lines[1].pid == b"3".to_vec());
    assert!(
        lines[1].content
            == b"DEV_INFO  INVALID_TS [220101 13:01:02.865] SRC2(3:4) DESC2 MORE EVEN MORE [FOO2 file2.cpp 256] [0X2002]\n".to_vec()
    );
}

#[test]
fn no_header_terminator_yields_nothing() {
    let mut parser = LogParser::new();
    let lines = parser.parse_sync(&b"no terminators here at all".to_vec());
    assert!(lines.len() == 0);
    let lines = parser.parse_sync(&Vec::new());
    assert!(lines.len() == 0);
}

#[test]
fn short_record_skipped_rest_decoded() {
    let good: Vec<&[u8]> = vec![
        b"LOG_DEV_INFO",
        b"1641013262865",
        b"SRC(1:2)",
        b"f.cpp",
        b"1",
        b"FOO",
        b"0X1",
        b"DESC",
        b"1641013262865",
    ];
    let mut logfile: Vec<u8> = Vec::new();
    logfile.extend_from_slice(b"(UTC+08:00)");
    logfile.extend_from_slice(b"\x03\x0a");
    logfile.extend_from_slice(b"too\x02few\x02fields");
    logfile.extend_from_slice(b"\x01\x0a");
    logfile.extend_from_slice(b"LOG_ONLY_ONE_FIELD");
    logfile.extend_from_slice(b"\x01\x0a");
    logfile.extend_from_slice(&join_fields(&good));
    logfile.extend_from_slice(b"\x01\x0a");
    let mut parser = LogParser::new();
    let lines = parser.parse_sync(&logfile);
    assert!(lines.len() == 1);
    assert!(lines[0].src == b"SRC".to_vec());
}

#[test]
fn surplus_fields_shift_server_timestamp_to_last() {
    let fields: Vec<&[u8]> = vec![
        b"LOG_DEV_INFO",
        b"1346714491516",
        b"SRC(1:2)",
        b"f.cpp",
        b"1",
        b"FOO",
        b"0X1",
        b"A\x02B",
        b"1641013262865",
    ];
    let mut logfile: Vec<u8> = Vec::new();
    logfile.extend_from_slice(b"(UTC+08:00)");
    logfile.extend_from_slice(b"\x03\x0a");
    logfile.extend_from_slice(&join_fields(&fields));
    logfile.extend_from_slice(b"\x01\x0a");
    let mut parser = LogParser::new();
    let lines = parser.parse_sync(&logfile);
    assert!(lines.len() == 1);
    // ten fields: the server timestamp comes from the last field, and the
    // description shows the fixed eighth field only
    assert!(
        lines[0].content
            == b"DEV_INFO  220101 13:01:02.865 [120904 07:21:31.516] SRC(1:2) A [FOO f.cpp 1] [0X1]\n".to_vec()
    );
}

#[test]
fn same_seconds_share_rendered_prefix() {
    let rec1: Vec<&[u8]> = vec![
        b"LOG_DEV_INFO",
        b"1641013262111",
        b"SRC(1:2)",
        b"f.cpp",
        b"1",
        b"FOO",
        b"0X1",
        b"D1",
        b"1641013262865",
    ];
    let rec2: Vec<&[u8]> = vec![
        b"LOG_DEV_INFO",
        b"1641013262222",
        b"SRC(1:2)",
        b"f.cpp",
        b"2",
        b"FOO",
        b"0X1",
        b"D2",
        b"1641013262999",
    ];
    let mut logfile: Vec<u8> = Vec::new();
    logfile.extend_from_slice(b"(UTC+08:00)");
    logfile.extend_from_slice(b"\x03\x0a");
    logfile.extend_from_slice(&join_fields(&rec1));
    logfile.extend_from_slice(b"\x01\x0a");
    logfile.extend_from_slice(&join_fields(&rec2));
    logfile.extend_from_slice(b"\x01\x0a");
    let mut parser = LogParser::new();
    let lines = parser.parse_sync(&logfile);
    assert!(lines.len() == 2);
    // all four timestamps share the same integer seconds: the rendered
    // prefixes agree and only the millisecond suffixes differ
    assert!(lines[0].content.starts_with(b"DEV_INFO  220101 13:01:02.865 [220101 13:01:02.111]"));
    assert!(lines[1].content.starts_with(b"DEV_INFO  220101 13:01:02.999 [220101 13:01:02.222]"));
}

#[test]
fn record_terminator_inside_description() {
    // a bare record terminator inside free text does not end the record:
    // only the terminator followed by the literal tag does
    let mut logfile: Vec<u8> = Vec::new();
    logfile.extend_from_slice(b"(UTC+08:00)");
    logfile.extend_from_slice(b"\x03\x0a");
    let fields: Vec<&[u8]> = vec![
        b"LOG_DEV_INFO",
        b"1641013262865",
        b"SRC(1:2)",
        b"f.cpp",
        b"1",
        b"FOO",
        b"0X1",
        b"stray\x01\x0ainside",
        b"1641013262865",
    ];
    logfile.extend_from_slice(&join_fields(&fields));
    logfile.extend_from_slice(b"\x01\x0a");
    let second: Vec<&[u8]> = vec![
        b"LOG_DEV_INFO",
        b"1641013262865",
        b"SRC2(3:4)",
        b"g.cpp",
        b"2",
        b"BAR",
        b"0X2",
        b"plain",
        b"1641013262865",
    ];
    logfile.extend_from_slice(&join_fields(&second));
    logfile.extend_from_slice(b"\x01\x0a");
    let mut parser = LogParser::new();
    let lines = parser.parse_sync(&logfile);
    assert!(lines.len() == 2);
    assert!(lines[0].src == b"SRC".to_vec());
    assert!(lines[1].src == b"SRC2".to_vec());
}
