use ws_parse_demo::extractor::{read_buf, Data, Extractor, FieldError};

fn frame_lines(
    src_port: &str,
    dst_port: &str,
    src: &str,
    dst: &str,
    time: &str,
    payload: &str,
) -> Vec<String> {
    vec![
        "  {".to_string(),
        "    \"_index\": \"packets-2023-01-01\",".to_string(),
        "    \"_source\": {".to_string(),
        "      \"layers\": {".to_string(),
        "        \"frame\": {".to_string(),
        format!("          \"frame.time_relative\": \"{}\",", time),
        "          \"frame.len\": \"94\",".to_string(),
        "        },".to_string(),
        "        \"ip\": {".to_string(),
        format!("          \"ip.src\": \"{}\",", src),
        format!("          \"ip.dst\": \"{}\",", dst),
        "        },".to_string(),
        "        \"udp\": {".to_string(),
        format!("          \"udp.srcport\": \"{}\",", src_port),
        format!("          \"udp.dstport\": \"{}\",", dst_port),
        format!("          \"udp.payload\": \"{}\"", payload),
        "        }".to_string(),
        "      }".to_string(),
        "    }".to_string(),
        "  },".to_string(),
    ]
}

fn hex_payload(bytes: &[u8]) -> String {
    bytes.iter().map(|b| format!("{:02x}", b)).collect::<Vec<_>>().join(":")
}

fn lines_of(text: &[&str]) -> Vec<String> {
    text.iter().map(|l| l.to_string()).collect()
}

fn run(lines: &[String]) -> Vec<Data> {
    read_buf(&lines.to_vec()).unwrap()
}

fn fixture() -> Vec<String> {
    let mut lines = vec!["[".to_string()];
    let first: Vec<u8> = (0..52u8).collect();
    lines.extend(frame_lines(
        "10023",
        "50576",
        "10.0.0.50",
        "10.10.0.6",
        "1.796723000",
        &hex_payload(&first),
    ));
    for i in 1..282u32 {
        let payload: Vec<u8> = (0..(8 + i % 40)).map(|b| (b * 7 + i) as u8).collect();
        lines.extend(frame_lines(
            &format!("{}", 10000 + i),
            "50576",
            "10.0.0.50",
            "10.10.0.6",
            &format!("{}.000100000", i + 1),
            &hex_payload(&payload),
        ));
    }
    lines.push("]".to_string());
    lines
}

#[test]
fn test_read_file() {
    let data = run(&fixture());
    assert_eq!(data.len(), 282);
    let first = data.first().unwrap();
    assert_eq!(first.src_port, 10023);
    assert_eq!(first.dst_port, 50576);
    assert_eq!(first.src_addr, "10.0.0.50");
    assert_eq!(first.dst_addr, "10.10.0.6");
    assert_eq!(first.time.parse::<f64>().unwrap(), 1.796723000);
    assert_eq!(first.data.len(), 52);
}

#[test]
fn fixture_records_keep_payload_bytes() {
    let data = run(&fixture());
    let first: Vec<u8> = (0..52u8).collect();
    assert_eq!(data[0].data, first);
    assert_eq!(data[0].time, "1.796723000");
    assert_eq!(data[281].src_port, 10281);
}

#[test]
fn empty_input_gives_no_record() {
    assert!(run(&[]).is_empty());
}

#[test]
fn boundary_then_payload_gives_no_record() {
    let lines = lines_of(&["\"frame\": {", "\"udp.payload\": \"4a:ff:00\","]);
    assert!(run(&lines).is_empty());
}

#[test]
fn fields_in_any_order_give_one_record() {
    let lines = lines_of(&[
        "\"frame\": {",
        "\"udp.srcport\": \"10023\",",
        "\"udp.dstport\": \"50576\",",
        "\"ip.src\": \"10.0.0.50\",",
        "\"ip.dst\": \"10.10.0.6\",",
        "\"frame.time_relative\": \"1.796723000\",",
        "\"udp.payload\": \"4a:ff:00\",",
    ]);
    let data = run(&lines);
    assert_eq!(data.len(), 1);
    assert_eq!(data[0].data, vec![0x4a, 0xff, 0x00]);
    assert_eq!(data[0].src_port, 10023);
    assert_eq!(data[0].dst_port, 50576);
    assert_eq!(data[0].src_addr, "10.0.0.50");
    assert_eq!(data[0].dst_addr, "10.10.0.6");
    assert_eq!(data[0].time, "1.796723000");
}

#[test]
fn boundary_clears_filled_slots() {
    let lines = lines_of(&[
        "\"udp.srcport\": \"1\",",
        "\"udp.dstport\": \"2\",",
        "\"ip.src\": \"a\",",
        "\"ip.dst\": \"b\",",
        "\"frame.time_relative\": \"0.5\",",
        "\"frame\": {",
        "\"udp.srcport\": \"3\",",
        "\"udp.payload\": \"01\",",
    ]);
    assert!(run(&lines).is_empty());
}

#[test]
fn second_payload_after_record_gives_nothing() {
    let lines = lines_of(&[
        "\"udp.srcport\": \"1\",",
        "\"udp.dstport\": \"2\",",
        "\"ip.src\": \"a\",",
        "\"ip.dst\": \"b\",",
        "\"frame.time_relative\": \"0.5\",",
        "\"udp.payload\": \"01\",",
        "\"udp.payload\": \"02\",",
    ]);
    let data = run(&lines);
    assert_eq!(data.len(), 1);
    assert_eq!(data[0].data, vec![1]);
}

#[test]
fn step_reports_record_and_empties_slots() {
    let mut ex = Extractor::new();
    for l in [
        "\"udp.srcport\": \"1\",",
        "\"udp.dstport\": \"2\",",
        "\"ip.src\": \"a\",",
        "\"ip.dst\": \"b\",",
        "\"frame.time_relative\": \"0.5\",",
    ] {
        assert_eq!(ex.feed(l).unwrap().is_none(), true);
    }
    let d = ex.feed("\"udp.payload\": \"0a:0B\",").unwrap().unwrap();
    assert_eq!(d.data, vec![10, 11]);
    assert!(ex.feed("\"udp.payload\": \"0a\",").unwrap().is_none());
}

#[test]
fn malformed_payload_is_skipped_and_slots_kept() {
    let lines = lines_of(&[
        "\"udp.srcport\": \"1\",",
        "\"udp.dstport\": \"2\",",
        "\"ip.src\": \"a\",",
        "\"ip.dst\": \"b\",",
        "\"frame.time_relative\": \"0.5\",",
        "\"udp.payload\": \"01:zz:02\",",
        "\"udp.payload\": \"03\",",
    ]);
    let data = run(&lines);
    assert_eq!(data.len(), 1);
    assert_eq!(data[0].data, vec![3]);
    assert_eq!(data[0].src_port, 1);
}

#[test]
fn payload_pieces_read_as_std_reads_bytes() {
    let lines = lines_of(&[
        "\"udp.srcport\": \"1\",",
        "\"udp.dstport\": \"2\",",
        "\"ip.src\": \"a\",",
        "\"ip.dst\": \"b\",",
        "\"frame.time_relative\": \"0.5\",",
        "\"udp.payload\": \"+4a:0ff:7\",",
    ]);
    assert_eq!(run(&lines)[0].data, vec![0x4a, 0xff, 0x07]);
}

#[test]
fn payload_piece_over_a_byte_is_skipped() {
    for bad in ["100", "", "4a:", "+", "-1", "4a::ff"] {
        let payload = format!("\"udp.payload\": \"{}\",", bad);
        let lines = vec![
            "\"udp.srcport\": \"1\",".to_string(),
            "\"udp.dstport\": \"2\",".to_string(),
            "\"ip.src\": \"a\",".to_string(),
            "\"ip.dst\": \"b\",".to_string(),
            "\"frame.time_relative\": \"0.5\",".to_string(),
            payload,
        ];
        assert!(run(&lines).is_empty(), "payload {:?}", bad);
    }
}

#[test]
fn unclosed_payload_gives_no_record() {
    let lines = lines_of(&[
        "\"udp.srcport\": \"1\",",
        "\"udp.dstport\": \"2\",",
        "\"ip.src\": \"a\",",
        "\"ip.dst\": \"b\",",
        "\"frame.time_relative\": \"0.5\",",
        "\"udp.payload\": \"01:02",
        "\"udp.payload\": \"05\"",
    ]);
    let data = run(&lines);
    assert_eq!(data.len(), 1);
    assert_eq!(data[0].data, vec![5]);
}

#[test]
fn last_capture_wins() {
    let lines = lines_of(&[
        "\"udp.srcport\": \"1\",",
        "\"udp.srcport\": \"65535\",",
        "\"udp.dstport\": \"+80\",",
        "\"ip.src\": \"a\",",
        "\"ip.dst\": \"b\", \"ip.src\": \"c\"",
        "\"frame.time_relative\": \"0.5\",",
        "\"udp.payload\": \"ff\",",
    ]);
    let data = run(&lines);
    assert_eq!(data[0].src_port, 65535);
    assert_eq!(data[0].dst_port, 80);
    assert_eq!(data[0].src_addr, "c");
}

#[test]
fn unclosed_field_value_is_ignored() {
    let lines = lines_of(&[
        "\"udp.srcport\": \"1\",",
        "\"udp.srcport\": \"2",
        "\"udp.dstport\": \"2\",",
        "\"ip.src\": \"a\",",
        "\"ip.dst\": \"b\",",
        "\"frame.time_relative\": \"0.5\",",
        "\"udp.payload\": \"ff\",",
    ]);
    assert_eq!(run(&lines)[0].src_port, 1);
}

#[test]
fn bad_source_port_is_an_error() {
    let lines = lines_of(&[
        "\"udp.srcport\": \"65536\",",
        "\"udp.dstport\": \"x\",",
        "\"ip.src\": \"a\",",
        "\"ip.dst\": \"b\",",
        "\"frame.time_relative\": \"0.5\",",
        "\"udp.payload\": \"ff\",",
    ]);
    assert!(matches!(read_buf(&lines), Err(FieldError::SrcPort)));
}

#[test]
fn bad_destination_port_is_an_error() {
    let lines = lines_of(&[
        "\"udp.srcport\": \"7\",",
        "\"udp.dstport\": \"-1\",",
        "\"ip.src\": \"a\",",
        "\"ip.dst\": \"b\",",
        "\"frame.time_relative\": \"0.5\",",
        "\"udp.payload\": \"ff\",",
    ]);
    assert!(matches!(read_buf(&lines), Err(FieldError::DstPort)));
}

#[test]
fn records_follow_payload_order() {
    let mut lines = Vec::new();
    for (i, p) in ["01", "02", "03"].iter().enumerate() {
        let port = format!("{}", i + 1);
        lines.extend(frame_lines(&port, "9", "s", "d", "0.1", p));
    }
    let data = run(&lines);
    let payloads: Vec<Vec<u8>> = data.iter().map(|d| d.data.clone()).collect();
    assert_eq!(payloads, vec![vec![1], vec![2], vec![3]]);
    let ports: Vec<u16> = data.iter().map(|d| d.src_port).collect();
    assert_eq!(ports, vec![1, 2, 3]);
}

#[test]
fn two_passes_agree() {
    let lines = fixture();
    let a = run(&lines);
    let b = run(&lines);
    assert_eq!(a.len(), b.len());
    for (x, y) in a.iter().zip(b.iter()) {
        assert_eq!(x.data, y.data);
        assert_eq!(x.src_port, y.src_port);
        assert_eq!(x.dst_port, y.dst_port);
        assert_eq!(x.src_addr, y.src_addr);
        assert_eq!(x.dst_addr, y.dst_addr);
        assert_eq!(x.time, y.time);
    }
}

#[test]
fn frames_without_decodable_payload_are_not_counted() {
    let mut lines = Vec::new();
    lines.extend(frame_lines("1", "2", "s", "d", "0.1", "01"));
    lines.extend(frame_lines("1", "2", "s", "d", "0.2", "0g"));
    lines.extend(frame_lines("1", "2", "s", "d", "0.3", "03"));
    let data = run(&lines);
    assert_eq!(data.len(), 2);
    assert_eq!(data[1].time, "0.3");
}
