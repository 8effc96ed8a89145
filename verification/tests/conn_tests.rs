use fwconsole::conn::{parse_conn_line, refresh_from_content, refresh_report};
use fwconsole::error::FwError;

const HEADER: &[u8] = b"src_ip,dst_ip,src_port,dst_port,proto,state,last_seen";

fn table_with_rows(rows: &[&[u8]]) -> Vec<u8> {
    let mut out: Vec<u8> = Vec::new();
    out.extend_from_slice(HEADER);
    out.push(b'\n');
    for row in rows {
        out.extend_from_slice(row);
        out.push(b'\n');
    }
    out
}

#[test]
fn malformed_row_between_two_good_rows_is_isolated() {
    let content = table_with_rows(&[
        b"10.0.0.1,10.0.0.2,80,443,TCP,1,12:00:01",
        b"this row is broken",
        b"10.0.0.3,10.0.0.4,22,2222,TCP,2,12:00:02",
    ]);
    let (conns, skipped) = refresh_from_content(Some(&content));
    assert_eq!(conns.len(), 2);
    assert_eq!(skipped, 1);
    assert_eq!(conns[0].src_ip, b"10.0.0.1".to_vec());
    assert_eq!(conns[0].src_port, 80);
    assert_eq!(conns[1].src_ip, b"10.0.0.3".to_vec());
    assert_eq!(conns[1].dst_port, 2222);
}

#[test]
fn skipped_rows_are_reported_as_partial_data() {
    let content = table_with_rows(&[b"bad row", b"10.0.0.1,10.0.0.2,80,443,TCP,1,t"]);
    let (conns, skipped) = refresh_from_content(Some(&content));
    assert_eq!(conns.len(), 1);
    assert_eq!(skipped, 1);
    assert_eq!(refresh_report(skipped), Some(FwError::PartialDataError));
    assert_eq!(refresh_report(0), None);
}

#[test]
fn missing_table_yields_empty_snapshot() {
    let (conns, skipped) = refresh_from_content(None);
    assert_eq!(conns.len(), 0);
    assert_eq!(skipped, 0);
}

#[test]
fn wrong_header_yields_empty_snapshot() {
    let (conns, skipped) = refresh_from_content(Some(b"some,other,header\na,b,1,2,TCP,1,t\n"));
    assert_eq!(conns.len(), 0);
    assert_eq!(skipped, 0);
}

#[test]
fn connection_fields_are_carried_through() {
    let c = parse_conn_line(b"1.2.3.4,5.6.7.8,65535,1,UDP,255,2024-01-01 00:00").unwrap();
    assert_eq!(c.src_ip, b"1.2.3.4".to_vec());
    assert_eq!(c.dst_ip, b"5.6.7.8".to_vec());
    assert_eq!(c.src_port, 65535);
    assert_eq!(c.dst_port, 1);
    assert_eq!(c.proto, b"UDP".to_vec());
    assert_eq!(c.state, 255);
    assert_eq!(c.last_seen, b"2024-01-01 00:00".to_vec());
}

#[test]
fn connection_row_needs_exactly_seven_fields() {
    assert!(parse_conn_line(b"a,b,1,2,TCP,1").is_none());
    assert!(parse_conn_line(b"a,b,1,2,TCP,1,t,extra").is_none());
    assert!(parse_conn_line(b"a,b,1,2,TCP,256,t").is_none());
    assert!(parse_conn_line(b"a,b,99999,2,TCP,1,t").is_none());
}
