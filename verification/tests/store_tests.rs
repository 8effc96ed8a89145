use fwconsole::rule::{encode_rules_vec, parse_rule_line, parse_rules_vec, Rule};
use fwconsole::store::RuleStore;

const HEADER: &[u8] = b"src_ip,dst_ip,src_port,dst_port,protocol,flow_direction,action,log";

fn file_with_rows(rows: &[&[u8]]) -> Vec<u8> {
    let mut out: Vec<u8> = Vec::new();
    out.extend_from_slice(HEADER);
    out.push(b'\n');
    for row in rows {
        out.extend_from_slice(row);
        out.push(b'\n');
    }
    out
}

#[test]
fn load_single_rule_action_one() {
    let content = file_with_rows(&[b"10.0.0.1,10.0.0.2,80,443,6,0,1,0"]);
    let store = RuleStore::load(Some(&content));
    assert_eq!(store.rules.len(), 1);
    let r = &store.rules[0];
    assert_eq!(r.src_ip, b"10.0.0.1".to_vec());
    assert_eq!(r.dst_ip, b"10.0.0.2".to_vec());
    assert_eq!(r.src_port, 80);
    assert_eq!(r.dst_port, 443);
    assert_eq!(r.protocol, 6);
    assert_eq!(r.flow_direction, 0);
    assert_eq!(r.action, 1);
    assert_eq!(r.log, 0);
}

#[test]
fn missing_file_loads_empty() {
    let store = RuleStore::load(None);
    assert_eq!(store.rules.len(), 0);
}

#[test]
fn corrupt_file_loads_empty() {
    let store = RuleStore::load(Some(b"not,a,rule,file\ngarbage"));
    assert_eq!(store.rules.len(), 0);
}

#[test]
fn one_bad_row_discards_whole_rule_file() {
    let content = file_with_rows(&[
        b"10.0.0.1,10.0.0.2,80,443,6,0,1,0",
        b"10.0.0.1,10.0.0.2,80,443,6,0",
    ]);
    let store = RuleStore::load(Some(&content));
    assert_eq!(store.rules.len(), 0);
}

#[test]
fn header_only_loads_zero_rules() {
    let content = file_with_rows(&[]);
    let store = RuleStore::load(Some(&content));
    assert_eq!(store.rules.len(), 0);
}

#[test]
fn add_then_save_produces_two_row_file() {
    let content = file_with_rows(&[b"10.0.0.1,10.0.0.2,80,443,6,0,1,0"]);
    let mut store = RuleStore::load(Some(&content));
    store.add();
    assert_eq!(store.rules.len(), 2);
    let bytes = store.save_content().unwrap();
    let expected = file_with_rows(&[b"10.0.0.1,10.0.0.2,80,443,6,0,1,0", b",,0,0,0,0,0,0"]);
    assert_eq!(bytes, expected);
}

#[test]
fn remove_first_of_two_persists_only_second() {
    let content = file_with_rows(&[b"10.0.0.1,10.0.0.2,80,443,6,0,1,0"]);
    let mut store = RuleStore::load(Some(&content));
    store.add();
    store.remove_indices(&vec![0]);
    let bytes = store.save_content().unwrap();
    let expected = file_with_rows(&[b",,0,0,0,0,0,0"]);
    assert_eq!(bytes, expected);
}

#[test]
fn save_then_load_round_trips() {
    let content = file_with_rows(&[
        b"192.168.0.1,10.1.2.3,65535,0,17,1,2,1",
        b",,0,0,0,0,0,0",
        b"8.8.8.8,1.1.1.1,53,53,255,0,1,1",
    ]);
    let store = RuleStore::load(Some(&content));
    assert_eq!(store.rules.len(), 3);
    let bytes = store.save_content().unwrap();
    assert_eq!(bytes, content);
    let again = RuleStore::load(Some(&bytes));
    assert_eq!(again.rules.len(), 3);
    for (a, b) in store.rules.iter().zip(again.rules.iter()) {
        assert_eq!(a.src_ip, b.src_ip);
        assert_eq!(a.dst_ip, b.dst_ip);
        assert_eq!(a.src_port, b.src_port);
        assert_eq!(a.dst_port, b.dst_port);
        assert_eq!(a.protocol, b.protocol);
        assert_eq!(a.flow_direction, b.flow_direction);
        assert_eq!(a.action, b.action);
        assert_eq!(a.log, b.log);
    }
}

#[test]
fn removal_ignores_index_order_and_repetitions() {
    let content = file_with_rows(&[
        b"1.1.1.1,2.2.2.2,1,1,1,0,0,0",
        b"3.3.3.3,4.4.4.4,2,2,2,0,0,0",
        b"5.5.5.5,6.6.6.6,3,3,3,0,0,0",
        b"7.7.7.7,8.8.8.8,4,4,4,0,0,0",
    ]);
    let mut a = RuleStore::load(Some(&content));
    let mut b = RuleStore::load(Some(&content));
    a.remove_indices(&vec![0, 2]);
    b.remove_indices(&vec![2, 0, 2]);
    assert_eq!(a.rules.len(), 2);
    assert_eq!(b.rules.len(), 2);
    assert_eq!(a.rules[0].src_ip, b"3.3.3.3".to_vec());
    assert_eq!(a.rules[1].src_ip, b"7.7.7.7".to_vec());
    assert_eq!(b.rules[0].src_ip, b"3.3.3.3".to_vec());
    assert_eq!(b.rules[1].src_ip, b"7.7.7.7".to_vec());
}

#[test]
fn removal_ignores_positions_past_the_end() {
    let content = file_with_rows(&[b"1.1.1.1,2.2.2.2,1,1,1,0,0,0"]);
    let mut store = RuleStore::load(Some(&content));
    store.remove_indices(&vec![5]);
    assert_eq!(store.rules.len(), 1);
}

#[test]
fn save_rejects_separator_in_address_field() {
    let mut store = RuleStore::new();
    store.add();
    store.rules[0].src_ip = b"1.2,3.4".to_vec();
    let err = store.save_content().unwrap_err();
    assert_eq!(err, fwconsole::error::FwError::SerializationError);
}

#[test]
fn parse_rule_line_rejects_out_of_range_numbers() {
    assert!(parse_rule_line(b"a,b,65536,0,0,0,0,0").is_none());
    assert!(parse_rule_line(b"a,b,65535,0,256,0,0,0").is_none());
    assert!(parse_rule_line(b"a,b,65535,0,255,0,0,0").is_some());
    assert!(parse_rule_line(b"a,b,-1,0,0,0,0,0").is_none());
    assert!(parse_rule_line(b"a,b,,0,0,0,0,0").is_none());
}

#[test]
fn encode_uses_fixed_header_and_row_order() {
    let rules = vec![
        Rule {
            src_ip: b"10.0.0.1".to_vec(),
            dst_ip: b"10.0.0.2".to_vec(),
            src_port: 80,
            dst_port: 443,
            protocol: 6,
            flow_direction: 0,
            action: 1,
            log: 0,
        },
    ];
    let bytes = encode_rules_vec(&rules);
    let expected = file_with_rows(&[b"10.0.0.1,10.0.0.2,80,443,6,0,1,0"]);
    assert_eq!(bytes, expected);
}

#[test]
fn parse_rules_accepts_file_without_final_newline() {
    let mut content = file_with_rows(&[b"10.0.0.1,10.0.0.2,80,443,6,0,1,0"]);
    content.pop();
    let rules = parse_rules_vec(&content).unwrap();
    assert_eq!(rules.len(), 1);
    assert_eq!(rules[0].action, 1);
}
