use kwctl::error::ProxyError;
use kwctl::index::Index;
use kwctl::outcome::{encode_record, read_entry, CapabilityOutcome, SessionEntry};
use kwctl::session::{parse_session, write_session};
use kwctl::wire::{put_netstring, put_number, read_netstring, read_number, Scan};

fn entry(key: &[u8], sequence: u64, outcome: CapabilityOutcome) -> SessionEntry {
    SessionEntry { key: key.to_vec(), sequence, outcome }
}

#[test]
fn number_is_written_in_decimal() {
    let mut out = Vec::new();
    put_number(&mut out, 0, b' ');
    put_number(&mut out, 7, b':');
    put_number(&mut out, 1203, b' ');
    put_number(&mut out, u64::MAX, b':');
    assert_eq!(out, b"0 7:1203 18446744073709551615:".to_vec());
}

#[test]
fn number_is_read_back() {
    assert_eq!(read_number(b"1203 rest", 0, b' '), Scan::Done { value: 1203, next: 5 });
    assert_eq!(read_number(b"xx42:", 2, b':'), Scan::Done { value: 42, next: 5 });
    assert_eq!(
        read_number(b"18446744073709551615:", 0, b':'),
        Scan::Done { value: u64::MAX, next: 21 }
    );
}

#[test]
fn number_too_large_is_corrupt() {
    assert_eq!(read_number(b"18446744073709551616:", 0, b':'), Scan::Corrupt);
    assert_eq!(read_number(b"99999999999999999999999", 0, b':'), Scan::Corrupt);
}

#[test]
fn number_without_end_is_truncated() {
    assert_eq!(read_number(b"120", 0, b' '), Scan::Truncated);
    assert_eq!(read_number(b"", 0, b' '), Scan::Truncated);
    assert_eq!(read_number(b"12", 2, b' '), Scan::Truncated);
}

#[test]
fn number_with_wrong_byte_is_corrupt() {
    assert_eq!(read_number(b"12x", 0, b' '), Scan::Corrupt);
    assert_eq!(read_number(b" 12", 0, b' '), Scan::Corrupt);
    assert_eq!(read_number(b"-1 ", 0, b' '), Scan::Corrupt);
}

#[test]
fn netstring_is_written_with_its_length() {
    let mut out = Vec::new();
    put_netstring(&mut out, b"");
    put_netstring(&mut out, b"list");
    put_netstring(&mut out, b"a,b:c\n");
    assert_eq!(out, b"0:,4:list,6:a,b:c\n,".to_vec());
}

#[test]
fn netstring_is_read_back() {
    assert_eq!(read_netstring(b"4:list,", 0), Scan::Done { value: b"list".to_vec(), next: 7 });
    assert_eq!(read_netstring(b"0:,x", 0), Scan::Done { value: Vec::new(), next: 3 });
    assert_eq!(read_netstring(b"..6:a,b:c\n,", 2), Scan::Done { value: b"a,b:c\n".to_vec(), next: 11 });
}

#[test]
fn netstring_cut_short_is_truncated() {
    let whole = b"4:list,";
    for n in 0..whole.len() {
        assert_eq!(read_netstring(&whole[..n], 0), Scan::Truncated);
    }
}

#[test]
fn netstring_without_comma_is_corrupt() {
    assert_eq!(read_netstring(b"4:list;", 0), Scan::Corrupt);
    assert_eq!(read_netstring(b"4 list,", 0), Scan::Corrupt);
    assert_eq!(read_netstring(b":list,", 0), Scan::Corrupt);
}

#[test]
fn record_of_a_success() {
    let outcome = CapabilityOutcome::success(b"[\"pod-a\",\"pod-b\"]");
    let record = encode_record(b"12:cluster.pods,4:list,", 3, &outcome);
    assert_eq!(record, b"S3 23:12:cluster.pods,4:list,,17:[\"pod-a\",\"pod-b\"],\n".to_vec());
}

#[test]
fn record_of_a_failure() {
    let outcome = CapabilityOutcome::failure(b"timeout", b"no answer");
    let record = encode_record(b"k", 10, &outcome);
    assert_eq!(record, b"F10 1:k,7:timeout,9:no answer,\n".to_vec());
}

#[test]
fn record_is_read_back() {
    let outcome = CapabilityOutcome::failure(b"timeout", b"line one\nline two");
    let record = encode_record(b"some key", 18, &outcome);
    assert_eq!(
        read_entry(&record, 0),
        Scan::Done { value: entry(b"some key", 18, outcome), next: record.len() }
    );
}

#[test]
fn record_cut_short_is_truncated_at_every_byte() {
    let outcome = CapabilityOutcome::failure(b"timeout", b"no answer");
    let record = encode_record(b"key", 120, &outcome);
    for n in 0..record.len() {
        assert_eq!(read_entry(&record[..n], 0), Scan::Truncated);
    }
}

#[test]
fn record_with_unknown_tag_is_corrupt() {
    assert_eq!(read_entry(b"X0 1:k,1:v,\n", 0), Scan::Corrupt);
    assert_eq!(read_entry(b"S0 1:k,1:v,;", 0), Scan::Corrupt);
    assert_eq!(read_entry(b"S0 1:k,1:v,1:w,\n", 0), Scan::Corrupt);
    assert_eq!(read_entry(b"F0 1:k,1:v,\n", 0), Scan::Corrupt);
}

#[test]
fn session_round_trip() {
    let entries = vec![
        entry(b"a", 0, CapabilityOutcome::success(b"one")),
        entry(b"b", 1, CapabilityOutcome::failure(b"denied", b"")),
        entry(b"a", 2, CapabilityOutcome::success(b"")),
    ];
    let bytes = write_session(&entries);
    assert_eq!(bytes, b"S0 1:a,3:one,\nF1 1:b,6:denied,0:,\nS2 1:a,0:,\n".to_vec());
    assert_eq!(parse_session(&bytes), Ok(entries));
}

#[test]
fn empty_session_has_no_entries() {
    assert_eq!(parse_session(b""), Ok(Vec::new()));
    assert_eq!(write_session(&Vec::new()), Vec::<u8>::new());
}

#[test]
fn session_cut_after_a_record_holds_the_records_before() {
    let entries = vec![
        entry(b"a", 0, CapabilityOutcome::success(b"one")),
        entry(b"b", 1, CapabilityOutcome::failure(b"denied", b"why")),
        entry(b"a", 2, CapabilityOutcome::success(b"two")),
    ];
    let bytes = write_session(&entries);
    let mut cut = 0;
    for k in 0..=entries.len() {
        assert_eq!(parse_session(&bytes[..cut]), Ok(entries[..k].to_vec()));
        if k < entries.len() {
            cut += write_session(&entries[k..k + 1].to_vec()).len();
        }
    }
}

#[test]
fn session_cut_anywhere_holds_the_whole_records() {
    let entries = vec![
        entry(b"a", 0, CapabilityOutcome::success(b"one")),
        entry(b"b", 1, CapabilityOutcome::failure(b"denied", b"why")),
        entry(b"a", 2, CapabilityOutcome::success(b"two\nlines")),
    ];
    let bytes = write_session(&entries);
    let mut ends = vec![0usize];
    for e in &entries {
        let last = *ends.last().unwrap();
        ends.push(last + write_session(&vec![e.clone()]).len());
    }
    for n in 0..=bytes.len() {
        let whole = ends.iter().filter(|end| **end <= n).count() - 1;
        assert_eq!(parse_session(&bytes[..n]), Ok(entries[..whole].to_vec()));
    }
}

#[test]
fn session_with_a_corrupt_record_is_refused() {
    let good = write_session(&vec![entry(b"a", 0, CapabilityOutcome::success(b"one"))]);
    let mut bytes = good.clone();
    bytes.extend_from_slice(b"garbage\n");
    bytes.extend_from_slice(&good);
    assert_eq!(parse_session(&bytes), Err(ProxyError::CorruptSession));
    assert_eq!(parse_session(b"\n"), Err(ProxyError::CorruptSession));
    assert_eq!(parse_session(b"S0 1:a,3:one,\r\n"), Err(ProxyError::CorruptSession));
}

#[test]
fn index_hands_out_first_in_first_out() {
    let entries = vec![
        entry(b"a", 0, CapabilityOutcome::success(b"a1")),
        entry(b"b", 1, CapabilityOutcome::success(b"b1")),
        entry(b"a", 2, CapabilityOutcome::failure(b"gone", b"a2")),
        entry(b"a", 3, CapabilityOutcome::success(b"a3")),
    ];
    let mut index = Index::from_entries(entries);
    assert_eq!(index.take(b"a"), Some(CapabilityOutcome::success(b"a1")));
    assert_eq!(index.take(b"a"), Some(CapabilityOutcome::failure(b"gone", b"a2")));
    assert_eq!(index.take(b"b"), Some(CapabilityOutcome::success(b"b1")));
    assert_eq!(index.take(b"b"), None);
    assert_eq!(index.take(b"a"), Some(CapabilityOutcome::success(b"a3")));
    assert_eq!(index.take(b"a"), None);
}

#[test]
fn index_knows_nothing_of_a_key_that_was_not_recorded() {
    let mut index = Index::from_entries(vec![entry(b"a", 0, CapabilityOutcome::success(b"a1"))]);
    assert_eq!(index.take(b"c"), None);
    assert_eq!(index.take(b""), None);
    assert_eq!(index.take(b"a"), Some(CapabilityOutcome::success(b"a1")));
    let mut empty = Index::new();
    assert_eq!(empty.take(b"a"), None);
}

#[test]
fn index_is_loaded_from_a_session_file() {
    let mut index = match Index::load(b"S0 1:a,3:one,\nS1 1:a,3:two,\nS2 1:b") {
        Ok(index) => index,
        Err(e) => panic!("{:?}", e),
    };
    assert_eq!(index.take(b"a"), Some(CapabilityOutcome::success(b"one")));
    assert_eq!(index.take(b"a"), Some(CapabilityOutcome::success(b"two")));
    assert_eq!(index.take(b"b"), None);
    assert!(matches!(Index::load(b"S0 1:a,3:one;\n"), Err(ProxyError::CorruptSession)));
}

#[test]
fn outcome_knows_whether_it_is_a_success() {
    assert!(CapabilityOutcome::success(b"x").is_success());
    assert!(!CapabilityOutcome::failure(b"k", b"m").is_success());
    let o = CapabilityOutcome::failure(b"k", b"m");
    assert_eq!(o.duplicate(), o);
    assert_eq!(
        CapabilityOutcome::failure(b"k", b"m"),
        CapabilityOutcome::Failure { kind: b"k".to_vec(), message: b"m".to_vec() }
    );
}

#[test]
fn error_messages() {
    assert_eq!(ProxyError::StoreUnavailable.message(), "session store unavailable");
    assert_eq!(ProxyError::CorruptSession.message(), "session is corrupt");
    assert_eq!(
        ProxyError::CapabilityNotRecorded { key: b"k".to_vec() }.message(),
        "capability call was not recorded"
    );
    assert!(ProxyError::StoreUnavailable.is_fatal());
    assert!(ProxyError::CorruptSession.is_fatal());
    assert!(!ProxyError::CapabilityNotRecorded { key: Vec::new() }.is_fatal());
}
