use gha_main::channel::{resolve_target, OutputLog};
use gha_main::outcome::{conclude, FAILURE_STATUS};
use std::sync::{Arc, Mutex};

/// Reads the text of a log back into (name, value) pairs, panicking on any
/// malformed record.
fn read_records(text: &str) -> Vec<(String, String)> {
    let mut out = Vec::new();
    let mut lines = text.split_inclusive('\n');
    while let Some(line) = lines.next() {
        let header = line.strip_suffix('\n').expect("unterminated record");
        let eq = header.find('=');
        let marker = header.find("<<");
        match (eq, marker) {
            (Some(e), m) if m.map_or(true, |m| e < m) => {
                out.push((header[..e].to_string(), header[e + 1..].to_string()));
            }
            (_, Some(m)) => {
                let name = &header[..m];
                let delimiter = &header[m + 2..];
                let mut body: Vec<&str> = Vec::new();
                loop {
                    let l = lines.next().expect("unterminated block");
                    let l = l.strip_suffix('\n').expect("unterminated block");
                    if l == delimiter {
                        break;
                    }
                    body.push(l);
                }
                out.push((name.to_string(), body.join("\n")));
            }
            _ => panic!("malformed header {:?}", header),
        }
    }
    out
}

#[test]
fn default_target_when_unset() {
    assert_eq!(resolve_target(None), "github_output");
}

#[test]
fn configured_target_is_kept() {
    assert_eq!(resolve_target(Some("out/file.txt".to_string())), "out/file.txt");
    assert_eq!(resolve_target(Some(String::new())), "");
}

#[test]
fn same_name_twice_keeps_both_in_order() {
    let mut log = OutputLog::new();
    log.emit("v", "first");
    log.emit("v", "second");
    assert_eq!(log.as_str(), "v=first\nv=second\n");
}

#[test]
fn records_read_back_in_order() {
    let mut log = OutputLog::new();
    log.emit("a", "1");
    log.emit("b", "two\nlines");
    log.emit_block("c", "3");
    log.emit("a", "\n\nblank\n");
    let records = read_records(log.as_str());
    let expected = vec![
        ("a".to_string(), "1".to_string()),
        ("b".to_string(), "two\nlines".to_string()),
        ("c".to_string(), "3".to_string()),
        ("a".to_string(), "\n\nblank\n".to_string()),
    ];
    assert_eq!(records, expected);
}

#[test]
fn conclude_success() {
    let c = conclude(&Ok(()));
    assert!(c.error_record.is_none());
    assert_eq!(c.exit_status, 0);
}

#[test]
fn conclude_failure() {
    let c = conclude(&Err("boom".to_string()));
    let record = c.error_record.expect("a failure leaves a record");
    assert_eq!(read_records(&record), vec![("error".to_string(), "boom".to_string())]);
    assert!(record.starts_with("error<<"));
    assert!(record.ends_with("\n"));
    assert_eq!(c.exit_status, FAILURE_STATUS);
    assert_ne!(c.exit_status, 0);
}

#[test]
fn multi_line_error_takes_block_form() {
    let mut log = OutputLog::new();
    log.emit("partial", "x");
    let status = log.finish(&Err("first line\nsecond line".to_string()));
    assert_ne!(status, 0);
    let records = read_records(log.as_str());
    assert_eq!(
        records,
        vec![
            ("partial".to_string(), "x".to_string()),
            ("error".to_string(), "first line\nsecond line".to_string()),
        ]
    );
    assert!(log.as_str().starts_with("partial=x\nerror<<"));
}

#[test]
fn one_line_error_takes_block_form() {
    let mut log = OutputLog::new();
    let status = log.finish(&Err("invalid digit found in string".to_string()));
    assert_eq!(status, FAILURE_STATUS);
    let (header, _) = log.as_str().split_once('\n').unwrap();
    let delimiter = header.strip_prefix("error<<").unwrap();
    assert_eq!(delimiter.len(), 36);
    assert_eq!(
        log.as_str(),
        format!("error<<{}\ninvalid digit found in string\n{}\n", delimiter, delimiter)
    );
}

#[test]
fn success_writes_no_error() {
    let mut log = OutputLog::new();
    log.emit("a", "1");
    let status = log.finish(&Ok(()));
    assert_eq!(status, 0);
    assert_eq!(log.as_str(), "a=1\n");
}

#[test]
fn interleaved_writers_keep_records_whole() {
    let log = Arc::new(Mutex::new(OutputLog::new()));
    let writers: Vec<Arc<Mutex<OutputLog>>> = (0..8).map(|_| Arc::clone(&log)).collect();
    for k in 0..50 {
        for (t, writer) in writers.iter().enumerate() {
            let value = format!("writer {}\nitem {}\nend", t, k);
            writer.lock().unwrap().emit(&format!("t{}", t), &value);
        }
    }
    let text = log.lock().unwrap().as_str().to_string();
    let records = read_records(&text);
    assert_eq!(records.len(), 8 * 50);
    for t in 0..8 {
        let mine: Vec<String> = records
            .iter()
            .filter(|(n, _)| *n == format!("t{}", t))
            .map(|(_, v)| v.clone())
            .collect();
        let expected: Vec<String> = (0..50).map(|k| format!("writer {}\nitem {}\nend", t, k)).collect();
        assert_eq!(mine, expected);
    }
}
