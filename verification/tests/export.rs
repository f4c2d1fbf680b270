use pass2csv::pipeline::export_all;
use pass2csv::pipeline::load_entry;
use pass2csv::DecryptOutcome;
use pass2csv::Exporter;
use pass2csv::FatalError;

fn ok_outcome(content: &str) -> DecryptOutcome {
    DecryptOutcome {
        success: true,
        stdout: content.as_bytes().to_vec(),
        stderr: Vec::new(),
        status: Some(0),
    }
}

fn failed_outcome(status: Option<i32>, stderr: &[u8]) -> DecryptOutcome {
    DecryptOutcome {
        success: false,
        stdout: Vec::new(),
        stderr: stderr.to_vec(),
        status,
    }
}

#[test]
fn load_entry_parses_a_successful_outcome() {
    let o = ok_outcome("pw\nuser: a\n");
    let e = load_entry(&o, "dir/x.gpg", ";").unwrap();
    assert_eq!(e.password, "pw");
    assert_eq!(e.additional, "user: a;");
    assert_eq!(e.file_path, "dir/x.gpg");
}

#[test]
fn load_entry_trims_surrounding_whitespace() {
    let o = ok_outcome("  pw\nmore  \n\n");
    let e = load_entry(&o, "p", ";").unwrap();
    assert_eq!(e.password, "pw");
    assert_eq!(e.additional, "more;");
}

#[test]
fn load_entry_forwards_decrypt_failure() {
    let o = failed_outcome(Some(3), b"gpg: decryption failed\n");
    match load_entry(&o, "p", ";") {
        Err(FatalError::Decrypt { status, stderr }) => {
            assert_eq!(status, 3);
            assert_eq!(stderr, b"gpg: decryption failed\n".to_vec());
        }
        _ => panic!("expected a decrypt failure"),
    }
}

#[test]
fn load_entry_defaults_missing_status_to_one() {
    let o = failed_outcome(None, b"killed\n");
    match load_entry(&o, "p", ";") {
        Err(FatalError::Decrypt { status, .. }) => assert_eq!(status, 1),
        _ => panic!("expected a decrypt failure"),
    }
}

#[test]
fn load_entry_refuses_invalid_utf8() {
    let o = DecryptOutcome {
        success: true,
        stdout: vec![0xff, 0xfe],
        stderr: Vec::new(),
        status: Some(0),
    };
    assert!(matches!(load_entry(&o, "p", ";"), Err(FatalError::Encoding)));
}

#[test]
fn load_entry_refuses_blank_content() {
    let o = ok_outcome("   \n  ");
    assert!(matches!(
        load_entry(&o, "p", ";"),
        Err(FatalError::Parse(pass2csv::Pass2CSVError::NoPassword))
    ));
}

#[test]
fn export_produces_header_and_one_row_per_entry() {
    let outcomes = vec![
        ok_outcome("alpha\nuser: a"),
        ok_outcome("beta"),
        ok_outcome("gamma\nnote one\nnote two"),
    ];
    let paths = vec!["a.gpg".to_string(), "b.gpg".to_string(), "c.gpg".to_string()];
    let bytes = export_all(&outcomes, &paths, ";").unwrap();
    let text = String::from_utf8(bytes).unwrap();
    assert_eq!(
        text,
        "password,additional,file_path\n\
         alpha,user: a;,a.gpg\n\
         beta,,b.gpg\n\
         gamma,note one;note two;,c.gpg\n"
    );
    assert_eq!(text.lines().count(), 4);
}

#[test]
fn export_round_trip_recovers_every_entry() {
    let outcomes = vec![
        ok_outcome("alpha\nuser: a"),
        ok_outcome("beta\nx\ny"),
        ok_outcome("gamma"),
    ];
    let paths = vec!["a.gpg".to_string(), "b.gpg".to_string(), "c.gpg".to_string()];
    let bytes = export_all(&outcomes, &paths, ";").unwrap();
    assert_eq!(bytes.iter().filter(|b| **b == b'\n').count(), 4);

    let mut rdr = csv::Reader::from_reader(&bytes[..]);
    let headers = rdr.headers().unwrap().clone();
    assert_eq!(&headers, &csv::StringRecord::from(vec![
        "password",
        "additional",
        "file_path"
    ]));
    let rows: Vec<csv::StringRecord> = rdr.records().map(|r| r.unwrap()).collect();
    assert_eq!(rows.len(), 3);
    assert_eq!(&rows[0][0], "alpha");
    assert_eq!(&rows[0][1], "user: a;");
    assert_eq!(&rows[0][2], "a.gpg");
    assert_eq!(&rows[1][1], "x;y;");
    assert_eq!(&rows[2][0], "gamma");
    assert_eq!(&rows[2][1], "");
    assert_eq!(&rows[2][2], "c.gpg");
}

#[test]
fn export_keeps_discovery_order() {
    let outcomes = vec![ok_outcome("one"), ok_outcome("two"), ok_outcome("three")];
    let paths = vec!["a".to_string(), "b".to_string(), "c".to_string()];
    let bytes = export_all(&outcomes, &paths, ";").unwrap();
    let text = String::from_utf8(bytes).unwrap();
    let rows: Vec<&str> = text.lines().skip(1).collect();
    assert_eq!(rows, vec!["one,,a", "two,,b", "three,,c"]);
}

#[test]
fn export_aborts_at_first_decrypt_failure() {
    let outcomes = vec![
        ok_outcome("one"),
        failed_outcome(Some(2), b"bad key\n"),
        ok_outcome("three"),
    ];
    let paths = vec!["a".to_string(), "b".to_string(), "c".to_string()];
    match export_all(&outcomes, &paths, ";") {
        Err(FatalError::Decrypt { status, stderr }) => {
            assert_eq!(status, 2);
            assert_eq!(stderr, b"bad key\n".to_vec());
        }
        _ => panic!("expected the export to abort on the second entry"),
    }
}

#[test]
fn exporter_streams_one_row_at_a_time() {
    let mut ex = Exporter::new();
    ex.add_entry(&ok_outcome("one"), "a", ";").unwrap();
    let failure = ex.add_entry(&failed_outcome(Some(7), b"boom"), "b", ";");
    match failure {
        Err(FatalError::Decrypt { status, .. }) => assert_eq!(status, 7),
        _ => panic!("expected a decrypt failure"),
    }
    let bytes = ex.finish();
    let text = String::from_utf8(bytes).unwrap();
    assert_eq!(text, "password,additional,file_path\none,,a\n");
}

#[test]
fn comma_delimiter_quotes_additional_but_keeps_rows_intact() {
    let outcomes = vec![ok_outcome("pw\nuser: a\nnote"), ok_outcome("other")];
    let paths = vec!["x".to_string(), "y".to_string()];
    let bytes = export_all(&outcomes, &paths, ",").unwrap();
    let text = String::from_utf8(bytes).unwrap();
    assert_eq!(
        text,
        "password,additional,file_path\npw,\"user: a,note,\",x\nother,,y\n"
    );
    assert_eq!(text.lines().count(), 3);

    let mut rdr = csv::Reader::from_reader(text.as_bytes());
    let rows: Vec<csv::StringRecord> = rdr.records().map(|r| r.unwrap()).collect();
    assert_eq!(rows.len(), 2);
    assert_eq!(&rows[0][1], "user: a,note,");
    assert_eq!(&rows[0][2], "x");
    assert_eq!(&rows[1][0], "other");
}

#[test]
fn quotes_inside_fields_survive_the_round_trip() {
    let outcomes = vec![ok_outcome("p\"w\nsay \"hi\"")];
    let paths = vec!["q".to_string()];
    let bytes = export_all(&outcomes, &paths, ";").unwrap();
    let mut rdr = csv::Reader::from_reader(&bytes[..]);
    let rows: Vec<csv::StringRecord> = rdr.records().map(|r| r.unwrap()).collect();
    assert_eq!(&rows[0][0], "p\"w");
    assert_eq!(&rows[0][1], "say \"hi\";");
}
