use mbox_eml::eml::{mbox_record, sort_by_path, ConvertToMboxCommand, EmlInput};
use mbox_eml::mbox::{ConvertToEmlCommand, LineRead, MboxParser};
use mbox_eml::{validate_output_file, SetupError};

fn stream(text: &str) -> Vec<LineRead> {
    text.lines().map(|l| LineRead::Line(l.as_bytes().to_vec())).collect()
}

fn first_line(bytes: &[u8]) -> Vec<u8> {
    let end = bytes.iter().position(|&b| b == b'\n').unwrap_or(bytes.len());
    bytes[..end].to_vec()
}

fn mbox_cmd(overwrite: bool) -> ConvertToMboxCommand {
    ConvertToMboxCommand {
        input_directory: b"in".to_vec(),
        output_file: b"out.mbox".to_vec(),
        overwrite,
    }
}

fn eml_cmd(overwrite: bool) -> ConvertToEmlCommand {
    ConvertToEmlCommand {
        input_file: b"in.mbox".to_vec(),
        output_directory: b"out".to_vec(),
        overwrite,
    }
}

fn input(path: &str, content: Option<&str>) -> EmlInput {
    EmlInput {
        path: path.as_bytes().to_vec(),
        content: content.map(|c| c.as_bytes().to_vec()),
    }
}

#[test]
fn segmenter_yields_one_message_per_envelope() {
    let text = "From a@x Mon Jan 01 00:00:00 2024\nh: v\n\nbody\n\nFrom b@x Mon Jan 01 00:00:00 2024\nsecond\n\nFrom c@x Mon Jan 01 00:00:00 2024\nthird\n";
    let mut parser = MboxParser::new(stream(text));
    let mut messages = Vec::new();
    while let Some(r) = parser.next_message() {
        messages.push(r.expect("all lines readable"));
    }
    assert_eq!(messages.len(), 3);
    assert_eq!(messages[0], vec![b"h: v".to_vec(), b"".to_vec(), b"body".to_vec(), b"".to_vec()]);
    assert_eq!(messages[2], vec![b"third".to_vec()]);
}

#[test]
fn segmenter_discards_empty_final_message() {
    let text = "From a@x d\nbody\n\nFrom b@x d";
    let mut parser = MboxParser::new(stream(text));
    let mut count = 0;
    while let Some(r) = parser.next_message() {
        r.unwrap();
        count += 1;
    }
    // Two envelope lines, but the block after the last one is empty.
    assert_eq!(count, 1);
}

#[test]
fn segmenter_skips_leading_garbage() {
    let text = "preamble that is not mbox\nmore noise\nFrom a@x d\nonly\n";
    let mut parser = MboxParser::new(stream(text));
    let first = parser.next_message().unwrap().unwrap();
    assert_eq!(first, vec![b"only".to_vec()]);
    assert!(parser.next_message().is_none());
}

#[test]
fn segmenter_reports_one_failed_unit_and_stops() {
    let mut lines = stream("From a@x d\ngood\n\nFrom b@x d\npartial");
    lines.push(LineRead::Failed);
    lines.extend(stream("lost\nFrom c@x d\nlost too\n"));
    let mut parser = MboxParser::new(lines);
    let first = parser.next_message().unwrap();
    assert!(first.is_ok());
    let second = parser.next_message().unwrap();
    assert!(second.is_err());
    assert!(parser.next_message().is_none());
}

#[test]
fn sender_with_angle_brackets_is_narrowed() {
    let rec = mbox_record(b"From: Jane <jane@x.com>\n\nhi\n");
    let env = first_line(&rec);
    assert!(env.starts_with(b"From jane@x.com "));
}

#[test]
fn sender_without_angle_brackets_is_kept() {
    let rec = mbox_record(b"From: jane@x.com\n\nhi\n");
    let env = first_line(&rec);
    assert!(env.starts_with(b"From jane@x.com "));
}

#[test]
fn sender_uses_first_closing_bracket_after_the_opening_one() {
    let rec = mbox_record(b"From: odd> name <real@x.com>\n\nhi\n");
    let env = first_line(&rec);
    assert!(env.starts_with(b"From real@x.com "));
}

#[test]
fn unclosed_angle_bracket_falls_back_to_placeholder() {
    let rec = mbox_record(b"From: broken <oops\n\nhi\n");
    let env = first_line(&rec);
    assert!(env.starts_with(b"From unknown@example.com "));
}

#[test]
fn missing_sender_falls_back_to_placeholder() {
    let rec = mbox_record(b"Subject: no sender here\n\nhi\n");
    let env = first_line(&rec);
    assert!(env.starts_with(b"From unknown@example.com "));
}

#[test]
fn rfc2822_date_is_reformatted() {
    let rec = mbox_record(b"From: a@x\nDate: Tue, 1 Jul 2003 10:52:37 +0200\n\nhi\n");
    let env = first_line(&rec);
    assert_eq!(env, b"From a@x Tue Jul 01 10:52:37 2003".to_vec());
}

#[test]
fn rfc3339_date_is_reformatted() {
    let rec = mbox_record(b"From: a@x\nDate: 2003-07-01T10:52:37+02:00\n\nhi\n");
    let env = first_line(&rec);
    assert_eq!(env, b"From a@x Tue Jul 01 10:52:37 2003".to_vec());
}

#[test]
fn unparsable_or_missing_date_uses_placeholder() {
    let rec = mbox_record(b"From: a@x\nDate: not a date at all\n\nhi\n");
    assert_eq!(first_line(&rec), b"From a@x Mon Jan 01 00:00:00 2024".to_vec());
    let rec2 = mbox_record(b"From: a@x\n\nhi\n");
    assert_eq!(first_line(&rec2), b"From a@x Mon Jan 01 00:00:00 2024".to_vec());
}

#[test]
fn header_names_match_case_insensitively() {
    let rec = mbox_record(b"FROM: <a@x>\nDATE: Tue, 1 Jul 2003 10:52:37 +0200\n\nhi\n");
    assert_eq!(first_line(&rec), b"From a@x Tue Jul 01 10:52:37 2003".to_vec());
}

#[test]
fn trailing_normalization_is_exact() {
    // Ends in a blank line already: unchanged.
    let rec = mbox_record(b"a\n\n");
    assert!(rec.ends_with(b"a\n\n") && !rec.ends_with(b"\n\n\n"));
    // Ends in one newline: gains one.
    let rec = mbox_record(b"a\n");
    assert!(rec.ends_with(b"a\n\n") && !rec.ends_with(b"\n\n\n"));
    // Ends without a newline: gains two.
    let rec = mbox_record(b"a");
    assert!(rec.ends_with(b"a\n\n"));
}

#[test]
fn overwrite_guard_refuses_then_replaces() {
    let files = vec![input("a.eml", Some("From: a@x\n\nhi\n"))];
    let refused = mbox_cmd(false).run(true, files);
    assert_eq!(refused.unwrap_err(), SetupError::OutputFileExists);
    let files = vec![input("a.eml", Some("From: a@x\n\nhi\n"))];
    let replaced = mbox_cmd(true).run(true, files);
    assert!(replaced.is_ok());
}

#[test]
fn empty_input_set_is_a_setup_error() {
    let r = mbox_cmd(false).run(false, Vec::new());
    assert_eq!(r.unwrap_err(), SetupError::NoEmlFiles);
}

#[test]
fn one_corrupt_file_among_five_is_isolated() {
    let files = vec![
        input("a.eml", Some("From: 1@x\n\none\n")),
        input("b.eml", Some("From: 2@x\n\ntwo\n")),
        input("c.eml", None),
        input("d.eml", Some("From: 4@x\n\nfour\n")),
        input("e.eml", Some("From: 5@x\n\nfive\n")),
    ];
    let report = mbox_cmd(false).run(false, files).unwrap();
    assert_eq!(report.converted, 4);
    assert_eq!(report.errors, 1);
    let text = String::from_utf8(report.output).unwrap();
    assert_eq!(text.matches("From ").count(), 4);
}

#[test]
fn files_are_packed_in_path_order() {
    let files = vec![
        input("b.eml", Some("From: second@x\n\n2\n")),
        input("a.eml", Some("From: first@x\n\n1\n")),
    ];
    let report = mbox_cmd(false).run(false, files).unwrap();
    let text = String::from_utf8(report.output).unwrap();
    let first = text.find("first@x").unwrap();
    let second = text.find("second@x").unwrap();
    assert!(first < second);
}

#[test]
fn sort_by_path_orders_lexicographically() {
    let files = vec![input("c", None), input("a", None), input("b", None)];
    let sorted = sort_by_path(files);
    let paths: Vec<Vec<u8>> = sorted.into_iter().map(|f| f.path).collect();
    assert_eq!(paths, vec![b"a".to_vec(), b"b".to_vec(), b"c".to_vec()]);
}

#[test]
fn extraction_names_files_by_index_and_subject() {
    let text = "From a@x d\nSubject: Hello World\nbody\n\nFrom b@x d\nno subject line\n\nFrom c@x d\nSubject:\t \nempty subject\n";
    let report = eml_cmd(false).run(true, false, stream(text)).unwrap();
    assert_eq!(report.read_errors, 0);
    assert_eq!(report.files.len(), 3);
    assert_eq!(report.files[0].name, b"0000_Hello World.eml".to_vec());
    assert_eq!(report.files[1].name, b"0001.eml".to_vec());
    assert_eq!(report.files[2].name, b"0002.eml".to_vec());
    assert_eq!(report.files[1].lines, vec![b"no subject line".to_vec(), b"".to_vec()]);
}

#[test]
fn extraction_sanitizes_subject_for_filenames() {
    let text = "From a@x d\nSubject: a/b:c\nbody\n";
    let report = eml_cmd(false).run(true, false, stream(text)).unwrap();
    assert_eq!(report.files.len(), 1);
    let name = String::from_utf8(report.files[0].name.clone()).unwrap();
    assert!(name.starts_with("0000_"));
    assert!(name.ends_with(".eml"));
    assert!(!name.contains('/'));
}

#[test]
fn extraction_setup_errors() {
    let missing = eml_cmd(false).run(false, false, Vec::new());
    assert_eq!(missing.unwrap_err(), SetupError::InputFileMissing);
    let collision = eml_cmd(false).run(true, true, Vec::new());
    assert_eq!(collision.unwrap_err(), SetupError::OutputDirectoryExists);
    let allowed = eml_cmd(true).run(true, true, Vec::new());
    assert!(allowed.is_ok());
}

#[test]
fn extraction_counts_read_errors() {
    let mut lines = stream("From a@x d\ngood\n");
    lines.push(LineRead::Failed);
    let report = eml_cmd(false).run(true, false, lines).unwrap();
    assert_eq!(report.files.len(), 0);
    assert_eq!(report.read_errors, 1);
}

#[test]
fn round_trip_preserves_messages() {
    let contents =
        ["From: 1@x\nSubject: one\n\nbody one\n", "From: 2@x\nSubject: two\n\nbody two"];
    let files: Vec<EmlInput> =
        contents.iter().enumerate().map(|(i, c)| input(&format!("{i}.eml"), Some(c))).collect();
    let packed = mbox_cmd(false).run(false, files).unwrap();
    assert_eq!(packed.converted, 2);
    let archive = String::from_utf8(packed.output).unwrap();
    let report = eml_cmd(false).run(true, false, stream(&archive)).unwrap();
    assert_eq!(report.read_errors, 0);
    assert_eq!(report.files.len(), 2);
    for (i, original) in contents.iter().enumerate() {
        // Original lines survive, with the single normalized blank line after.
        let mut expected: Vec<Vec<u8>> =
            original.lines().map(|l| l.as_bytes().to_vec()).collect();
        expected.push(Vec::new());
        assert_eq!(report.files[i].lines, expected);
    }
}

#[test]
fn output_path_validation_rejects_directories() {
    assert_eq!(
        validate_output_file(b"out/").unwrap_err(),
        SetupError::OutputPathIsDirectory
    );
    assert_eq!(
        validate_output_file(b"out\\").unwrap_err(),
        SetupError::OutputPathIsDirectory
    );
    assert!(validate_output_file(b"out.mbox").is_ok());
    assert!(validate_output_file(b"").is_ok());
}
