use cres::hepmc2::weights::{extract_weight_entries, parse_weight_names_line, update_named_weights};
use cres::io::{Entry, ReadError};

const RECORD: &str = "E 1 -1 -1 -1 -1 -1 0 0 0 0 0 3 1.5 2.5 3.5\nN 3 \"central\" \"up\" \"down\"\nP 1 11 1.0 2.0 3.0 4.0 0 1 0 0 0 0\n";

fn names(ns: &[&str]) -> Vec<String> {
    ns.iter().map(|n| n.to_string()).collect()
}

#[test]
fn all_weights_are_found() {
    let record = RECORD.as_bytes();
    let w = extract_weight_entries(record).unwrap();
    let texts: Vec<&str> = w
        .iter()
        .map(|s| std::str::from_utf8(&record[s.start..s.end]).unwrap())
        .collect();
    assert_eq!(texts, vec!["1.5", "2.5", "3.5"]);
    let short = "E 1 -1 -1 -1 -1 -1 0 0 0 0 0 3 1.5 2.5";
    assert_eq!(
        extract_weight_entries(short.as_bytes()),
        Err(ReadError::ParseEntry(Entry::EventWeights, short.len() - 8))
    );
}

#[test]
fn weight_names_are_matched() {
    let record = RECORD.as_bytes();
    let q = RECORD.find("\nN").unwrap() + 1;
    let (after, pos) = parse_weight_names_line(record, q, &names(&["down", "up"]), 3).unwrap();
    assert_eq!(pos, vec![1, 2]);
    assert_eq!(&RECORD[after..after + 1], "\n");
    let p = q + 3;
    assert_eq!(
        parse_weight_names_line(record, q, &names(&["up", "left"]), 3),
        Err(ReadError::FindWeight(1, p))
    );
    // only as many names are read as there are weights
    assert_eq!(
        parse_weight_names_line(record, q, &names(&["down"]), 2),
        Err(ReadError::FindWeight(0, p))
    );
    assert_eq!(parse_weight_names_line(record, q, &[], 3), Ok((q, vec![])));
}

#[test]
fn named_weights_are_updated() {
    let mut record = RECORD.as_bytes().to_vec();
    let ws = RECORD.find(" 1.5").unwrap();
    let new = vec![b"9".to_vec(), b"8".to_vec()];
    update_named_weights(&mut record, ws, 3, &names(&["down", "up"]), &new).unwrap();
    // the updates go to the matching weights in the order of the record
    let expected = RECORD.replacen("1.5 2.5 3.5", "1.5 9 8", 1);
    assert_eq!(record, expected.as_bytes());
    let mut unchanged = RECORD.as_bytes().to_vec();
    update_named_weights(&mut unchanged, ws, 3, &[], &[]).unwrap();
    assert_eq!(unchanged, RECORD.as_bytes());
    let mut no_names = b"E 1 2\nP 3\n".to_vec();
    assert_eq!(
        update_named_weights(&mut no_names, 3, 1, &names(&["x"]), &[b"1".to_vec()]),
        Err(ReadError::FindEntry(Entry::WeightNameLine, 0))
    );
}

#[test]
fn named_weights_read_back() {
    let mut record = RECORD.as_bytes().to_vec();
    let ws = RECORD.find(" 1.5").unwrap();
    let new = vec![b"-0.25".to_vec(), b"7e3".to_vec()];
    update_named_weights(&mut record, ws, 3, &names(&["up", "central"]), &new).unwrap();
    let text = std::str::from_utf8(&record).unwrap();
    let fields: Vec<&str> = text[ws..].split_ascii_whitespace().take(3).collect();
    assert_eq!(fields, vec!["-0.25", "7e3", "3.5"]);
    let w = extract_weight_entries(&record).unwrap();
    let texts: Vec<&str> = w.iter().map(|s| &text[s.start..s.end]).collect();
    assert_eq!(texts, vec!["-0.25", "7e3", "3.5"]);
}
