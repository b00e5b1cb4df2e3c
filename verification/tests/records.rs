use cres::hepmc2::writer::Writer as HepMCWriter;
use cres::hepmc2::{
    extract_weights, parse_hepmc, update_central_weight, update_weight, EnergyUnit,
    HeaderSplitter, RecordSplitter,
};
use cres::io::{Entry, EventRecord, HeaderStep, ReadError, Span, SplitStep};
use cres::lhef;

const HEPMC_RECORD: &str = "E 1 -1 -1 -1 -1 -1 0 0 0 0 0 1 1.5\nU GEV MM\nV -1 0 0 0 0 0 1 2 0\nP 1 21 0 0 1 1 0 3 0 0 0 0\nP 3 11 1.0 2.0 3.0 4.0 0 1 0 0 0 0\n";

const LHEF_RECORD: &str = "<event>\n 4 1 +1.2e+01 9.1e+01 7.5e-03 1.2e-01\n 21 -1 0 0 501 502 0.0 0.0 1.0e+02 1.0e+02 0.0 0. 9.\n 21 -1 0 0 502 503 0.0 0.0 -1.0e+02 1.0e+02 0.0 0. 9.\n 11 1 1 2 0 0 1.0 2.0 3.0 4.0 0.0 0. 9.\n -11 1 1 2 0 0 -1.0 -2.0 -3.0 4.0 0.0 0. 9.\n</event>\n";

fn text(record: &[u8], s: Span) -> &str {
    std::str::from_utf8(&record[s.start..s.end]).unwrap()
}

#[test]
fn hepmc_record_is_read() {
    let record = HEPMC_RECORD.as_bytes();
    let ev = parse_hepmc(record).unwrap();
    assert_eq!(text(record, ev.weight), "1.5");
    assert_eq!(ev.energy_unit, EnergyUnit::GeV);
    assert_eq!(ev.particles.len(), 1);
    let p = ev.particles[0];
    assert_eq!(p.id, 11);
    assert_eq!(text(record, p.px), "1.0");
    assert_eq!(text(record, p.py), "2.0");
    assert_eq!(text(record, p.pz), "3.0");
    assert_eq!(text(record, p.e), "4.0");
}

#[test]
fn hepmc_units_in_mev() {
    let record = "E 1 -1 -1 -1 -1 -1 0 0 0 0 0 1 2\nU MEV MM\n".as_bytes();
    let ev = parse_hepmc(record).unwrap();
    assert_eq!(ev.energy_unit, EnergyUnit::MeV);
    let bad = "E 1 -1 -1 -1 -1 -1 0 0 0 0 0 1 2\nU KEV MM\n".as_bytes();
    match parse_hepmc(bad) {
        Err(ReadError::InvalidEntry { value, entry, .. }) => {
            assert_eq!(entry, Entry::EnergyUnit);
            assert_eq!(text(bad, value), "KEV");
        }
        _ => panic!("a KEV unit must be refused"),
    }
}

#[test]
fn hepmc_read_errors() {
    assert_eq!(
        extract_weights(b"X 1 2"),
        Err(ReadError::UnrecognisedEntry(Entry::StartOfRecord, 0))
    );
    assert_eq!(
        extract_weights(b"E 1 2\n"),
        Err(ReadError::ParseEntry(Entry::EntriesBeforeWeight, 0))
    );
    let prefix = "E 1 -1 -1 -1 -1 -1 0 0 0 0 0";
    let record = format!("{prefix} x");
    assert_eq!(
        extract_weights(record.as_bytes()),
        Err(ReadError::ParseEntry(Entry::NumberOfWeights, prefix.len()))
    );
    let record = format!("{prefix} 1 y");
    assert_eq!(
        extract_weights(record.as_bytes()),
        Err(ReadError::ParseEntry(Entry::EventWeight, prefix.len() + 2))
    );
    let record = format!("{prefix} 1 1.0\nQ something");
    assert!(matches!(
        parse_hepmc(record.as_bytes()),
        Err(ReadError::UnrecognisedEntry(Entry::Start, _))
    ));
    let record = format!("{prefix} 1 1.0\nP 1 x");
    assert!(matches!(
        parse_hepmc(record.as_bytes()),
        Err(ReadError::ParseEntry(Entry::ParticleId, _))
    ));
}

#[test]
fn hepmc_weight_read_back_after_update() {
    let mut record = HEPMC_RECORD.as_bytes().to_vec();
    update_weight(&mut record, b"2.75").unwrap();
    let expected = HEPMC_RECORD.replacen(" 1.5\n", " 2.75\n", 1);
    assert_eq!(record, expected.as_bytes());
    let w = extract_weights(&record).unwrap();
    assert_eq!(text(&record, w), "2.75");
    // the rest of the record reads as before
    let ev = parse_hepmc(&record).unwrap();
    assert_eq!(ev.particles.len(), 1);
    assert_eq!(text(&record, ev.particles[0].e), "4.0");
}

#[test]
fn hepmc_weight_update_errors() {
    let mut record = b"E 1 2\n".to_vec();
    assert_eq!(
        update_weight(&mut record, b"1"),
        Err(ReadError::ParseEntry(Entry::EntriesBeforeWeight, 0))
    );
    assert_eq!(record, b"E 1 2\n".to_vec());
    let prefix = "E 1 -1 -1 -1 -1 -1 0 0 0 0 0";
    let mut record = format!("{prefix} -3 1.0").into_bytes();
    assert_eq!(
        update_weight(&mut record, b"1"),
        Err(ReadError::ParseEntry(Entry::NumberOfWeights, prefix.len()))
    );
    let mut record = format!("{prefix} 1").into_bytes();
    assert_eq!(
        update_weight(&mut record, b"1"),
        Err(ReadError::ParseEntry(Entry::CentralWeight, 0))
    );
    let mut record = b"ab   cd ef".to_vec();
    update_central_weight(&mut record, 2, b"XY").unwrap();
    assert_eq!(record, b"ab XY ef".to_vec());
}

fn chunks(input: &[u8], delim: u8) -> Vec<Vec<u8>> {
    let mut res = Vec::new();
    let mut cur = Vec::new();
    for &b in input {
        cur.push(b);
        if b == delim {
            res.push(std::mem::take(&mut cur));
        }
    }
    if !cur.is_empty() {
        res.push(cur);
    }
    res.push(Vec::new());
    res
}

#[test]
fn hepmc_input_is_split_into_records() {
    let input = b"HepMC::Version 2.06.09\nHepMC::IO_GenEvent-START_EVENT_LISTING\nE 1 2\nP 1.5E+02\nE 4 5\n";
    let mut parts = chunks(input, b'E').into_iter();
    let mut header = HeaderSplitter::new();
    let header = loop {
        match header.step(&parts.next().unwrap()) {
            HeaderStep::Continue => {}
            HeaderStep::Done(h) => break h,
        }
    };
    assert_eq!(
        header,
        b"HepMC::Version 2.06.09\nHepMC::IO_GenEvent-START_EVENT_LISTING\n".to_vec()
    );
    let mut splitter = RecordSplitter::new();
    let mut records = Vec::new();
    for chunk in parts {
        match splitter.step(&chunk) {
            SplitStep::Continue => {}
            SplitStep::Record(r) => records.push(r),
            SplitStep::End => break,
        }
    }
    assert_eq!(records, vec![b"E 1 2\nP 1.5E+02\n".to_vec(), b"E 4 5\n".to_vec()]);
    assert!(matches!(splitter.step(b""), SplitStep::End));
    // the header and the records, one after the other, are the input
    let mut all = header.clone();
    for r in &records {
        all.extend_from_slice(r);
    }
    assert_eq!(all, input.to_vec());
    assert!(records.iter().all(|r| r[0] == b'E'));
}

#[test]
fn hepmc_header_without_records() {
    let mut header = HeaderSplitter::new();
    assert!(matches!(header.step(b"abc"), HeaderStep::Continue));
    match header.step(b"") {
        HeaderStep::Done(h) => assert_eq!(h, b"ab".to_vec()),
        HeaderStep::Continue => panic!("the end of the input ends the header"),
    }
}

#[test]
fn hepmc_writer_appends_line_feed() {
    let mut w = HepMCWriter::new();
    w.write(&EventRecord::HepMC("E 1".to_string()));
    w.write(&EventRecord::HepMC("E 2\n".to_string()));
    assert_eq!(w.take_output(), b"E 1\nE 2\n\n".to_vec());
    assert!(w.take_output().is_empty());
}

#[test]
fn lhef_record_is_read() {
    let record = LHEF_RECORD.as_bytes();
    assert_eq!(lhef::lhef_nup(record), Some(4));
    let ev = lhef::parse_lhef(record).unwrap();
    assert_eq!(text(record, ev.weight), "+1.2e+01");
    assert_eq!(ev.particles.len(), 2);
    assert_eq!(ev.particles[0].id, 11);
    assert_eq!(text(record, ev.particles[0].px), "1.0");
    assert_eq!(text(record, ev.particles[0].e), "4.0");
    assert_eq!(ev.particles[1].id, -11);
    assert_eq!(text(record, ev.particles[1].pz), "-3.0");
}

#[test]
fn lhef_read_errors() {
    assert_eq!(
        lhef::parse_lhef(b"  <event>").err(),
        Some(ReadError::FindEntry(Entry::LineBreak, 2))
    );
    assert_eq!(
        lhef::parse_lhef(b"<event>\n x").err(),
        Some(ReadError::ParseEntry(Entry::Nup, 8))
    );
    assert_eq!(
        lhef::parse_lhef(b"<event>\n 2").err(),
        Some(ReadError::ParseEntry(Entry::Idrup, 10))
    );
    assert_eq!(
        lhef::parse_lhef(b"<event>\n 2 1 w").err(),
        Some(ReadError::ParseEntry(Entry::Xwgtup, 12))
    );
    let record = b"<event>\n 2 1 1.0\n 11 1 0 0 0 0 1.0 2.0\n";
    assert!(matches!(
        lhef::parse_lhef(record),
        Err(ReadError::ParseEntry(Entry::Py, _))
    ));
    let record = b"<event>\n 2 1 1.0\n 11 1 0 0 0\n";
    assert!(matches!(
        lhef::parse_lhef(record),
        Err(ReadError::ParseEntry(Entry::EntriesBeforeMomentum, _))
    ));
}

#[test]
fn lhef_weight_read_back_after_update() {
    let mut record = LHEF_RECORD.as_bytes().to_vec();
    lhef::update_weight(&mut record, b"2.5").unwrap();
    let expected = LHEF_RECORD.replacen(" +1.2e+01 ", " 2.5 ", 1);
    assert_eq!(record, expected.as_bytes());
    let ev = lhef::parse_lhef(&record).unwrap();
    assert_eq!(text(&record, ev.weight), "2.5");
    assert_eq!(ev.particles.len(), 2);
    let mut bad = b"<event>\n 2\n".to_vec();
    assert_eq!(
        lhef::update_weight(&mut bad, b"1"),
        Err(ReadError::ParseEntry(Entry::EntriesBeforeWeight, 0))
    );
}

#[test]
fn lhef_input_is_split_into_records() {
    let input = b"<LesHouchesEvents version=\"1.0\">\n<init>\n 1 2\n</init>\n<event>\nabc\n</event>\n<event>\nd";
    let mut parts = chunks(input, b'>').into_iter();
    let mut header = lhef::HeaderSplitter::new();
    let header = loop {
        match header.step(&parts.next().unwrap()) {
            HeaderStep::Continue => {}
            HeaderStep::Done(h) => break h,
        }
    };
    assert_eq!(header, b"<LesHouchesEvents version=\"1.0\">\n<init>\n 1 2\n</init>".to_vec());
    let mut splitter = lhef::RecordSplitter::new();
    let mut records = Vec::new();
    for chunk in parts {
        match splitter.step(&chunk) {
            SplitStep::Continue => {}
            SplitStep::Record(r) => records.push(r),
            SplitStep::End => break,
        }
    }
    // the unfinished last record is dropped
    assert_eq!(records, vec![b"\n<event>\nabc\n</event>".to_vec()]);
}

#[test]
fn hepmc_records_hold_one_event() {
    let input = b"E 1 2\nV -3 0 1.0E-01\nP 1.5E+02\nE 4 5\nP 2E+00\nE 6 7";
    let mut splitter = RecordSplitter::new();
    let mut records = Vec::new();
    // the first `E` was read with the header
    for chunk in chunks(&input[1..], b'E') {
        match splitter.step(&chunk) {
            SplitStep::Continue => {}
            SplitStep::Record(r) => records.push(r),
            SplitStep::End => break,
        }
    }
    assert_eq!(
        records,
        vec![
            b"E 1 2\nV -3 0 1.0E-01\nP 1.5E+02\n".to_vec(),
            b"E 4 5\nP 2E+00\n".to_vec(),
            b"E 6 7".to_vec()
        ]
    );
    for r in &records {
        assert!(!r.windows(2).any(|w| w == b"\nE"));
    }
}
