use cres::classify::{get_footer, region_file_name, trim_footer, write_footer};
use cres::cluster::{
    is_charged_lepton, is_clustered_to_lepton, is_hadron, is_light_lepton, is_muon, is_neutrino, is_parton, is_photon,
    route, w_decay_ids, JetAlgorithm, Route, WReconstruction, PID_JET,
};
use cres::compression::Compression;
use cres::formats::FileFormat;
use cres::ntuple::reader::Reader as NTupleReader;
use cres::ntuple::writer::Writer as NTupleWriter;
use cres::number::{parse_u8, IntErrorKind};
use cres::opt;
use cres::opt_common::{compression_from_captures, parse_compr, ParseCompressionErr};
use cres::opt_cres::{parse_strategy, parse_weight_sign, Strategy, WeightSign};
use cres::opt_cres_validate::{validate, DefinitionGiven, ValidationError};
use cres::opt_particle_def::parse_w_reconstruction;
use cres::split::{multiplicity_dir, name};
use cres::text::{decimal_string, signed_decimal_string};

fn unknown(r: Result<Compression, ParseCompressionErr>) -> String {
    match r {
        Err(ParseCompressionErr::UnknownAlgorithm(s)) => s,
        other => panic!("expected an unknown algorithm, got {other:?}"),
    }
}

fn unsupported(r: Result<Compression, ParseCompressionErr>) -> (String, String) {
    match r {
        Err(ParseCompressionErr::UnsupportedLevel(l, a)) => (a, l),
        other => panic!("expected an unsupported level, got {other:?}"),
    }
}

#[test]
fn compression_settings() {
    assert_eq!(parse_compr("gzip").unwrap(), Compression::Gzip(6));
    assert_eq!(parse_compr("gz_9").unwrap(), Compression::Gzip(9));
    assert_eq!(parse_compr("GZIP_0").unwrap(), Compression::Gzip(0));
    assert_eq!(parse_compr("bzip2").unwrap(), Compression::Bzip2);
    assert_eq!(parse_compr("bz2").unwrap(), Compression::Bzip2);
    assert_eq!(parse_compr("lz4").unwrap(), Compression::Lz4(0));
    assert_eq!(parse_compr("lz4_16").unwrap(), Compression::Lz4(16));
    assert_eq!(parse_compr("zstd").unwrap(), Compression::Zstd(0));
    assert_eq!(parse_compr("Zstandard_19").unwrap(), Compression::Zstd(19));
    assert_eq!(parse_compr("zstd_05").unwrap(), Compression::Zstd(5));
    assert_eq!(unknown(parse_compr("xz")), "xz");
    assert_eq!(unknown(parse_compr("Zip-5")), "Zip-5");
    assert_eq!(unknown(parse_compr("")), "");
    assert_eq!(unsupported(parse_compr("gzip_10")), ("gzip".to_string(), "_10".to_string()));
    assert_eq!(unsupported(parse_compr("lz4_17")), ("lz4".to_string(), "_17".to_string()));
    assert_eq!(unsupported(parse_compr("zstd_300")), ("zstd".to_string(), "_300".to_string()));
    assert_eq!(unsupported(parse_compr("BZ2_1")), ("bz2".to_string(), "_1".to_string()));
}

#[test]
fn compression_error_messages() {
    let e = parse_compr("xz").unwrap_err();
    assert_eq!(e.message(), "Unknown compression algorithm: xz");
    let e = parse_compr("gzip_10").unwrap_err();
    assert_eq!(e.message(), "Level _10 not supported for gzip compression");
}

#[test]
fn compression_from_captured_groups() {
    let caps = Some((Some("gz".to_string()), Some("_3".to_string())));
    assert_eq!(compression_from_captures("GZ_3", caps).unwrap(), Compression::Gzip(3));
    assert_eq!(unknown(compression_from_captures("abc", None)), "abc");
    assert_eq!(unknown(compression_from_captures("abc", Some((None, None)))), "abc");
    let caps = Some((Some("bzip2".to_string()), None));
    assert_eq!(compression_from_captures("x", caps).unwrap(), Compression::Bzip2);
}

#[test]
fn legacy_compression_settings() {
    assert_eq!(opt::parse_compr("gzip_3").unwrap(), Compression::Gzip(3));
    assert_eq!(opt::parse_compr("zstd").unwrap(), Compression::Zstd(0));
    assert_eq!(opt::parse_compr("bzip2").unwrap(), Compression::Bzip2);
    assert_eq!(opt::parse_compr("lz4").unwrap(), Compression::Lz4(0));
    assert_eq!(opt::parse_compr("lz4_16").unwrap(), Compression::Lz4(16));
    assert_eq!(unknown(opt::parse_compr("lz-4")), "lz-4");
}

#[test]
fn small_numbers() {
    assert_eq!(parse_u8(b"255"), Ok(255));
    assert_eq!(parse_u8(b"+7"), Ok(7));
    assert_eq!(parse_u8(b"256"), Err(IntErrorKind::PosOverflow));
    assert_eq!(parse_u8(b"2a"), Err(IntErrorKind::InvalidDigit));
    assert_eq!(parse_u8(b"+"), Err(IntErrorKind::InvalidDigit));
    assert_eq!(parse_u8(b""), Err(IntErrorKind::Empty));
}

#[test]
fn strategies_and_weight_signs() {
    assert_eq!(parse_strategy("any").unwrap(), Strategy::Next);
    assert_eq!(parse_strategy("most_negative").unwrap(), Strategy::LargestAbsWeightFirst);
    assert_eq!(
        parse_strategy("SmallestAbsWeightFirst").unwrap(),
        Strategy::SmallestAbsWeightFirst
    );
    let e = parse_strategy("Most_Negative").unwrap_err();
    assert_eq!(e.0, "Most_Negative");
    assert_eq!(e.message(), "Unknown strategy: 'Most_Negative'");
    assert_eq!(parse_weight_sign("Negative").unwrap(), WeightSign::Negative);
    assert_eq!(parse_weight_sign("all").unwrap(), WeightSign::All);
    let e = parse_weight_sign("+").unwrap_err();
    assert_eq!(e.message(), "Unknown weight sign: '+'");
    assert_eq!(opt::parse_strategy("least_negative").unwrap(), opt::Strategy::LeastNegative);
    let e = opt::parse_strategy("largest_abs_weight_first").unwrap_err();
    assert_eq!(e.message(), "Unknown strategy: largest_abs_weight_first");
    assert_eq!(opt::is_power_of_two("32"), Ok(()));
    assert_eq!(opt::is_power_of_two("3"), Err("has to be a power of two".to_string()));
}

#[test]
fn jet_algorithms_and_w_reconstruction() {
    assert_eq!(JetAlgorithm::from_str("anti-kt").unwrap(), JetAlgorithm::AntiKt);
    assert_eq!(JetAlgorithm::from_str("kt").unwrap(), JetAlgorithm::Kt);
    assert_eq!(
        JetAlgorithm::from_str("Cambridge/Aachen").unwrap(),
        JetAlgorithm::CambridgeAachen
    );
    let e = JetAlgorithm::from_str("siscone").unwrap_err();
    assert_eq!(e.message(), "Unknown jet algorithm: siscone");
    assert_eq!(parse_w_reconstruction("mT"), Ok(WReconstruction::ByTransverseMass));
    assert_eq!(parse_w_reconstruction("none"), Ok(WReconstruction::NoReconstruction));
    assert_eq!(WReconstruction::default(), WReconstruction::NoReconstruction);
    assert_eq!(
        parse_w_reconstruction("MT"),
        Err("Value 'MT' not supported for --reconstruct-w".to_string())
    );
}

#[test]
fn particle_classes() {
    assert!(is_parton(5) && is_parton(-2) && is_parton(21));
    assert!(!is_parton(6) && !is_parton(11));
    assert!(is_hadron(211) && is_hadron(-211) && is_hadron(2212));
    assert!(!is_hadron(11) && !is_hadron(21));
    assert!(is_light_lepton(11) && is_light_lepton(13) && !is_light_lepton(-11));
    assert!(is_photon(22) && !is_photon(23));
    assert!(is_muon(13) && !is_muon(11));
}

#[test]
fn particle_routes() {
    assert_eq!(route(22, true, false, false), Route::IsolatedPhoton);
    assert_eq!(route(22, false, true, false), Route::DressedLeptons);
    assert_eq!(route(22, false, false, false), Route::Photon);
    assert_eq!(route(1, false, true, true), Route::Jets);
    assert_eq!(route(-5, false, true, true), Route::Jets);
    assert_eq!(route(21, false, false, false), Route::Jets);
    assert_eq!(route(-211, false, false, false), Route::Jets);
    assert_eq!(route(6, false, true, false), Route::TransverseMomentum);
    assert_eq!(route(11, false, true, false), Route::DressedLeptons);
    assert_eq!(route(-13, false, true, false), Route::DressedLeptons);
    assert_eq!(route(11, false, false, false), Route::TransverseMomentum);
    assert_eq!(route(15, false, true, false), Route::TransverseMomentum);
    assert_eq!(route(12, false, true, false), Route::Dropped);
    assert_eq!(route(-14, false, false, false), Route::Dropped);
    assert_eq!(route(12, false, false, true), Route::TransverseMomentum);
    assert!(is_neutrino(12) && is_neutrino(18) && !is_neutrino(13) && !is_neutrino(-12));
    assert!(is_charged_lepton(11) && is_charged_lepton(17) && !is_charged_lepton(12) && !is_charged_lepton(-11));
    assert!(is_clustered_to_lepton(true, -11) && is_clustered_to_lepton(true, 22));
    assert!(!is_clustered_to_lepton(false, 11) && !is_clustered_to_lepton(true, 15));
}

#[test]
fn w_boson_ids() {
    assert_eq!(w_decay_ids(11), (-24, -12));
    assert_eq!(w_decay_ids(-13), (24, 14));
    assert_eq!(w_decay_ids(15), (-24, -16));
}

#[test]
fn option_validation() {
    let all = DefinitionGiven { first: true, second: true, third: true };
    let none = DefinitionGiven { first: false, second: false, third: false };
    let some = DefinitionGiven { first: true, second: false, third: true };
    assert_eq!(validate(all, none), Ok(()));
    assert_eq!(validate(none, all), Ok(()));
    assert_eq!(validate(some, all), Err(ValidationError::BadLeptonOpt));
    assert_eq!(validate(all, some), Err(ValidationError::BadPhotonOpt));
    assert_eq!(validate(some, some), Err(ValidationError::BadLeptonOpt));
    assert_eq!(
        ValidationError::BadPhotonOpt.message(),
        "Either all or none of --photonefrac, --photonradius, --photonpt have to be set"
    );
}

#[test]
fn class_names_and_directories() {
    assert_eq!(name(11), "electrons");
    assert_eq!(name(-11), "positrons");
    assert_eq!(name(PID_JET), "jets");
    assert_eq!(name(82), "dressed leptons");
    assert_eq!(name(83), "isolated photons");
    assert_eq!(name(1234567), "particles with id 1234567");
    assert_eq!(name(-1234567), "particles with id -1234567");
    assert_eq!(multiplicity_dir(&[(81, 2), (22, 1)]), "2_jets_1_photons");
    assert_eq!(multiplicity_dir(&[(12, 1), (82, 10)]), "1_electron_neutrinos_10_dressed_leptons");
    assert_eq!(multiplicity_dir(&[]), "no_particles");
}

#[test]
fn decimal_text() {
    assert_eq!(decimal_string(0), "0");
    assert_eq!(decimal_string(1234567890), "1234567890");
    assert_eq!(decimal_string(u64::MAX), u64::MAX.to_string());
    assert_eq!(signed_decimal_string(-45), "-45");
    assert_eq!(signed_decimal_string(i64::MIN), i64::MIN.to_string());
}

#[test]
fn footers() {
    assert_eq!(get_footer(FileFormat::HepMC2), "HepMC::IO_GenEvent-END_EVENT_LISTING");
    assert_eq!(get_footer(FileFormat::Lhef), "</LesHouchesEvents>");
    assert_eq!(get_footer(FileFormat::StripperXml), "</Eventrecord>");
    assert_eq!(get_footer(FileFormat::BlackHatNtuple), "");
    assert_eq!(FileFormat::default(), FileFormat::HepMC2);
    let event = "E 1\nHepMC::IO_GenEvent-END_EVENT_LISTING\n\n";
    assert_eq!(trim_footer(event, FileFormat::HepMC2), "E 1\n");
    assert_eq!(trim_footer("E 1\n", FileFormat::HepMC2), "E 1\n");
    assert_eq!(trim_footer("<event>\n</event>\n</LesHouchesEvents>\u{a0} ", FileFormat::Lhef), "<event>\n</event>\n");
    assert_eq!(trim_footer("abc \u{2003}\n", FileFormat::BlackHatNtuple), "abc");
    let mut out = b"x".to_vec();
    write_footer(&mut out, FileFormat::Lhef);
    assert_eq!(out, b"x</LesHouchesEvents>\n".to_vec());
}

#[test]
fn trim_undoes_footer() {
    for format in [FileFormat::HepMC2, FileFormat::Lhef, FileFormat::StripperXml] {
        let event = "<event>\n 1 2 \u{a0}\n</event>  ";
        let mut out = event.as_bytes().to_vec();
        write_footer(&mut out, format);
        let text = String::from_utf8(out).unwrap();
        assert_eq!(trim_footer(&text, format), event);
    }
}

#[test]
fn region_file_names() {
    assert_eq!(region_file_name("events.hepmc.gz", 3), "events.3.hepmc.gz");
    assert_eq!(region_file_name("noext", 0), "noext.0.");
    assert_eq!(region_file_name(".hidden", 12), ".12.hidden");
    assert_eq!(region_file_name("ä.lhe", 7), "ä.7.lhe");
}

#[test]
fn ntuple_readers_and_writers() {
    let r = NTupleReader::new("\"a.root\"", Some(5u8)).unwrap();
    assert_eq!(r.0, 5);
    match NTupleReader::<u8>::new("\"a.root\"", None) {
        Err(msg) => assert_eq!(msg, "Failed to create ntuple reader for \"a.root\""),
        Ok(_) => panic!("nothing was opened"),
    }
    let w = NTupleWriter::try_new(Some('w'), Some(Compression::Gzip(1))).unwrap();
    assert_eq!(w.0, 'w');
    match NTupleWriter::<char>::try_new(None, None) {
        Err(msg) => assert_eq!(msg, "Failed to create writer"),
        Ok(_) => panic!("nothing was opened"),
    }
}

#[test]
fn compression_setting_outside_ascii_refused() {
    assert_eq!(unknown(parse_compr("gz\u{ef}p")), "gz\u{ef}p");
    match parse_compr("gzip_\u{663}") {
        Err(ParseCompressionErr::UnsupportedLevel(l, a)) => {
            assert_eq!(l, "_\u{663}");
            assert_eq!(a, "gzip");
        }
        other => panic!("unexpected {:?}", other),
    }
    assert!(opt::parse_compr("lz4_\u{ff11}").is_err());
    assert!(opt::parse_compr("zstd_1\u{e9}").is_err());
}
