use nucleus::boot_report::{failure, stage_label, Diagnostic, PipelineStage, Run};

/// Every stage of the reference path, in the order the path fixes.
const ORDER: [PipelineStage; 7] = [
    PipelineStage::Read,
    PipelineStage::Parse,
    PipelineStage::Check,
    PipelineStage::Resolve,
    PipelineStage::Lower,
    PipelineStage::Verify,
    PipelineStage::Execute,
];

const PATH: &str = "system/boot/init.tos";

#[test]
fn every_stage_has_its_own_label() {
    for (index, stage) in ORDER.iter().enumerate() {
        assert!(!stage_label(*stage).is_empty());
        for other in &ORDER[index + 1..] {
            assert_ne!(stage_label(*stage), stage_label(*other));
        }
    }
}

#[test]
fn a_completed_run_has_no_failure_to_show() {
    assert!(failure(&Run::Completed, PATH.as_bytes()).is_none());
}

#[test]
fn a_refused_run_shows_the_code_and_position_the_frontend_recorded() {
    let run = Run::Diagnosed {
        stage_symbol: b"check".to_vec(),
        diagnostics: vec![
            Diagnostic { code: b"W0001_NOTE".to_vec(), is_error: false, module: None, line: 1, column: 1 },
            Diagnostic { code: b"E1301_TYPE_MISMATCH".to_vec(), is_error: true, module: None, line: 1, column: 320 },
        ],
    };
    let (code, location) = failure(&run, PATH.as_bytes()).expect("a failure");
    assert_eq!(code, b"E1301_TYPE_MISMATCH".to_vec());
    let text = String::from_utf8(location.as_bytes().to_vec()).expect("ascii location");
    assert!(text.contains("system/boot/init.tos"), "location: {text}");
    assert!(text.ends_with(":1:320"), "location: {text}");
}

#[test]
fn a_source_rejection_shows_the_byte_it_stopped_at() {
    let run = Run::SourceRejected { code: b"E1002_BOM_FORBIDDEN".to_vec(), byte_offset: 0, path: PATH.as_bytes().to_vec() };
    let (code, location) = failure(&run, PATH.as_bytes()).expect("a failure");
    assert_eq!(code, b"E1002_BOM_FORBIDDEN".to_vec());
    let text = String::from_utf8(location.as_bytes().to_vec()).expect("ascii location");
    assert!(text.starts_with("system/boot/init.tos byte "), "{text}");
}

#[test]
fn a_run_with_no_error_diagnostic_names_the_stage_that_refused() {
    let run = Run::Diagnosed { stage_symbol: b"resolve".to_vec(), diagnostics: vec![] };
    let (_, location) = failure(&run, PATH.as_bytes()).expect("a failure");
    let text = String::from_utf8(location.as_bytes().to_vec()).unwrap();
    assert!(text.starts_with("system/boot/init.tos"), "{text}");
    assert!(text.ends_with("resolve"), "{text}");
}

#[test]
fn a_long_location_is_cut_to_the_room_it_has() {
    let long = vec![b'x'; 200];
    let run = Run::Unverified { code: b"E9".to_vec(), location: long };
    let (_, location) = failure(&run, PATH.as_bytes()).expect("a failure");
    assert_eq!(location.as_bytes().len(), 72);
}
