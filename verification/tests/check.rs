use sentinel::check::{check_signature, needs_signature, summarize, CheckOutcome, ExistingSignature};

const RBS: &str = "# Generated by Sentinel - Do not edit manually\n\nclass A\n  def go: () -> void\nend\n";

#[test]
fn outcome_for_each_case() {
    assert_eq!(check_signature(None, &ExistingSignature::Absent), CheckOutcome::Failed);
    let empty = "# Generated by Sentinel - Do not edit manually\n\nclass A\nend\n";
    assert_eq!(check_signature(Some(empty), &ExistingSignature::Absent), CheckOutcome::Skipped);
    assert_eq!(check_signature(Some(RBS), &ExistingSignature::Absent), CheckOutcome::Missing);
    assert_eq!(check_signature(Some(RBS), &ExistingSignature::Unreadable), CheckOutcome::Failed);
    assert_eq!(
        check_signature(Some(RBS), &ExistingSignature::Present(RBS.to_string())),
        CheckOutcome::UpToDate
    );
    assert_eq!(
        check_signature(Some(RBS), &ExistingSignature::Present("class A\nend\n".to_string())),
        CheckOutcome::Stale
    );
}

#[test]
fn aliases_and_attributes_count_as_content() {
    assert!(needs_signature("class A\n  type x = Integer\nend\n"));
    assert!(needs_signature("class A\n  attr_reader name: String\nend\n"));
    assert!(!needs_signature("class A\nend\n"));
}

#[test]
fn report_counts_and_positions() {
    let outs = vec![
        CheckOutcome::UpToDate,
        CheckOutcome::Missing,
        CheckOutcome::Skipped,
        CheckOutcome::Stale,
        CheckOutcome::Failed,
        CheckOutcome::Missing,
    ];
    let r = summarize(&outs);
    assert_eq!(r.checked, 4);
    assert_eq!(r.skipped, 1);
    assert_eq!(r.failed, 1);
    assert_eq!(r.missing, vec![1, 5]);
    assert_eq!(r.stale, vec![3]);
    assert!(!r.all_ok());
}

#[test]
fn report_passes_only_when_all_current() {
    let ok = summarize(&vec![CheckOutcome::UpToDate, CheckOutcome::Skipped]);
    assert!(ok.all_ok());
    assert!(summarize(&vec![]).all_ok());
    assert!(!summarize(&vec![CheckOutcome::UpToDate, CheckOutcome::Failed]).all_ok());
    assert!(!summarize(&vec![CheckOutcome::Stale]).all_ok());
}

#[test]
fn written_signature_reads_back_current() {
    // what init writes is what check finds current
    assert_eq!(
        check_signature(Some(RBS), &ExistingSignature::Present(RBS.to_string())),
        CheckOutcome::UpToDate
    );
    let bare = "# Generated by Sentinel - Do not edit manually\n\nclass A\nend\n";
    assert_eq!(
        check_signature(Some(bare), &ExistingSignature::Present(bare.to_string())),
        CheckOutcome::Skipped
    );
    // a file init would not write is never reported missing
    assert_eq!(check_signature(Some(bare), &ExistingSignature::Absent), CheckOutcome::Skipped);
}
