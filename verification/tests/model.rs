use vcd_words::model::{Timescale, VCD};

#[test]
fn new_model_is_empty() {
    let vcd = VCD::new();
    assert!(vcd.metadata.date.is_none());
    assert!(vcd.metadata.version.is_none());
    assert_eq!(vcd.metadata.timescale, (None, Timescale::unit));
    assert!(vcd.all_signals.is_empty());
    assert!(vcd.all_scopes.is_empty());
}
