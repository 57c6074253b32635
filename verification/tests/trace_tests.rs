use tpt_formal::trace_macros::{ArrayWriter, RingTrace, TRACE_BUF_LEN};

#[test]
fn array_writer_truncates() {
    let mut buf = [0u8; 8];
    let mut w = ArrayWriter::new(&mut buf);
    let _ = core::fmt::Write::write_str(&mut w, "hello world");
    assert_eq!(w.as_str(), "hello wo");
}

#[test]
fn ring_collects_events() {
    // The collector as the global tracer feeds it: each trace line becomes
    // one record.
    let mut ring = RingTrace::new(8);
    ring.record("test", &format!("value = {}", 42));
    ring.record("test", &format!("{:?}", [1, 2, 3]));
    assert_eq!(ring.len(), 2);
    assert_eq!(ring.records()[0].msg, "value = 42");
    assert!(RingTrace::new(1).records().is_empty());
}

#[test]
fn ring_keeps_the_newest_records() {
    let mut ring = RingTrace::new(2);
    ring.record("a", "1");
    ring.record("b", "2");
    ring.record("c", "3");
    assert_eq!(ring.len(), 2);
    assert_eq!(ring.records()[0].msg, "2");
    assert_eq!(ring.records()[1].seq, 2);
    ring.clear();
    assert!(ring.is_empty());
    ring.record("d", "4");
    assert_eq!(ring.records()[0].seq, 0);
    let mut tiny = RingTrace::new(0);
    tiny.record("x", "y");
    tiny.record("x", "z");
    assert_eq!(tiny.len(), 1);
}

#[test]
fn writer_accumulates_and_rejects_a_cut_character() {
    let mut buf = [0u8; TRACE_BUF_LEN];
    let mut w = ArrayWriter::new(&mut buf);
    assert!(w.is_empty());
    let _ = core::fmt::Write::write_str(&mut w, "ab");
    let _ = core::fmt::Write::write_str(&mut w, &format!("{}", 12));
    assert_eq!(w.as_str(), "ab12");
    assert_eq!(w.len(), 4);

    // "é" is two bytes; a three-byte buffer cuts it in half.
    let mut small = [0u8; 3];
    let mut w2 = ArrayWriter::new(&mut small);
    let _ = core::fmt::Write::write_str(&mut w2, "aé");
    assert_eq!(w2.len(), 3);
    assert_eq!(w2.as_str(), "aé");
    let mut small2 = [0u8; 2];
    let mut w3 = ArrayWriter::new(&mut small2);
    let _ = core::fmt::Write::write_str(&mut w3, "aé");
    assert_eq!(w3.len(), 2);
    assert_eq!(w3.as_str(), "");
}
