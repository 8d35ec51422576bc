use kernel_core::kmsg::{KernelMessage, KernelMessageEntry, KernelMessageLevel};

#[test]
fn entry_new_keeps_its_parts() {
    let e = KernelMessageEntry::new(42, KernelMessageLevel::Warning, "hello");
    assert_eq!(e.time, 42);
    assert_eq!(e.level, KernelMessageLevel::Warning);
    assert_eq!(e.message, "hello");
}

#[test]
fn render_pads_seconds_and_microseconds() {
    let e = KernelMessageEntry::new(1_234_567, KernelMessageLevel::Debug, "boot");
    assert_eq!(e.render(), "[    1.234567] boot");
    let z = KernelMessageEntry::new(0, KernelMessageLevel::Debug, "");
    assert_eq!(z.render(), "[    0.000000] ");
    let m = KernelMessageEntry::new(99_999_000_001, KernelMessageLevel::Error, "x y");
    assert_eq!(m.render(), "[99999.000001] x y");
}

#[test]
fn render_does_not_cut_long_seconds() {
    let e = KernelMessageEntry::new(123_456_789_012, KernelMessageLevel::Fatal, "late");
    assert_eq!(e.render(), "[123456.789012] late");
    let max = KernelMessageEntry::new(u64::MAX, KernelMessageLevel::Fatal, "end");
    assert_eq!(max.render(), "[18446744073709.551615] end");
}

#[test]
fn render_matches_the_format_macro() {
    for time in [0u64, 9, 10, 999_999, 1_000_000, 10_000_000, 99_999_999_999, 100_000_000_000] {
        let e = KernelMessageEntry::new(time, KernelMessageLevel::Debug, "päge ✓");
        assert_eq!(
            e.render(),
            format!("[{:5}.{:06}] {}", time / 1000000, time % 1000000, "päge ✓")
        );
    }
}

#[test]
fn add_message_appends_and_hands_out_the_line() {
    let mut log = KernelMessage::default();
    assert!(log.msgs.is_empty());
    let line = log.add_message(2_000_005, KernelMessageLevel::Error, "disk");
    assert_eq!(line, "[    2.000005] disk");
    assert_eq!(log.msgs.len(), 1);
    assert_eq!(log.msgs[0].level, KernelMessageLevel::Error);
    assert_eq!(log.msgs[0].time, 2_000_005);
    assert_eq!(log.msgs[0].message, "disk");
}

#[test]
fn levels_of_the_shorthands() {
    let mut log = KernelMessage::default();
    assert_eq!(log.fatal(1, "a"), "[    0.000001] a");
    assert_eq!(log.error(2, "b"), "[    0.000002] b");
    assert_eq!(log.warning(3, "c"), "[    0.000003] c");
    assert_eq!(log.debug(4, "d"), "[    0.000004] d");
    let levels: Vec<KernelMessageLevel> = log.msgs.iter().map(|m| m.level).collect();
    assert_eq!(
        levels,
        vec![
            KernelMessageLevel::Fatal,
            KernelMessageLevel::Error,
            KernelMessageLevel::Warning,
            KernelMessageLevel::Debug
        ]
    );
}

#[test]
fn a_new_message_leaves_the_earlier_ones_as_they_were() {
    let mut log = KernelMessage::default();
    log.debug(1, "one");
    log.warning(2_000_000, "two");
    let before: Vec<(u64, String)> =
        log.msgs.iter().map(|m| (m.time, m.message.clone())).collect();
    assert_eq!(log.fatal(3_000_003, "three"), "[    3.000003] three");
    assert_eq!(log.error(4, "four"), "[    0.000004] four");
    assert_eq!(log.msgs.len(), 4);
    let after: Vec<(u64, String)> =
        log.msgs.iter().take(2).map(|m| (m.time, m.message.clone())).collect();
    assert_eq!(before, after);
    assert_eq!((log.msgs[2].time, log.msgs[2].message.as_str()), (3_000_003, "three"));
    assert_eq!((log.msgs[3].time, log.msgs[3].message.as_str()), (4, "four"));
    assert!(matches!(log.msgs[0].level, KernelMessageLevel::Debug));
    assert!(matches!(log.msgs[1].level, KernelMessageLevel::Warning));
    assert!(matches!(log.msgs[2].level, KernelMessageLevel::Fatal));
    assert!(matches!(log.msgs[3].level, KernelMessageLevel::Error));
}
