use tea_core::benchmark::{Samples, Time};
use tea_core::keys::GlyphKey;
use tea_core::process_unique_id::{IdCounter, ProcessUniqueId};
use tea_core::style::{BoxSizing, Cursor, Visibility};
use tea_core::update_flag::{FlagBoard, UpdateFlag};

#[test]
fn time_units() {
    assert_eq!(Time::from_micros(0), Time::Microsecond(0));
    assert_eq!(Time::from_micros(10_000), Time::Microsecond(10_000));
    assert_eq!(Time::from_micros(10_001), Time::Millisecond(10));
    assert_eq!(Time::from_micros(10_000_000), Time::Millisecond(10_000));
    assert_eq!(Time::from_micros(10_000_001), Time::Second(10));
    assert_eq!(Time::from_micros(123_456_789), Time::Second(123));
}

#[test]
fn time_count_is_cut_to_32_bits() {
    let micros: u128 = (1u128 << 32) * 1_000_000 + 5_000_000;
    assert_eq!(Time::from_micros(micros), Time::Second(5));
}

#[test]
fn ids_increase() {
    let mut counter = IdCounter::new();
    let a = ProcessUniqueId::get(&mut counter);
    let b = ProcessUniqueId::get(&mut counter);
    assert_eq!(a.as_u128(), 1);
    assert_eq!(b.as_u128(), 2);
    assert_ne!(a, b);
    assert!(counter.can_draw());
}

#[test]
fn update_flag_and_notifier() {
    let mut board = FlagBoard::new();
    let flag = UpdateFlag::new(&mut board);
    let set = UpdateFlag::new_true(&mut board);
    assert!(!flag.is_true(&board));
    assert!(set.is_true(&board));
    let mut notifier = flag.notifier();
    notifier.notify(&mut board);
    assert!(flag.is_true(&board));
    flag.reset(&mut board);
    assert!(!flag.is_true(&board));
    flag.set_true(&mut board);
    assert!(flag.is_true(&board));
    set.reset(&mut board);
    assert!(!set.is_true(&board));
}

#[test]
fn glyph_key_accessors() {
    let k = GlyphKey::<64>::from_scaled_size('x', 640, 77);
    assert_eq!(k.get_char(), 'x');
    assert_eq!(k.get_font_hash(), 77);
    assert_eq!(k.get_multiplied_font_size(), 640);
}

#[test]
fn style_defaults() {
    assert_eq!(Visibility::default(), Visibility::Visible);
    assert_eq!(BoxSizing::default(), BoxSizing::BorderBox);
    assert_eq!(Cursor::default(), Cursor::Default);
}

#[test]
fn samples_keep_a_window_and_average_it() {
    let mut s = Samples::new(3);
    assert_eq!(s.last_time(), None);
    assert_eq!(s.average_time(), None);
    s.record(10);
    s.record(20);
    s.record(30);
    assert_eq!(s.average_time(), Some(Time::Microsecond(20)));
    // The window is full: the oldest sample leaves.
    s.record(41);
    assert_eq!(s.last_time(), Some(Time::Microsecond(41)));
    assert_eq!(s.average_time(), Some(Time::Microsecond(30)));
    s.record(20_000_000);
    assert_eq!(s.last_time(), Some(Time::Second(20)));
    s.clear();
    assert_eq!(s.last_time(), None);
}

#[test]
fn samples_with_no_capacity_keep_everything() {
    let mut s = Samples::new(0);
    s.record(1);
    s.record(2);
    s.record(6);
    assert_eq!(s.average_time(), Some(Time::Microsecond(3)));
}

#[test]
fn notifier_of_a_flag_from_another_board_does_nothing() {
    let mut board = FlagBoard::new();
    let mut other = FlagBoard::new();
    let a = UpdateFlag::new(&mut board);
    let b = UpdateFlag::new(&mut board);
    assert!(a.belongs_to(&board));
    assert!(!a.belongs_to(&other));
    let mut n = b.notifier();
    n.notify(&mut other);
    assert_eq!(other.len(), 0);
    n.notify(&mut board);
    assert!(b.is_true(&board));
    assert!(!a.is_true(&board));
}

#[test]
fn samples_total_reports_overflow() {
    let mut s = Samples::new(2);
    s.record(u128::MAX);
    assert_eq!(s.total_micros(), Some(u128::MAX));
    s.record(1);
    assert_eq!(s.total_micros(), None);
}

#[test]
fn time_text_is_right_aligned_with_its_unit() {
    assert_eq!(Time::Millisecond(12).to_string(), "  12ms");
    assert_eq!(Time::Second(12345).to_string(), "12345s ");
    assert_eq!(Time::Microsecond(7).to_string(), "   7\u{b5}s");
    assert_eq!(Time::Microsecond(10_000).to_string(), "10000\u{b5}s");
    assert_eq!(Time::Second(0).to_string(), "   0s ");
}
