use i3bstatus::color::color;
use i3bstatus::probes::i3b_bsd_coretemp;
use i3bstatus::probes::i3b_clock;
use i3bstatus::probes::i3b_loadavg;
use i3bstatus::probes::tick_blocks;
use i3bstatus::probes::tick_blocks_basic;
use i3bstatus::probes::ClockInstant;

#[test]
fn loadavg_formats_three_figures() {
    let b = i3b_loadavg(1234, 876, 512);
    assert_eq!(b.full_text, "1.23:0.88:0.51");
    assert_eq!(b.color, "#ffffff");
}

#[test]
fn loadavg_red_above_threshold() {
    let b = i3b_loadavg(4500, 0, 0);
    assert_eq!(b.color, "#ff0000");
    assert_eq!(b.full_text, "4.50:0.00:0.00");
}

#[test]
fn loadavg_threshold_is_strict() {
    assert_eq!(i3b_loadavg(4000, 0, 0).color, "#ffffff");
    assert_eq!(i3b_loadavg(4001, 0, 0).color, "#ff0000");
}

#[test]
fn loadavg_zero_reading() {
    let b = i3b_loadavg(0, 0, 0);
    assert_eq!(b.full_text, "0.00:0.00:0.00");
    assert_eq!(b.color, "#ffffff");
}

#[test]
fn loadavg_rounds_to_hundredths_ties_up() {
    assert_eq!(i3b_loadavg(4, 5, 999).full_text, "0.00:0.01:1.00");
}

#[test]
fn coretemp_four_core_mean() {
    let raws = vec![3003, 3013, 2993, 3023];
    let b = i3b_bsd_coretemp(&raws);
    assert_eq!(b.full_text, "27.7 \u{b0}C");
    assert_eq!(b.color, "#ffffff");
}

#[test]
fn coretemp_threshold_includes_bound() {
    let hot = vec![3281, 3281, 3281, 3281];
    let b = i3b_bsd_coretemp(&hot);
    assert_eq!(b.full_text, "55.0 \u{b0}C");
    assert_eq!(b.color, "#ff0000");
    let warm = vec![3280, 3280, 3280, 3280];
    let c = i3b_bsd_coretemp(&warm);
    assert_eq!(c.full_text, "54.9 \u{b0}C");
    assert_eq!(c.color, "#ffffff");
}

#[test]
fn coretemp_failed_reading_skews_cold() {
    let b = i3b_bsd_coretemp(&vec![0]);
    assert_eq!(b.full_text, "-273.1 \u{b0}C");
    assert_eq!(b.color, "#ffffff");
}

#[test]
fn coretemp_zero_cores_degrades() {
    let b = i3b_bsd_coretemp(&vec![]);
    assert_eq!(b.full_text, "0.0 \u{b0}C");
    assert_eq!(b.color, "#ffffff");
}

#[test]
fn clock_formats_padded() {
    let t = ClockInstant::new(2024, 3, 5, 9, 7, 3).unwrap();
    let b = i3b_clock(&t);
    assert_eq!(b.full_text, "2024-03-05 09:07:03");
    assert_eq!(b.color, "#ffffff");
}

#[test]
fn clock_rejects_out_of_range_fields() {
    assert!(ClockInstant::new(2024, 13, 1, 0, 0, 0).is_none());
    assert!(ClockInstant::new(2024, 0, 1, 0, 0, 0).is_none());
    assert!(ClockInstant::new(2024, 1, 1, 24, 0, 0).is_none());
    assert!(ClockInstant::new(10000, 1, 1, 0, 0, 0).is_none());
}

#[test]
fn tick_blocks_fixed_order() {
    let t = ClockInstant::new(2024, 3, 5, 9, 7, 3).unwrap();
    let raws = vec![3003, 3013, 2993, 3023];
    let v = tick_blocks(&raws, 1234, 876, 512, &t);
    assert_eq!(v.len(), 3);
    assert_eq!(v[0].full_text, "27.7 \u{b0}C");
    assert_eq!(v[0].color, "#ffffff");
    assert_eq!(v[1].full_text, "1.23:0.88:0.51");
    assert_eq!(v[1].color, "#ffffff");
    assert_eq!(v[2].full_text, "2024-03-05 09:07:03");
    assert_eq!(v[2].color, "#ffffff");
}

#[test]
fn tick_blocks_basic_fixed_order() {
    let t = ClockInstant::new(2024, 3, 5, 9, 7, 3).unwrap();
    let v = tick_blocks_basic(4500, 0, 0, &t);
    assert_eq!(v.len(), 2);
    assert_eq!(v[0].full_text, "4.50:0.00:0.00");
    assert_eq!(v[0].color, "#ff0000");
    assert_eq!(v[1].full_text, "2024-03-05 09:07:03");
    assert_eq!(v[1].color, "#ffffff");
}

#[test]
fn color_renders_lowercase_hex() {
    assert_eq!(color(0xff, 0x00, 0x00).to_string(), "#ff0000");
    assert_eq!(color(0xff, 0xff, 0xff).to_string(), "#ffffff");
    assert_eq!(color(0x0a, 0xbc, 0x05).to_string(), "#0abc05");
}
