use reality_engine::visualization::ascii::render_grid;
use reality_engine::web::frame::{encode_frame, FrameStats};

#[test]
fn grid_pads_last_row() {
    let s = render_grid(&['a', 'b', 'c', 'd'], 3, "┐ t\n");
    assert_eq!(s, "┌───┐ t\n│abc│\n│d  │\n└───┘\n");
}

#[test]
fn grid_empty() {
    let s = render_grid(&[], 2, "┐\n");
    assert_eq!(s, "┌──┐\n└──┘\n");
}

#[test]
fn frame_layout() {
    let stats = FrameStats {
        total_energy_bits: 1.5f32.to_bits(),
        plus_fraction_bits: 0x0403_0201,
        minus_fraction_bits: 0,
        neutral_fraction_bits: 0xffff_ffff,
        domain_wall_edges: 258,
        symmetry_broken: true,
        max_stability: 7,
        kinetic_fraction_bits: 0.25f32.to_bits(),
        energy_variance_bits: 9,
    };
    let f = encode_frame(0x0102_0304_0506_0708, 2, 1, &[10, 11], &[20, 21], &[30, 31], &stats);
    assert_eq!(f.len(), 16 + 6 + 33);
    assert_eq!(&f[0..8], &0x0102_0304_0506_0708u64.to_le_bytes());
    assert_eq!(&f[8..16], &[2, 0, 0, 0, 1, 0, 0, 0]);
    assert_eq!(&f[16..22], &[10, 11, 20, 21, 30, 31]);
    let so = 22;
    assert_eq!(&f[so..so + 4], &1.5f32.to_le_bytes());
    assert_eq!(&f[so + 4..so + 8], &[1, 2, 3, 4]);
    assert_eq!(&f[so + 12..so + 16], &[255, 255, 255, 255]);
    assert_eq!(&f[so + 16..so + 20], &[2, 1, 0, 0]);
    assert_eq!(f[so + 20], 1);
    assert_eq!(&f[so + 21..so + 25], &[7, 0, 0, 0]);
    assert_eq!(&f[so + 25..so + 29], &0.25f32.to_le_bytes());
    assert_eq!(&f[so + 29..so + 33], &[9, 0, 0, 0]);
}

use reality_engine::web::control::{parse_control, plan_frame, Control, FramePlan};

#[test]
fn control_messages() {
    assert_eq!(parse_control(r#"{"action":"pause"}"#), Control::Pause);
    assert_eq!(parse_control(r#"{"action":"resume"}"#), Control::Resume);
    assert_eq!(parse_control(r#"{"action":"speed","ticks_per_frame":120}"#), Control::Speed(120));
    assert_eq!(parse_control(r#"{"action":"speed"}"#), Control::Ignore);
    assert_eq!(parse_control(r#"{"action":"speed","ticks_per_frame":2.5}"#), Control::Ignore);
    assert_eq!(
        parse_control(r#"{"action":"reset","seed":7,"mode":"big_bang","energy":2.0}"#),
        Control::Reset { seed: 7, big_bang: true }
    );
    assert_eq!(parse_control(r#"{"action":"reset"}"#), Control::Reset { seed: 42, big_bang: false });
    assert_eq!(parse_control(r#"{"action":"reset","mode":"normal"}"#), Control::Reset { seed: 42, big_bang: false });
    assert_eq!(parse_control(r#"{"action":"jump"}"#), Control::Ignore);
    assert_eq!(parse_control("not json"), Control::Ignore);
    assert_eq!(parse_control(r#"["pause"]"#), Control::Ignore);
}

#[test]
fn frame_plans() {
    assert_eq!(plan_frame(true, 5), FramePlan::Wait);
    assert_eq!(plan_frame(false, 5), FramePlan::Advance(5));
    assert_eq!(plan_frame(false, 0), FramePlan::Advance(1));
}
