use dbd_auto_skillcheck::binary64::Binary64;
use dbd_auto_skillcheck::capture::CaptureGeometry;
use dbd_auto_skillcheck::config::{
    Config, CENTER_X_MAX, CENTER_Y_MAX, CIRCLE_RADIUS_MAX, CIRCLE_RADIUS_MIN, COUNT_MAX, COUNT_MIN,
    CROP_SIZE_MAX, CROP_SIZE_MIN, DEFAULT_CONFIG_TOML, HUE_MAX, LATENCY_MS_MAX, LATENCY_MS_MIN,
    SHARE_MAX,
};
use dbd_auto_skillcheck::params::SkillCheckParams;
use dbd_auto_skillcheck::session::AutoSkillCheck;

fn table<'a>(file: &'a toml::Table, section: &str) -> &'a toml::Table {
    file.get(section).and_then(toml::Value::as_table).unwrap()
}

fn float(section: &toml::Table, key: &str) -> u64 {
    section.get(key).and_then(toml::Value::as_float).unwrap().to_bits()
}

fn count(section: &toml::Table, key: &str) -> u64 {
    section.get(key).and_then(toml::Value::as_integer).unwrap() as u64
}

#[test]
fn the_first_file_holds_the_defaults() {
    let file: toml::Table = DEFAULT_CONFIG_TOML.parse().unwrap();
    let config = Config::default();

    let geometry = table(&file, "geometry");
    assert_eq!(count(geometry, "circle_radius"), config.geometry.circle_radius as u64);
    assert_eq!(count(geometry, "circle_center_x"), config.geometry.circle_center_x as u64);
    assert_eq!(count(geometry, "circle_center_y"), config.geometry.circle_center_y as u64);
    assert_eq!(count(geometry, "crop_size"), config.geometry.crop_size as u64);

    let detection = table(&file, "detection");
    assert_eq!(float(detection, "inner_enter"), config.detection.inner_enter.to_bits());
    assert_eq!(float(detection, "inner_exit"), config.detection.inner_exit.to_bits());
    assert_eq!(float(detection, "ring_threshold"), config.detection.ring_threshold.to_bits());
    assert_eq!(float(detection, "ring_discount"), config.detection.ring_discount.to_bits());

    let colors = table(&file, "colors");
    assert_eq!(float(colors, "dark_val"), config.colors.dark_val.to_bits());
    assert_eq!(float(colors, "red_hue_min"), config.colors.red_hue_min.to_bits());
    assert_eq!(float(colors, "red_hue_max"), config.colors.red_hue_max.to_bits());
    assert_eq!(float(colors, "red_sat_min"), config.colors.red_sat_min.to_bits());
    assert_eq!(float(colors, "red_val_min"), config.colors.red_val_min.to_bits());
    assert_eq!(float(colors, "white_sat_max"), config.colors.white_sat_max.to_bits());
    assert_eq!(float(colors, "white_val_min"), config.colors.white_val_min.to_bits());
    assert_eq!(float(colors, "grey_val_min"), config.colors.grey_val_min.to_bits());
    assert_eq!(float(colors, "grey_val_max"), config.colors.grey_val_max.to_bits());
    assert_eq!(float(colors, "grey_sat_max"), config.colors.grey_sat_max.to_bits());

    let timing = table(&file, "timing");
    assert_eq!(float(timing, "latency_ms"), config.timing.latency_ms.to_bits());
    assert_eq!(count(timing, "speed_history_min"), config.timing.speed_history_min as u64);
    assert_eq!(count(timing, "calibrating_samples"), config.timing.calibrating_samples as u64);
    assert_eq!(count(timing, "active_miss"), config.timing.active_miss as u64);
    assert_eq!(count(timing, "calibrating_miss"), config.timing.calibrating_miss as u64);

    let input = table(&file, "input");
    assert_eq!(
        input.get("device_name").and_then(toml::Value::as_str),
        Some(config.input.device_name.as_str())
    );
    assert_eq!(count(input, "vendor_id"), config.input.vendor_id as u64);
    assert_eq!(count(input, "product_id"), config.input.product_id as u64);
}

#[test]
fn default_values() {
    let config = Config::default();
    assert_eq!(config.geometry.circle_radius, 65);
    assert_eq!(config.geometry.circle_center_x, 960);
    assert_eq!(config.geometry.circle_center_y, 530);
    assert_eq!(config.geometry.crop_size, 300);
    assert_eq!(config.detection.inner_enter.to_bits(), 0.75f64.to_bits());
    assert_eq!(config.detection.inner_exit.to_bits(), 0.55f64.to_bits());
    assert_eq!(config.timing.latency_ms.to_bits(), 20.0f64.to_bits());
    assert_eq!(config.timing.speed_history_min, 8);
    assert_eq!(config.timing.calibrating_samples, 3);
    assert_eq!(config.timing.active_miss, 3);
    assert_eq!(config.timing.calibrating_miss, 2);
    assert_eq!(config.input.device_name, "Logitech USB Keyboard");
    assert_eq!(config.input.vendor_id, 0x046d);
    assert_eq!(config.input.product_id, 0xC52B);
}

#[test]
fn parameters_are_settings_in_single_precision() {
    let mut config = Config::default();
    config.timing.latency_ms = Binary64::from_bits((-12.345f64).to_bits());
    config.timing.active_miss = 17;
    let params = SkillCheckParams::from(&config);
    assert_eq!(params.latency_ms.to_bits(), (-12.345f64 as f32).to_bits());
    assert_eq!(params.dark_value_threshold.to_bits(), 0.15f32.to_bits());
    assert_eq!(params.inner_enter.to_bits(), 0.75f32.to_bits());
    assert_eq!(params.inner_exit.to_bits(), 0.55f32.to_bits());
    assert_eq!(params.ring_boost.to_bits(), 0.7f32.to_bits());
    assert_eq!(params.ring_discount.to_bits(), 0.25f32.to_bits());
    assert_eq!(params.grey_v_min.to_bits(), 0.15f32.to_bits());
    assert_eq!(params.grey_v_max.to_bits(), 0.85f32.to_bits());
    assert_eq!(params.grey_s_max.to_bits(), 0.3f32.to_bits());
    assert_eq!(params.red_hue_min.to_bits(), 15.0f32.to_bits());
    assert_eq!(params.red_hue_max.to_bits(), 345.0f32.to_bits());
    assert_eq!(params.red_sat_min.to_bits(), 0.6f32.to_bits());
    assert_eq!(params.red_val_min.to_bits(), 0.5f32.to_bits());
    assert_eq!(params.white_sat_max.to_bits(), 0.15f32.to_bits());
    assert_eq!(params.white_val_min.to_bits(), 0.85f32.to_bits());
    assert_eq!(params.speed_history_min, 8);
    assert_eq!(params.calibrating_samples, 3);
    assert_eq!(params.active_miss, 17);
    assert_eq!(params.calibrating_miss, 2);
}

#[test]
fn default_parameters_fit_together() {
    let params = SkillCheckParams::from(&Config::default());
    assert!(params.inner_exit.le(params.inner_enter));
    assert!(params.white_sat_max.le(params.red_sat_min));
    assert!(params.dark_value_threshold.le(params.grey_v_min));
    assert!(params.grey_v_max.le(params.white_val_min));
}

#[test]
fn the_log_keeps_the_newest_messages() {
    let mut session = AutoSkillCheck::default();
    for i in 0..200 {
        session.log(format!("message {i}"));
    }
    assert_eq!(session.logs.len(), 200);
    assert_eq!(session.logs[0], "message 0");
    for i in 200..450 {
        session.log(format!("message {i}"));
    }
    assert_eq!(session.logs.len(), 200);
    for i in 0..200 {
        assert_eq!(session.logs[i], format!("message {}", i + 250));
    }
}

#[test]
fn a_bot_is_started_and_told_to_stop_once() {
    let mut session = AutoSkillCheck::new(Config::default());
    session.log("old".to_string());
    assert!(!session.running && !session.can_stop);
    session.start();
    assert!(session.running && session.can_stop);
    assert!(session.logs.is_empty());
    assert!(session.stop());
    assert!(session.running);
    assert!(!session.stop());
    assert_eq!(session.logs, ["Stopping bot...", "Stopping bot..."]);
    session.exited();
    assert!(!session.running && !session.can_stop);
    assert_eq!(session.logs[2], "Bot thread exited or stopped.");
}

#[test]
fn saving_is_reported() {
    let mut session = AutoSkillCheck::default();
    session.config.geometry.circle_radius = 99;
    session.config_saved(Ok(()));
    session.config_saved(Err("disk full".to_string()));
    assert_eq!(session.config.geometry.circle_radius, 99);
    session.restore_defaults();
    assert_eq!(session.config.geometry.circle_radius, 65);
    session.defaults_saved(Ok(()));
    session.defaults_saved(Err("read-only".to_string()));
    assert_eq!(
        session.logs,
        [
            "Config saved successfully",
            "Failed to save config: disk full",
            "Config restored to defaults",
            "Failed to save config: read-only",
        ]
    );
}

#[test]
fn what_the_window_offers() {
    assert_eq!((LATENCY_MS_MIN, LATENCY_MS_MAX), (-100, 500));
    assert_eq!((CIRCLE_RADIUS_MIN, CIRCLE_RADIUS_MAX), (10, 500));
    assert_eq!((CENTER_X_MAX, CENTER_Y_MAX), (7680, 4320));
    assert_eq!((CROP_SIZE_MIN, CROP_SIZE_MAX), (50, 2000));
    assert_eq!((COUNT_MIN, COUNT_MAX), (1, 100));
    assert_eq!((SHARE_MAX, HUE_MAX), (1, 360));
}

#[test]
fn every_geometry_that_the_window_offers_has_a_crop() {
    for radius in [CIRCLE_RADIUS_MIN, CIRCLE_RADIUS_MAX] {
        for (x, y) in [(0, 0), (CENTER_X_MAX, CENTER_Y_MAX)] {
            for crop in [CROP_SIZE_MIN, CROP_SIZE_MAX] {
                let mut geometry = Config::default().geometry;
                geometry.circle_radius = radius;
                geometry.circle_center_x = x;
                geometry.circle_center_y = y;
                geometry.crop_size = crop;
                assert!(CaptureGeometry::new(&geometry).unwrap().circle.leaves_room());
            }
        }
    }
}

#[test]
fn a_log_that_is_not_empty_is_continued() {
    let mut session = AutoSkillCheck::default();
    for i in 0..150 {
        session.log(format!("old {i}"));
    }
    for i in 0..70 {
        session.log(format!("new {i}"));
    }
    assert_eq!(session.logs.len(), 200);
    assert_eq!(session.logs[0], "old 20");
    assert_eq!(session.logs[129], "old 149");
    assert_eq!(session.logs[130], "new 0");
    assert_eq!(session.logs[199], "new 69");
}
