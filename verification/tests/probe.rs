use rust_fetch::probe::{
    can_list_gpus, format_uptime, gpu_list, memory_fits, memory_used_mib, model_name,
    package_summary, uptime_fits, user_names,
};

#[test]
fn uptime_with_days() {
    assert_eq!(format_uptime(90061, 90061), "1 days, 1 hours, 1 min");
    assert_eq!(format_uptime(2 * 86400 + 59, 2 * 86400 + 59), "2 days, 0 hours, 0 min");
}

#[test]
fn uptime_with_hours() {
    assert_eq!(format_uptime(3700, 3700), "1 hours, 1 mins");
}

#[test]
fn uptime_with_minutes_only() {
    assert_eq!(format_uptime(59, 59), "0 min");
    assert_eq!(format_uptime(125, 124), "2 min");
}

#[test]
fn uptime_rounding_up_over_the_hour_does_not_fit() {
    assert!(!uptime_fits(3600, 3599));
    assert!(uptime_fits(3600, 3600));
    assert!(uptime_fits(3599, 3598));
}

#[test]
fn gpus_are_joined() {
    assert!(can_list_gpus("Intel UHD\nGeForce GTX 1650\n"));
    assert_eq!(gpu_list("Intel UHD\nGeForce GTX 1650\n"), "Intel UHD, GeForce GTX 1650");
    assert_eq!(gpu_list("Radeon\n"), "Radeon");
}

#[test]
fn gpu_list_cuts_two_bytes() {
    assert_eq!(gpu_list("abcd"), "ab");
    assert_eq!(gpu_list("x\u{e9}"), "x");
    assert_eq!(gpu_list("\u{e9}\n"), "\u{e9}");
}

#[test]
fn gpu_list_refuses_what_cannot_be_cut() {
    assert!(!can_list_gpus(""));
    assert!(!can_list_gpus("a"));
    assert!(!can_list_gpus("x\u{20ac}"));
    assert!(!can_list_gpus("\u{e9}a"));
}

#[test]
fn model_joins_name_and_version() {
    assert_eq!(model_name("ThinkPad X1\n", "Gen 9\n"), "ThinkPad X1 Gen 9 ");
}

#[test]
fn users_are_trimmed_and_joined() {
    assert_eq!(user_names("alice\nbob\n"), "alice, bob");
    assert_eq!(user_names(""), "");
}

#[test]
fn packages_are_listed() {
    let counts = vec![("pacman".to_string(), 1203u64), ("flatpak".to_string(), 7u64)];
    assert_eq!(package_summary(&counts), "pacman (1203) flatpak (7) ");
    assert_eq!(package_summary(&Vec::new()), "");
}

#[test]
fn memory_in_use() {
    assert!(memory_fits(16_000_000, 8_000_000));
    assert_eq!(memory_used_mib(16_000_000, 8_000_000), 15625 - 7812);
    assert!(!memory_fits(1024, 2048));
    assert_eq!(memory_used_mib(2047, 1024), 0);
}

#[test]
fn gpu_list_splits_back_into_lines() {
    let raw = "Intel UHD 620\nGeForce MX150\n";
    let list = gpu_list(raw);
    assert_eq!(list.split(", ").collect::<Vec<_>>(), raw.lines().collect::<Vec<_>>());
}
