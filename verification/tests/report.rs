use rust_fetch::markup::colorize;
use rust_fetch::report::{
    battery_value, display_terminal, display_user, info_lines, kitty_badge, lay_out_art,
    rule_line, ArtPiece, Config, InfoLine, SystemFacts,
};

fn facts() -> SystemFacts {
    SystemFacts {
        user: "Alice".to_string(),
        host: "box".to_string(),
        os: "Arch Linux".to_string(),
        model: Some("ThinkPad ".to_string()),
        kernel: "6.9.1-arch1-1".to_string(),
        uptime: "2 hours, 3 mins".to_string(),
        packages: Some(String::new()),
        shell: "/bin/zsh".to_string(),
        desktop: "KDE".to_string(),
        gtk_theme: "Breeze".to_string(),
        gtk_icons: "breeze".to_string(),
        terminal: "Kitty \u{1F431}".to_string(),
        cpu: "AMD Ryzen 7".to_string(),
        cpu_usage: "3".to_string(),
        gpus: "Intel, AMD".to_string(),
        mem_total_kib: 16_000_000,
        mem_available_kib: 8_000_000,
        mem_percent: "50.00".to_string(),
        battery: Some(("87%".to_string(), "charging".to_string())),
        users: None,
        ip: "192.168.1.2".to_string(),
    }
}

fn field(line: &InfoLine) -> (String, String) {
    match line {
        InfoLine::Field { label, value } => (label.clone(), value.clone()),
        _ => panic!("not a field"),
    }
}

fn plain(line: &InfoLine) -> String {
    match line {
        InfoLine::Plain { text } => text.clone(),
        _ => panic!("not plain text"),
    }
}

fn pair(a: &str, b: &str) -> (String, String) {
    (a.to_string(), b.to_string())
}

#[test]
fn report_lines_in_order() {
    let lines = info_lines(&facts());
    assert_eq!(lines.len(), 19);
    match &lines[0] {
        InfoLine::Title { user, host } => {
            assert_eq!(user, "Alice");
            assert_eq!(host, "box");
        }
        _ => panic!("the first line is the title"),
    }
    assert_eq!(plain(&lines[1]), "\u{2014}".repeat(11));
    assert_eq!(field(&lines[2]), pair("OS:", "Arch Linux"));
    assert_eq!(field(&lines[3]), pair("Model:", "ThinkPad "));
    assert_eq!(field(&lines[4]), pair("Kernel:", "6.9.1-arch1-1"));
    assert_eq!(field(&lines[5]), pair("Uptime:", "2 hours, 3 mins"));
    assert_eq!(field(&lines[6]), pair("Packages:", "packages not found"));
    assert_eq!(field(&lines[7]), pair("Defualt Shell:", "/bin/zsh"));
    assert_eq!(field(&lines[8]), pair("DE/WM:", "KDE"));
    assert_eq!(field(&lines[9]), pair("GTK Theme:", "Breeze"));
    assert_eq!(field(&lines[10]), pair("GTK Icon Theme:", "breeze"));
    assert_eq!(field(&lines[11]), pair("Terminal:", "Kitty \u{1F431}"));
    assert_eq!(field(&lines[12]), pair("CPU:", "AMD Ryzen 7 (3%)"));
    assert_eq!(field(&lines[13]), pair("GPUs:", "Intel, AMD"));
    assert_eq!(field(&lines[14]), pair("Memory:", "7813Mib / 15625Mib (50.00%)"));
    assert_eq!(field(&lines[15]), pair("Battery:", "87% [charging]"));
    assert_eq!(field(&lines[16]), pair("Users:", "users not found"));
    assert_eq!(field(&lines[17]), pair("IP:", "192.168.1.2 [Local]"));
    assert_eq!(plain(&lines[18]), "");
}

#[test]
fn report_fallbacks() {
    let mut f = facts();
    f.model = None;
    f.shell = String::new();
    f.gpus = "Intel".to_string();
    f.battery = None;
    f.users = Some("alice, bob".to_string());
    f.packages = Some("pacman (3) ".to_string());
    let lines = info_lines(&f);
    assert_eq!(field(&lines[3]), pair("Model:", "Model not found"));
    assert_eq!(field(&lines[6]), pair("Packages:", "pacman (3) "));
    assert_eq!(field(&lines[7]), pair("Default Shell:", "defualt shell not found"));
    assert_eq!(field(&lines[13]), pair("GPU:", "Intel"));
    assert_eq!(field(&lines[15]), pair("Battery:", "battery info not found"));
    assert_eq!(field(&lines[16]), pair("Users:", "alice, bob"));
}

#[test]
fn battery_texts() {
    let r = |p: &str, s: &str| Some((p.to_string(), s.to_string()));
    assert_eq!(battery_value(&r("87%", "charging")), "87% [charging]");
    assert_eq!(battery_value(&r("87%", "")), "87%");
    assert_eq!(battery_value(&r("", "charging")), "battery info not found");
    assert_eq!(battery_value(&None), "battery info not found");
}

#[test]
fn user_and_terminal_are_title_cased() {
    assert_eq!(display_user("alice"), "Alice");
    assert_eq!(display_terminal("kitty"), "Kitty \u{1F431}");
    assert_eq!(display_terminal("alacritty"), "Alacritty");
}

#[test]
fn kitty_gets_a_badge() {
    assert_eq!(kitty_badge("Kitty".to_string()), "Kitty \u{1F431}");
    assert_eq!(kitty_badge("kitty".to_string()), "kitty");
    assert_eq!(kitty_badge("Konsole".to_string()), "Konsole");
}

#[test]
fn rule_is_as_long_as_the_title() {
    assert_eq!(rule_line("Bob", "box"), "\u{2014}".repeat(9));
    assert_eq!(rule_line("\u{e9}", ""), "\u{2014}".repeat(4));
}

#[test]
fn art_line_breaks_show_report_lines_in_order() {
    let (items, _) = colorize("a\n${red}b\n\n".chars().collect());
    let pieces = lay_out_art(&items);
    assert_eq!(pieces.len(), 5);
    assert!(matches!(&pieces[0], ArtPiece::Glyph { ch: 'a', color } if color == "blue"));
    assert!(matches!(&pieces[1], ArtPiece::Info { line: 0 }));
    assert!(matches!(&pieces[2], ArtPiece::Glyph { ch: 'b', color } if color == "red"));
    assert!(matches!(&pieces[3], ArtPiece::Info { line: 1 }));
    assert!(matches!(&pieces[4], ArtPiece::Info { line: 2 }));
}

#[test]
fn fallback_settings() {
    let c = Config::fallback();
    assert_eq!(c.info_color, "blue");
    assert_eq!(c.os, "arch");
}
