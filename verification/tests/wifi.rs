use extender_protocol::wifi::{current_ssid, current_wifi, WifiInfo};

const AIRPORT_OUTPUT: &str = "     agrCtlRSSI: -55\n     agrExtRSSI: 0\n    agrCtlNoise: -94\n          state: running\n        op mode: station \n     lastTxRate: 702\n        maxRate: 867\nlastAssocStatus: 0\n    802.11 auth: open\n      link auth: wpa2-psk\n          BSSID: aa:bb:cc:dd:ee:ff\n           SSID: MyNetwork\n            MCS: 8\n        channel: 36,80\n";

#[test]
fn ssid_is_read_from_airport_output() {
    assert_eq!(current_ssid(AIRPORT_OUTPUT), Some("MyNetwork".to_string()));
}

#[test]
fn ssid_is_trimmed_and_keeps_inner_spaces() {
    assert_eq!(current_ssid("  SSID:   Cafe Free Wifi  \r\n"), Some("Cafe Free Wifi".to_string()));
    assert_eq!(current_ssid("\u{3000}SSID: Netz\u{a0}"), Some("Netz".to_string()));
}

#[test]
fn no_ssid_line_gives_none() {
    assert_eq!(current_ssid(""), None);
    assert_eq!(current_ssid("\n\n"), None);
    assert_eq!(current_ssid("          BSSID: aa:bb\n   state: init\n"), None);
    assert_eq!(current_ssid("SSID:NoSpace"), None);
}

#[test]
fn empty_ssid_is_skipped_for_a_later_one() {
    assert_eq!(current_ssid("SSID:  \nSSID: Second\nSSID: Third"), Some("Second".to_string()));
    assert_eq!(current_ssid("SSID: "), None);
}

#[test]
fn ssid_may_hold_non_ascii() {
    assert_eq!(current_ssid("SSID: Café ☕"), Some("Café ☕".to_string()));
}

#[test]
fn current_wifi_has_wpa_and_no_password() {
    let info = current_wifi(AIRPORT_OUTPUT).unwrap();
    assert_eq!(info.ssid, "MyNetwork");
    assert_eq!(info.password, None);
    assert_eq!(info.auth, "WPA");
    assert_eq!(info.masked_password(), None);
    assert!(current_wifi("state: init").is_none());
}

#[test]
fn masked_password_hides_each_character() {
    let info = WifiInfo { ssid: "n".to_string(), password: Some("secret".to_string()), auth: "WPA".to_string() };
    assert_eq!(info.masked_password(), Some("••••••".to_string()));
}

#[test]
fn masked_password_counts_characters_not_bytes() {
    let info = WifiInfo { ssid: "n".to_string(), password: Some("éé".to_string()), auth: "WPA".to_string() };
    assert_eq!(info.masked_password(), Some("••".to_string()));
}

#[test]
fn masked_password_shows_at_most_twelve() {
    let info = WifiInfo {
        ssid: "n".to_string(),
        password: Some("a-very-long-password-indeed".to_string()),
        auth: "WPA".to_string(),
    };
    assert_eq!(info.masked_password(), Some("•".repeat(12)));
    let empty = WifiInfo { ssid: "n".to_string(), password: Some(String::new()), auth: "nopass".to_string() };
    assert_eq!(empty.masked_password(), Some(String::new()));
}
