use avion_messager::settings::{Settings, APP_ID};

#[test]
fn default_settings() {
    let s = Settings::default();
    assert_eq!(s.lead_minutes, 10);
    assert!(!s.paused);
    assert!(s.suppress_during_meeting);
    assert!(s.autostart);
    assert_eq!(APP_ID, "com.pierre.avionmessager");
}
