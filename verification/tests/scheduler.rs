use avion_messager::calendar::Event;
use avion_messager::scheduler::{
    due, event_key, gates_blocked, join_key, kept_for_start, prune_fired, trigger_time, FiredSet,
};
use avion_messager::time::Moment;
use chrono::{DateTime, Local, Offset, TimeZone};

fn moment(dt: DateTime<Local>) -> Moment {
    Moment::from_parts(dt.timestamp(), dt.timestamp_subsec_nanos(), dt.offset().fix().local_minus_utc())
        .unwrap()
}

fn t(h: u32, m: u32) -> Moment {
    moment(Local.with_ymd_and_hms(2026, 7, 5, h, m, 0).unwrap())
}

fn ev(summary: &str, start: Moment) -> Event {
    Event { summary: summary.into(), start, end: start }
}

#[test]
fn instant_declenchement_soustrait_le_delai() {
    assert_eq!(trigger_time(t(14, 30), 10), t(14, 20));
}

#[test]
fn du_dans_la_fenetre_seulement() {
    let events = [ev("Réu", t(14, 30))];
    let none = FiredSet::new();
    assert!(due(&events, t(14, 25), 10, &none).is_some());
    assert!(due(&events, t(14, 10), 10, &none).is_none());
    assert!(due(&events, t(14, 31), 10, &none).is_none());
    assert!(due(&events, t(14, 20), 10, &none).is_some());
    assert!(due(&events, t(14, 30), 10, &none).is_none());
}

#[test]
fn du_ignore_les_cles_deja_declenchees() {
    let events = [ev("Réu", t(14, 30))];
    let mut fired = FiredSet::new();
    fired.insert(event_key(&events[0]));
    assert!(due(&events, t(14, 25), 10, &fired).is_none());
}

#[test]
fn du_prend_le_debut_le_plus_proche() {
    let events = [ev("Loin", t(14, 40)), ev("Proche", t(14, 32))];
    let none = FiredSet::new();
    let got = due(&events, t(14, 31), 10, &none).unwrap();
    assert_eq!(got.summary, "Proche");
}

#[test]
fn portes_pause_ou_anti_reunion_en_cours() {
    assert!(gates_blocked(true, false, false));
    assert!(gates_blocked(true, true, true));
    assert!(gates_blocked(false, true, true));
    assert!(!gates_blocked(false, true, false));
    assert!(!gates_blocked(false, false, true));
    assert!(!gates_blocked(false, false, false));
}

#[test]
fn purge_retire_passe_garde_futur_et_illisible() {
    let past = ev("Vieille", t(9, 0));
    let future = ev("Future", t(15, 0));
    let mut fired = FiredSet::new();
    fired.insert(event_key(&past));
    fired.insert(event_key(&future));
    fired.insert("n'importe quoi sans date".to_string());
    prune_fired(&mut fired, t(10, 0));
    assert!(!fired.contains(&event_key(&past)));
    assert!(fired.contains(&event_key(&future)));
    assert!(fired.contains("n'importe quoi sans date"));
}

#[test]
fn due_first_of_equal_starts_and_after_announcing() {
    let events = [ev("Un", t(14, 32)), ev("Deux", t(14, 32))];
    let mut fired = FiredSet::new();
    let got = due(&events, t(14, 25), 10, &fired).unwrap();
    assert_eq!(got.summary, "Un");
    let key = event_key(got);
    fired.insert(key);
    assert_eq!(due(&events, t(14, 25), 10, &fired).unwrap().summary, "Deux");
    fired.insert(event_key(&events[1]));
    assert!(due(&events, t(14, 25), 10, &fired).is_none());
}

#[test]
fn event_key_is_start_then_title() {
    let at = Moment::from_parts(1_783_258_200, 0, 7200).unwrap();
    let e = ev("Point produit", at);
    assert_eq!(event_key(&e), "2026-07-05T15:30:00+02:00|Point produit");
}

#[test]
fn fired_set_insert_reports_novelty() {
    let mut fired = FiredSet::new();
    assert!(fired.insert("a".to_string()));
    assert!(!fired.insert("a".to_string()));
    assert!(fired.contains("a"));
    assert!(!fired.contains("b"));
}

#[test]
fn prune_keeps_meeting_starting_now() {
    let now = t(10, 0);
    let mut fired = FiredSet::new();
    let key = event_key(&ev("Maintenant", now));
    fired.insert(key.clone());
    prune_fired(&mut fired, now);
    assert!(fired.contains(&key));
}

#[test]
fn kept_for_start_compares_with_now() {
    let now = Moment::from_parts(1000, 500, 0).unwrap();
    assert!(kept_for_start(None, &now));
    assert!(kept_for_start(Some((1000, 500)), &now));
    assert!(kept_for_start(Some((1001, 0)), &now));
    assert!(!kept_for_start(Some((1000, 499)), &now));
    assert!(!kept_for_start(Some((999, 999_999_999)), &now));
}

#[test]
fn join_key_layout() {
    assert_eq!(join_key("2026-07-05T14:30:00+02:00", "Réu"), "2026-07-05T14:30:00+02:00|Réu");
}
