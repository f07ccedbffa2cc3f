use avion_messager::calendar::{meeting_in_progress, next_up, upcoming, Event};
use avion_messager::time::Moment;
use chrono::{DateTime, Local, Offset, TimeZone};

fn moment(dt: DateTime<Local>) -> Moment {
    Moment::from_parts(dt.timestamp(), dt.timestamp_subsec_nanos(), dt.offset().fix().local_minus_utc())
        .unwrap()
}

fn t(h: u32, m: u32) -> Moment {
    moment(Local.with_ymd_and_hms(2026, 7, 5, h, m, 0).unwrap())
}

fn ev(summary: &str, start: Moment, end: Moment) -> Event {
    Event { summary: summary.into(), start, end }
}

#[test]
fn reunion_en_cours_debut_inclus_fin_exclue() {
    let events = [ev("Réu", t(14, 0), t(15, 0))];
    assert!(!meeting_in_progress(&events, t(13, 59)));
    assert!(meeting_in_progress(&events, t(14, 0)));
    assert!(meeting_in_progress(&events, t(14, 30)));
    assert!(!meeting_in_progress(&events, t(15, 0)));
    assert!(!meeting_in_progress(&events, t(15, 1)));
}

#[test]
fn prochains_filtre_trie_tronque() {
    let events = [
        ev("A", t(15, 0), t(16, 0)),
        ev("B", t(9, 0), t(10, 0)),
        ev("C", t(11, 0), t(12, 0)),
    ];
    let got = upcoming(&events, t(10, 0), 5);
    assert_eq!(got, vec![events[2].clone(), events[0].clone()]);
    assert_eq!(upcoming(&events, t(10, 0), 1), vec![events[2].clone()]);
}

#[test]
fn prochains_tri_stable_a_debut_egal() {
    let events = [ev("X", t(11, 0), t(12, 0)), ev("Y", t(11, 0), t(12, 0))];
    let got = upcoming(&events, t(10, 0), 5);
    assert_eq!(got[0].summary, "X");
    assert_eq!(got[1].summary, "Y");
}

#[test]
fn prochain_est_le_premier_futur() {
    let events = [ev("A", t(15, 0), t(16, 0)), ev("C", t(11, 0), t(12, 0))];
    assert_eq!(next_up(&events, t(10, 0)), Some(events[1].clone()));
    assert_eq!(next_up(&events, t(16, 0)), None);
}

#[test]
fn upcoming_is_sorted_future_and_bounded() {
    let events = [
        ev("D", t(13, 0), t(14, 0)),
        ev("A", t(12, 0), t(13, 0)),
        ev("E", t(10, 0), t(11, 0)),
        ev("B", t(12, 0), t(12, 30)),
        ev("F", t(9, 0), t(9, 30)),
    ];
    let got = upcoming(&events, t(10, 0), 10);
    let names: Vec<&str> = got.iter().map(|e| e.summary.as_str()).collect();
    assert_eq!(names, vec!["A", "B", "D"]);
    assert!(upcoming(&events, t(10, 0), 0).is_empty());
    assert!(upcoming(&[], t(10, 0), 3).is_empty());
}

#[test]
fn in_progress_with_several_events() {
    let events = [ev("A", t(9, 0), t(9, 30)), ev("B", t(10, 0), t(11, 0))];
    assert!(meeting_in_progress(&events, t(10, 15)));
    assert!(!meeting_in_progress(&events, t(9, 45)));
    assert!(!meeting_in_progress(&[], t(9, 45)));
}
