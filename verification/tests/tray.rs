use avion_messager::tray::{menu_items, Item, MenuState};

fn state() -> MenuState {
    MenuState {
        connected: true,
        upcoming: vec![("09 h 05 — Point produit".into(), false)],
        paused: false,
        suppress_during_meeting: true,
        lead_minutes: 10,
    }
}

#[test]
fn ordre_du_menu_connecte() {
    let items = menu_items(&state());
    assert!(matches!(&items[0], Item::Action { id: "disconnect", label, .. } if label == "Se déconnecter"));
    assert!(matches!(items[1], Item::Separator));
    assert!(matches!(&items[2], Item::Action { label, enabled: false, .. } if label == "Prochaines réunions :"));
    assert!(matches!(&items[3], Item::Action { label, enabled: false, .. } if label == "09 h 05 — Point produit"));
    assert!(matches!(items[4], Item::Separator));
    assert!(matches!(&items[5], Item::Check { id, label, checked: false } if id == "pause" && label == "En pause"));
    assert!(matches!(&items[6], Item::Check { id, label, checked: true } if id == "suppress_meeting" && label == "Pas d'avion pendant une réunion"));
    assert!(matches!(&items[7], Item::Submenu { label, .. } if label == "Délai avant réunion"));
    assert!(matches!(&items[8], Item::Action { id: "fly", label, .. } if label == "Faire passer l'avion"));
    assert!(matches!(items[9], Item::Separator));
    assert!(matches!(&items[10], Item::Action { id: "check_updates", label, .. } if label == "Rechercher des mises à jour"));
    assert!(matches!(&items[11], Item::Action { id: "quit", label, .. } if label == "Quitter"));
    assert_eq!(items.len(), 12);
}

#[test]
fn deconnecte_affiche_se_connecter() {
    let mut s = state();
    s.connected = false;
    let items = menu_items(&s);
    assert!(matches!(&items[0], Item::Action { id: "connect", label, .. } if label == "Se connecter à Google"));
}

#[test]
fn aucune_reunion_affiche_le_placeholder() {
    let mut s = state();
    s.upcoming.clear();
    let items = menu_items(&s);
    assert!(matches!(&items[3], Item::Action { label, enabled: false, .. } if label == "Aucune réunion à venir"));
}

#[test]
fn sous_menu_delai_coche_la_valeur_courante() {
    let items = menu_items(&state());
    let Item::Submenu { items: leads, .. } = &items[7] else { panic!() };
    assert_eq!(leads.len(), 5);
    assert!(matches!(&leads[0], Item::Check { id, label, checked: false } if id == "lead_2" && label == "2 min"));
    assert!(matches!(&leads[2], Item::Check { id, checked: true, .. } if id == "lead_10"));
    assert!(matches!(&leads[4], Item::Check { id, label, checked: false } if id == "lead_30" && label == "30 min"));
}

#[test]
fn plus_de_cinq_reunions_tronque_a_cinq() {
    let mut s = state();
    s.upcoming = (0..7).map(|i| (format!("{i:02} h 00 — Réu {i}"), false)).collect();
    let items = menu_items(&s);
    assert!(matches!(&items[3], Item::Action { label, enabled: false, .. } if label == "00 h 00 — Réu 0"));
    assert!(matches!(&items[7], Item::Action { label, enabled: false, .. } if label == "04 h 00 — Réu 4"));
    assert!(matches!(items[8], Item::Separator));
    assert_eq!(items.len(), 16);
}

#[test]
fn ligne_avec_visio_est_cliquable() {
    let mut s = state();
    s.upcoming = vec![
        ("09 h 05 — Visio".into(), true),
        ("11 h 00 — Sans visio".into(), false),
    ];
    let items = menu_items(&s);
    assert!(matches!(&items[3], Item::Action { id: "meet_0", enabled: true, .. }));
    assert!(matches!(&items[4], Item::Action { id: "meet_1", enabled: false, .. }));
}

#[test]
fn meeting_rows_ids_and_lead_not_offered() {
    let mut s = state();
    s.lead_minutes = 7;
    s.upcoming = (0..5).map(|i| (format!("r{i}"), i % 2 == 0)).collect();
    let items = menu_items(&s);
    assert!(matches!(&items[7], Item::Action { id: "meet_4", enabled: true, .. }));
    let Item::Submenu { items: leads, .. } = &items[11] else { panic!() };
    assert!(leads.iter().all(|it| matches!(it, Item::Check { checked: false, .. })));
}
