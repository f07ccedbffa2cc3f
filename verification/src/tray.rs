//! The tray menu, as a list of items built from the application state.

use vstd::prelude::*;

use crate::text::{decimal, push_decimal, string_from_chars};

verus! {

broadcast use vstd::string::group_string_axioms;

/// An entry of the tray menu.
#[allow(inconsistent_fields)]
pub enum Item {
    /// A command; disabled entries are shown greyed out.
    Action { id: &'static str, label: String, enabled: bool },
    /// A toggle with a check mark.
    Check { id: String, label: String, checked: bool },
    /// A nested menu.
    Submenu { label: String, items: Vec<Item> },
    Separator,
}

/// What the menu shows.
pub struct MenuState {
    pub connected: bool,
    /// Banner text of each upcoming meeting and whether it has a video link.
    pub upcoming: Vec<(String, bool)>,
    pub paused: bool,
    pub suppress_during_meeting: bool,
    pub lead_minutes: u32,
}

/// Lead times offered in the "Délai avant réunion" submenu, in minutes.
pub const LEAD_CHOICES: [u32; 5] = [2, 5, 10, 15, 30];

/// Ids of the clickable meeting rows (they open the video link); the index is
/// the position among the upcoming meetings.
pub const MEET_IDS: [&'static str; 5] = ["meet_0", "meet_1", "meet_2", "meet_3", "meet_4"];

/// Most meetings listed in the menu.
pub const MAX_MEETING_ROWS: usize = 5;

/// An entry of the menu as text and flags.
pub enum ItemView {
    Action { id: Seq<char>, label: Seq<char>, enabled: bool },
    Check { id: Seq<char>, label: Seq<char>, checked: bool },
    Submenu { label: Seq<char>, items: Seq<ItemView> },
    Separator,
}

/// The entry as text and flags.
pub open spec fn item_view(it: Item) -> ItemView
    decreases it,
{
    match it {
        Item::Action { id, label, enabled } => ItemView::Action { id: id@, label: label@, enabled },
        Item::Check { id, label, checked } => ItemView::Check { id: id@, label: label@, checked },
        Item::Submenu { label, items } => ItemView::Submenu {
            label: label@,
            items: items_view(items@),
        },
        Item::Separator => ItemView::Separator,
    }
}

/// The entries as text and flags.
pub open spec fn items_view(items: Seq<Item>) -> Seq<ItemView>
    decreases items,
{
    if items.len() == 0 {
        Seq::empty()
    } else {
        seq![item_view(items[0])] + items_view(items.subrange(1, items.len() as int))
    }
}

/// The lead times of the submenu.
pub open spec fn lead_choices() -> Seq<u32> {
    seq![2u32, 5u32, 10u32, 15u32, 30u32]
}

/// The row of a lead time, checked when it is the current one.
pub open spec fn lead_row(minutes: u32, current: u32) -> ItemView {
    ItemView::Check {
        id: "lead_"@ + decimal(minutes as nat),
        label: decimal(minutes as nat) + " min"@,
        checked: current == minutes,
    }
}

/// The rows of the lead-time submenu.
pub open spec fn lead_rows(current: u32) -> Seq<ItemView> {
    Seq::new(5, |i: int| lead_row(lead_choices()[i], current))
}

/// The rows of the upcoming meetings: at most five, clickable when the
/// meeting has a video link.
pub open spec fn meeting_rows(upcoming: Seq<(String, bool)>) -> Seq<ItemView> {
    let n = if upcoming.len() < 5 {
        upcoming.len() as int
    } else {
        5
    };
    Seq::new(
        n as nat,
        |i: int|
            ItemView::Action {
                id: "meet_"@ + decimal(i as nat),
                label: upcoming[i].0@,
                enabled: upcoming[i].1,
            },
    )
}

/// The account entry, a separator and the header of the meeting list.
pub open spec fn account_section(connected: bool) -> Seq<ItemView> {
    let account = if connected {
        ItemView::Action { id: "disconnect"@, label: "Se déconnecter"@, enabled: true }
    } else {
        ItemView::Action { id: "connect"@, label: "Se connecter à Google"@, enabled: true }
    };
    seq![
        account,
        ItemView::Separator,
        ItemView::Action { id: "header"@, label: "Prochaines réunions :"@, enabled: false },
    ]
}

/// The upcoming meetings, or a placeholder when there are none.
pub open spec fn meetings_section(upcoming: Seq<(String, bool)>) -> Seq<ItemView> {
    if upcoming.len() == 0 {
        seq![
            ItemView::Action {
                id: "none"@,
                label: "Aucune réunion à venir"@,
                enabled: false,
            },
        ]
    } else {
        meeting_rows(upcoming)
    }
}

/// The toggles, the lead-time submenu, the flight on demand, the update
/// check and quit.
pub open spec fn settings_section(
    paused: bool,
    suppress_during_meeting: bool,
    lead_minutes: u32,
) -> Seq<ItemView> {
    seq![
        ItemView::Separator,
        ItemView::Check { id: "pause"@, label: "En pause"@, checked: paused },
        ItemView::Check {
            id: "suppress_meeting"@,
            label: "Pas d'avion pendant une réunion"@,
            checked: suppress_during_meeting,
        },
        ItemView::Submenu { label: "Délai avant réunion"@, items: lead_rows(lead_minutes) },
        ItemView::Action { id: "fly"@, label: "Faire passer l'avion"@, enabled: true },
        ItemView::Separator,
        ItemView::Action {
            id: "check_updates"@,
            label: "Rechercher des mises à jour"@,
            enabled: true,
        },
        ItemView::Action { id: "quit"@, label: "Quitter"@, enabled: true },
    ]
}

/// The whole menu: account entry, upcoming meetings, toggles, lead-time
/// submenu, flight on demand, update check, quit.
pub open spec fn expected_menu(s: MenuState) -> Seq<ItemView> {
    account_section(s.connected) + meetings_section(s.upcoming@) + settings_section(
        s.paused,
        s.suppress_during_meeting,
        s.lead_minutes,
    )
}

proof fn lemma_items_view_push(items: Seq<Item>, it: Item)
    ensures
        items_view(items.push(it)) == items_view(items).push(item_view(it)),
    decreases items.len(),
{
    if items.len() == 0 {
        assert(items.push(it).subrange(1, 1) =~= Seq::<Item>::empty());
        assert(items_view(Seq::<Item>::empty()) =~= Seq::<ItemView>::empty());
        assert(items_view(items.push(it)) =~= seq![item_view(it)]);
        assert(items_view(items) =~= Seq::<ItemView>::empty());
    } else {
        let rest = items.subrange(1, items.len() as int);
        lemma_items_view_push(rest, it);
        assert(items.push(it).subrange(1, items.len() as int + 1) =~= rest.push(it));
        assert(items.push(it)[0] == items[0]);
        assert(items_view(items.push(it)) =~= items_view(items).push(item_view(it)));
    }
}

/// A new string holding `s`.
fn owned(s: &str) -> (r: String)
    ensures
        r@ == s@,
{
    let mut r = String::new();
    r.append(s);
    r
}

/// Id of the meeting row at `i`.
fn meet_id(i: usize) -> (id: &'static str)
    requires
        i < 5,
    ensures
        id@ == "meet_"@ + decimal(i as nat),
{
    proof {
        reveal_strlit("meet_");
        reveal_strlit("meet_0");
        reveal_strlit("meet_1");
        reveal_strlit("meet_2");
        reveal_strlit("meet_3");
        reveal_strlit("meet_4");
    }
    let id = MEET_IDS[i];
    assert(MEET_IDS@ == seq!["meet_0", "meet_1", "meet_2", "meet_3", "meet_4"]);
    assert(id@ =~= "meet_"@ + decimal(i as nat));
    id
}

/// Appends `item` to `items`.
fn push_item(items: &mut Vec<Item>, item: Item)
    ensures
        items_view(final(items)@) == items_view(old(items)@).push(item_view(item)),
{
    proof {
        lemma_items_view_push(old(items)@, item);
    }
    items.push(item);
}

/// The rows of the lead-time submenu.
fn lead_items(current: u32) -> (items: Vec<Item>)
    ensures
        items_view(items@) == lead_rows(current),
{
    let mut items: Vec<Item> = Vec::new();
    let mut k: usize = 0;
    assert(LEAD_CHOICES@ == lead_choices());
    assert(items_view(items@) =~= Seq::<ItemView>::empty());
    while k < 5
        invariant
            k <= 5,
            LEAD_CHOICES@ == lead_choices(),
            items_view(items@) == lead_rows(current).take(k as int),
        decreases 5 - k,
    {
        let m = LEAD_CHOICES[k];
        let mut id_chars: Vec<char> = Vec::new();
        id_chars.push('l');
        id_chars.push('e');
        id_chars.push('a');
        id_chars.push('d');
        id_chars.push('_');
        push_decimal(&mut id_chars, m);
        let mut label_chars: Vec<char> = Vec::new();
        push_decimal(&mut label_chars, m);
        label_chars.push(' ');
        label_chars.push('m');
        label_chars.push('i');
        label_chars.push('n');
        let item = Item::Check {
            id: string_from_chars(id_chars.as_slice()),
            label: string_from_chars(label_chars.as_slice()),
            checked: current == m,
        };
        assert(item_view(item) == lead_row(m, current)) by {
            reveal_strlit("lead_");
            reveal_strlit(" min");
            assert(id_chars@ =~= "lead_"@ + decimal(m as nat));
            assert(label_chars@ =~= decimal(m as nat) + " min"@);
        }
        push_item(&mut items, item);
        assert(lead_rows(current).take(k + 1) =~= lead_rows(current).take(k as int).push(
            lead_row(m, current),
        ));
        k = k + 1;
    }
    assert(lead_rows(current).take(5) =~= lead_rows(current));
    items
}

fn push_account(items: &mut Vec<Item>, connected: bool)
    ensures
        items_view(final(items)@) == items_view(old(items)@) + account_section(connected),
{
    let ghost start = items_view(items@);
    if connected {
        push_item(
            items,
            Item::Action { id: "disconnect", label: owned("Se déconnecter"), enabled: true },
        );
    } else {
        push_item(
            items,
            Item::Action { id: "connect", label: owned("Se connecter à Google"), enabled: true },
        );
    }
    push_item(items, Item::Separator);
    push_item(
        items,
        Item::Action { id: "header", label: owned("Prochaines réunions :"), enabled: false },
    );
    assert(items_view(items@) =~= start + account_section(connected));
}

fn push_meetings(items: &mut Vec<Item>, upcoming: &Vec<(String, bool)>)
    ensures
        items_view(final(items)@) == items_view(old(items)@) + meetings_section(upcoming@),
{
    let ghost head = items_view(items@);
    if upcoming.len() == 0 {
        push_item(
            items,
            Item::Action { id: "none", label: owned("Aucune réunion à venir"), enabled: false },
        );
        assert(items_view(items@) =~= head + meetings_section(upcoming@));
    } else {
        let n: usize = if upcoming.len() < MAX_MEETING_ROWS {
            upcoming.len()
        } else {
            MAX_MEETING_ROWS
        };
        let mut i: usize = 0;
        assert(head + meeting_rows(upcoming@).take(0) =~= head);
        while i < n
            invariant
                i <= n,
                n == if upcoming@.len() < 5 {
                    upcoming@.len() as int
                } else {
                    5
                },
                items_view(items@) == head + meeting_rows(upcoming@).take(i as int),
            decreases n - i,
        {
            let line = &upcoming[i];
            let item = Item::Action { id: meet_id(i), label: line.0.clone(), enabled: line.1 };
            push_item(items, item);
            assert(meeting_rows(upcoming@).take(i + 1) =~= meeting_rows(upcoming@).take(
                i as int,
            ).push(item_view(item)));
            assert(items_view(items@) =~= head + meeting_rows(upcoming@).take(i + 1));
            i = i + 1;
        }
        assert(meeting_rows(upcoming@).take(n as int) =~= meeting_rows(upcoming@));
    }
}

fn push_settings(items: &mut Vec<Item>, paused: bool, suppress_during_meeting: bool, lead_minutes: u32)
    ensures
        items_view(final(items)@) == items_view(old(items)@) + settings_section(
            paused,
            suppress_during_meeting,
            lead_minutes,
        ),
{
    let ghost start = items_view(items@);
    push_item(items, Item::Separator);
    push_item(items, Item::Check { id: owned("pause"), label: owned("En pause"), checked: paused });
    push_item(
        items,
        Item::Check {
            id: owned("suppress_meeting"),
            label: owned("Pas d'avion pendant une réunion"),
            checked: suppress_during_meeting,
        },
    );
    push_item(
        items,
        Item::Submenu { label: owned("Délai avant réunion"), items: lead_items(lead_minutes) },
    );
    push_item(items, Item::Action { id: "fly", label: owned("Faire passer l'avion"), enabled: true });
    push_item(items, Item::Separator);
    push_item(
        items,
        Item::Action {
            id: "check_updates",
            label: owned("Rechercher des mises à jour"),
            enabled: true,
        },
    );
    push_item(items, Item::Action { id: "quit", label: owned("Quitter"), enabled: true });
    assert(items_view(items@) =~= start + settings_section(paused, suppress_during_meeting, lead_minutes));
}

/// Builds the tray menu from the state, in its fixed order.
pub fn menu_items(s: &MenuState) -> (items: Vec<Item>)
    ensures
        items_view(items@) == expected_menu(*s),
{
    let mut items: Vec<Item> = Vec::new();
    assert(items_view(items@) =~= Seq::<ItemView>::empty());
    push_account(&mut items, s.connected);
    push_meetings(&mut items, &s.upcoming);
    push_settings(&mut items, s.paused, s.suppress_during_meeting, s.lead_minutes);
    assert(items_view(items@) =~= expected_menu(*s));
    items
}

/// The menu has eleven fixed entries plus one row per upcoming meeting, at
/// most five, or one placeholder row when there is none; the lead-time
/// submenu offers the five choices and checks exactly the current one.
pub proof fn law_menu_shape(s: MenuState)
    ensures
        expected_menu(s).len() == 11 + if s.upcoming@.len() == 0 {
            1
        } else if s.upcoming@.len() < 5 {
            s.upcoming@.len() as int
        } else {
            5
        },
        lead_rows(s.lead_minutes).len() == 5,
        forall|i: int|
            0 <= i < 5 ==> (#[trigger] lead_rows(s.lead_minutes)[i] matches ItemView::Check {
                checked,
                ..
            } && checked == (s.lead_minutes == lead_choices()[i])),
{
}

/// The menu shows the state it is built from: the account entry offers to
/// disconnect exactly when connected; each listed meeting row carries that
/// meeting's text and is clickable exactly when the meeting has a video link;
/// the pause row is checked exactly when paused, the quiet-meeting row exactly
/// when meetings are quiet, and the lead row of the current lead is the one
/// checked.
pub proof fn law_menu_reflects_state(s: MenuState)
    ensures
        ({
            let m = expected_menu(s);
            let n = m.len() as int;
            &&& m[0] matches ItemView::Action { id, .. } && (id == "disconnect"@ <==> s.connected)
            &&& forall|i: int|
                0 <= i < s.upcoming@.len() && i < 5 ==> (#[trigger] m[3 + i] matches ItemView::Action {
                    label,
                    enabled,
                    ..
                } && label == s.upcoming@[i].0@ && enabled == s.upcoming@[i].1)
            &&& m[n - 7] matches ItemView::Check { id, label, checked } && id == "pause"@ && label
                == "En pause"@ && checked == s.paused
            &&& m[n - 6] matches ItemView::Check { id, checked, .. } && id == "suppress_meeting"@
                && checked == s.suppress_during_meeting
            &&& m[n - 5] matches ItemView::Submenu { items, .. } && items.len() == 5 && forall|i: int|
                0 <= i < 5 ==> (#[trigger] items[i] matches ItemView::Check { checked, .. } && checked
                    == (s.lead_minutes == seq![2u32, 5u32, 10u32, 15u32, 30u32][i]))
        }),
{
    reveal_strlit("disconnect");
    reveal_strlit("connect");
    let a = account_section(s.connected);
    let mt = meetings_section(s.upcoming@);
    let st = settings_section(s.paused, s.suppress_during_meeting, s.lead_minutes);
    let m = expected_menu(s);
    assert(m == a + mt + st);
    assert(a.len() == 3);
    assert(st.len() == 8);
    let n = m.len() as int;
    assert(m[0] == a[0]);
    assert(m[n - 7] == st[1]);
    assert(m[n - 6] == st[2]);
    assert(m[n - 5] == st[3]);
    assert("disconnect"@ != "connect"@) by {
        assert("disconnect"@.len() != "connect"@.len());
    }
    assert forall|i: int| 0 <= i < s.upcoming@.len() && i < 5 implies (#[trigger] m[3 + i] matches ItemView::Action {
        label,
        enabled,
        ..
    } && label == s.upcoming@[i].0@ && enabled == s.upcoming@[i].1) by {
        assert(m[3 + i] == mt[i]);
    }
    assert(lead_choices() == seq![2u32, 5u32, 10u32, 15u32, 30u32]);
}

} // verus!
