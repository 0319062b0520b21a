use bills::menu::run_main_menu;
use bills::menu::MainMenu;
use bills::menu::MenuState;
use bills::menu::Notice;
use bills::store::Bills;

fn parse_bits(line: &Option<String>) -> Option<u64> {
    match line {
        Some(s) => s.parse::<f64>().ok().map(f64::to_bits),
        None => None,
    }
}

fn step(state: MenuState, bills: &mut Bills, line: Option<&str>) -> (MenuState, Notice) {
    let line = line.map(|s| s.to_string());
    let bits = parse_bits(&line);
    run_main_menu(state, bills, line, bits)
}

#[test]
fn selection_parses_the_three_options() {
    assert_eq!(MainMenu::from_str("1"), Some(MainMenu::AddBill));
    assert_eq!(MainMenu::from_str("2"), Some(MainMenu::ViewBill));
    assert_eq!(MainMenu::from_str("3"), Some(MainMenu::RemoveBill));
    assert_eq!(MainMenu::from_str(""), None);
    assert_eq!(MainMenu::from_str("4"), None);
    assert_eq!(MainMenu::from_str("12"), None);
    assert_eq!(MainMenu::from_str("x"), None);
}

#[test]
fn empty_or_unrecognized_selection_ends_the_session() {
    let mut bills = Bills::new();
    let (st, n) = step(MenuState::AtMenu, &mut bills, None);
    assert_eq!(st, MenuState::Finished);
    assert_eq!(n, Notice::Quiet);
    let (st, n) = step(MenuState::AtMenu, &mut bills, Some("quit"));
    assert_eq!(st, MenuState::Finished);
    assert_eq!(n, Notice::Quiet);
}

#[test]
fn amount_subroutine_reprompts_then_accepts() {
    let mut bills = Bills::new();
    let st = MenuState::AddAwaitAmount("Rent".to_string());
    let (st, n) = step(st, &mut bills, Some("abc"));
    assert_eq!(n, Notice::AmountRetry);
    assert_eq!(st, MenuState::AddAwaitAmount("Rent".to_string()));
    assert_eq!(bills.get_all().len(), 0);
    let (st, n) = step(st, &mut bills, Some("12.5"));
    assert_eq!(n, Notice::BillAdded);
    assert_eq!(st, MenuState::AtMenu);
    let all = bills.get_all();
    assert_eq!(all.len(), 1);
    assert_eq!(all[0].name, "Rent");
    assert_eq!(f64::from_bits(all[0].amount), 12.5);
}

#[test]
fn amount_subroutine_blank_line_aborts() {
    let mut bills = Bills::new();
    let st = MenuState::AddAwaitAmount("Rent".to_string());
    let (st, n) = step(st, &mut bills, None);
    assert_eq!(st, MenuState::AtMenu);
    assert_eq!(n, Notice::Quiet);
    assert_eq!(bills.get_all().len(), 0);
}

#[test]
fn add_flow_aborts_on_blank_name() {
    let mut bills = Bills::new();
    let (st, n) = step(MenuState::AddAwaitName, &mut bills, None);
    assert_eq!(st, MenuState::AtMenu);
    assert_eq!(n, Notice::Quiet);
    assert_eq!(bills.get_all().len(), 0);
}

#[test]
fn view_selection_lists_and_returns_to_menu() {
    let mut bills = Bills::new();
    let (st, n) = step(MenuState::AtMenu, &mut bills, Some("2"));
    assert_eq!(st, MenuState::AtMenu);
    assert_eq!(n, Notice::ShowAll);
}

#[test]
fn remove_flow_reports_removed_or_not_found() {
    let mut bills = Bills::new();
    let (st, n) = step(MenuState::AtMenu, &mut bills, Some("3"));
    assert_eq!(st, MenuState::RemoveAwaitName);
    assert_eq!(n, Notice::ShowAll);
    let (st, n) = step(st, &mut bills, Some("Rent"));
    assert_eq!(st, MenuState::AtMenu);
    assert_eq!(n, Notice::NotFound);
}

#[test]
fn full_session_adds_views_and_removes() {
    let mut bills = Bills::new();
    let (st, _) = step(MenuState::AtMenu, &mut bills, Some("1"));
    assert_eq!(st, MenuState::AddAwaitName);
    let (st, _) = step(st, &mut bills, Some("Rent"));
    assert_eq!(st, MenuState::AddAwaitAmount("Rent".to_string()));
    let (st, n) = step(st, &mut bills, Some("1200"));
    assert_eq!((&st, n), (&MenuState::AtMenu, Notice::BillAdded));
    assert_eq!(f64::from_bits(bills.get_all()[0].amount), 1200.0);

    let (st, n) = step(st, &mut bills, Some("2"));
    assert_eq!((&st, n), (&MenuState::AtMenu, Notice::ShowAll));

    let (st, n) = step(st, &mut bills, Some("3"));
    assert_eq!((&st, n), (&MenuState::RemoveAwaitName, Notice::ShowAll));
    let (st, n) = step(st, &mut bills, Some("Rent"));
    assert_eq!((&st, n), (&MenuState::AtMenu, Notice::Removed));
    assert_eq!(bills.get_all().len(), 0);

    let (st, n) = step(st, &mut bills, None);
    assert_eq!((&st, n), (&MenuState::Finished, Notice::Quiet));
}

#[test]
fn remove_flow_blank_name_aborts() {
    let mut bills = Bills::new();
    let (st, n) = step(MenuState::RemoveAwaitName, &mut bills, None);
    assert_eq!((&st, n), (&MenuState::AtMenu, Notice::Quiet));
}
