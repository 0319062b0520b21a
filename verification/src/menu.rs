//! The menu state machine of the interactive session.
//!
//! The session shows a menu, reads a selection, runs one of three flows
//! (add, view, remove) and repeats until the selection is empty or
//! unrecognised. All reading and printing is the front end's job: it shows
//! the prompt that belongs to the current state, reads one line, and hands
//! the normalised line to [`run_main_menu`], which decides everything else
//! and performs the store operations.

use vstd::prelude::*;

use crate::input::is_amount_text;
use crate::input::is_float_literal;
use crate::store::Bill;
use crate::store::Bills;

verus! {

/// The three actions a user can pick from the main menu.
#[derive(Clone, Copy, Debug, PartialEq, Eq)]
pub enum MainMenu {
    AddBill,
    ViewBill,
    RemoveBill,
}

impl MainMenu {
    /// The selection the characters `s` stand for: `1`, `2` or `3` pick an
    /// action, anything else is no selection.
    pub open spec fn spec_from(s: Seq<char>) -> Option<MainMenu> {
        if s == seq!['1'] {
            Some(MainMenu::AddBill)
        } else if s == seq!['2'] {
            Some(MainMenu::ViewBill)
        } else if s == seq!['3'] {
            Some(MainMenu::RemoveBill)
        } else {
            None
        }
    }

    /// Parse a menu selection from trimmed input text.
    pub fn from_str(input: &str) -> (m: Option<MainMenu>)
        ensures
            m == Self::spec_from(input@),
    {
        if input.unicode_len() == 1 {
            let c = input.get_char(0);
            if c == '1' {
                proof {
                    assert(input@ =~= seq!['1']);
                }
                Some(MainMenu::AddBill)
            } else if c == '2' {
                proof {
                    assert(input@ =~= seq!['2']);
                }
                Some(MainMenu::ViewBill)
            } else if c == '3' {
                proof {
                    assert(input@ =~= seq!['3']);
                }
                Some(MainMenu::RemoveBill)
            } else {
                None
            }
        } else {
            None
        }
    }
}

/// Where the session stands: which input the front end must prompt for
/// next, or that the session is over.
#[derive(Debug, PartialEq, Eq)]
pub enum MenuState {
    /// Show the menu and read a selection.
    AtMenu,
    /// The add flow awaits the bill's name.
    AddAwaitName,
    /// The add flow awaits the amount for the named bill.
    AddAwaitAmount(String),
    /// The remove flow awaits the name to remove.
    RemoveAwaitName,
    /// The session is over.
    Finished,
}

/// What the front end should report after a step.
#[derive(Clone, Copy, Debug, PartialEq, Eq)]
pub enum Notice {
    /// Nothing to report.
    Quiet,
    /// List all bills (after a view selection, and before the remove
    /// flow's prompt).
    ShowAll,
    /// The amount did not parse; ask again.
    AmountRetry,
    /// A bill was added.
    BillAdded,
    /// The named bill was removed.
    Removed,
    /// No bill of that name exists.
    NotFound,
}

/// Run one turn of the main menu: from the session's state and one line of
/// input, decide the next state, perform the store operation the turn
/// asks for, and say what to report.
///
/// `line` is the normalised input read for the current state (`None` for
/// empty input or end of input, the uniform abort signal). When the state
/// awaits an amount, `amount_bits` carries the bit pattern of the parsed
/// `f64` value of that line, or `None` where it does not parse; the step
/// stores a bill only when the line is a well-formed literal and a parsed
/// value is at hand.
pub fn run_main_menu(
    state: MenuState,
    bills: &mut Bills,
    line: Option<String>,
    amount_bits: Option<u64>,
) -> (r: (MenuState, Notice))
    requires
        old(bills).wf(),
    ensures
        final(bills).wf(),
        match state {
            MenuState::AtMenu => final(bills)@ == old(bills)@ && (match line {
                None => r == (MenuState::Finished, Notice::Quiet),
                Some(s) => r == (match MainMenu::spec_from(s@) {
                    Some(MainMenu::AddBill) => (MenuState::AddAwaitName, Notice::Quiet),
                    Some(MainMenu::ViewBill) => (MenuState::AtMenu, Notice::ShowAll),
                    Some(MainMenu::RemoveBill) => (MenuState::RemoveAwaitName, Notice::ShowAll),
                    None => (MenuState::Finished, Notice::Quiet),
                }),
            }),
            MenuState::AddAwaitName => final(bills)@ == old(bills)@ && (match line {
                None => r == (MenuState::AtMenu, Notice::Quiet),
                Some(name) => r == (MenuState::AddAwaitAmount(name), Notice::Quiet),
            }),
            MenuState::AddAwaitAmount(name) => (match line {
                None => final(bills)@ == old(bills)@ && r == (MenuState::AtMenu, Notice::Quiet),
                Some(s) => {
                    if is_float_literal(s@) && amount_bits is Some {
                        final(bills)@ == old(bills)@.insert(name@, amount_bits->Some_0) && r == (
                            MenuState::AtMenu,
                            Notice::BillAdded,
                        )
                    } else {
                        final(bills)@ == old(bills)@ && r == (
                            MenuState::AddAwaitAmount(name),
                            Notice::AmountRetry,
                        )
                    }
                },
            }),
            MenuState::RemoveAwaitName => (match line {
                None => final(bills)@ == old(bills)@ && r == (MenuState::AtMenu, Notice::Quiet),
                Some(name) => {
                    if old(bills)@.dom().contains(name@) {
                        final(bills)@ == old(bills)@.remove(name@) && r == (
                            MenuState::AtMenu,
                            Notice::Removed,
                        )
                    } else {
                        final(bills)@ == old(bills)@ && r == (MenuState::AtMenu, Notice::NotFound)
                    }
                },
            }),
            MenuState::Finished => final(bills)@ == old(bills)@ && r == (
                MenuState::Finished,
                Notice::Quiet,
            ),
        },
{
    match state {
        MenuState::AtMenu => {
            match line {
                None => (MenuState::Finished, Notice::Quiet),
                Some(s) => {
                    match MainMenu::from_str(s.as_str()) {
                        Some(MainMenu::AddBill) => (MenuState::AddAwaitName, Notice::Quiet),
                        Some(MainMenu::ViewBill) => (MenuState::AtMenu, Notice::ShowAll),
                        Some(MainMenu::RemoveBill) => (
                            MenuState::RemoveAwaitName,
                            Notice::ShowAll,
                        ),
                        None => (MenuState::Finished, Notice::Quiet),
                    }
                },
            }
        },
        MenuState::AddAwaitName => {
            match line {
                None => (MenuState::AtMenu, Notice::Quiet),
                Some(name) => (MenuState::AddAwaitAmount(name), Notice::Quiet),
            }
        },
        MenuState::AddAwaitAmount(name) => {
            match line {
                None => (MenuState::AtMenu, Notice::Quiet),
                Some(s) => {
                    if is_amount_text(s.as_str()) {
                        match amount_bits {
                            Some(b) => {
                                bills.add(Bill { name, amount: b });
                                (MenuState::AtMenu, Notice::BillAdded)
                            },
                            None => (MenuState::AddAwaitAmount(name), Notice::AmountRetry),
                        }
                    } else {
                        (MenuState::AddAwaitAmount(name), Notice::AmountRetry)
                    }
                },
            }
        },
        MenuState::RemoveAwaitName => {
            match line {
                None => (MenuState::AtMenu, Notice::Quiet),
                Some(name) => {
                    if bills.remove(name.as_str()) {
                        (MenuState::AtMenu, Notice::Removed)
                    } else {
                        (MenuState::AtMenu, Notice::NotFound)
                    }
                },
            }
        },
        MenuState::Finished => (MenuState::Finished, Notice::Quiet),
    }
}

} // verus!
