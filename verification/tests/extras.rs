use records::inventory::{is_in_stock, Item};
use records::staff::{try_access, Employee, Position, Status};
use records::tickets::{Ticket, Tickets};

#[test]
fn tickets_come_back_in_insertion_order() {
    let mut tickets = Tickets::new();
    tickets.add(Ticket::BackStage(50, "backstage".to_owned()));
    tickets.add(Ticket::Vip(40, "vip".to_owned()));
    tickets.add(Ticket::Standard(10));
    let all = tickets.get_all();
    assert_eq!(all.len(), 3);
    assert!(matches!(&all[0], Ticket::BackStage(50, h) if h == "backstage"));
    assert!(matches!(&all[1], Ticket::Vip(40, h) if h == "vip"));
    assert!(matches!(&all[2], Ticket::Standard(10)));
}

#[test]
fn an_empty_ticket_collection_stays_empty() {
    let tickets = Tickets::new();
    assert!(tickets.get_all().is_empty());
}

#[test]
fn stock_check_fails_only_at_zero() {
    let chairs = Item { name: "Chair".to_owned(), number: 5 };
    let couches = Item { name: "Couches".to_owned(), number: 0 };
    assert!(is_in_stock(&chairs).is_ok());
    assert_eq!(is_in_stock(&couches).unwrap_err(), "out of stock");
}

#[test]
fn terminated_employees_are_refused() {
    let employee = Employee { position: Position::Managers, status: Status::Terminated };
    assert_eq!(try_access(&employee).unwrap_err(), "terminated");
}

#[test]
fn active_employees_are_admitted_by_position() {
    let ok = [Position::Maintenance, Position::Marketing, Position::Managers];
    for position in ok {
        let employee = Employee { position, status: Status::Active };
        assert!(try_access(&employee).is_ok());
    }
    let refused = [
        Position::LineSupervisor,
        Position::KitchenStaff,
        Position::AssemblyTechnician,
    ];
    for position in refused {
        let employee = Employee { position, status: Status::Active };
        assert_eq!(try_access(&employee).unwrap_err(), "invalid position");
    }
}
