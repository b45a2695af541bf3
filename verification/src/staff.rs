//! Employees and their access rule.

use vstd::prelude::*;
use vstd::string::StringExecFns;

verus! {

/// Where an employee works.
pub enum Position {
    Maintenance,
    Marketing,
    Managers,
    LineSupervisor,
    KitchenStaff,
    AssemblyTechnician,
}

/// Whether an employee is still employed.
pub enum Status {
    Active,
    Terminated,
}

/// One employee: a position and a status.
pub struct Employee {
    pub position: Position,
    pub status: Status,
}

/// Whether the employee may enter: a terminated employee is refused
/// outright, an active one is admitted exactly from maintenance,
/// marketing or management.
pub fn try_access(employee: &Employee) -> (r: Result<(), String>)
    ensures
        employee.status is Terminated ==> (r matches Err(m) && m@ == "terminated"@),
        employee.status is Active ==> match employee.position {
            Position::Maintenance | Position::Marketing | Position::Managers => r is Ok,
            _ => (r matches Err(m) && m@ == "invalid position"@),
        },
{
    match employee.status {
        Status::Terminated => {
            return Err(String::from_str("terminated"));
        },
        _ => (),
    }
    match employee.position {
        Position::Maintenance => Ok(()),
        Position::Marketing => Ok(()),
        Position::Managers => Ok(()),
        _ => Err(String::from_str("invalid position")),
    }
}

} // verus!
