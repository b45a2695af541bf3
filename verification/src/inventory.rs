//! A stock item and its availability check.

use vstd::prelude::*;
use vstd::string::StringExecFns;

verus! {

/// One kind of item held in stock.
pub struct Item {
    pub name: String,
    pub number: i32,
}

/// Whether an item is available: an error exactly when none are left.
pub fn is_in_stock(item: &Item) -> (r: Result<(), String>)
    ensures
        r is Err <==> item.number == 0,
        r matches Err(m) ==> m@ == "out of stock"@,
{
    match item.number {
        0 => Err(String::from_str("out of stock")),
        _ => Ok(()),
    }
}

} // verus!
