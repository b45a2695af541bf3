//! A small collection of event tickets, kept in insertion order.

use vstd::prelude::*;

verus! {

/// One ticket: backstage and VIP tickets carry a price and a holder,
/// standard tickets a price alone.
pub enum Ticket {
    BackStage(i64, String),
    Vip(i64, String),
    Standard(i64),
}

/// A collection of tickets, modelled as the sequence of tickets added
/// so far, oldest first.
pub struct Tickets {
    inner: Vec<Ticket>,
}

impl View for Tickets {
    type V = Seq<Ticket>;

    closed spec fn view(&self) -> Seq<Ticket> {
        self.inner@
    }
}

impl Tickets {
    /// Returns an empty collection.
    pub fn new() -> (r: Tickets)
        ensures
            r@ == Seq::<Ticket>::empty(),
    {
        Tickets { inner: Vec::new() }
    }

    /// Appends one ticket.
    pub fn add(&mut self, ticket: Ticket)
        ensures
            final(self)@ == old(self)@.push(ticket),
    {
        self.inner.push(ticket);
    }

    /// Hands out every ticket, in the order they were added.
    pub fn get_all(self) -> (r: Vec<Ticket>)
        ensures
            r@ == self@,
    {
        self.inner
    }
}

} // verus!
