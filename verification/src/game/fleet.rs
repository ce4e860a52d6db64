//! Ships, the per-class counters that score them, and class definitions.

use vstd::prelude::*;
use crate::game::point::Point;

verus! {

/// The mathematical value of a [`ShipCounter`].
pub struct ShipCounterView {
    pub name: Seq<char>,
    pub total: nat,
    pub remaining: nat,
}

impl ShipCounterView {
    /// The counter after one ship of its class has sunk.
    pub open spec fn decreased(self) -> ShipCounterView {
        ShipCounterView { remaining: (self.remaining - 1) as nat, ..self }
    }
}

/// How many ships of one class the board started with and how many are afloat.
#[derive(Debug, Clone)]
pub struct ShipCounter {
    name: String,
    total: u8,
    remaining: u8,
}

impl View for ShipCounter {
    type V = ShipCounterView;

    closed spec fn view(&self) -> ShipCounterView {
        ShipCounterView {
            name: self.name@,
            total: self.total as nat,
            remaining: self.remaining as nat,
        }
    }
}

impl ShipCounter {
    pub fn new(name: String, n: u8) -> (r: Self)
        ensures
            r@ == (ShipCounterView { name: name@, total: n as nat, remaining: n as nat }),
    {
        Self { name, total: n, remaining: n }
    }

    pub fn is_defeated(&self) -> (r: bool)
        ensures
            r == (self@.remaining == 0),
    {
        self.remaining == 0
    }

    /// Records that one ship of this class sank.
    pub fn decrease(&mut self)
        requires
            old(self)@.remaining > 0,
        ensures
            final(self)@ == old(self)@.decreased(),
    {
        self.remaining = self.remaining - 1;
    }

    pub fn name(&self) -> (r: &String)
        ensures
            r@ == self@.name,
    {
        &self.name
    }

    pub fn total(&self) -> (r: u8)
        ensures
            r == self@.total,
    {
        self.total
    }

    pub fn remaining(&self) -> (r: u8)
        ensures
            r == self@.remaining,
    {
        self.remaining
    }
}

/// The mathematical value of a [`Ship`].
pub struct ShipView {
    /// Hits the ship can still take; `0` means sunk.
    pub length: nat,
    /// The cells around the ship, revealed when it sinks.
    pub nearby_cells: Seq<Point>,
    /// Index of the ship's class counter.
    pub counter: nat,
}

impl ShipView {
    /// The ship after a hit on one of its cells; a sunk ship stays as it is.
    pub open spec fn struck(self) -> ShipView {
        if self.length == 0 {
            self
        } else {
            ShipView { length: (self.length - 1) as nat, ..self }
        }
    }

    pub open spec fn has_sank(self) -> bool {
        self.length == 0
    }
}

/// A placed ship.
#[derive(Debug, Clone)]
pub struct Ship {
    length: usize,
    nearby_cells: Vec<Point>,
    counter: usize,
}

impl View for Ship {
    type V = ShipView;

    closed spec fn view(&self) -> ShipView {
        ShipView {
            length: self.length as nat,
            nearby_cells: self.nearby_cells@,
            counter: self.counter as nat,
        }
    }
}

impl Ship {
    pub(crate) fn new(length: usize, nearby_cells: Vec<Point>, counter: usize) -> (r: Self)
        ensures
            r@ == (ShipView {
                length: length as nat,
                nearby_cells: nearby_cells@,
                counter: counter as nat,
            }),
    {
        Self { length, nearby_cells, counter }
    }

    /// Takes one hit. Returns whether this hit sank the ship.
    pub(crate) fn hit(&mut self) -> (sank: bool)
        ensures
            final(self)@ == old(self)@.struck(),
            sank == (old(self)@.length == 1),
    {
        match self.length.checked_sub(1) {
            None => false,
            Some(new_len) => {
                self.length = new_len;
                self.has_sank()
            },
        }
    }

    #[inline]
    pub fn has_sank(&self) -> (r: bool)
        ensures
            r == self@.has_sank(),
    {
        self.length == 0
    }

    /// Hits the ship can still take.
    pub fn length(&self) -> (r: usize)
        ensures
            r == self@.length,
    {
        self.length
    }

    pub fn nearby_cells(&self) -> (r: &Vec<Point>)
        ensures
            r@ == self@.nearby_cells,
    {
        &self.nearby_cells
    }

    /// Index of the ship's class counter in the board's counter list.
    pub fn counter(&self) -> (r: usize)
        ensures
            r == self@.counter,
    {
        self.counter
    }
}

/// A ship class: its display name, the length of each ship, and how many to place.
#[derive(Debug)]
pub struct ShipDefinition {
    name: String,
    length: u8,
    count: u8,
}

impl ShipDefinition {
    pub closed spec fn name_view(&self) -> Seq<char> {
        self.name@
    }

    pub closed spec fn length_view(&self) -> nat {
        self.length as nat
    }

    pub closed spec fn count_view(&self) -> nat {
        self.count as nat
    }

    /// The counter a fresh class of this definition starts with.
    pub open spec fn counter_view(&self) -> ShipCounterView {
        ShipCounterView {
            name: self.name_view(),
            total: self.count_view(),
            remaining: self.count_view(),
        }
    }

    pub fn new(name: &str, length: u8, count: u8) -> (r: Self)
        ensures
            r.name_view() == name@,
            r.length_view() == length,
            r.count_view() == count,
    {
        Self { name: name.to_owned(), length, count }
    }

    pub fn to_counter(self) -> (r: ShipCounter)
        ensures
            r@ == self.counter_view(),
    {
        ShipCounter::new(self.name, self.count)
    }

    pub fn length(&self) -> (r: u8)
        ensures
            r == self.length_view(),
    {
        self.length
    }

    pub fn count(&self) -> (r: u8)
        ensures
            r == self.count_view(),
    {
        self.count
    }
}

impl Clone for ShipDefinition {
    fn clone(&self) -> (r: Self)
        ensures
            r.name_view() == self.name_view(),
            r.length_view() == self.length_view(),
            r.count_view() == self.count_view(),
    {
        Self { name: self.name.clone(), length: self.length, count: self.count }
    }
}

} // verus!
