//! The elements a cell can hold, and what each contributes to a pile of sand.

use vstd::prelude::*;

verus! {

/// What occupies one cell.
///
/// `Air` is an empty cell, `Rock` is solid, `Water` is liquid and `Sand` is
/// granular. The number carried by `Sand` is its compaction: how much support
/// the grain has gathered from the pile beneath and beside it.
#[derive(Debug, Clone, Copy, PartialEq, Eq, Structural)]
pub enum Element {
    Air,
    Rock,
    Water,
    Sand(u8),
}

/// Index of an element's colour in the display palette.
#[derive(Debug, Clone, Copy, PartialEq, Eq, Structural)]
pub struct Material(pub u8);

/// The compaction at which a pile of sand gives way.
pub const THRESHOLD: u8 = 3;

/// Whether an observed neighbour leaves room to move into: air or water.
/// A missing neighbour (beyond the edge) never does.
pub open spec fn is_open(element: Option<Element>) -> bool {
    element == Some(Element::Air) || element == Some(Element::Water)
}

/// Whether an observed neighbour holds a rock in place: rock, or the edge.
pub open spec fn is_firm(element: Option<Element>) -> bool {
    element == Some(Element::Rock) || element is None
}

/// Support lent to a grain of sand by a neighbour at its side.
pub open spec fn support(element: Option<Element>) -> int {
    match element {
        Some(Element::Sand(_)) => 1,
        Some(Element::Rock) => 2,
        _ => 0,
    }
}

/// Palette index of each element.
pub open spec fn palette(element: Element) -> int {
    match element {
        Element::Air => 0,
        Element::Rock => 1,
        Element::Water => 2,
        Element::Sand(_) => 3,
    }
}

impl Material {
    /// The palette entry an element is drawn with.
    pub fn of(element: Element) -> (material: Material)
        ensures
            material.0 == palette(element),
    {
        match element {
            Element::Air => Material(0),
            Element::Rock => Material(1),
            Element::Water => Material(2),
            Element::Sand(_) => Material(3),
        }
    }
}

/// Exec form of [`is_open`].
pub fn open_to(element: Option<Element>) -> (open: bool)
    ensures
        open == is_open(element),
{
    match element {
        Some(Element::Air) => true,
        Some(Element::Water) => true,
        _ => false,
    }
}

/// Exec form of [`is_firm`].
pub fn firm(element: Option<Element>) -> (held: bool)
    ensures
        held == is_firm(element),
{
    match element {
        Some(Element::Rock) => true,
        None => true,
        _ => false,
    }
}

/// Support lent to a grain of sand by the neighbour at one side: sand lends 1,
/// rock lends 2, anything else (the edge too) lends nothing.
pub fn support_strength(element: Option<Element>) -> (strength: u8)
    ensures
        strength == support(element),
{
    match element {
        Some(Element::Sand(_)) => 1,
        Some(Element::Rock) => 2,
        _ => 0,
    }
}

} // verus!
