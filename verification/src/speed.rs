//! The road-classification table: a fixed mapping from a road-type label to a
//! free-flow speed in km/h; unrecognized labels carry no speed.

use vstd::prelude::*;

verus! {

/// The classification table as a mathematical function on the label.
pub open spec fn spec_speed(label: Seq<char>) -> Option<u64> {
    if label == "motorway"@ {
        Some(110u64)
    } else if label == "trunk"@ {
        Some(110u64)
    } else if label == "primary"@ {
        Some(70u64)
    } else if label == "secondary"@ {
        Some(60u64)
    } else if label == "tertiary"@ {
        Some(50u64)
    } else if label == "motorway_link"@ {
        Some(50u64)
    } else if label == "trunk_link"@ {
        Some(50u64)
    } else if label == "primary_link"@ {
        Some(50u64)
    } else if label == "secondary_link"@ {
        Some(50u64)
    } else if label == "road"@ {
        Some(40u64)
    } else if label == "unclassified"@ {
        Some(40u64)
    } else if label == "residential"@ {
        Some(30u64)
    } else if label == "unsurfaced"@ {
        Some(30u64)
    } else if label == "living_street"@ {
        Some(10u64)
    } else if label == "service"@ {
        Some(5u64)
    } else {
        None
    }
}

/// String equality by character content.
fn str_eq(a: &str, b: &str) -> (r: bool)
    ensures
        r <==> a@ == b@,
{
    let s1 = a.to_owned();
    let s2 = b.to_owned();
    s1.eq(&s2)
}

/// Free-flow speed in km/h of a road-type label, or `None` for a label
/// outside the classification table.
pub fn speed_calc(highway: &str) -> (r: Option<u64>)
    ensures
        r == spec_speed(highway@),
{
    if str_eq(highway, "motorway") {
        Some(110)
    } else if str_eq(highway, "trunk") {
        Some(110)
    } else if str_eq(highway, "primary") {
        Some(70)
    } else if str_eq(highway, "secondary") {
        Some(60)
    } else if str_eq(highway, "tertiary") {
        Some(50)
    } else if str_eq(highway, "motorway_link") {
        Some(50)
    } else if str_eq(highway, "trunk_link") {
        Some(50)
    } else if str_eq(highway, "primary_link") {
        Some(50)
    } else if str_eq(highway, "secondary_link") {
        Some(50)
    } else if str_eq(highway, "road") {
        Some(40)
    } else if str_eq(highway, "unclassified") {
        Some(40)
    } else if str_eq(highway, "residential") {
        Some(30)
    } else if str_eq(highway, "unsurfaced") {
        Some(30)
    } else if str_eq(highway, "living_street") {
        Some(10)
    } else if str_eq(highway, "service") {
        Some(5)
    } else {
        None
    }
}

/// Every speed the classification table yields is one the cost computation
/// accepts.
pub proof fn lemma_table_speed_valid(label: Seq<char>)
    ensures
        spec_speed(label) is Some ==> crate::geom::valid_speed(spec_speed(label)->Some_0),
{
}

} // verus!
