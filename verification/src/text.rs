//! Texts of the notices that go to the simulation controller.

use crate::ids::{ascending, members, NodeId};
use std::collections::BTreeSet;
use vstd::prelude::*;
use vstd::string::StringExecFns;

verus! {

/// The character for a decimal digit.
pub open spec fn digit(n: nat) -> char
    recommends
        n < 10,
{
    ('0' as nat + n) as char
}

/// A number in decimal notation.
pub open spec fn decimal(n: nat) -> Seq<char>
    decreases n,
{
    if n < 10 {
        seq![digit(n)]
    } else {
        decimal(n / 10).push(digit(n % 10))
    }
}

/// The notation of a single digit.
fn digit_text(n: u64) -> (res: &'static str)
    requires
        n < 10,
    ensures
        res@ == seq![digit(n as nat)],
{
    proof {
        reveal_strlit("0");
        reveal_strlit("1");
        reveal_strlit("2");
        reveal_strlit("3");
        reveal_strlit("4");
        reveal_strlit("5");
        reveal_strlit("6");
        reveal_strlit("7");
        reveal_strlit("8");
        reveal_strlit("9");
    }
    let res = match n {
        0 => "0",
        1 => "1",
        2 => "2",
        3 => "3",
        4 => "4",
        5 => "5",
        6 => "6",
        7 => "7",
        8 => "8",
        _ => "9",
    };
    assert(res@ =~= seq![digit(n as nat)]);
    res
}

/// Appends a number in decimal notation.
fn append_decimal(text: &mut String, n: u64)
    ensures
        final(text)@ == old(text)@ + decimal(n as nat),
    decreases n,
{
    let ghost before = text@;
    if n >= 10 {
        append_decimal(text, n / 10);
    }
    text.append(digit_text(n % 10));
    assert(text@ =~= before + decimal(n as nat));
}

/// Node identifiers in decimal notation, with commas between them.
pub open spec fn listing(ids: Seq<NodeId>) -> Seq<char>
    decreases ids.len(),
{
    if ids.len() == 0 {
        Seq::empty()
    } else if ids.len() == 1 {
        decimal(ids[0] as nat)
    } else {
        listing(ids.drop_last()) + ", "@ + decimal(ids.last() as nat)
    }
}

/// Appends node identifiers with commas between them.
fn append_listing(text: &mut String, ids: &Vec<NodeId>)
    ensures
        final(text)@ == old(text)@ + listing(ids@),
{
    let ghost before = text@;
    for i in 0..ids.len()
        invariant
            text@ == before + listing(ids@.take(i as int)),
    {
        let ghost shorter = ids@.take(i as int);
        if i > 0 {
            text.append(", ");
        }
        append_decimal(text, ids[i] as u64);
        assert(ids@.take(i + 1).drop_last() =~= shorter);
        assert(text@ =~= before + listing(ids@.take(i + 1)));
    }
    assert(ids@.take(ids@.len() as int) =~= ids@);
}

/// A fragment came in from `src_id`.
pub open spec fn received_text(id: NodeId, src_id: NodeId) -> Seq<char> {
    "Client "@ + decimal(id as nat) + ": received from "@ + decimal(src_id as nat)
}

/// Text of the notice that a fragment came in.
pub fn received_notice(id: NodeId, src_id: NodeId) -> (res: String)
    ensures
        res@ == received_text(id, src_id),
{
    let mut res = "Client ".to_owned();
    append_decimal(&mut res, id as u64);
    res.append(": received from ");
    append_decimal(&mut res, src_id as u64);
    res
}

/// `drone` has dropped a fragment for the `count`-th time.
pub open spec fn dropped_text(id: NodeId, count: u8, drone: NodeId, fragment_index: u64) -> Seq<char> {
    "Client "@ + decimal(id as nat) + ": nack drop "@ + decimal(count as nat) + " from "@ + decimal(drone as nat)
        + " / "@ + decimal(fragment_index as nat)
}

/// Text of the notice that a drone keeps dropping a fragment.
pub fn dropped_notice(id: NodeId, count: u8, drone: NodeId, fragment_index: u64) -> (res: String)
    ensures
        res@ == dropped_text(id, count, drone, fragment_index),
{
    let mut res = "Client ".to_owned();
    append_decimal(&mut res, id as u64);
    res.append(": nack drop ");
    append_decimal(&mut res, count as u64);
    res.append(" from ");
    append_decimal(&mut res, drone as u64);
    res.append(" / ");
    append_decimal(&mut res, fragment_index);
    res
}

/// Routes keep clear of these nodes from now on.
pub open spec fn excluded_text(id: NodeId, excluded: Set<NodeId>) -> Seq<char> {
    "Client "@ + decimal(id as nat) + ": new route exclude {"@ + listing(ascending(excluded)) + "}"@
}

/// Text of the notice that lists the nodes that routes keep clear of.
pub fn excluded_notice(id: NodeId, excluded: &BTreeSet<NodeId>) -> (res: String)
    ensures
        res@ == excluded_text(id, excluded@),
{
    let mut res = "Client ".to_owned();
    append_decimal(&mut res, id as u64);
    res.append(": new route exclude {");
    append_listing(&mut res, &members(excluded));
    res.append("}");
    res
}

/// The network is being explored anew.
pub open spec fn rediscovery_text(id: NodeId) -> Seq<char> {
    "Client "@ + decimal(id as nat) + ": new route?"@
}

/// Text of the notice that the network is being explored anew.
pub fn rediscovery_notice(id: NodeId) -> (res: String)
    ensures
        res@ == rediscovery_text(id),
{
    let mut res = "Client ".to_owned();
    append_decimal(&mut res, id as u64);
    res.append(": new route?");
    res
}

/// There is no way round the excluded nodes.
pub open spec fn no_route_text() -> Seq<char> {
    "not alternative path route available"@
}

/// Text of the error that there is no way round the excluded nodes.
pub fn no_route_error() -> (res: String)
    ensures
        res@ == no_route_text(),
{
    "not alternative path route available".to_owned()
}

/// A fragment cannot be sent by another way.
pub open spec fn stuck_text(fragment_index: u64) -> Seq<char> {
    "No alternative path for fragment "@ + decimal(fragment_index as nat)
}

/// Text of the error that a fragment cannot be sent by another way.
pub fn stuck_error(fragment_index: u64) -> (res: String)
    ensures
        res@ == stuck_text(fragment_index),
{
    let mut res = "No alternative path for fragment ".to_owned();
    append_decimal(&mut res, fragment_index);
    res
}

} // verus!
