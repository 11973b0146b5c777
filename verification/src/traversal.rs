//! What a whole walk finds.
//!
//! The records of a subtree, written down by recursion on the depth budget,
//! and the proof that a walk taken one entry at a time finds just those, in
//! that order.

use vstd::prelude::*;
use crate::record::MatchRecord;
use crate::walker::{
    agenda_after, entry_children, entry_records, lemma_entry_children_budget,
    lemma_listed_children_budget, listed_children, records_after, Pending, Probe,
};

verus! {

/// The records found in and below the entry at `path`, reached with
/// `depth_remaining` levels to spend, where `seen` tells what is seen at each
/// path: a file gives its own records, a listed directory with budget left
/// those of its children, and anything else none.
pub open spec fn subtree_records<P>(
    seen: spec_fn(P) -> Probe<P>,
    path: P,
    depth_remaining: nat,
    pat: Seq<u8>,
) -> Seq<MatchRecord>
    decreases depth_remaining, 0nat,
{
    match seen(path) {
        Probe::Directory { children: Some(listing) } => if depth_remaining > 0 {
            listing_records(seen, listing@, (depth_remaining - 1) as nat, pat)
        } else {
            Seq::empty()
        },
        _ => entry_records(seen(path), pat),
    }
}

/// The records found below a listing, each readable child reached with
/// `depth_remaining` levels to spend: those of the first child's subtree,
/// then those of the second, and so on.
pub open spec fn listing_records<P>(
    seen: spec_fn(P) -> Probe<P>,
    listing: Seq<Option<P>>,
    depth_remaining: nat,
    pat: Seq<u8>,
) -> Seq<MatchRecord>
    decreases depth_remaining, listing.len() + 1,
{
    if listing.len() == 0 {
        Seq::empty()
    } else {
        let first = match listing.first() {
            Some(path) => subtree_records(seen, path, depth_remaining, pat),
            None => Seq::empty(),
        };
        first + listing_records(seen, listing.drop_first(), depth_remaining, pat)
    }
}

/// The records still to be found from an agenda: those of the subtree of its
/// last entry, then those of the one before it, and so on.
pub open spec fn agenda_records<P>(
    seen: spec_fn(P) -> Probe<P>,
    agenda: Seq<Pending<P>>,
    pat: Seq<u8>,
) -> Seq<MatchRecord>
    decreases agenda.len(),
{
    if agenda.len() == 0 {
        Seq::empty()
    } else {
        subtree_records(seen, agenda.last().path, agenda.last().depth_remaining as nat, pat)
            + agenda_records(seen, agenda.drop_last(), pat)
    }
}

/// What lies on top of an agenda is found first.
pub proof fn lemma_agenda_records_concat<P>(
    seen: spec_fn(P) -> Probe<P>,
    below: Seq<Pending<P>>,
    above: Seq<Pending<P>>,
    pat: Seq<u8>,
)
    ensures
        agenda_records(seen, below + above, pat) == agenda_records(seen, above, pat)
            + agenda_records(seen, below, pat),
    decreases above.len(),
{
    if above.len() == 0 {
        assert(below + above =~= below);
    } else {
        assert((below + above).drop_last() =~= below + above.drop_last());
        lemma_agenda_records_concat(seen, below, above.drop_last(), pat);
    }
}

/// The children of a listing, put on an agenda with the first of them on top,
/// yield the records of the listing.
pub proof fn lemma_stacked_listing_records<P>(
    seen: spec_fn(P) -> Probe<P>,
    listing: Seq<Option<P>>,
    depth_remaining: usize,
    pat: Seq<u8>,
)
    ensures
        agenda_records(seen, listed_children(listing, depth_remaining).reverse(), pat)
            == listing_records(seen, listing, depth_remaining as nat, pat),
    decreases listing.len(),
{
    if listing.len() > 0 {
        let rest = listed_children(listing.drop_first(), depth_remaining);
        lemma_stacked_listing_records(seen, listing.drop_first(), depth_remaining, pat);
        match listing.first() {
            Some(path) => {
                let entry = Pending { path, depth_remaining };
                let stacked = (seq![entry] + rest).reverse();
                assert(stacked =~= rest.reverse().push(entry));
                assert(stacked.drop_last() =~= rest.reverse());
            },
            None => {},
        }
    } else {
        assert(listed_children(listing, depth_remaining).reverse() =~= Seq::<Pending<P>>::empty());
    }
}

/// One step of the walk keeps to the recursive traversal: what has been
/// found and what the agenda still yields make the same whole before and
/// after the step, where the step takes the last entry off the agenda, adds
/// its records to those found and puts its children on top. So a walk that
/// began with the children of a listing and has emptied its agenda has found
/// the records of that listing, depth first and in listing order, and two
/// walks that see the same at every path find the same.
pub proof fn lemma_step_keeps_to_traversal<P>(
    seen: spec_fn(P) -> Probe<P>,
    found: Seq<MatchRecord>,
    agenda: Seq<Pending<P>>,
    pat: Seq<u8>,
)
    requires
        agenda.len() > 0,
    ensures
        ({
            let entry = agenda.last();
            let probe = seen(entry.path);
            let next = agenda.drop_last() + entry_children(probe, entry.depth_remaining).reverse();
            found + agenda_records(seen, agenda, pat) == (found + entry_records(probe, pat))
                + agenda_records(seen, next, pat)
        }),
{
    let entry = agenda.last();
    let probe = seen(entry.path);
    let children = entry_children(probe, entry.depth_remaining).reverse();
    let next = agenda.drop_last() + children;
    lemma_agenda_records_concat(seen, agenda.drop_last(), children, pat);
    let below = agenda_records(seen, agenda.drop_last(), pat);
    match probe {
        Probe::Directory { children: Some(listing) } => {
            if entry.depth_remaining > 0 {
                lemma_stacked_listing_records(
                    seen,
                    listing@,
                    (entry.depth_remaining - 1) as usize,
                    pat,
                );
            } else {
                assert(children =~= Seq::<Pending<P>>::empty());
            }
            assert(entry_records(probe, pat) + (agenda_records(seen, children, pat) + below)
                =~= agenda_records(seen, children, pat) + below);
        },
        _ => {
            assert(children =~= Seq::<Pending<P>>::empty());
            assert(entry_records(probe, pat) + (agenda_records(seen, children, pat) + below)
                =~= entry_records(probe, pat) + below);
        },
    }
    assert(found + agenda_records(seen, agenda, pat) =~= (found + entry_records(probe, pat))
        + agenda_records(seen, next, pat));
}

/// Where a walk stands: the records found, and the entries still to be
/// looked at.
pub struct WalkState<P> {
    pub found: Seq<MatchRecord>,
    pub agenda: Seq<Pending<P>>,
}

/// Where a walk stands after `steps` steps, begun at the children of
/// `listing` with `max_depth` levels to spend, where `seen` tells what is
/// seen at each path.
pub open spec fn walk_after<P>(
    seen: spec_fn(P) -> Probe<P>,
    listing: Seq<Option<P>>,
    max_depth: usize,
    pat: Seq<u8>,
    steps: nat,
) -> WalkState<P>
    decreases steps,
{
    if steps == 0 {
        WalkState { found: Seq::empty(), agenda: listed_children(listing, max_depth).reverse() }
    } else {
        let before = walk_after(seen, listing, max_depth, pat, (steps - 1) as nat);
        if before.agenda.len() == 0 {
            before
        } else {
            let probe = seen(before.agenda.last().path);
            WalkState {
                found: records_after(before.found, before.agenda, probe, pat),
                agenda: agenda_after(before.agenda, probe),
            }
        }
    }
}

/// At every moment of a walk, what has been found and what the agenda still
/// yields are together the records of the listing it began with. A walk
/// whose agenda is empty has therefore found exactly those records, depth
/// first and in listing order.
pub proof fn lemma_walk_finds_listing_records<P>(
    seen: spec_fn(P) -> Probe<P>,
    listing: Seq<Option<P>>,
    max_depth: usize,
    pat: Seq<u8>,
    steps: nat,
)
    ensures
        ({
            let now = walk_after(seen, listing, max_depth, pat, steps);
            &&& now.found + agenda_records(seen, now.agenda, pat) == listing_records(
                seen,
                listing,
                max_depth as nat,
                pat,
            )
            &&& now.agenda.len() == 0 ==> now.found == listing_records(
                seen,
                listing,
                max_depth as nat,
                pat,
            )
        }),
    decreases steps,
{
    let now = walk_after(seen, listing, max_depth, pat, steps);
    let whole = listing_records(seen, listing, max_depth as nat, pat);
    if steps == 0 {
        lemma_stacked_listing_records(seen, listing, max_depth, pat);
        assert(now.found + agenda_records(seen, now.agenda, pat) =~= whole);
    } else {
        let before = walk_after(seen, listing, max_depth, pat, (steps - 1) as nat);
        lemma_walk_finds_listing_records(seen, listing, max_depth, pat, (steps - 1) as nat);
        if before.agenda.len() > 0 {
            lemma_step_keeps_to_traversal(seen, before.found, before.agenda, pat);
        }
    }
    if now.agenda.len() == 0 {
        assert(now.found + agenda_records(seen, now.agenda, pat) =~= now.found);
    }
}

/// Walking twice over a tree that has not changed gives the same records in
/// the same order: two walks that began at the same listing with the same
/// depth limit and search string, saw the same at every path and have both
/// emptied their agenda have found the same, however many steps each took.
pub proof fn lemma_walk_is_repeatable<P>(
    seen: spec_fn(P) -> Probe<P>,
    listing: Seq<Option<P>>,
    max_depth: usize,
    pat: Seq<u8>,
    steps_once: nat,
    steps_again: nat,
)
    requires
        walk_after(seen, listing, max_depth, pat, steps_once).agenda.len() == 0,
        walk_after(seen, listing, max_depth, pat, steps_again).agenda.len() == 0,
    ensures
        walk_after(seen, listing, max_depth, pat, steps_once).found == walk_after(
            seen,
            listing,
            max_depth,
            pat,
            steps_again,
        ).found,
{
    lemma_walk_finds_listing_records(seen, listing, max_depth, pat, steps_once);
    lemma_walk_finds_listing_records(seen, listing, max_depth, pat, steps_again);
}

/// A walk never goes deeper than its depth limit: at every moment, each
/// entry on the agenda has at most the budget the walk began with, so it
/// lies between no and `max_depth` levels below the entries the walk began
/// at; and an entry with no budget left gets no child onto the agenda.
pub proof fn lemma_walk_stays_within_depth<P>(
    seen: spec_fn(P) -> Probe<P>,
    listing: Seq<Option<P>>,
    max_depth: usize,
    pat: Seq<u8>,
    steps: nat,
)
    ensures
        forall|i: int|
            0 <= i < walk_after(seen, listing, max_depth, pat, steps).agenda.len() ==> 0
                <= max_depth - (#[trigger] walk_after(
                seen,
                listing,
                max_depth,
                pat,
                steps,
            ).agenda[i]).depth_remaining <= max_depth,
    decreases steps,
{
    let now = walk_after(seen, listing, max_depth, pat, steps);
    if steps == 0 {
        lemma_listed_children_budget(listing, max_depth);
        let children = listed_children(listing, max_depth);
        assert forall|i: int| 0 <= i < now.agenda.len() implies (#[trigger] now.agenda[i]).depth_remaining
            == max_depth by {
            assert(now.agenda[i] == children[children.len() - 1 - i]);
        }
    } else {
        let before = walk_after(seen, listing, max_depth, pat, (steps - 1) as nat);
        lemma_walk_stays_within_depth(seen, listing, max_depth, pat, (steps - 1) as nat);
        if before.agenda.len() > 0 {
            let entry = before.agenda.last();
            let probe = seen(entry.path);
            let kept = before.agenda.drop_last();
            let children = entry_children(probe, entry.depth_remaining);
            lemma_entry_children_budget(probe, entry.depth_remaining);
            assert(0 <= max_depth - before.agenda[before.agenda.len() - 1].depth_remaining);
            assert forall|i: int| 0 <= i < now.agenda.len() implies 0 <= max_depth
                - (#[trigger] now.agenda[i]).depth_remaining <= max_depth by {
                if i < kept.len() {
                    assert(now.agenda[i] == before.agenda[i]);
                } else {
                    assert(now.agenda[i] == children[children.len() - 1 - (i - kept.len())]);
                }
            }
        }
    }
}

/// A subtree reached with no budget left yields only the records of the
/// entry itself: nothing below it is looked at.
pub proof fn lemma_no_budget_no_descent<P>(seen: spec_fn(P) -> Probe<P>, path: P, pat: Seq<u8>)
    ensures
        subtree_records(seen, path, 0, pat) == entry_records(seen(path), pat),
{
}

} // verus!
