//! The depth-limited walk over directory entries.
//!
//! The walk itself never touches the filesystem. Its caller looks at one
//! entry at a time and reports what it saw as a `Probe`; `traverse_entry`
//! decides what that entry contributes, and a `Walker` keeps the entries that
//! are still to be looked at, depth first, in the order of the listings.

use vstd::prelude::*;
use vstd::utf8::encode_utf8;
use crate::record::{records_of, MatchRecord, SearchSuccess};
use crate::scanner::{search, file_records};

verus! {

/// An entry that is still to be looked at.
#[derive(Debug)]
pub struct Pending<P> {
    /// Where the entry is found.
    pub path: P,
    /// How many more directory levels may be entered from this entry on.
    pub depth_remaining: usize,
}

/// What the caller saw when it looked at an entry.
#[derive(Debug)]
pub enum Probe<P> {
    /// The entry's type could not be determined.
    Unreadable,
    /// A regular file.
    File {
        /// The file's base name, where one can be told.
        base_name: Option<String>,
        /// The file's full path, shown where there is no base name.
        full_path: String,
        /// The file's bytes, or `None` where it could not be opened.
        contents: Option<Vec<u8>>,
    },
    /// A directory.
    Directory {
        /// The directory's children in the order of the listing, each `None`
        /// where it could not be read; `None` where the directory was not or
        /// could not be listed.
        children: Option<Vec<Option<P>>>,
    },
    /// Neither a regular file nor a directory.
    Other,
}

/// What became of an entry.
#[derive(Debug, Clone, Copy, PartialEq, Eq, Structural)]
pub enum Outcome {
    /// The file was scanned.
    Scanned,
    /// The file could not be opened.
    FileOpenFailed,
    /// The directory's children are up next.
    Listed,
    /// The directory could not be listed.
    DirectoryListFailed,
    /// The directory lies at the depth limit and was not entered.
    MaxDepthReached,
    /// The entry's type could not be determined.
    EntryUnreadable,
    /// The entry is neither a regular file nor a directory.
    UnsupportedEntryKind,
}

/// What one entry contributes to the walk.
#[derive(Debug)]
pub struct Step<P> {
    /// The records found in the entry.
    pub found: Vec<SearchSuccess>,
    /// The entry's children that are to be looked at, the first of them last.
    pub descend: Vec<Pending<P>>,
    /// What became of the entry.
    pub outcome: Outcome,
}

/// Why a walk could not begin.
#[derive(Debug, Clone, Copy, PartialEq, Eq, Structural)]
pub enum WalkError {
    /// The directory to start from could not be listed.
    RootDirectoryUnreadable,
}

/// The name under which a file's matches are reported: its base name, or its
/// full path where it has none.
pub open spec fn shown_name(base_name: Option<String>, full_path: String) -> Seq<char> {
    match base_name {
        Some(name) => name@,
        None => full_path@,
    }
}

/// The readable children of a listing, in its order, each with the given
/// depth budget. A child that could not be read is left out.
pub open spec fn listed_children<P>(listing: Seq<Option<P>>, depth_remaining: usize) -> Seq<
    Pending<P>,
>
    decreases listing.len(),
{
    if listing.len() == 0 {
        Seq::empty()
    } else {
        let rest = listed_children(listing.drop_first(), depth_remaining);
        match listing.first() {
            Some(path) => seq![Pending { path, depth_remaining }] + rest,
            None => rest,
        }
    }
}

/// The records that an entry contributes: those of its contents where it is
/// a file that could be opened, none otherwise.
pub open spec fn entry_records<P>(probe: Probe<P>, pat: Seq<u8>) -> Seq<MatchRecord> {
    match probe {
        Probe::File { base_name, full_path, contents: Some(bytes) } => file_records(
            shown_name(base_name, full_path),
            bytes@,
            pat,
        ),
        _ => Seq::empty(),
    }
}

/// The children that an entry sends the walk to, in the order of the
/// listing: those of a listed directory with depth budget left, each with one
/// level less; none otherwise.
pub open spec fn entry_children<P>(probe: Probe<P>, depth_remaining: usize) -> Seq<Pending<P>> {
    match probe {
        Probe::Directory { children: Some(listing) } => if depth_remaining > 0 {
            listed_children(listing@, (depth_remaining - 1) as usize)
        } else {
            Seq::empty()
        },
        _ => Seq::empty(),
    }
}

/// What becomes of an entry. The entry's kind is looked at first; the depth
/// budget only decides whether a directory is entered.
pub open spec fn entry_outcome<P>(probe: Probe<P>, depth_remaining: usize) -> Outcome {
    match probe {
        Probe::Unreadable => Outcome::EntryUnreadable,
        Probe::File { base_name, full_path, contents } => if contents is Some {
            Outcome::Scanned
        } else {
            Outcome::FileOpenFailed
        },
        Probe::Directory { children } => if depth_remaining == 0 {
            Outcome::MaxDepthReached
        } else if children is Some {
            Outcome::Listed
        } else {
            Outcome::DirectoryListFailed
        },
        Probe::Other => Outcome::UnsupportedEntryKind,
    }
}

/// The agenda after the entry on top of it was looked at and `probe` was
/// seen there: the entry is gone, and its children lie on top, the first of
/// them last. An empty agenda stays empty.
pub open spec fn agenda_after<P>(agenda: Seq<Pending<P>>, probe: Probe<P>) -> Seq<Pending<P>> {
    if agenda.len() == 0 {
        agenda
    } else {
        agenda.drop_last() + entry_children(probe, agenda.last().depth_remaining).reverse()
    }
}

/// The records found after the entry on top of the agenda was looked at and
/// `probe` was seen there: those found before, then those of the entry.
pub open spec fn records_after<P>(
    found: Seq<MatchRecord>,
    agenda: Seq<Pending<P>>,
    probe: Probe<P>,
    pat: Seq<u8>,
) -> Seq<MatchRecord> {
    if agenda.len() == 0 {
        found
    } else {
        found + entry_records(probe, pat)
    }
}

/// Turns a listing into the entries to look at, the first child last, so that
/// it is the first to be taken off the end.
pub fn stack_children<P>(listing: Vec<Option<P>>, depth_remaining: usize) -> (stacked: Vec<
    Pending<P>,
>)
    ensures
        stacked@ == listed_children(listing@, depth_remaining).reverse(),
{
    let mut listing = listing;
    let ghost all = listing@;
    let mut stacked: Vec<Pending<P>> = Vec::new();
    proof {
        assert(all.skip(all.len() as int) =~= Seq::<Option<P>>::empty());
        assert(stacked@ =~= listed_children(all.skip(all.len() as int), depth_remaining).reverse());
    }
    while listing.len() > 0
        invariant
            listing@.len() <= all.len(),
            listing@ == all.take(listing@.len() as int),
            stacked@ == listed_children(all.skip(listing@.len() as int), depth_remaining).reverse(),
        decreases listing@.len(),
    {
        let ghost k = listing@.len() as int;
        let ghost later = listed_children(all.skip(k), depth_remaining);
        let child = listing.pop();
        proof {
            assert(all.skip(k - 1).drop_first() =~= all.skip(k));
            assert(all.skip(k - 1).first() == all[k - 1]);
            assert(listing@ =~= all.take(k - 1));
        }
        match child {
            Some(Some(path)) => {
                let ghost entry = Pending { path, depth_remaining };
                stacked.push(Pending { path, depth_remaining });
                proof {
                    assert((seq![entry] + later).reverse() =~= later.reverse().push(entry));
                }
            },
            _ => {},
        }
    }
    proof {
        assert(all.skip(0) =~= all);
    }
    stacked
}

/// Decides what one entry contributes to the walk, from what was seen of it
/// and the depth budget it was reached with.
///
/// A regular file is scanned whatever the budget. A directory is entered only
/// with budget left, and its children get one level less. Whatever could not
/// be read, or is of another kind, contributes nothing.
pub fn traverse_entry<P>(probe: Probe<P>, depth_remaining: usize, search_str: &str) -> (step: Step<
    P,
>)
    ensures
        records_of(step.found@) == entry_records(probe, encode_utf8(search_str@)),
        step.descend@ == entry_children(probe, depth_remaining).reverse(),
        step.outcome == entry_outcome(probe, depth_remaining),
{
    let mut found: Vec<SearchSuccess> = Vec::new();
    let mut descend: Vec<Pending<P>> = Vec::new();
    proof {
        assert(records_of(found@) =~= Seq::<MatchRecord>::empty());
        assert(Seq::<Pending<P>>::empty().reverse() =~= Seq::<Pending<P>>::empty());
    }
    let outcome = match probe {
        Probe::Unreadable => Outcome::EntryUnreadable,
        Probe::File { base_name, full_path, contents } => match contents {
            Some(bytes) => {
                let name = match base_name {
                    Some(name) => name,
                    None => full_path,
                };
                found = search(name.as_str(), bytes.as_slice(), search_str);
                Outcome::Scanned
            },
            None => Outcome::FileOpenFailed,
        },
        Probe::Directory { children } => if depth_remaining == 0 {
            Outcome::MaxDepthReached
        } else {
            match children {
                Some(listing) => {
                    descend = stack_children(listing, depth_remaining - 1);
                    Outcome::Listed
                },
                None => Outcome::DirectoryListFailed,
            }
        },
        Probe::Other => Outcome::UnsupportedEntryKind,
    };
    Step { found, descend, outcome }
}

/// A walk in progress: the entries still to be looked at, and the records
/// found so far.
pub struct Walker<P> {
    search_str: String,
    max_depth: usize,
    pending: Vec<Pending<P>>,
    found: Vec<SearchSuccess>,
}

impl<P> Walker<P> {
    /// The entries still to be looked at. The last of them is looked at next.
    pub closed spec fn agenda(&self) -> Seq<Pending<P>> {
        self.pending@
    }

    /// The records found so far, in the order in which they were found.
    pub closed spec fn matches(&self) -> Seq<MatchRecord> {
        records_of(self.found@)
    }

    /// The bytes of the search string.
    pub closed spec fn pattern(&self) -> Seq<u8> {
        encode_utf8(self.search_str@)
    }

    /// The depth budget that the walk began with.
    pub closed spec fn depth_limit(&self) -> usize {
        self.max_depth
    }

    /// How many directory levels below the entries it began with the walk has
    /// come at `entry`.
    pub open spec fn level(&self, entry: Pending<P>) -> int {
        self.depth_limit() - entry.depth_remaining
    }

    /// No entry on the agenda lies deeper than the depth limit.
    pub open spec fn within_depth(&self) -> bool {
        forall|i: int|
            0 <= i < self.agenda().len() ==> 0 <= self.level(#[trigger] self.agenda()[i])
                <= self.depth_limit()
    }

    /// Begins a walk at the children of the directory to start from, each
    /// with the whole depth budget.
    ///
    /// Fails only where that directory could not be listed.
    pub fn new(root_listing: Option<Vec<Option<P>>>, max_depth: usize, search_str: String) -> (made:
        Result<Walker<P>, WalkError>)
        ensures
            root_listing is None ==> made == Err::<Walker<P>, WalkError>(
                WalkError::RootDirectoryUnreadable,
            ),
            root_listing matches Some(listing) ==> {
                &&& made matches Ok(walker)
                &&& walker.agenda() == listed_children(listing@, max_depth).reverse()
                &&& walker.matches() == Seq::<MatchRecord>::empty()
                &&& walker.pattern() == encode_utf8(search_str@)
                &&& walker.depth_limit() == max_depth
                &&& walker.within_depth()
            },
    {
        match root_listing {
            None => Err(WalkError::RootDirectoryUnreadable),
            Some(listing) => {
                let pending = stack_children(listing, max_depth);
                let found: Vec<SearchSuccess> = Vec::new();
                proof {
                    assert(records_of(found@) =~= Seq::<MatchRecord>::empty());
                    lemma_listed_children_budget(listing@, max_depth);
                }
                Ok(Walker { search_str, max_depth, pending, found })
            },
        }
    }

    /// The entry to look at next, or `None` when the walk is over.
    pub fn next_entry(&self) -> (next: Option<&Pending<P>>)
        ensures
            self.agenda().len() == 0 ==> next is None,
            self.agenda().len() > 0 ==> next == Some(&self.agenda().last()),
    {
        let n: usize = self.pending.len();
        if n == 0 {
            None
        } else {
            Some(&self.pending[n - 1])
        }
    }

    /// Takes what was seen of the entry that `next_entry` named, and moves
    /// on: the entry leaves the agenda, its records follow those found so
    /// far, and its children are put on top, the first of them to be looked
    /// at next. With nothing left to look at, nothing changes.
    pub fn advance(&mut self, probe: Probe<P>) -> (outcome: Option<Outcome>)
        ensures
            final(self).pattern() == old(self).pattern(),
            final(self).depth_limit() == old(self).depth_limit(),
            final(self).agenda() == agenda_after(old(self).agenda(), probe),
            final(self).matches() == records_after(
                old(self).matches(),
                old(self).agenda(),
                probe,
                old(self).pattern(),
            ),
            outcome == if old(self).agenda().len() == 0 {
                None
            } else {
                Some(entry_outcome(probe, old(self).agenda().last().depth_remaining))
            },
            old(self).within_depth() ==> final(self).within_depth(),
    {
        match self.pending.pop() {
            None => None,
            Some(entry) => {
                let ghost before = self.found@;
                let mut step = traverse_entry(probe, entry.depth_remaining, self.search_str.as_str());
                proof {
                    assert(records_of(before + step.found@) =~= records_of(before) + records_of(
                        step.found@,
                    ));
                    lemma_entry_children_budget(probe, entry.depth_remaining);
                    if old(self).within_depth() {
                        let kept = old(self).agenda().drop_last();
                        let added = entry_children(probe, entry.depth_remaining).reverse();
                        assert(0 <= old(self).level(old(self).agenda()[kept.len() as int]));
                        assert forall|i: int| 0 <= i < (kept + added).len() implies 0
                            <= old(self).level(#[trigger] (kept + added)[i])
                            <= old(self).depth_limit() by {
                            if i < kept.len() {
                                assert((kept + added)[i] == old(self).agenda()[i]);
                            } else {
                                let j = added.len() - 1 - (i - kept.len());
                                assert((kept + added)[i] == entry_children(
                                    probe,
                                    entry.depth_remaining,
                                )[j]);
                            }
                        }
                    }
                }
                self.found.append(&mut step.found);
                self.pending.append(&mut step.descend);
                Some(step.outcome)
            },
        }
    }

    /// Ends the walk and hands out the records found.
    pub fn into_matches(self) -> (found: Vec<SearchSuccess>)
        ensures
            records_of(found@) == self.matches(),
    {
        self.found
    }
}

impl<P> Pending<P> {
    /// Whether a directory found at this entry is to be listed.
    pub fn descends(&self) -> (yes: bool)
        ensures
            yes == (self.depth_remaining > 0),
    {
        self.depth_remaining > 0
    }
}

/// Every child of a listing carries the budget that the listing was read with.
pub proof fn lemma_listed_children_budget<P>(listing: Seq<Option<P>>, depth_remaining: usize)
    ensures
        forall|i: int|
            0 <= i < listed_children(listing, depth_remaining).len() ==> (#[trigger] listed_children(
                listing,
                depth_remaining,
            )[i]).depth_remaining == depth_remaining,
    decreases listing.len(),
{
    if listing.len() > 0 {
        lemma_listed_children_budget(listing.drop_first(), depth_remaining);
        let rest = listed_children(listing.drop_first(), depth_remaining);
        let whole = listed_children(listing, depth_remaining);
        assert forall|i: int| 0 <= i < whole.len() implies (#[trigger] whole[i]).depth_remaining
            == depth_remaining by {
            if listing.first() is Some {
                if i > 0 {
                    assert(whole[i] == rest[i - 1]);
                }
            } else {
                assert(whole[i] == rest[i]);
            }
        }
    }
}

/// The walk goes down one level at a time, and only with budget left: an
/// entry has children to look at only where its own budget is above zero,
/// and each of them has exactly one level less.
pub proof fn lemma_entry_children_budget<P>(probe: Probe<P>, depth_remaining: usize)
    ensures
        depth_remaining == 0 ==> entry_children(probe, depth_remaining).len() == 0,
        forall|i: int|
            0 <= i < entry_children(probe, depth_remaining).len() ==> (#[trigger] entry_children(
                probe,
                depth_remaining,
            )[i]).depth_remaining == depth_remaining - 1,
{
    match probe {
        Probe::Directory { children: Some(listing) } => {
            if depth_remaining > 0 {
                lemma_listed_children_budget(listing@, (depth_remaining - 1) as usize);
            }
        },
        _ => {},
    }
}

/// An entry that could not be read contributes nothing: no record and no
/// child, whether its type could not be told, it is of an unsupported kind,
/// it is a file that would not open, or a directory that would not list.
pub proof fn lemma_failed_entry_contributes_nothing<P>(
    probe: Probe<P>,
    depth_remaining: usize,
    pat: Seq<u8>,
)
    requires
        entry_outcome(probe, depth_remaining) != Outcome::Scanned,
        entry_outcome(probe, depth_remaining) != Outcome::Listed,
    ensures
        entry_records(probe, pat) == Seq::<MatchRecord>::empty(),
        entry_children(probe, depth_remaining) == Seq::<Pending<P>>::empty(),
{
}

/// A child that could not be read does not keep its siblings from being
/// looked at: the listing yields the same entries with or without it.
pub proof fn lemma_unreadable_child_is_skipped<P>(
    listing: Seq<Option<P>>,
    at: int,
    depth_remaining: usize,
)
    requires
        0 <= at < listing.len(),
        listing[at] is None,
    ensures
        listed_children(listing, depth_remaining) == listed_children(
            listing.remove(at),
            depth_remaining,
        ),
    decreases listing.len(),
{
    if at == 0 {
        assert(listing.remove(0) =~= listing.drop_first());
    } else {
        lemma_unreadable_child_is_skipped(listing.drop_first(), at - 1, depth_remaining);
        assert(listing.remove(at).drop_first() =~= listing.drop_first().remove(at - 1));
        assert(listing.remove(at).first() == listing.first());
    }
}

} // verus!
