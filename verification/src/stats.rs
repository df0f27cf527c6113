//! What a run has done, in numbers.

use crate::text;
use crate::text::decimal_text;
use vstd::prelude::*;

verus! {

/// What was done about one file.
#[derive(Debug, Clone, Copy, PartialEq, Eq)]
pub enum Outcome {
    /// Metadata matched the cache; the file was never opened.
    Unchanged,
    /// Hashed, but the content was already in the archive under some name.
    Duplicate,
    /// Bytes copied into the archive.
    Copied,
}

/// What a run has done, in numbers.
#[derive(Debug, Clone, Copy, PartialEq, Eq)]
pub struct Stats {
    /// Metadata matched the cache; the file was never opened.
    pub skipped_unchanged: u64,
    /// Hashed, but the content was already in the archive under some name.
    pub duplicates: u64,
    /// Bytes copied into the archive.
    pub copied: u64,
    pub bytes_copied: u64,
    pub errors: u64,
}

/// Nothing was done yet.
pub open spec fn nothing_done() -> Stats {
    Stats { skipped_unchanged: 0, duplicates: 0, copied: 0, bytes_copied: 0, errors: 0 }
}

impl Default for Stats {
    fn default() -> (stats: Stats)
        ensures
            stats == nothing_done(),
    {
        Stats { skipped_unchanged: 0, duplicates: 0, copied: 0, bytes_copied: 0, errors: 0 }
    }
}

/// The numbers with one more file of this size. `None` stands for a file that could not be handled.
pub open spec fn counted(s: Stats, outcome: Option<Outcome>, size: u64) -> Stats {
    match outcome {
        Some(Outcome::Unchanged) => Stats {
            skipped_unchanged: (s.skipped_unchanged + 1) as u64,
            ..s
        },
        Some(Outcome::Duplicate) => Stats { duplicates: (s.duplicates + 1) as u64, ..s },
        Some(Outcome::Copied) => Stats {
            copied: (s.copied + 1) as u64,
            bytes_copied: (s.bytes_copied + size) as u64,
            ..s
        },
        None => Stats { errors: (s.errors + 1) as u64, ..s },
    }
}

/// Can one more file of this size be counted?
pub open spec fn room_for(s: Stats, outcome: Option<Outcome>, size: u64) -> bool {
    match outcome {
        Some(Outcome::Unchanged) => s.skipped_unchanged < u64::MAX,
        Some(Outcome::Duplicate) => s.duplicates < u64::MAX,
        Some(Outcome::Copied) => s.copied < u64::MAX && s.bytes_copied + size <= u64::MAX,
        None => s.errors < u64::MAX,
    }
}

/// The number of files that were handled.
pub open spec fn seen(s: Stats) -> nat {
    s.skipped_unchanged as nat + s.duplicates as nat + s.copied as nat
}

/// The numbers in words.
pub open spec fn summary(s: Stats) -> Seq<char> {
    text::decimal(seen(s)) + " files seen: "@ + text::decimal(s.copied as nat) + " copied ("@
        + text::decimal(s.bytes_copied as nat) + " bytes), "@ + text::decimal(s.duplicates as nat)
        + " already archived, "@ + text::decimal(s.skipped_unchanged as nat) + " unchanged, "@
        + text::decimal(s.errors as nat) + " errors"@
}

impl Stats {
    /// Can one more file of this size be counted?
    pub fn has_room(&self, outcome: Option<Outcome>, size: u64) -> (room: bool)
        ensures
            room == room_for(*self, outcome, size),
    {
        match outcome {
            Some(Outcome::Unchanged) => self.skipped_unchanged < u64::MAX,
            Some(Outcome::Duplicate) => self.duplicates < u64::MAX,
            Some(Outcome::Copied) => self.copied < u64::MAX && self.bytes_copied <= u64::MAX - size,
            None => self.errors < u64::MAX,
        }
    }

    /// Count a file that was handled.
    pub fn record(&mut self, outcome: Outcome, size: u64)
        requires
            room_for(*old(self), Some(outcome), size),
        ensures
            *final(self) == counted(*old(self), Some(outcome), size),
    {
        match outcome {
            Outcome::Unchanged => {
                self.skipped_unchanged += 1;
            },
            Outcome::Duplicate => {
                self.duplicates += 1;
            },
            Outcome::Copied => {
                self.copied += 1;
                self.bytes_copied += size;
            },
        }
    }

    /// Count a file that could not be handled.
    pub fn record_error(&mut self)
        requires
            old(self).errors < u64::MAX,
        ensures
            *final(self) == counted(*old(self), None, 0),
    {
        self.errors += 1;
    }

    /// Does the number of handled files fit?
    pub fn total_fits(&self) -> (fits: bool)
        ensures
            fits == (seen(*self) <= u64::MAX),
    {
        match self.skipped_unchanged.checked_add(self.duplicates) {
            Some(n) => n.checked_add(self.copied).is_some(),
            None => false,
        }
    }

    /// The number of files that were handled.
    pub fn total_seen(&self) -> (total: u64)
        requires
            seen(*self) <= u64::MAX,
        ensures
            total == seen(*self),
    {
        self.skipped_unchanged + self.duplicates + self.copied
    }

    /// The numbers in words.
    pub fn message(&self) -> (text: String)
        requires
            seen(*self) <= u64::MAX,
        ensures
            text@ == summary(*self),
    {
        let mut text = decimal_text(self.total_seen());
        text.append(" files seen: ");
        text.append(decimal_text(self.copied).as_str());
        text.append(" copied (");
        text.append(decimal_text(self.bytes_copied).as_str());
        text.append(" bytes), ");
        text.append(decimal_text(self.duplicates).as_str());
        text.append(" already archived, ");
        text.append(decimal_text(self.skipped_unchanged).as_str());
        text.append(" unchanged, ");
        text.append(decimal_text(self.errors).as_str());
        text.append(" errors");
        text
    }
}

/// Every file that is handled is seen, and is counted once; a file that could not be handled
/// counts as an error only.
pub proof fn law_every_file_counts_once(s: Stats, outcome: Option<Outcome>, size: u64)
    requires
        room_for(s, outcome, size),
    ensures
        seen(counted(s, outcome, size)) == seen(s) + if outcome is Some {
            1nat
        } else {
            0
        },
        counted(s, outcome, size).errors == s.errors + if outcome is Some {
            0int
        } else {
            1
        },
        outcome != Some(Outcome::Copied) ==> counted(s, outcome, size).bytes_copied
            == s.bytes_copied,
        outcome == Some(Outcome::Copied) ==> counted(s, outcome, size).bytes_copied
            == s.bytes_copied + size,
{
}

/// Recording a file adds one to the number of its outcome, and the size of a copied file to the bytes;
/// the other numbers stay. A new run has done nothing.
pub proof fn law_each_outcome_has_its_number(
    stats: &mut Stats,
    outcome: Outcome,
    size: u64,
    failing: &mut Stats,
    begun: Stats,
)
    requires
        outcome is Unchanged ==> old(stats).skipped_unchanged < u64::MAX,
        outcome is Duplicate ==> old(stats).duplicates < u64::MAX,
        outcome is Copied ==> old(stats).copied < u64::MAX && old(stats).bytes_copied + size
            <= u64::MAX,
        call_ensures(Stats::record, (stats, outcome, size), ()),
        old(failing).errors < u64::MAX,
        call_ensures(Stats::record_error, (failing,), ()),
    ensures
        ({
            let was = *old(stats);
            let is = *final(stats);
            &&& is.skipped_unchanged - was.skipped_unchanged == if outcome is Unchanged {
                1int
            } else {
                0
            }
            &&& is.duplicates - was.duplicates == if outcome is Duplicate {
                1int
            } else {
                0
            }
            &&& is.copied - was.copied == if outcome is Copied {
                1int
            } else {
                0
            }
            &&& is.bytes_copied - was.bytes_copied == if outcome is Copied {
                size as int
            } else {
                0
            }
            &&& is.errors == was.errors
        }),
        final(failing).errors == old(failing).errors + 1,
        final(failing).skipped_unchanged == old(failing).skipped_unchanged,
        final(failing).duplicates == old(failing).duplicates,
        final(failing).copied == old(failing).copied,
        final(failing).bytes_copied == old(failing).bytes_copied,
        call_ensures(<Stats as Default>::default, (), begun) ==> begun.skipped_unchanged == 0
            && begun.duplicates == 0 && begun.copied == 0 && begun.bytes_copied == 0
            && begun.errors == 0,
{
}

/// The files that were seen are those that were copied, those that were already there and those that
/// were unchanged.
pub proof fn law_what_was_seen(stats: &Stats, total: u64, fits: bool)
    ensures
        call_ensures(Stats::total_seen, (stats,), total) ==> total == stats.copied
            + stats.duplicates + stats.skipped_unchanged,
        call_ensures(Stats::total_fits, (stats,), fits) ==> (fits <==> stats.copied
            + stats.duplicates + stats.skipped_unchanged <= 0xffff_ffff_ffff_ffff),
{
}

/// The text tells each number where its word stands.
pub proof fn law_the_text_tells_every_number(stats: &Stats, text: String)
    requires
        call_ensures(Stats::message, (stats,), text),
    ensures
        ({
            let d = |n: int| text::decimal(n as nat);
            text@ == d(stats.copied + stats.duplicates + stats.skipped_unchanged)
                + " files seen: "@ + d(stats.copied as int) + " copied ("@ + d(
                stats.bytes_copied as int,
            ) + " bytes), "@ + d(stats.duplicates as int) + " already archived, "@ + d(
                stats.skipped_unchanged as int,
            ) + " unchanged, "@ + d(stats.errors as int) + " errors"@
        }),
{
}

} // verus!
