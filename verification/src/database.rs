//! The leaderboard as it is held in memory: its records, how a submission
//! enters it, how its best entries are read, and how it is saved and
//! restored.

use vstd::prelude::*;
use crate::ranking::{
    entry_of, lemma_first_index_is, lemma_submit_keeps_one_per_player,
    lemma_submit_keeps_rank_order, merged, not_worse, one_per_player, rank_ordered, slot_for,
    submit,
};
use crate::snapshot::{parse_snapshot, read_snapshot, snapshot_text, write_snapshot, SnapshotError};

verus! {

/// What one leaderboard entry stands for: a player's name with the wave
/// reached and the time survived.
pub struct Attempt {
    pub name: Seq<char>,
    pub wave: u32,
    pub time: u32,
}

/// One leaderboard entry as it is held in memory.
pub struct Record {
    pub name: String,
    pub wave: u32,
    pub time: u32,
}

impl View for Record {
    type V = Attempt;

    open spec fn view(&self) -> Attempt {
        Attempt { name: self.name@, wave: self.wave, time: self.time }
    }
}

/// The attempts that a sequence of records stands for, in the same order.
pub open spec fn attempts_of(records: Seq<Record>) -> Seq<Attempt> {
    Seq::new(records.len(), |i: int| records[i]@)
}

/// How many entries a reply to a query holds at most.
pub const TOP_COUNT: usize = 10;

/// The leaderboard, with the path under which its snapshot is kept.
pub struct Database {
    path: String,
    records: Vec<Record>,
}

impl View for Database {
    type V = Seq<Attempt>;

    /// The entries, best first.
    closed spec fn view(&self) -> Seq<Attempt> {
        attempts_of(self.records@)
    }
}

impl Database {
    /// The text of the path that the leaderboard was made with.
    pub closed spec fn path_text(&self) -> Seq<char> {
        self.path@
    }

    /// The leaderboard is in rank order and holds one entry per player.
    /// An empty leaderboard is so, and a submission keeps it so. A
    /// leaderboard restored from a snapshot is as the snapshot's text has
    /// it, whether that is so or not.
    pub open spec fn well_formed(&self) -> bool {
        rank_ordered(self@) && one_per_player(self@)
    }

    /// Restores a leaderboard from the text of its snapshot. The entries
    /// stand in the order in which the text holds them. A text that is not
    /// a whole number of well-formed groups of three lines is refused, with
    /// the first fault in it.
    pub fn new(path: String, snapshot: &[u8]) -> (r: Result<Database, SnapshotError>)
        ensures
            match r {
                Ok(db) => read_snapshot(snapshot@) == Ok::<Seq<Attempt>, SnapshotError>(db@)
                    && db.path_text() == path@,
                Err(e) => read_snapshot(snapshot@) == Err::<Seq<Attempt>, SnapshotError>(e),
            },
    {
        match parse_snapshot(snapshot) {
            Ok(records) => Ok(Database { path, records }),
            Err(e) => Err(e),
        }
    }

    /// The path that the leaderboard was made with.
    pub fn path(&self) -> (p: &String)
        ensures
            p@ == self.path_text(),
    {
        &self.path
    }

    /// The number of entries.
    pub fn len(&self) -> (n: usize)
        ensures
            n == self@.len(),
    {
        self.records.len()
    }

    /// The snapshot text of the leaderboard as it stands.
    pub fn snapshot(&self) -> (text: Vec<u8>)
        ensures
            text@ == snapshot_text(self@),
    {
        write_snapshot(&self.records)
    }

    /// The first `n` entries, in the order of the leaderboard, or all of
    /// them where there are fewer.
    pub fn top(&self, n: usize) -> (best: Vec<&Record>)
        ensures
            best@.len() == if n <= self@.len() { n as int } else { self@.len() as int },
            forall|i: int| 0 <= i < best@.len() ==> (#[trigger] best@[i])@ == self@[i],
    {
        let mut best: Vec<&Record> = Vec::new();
        let count: usize = if n <= self.records.len() { n } else { self.records.len() };
        let mut i: usize = 0;
        while i < count
            invariant
                i <= count <= self.records@.len(),
                best@.len() == i,
                forall|k: int| 0 <= k < i ==> (#[trigger] best@[k])@ == self.records@[k]@,
            decreases count - i,
        {
            best.push(&self.records[i]);
            i = i + 1;
        }
        best
    }
}

/// Enters a submission. Where the player already has an entry, that entry
/// is taken out and merged with the submission; else the submission
/// becomes the player's entry. The entry then goes before the first one
/// that it is not worse than, or to the end where there is none.
pub fn add_record(db: &mut Database, name: String, wave: u32, time: u32)
    ensures
        final(db)@ == submit(old(db)@, name@, wave, time),
        final(db).path_text() == old(db).path_text(),
        rank_ordered(old(db)@) ==> rank_ordered(final(db)@),
        one_per_player(old(db)@) ==> one_per_player(final(db)@),
        old(db).well_formed() ==> final(db).well_formed(),
{
    let ghost before = db@;
    let ghost hit_name = |a: Attempt| a.name == name@;
    let n: usize = db.records.len();
    let mut at: usize = 0;
    while at < n && !(db.records[at].name == name)
        invariant
            at <= n,
            n == db.records@.len(),
            db@ == before,
            forall|k: int| 0 <= k < at ==> (#[trigger] before[k]).name != name@,
        decreases n - at,
    {
        at = at + 1;
    }
    proof {
        lemma_first_index_is(before, hit_name, 0, at as int);
        assert(entry_of(before, name@) == at);
    }
    let entry = if at < n {
        let held = db.records.remove(at);
        assert(held@ == before[at as int]);
        if wave > held.wave {
            Record { name, wave, time }
        } else if wave == held.wave {
            Record { name, wave, time: if time < held.time { time } else { held.time } }
        } else {
            held
        }
    } else {
        Record { name, wave, time }
    };
    let ghost others = db@;
    assert(others =~= if at < n { before.remove(at as int) } else { before });
    assert(entry@ == if at < n { merged(before[at as int], wave, time) } else {
        Attempt { name: name@, wave, time }
    });
    let ghost hit_rank = |e: Attempt| not_worse(entry@, e);
    let m: usize = db.records.len();
    let mut slot: usize = 0;
    while slot < m && !(entry.wave > db.records[slot].wave || (entry.wave == db.records[slot].wave
        && entry.time <= db.records[slot].time))
        invariant
            slot <= m,
            m == db.records@.len(),
            db@ == others,
            forall|k: int| 0 <= k < slot ==> !not_worse(entry@, #[trigger] others[k]),
        decreases m - slot,
    {
        slot = slot + 1;
    }
    proof {
        lemma_first_index_is(others, hit_rank, 0, slot as int);
        assert(slot_for(others, entry@) == slot);
    }
    let ghost placed = entry@;
    db.records.insert(slot, entry);
    assert(db@ =~= others.insert(slot as int, placed));
    proof {
        if rank_ordered(before) {
            lemma_submit_keeps_rank_order(before, name@, wave, time);
        }
        if one_per_player(before) {
            lemma_submit_keeps_one_per_player(before, name@, wave, time);
        }
    }
}

/// The first ten entries, in the order of the leaderboard, or all of them
/// where there are fewer.
pub fn get_records<'a>(db: &'a Database) -> (best: Vec<&'a Record>)
    ensures
        best@.len() == if db@.len() >= TOP_COUNT { TOP_COUNT as int } else { db@.len() as int },
        forall|i: int| 0 <= i < best@.len() ==> (#[trigger] best@[i])@ == db@[i],
{
    db.top(TOP_COUNT)
}

} // verus!
