//! The order of the leaderboard and the rule by which a submission enters
//! it, with what that rule keeps true.

use vstd::prelude::*;
use crate::database::Attempt;

verus! {

/// `a` ranks at least as high as `b`: a higher wave wins, and at equal
/// waves the shorter time does.
pub open spec fn not_worse(a: Attempt, b: Attempt) -> bool {
    a.wave > b.wave || (a.wave == b.wave && a.time <= b.time)
}

/// The whole sequence is in rank order, best first.
pub open spec fn rank_ordered(s: Seq<Attempt>) -> bool {
    forall|i: int, j: int| 0 <= i < j < s.len() ==> not_worse(#[trigger] s[i], #[trigger] s[j])
}

/// No player holds more than one entry.
pub open spec fn one_per_player(s: Seq<Attempt>) -> bool {
    forall|i: int, j: int|
        0 <= i < j < s.len() ==> (#[trigger] s[i]).name != (#[trigger] s[j]).name
}

/// The first position from `from` on whose entry meets `hit`, or the
/// length of `s` if none does.
pub open spec fn first_index(s: Seq<Attempt>, hit: spec_fn(Attempt) -> bool, from: int) -> int
    decreases s.len() - from,
{
    if from < 0 || from >= s.len() || hit(s[from]) {
        from
    } else {
        first_index(s, hit, from + 1)
    }
}

/// The position of the first entry that `name` holds, or the length of `s`
/// if the player has none.
pub open spec fn entry_of(s: Seq<Attempt>, name: Seq<char>) -> int {
    first_index(s, |a: Attempt| a.name == name, 0)
}

/// Where `a` goes into `s`: before the first entry that it is not worse
/// than, or at the end if there is none.
pub open spec fn slot_for(s: Seq<Attempt>, a: Attempt) -> int {
    first_index(s, |e: Attempt| not_worse(a, e), 0)
}

/// The entry that a player holds after submitting `wave` and `time` while
/// holding `held`. A higher wave replaces the entry; the same wave keeps
/// the shorter of the two times; a lower wave changes nothing.
pub open spec fn merged(held: Attempt, wave: u32, time: u32) -> Attempt {
    if wave > held.wave {
        Attempt { name: held.name, wave, time }
    } else if wave == held.wave {
        Attempt { name: held.name, wave, time: if time < held.time { time } else { held.time } }
    } else {
        held
    }
}

/// The entry that stands for the player once the submission is in.
pub open spec fn entry_after(s: Seq<Attempt>, name: Seq<char>, wave: u32, time: u32) -> Attempt {
    let at = entry_of(s, name);
    if at < s.len() {
        merged(s[at], wave, time)
    } else {
        Attempt { name, wave, time }
    }
}

/// The entries of the other players, once the player's first entry is
/// taken out.
pub open spec fn without_entry(s: Seq<Attempt>, name: Seq<char>) -> Seq<Attempt> {
    let at = entry_of(s, name);
    if at < s.len() {
        s.remove(at)
    } else {
        s
    }
}

/// The leaderboard after a submission.
pub open spec fn submit(s: Seq<Attempt>, name: Seq<char>, wave: u32, time: u32) -> Seq<Attempt> {
    let others = without_entry(s, name);
    let entry = entry_after(s, name, wave, time);
    others.insert(slot_for(others, entry), entry)
}

/// `first_index` stays within the sequence, stops on a hit and passes
/// none.
pub proof fn lemma_first_index_bounds(s: Seq<Attempt>, hit: spec_fn(Attempt) -> bool, from: int)
    requires
        0 <= from <= s.len(),
    ensures
        from <= first_index(s, hit, from) <= s.len(),
        first_index(s, hit, from) < s.len() ==> hit(s[first_index(s, hit, from)]),
        forall|k: int| from <= k < first_index(s, hit, from) ==> !hit(#[trigger] s[k]),
    decreases s.len() - from,
{
    if from < s.len() && !hit(s[from]) {
        lemma_first_index_bounds(s, hit, from + 1);
    }
}

/// The position that stops on a hit, or at the end, having passed none, is
/// the one that `first_index` finds.
pub proof fn lemma_first_index_is(
    s: Seq<Attempt>,
    hit: spec_fn(Attempt) -> bool,
    from: int,
    at: int,
)
    requires
        0 <= from <= at <= s.len(),
        forall|k: int| from <= k < at ==> !hit(#[trigger] s[k]),
        at < s.len() ==> hit(s[at]),
    ensures
        first_index(s, hit, from) == at,
    decreases at - from,
{
    if from < at {
        lemma_first_index_is(s, hit, from + 1, at);
    }
}

/// A submission leaves a leaderboard in rank order in rank order.
pub proof fn lemma_submit_keeps_rank_order(s: Seq<Attempt>, name: Seq<char>, wave: u32, time: u32)
    requires
        rank_ordered(s),
    ensures
        rank_ordered(submit(s, name, wave, time)),
{
    let others = without_entry(s, name);
    let entry = entry_after(s, name, wave, time);
    let slot = slot_for(others, entry);
    let after = submit(s, name, wave, time);
    let at = entry_of(s, name);
    lemma_first_index_bounds(s, |a: Attempt| a.name == name, 0);
    lemma_first_index_bounds(others, |e: Attempt| not_worse(entry, e), 0);
    assert forall|i: int, j: int| 0 <= i < j < others.len() implies not_worse(
        #[trigger] others[i],
        #[trigger] others[j],
    ) by {
        if at < s.len() {
            let si = if i < at { i } else { i + 1 };
            let sj = if j < at { j } else { j + 1 };
            assert(others[i] == s[si] && others[j] == s[sj]);
        }
    }
    assert forall|i: int, j: int| 0 <= i < j < after.len() implies not_worse(
        #[trigger] after[i],
        #[trigger] after[j],
    ) by {
        if j < slot {
            assert(after[i] == others[i] && after[j] == others[j]);
        } else if j == slot {
            assert(after[i] == others[i]);
            assert(!not_worse(entry, others[i]));
        } else if i < slot {
            assert(after[i] == others[i] && after[j] == others[j - 1]);
        } else if i == slot {
            assert(after[j] == others[j - 1]);
            assert(not_worse(entry, others[slot]));
            if j - 1 > slot {
                assert(not_worse(others[slot], others[j - 1]));
            }
        } else {
            assert(after[i] == others[i - 1] && after[j] == others[j - 1]);
        }
    }
}

/// A submission leaves a leaderboard with one entry per player with one
/// entry per player.
pub proof fn lemma_submit_keeps_one_per_player(
    s: Seq<Attempt>,
    name: Seq<char>,
    wave: u32,
    time: u32,
)
    requires
        one_per_player(s),
    ensures
        one_per_player(submit(s, name, wave, time)),
{
    let others = without_entry(s, name);
    let entry = entry_after(s, name, wave, time);
    let slot = slot_for(others, entry);
    let after = submit(s, name, wave, time);
    let at = entry_of(s, name);
    lemma_first_index_bounds(s, |a: Attempt| a.name == name, 0);
    lemma_first_index_bounds(others, |e: Attempt| not_worse(entry, e), 0);
    assert(entry.name == name);
    assert forall|i: int| 0 <= i < others.len() implies (#[trigger] others[i]).name != name by {
        if at < s.len() {
            let si = if i < at { i } else { i + 1 };
            assert(others[i] == s[si]);
            if si < at {
                assert(s[si].name != s[at].name);
            } else {
                assert(s[at].name != s[si].name);
            }
        } else {
            assert(others[i] == s[i]);
        }
    }
    assert forall|i: int, j: int| 0 <= i < j < others.len() implies (#[trigger] others[i]).name != (
    #[trigger] others[j]).name by {
        if at < s.len() {
            let si = if i < at { i } else { i + 1 };
            let sj = if j < at { j } else { j + 1 };
            assert(others[i] == s[si] && others[j] == s[sj]);
        }
    }
    assert forall|i: int, j: int| 0 <= i < j < after.len() implies (#[trigger] after[i]).name != (
    #[trigger] after[j]).name by {
        let oi = if i < slot { i } else { i - 1 };
        let oj = if j < slot { j } else { j - 1 };
        if i == slot {
            assert(after[j] == others[oj]);
        } else if j == slot {
            assert(after[i] == others[oi]);
        } else {
            assert(after[i] == others[oi] && after[j] == others[oj]);
        }
    }
}

/// The leaderboard after the given submissions, entered one after the
/// other.
pub open spec fn submit_all(s: Seq<Attempt>, calls: Seq<Attempt>) -> Seq<Attempt>
    decreases calls.len(),
{
    if calls.len() == 0 {
        s
    } else {
        let last = calls.last();
        submit(submit_all(s, calls.drop_last()), last.name, last.wave, last.time)
    }
}

/// However many submissions come in, and whatever they hold, a
/// leaderboard in rank order stays in rank order after each of them.
pub proof fn lemma_submissions_keep_rank_order(s: Seq<Attempt>, calls: Seq<Attempt>)
    requires
        rank_ordered(s),
    ensures
        rank_ordered(submit_all(s, calls)),
    decreases calls.len(),
{
    if calls.len() > 0 {
        let last = calls.last();
        lemma_submissions_keep_rank_order(s, calls.drop_last());
        lemma_submit_keeps_rank_order(
            submit_all(s, calls.drop_last()),
            last.name,
            last.wave,
            last.time,
        );
    }
}

/// However many submissions come in, and whatever they hold, a
/// leaderboard with one entry per player has one entry per player after
/// each of them.
pub proof fn lemma_submissions_keep_one_per_player(s: Seq<Attempt>, calls: Seq<Attempt>)
    requires
        one_per_player(s),
    ensures
        one_per_player(submit_all(s, calls)),
    decreases calls.len(),
{
    if calls.len() > 0 {
        let last = calls.last();
        lemma_submissions_keep_one_per_player(s, calls.drop_last());
        lemma_submit_keeps_one_per_player(
            submit_all(s, calls.drop_last()),
            last.name,
            last.wave,
            last.time,
        );
    }
}

/// Submissions entered into an empty leaderboard leave it in rank order,
/// with one entry per player.
pub proof fn lemma_submissions_from_empty(calls: Seq<Attempt>)
    ensures
        rank_ordered(submit_all(Seq::empty(), calls)),
        one_per_player(submit_all(Seq::empty(), calls)),
{
    lemma_submissions_keep_rank_order(Seq::empty(), calls);
    lemma_submissions_keep_one_per_player(Seq::empty(), calls);
}

/// A player's entry after a submission is under the player's name, and is
/// worse neither than the submission nor than the entry held before.
pub proof fn lemma_submit_never_regresses(s: Seq<Attempt>, name: Seq<char>, wave: u32, time: u32)
    ensures
        entry_after(s, name, wave, time).name == name,
        not_worse(entry_after(s, name, wave, time), Attempt { name, wave, time }),
        entry_of(s, name) < s.len() ==> not_worse(
            entry_after(s, name, wave, time),
            s[entry_of(s, name)],
        ),
        entry_of(s, name) < s.len() ==> entry_after(s, name, wave, time) == s[entry_of(s, name)]
            || not_worse(Attempt { name, wave, time }, s[entry_of(s, name)]),
{
    lemma_first_index_bounds(s, |a: Attempt| a.name == name, 0);
}

/// After a submission the player's entry is on the leaderboard, at the
/// slot found for it, and the entries of the others are as they were, in
/// the order in which they were.
pub proof fn lemma_submit_holds_entry(s: Seq<Attempt>, name: Seq<char>, wave: u32, time: u32)
    ensures
        ({
            let others = without_entry(s, name);
            let entry = entry_after(s, name, wave, time);
            let after = submit(s, name, wave, time);
            let slot = slot_for(others, entry);
            &&& 0 <= slot <= others.len()
            &&& after.len() == others.len() + 1
            &&& after[slot] == entry
            &&& after.remove(slot) == others
            &&& after.contains(entry)
            &&& others.len() == if entry_of(s, name) < s.len() {
                s.len() - 1
            } else {
                s.len() as int
            }
        }),
{
    let others = without_entry(s, name);
    let entry = entry_after(s, name, wave, time);
    let after = submit(s, name, wave, time);
    let slot = slot_for(others, entry);
    lemma_first_index_bounds(s, |a: Attempt| a.name == name, 0);
    lemma_first_index_bounds(others, |e: Attempt| not_worse(entry, e), 0);
    assert(after.remove(slot) =~= others);
    assert(after[slot] == entry);
}

/// Every entry on the leaderboard after a submission is the player's
/// entry or was on the leaderboard before.
pub proof fn lemma_submit_entries_come_from(
    s: Seq<Attempt>,
    name: Seq<char>,
    wave: u32,
    time: u32,
)
    ensures
        forall|k: int|
            0 <= k < submit(s, name, wave, time).len() ==> {
                ||| (#[trigger] submit(s, name, wave, time)[k]) == entry_after(s, name, wave, time)
                ||| s.contains(submit(s, name, wave, time)[k])
            },
{
    let others = without_entry(s, name);
    let entry = entry_after(s, name, wave, time);
    let after = submit(s, name, wave, time);
    let slot = slot_for(others, entry);
    let at = entry_of(s, name);
    lemma_first_index_bounds(s, |a: Attempt| a.name == name, 0);
    lemma_first_index_bounds(others, |e: Attempt| not_worse(entry, e), 0);
    assert forall|k: int| 0 <= k < after.len() implies (#[trigger] after[k]) == entry || s.contains(
        after[k],
    ) by {
        if k != slot {
            let o = if k < slot { k } else { k - 1 };
            assert(after[k] == others[o]);
            let i = if at < s.len() && o >= at { o + 1 } else { o };
            assert(others[o] == s[i]);
        }
    }
}

/// A submission leaves every entry of another player on the leaderboard.
pub proof fn lemma_submit_keeps_other_players(
    s: Seq<Attempt>,
    name: Seq<char>,
    wave: u32,
    time: u32,
    other: Attempt,
)
    requires
        s.contains(other),
        other.name != name,
    ensures
        submit(s, name, wave, time).contains(other),
{
    let others = without_entry(s, name);
    let entry = entry_after(s, name, wave, time);
    let after = submit(s, name, wave, time);
    let slot = slot_for(others, entry);
    let at = entry_of(s, name);
    lemma_first_index_bounds(s, |a: Attempt| a.name == name, 0);
    lemma_first_index_bounds(others, |e: Attempt| not_worse(entry, e), 0);
    let i = choose|i: int| 0 <= i < s.len() && s[i] == other;
    let k = if at < s.len() && i > at { i - 1 } else { i };
    assert(others[k] == other);
    let j = if k < slot { k } else { k + 1 };
    assert(after[j] == other);
}

/// Putting in an entry that is no hit leaves the first hit what it was.
proof fn lemma_first_hit_after_insert(
    s: Seq<Attempt>,
    hit: spec_fn(Attempt) -> bool,
    at: int,
    x: Attempt,
)
    requires
        0 <= at <= s.len(),
        !hit(x),
    ensures
        first_index(s, hit, 0) < s.len() <==> first_index(s.insert(at, x), hit, 0) < s.len() + 1,
        first_index(s, hit, 0) < s.len() ==> s.insert(at, x)[first_index(s.insert(at, x), hit, 0)]
            == s[first_index(s, hit, 0)],
{
    let t = s.insert(at, x);
    let i = first_index(s, hit, 0);
    lemma_first_index_bounds(s, hit, 0);
    let j = if i < at { i } else { i + 1 };
    assert forall|k: int| 0 <= k < j implies !hit(#[trigger] t[k]) by {
        if k < at {
            assert(t[k] == s[k]);
        } else if k > at {
            assert(t[k] == s[k - 1]);
        }
    }
    if i < s.len() {
        assert(t[j] == s[i]);
    }
    lemma_first_index_is(t, hit, 0, j);
}

/// Taking out an entry that is no hit leaves the first hit what it was.
proof fn lemma_first_hit_after_remove(s: Seq<Attempt>, hit: spec_fn(Attempt) -> bool, at: int)
    requires
        0 <= at < s.len(),
        !hit(s[at]),
    ensures
        first_index(s, hit, 0) < s.len() <==> first_index(s.remove(at), hit, 0) < s.len() - 1,
        first_index(s, hit, 0) < s.len() ==> s.remove(at)[first_index(s.remove(at), hit, 0)]
            == s[first_index(s, hit, 0)],
{
    let t = s.remove(at);
    let i = first_index(s, hit, 0);
    lemma_first_index_bounds(s, hit, 0);
    let j = if i < at { i } else { i - 1 };
    assert forall|k: int| 0 <= k < j implies !hit(#[trigger] t[k]) by {
        if k < at {
            assert(t[k] == s[k]);
        } else {
            assert(t[k] == s[k + 1]);
        }
    }
    if i < s.len() {
        assert(t[j] == s[i]);
    }
    lemma_first_index_is(t, hit, 0, j);
}

/// What a player's submission makes of the player's entry does not depend
/// on a submission of another player that came in before it.
pub proof fn lemma_entry_after_other_submission(
    s: Seq<Attempt>,
    first: Attempt,
    second: Attempt,
)
    requires
        first.name != second.name,
    ensures
        entry_after(
            submit(s, first.name, first.wave, first.time),
            second.name,
            second.wave,
            second.time,
        ) == entry_after(s, second.name, second.wave, second.time),
{
    let hit = |a: Attempt| a.name == second.name;
    let at = entry_of(s, first.name);
    let others = without_entry(s, first.name);
    let entry = entry_after(s, first.name, first.wave, first.time);
    let slot = slot_for(others, entry);
    lemma_first_index_bounds(s, |a: Attempt| a.name == first.name, 0);
    lemma_first_index_bounds(others, |e: Attempt| not_worse(entry, e), 0);
    lemma_submit_never_regresses(s, first.name, first.wave, first.time);
    if at < s.len() {
        lemma_first_hit_after_remove(s, hit, at);
    }
    lemma_first_hit_after_insert(others, hit, slot, entry);
}

/// Two submissions of different players, entered one after the other:
/// both players' entries are on the leaderboard afterwards, each as it
/// would be had the other not come in, and a leaderboard in rank order is
/// still in rank order. As this holds of any two, it holds in either
/// order.
pub proof fn lemma_both_submissions_survive(s: Seq<Attempt>, first: Attempt, second: Attempt)
    requires
        first.name != second.name,
    ensures
        ({
            let once = submit(s, first.name, first.wave, first.time);
            let both = submit(once, second.name, second.wave, second.time);
            &&& both.contains(entry_after(s, first.name, first.wave, first.time))
            &&& both.contains(entry_after(s, second.name, second.wave, second.time))
            &&& rank_ordered(s) ==> rank_ordered(both)
            &&& one_per_player(s) ==> one_per_player(both)
        }),
{
    let once = submit(s, first.name, first.wave, first.time);
    let both = submit(once, second.name, second.wave, second.time);
    let kept = entry_after(s, first.name, first.wave, first.time);
    lemma_submit_holds_entry(s, first.name, first.wave, first.time);
    lemma_submit_never_regresses(s, first.name, first.wave, first.time);
    lemma_submit_keeps_other_players(once, second.name, second.wave, second.time, kept);
    lemma_submit_holds_entry(once, second.name, second.wave, second.time);
    lemma_entry_after_other_submission(s, first, second);
    if rank_ordered(s) {
        lemma_submit_keeps_rank_order(s, first.name, first.wave, first.time);
        lemma_submit_keeps_rank_order(once, second.name, second.wave, second.time);
    }
    if one_per_player(s) {
        lemma_submit_keeps_one_per_player(s, first.name, first.wave, first.time);
        lemma_submit_keeps_one_per_player(once, second.name, second.wave, second.time);
    }
}

} // verus!
