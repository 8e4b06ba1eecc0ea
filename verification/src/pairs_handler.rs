//! The pairing engine: a recency lookup over the history, an exhaustive
//! search for the partition of the roster that maximizes total staleness,
//! and the single-line rendering of an assignment.

use vstd::prelude::*;
use crate::models::{names_seq, groups_seq, EntryView, HistoryEntry, PairingHistory, Member, contains_name};
use vstd::multiset::Multiset;

verus! {

/// The view of an optional string slice.
pub open spec fn opt_view(b: Option<&str>) -> Option<Seq<char>> {
    match b {
        Option::Some(s) => Option::Some(s@),
        Option::None => Option::None,
    }
}

/// Whether the group `g` contains `a`, and also `b` when `b` is given.
pub open spec fn group_matches(g: Seq<Seq<char>>, a: Seq<char>, b: Option<Seq<char>>) -> bool {
    match b {
        Option::Some(bb) => g.contains(a) && g.contains(bb),
        Option::None => g.contains(a),
    }
}

/// Whether some group recorded in `e` matches `a` (and `b`).
pub open spec fn entry_matches(e: EntryView, a: Seq<char>, b: Option<Seq<char>>) -> bool {
    exists|k: int| 0 <= k < e.groups.len() && group_matches(#[trigger] e.groups[k], a, b)
}

/// How many distinct recorded dates back the most recent match lies, the
/// most recent date counting as 0; the total number of dates when no record
/// matches ("never" scores as older than anything on record).
pub open spec fn spec_days_since(
    entries: Seq<EntryView>,
    a: Seq<char>,
    b: Option<Seq<char>>,
) -> nat
    decreases entries.len(),
{
    if entries.len() == 0 {
        0
    } else if entry_matches(entries[0], a, b) {
        0
    } else {
        1 + spec_days_since(entries.drop_first(), a, b)
    }
}

/// The staleness of any lookup is at most the number of recorded dates.
pub proof fn lemma_days_since_le_len(entries: Seq<EntryView>, a: Seq<char>, b: Option<Seq<char>>)
    ensures
        spec_days_since(entries, a, b) <= entries.len(),
    decreases entries.len(),
{
    if entries.len() > 0 && !entry_matches(entries[0], a, b) {
        lemma_days_since_le_len(entries.drop_first(), a, b);
    }
}

/// A scan that finds its first match at position `i` (or no match at all,
/// with `i` the total count) computes exactly the staleness.
proof fn lemma_days_since_at(
    entries: Seq<EntryView>,
    a: Seq<char>,
    b: Option<Seq<char>>,
    i: int,
)
    requires
        0 <= i <= entries.len(),
        forall|m: int| 0 <= m < i ==> !entry_matches(#[trigger] entries[m], a, b),
        i < entries.len() ==> entry_matches(entries[i], a, b),
    ensures
        spec_days_since(entries, a, b) == i,
    decreases entries.len(),
{
    if i == 0 {
    } else {
        assert(!entry_matches(entries[0], a, b));
        assert forall|m: int| 0 <= m < i - 1 implies !entry_matches(
            #[trigger] entries.drop_first()[m],
            a,
            b,
        ) by {
            assert(entries.drop_first()[m] == entries[m + 1]);
        }
        if i - 1 < entries.drop_first().len() {
            assert(entries.drop_first()[i - 1] == entries[i]);
        }
        lemma_days_since_at(entries.drop_first(), a, b, i - 1);
    }
}

fn group_matches_exec(g: &Vec<String>, a: &str, b: Option<&str>) -> (r: bool)
    ensures
        r == group_matches(names_seq(g@), a@, opt_view(b)),
{
    match b {
        Option::Some(bb) => {
            let first = contains_name(g, a);
            first && contains_name(g, bb)
        },
        Option::None => contains_name(g, a),
    }
}

fn entry_matches_exec(e: &HistoryEntry, a: &str, b: Option<&str>) -> (r: bool)
    ensures
        r == entry_matches(e@, a@, opt_view(b)),
{
    let mut k: usize = 0;
    while k < e.groups.len()
        invariant
            k <= e.groups@.len(),
            forall|m: int|
                0 <= m < k ==> !group_matches(#[trigger] e@.groups[m], a@, opt_view(b)),
        decreases e.groups@.len() - k,
    {
        if group_matches_exec(&e.groups[k], a, b) {
            assert(e@.groups[k as int] == names_seq(e.groups@[k as int]@));
            return true;
        }
        assert(e@.groups[k as int] == names_seq(e.groups@[k as int]@));
        k = k + 1;
    }
    false
}

/// Scans the history from the most recent date backwards and returns the
/// 0-based rank of the first date on which a group contains `member1` and,
/// when given, `member2`; returns the total number of recorded dates when no
/// such date exists. Tolerates an empty history (returns 0).
pub fn get_days_since_last_pair(
    pair_history: &PairingHistory,
    member1: &str,
    member2: Option<&str>,
) -> (r: u32)
    requires
        pair_history@.len() <= u32::MAX,
    ensures
        r == spec_days_since(pair_history@, member1@, opt_view(member2)),
{
    let mut days: u32 = 0;
    let n = pair_history.entries.len();
    let mut i: usize = 0;
    while i < n
        invariant
            i <= n,
            n == pair_history.entries@.len(),
            n <= u32::MAX,
            days == i,
            forall|m: int|
                0 <= m < i ==> !entry_matches(
                    #[trigger] pair_history@[m],
                    member1@,
                    opt_view(member2),
                ),
        decreases n - i,
    {
        let matched = entry_matches_exec(&pair_history.entries[i], member1, member2);
        proof {
            assert(pair_history@[i as int] == pair_history.entries@[i as int]@);
        }
        if matched {
            proof {
                lemma_days_since_at(pair_history@, member1@, opt_view(member2), i as int);
            }
            return days;
        }
        days = days + 1;
        i = i + 1;
    }
    proof {
        lemma_days_since_at(pair_history@, member1@, opt_view(member2), n as int);
    }
    days
}

/// The staleness score of one group: both members for a pair, the
/// single-member lookup otherwise.
pub open spec fn spec_group_score(entries: Seq<EntryView>, g: Seq<Seq<char>>) -> nat {
    if g.len() == 2 {
        spec_days_since(entries, g[0], Option::Some(g[1]))
    } else {
        spec_days_since(entries, g[0], Option::None)
    }
}

/// The score of an assignment: the sum of its groups' staleness scores.
pub open spec fn spec_total_score(entries: Seq<EntryView>, gs: Seq<Seq<Seq<char>>>) -> nat
    decreases gs.len(),
{
    if gs.len() == 0 {
        0
    } else {
        spec_total_score(entries, gs.drop_last()) + spec_group_score(entries, gs.last())
    }
}

fn group_score_exec(pair_history: &PairingHistory, g: &Vec<String>) -> (r: u32)
    requires
        pair_history@.len() <= u32::MAX,
        g@.len() > 0,
    ensures
        r == spec_group_score(pair_history@, names_seq(g@)),
{
    if g.len() == 2 {
        get_days_since_last_pair(pair_history, g[0].as_str(), Some(g[1].as_str()))
    } else {
        get_days_since_last_pair(pair_history, g[0].as_str(), None)
    }
}

fn assignment_score(pair_history: &PairingHistory, groups: &Vec<Vec<String>>) -> (r: u64)
    requires
        pair_history@.len() <= u32::MAX,
        groups@.len() <= u32::MAX,
        forall|k: int| 0 <= k < groups@.len() ==> #[trigger] groups_seq(groups@)[k].len() > 0,
    ensures
        r == spec_total_score(pair_history@, groups_seq(groups@)),
{
    let ghost gs = groups_seq(groups@);
    let mut sum: u64 = 0;
    let mut i: usize = 0;
    proof {
        assert(gs.take(0) =~= Seq::<Seq<Seq<char>>>::empty());
    }
    while i < groups.len()
        invariant
            i <= groups@.len(),
            groups@.len() <= u32::MAX,
            pair_history@.len() <= u32::MAX,
            gs == groups_seq(groups@),
            forall|k: int| 0 <= k < groups@.len() ==> #[trigger] gs[k].len() > 0,
            sum == spec_total_score(pair_history@, gs.take(i as int)),
            sum <= i * 0xffff_ffffu64,
        decreases groups@.len() - i,
    {
        assert(gs[i as int] == names_seq(groups@[i as int]@));
        let g = group_score_exec(pair_history, &groups[i]);
        proof {
            if names_seq(groups[i as int]@).len() == 2 {
                lemma_days_since_le_len(
                    pair_history@,
                    gs[i as int][0],
                    Option::Some(gs[i as int][1]),
                );
            } else {
                lemma_days_since_le_len(pair_history@, gs[i as int][0], Option::None);
            }
            assert(g <= 0xffff_ffffu64);
            assert(gs.take(i + 1).drop_last() =~= gs.take(i as int));
            assert(gs.take(i + 1).last() == gs[i as int]);
        }
        sum = sum + (g as u64);
        i = i + 1;
    }
    proof {
        assert(gs.take(groups@.len() as int) =~= gs);
    }
    sum
}

/// The sequence `s` without the elements at positions `i` and `j` (`i < j`).
pub open spec fn remove2(s: Seq<Seq<char>>, i: int, j: int) -> Seq<Seq<char>> {
    s.remove(j).remove(i)
}

/// One step of the enumeration of unordered index pairs (ascending `i`, then
/// ascending `j`), keeping whichever candidate completion scores strictly
/// higher than the best seen so far.
pub open spec fn spec_search(
    entries: Seq<EntryView>,
    rem: Seq<Seq<char>>,
    acc: Seq<Seq<Seq<char>>>,
    i: int,
    j: int,
    best: Option<(Seq<Seq<Seq<char>>>, nat)>,
) -> Option<(Seq<Seq<Seq<char>>>, nat)>
    decreases rem.len(), 0int, rem.len() - i, rem.len() - j,
{
    if !(0 <= i && i < j) {
        best
    } else if i >= rem.len() - 1 {
        best
    } else if j >= rem.len() {
        spec_search(entries, rem, acc, i + 1, i + 2, best)
    } else {
        let c = spec_optimal(entries, remove2(rem, i, j), acc.push(seq![rem[i], rem[j]]));
        let s = spec_total_score(entries, c);
        let keep = match best {
            Option::Some(b) => s > b.1,
            Option::None => true,
        };
        let next = if keep {
            Option::Some((c, s))
        } else {
            best
        };
        spec_search(entries, rem, acc, i, j + 1, next)
    }
}

/// The partition of `remaining` appended to `pairs` that maximizes the total
/// staleness score, ties resolved in favour of the candidate enumerated
/// first. Empty input returns `pairs` unchanged; a single remaining name
/// joins as a singleton group.
pub open spec fn spec_optimal(
    entries: Seq<EntryView>,
    remaining: Seq<Seq<char>>,
    pairs: Seq<Seq<Seq<char>>>,
) -> Seq<Seq<Seq<char>>>
    decreases remaining.len(), 1int, 0int, 0int,
{
    if remaining.len() == 1 {
        pairs.push(seq![remaining[0]])
    } else if remaining.len() == 0 {
        pairs
    } else {
        match spec_search(entries, remaining, pairs, 0, 1, Option::None) {
            Option::Some(b) => b.0,
            Option::None => Seq::empty(),
        }
    }
}

/// The names placed by an assignment, with multiplicity.
pub open spec fn assignment_names(gs: Seq<Seq<Seq<char>>>) -> Multiset<Seq<char>>
    decreases gs.len(),
{
    if gs.len() == 0 {
        Multiset::empty()
    } else {
        assignment_names(gs.drop_last()).add(gs.last().to_multiset())
    }
}

/// How many groups of an assignment have exactly one member.
pub open spec fn singleton_count(gs: Seq<Seq<Seq<char>>>) -> nat
    decreases gs.len(),
{
    if gs.len() == 0 {
        0
    } else {
        singleton_count(gs.drop_last()) + if gs.last().len() == 1 {
            1nat
        } else {
            0nat
        }
    }
}

proof fn lemma_names_push(gs: Seq<Seq<Seq<char>>>, g: Seq<Seq<char>>)
    ensures
        assignment_names(gs.push(g)) == assignment_names(gs).add(g.to_multiset()),
        singleton_count(gs.push(g)) == singleton_count(gs) + if g.len() == 1 {
            1nat
        } else {
            0nat
        },
{
    assert(gs.push(g).drop_last() =~= gs);
    assert(gs.push(g).last() == g);
}

/// What every completion of `remaining` on top of `pairs` looks like: `pairs`
/// is kept as a prefix, every remaining name is placed exactly once, the new
/// groups have one or two members, group count grows by `ceil(len/2)`, and
/// exactly one new singleton group appears iff the remaining count is odd.
pub open spec fn valid_completion(
    rem: Seq<Seq<char>>,
    acc: Seq<Seq<Seq<char>>>,
    r: Seq<Seq<Seq<char>>>,
) -> bool {
    &&& r.len() == acc.len() + (rem.len() + 1) / 2
    &&& r.take(acc.len() as int) == acc
    &&& assignment_names(r) == assignment_names(acc).add(rem.to_multiset())
    &&& singleton_count(r) == singleton_count(acc) + (rem.len() % 2)
    &&& forall|k: int| acc.len() <= k < r.len() ==> 1 <= #[trigger] r[k].len() <= 2
}

proof fn lemma_candidate_valid(
    rem: Seq<Seq<char>>,
    acc: Seq<Seq<Seq<char>>>,
    i: int,
    j: int,
    c: Seq<Seq<Seq<char>>>,
)
    requires
        0 <= i < j < rem.len(),
        valid_completion(remove2(rem, i, j), acc.push(seq![rem[i], rem[j]]), c),
    ensures
        valid_completion(rem, acc, c),
{
    broadcast use vstd::multiset::group_multiset_axioms;

    let a = rem[i];
    let b = rem[j];
    let pair = seq![a, b];
    let rem2 = remove2(rem, i, j);
    let acc2 = acc.push(pair);
    let s1 = rem.remove(j);
    assert(s1.len() == rem.len() - 1);
    assert(s1[i] == rem[i]);
    assert(rem2.len() == rem.len() - 2);

    // group count
    assert(c.len() == acc.len() + (rem.len() + 1) / 2);

    // prefix
    assert(c.take(acc.len() as int) =~= c.take(acc2.len() as int).take(acc.len() as int));
    assert(acc2.take(acc.len() as int) =~= acc);

    // placed names
    lemma_names_push(acc, pair);
    rem.to_multiset_ensures();
    s1.to_multiset_ensures();
    pair.to_multiset_ensures();
    assert(pair =~= Seq::<Seq<char>>::empty().push(a).push(b));
    Seq::<Seq<char>>::empty().to_multiset_ensures();
    Seq::<Seq<char>>::empty().push(a).to_multiset_ensures();
    assert(Seq::<Seq<char>>::empty().to_multiset() =~= Multiset::<Seq<char>>::empty()) by {
        assert(Seq::<Seq<char>>::empty().to_multiset().len() == 0);
        assert forall|v: Seq<char>| Seq::<Seq<char>>::empty().to_multiset().count(v)
            == Multiset::<Seq<char>>::empty().count(v) by {
            assert(!Seq::<Seq<char>>::empty().contains(v));
        }
    }
    assert(Seq::<Seq<char>>::empty().push(a).to_multiset() =~= Multiset::<Seq<char>>::empty()
        .insert(a));
    assert(pair.to_multiset() =~= Multiset::<Seq<char>>::empty().insert(a).insert(b));
    assert(s1.to_multiset() == rem.to_multiset().remove(b));
    assert(rem2.to_multiset() == s1.to_multiset().remove(a));
    assert(rem.contains(b));
    assert(rem.to_multiset().count(b) > 0);
    assert(s1.contains(a));
    assert(s1.to_multiset().count(a) > 0);
    assert(assignment_names(c) =~= assignment_names(acc).add(rem.to_multiset())) by {
        assert forall|v: Seq<char>|
            assignment_names(acc).add(pair.to_multiset()).add(rem2.to_multiset()).count(v)
                == assignment_names(acc).add(rem.to_multiset()).count(v) by {
            assert(Multiset::<Seq<char>>::empty().count(v) == 0);
            if v == a && v == b {
                assert(rem.to_multiset().count(v) >= 2) by {
                    assert(s1.to_multiset().count(v) >= 1);
                }
            }
        }
    }

    // singleton parity
    assert((rem.len() - 2) % 2 == rem.len() % 2);
    assert(singleton_count(c) == singleton_count(acc) + (rem.len() % 2));

    // new group sizes
    assert(c[acc.len() as int] == pair) by {
        assert(c.take(acc2.len() as int)[acc.len() as int] == c[acc.len() as int]);
        assert(acc2[acc.len() as int] == pair);
    }
    assert forall|k: int| acc.len() <= k < c.len() implies 1 <= #[trigger] c[k].len() <= 2 by {
        if k == acc.len() {
            assert(c[k].len() == 2);
        } else {
            assert(acc2.len() <= k < c.len());
        }
    }
}

proof fn lemma_search_shape(
    entries: Seq<EntryView>,
    rem: Seq<Seq<char>>,
    acc: Seq<Seq<Seq<char>>>,
    i: int,
    j: int,
    best: Option<(Seq<Seq<Seq<char>>>, nat)>,
)
    requires
        rem.len() >= 2,
        best is Some ==> valid_completion(rem, acc, (best->0).0),
    ensures
        ({
            let r = spec_search(entries, rem, acc, i, j, best);
            &&& (r is Some ==> valid_completion(rem, acc, (r->0).0))
            &&& (best is Some ==> r is Some)
            &&& (0 <= i && i < j && i < rem.len() - 1 && j < rem.len() ==> r is Some)
        }),
    decreases rem.len(), 0int, rem.len() - i, rem.len() - j,
{
    if !(0 <= i && i < j) {
    } else if i >= rem.len() - 1 {
    } else if j >= rem.len() {
        lemma_search_shape(entries, rem, acc, i + 1, i + 2, best);
    } else {
        let c = spec_optimal(entries, remove2(rem, i, j), acc.push(seq![rem[i], rem[j]]));
        lemma_optimal_shape(entries, remove2(rem, i, j), acc.push(seq![rem[i], rem[j]]));
        lemma_candidate_valid(rem, acc, i, j, c);
        let sc = spec_total_score(entries, c);
        let keep = match best {
            Option::Some(bb) => sc > bb.1,
            Option::None => true,
        };
        let next = if keep {
            Option::Some((c, sc))
        } else {
            best
        };
        lemma_search_shape(entries, rem, acc, i, j + 1, next);
    }
}

/// The search always returns a completion of the required shape: `pairs`
/// kept as a prefix, every remaining name placed exactly once in new groups
/// of size one or two, with exactly one new singleton iff the remaining
/// count is odd.
pub proof fn lemma_optimal_shape(
    entries: Seq<EntryView>,
    rem: Seq<Seq<char>>,
    acc: Seq<Seq<Seq<char>>>,
)
    ensures
        valid_completion(rem, acc, spec_optimal(entries, rem, acc)),
    decreases rem.len(), 1int, 0int, 0int,
{
    broadcast use vstd::multiset::group_multiset_axioms;

    if rem.len() == 1 {
        let r = acc.push(seq![rem[0]]);
        lemma_names_push(acc, seq![rem[0]]);
        rem.to_multiset_ensures();
        seq![rem[0]].to_multiset_ensures();
        assert(rem =~= Seq::<Seq<char>>::empty().push(rem[0]));
        assert(seq![rem[0]] =~= Seq::<Seq<char>>::empty().push(rem[0]));
        assert(r.take(acc.len() as int) =~= acc);
    } else if rem.len() == 0 {
        rem.to_multiset_ensures();
        assert(rem.to_multiset() =~= Multiset::<Seq<char>>::empty()) by {
            assert forall|v: Seq<char>| rem.to_multiset().count(v) == Multiset::<
                Seq<char>,
            >::empty().count(v) by {
                assert(!rem.contains(v));
            }
        }
        assert(assignment_names(acc).add(rem.to_multiset()) =~= assignment_names(acc));
        assert(spec_optimal(entries, rem, acc).take(acc.len() as int) =~= acc);
    } else {
        lemma_search_shape(entries, rem, acc, 0, 1, Option::None);
    }
}

fn clone_names(v: &Vec<String>) -> (r: Vec<String>)
    ensures
        r@ == v@,
{
    let mut r: Vec<String> = Vec::new();
    proof {
        assert(r@ =~= v@.take(0));
    }
    let mut i: usize = 0;
    while i < v.len()
        invariant
            i <= v@.len(),
            r@ == v@.take(i as int),
        decreases v@.len() - i,
    {
        r.push(v[i].clone());
        proof {
            assert(v@.take(i as int).push(v@[i as int]) =~= v@.take(i + 1));
        }
        i = i + 1;
    }
    proof {
        assert(v@.take(v@.len() as int) =~= v@);
    }
    r
}

fn clone_groups(v: &Vec<Vec<String>>) -> (r: Vec<Vec<String>>)
    ensures
        r@.len() == v@.len(),
        groups_seq(r@) == groups_seq(v@),
{
    let mut r: Vec<Vec<String>> = Vec::new();
    let mut i: usize = 0;
    while i < v.len()
        invariant
            i <= v@.len(),
            r@.len() == i,
            forall|m: int| 0 <= m < i ==> #[trigger] r@[m]@ == v@[m]@,
        decreases v@.len() - i,
    {
        r.push(clone_names(&v[i]));
        i = i + 1;
    }
    proof {
        assert(groups_seq(r@) =~= groups_seq(v@));
    }
    r
}

proof fn lemma_names_remove(s: Seq<String>, k: int)
    requires
        0 <= k < s.len(),
    ensures
        names_seq(s.remove(k)) == names_seq(s).remove(k),
{
    s.remove_ensures(k);
    names_seq(s).remove_ensures(k);
    assert(names_seq(s.remove(k)) =~= names_seq(s).remove(k));
}

/// Exhaustively partitions `remaining` on top of the accumulated groups
/// `pairs`, maximizing the total staleness score over the history; of
/// equally scored completions the one enumerated first (ascending index
/// pairs) is kept. An empty `remaining` yields `pairs` unchanged; a single
/// remaining name joins as a singleton group.
pub fn get_optimal_pairing(
    pair_history: &PairingHistory,
    remaining: &Vec<String>,
    pairs: &Vec<Vec<String>>,
) -> (r: Vec<Vec<String>>)
    requires
        pair_history@.len() <= u32::MAX,
        pairs@.len() + remaining@.len() <= u32::MAX,
        forall|k: int| 0 <= k < pairs@.len() ==> #[trigger] groups_seq(pairs@)[k].len() > 0,
    ensures
        groups_seq(r@) == spec_optimal(pair_history@, names_seq(remaining@), groups_seq(pairs@)),
    decreases remaining@.len(),
{
    let ghost eh = pair_history@;
    let ghost remv = names_seq(remaining@);
    let ghost accv = groups_seq(pairs@);
    if remaining.len() == 1 {
        let mut solo_pair = clone_groups(pairs);
        let mut g: Vec<String> = Vec::new();
        g.push(remaining[0].clone());
        proof {
            assert(names_seq(g@) =~= seq![remv[0]]);
        }
        solo_pair.push(g);
        proof {
            assert(groups_seq(solo_pair@) =~= accv.push(seq![remv[0]]));
        }
        return solo_pair;
    } else if remaining.len() == 0 {
        return clone_groups(pairs);
    }
    let n = remaining.len();
    let mut best_pairs: Option<Vec<Vec<String>>> = None;
    let mut best_score: u64 = 0;
    let ghost mut gbest: Option<(Seq<Seq<Seq<char>>>, nat)> = Option::None;
    let mut i: usize = 0;
    while i < n
        invariant
            n == remaining@.len(),
            2 <= n <= u32::MAX,
            i <= n,
            eh == pair_history@,
            remv == names_seq(remaining@),
            accv == groups_seq(pairs@),
            eh.len() <= u32::MAX,
            accv.len() + n <= u32::MAX,
            forall|k: int| 0 <= k < accv.len() ==> #[trigger] accv[k].len() > 0,
            match gbest {
                Option::Some(t) => best_pairs is Some && groups_seq((best_pairs->0)@) == t.0
                    && best_score == t.1,
                Option::None => best_pairs is None,
            },
            spec_search(eh, remv, accv, i as int, i + 1, gbest) == spec_search(
                eh,
                remv,
                accv,
                0,
                1,
                Option::None,
            ),
        decreases n - i,
    {
        let mut j: usize = i + 1;
        while j < n
            invariant
                n == remaining@.len(),
                2 <= n <= u32::MAX,
                i < n,
                i + 1 <= j <= n,
                eh == pair_history@,
                remv == names_seq(remaining@),
                accv == groups_seq(pairs@),
                eh.len() <= u32::MAX,
                accv.len() + n <= u32::MAX,
                forall|k: int| 0 <= k < accv.len() ==> #[trigger] accv[k].len() > 0,
                match gbest {
                    Option::Some(t) => best_pairs is Some && groups_seq((best_pairs->0)@) == t.0
                        && best_score == t.1,
                    Option::None => best_pairs is None,
                },
                spec_search(eh, remv, accv, i as int, j as int, gbest) == spec_search(
                    eh,
                    remv,
                    accv,
                    0,
                    1,
                    Option::None,
                ),
            decreases n - j,
        {
            let member1 = remaining[i].clone();
            let member2 = remaining[j].clone();
            let mut new_remaining = clone_names(remaining);
            new_remaining.remove(j);
            new_remaining.remove(i);
            proof {
                lemma_names_remove(remaining@, j as int);
                lemma_names_remove(remaining@.remove(j as int), i as int);
                assert(names_seq(new_remaining@) == remove2(remv, i as int, j as int));
            }
            let mut new_pairs = clone_groups(pairs);
            let mut pairvec: Vec<String> = Vec::new();
            pairvec.push(member1);
            pairvec.push(member2);
            proof {
                assert(names_seq(pairvec@) =~= seq![remv[i as int], remv[j as int]]);
            }
            let ghost cloned_acc = groups_seq(new_pairs@);
            new_pairs.push(pairvec);
            proof {
                assert(groups_seq(new_pairs@) =~= accv.push(
                    seq![remv[i as int], remv[j as int]],
                ));
                assert(remaining@.remove(j as int).len() == n - 1);
                assert(new_remaining@.len() == n - 2);
                assert forall|k: int|
                    0 <= k < new_pairs@.len() implies #[trigger] groups_seq(new_pairs@)[k].len()
                    > 0 by {
                    if k < accv.len() {
                        assert(groups_seq(new_pairs@)[k] == accv[k]);
                    } else {
                        assert(groups_seq(new_pairs@)[k] == names_seq(pairvec@));
                    }
                }
            }
            let current_pairs = get_optimal_pairing(pair_history, &new_remaining, &new_pairs);
            let ghost cand = groups_seq(current_pairs@);
            proof {
                lemma_optimal_shape(eh, names_seq(new_remaining@), groups_seq(new_pairs@));
                assert(cand.len() == accv.len() + 1 + (n - 2 + 1) / 2);
                assert forall|k: int| 0 <= k < cand.len() implies #[trigger] cand[k].len()
                    > 0 by {
                    if k < accv.len() + 1 {
                        assert(cand.take((accv.len() + 1) as int)[k] == cand[k]);
                        assert(groups_seq(new_pairs@)[k].len() > 0);
                    }
                }
            }
            let score = assignment_score(pair_history, &current_pairs);
            let ghost gprev = gbest;
            if best_pairs.is_none() || score > best_score {
                best_pairs = Some(current_pairs);
                best_score = score;
                proof {
                    gbest = Option::Some((cand, score as nat));
                }
            }
            proof {
                let cspec = spec_optimal(
                    eh,
                    remove2(remv, i as int, j as int),
                    accv.push(seq![remv[i as int], remv[j as int]]),
                );
                assert(cspec == cand);
                assert(spec_search(eh, remv, accv, i as int, j as int, gprev) == spec_search(
                    eh,
                    remv,
                    accv,
                    i as int,
                    j + 1,
                    gbest,
                ));
            }
            j = j + 1;
        }
        proof {
            if i + 1 < n {
                assert(spec_search(eh, remv, accv, i as int, n as int, gbest) == spec_search(
                    eh,
                    remv,
                    accv,
                    i + 1,
                    i + 2,
                    gbest,
                ));
            } else {
                assert(spec_search(eh, remv, accv, i as int, n as int, gbest) == gbest);
                assert(spec_search(eh, remv, accv, i + 1, i + 2, gbest) == gbest);
            }
        }
        i = i + 1;
    }
    proof {
        assert(spec_search(eh, remv, accv, n as int, n + 1, gbest) == gbest);
    }
    match best_pairs {
        Some(bp) => bp,
        None => {
            let r: Vec<Vec<String>> = Vec::new();
            proof {
                assert(groups_seq(r@) =~= Seq::<Seq<Seq<char>>>::empty());
            }
            r
        },
    }
}

/// The names of the roster, in roster order.
pub open spec fn member_names(members: Seq<Member>) -> Seq<Seq<char>> {
    members.map_values(|m: Member| m.name@)
}

/// Runs the engine on the whole roster: the returned assignment is the
/// optimal partition of the members' names over the given history.
pub fn generate_pairs(members: &Vec<Member>, history: &PairingHistory) -> (r: Vec<Vec<String>>)
    requires
        history@.len() <= u32::MAX,
        members@.len() <= u32::MAX,
    ensures
        groups_seq(r@) == spec_optimal(history@, member_names(members@), Seq::empty()),
{
    let mut remaining: Vec<String> = Vec::new();
    let mut i: usize = 0;
    while i < members.len()
        invariant
            i <= members@.len(),
            remaining@.len() == i,
            names_seq(remaining@) == member_names(members@).take(i as int),
        decreases members@.len() - i,
    {
        let ghost rsnap = remaining@;
        let nm = members[i].name.clone();
        proof {
            assert(nm@ == members@[i as int].name@);
            assert(rsnap.len() == i);
        }
        let ghost nmv = nm@;
        remaining.push(nm);
        proof {
            assert(remaining@.len() == i + 1);
            assert(remaining@[i as int]@ == nmv);
            assert forall|m: int| 0 <= m < i + 1 implies names_seq(remaining@)[m]
                == member_names(members@).take(i + 1)[m] by {
                if m < i {
                    assert(names_seq(rsnap)[m] == member_names(members@).take(i as int)[m]);
                }
            }
            assert(names_seq(remaining@) =~= member_names(members@).take(i + 1));
        }
        i = i + 1;
    }
    proof {
        assert(names_seq(remaining@) =~= member_names(members@));
    }
    let pairs: Vec<Vec<String>> = Vec::new();
    proof {
        assert(groups_seq(pairs@) =~= Seq::<Seq<Seq<char>>>::empty());
    }
    get_optimal_pairing(history, &remaining, &pairs)
}

/// Partition completeness and singleton parity, for a run over a whole
/// roster: every roster name is placed exactly once (as a multiset), the
/// group count is `ceil(n/2)`, every group has one or two members, and there
/// is exactly one singleton group iff the roster size is odd.
pub proof fn lemma_partition_complete(entries: Seq<EntryView>, roster: Seq<Seq<char>>)
    ensures
        ({
            let r = spec_optimal(entries, roster, Seq::empty());
            &&& assignment_names(r) == roster.to_multiset()
            &&& r.len() == (roster.len() + 1) / 2
            &&& singleton_count(r) == roster.len() % 2
            &&& forall|k: int| 0 <= k < r.len() ==> 1 <= #[trigger] r[k].len() <= 2
        }),
{
    broadcast use vstd::multiset::group_multiset_axioms;

    lemma_optimal_shape(entries, roster, Seq::empty());
    let r = spec_optimal(entries, roster, Seq::empty());
    assert(assignment_names(Seq::<Seq<Seq<char>>>::empty()) == Multiset::<Seq<char>>::empty());
    assert(Multiset::<Seq<char>>::empty().add(roster.to_multiset()) =~= roster.to_multiset());
}

/// Determinism: the assignment is a function of the history and the ordered
/// roster alone, so repeated invocations on identical inputs agree.
pub proof fn lemma_generate_deterministic(
    entries: Seq<EntryView>,
    roster: Seq<Seq<char>>,
    r1: Seq<Seq<Seq<char>>>,
    r2: Seq<Seq<Seq<char>>>,
)
    requires
        r1 == spec_optimal(entries, roster, Seq::empty()),
        r2 == spec_optimal(entries, roster, Seq::empty()),
    ensures
        r1 == r2,
{
}

/// An assignment the recursive search could produce: `acc` extended by some
/// partition of `rem` into unordered pairs, the names of one leftover pair
/// drawn at each step, plus a final singleton when `rem` is odd.
pub open spec fn is_completion(
    rem: Seq<Seq<char>>,
    acc: Seq<Seq<Seq<char>>>,
    gs: Seq<Seq<Seq<char>>>,
) -> bool
    decreases rem.len(),
{
    if rem.len() == 0 {
        gs == acc
    } else if rem.len() == 1 {
        gs == acc.push(seq![rem[0]])
    } else {
        exists|i: int, j: int|
            0 <= i < j < rem.len() && is_completion(
                #[trigger] remove2(rem, i, j),
                acc.push(seq![rem[i], rem[j]]),
                gs,
            )
    }
}

/// Whether the enumeration of index pairs, started at `(i, j)`, still visits
/// `(i2, j2)`.
pub open spec fn enum_reaches(n: int, i: int, j: int, i2: int, j2: int) -> bool {
    0 <= i2 < j2 < n && (i2 > i || (i2 == i && j2 >= j))
}

proof fn lemma_search_max(
    entries: Seq<EntryView>,
    rem: Seq<Seq<char>>,
    acc: Seq<Seq<Seq<char>>>,
    i: int,
    j: int,
    best: Option<(Seq<Seq<Seq<char>>>, nat)>,
)
    requires
        rem.len() >= 2,
        0 <= i < j,
        best is Some ==> (best->0).1 == spec_total_score(entries, (best->0).0),
    ensures
        ({
            let r = spec_search(entries, rem, acc, i, j, best);
            &&& (r is Some ==> (r->0).1 == spec_total_score(entries, (r->0).0))
            &&& (best is Some ==> r is Some && (r->0).1 >= (best->0).1)
            &&& forall|i2: int, j2: int|
                enum_reaches(rem.len() as int, i, j, i2, j2) ==> r is Some && (r->0).1
                    >= spec_total_score(
                    entries,
                    spec_optimal(
                        entries,
                        #[trigger] remove2(rem, i2, j2),
                        acc.push(seq![rem[i2], rem[j2]]),
                    ),
                )
        }),
    decreases rem.len(), 0int, rem.len() - i, rem.len() - j,
{
    let n = rem.len() as int;
    if i >= n - 1 {
        // Nothing left to enumerate.
        assert forall|i2: int, j2: int| !enum_reaches(n, i, j, i2, j2) by {}
    } else if j >= n {
        lemma_search_max(entries, rem, acc, i + 1, i + 2, best);
        assert forall|i2: int, j2: int|
            enum_reaches(n, i, j, i2, j2) implies enum_reaches(n, i + 1, i + 2, i2, j2) by {}
    } else {
        let c = spec_optimal(entries, remove2(rem, i, j), acc.push(seq![rem[i], rem[j]]));
        let sc = spec_total_score(entries, c);
        let keep = match best {
            Option::Some(bb) => sc > bb.1,
            Option::None => true,
        };
        let next = if keep {
            Option::Some((c, sc))
        } else {
            best
        };
        lemma_search_max(entries, rem, acc, i, j + 1, next);
        let r = spec_search(entries, rem, acc, i, j + 1, next);
        assert(spec_search(entries, rem, acc, i, j, best) == r);
        assert((next->0).1 >= sc);
        assert(best is Some ==> (next->0).1 >= (best->0).1);
        assert forall|i2: int, j2: int|
            enum_reaches(n, i, j, i2, j2) implies r is Some && (r->0).1 >= spec_total_score(
            entries,
            spec_optimal(
                entries,
                #[trigger] remove2(rem, i2, j2),
                acc.push(seq![rem[i2], rem[j2]]),
            ),
        ) by {
            if i2 == i && j2 == j {
                assert((r->0).1 >= (next->0).1);
            } else {
                assert(enum_reaches(n, i, j + 1, i2, j2));
            }
        }
    }
}

/// Maximization: the assignment the engine selects scores at least as high
/// as every assignment the search space contains — every way of extending
/// `acc` by a partition of `rem` into pairs (plus one singleton when `rem`
/// is odd).
pub proof fn lemma_optimal_maximizes(
    entries: Seq<EntryView>,
    rem: Seq<Seq<char>>,
    acc: Seq<Seq<Seq<char>>>,
)
    ensures
        forall|gs: Seq<Seq<Seq<char>>>|
            #[trigger] is_completion(rem, acc, gs) ==> spec_total_score(
                entries,
                spec_optimal(entries, rem, acc),
            ) >= spec_total_score(entries, gs),
    decreases rem.len(),
{
    let n = rem.len() as int;
    assert forall|gs: Seq<Seq<Seq<char>>>|
        #[trigger] is_completion(rem, acc, gs) implies spec_total_score(
        entries,
        spec_optimal(entries, rem, acc),
    ) >= spec_total_score(entries, gs) by {
        if rem.len() >= 2 {
            let (i, j): (int, int) = choose|i: int, j: int|
                0 <= i < j < rem.len() && is_completion(
                    #[trigger] remove2(rem, i, j),
                    acc.push(seq![rem[i], rem[j]]),
                    gs,
                );
            lemma_optimal_maximizes(entries, remove2(rem, i, j), acc.push(seq![rem[i], rem[j]]));
            let c = spec_optimal(entries, remove2(rem, i, j), acc.push(seq![rem[i], rem[j]]));
            assert(spec_total_score(entries, c) >= spec_total_score(entries, gs));
            lemma_search_max(entries, rem, acc, 0, 1, Option::None);
            let r = spec_search(entries, rem, acc, 0, 1, Option::None);
            assert(enum_reaches(n, 0, 1, i, j));
            assert(r is Some && (r->0).1 >= spec_total_score(entries, c));
        }
    }
}

proof fn lemma_search_in_space(
    entries: Seq<EntryView>,
    rem: Seq<Seq<char>>,
    acc: Seq<Seq<Seq<char>>>,
    i: int,
    j: int,
    best: Option<(Seq<Seq<Seq<char>>>, nat)>,
)
    requires
        rem.len() >= 2,
        0 <= i < j,
        best is Some ==> is_completion(rem, acc, (best->0).0),
    ensures
        ({
            let r = spec_search(entries, rem, acc, i, j, best);
            r is Some ==> is_completion(rem, acc, (r->0).0)
        }),
    decreases rem.len(), 0int, rem.len() - i, rem.len() - j,
{
    let n = rem.len() as int;
    if i >= n - 1 {
    } else if j >= n {
        lemma_search_in_space(entries, rem, acc, i + 1, i + 2, best);
    } else {
        let c = spec_optimal(entries, remove2(rem, i, j), acc.push(seq![rem[i], rem[j]]));
        lemma_optimal_in_space(entries, remove2(rem, i, j), acc.push(seq![rem[i], rem[j]]));
        assert(is_completion(rem, acc, c));
        let sc = spec_total_score(entries, c);
        let keep = match best {
            Option::Some(bb) => sc > bb.1,
            Option::None => true,
        };
        let next = if keep {
            Option::Some((c, sc))
        } else {
            best
        };
        lemma_search_in_space(entries, rem, acc, i, j + 1, next);
    }
}

/// The engine's selection is itself in the search space: together with the
/// maximization law, the result is an admissible assignment of the highest
/// total staleness score.
pub proof fn lemma_optimal_in_space(
    entries: Seq<EntryView>,
    rem: Seq<Seq<char>>,
    acc: Seq<Seq<Seq<char>>>,
)
    ensures
        is_completion(rem, acc, spec_optimal(entries, rem, acc)),
    decreases rem.len(), 1int, 0int, 0int,
{
    if rem.len() >= 2 {
        lemma_search_shape(entries, rem, acc, 0, 1, Option::None);
        lemma_search_in_space(entries, rem, acc, 0, 1, Option::None);
    }
}

/// The text of one group: its members joined with `+` and no spaces.
pub open spec fn spec_group_text(g: Seq<Seq<char>>) -> Seq<char>
    decreases g.len(),
{
    if g.len() == 0 {
        Seq::empty()
    } else if g.len() == 1 {
        g[0]
    } else {
        spec_group_text(g.drop_last()) + seq!['+'] + g.last()
    }
}

/// The single-line rendering of an assignment: group texts separated by one
/// space, with no leading or trailing separator.
pub open spec fn spec_assignment_text(gs: Seq<Seq<Seq<char>>>) -> Seq<char>
    decreases gs.len(),
{
    if gs.len() == 0 {
        Seq::empty()
    } else if gs.len() == 1 {
        spec_group_text(gs[0])
    } else {
        spec_assignment_text(gs.drop_last()) + seq![' '] + spec_group_text(gs.last())
    }
}

fn group_text(g: &Vec<String>) -> (r: String)
    requires
        g@.len() > 0,
    ensures
        r@ == spec_group_text(names_seq(g@)),
{
    let ghost gv = names_seq(g@);
    let mut out = String::new();
    let mut k: usize = 0;
    proof {
        assert(gv.take(0) =~= Seq::<Seq<char>>::empty());
    }
    while k < g.len()
        invariant
            k <= g@.len(),
            gv == names_seq(g@),
            out@ == spec_group_text(gv.take(k as int)),
        decreases g@.len() - k,
    {
        if k > 0 {
            crate::text::push_char(&mut out, '+');
        }
        out.append(g[k].as_str());
        proof {
            assert(gv.take(k + 1).drop_last() =~= gv.take(k as int));
            assert(gv.take(k + 1).last() == gv[k as int]);
            assert(gv[k as int] == g@[k as int]@);
            if k == 0 {
                assert(out@ =~= spec_group_text(gv.take(1)));
            } else {
                assert(out@ =~= spec_group_text(gv.take(k + 1)));
            }
        }
        k = k + 1;
    }
    proof {
        assert(gv.take(g@.len() as int) =~= gv);
    }
    out
}

/// Renders an assignment on one line: groups separated by a single space,
/// members within a group joined with `+`.
pub fn pairs_to_string(pairs: Vec<Vec<String>>) -> (r: String)
    requires
        forall|k: int| 0 <= k < pairs@.len() ==> #[trigger] groups_seq(pairs@)[k].len() > 0,
    ensures
        r@ == spec_assignment_text(groups_seq(pairs@)),
{
    let ghost gs = groups_seq(pairs@);
    let mut out = String::new();
    let mut i: usize = 0;
    proof {
        assert(gs.take(0) =~= Seq::<Seq<Seq<char>>>::empty());
    }
    while i < pairs.len()
        invariant
            i <= pairs@.len(),
            gs == groups_seq(pairs@),
            forall|k: int| 0 <= k < pairs@.len() ==> #[trigger] gs[k].len() > 0,
            out@ == spec_assignment_text(gs.take(i as int)),
        decreases pairs@.len() - i,
    {
        if i > 0 {
            crate::text::push_char(&mut out, ' ');
        }
        proof {
            assert(gs[i as int] == names_seq(pairs@[i as int]@));
        }
        let gt = group_text(&pairs[i]);
        out.append(gt.as_str());
        proof {
            assert(gs.take(i + 1).drop_last() =~= gs.take(i as int));
            assert(gs.take(i + 1).last() == gs[i as int]);
            if i == 0 {
                assert(out@ =~= spec_assignment_text(gs.take(1)));
            } else {
                assert(out@ =~= spec_assignment_text(gs.take(i + 1)));
            }
        }
        i = i + 1;
    }
    proof {
        assert(gs.take(pairs@.len() as int) =~= gs);
    }
    out
}

} // verus!
