//! The data model: participants, dated history records, and the state that
//! the engine reads. A history is kept ordered by date, most recent first,
//! with one record per date; inserting an existing date overwrites that
//! date's groups.

use vstd::prelude::*;
use crate::text::{lex_lt, lemma_lex_trichotomy, str_eq, str_lt};
use vstd::pervasive::VecAdditionalExecFns;

verus! {

/// The mathematical content of a group: the sequence of names in it.
pub open spec fn names_seq(v: Seq<String>) -> Seq<Seq<char>> {
    v.map_values(|s: String| s@)
}

/// The mathematical content of a list of groups.
pub open spec fn groups_seq(v: Seq<Vec<String>>) -> Seq<Seq<Seq<char>>> {
    v.map_values(|g: Vec<String>| names_seq(g@))
}

/// One dated history record, in mathematical form.
pub ghost struct EntryView {
    pub date: Seq<char>,
    pub groups: Seq<Seq<Seq<char>>>,
}

/// One dated history record: the groups recorded on that date.
pub struct HistoryEntry {
    pub date: String,
    pub groups: Vec<Vec<String>>,
}

impl View for HistoryEntry {
    type V = EntryView;

    open spec fn view(&self) -> EntryView {
        EntryView { date: self.date@, groups: groups_seq(self.groups@) }
    }
}

/// A mapping from date key to the groups recorded on that date, kept as a
/// list of records ordered by date with the most recent date first.
pub struct PairingHistory {
    pub entries: Vec<HistoryEntry>,
}

impl View for PairingHistory {
    type V = Seq<EntryView>;

    open spec fn view(&self) -> Seq<EntryView> {
        self.entries@.map_values(|e: HistoryEntry| e@)
    }
}

/// The position at which a record dated `d` belongs in `entries`: the number
/// of leading records whose date is strictly more recent than `d`.
pub open spec fn insert_pos(entries: Seq<EntryView>, d: Seq<char>) -> int
    decreases entries.len(),
{
    if entries.len() == 0 {
        0
    } else if lex_lt(d, entries[0].date) {
        1 + insert_pos(entries.drop_first(), d)
    } else {
        0
    }
}

/// `insert_pos` lies within bounds, every record before it is dated after
/// `d`, and the record at it (if any) is not.
pub proof fn lemma_insert_pos(entries: Seq<EntryView>, d: Seq<char>)
    ensures
        0 <= insert_pos(entries, d) <= entries.len(),
        forall|m: int| 0 <= m < insert_pos(entries, d) ==> lex_lt(d, #[trigger] entries[m].date),
        insert_pos(entries, d) < entries.len() ==> !lex_lt(
            d,
            entries[insert_pos(entries, d)].date,
        ),
    decreases entries.len(),
{
    if entries.len() > 0 && lex_lt(d, entries[0].date) {
        lemma_insert_pos(entries.drop_first(), d);
        assert forall|m: int| 0 <= m < insert_pos(entries, d) implies lex_lt(
            d,
            #[trigger] entries[m].date,
        ) by {
            if m > 0 {
                assert(entries.drop_first()[m - 1] == entries[m]);
            }
        }
        if insert_pos(entries, d) < entries.len() {
            assert(entries.drop_first()[insert_pos(entries.drop_first(), d)] == entries[insert_pos(
                entries,
                d,
            )]);
        }
    }
}

/// A scan that stops at the first record not dated after `d` stops exactly at
/// `insert_pos`.
pub proof fn lemma_insert_pos_unique(entries: Seq<EntryView>, d: Seq<char>, k: int)
    requires
        0 <= k <= entries.len(),
        forall|m: int| 0 <= m < k ==> lex_lt(d, #[trigger] entries[m].date),
        k == entries.len() || !lex_lt(d, entries[k].date),
    ensures
        insert_pos(entries, d) == k,
    decreases entries.len(),
{
    if k == 0 {
    } else {
        assert(lex_lt(d, entries[0].date));
        assert forall|m: int| 0 <= m < k - 1 implies lex_lt(
            d,
            #[trigger] entries.drop_first()[m].date,
        ) by {
            assert(entries.drop_first()[m] == entries[m + 1]);
        }
        if k - 1 < entries.drop_first().len() {
            assert(entries.drop_first()[k - 1] == entries[k]);
        }
        lemma_insert_pos_unique(entries.drop_first(), d, k - 1);
    }
}

proof fn lemma_view_update(s: Seq<HistoryEntry>, k: int, e: HistoryEntry)
    requires
        0 <= k < s.len(),
    ensures
        s.update(k, e).map_values(|x: HistoryEntry| x@) == s.map_values(
            |x: HistoryEntry| x@,
        ).update(k, e@),
{
    assert(s.update(k, e).map_values(|x: HistoryEntry| x@) =~= s.map_values(
        |x: HistoryEntry| x@,
    ).update(k, e@));
}

proof fn lemma_view_insert(s: Seq<HistoryEntry>, k: int, e: HistoryEntry)
    requires
        0 <= k <= s.len(),
    ensures
        s.insert(k, e).map_values(|x: HistoryEntry| x@) == s.map_values(
            |x: HistoryEntry| x@,
        ).insert(k, e@),
{
    s.insert_ensures(k, e);
    s.map_values(|x: HistoryEntry| x@).insert_ensures(k, e@);
    assert(s.insert(k, e).map_values(|x: HistoryEntry| x@) =~= s.map_values(
        |x: HistoryEntry| x@,
    ).insert(k, e@));
}

impl PairingHistory {
    /// Well-formedness: dates strictly descending, so each date occurs once
    /// and the most recent record comes first.
    pub open spec fn wf(&self) -> bool {
        forall|k: int|
            0 <= k < self@.len() - 1 ==> lex_lt(self@[k + 1].date, #[trigger] self@[k].date)
    }

    /// An empty history.
    pub fn new() -> (h: PairingHistory)
        ensures
            h.wf(),
            h@ =~= Seq::<EntryView>::empty(),
    {
        PairingHistory { entries: Vec::new() }
    }

    /// Records `groups` under `date`, overwriting any record already dated
    /// `date`, and otherwise inserting at the date's ordered position.
    pub fn insert_entry(&mut self, date: String, groups: Vec<Vec<String>>)
        requires
            old(self).wf(),
        ensures
            final(self).wf(),
            ({
                let k = insert_pos(old(self)@, date@);
                let e = (EntryView { date: date@, groups: groups_seq(groups@) });
                if k < old(self)@.len() && old(self)@[k].date == date@ {
                    final(self)@ == old(self)@.update(k, e)
                } else {
                    final(self)@ == old(self)@.insert(k, e)
                }
            }),
    {
        let ghost entries0 = self@;
        let n = self.entries.len();
        let mut k: usize = 0;
        loop
            invariant
                self == old(self),
                k <= n,
                n == self.entries@.len(),
                forall|m: int| 0 <= m < k ==> lex_lt(date@, #[trigger] self@[m].date),
            ensures
                self == old(self),
                k <= n,
                forall|m: int| 0 <= m < k ==> lex_lt(date@, #[trigger] self@[m].date),
                k == n || !lex_lt(date@, self@[k as int].date),
            decreases n - k,
        {
            if k == n {
                break ;
            }
            let after = str_lt(date.as_str(), self.entries[k].date.as_str());
            proof {
                assert(self@[k as int] == self.entries@[k as int]@);
            }
            if !after {
                break ;
            }
            k = k + 1;
        }
        proof {
            lemma_insert_pos_unique(entries0, date@, k as int);
        }
        let replaces: bool = if k < n {
            let same = str_eq(date.as_str(), self.entries[k].date.as_str());
            proof {
                assert(self@[k as int] == self.entries@[k as int]@);
            }
            same
        } else {
            false
        };
        proof {
            assert(replaces == (k < n && entries0[k as int].date == date@));
        }
        let ghost raw0 = self.entries@;
        let e = HistoryEntry { date, groups };
        if replaces {
            self.entries.set(k, e);
            proof {
                lemma_view_update(raw0, k as int, e);
                let after = self@;
                assert forall|m: int| 0 <= m < after.len() implies after[m].date
                    == entries0[m].date by {
                    assert(after[m] == entries0.update(k as int, e@)[m]);
                }
                assert forall|m: int|
                    0 <= m < after.len() - 1 implies lex_lt(
                    after[m + 1].date,
                    #[trigger] after[m].date,
                ) by {
                    assert(lex_lt(entries0[m + 1].date, entries0[m].date));
                }
            }
        } else {
            self.entries.insert(k, e);
            proof {
                lemma_view_insert(raw0, k as int, e);
                entries0.insert_ensures(k as int, e@);
                lemma_insert_pos(entries0, date@);
                let after = self@;
                assert forall|m: int|
                    0 <= m < after.len() - 1 implies lex_lt(
                    after[m + 1].date,
                    #[trigger] after[m].date,
                ) by {
                    if m + 1 < k {
                        assert(after[m] == entries0[m]);
                        assert(after[m + 1] == entries0[m + 1]);
                    } else if m + 1 == k {
                        assert(after[m] == entries0[m]);
                        assert(after[m + 1] == e@);
                    } else if m == k {
                        assert(after[m] == e@);
                        assert(after[m + 1] == entries0[m]);
                        assert(!lex_lt(date@, entries0[k as int].date));
                        assert(entries0[k as int].date != date@);
                        lemma_lex_trichotomy(date@, entries0[k as int].date);
                    } else {
                        assert(after[m] == entries0[m - 1]);
                        assert(after[m + 1] == entries0[m]);
                    }
                }
            }
        }
    }
}

/// Whether `name` already occurs in `v`.
pub fn contains_name(v: &Vec<String>, name: &str) -> (r: bool)
    ensures
        r == names_seq(v@).contains(name@),
{
    let mut i: usize = 0;
    while i < v.len()
        invariant
            i <= v@.len(),
            forall|m: int| 0 <= m < i ==> names_seq(v@)[m] != name@,
        decreases v@.len() - i,
    {
        if str_eq(v[i].as_str(), name) {
            assert(names_seq(v@)[i as int] == name@);
            return true;
        }
        i = i + 1;
    }
    assert(!names_seq(v@).contains(name@));
    false
}

/// A roster participant. The status flags exist in the surrounding
/// application but carry no effect on the pairing algorithm; they are inert
/// metadata.
pub struct Member {
    pub name: String,
    pub ooo: bool,
    pub carry: bool,
    pub solo: bool,
    pub new: bool,
}

impl Member {
    /// A fresh participant with all status flags cleared.
    pub fn new(name: &str) -> (m: Member)
        ensures
            m.name@ == name@,
            !m.ooo,
            !m.carry,
            !m.solo,
            !m.new,
    {
        Member { name: name.to_owned(), ooo: false, carry: false, solo: false, new: false }
    }
}

/// The application state the engine reads: the pairing history and the
/// roster of member names.
pub struct Data {
    pub history: PairingHistory,
    pub members: Vec<String>,
}

impl Data {
    /// Well-formedness: ordered history and no repeated member name.
    pub open spec fn wf(&self) -> bool {
        &&& self.history.wf()
        &&& forall|i: int, j: int|
            0 <= i < j < self.members@.len() ==> names_seq(self.members@)[i] != names_seq(
                self.members@,
            )[j]
    }

    /// An empty state.
    pub fn new() -> (d: Data)
        ensures
            d.wf(),
            d.history@ =~= Seq::<EntryView>::empty(),
            d.members@ =~= Seq::<String>::empty(),
    {
        Data { history: PairingHistory::new(), members: Vec::new() }
    }

    /// Records `pairs` under `date` in the history, overwriting any record
    /// already dated `date`.
    pub fn add_entry(&mut self, date: String, pairs: Vec<Vec<String>>)
        requires
            old(self).wf(),
        ensures
            final(self).wf(),
            final(self).members == old(self).members,
            ({
                let k = insert_pos(old(self).history@, date@);
                let e = (EntryView { date: date@, groups: groups_seq(pairs@) });
                if k < old(self).history@.len() && old(self).history@[k].date == date@ {
                    final(self).history@ == old(self).history@.update(k, e)
                } else {
                    final(self).history@ == old(self).history@.insert(k, e)
                }
            }),
    {
        self.history.insert_entry(date, pairs);
    }

    /// Adds `member` to the roster unless a member of that name is already
    /// present.
    pub fn add_member(&mut self, member: String)
        requires
            old(self).wf(),
        ensures
            final(self).wf(),
            final(self).history == old(self).history,
            names_seq(old(self).members@).contains(member@) ==> final(self).members
                == old(self).members,
            !names_seq(old(self).members@).contains(member@) ==> final(self).members@ == old(
                self,
            ).members@.push(member),
    {
        if !contains_name(&self.members, member.as_str()) {
            let ghost before = self.members@;
            self.members.push(member);
            proof {
                assert forall|i: int, j: int|
                    0 <= i < j < self.members@.len() implies names_seq(self.members@)[i]
                    != names_seq(self.members@)[j] by {
                    if j < before.len() {
                        assert(names_seq(before)[i] != names_seq(before)[j]);
                    } else {
                        assert(names_seq(self.members@)[j] == self.members@[j]@);
                        if names_seq(before).contains(names_seq(self.members@)[i]) {
                        } else {
                            assert(names_seq(before)[i] == names_seq(self.members@)[i]);
                            assert(names_seq(before).contains(names_seq(before)[i]));
                        }
                    }
                }
            }
        }
    }
}

} // verus!
