//! The in-memory store: every record of the database file, split into the
//! partition that may be shown now and the partition resting on a timeout,
//! together with the generator that picks the next word.
//!
//! The store never touches the file itself: it is built from the file's
//! bytes and renders the bytes to write back, so all of its behaviour is
//! a function of plain values and the clock handed in.

use crate::codec::{
    contains_byte, lemma_lines_no_nl, nl, push_all, spec_lines, split_lines, views_of,
};
use crate::entry::{
    spec_advance, spec_encode, spec_parse, Entry, EntryModel, DAY,
};
use crate::rng::{Rng, SEED};
use vstd::prelude::*;

verus! {

/// The mathematical shape of the store: the records that may be shown now,
/// and the records resting on a timeout, each in file order.
pub struct DbModel {
    /// Records whose timeout has passed: eligible for the next pick.
    pub usable: Seq<EntryModel>,
    /// Records still resting: excluded from picks until the next load.
    pub unusable: Seq<EntryModel>,
}

impl DbModel {
    /// Every record is well formed and line-safe, and each partition holds
    /// exactly the records whose resting flag sends it there.
    pub open spec fn wf(self) -> bool {
        &&& forall|i: int|
            0 <= i < self.usable.len() ==> {
                &&& (#[trigger] self.usable[i]).wf()
                &&& !self.usable[i].timed_out
                &&& self.usable[i].line_safe()
            }
        &&& forall|i: int|
            0 <= i < self.unusable.len() ==> {
                &&& (#[trigger] self.unusable[i]).wf()
                &&& self.unusable[i].timed_out
                &&& self.unusable[i].line_safe()
            }
    }
}

/// The views of a run of records.
pub open spec fn views_of_entries(v: Seq<Entry>) -> Seq<EntryModel> {
    v.map_values(|e: Entry| e@)
}

/// The store held in memory while the user reviews words.
pub struct Database {
    /// The records that may be shown now.
    pub usable: Vec<Entry>,
    /// The records resting on a timeout.
    pub unusable: Vec<Entry>,
    /// The generator that picks which record to show.
    pub rng: Rng,
}

impl View for Database {
    type V = DbModel;

    open spec fn view(&self) -> DbModel {
        DbModel {
            usable: views_of_entries(self.usable@),
            unusable: views_of_entries(self.unusable@),
        }
    }
}

/// The store a run of lines loads into: each line that denotes a record
/// adds it to the partition its resting flag picks; every other line is
/// dropped without a trace.
pub open spec fn spec_load_lines(ls: Seq<Seq<u8>>, now: u64) -> DbModel
    decreases ls.len(),
{
    if ls.len() == 0 {
        DbModel { usable: Seq::empty(), unusable: Seq::empty() }
    } else {
        let prev = spec_load_lines(ls.drop_last(), now);
        match spec_parse(ls.last(), now) {
            Some(e) => if e.timed_out {
                DbModel { unusable: prev.unusable.push(e), ..prev }
            } else {
                DbModel { usable: prev.usable.push(e), ..prev }
            },
            None => prev,
        }
    }
}

/// The store the bytes of a database file load into.
pub open spec fn spec_load(contents: Seq<u8>, now: u64) -> DbModel {
    spec_load_lines(spec_lines(contents), now)
}

/// The stored lines of a run of records, in order, one line end after each.
pub open spec fn spec_render(es: Seq<EntryModel>) -> Seq<u8>
    decreases es.len(),
{
    if es.len() == 0 {
        Seq::empty()
    } else {
        spec_encode(es.first()) + nl() + spec_render(es.drop_first())
    }
}

/// The full file image of a store: every record, shown partition first.
pub open spec fn spec_contents(m: DbModel) -> Seq<u8> {
    spec_render(m.usable + m.unusable)
}

/// Rendering one more record appends its line.
proof fn lemma_render_push(es: Seq<EntryModel>, e: EntryModel)
    ensures
        spec_render(es.push(e)) == spec_render(es) + spec_encode(e) + nl(),
    decreases es.len(),
{
    if es.len() == 0 {
        assert(es.push(e).drop_first() =~= Seq::<EntryModel>::empty());
        assert(es.push(e).first() == e);
        assert(spec_render(Seq::<EntryModel>::empty()) == Seq::<u8>::empty());
        assert(spec_render(es.push(e)) =~= spec_render(es) + spec_encode(e) + nl());
    } else {
        lemma_render_push(es.drop_first(), e);
        assert(es.push(e).drop_first() =~= es.drop_first().push(e));
        assert(es.push(e).first() == es.first());
        assert(spec_render(es.push(e)) =~= spec_render(es) + spec_encode(e) + nl());
    }
}

impl Database {
    /// Builds the store from the bytes of the database file, against the
    /// clock `now`: each line is decoded and every record lands in the
    /// partition its resting flag picks; unreadable lines are dropped.
    /// The generator starts in its fixed state.
    pub fn load(contents: &[u8], now: u64) -> (db: Database)
        ensures
            db@ == spec_load(contents@, now),
            db@.wf(),
            db.rng.state() == SEED,
    {
        let lines = split_lines(contents);
        let ghost lv = views_of(lines@);
        proof {
            lemma_lines_no_nl(contents@);
        }
        let mut usable: Vec<Entry> = Vec::new();
        let mut unusable: Vec<Entry> = Vec::new();
        let mut k: usize = 0;
        proof {
            assert(lv.take(0) =~= Seq::<Seq<u8>>::empty());
            assert(views_of_entries(usable@) =~= Seq::<EntryModel>::empty());
            assert(views_of_entries(unusable@) =~= Seq::<EntryModel>::empty());
        }
        while k < lines.len()
            invariant
                k <= lines.len(),
                lv == views_of(lines@),
                lines@.len() == lv.len(),
                forall|j: int| 0 <= j < lv.len() ==> !contains_byte(#[trigger] lv[j], 10),
                views_of_entries(usable@) == spec_load_lines(lv.take(k as int), now).usable,
                views_of_entries(unusable@) == spec_load_lines(lv.take(k as int), now).unusable,
                (DbModel {
                    usable: views_of_entries(usable@),
                    unusable: views_of_entries(unusable@),
                }).wf(),
            decreases lines.len() - k,
        {
            proof {
                assert(views_of(lines@)[k as int] == lines@[k as int]@);
                assert(lv.take(k + 1).drop_last() =~= lv.take(k as int));
                assert(lv.take(k + 1).last() == lv[k as int]);
            }
            let ghost usable_before = usable@;
            let ghost unusable_before = unusable@;
            match Entry::parse_from_line(lines[k].as_slice(), now) {
                Some(e) => {
                    if e.timed_out {
                        proof {
                            assert(views_of_entries(unusable_before.push(e)) =~= views_of_entries(
                                unusable_before,
                            ).push(e@));
                        }
                        unusable.push(e);
                    } else {
                        proof {
                            assert(views_of_entries(usable_before.push(e)) =~= views_of_entries(
                                usable_before,
                            ).push(e@));
                        }
                        usable.push(e);
                    }
                },
                None => {},
            }
            k = k + 1;
        }
        proof {
            assert(lv.take(lines@.len() as int) =~= lv);
        }
        Database { usable, unusable, rng: Rng::new() }
    }

    /// Picks a record to show: draws a position in the shown partition
    /// with the deterministic generator and returns a copy of the record
    /// there, with the position as a handle for the following update.
    /// Returns nothing exactly when no record may be shown, and leaves the
    /// store itself untouched either way.
    pub fn random_entry(&mut self) -> (r: Option<(Entry, usize)>)
        ensures
            final(self)@ == old(self)@,
            r is Some <==> old(self)@.usable.len() > 0,
            match r {
                Some((e, i)) => {
                    &&& i < old(self)@.usable.len()
                    &&& i as int == old(self).rng.state() as int % (old(self)@.usable.len() as int)
                    &&& e@ == old(self)@.usable[i as int]
                    &&& final(self).rng.state() == Rng::step(old(self).rng.state())
                },
                None => final(self).rng.state() == old(self).rng.state(),
            },
    {
        proof {
            assert(self@.usable.len() == self.usable@.len());
        }
        if self.usable.len() == 0 {
            return None;
        }
        let max: u64 = (self.usable.len() - 1) as u64;
        let num64 = self.rng.range(0, max);
        let num = num64 as usize;
        proof {
            assert(views_of_entries(self.usable@)[num as int] == self.usable@[num as int]@);
        }
        let e = self.usable[num].duplicate();
        Some((e, num))
    }

    /// Records a review outcome for the record a handle points at: the
    /// record is advanced and moves from the shown partition to the
    /// resting one; the spot it leaves is filled by the partition's last
    /// record. A handle beyond the shown partition — stale after an
    /// earlier update — does nothing at all.
    pub fn update_timeout(&mut self, index: usize, next: bool, now: u64)
        requires
            old(self)@.wf(),
            now + 30 * DAY <= u64::MAX,
        ensures
            final(self)@.wf(),
            final(self).rng.state() == old(self).rng.state(),
            index >= old(self)@.usable.len() ==> final(self)@ == old(self)@,
            index < old(self)@.usable.len() ==> {
                &&& final(self)@.usable == old(self)@.usable.update(
                    index as int,
                    old(self)@.usable.last(),
                ).drop_last()
                &&& final(self)@.unusable == old(self)@.unusable.push(
                    spec_advance(old(self)@.usable[index as int], next, now),
                )
            },
    {
        proof {
            assert(self@.usable.len() == self.usable@.len());
        }
        if index >= self.usable.len() {
            return;
        }
        let ghost usable_before = self.usable@;
        let ghost unusable_before = self.unusable@;
        proof {
            assert(views_of_entries(usable_before)[index as int] == usable_before[index as int]@);
            assert(views_of_entries(usable_before)[usable_before.len() - 1] == usable_before[
                usable_before.len() - 1]@);
        }
        let mut e = self.usable.swap_remove(index);
        e.update_timeout(next, now);
        proof {
            assert(views_of_entries(self.usable@) =~= views_of_entries(usable_before).update(
                index as int,
                views_of_entries(usable_before).last(),
            ).drop_last());
            assert(views_of_entries(unusable_before.push(e)) =~= views_of_entries(
                unusable_before,
            ).push(e@));
        }
        self.unusable.push(e);
        proof {
            let u0 = views_of_entries(usable_before);
            let n0 = views_of_entries(unusable_before);
            let u1 = views_of_entries(self.usable@);
            let n1 = views_of_entries(self.unusable@);
            assert(u0 == old(self)@.usable);
            assert(n0 == old(self)@.unusable);
            assert forall|i: int| 0 <= i < u1.len() implies ((#[trigger] u1[i]).wf()
                && !u1[i].timed_out && u1[i].line_safe()) by {
                if i == index {
                    assert(u1[i] == old(self)@.usable[u0.len() - 1]);
                } else {
                    assert(u1[i] == old(self)@.usable[i]);
                }
            }
            assert forall|i: int| 0 <= i < n1.len() implies ((#[trigger] n1[i]).wf()
                && n1[i].timed_out && n1[i].line_safe()) by {
                if i < n0.len() {
                    assert(n1[i] == old(self)@.unusable[i]);
                } else {
                    assert(n1[i] == e@);
                    assert(e@ == spec_advance(old(self)@.usable[index as int], next, now));
                    assert(!old(self)@.usable[index as int].timed_out);
                }
            }
        }
    }

    /// Renders the whole store as the bytes of the database file: every
    /// record on its own line, the shown partition first.
    pub fn db_contents(&self) -> (out: Vec<u8>)
        ensures
            out@ == spec_contents(self@),
    {
        let ghost all = self@.usable + self@.unusable;
        let mut out: Vec<u8> = Vec::new();
        let mut k: usize = 0;
        proof {
            assert(all.take(0) =~= Seq::<EntryModel>::empty());
        }
        while k < self.usable.len()
            invariant
                k <= self.usable@.len(),
                all == self@.usable + self@.unusable,
                out@ == spec_render(all.take(k as int)),
            decreases self.usable.len() - k,
        {
            proof {
                assert(views_of_entries(self.usable@)[k as int] == self.usable@[k as int]@);
                assert(all[k as int] == self@.usable[k as int]);
                assert(all.take(k + 1) =~= all.take(k as int).push(all[k as int]));
                lemma_render_push(all.take(k as int), all[k as int]);
            }
            let line = self.usable[k].db_repr();
            push_all(&mut out, line.as_slice());
            out.push(10);
            proof {
                assert(out@ =~= spec_render(all.take(k + 1)));
            }
            k = k + 1;
        }
        let offset = self.usable.len();
        let mut j: usize = 0;
        while j < self.unusable.len()
            invariant
                j <= self.unusable@.len(),
                offset == self.usable@.len(),
                all == self@.usable + self@.unusable,
                out@ == spec_render(all.take(offset + j)),
            decreases self.unusable.len() - j,
        {
            proof {
                assert(views_of_entries(self.unusable@)[j as int] == self.unusable@[j as int]@);
                assert(all[offset + j] == self@.unusable[j as int]);
                assert(all.take(offset + j + 1) =~= all.take(offset + j).push(all[offset + j]));
                lemma_render_push(all.take(offset + j), all[offset + j]);
            }
            let line = self.unusable[j].db_repr();
            push_all(&mut out, line.as_slice());
            out.push(10);
            proof {
                assert(out@ =~= spec_render(all.take(offset + j + 1)));
            }
            j = j + 1;
        }
        proof {
            assert(all.take(all.len() as int) =~= all);
        }
        out
    }
}

/// The records a run of lines denotes, in file order.
pub open spec fn spec_decoded(ls: Seq<Seq<u8>>, now: u64) -> Seq<EntryModel>
    decreases ls.len(),
{
    if ls.len() == 0 {
        Seq::empty()
    } else {
        let prev = spec_decoded(ls.drop_last(), now);
        match spec_parse(ls.last(), now) {
            Some(e) => prev.push(e),
            None => prev,
        }
    }
}

/// Partition exhaustiveness: loading splits the decoded records over the
/// two partitions with nothing lost, nothing added and nothing shared —
/// together they hold the decoded records exactly, and the resting flag
/// alone decides each record's side.
pub proof fn lemma_load_partition(ls: Seq<Seq<u8>>, now: u64)
    ensures
        forall|i: int|
            0 <= i < spec_load_lines(ls, now).usable.len() ==> !(#[trigger] spec_load_lines(
                ls,
                now,
            ).usable[i]).timed_out,
        forall|i: int|
            0 <= i < spec_load_lines(ls, now).unusable.len() ==> (#[trigger] spec_load_lines(
                ls,
                now,
            ).unusable[i]).timed_out,
        spec_load_lines(ls, now).usable.to_multiset().add(
            spec_load_lines(ls, now).unusable.to_multiset(),
        ) == spec_decoded(ls, now).to_multiset(),
    decreases ls.len(),
{
    broadcast use vstd::seq_lib::group_to_multiset_ensures;

    let m = spec_load_lines(ls, now);
    if ls.len() == 0 {
        assert(m.usable.to_multiset().add(m.unusable.to_multiset()) =~= spec_decoded(
            ls,
            now,
        ).to_multiset());
    } else {
        lemma_load_partition(ls.drop_last(), now);
        let prev = spec_load_lines(ls.drop_last(), now);
        match spec_parse(ls.last(), now) {
            Some(e) => {
                if e.timed_out {
                    assert(m.usable.to_multiset().add(m.unusable.to_multiset())
                        =~= spec_decoded(ls, now).to_multiset());
                } else {
                    assert(m.usable.to_multiset().add(m.unusable.to_multiset())
                        =~= spec_decoded(ls, now).to_multiset());
                }
            },
            None => {},
        }
    }
}

/// Rendering a joined run is the joined rendering.
proof fn lemma_render_concat(a: Seq<EntryModel>, b: Seq<EntryModel>)
    ensures
        spec_render(a + b) == spec_render(a) + spec_render(b),
    decreases a.len(),
{
    if a.len() == 0 {
        assert(a + b =~= b);
        assert(spec_render(a + b) =~= spec_render(a) + spec_render(b));
    } else {
        lemma_render_concat(a.drop_first(), b);
        assert((a + b).drop_first() =~= a.drop_first() + b);
        assert((a + b).first() == a.first());
        assert(spec_render(a + b) =~= spec_render(a) + spec_render(b));
    }
}

/// A record's stored line holds no line feed and does not end in a
/// carriage return, so it survives the line splitter untouched.
proof fn lemma_encode_line(e: EntryModel)
    requires
        e.wf(),
        e.line_safe(),
    ensures
        !contains_byte(spec_encode(e), 10),
        spec_encode(e).len() >= 1,
        crate::codec::strip_cr(spec_encode(e)) == spec_encode(e),
{
    let d = crate::codec::delim();
    let idig = crate::codec::dec_digits(e.cur_iter as nat);
    let tdig = crate::codec::dec_digits(e.timeout as nat);
    crate::codec::lemma_dec_digits_roundtrip(e.cur_iter as u64);
    crate::codec::lemma_dec_digits_roundtrip(e.timeout as u64);
    assert(crate::codec::dec_digits((e.cur_iter as u64) as nat) == idig);
    assert(crate::codec::dec_digits((e.timeout as u64) as nat) == tdig);
    assert(!contains_byte(d, 10)) by {
        if contains_byte(d, 10) {
            let i = choose|i: int| 0 <= i < d.len() && d[i] == 10;
        }
    }
    let p1 = e.word + d;
    let p2 = p1 + e.tr_word;
    let p3 = p2 + d;
    let p4 = p3 + idig;
    let p5 = p4 + d;
    let s = p5 + tdig;
    crate::codec::lemma_contains_byte_concat(e.word, d, 10);
    crate::codec::lemma_contains_byte_concat(p1, e.tr_word, 10);
    crate::codec::lemma_contains_byte_concat(p2, d, 10);
    crate::codec::lemma_contains_byte_concat(p3, idig, 10);
    crate::codec::lemma_contains_byte_concat(p4, d, 10);
    crate::codec::lemma_contains_byte_concat(p5, tdig, 10);
    assert(s == spec_encode(e));
    assert(s.last() == tdig.last());
    assert(48 <= tdig.last() <= 57);
}

/// The lines of a rendered run of records are exactly their stored lines.
proof fn lemma_lines_of_render(es: Seq<EntryModel>)
    requires
        forall|i: int| 0 <= i < es.len() ==> (#[trigger] es[i]).wf() && es[i].line_safe(),
    ensures
        spec_lines(spec_render(es)) == es.map_values(|e: EntryModel| spec_encode(e)),
    decreases es.len(),
{
    if es.len() == 0 {
        assert(spec_lines(spec_render(es)) =~~= es.map_values(|e: EntryModel| spec_encode(e)));
    } else {
        let e0 = es.first();
        let rest = es.drop_first();
        assert(forall|i: int|
            0 <= i < rest.len() ==> (#[trigger] rest[i]).wf() && rest[i].line_safe());
        lemma_lines_of_render(rest);
        lemma_encode_line(e0);
        let s = spec_render(es);
        let s2 = spec_render(rest);
        assert(s == spec_encode(e0) + nl() + s2);
        crate::codec::lemma_split_nl_concat(spec_encode(e0), s2);
        crate::codec::lemma_split_on_len(s2, nl());
        let ps = crate::codec::split_on(s, nl());
        let ps2 = crate::codec::split_on(s2, nl());
        assert(ps == seq![spec_encode(e0)] + ps2);
        assert(ps.last() == ps2.last());
        assert(spec_lines(s) =~~= seq![spec_encode(e0)] + spec_lines(s2));
        assert(es.map_values(|e: EntryModel| spec_encode(e)) =~~= seq![spec_encode(e0)]
            + rest.map_values(|e: EntryModel| spec_encode(e)));
    }
}

/// Loading the stored lines of records that all rest, or that all may be
/// shown, rebuilds that run on its own side, in order.
proof fn lemma_load_encoded(es: Seq<EntryModel>, now: u64, resting: bool)
    requires
        forall|i: int|
            0 <= i < es.len() ==> (#[trigger] es[i]).wf() && es[i].timed_out == (es[i].timeout
                > now) && es[i].timed_out == resting,
    ensures
        spec_load_lines(es.map_values(|e: EntryModel| spec_encode(e)), now) == (if resting {
            DbModel { usable: Seq::empty(), unusable: es }
        } else {
            DbModel { usable: es, unusable: Seq::empty() }
        }),
    decreases es.len(),
{
    let ls = es.map_values(|e: EntryModel| spec_encode(e));
    if es.len() == 0 {
        assert(ls.len() == 0);
        assert(es =~= Seq::<EntryModel>::empty());
    } else {
        let front = es.drop_last();
        assert(forall|i: int|
            0 <= i < front.len() ==> (#[trigger] front[i]).wf() && front[i].timed_out == (
            front[i].timeout > now) && front[i].timed_out == resting);
        lemma_load_encoded(front, now, resting);
        assert(ls.drop_last() =~= front.map_values(|e: EntryModel| spec_encode(e)));
        assert(ls.last() == spec_encode(es.last()));
        crate::entry::lemma_encode_parse(es.last(), now);
        if resting {
            assert(spec_load_lines(ls, now).unusable =~= es);
        } else {
            assert(spec_load_lines(ls, now).usable =~= es);
        }
    }
}

/// Loading two runs of lines one after the other loads each in turn.
proof fn lemma_load_lines_concat(ls1: Seq<Seq<u8>>, ls2: Seq<Seq<u8>>, now: u64)
    ensures
        spec_load_lines(ls1 + ls2, now).usable == spec_load_lines(ls1, now).usable
            + spec_load_lines(ls2, now).usable,
        spec_load_lines(ls1 + ls2, now).unusable == spec_load_lines(ls1, now).unusable
            + spec_load_lines(ls2, now).unusable,
    decreases ls2.len(),
{
    if ls2.len() == 0 {
        assert(ls1 + ls2 =~= ls1);
        assert(spec_load_lines(ls1 + ls2, now).usable =~= spec_load_lines(ls1, now).usable
            + spec_load_lines(ls2, now).usable);
        assert(spec_load_lines(ls1 + ls2, now).unusable =~= spec_load_lines(ls1, now).unusable
            + spec_load_lines(ls2, now).unusable);
    } else {
        lemma_load_lines_concat(ls1, ls2.drop_last(), now);
        assert((ls1 + ls2).drop_last() =~= ls1 + ls2.drop_last());
        assert((ls1 + ls2).last() == ls2.last());
        match spec_parse(ls2.last(), now) {
            Some(e) => {
                assert(spec_load_lines(ls1 + ls2, now).usable =~= spec_load_lines(ls1, now).usable
                    + spec_load_lines(ls2, now).usable);
                assert(spec_load_lines(ls1 + ls2, now).unusable =~= spec_load_lines(
                    ls1,
                    now,
                ).unusable + spec_load_lines(ls2, now).unusable);
            },
            None => {},
        }
    }
}

/// Persist fidelity: rendering the store and loading those bytes back, at
/// a clock that still agrees with every record's resting flag, restores
/// both partitions exactly, record for record and in order.
pub proof fn lemma_persist_round_trip(m: DbModel, now: u64)
    requires
        m.wf(),
        forall|i: int| 0 <= i < m.usable.len() ==> (#[trigger] m.usable[i]).timeout <= now,
        forall|i: int| 0 <= i < m.unusable.len() ==> (#[trigger] m.unusable[i]).timeout > now,
    ensures
        spec_load(spec_contents(m), now) == m,
{
    let u = m.usable;
    let n = m.unusable;
    let all = u + n;
    assert forall|i: int| 0 <= i < all.len() implies (#[trigger] all[i]).wf()
        && all[i].line_safe() by {
        if i < u.len() {
            assert(all[i] == u[i]);
        } else {
            assert(all[i] == n[i - u.len()]);
        }
    }
    lemma_lines_of_render(all);
    assert(all.map_values(|e: EntryModel| spec_encode(e)) =~= u.map_values(
        |e: EntryModel| spec_encode(e),
    ) + n.map_values(|e: EntryModel| spec_encode(e)));
    lemma_load_lines_concat(
        u.map_values(|e: EntryModel| spec_encode(e)),
        n.map_values(|e: EntryModel| spec_encode(e)),
        now,
    );
    assert(forall|i: int|
        0 <= i < u.len() ==> (#[trigger] u[i]).wf() && u[i].timed_out == (u[i].timeout > now)
            && u[i].timed_out == false);
    assert(forall|i: int|
        0 <= i < n.len() ==> (#[trigger] n[i]).wf() && n[i].timed_out == (n[i].timeout > now)
            && n[i].timed_out == true);
    lemma_load_encoded(u, now, false);
    lemma_load_encoded(n, now, true);
    assert(spec_load(spec_contents(m), now).usable =~= u);
    assert(spec_load(spec_contents(m), now).unusable =~= n);
}

} // verus!
