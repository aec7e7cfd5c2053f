//! The keyed, stably ordered linear score table both engines share: an
//! ascending list of (cell, score) entries with linear-scan insertion,
//! removal and lookup, verified against the model's table functions.
use crate::model;
use crate::model::{CellM, EntryM};
use vstd::prelude::*;

verus! {

/// The integer view of one executable entry.
pub open spec fn ent_view(e: ((i64, i64), i64)) -> EntryM {
    (((e.0).0 as int, (e.0).1 as int), e.1 as int)
}

/// An ordered score table: entries ascending by score, ties in insertion
/// order, one linear scan per operation.
pub struct ScoreTable {
    entries: Vec<((i64, i64), i64)>,
}

impl View for ScoreTable {
    type V = Seq<EntryM>;

    closed spec fn view(&self) -> Seq<EntryM> {
        self.entries@.map_values(|e: ((i64, i64), i64)| ent_view(e))
    }
}

proof fn lemma_tbl_insert_pos(t: Seq<EntryM>, c: CellM, s: int, i: int)
    requires
        0 <= i <= t.len(),
        forall|j: int| 0 <= j < i ==> (#[trigger] t[j]).1 <= s,
        i < t.len() ==> s < t[i].1,
    ensures
        model::tbl_insert(t, c, s) == t.take(i) + seq![(c, s)] + t.skip(i),
    decreases i,
{
    if i == 0 {
        if t.len() == 0 {
            assert(model::tbl_insert(t, c, s) =~= t.take(0) + seq![(c, s)] + t.skip(0));
        } else {
            assert(s < t[0].1);
            assert(model::tbl_insert(t, c, s) =~= t.take(0) + seq![(c, s)] + t.skip(0));
        }
    } else {
        assert(t[0].1 <= s);
        let t1 = t.drop_first();
        assert(forall|j: int| 0 <= j < i - 1 ==> (#[trigger] t1[j]).1 <= s);
        lemma_tbl_insert_pos(t1, c, s, i - 1);
        assert(model::tbl_insert(t, c, s) == seq![t[0]] + model::tbl_insert(t1, c, s));
        assert(seq![t[0]] + (t1.take(i - 1) + seq![(c, s)] + t1.skip(i - 1)) =~= t.take(i) + seq![
            (c, s),
        ] + t.skip(i));
    }
}

proof fn lemma_tbl_remove_pos(t: Seq<EntryM>, c: CellM, i: int)
    requires
        0 <= i < t.len(),
        forall|j: int| 0 <= j < i ==> (#[trigger] t[j]).0 != c,
        t[i].0 == c,
    ensures
        model::tbl_remove(t, c) == t.take(i) + t.skip(i + 1),
    decreases i,
{
    if i == 0 {
        assert(model::tbl_remove(t, c) =~= t.take(0) + t.skip(1));
    } else {
        let t1 = t.drop_first();
        assert(forall|j: int| 0 <= j < i - 1 ==> (#[trigger] t1[j]).0 != c);
        assert(t1[i - 1].0 == c);
        lemma_tbl_remove_pos(t1, c, i - 1);
        assert(model::tbl_remove(t, c) == seq![t[0]] + model::tbl_remove(t1, c));
        assert(seq![t[0]] + (t1.take(i - 1) + t1.skip(i)) =~= t.take(i) + t.skip(i + 1));
    }
}

proof fn lemma_tbl_remove_absent(t: Seq<EntryM>, c: CellM)
    requires
        forall|j: int| 0 <= j < t.len() ==> (#[trigger] t[j]).0 != c,
    ensures
        model::tbl_remove(t, c) == t,
    decreases t.len(),
{
    if t.len() > 0 {
        let t1 = t.drop_first();
        lemma_tbl_remove_absent(t1, c);
        assert(model::tbl_remove(t, c) == seq![t[0]] + t1);
        assert(seq![t[0]] + t1 =~= t);
    }
}

proof fn lemma_tbl_get_skip(t: Seq<EntryM>, c: CellM, i: int)
    requires
        0 <= i < t.len(),
        t[i].0 != c,
    ensures
        model::tbl_get(t.skip(i), c) == model::tbl_get(t.skip(i + 1), c),
{
    let u = t.skip(i);
    assert(u.len() > 0 && u[0] == t[i]);
    assert(u.drop_first() =~= t.skip(i + 1));
}

impl ScoreTable {
    /// An empty table.
    pub fn new() -> (r: ScoreTable)
        ensures
            r@ == Seq::<EntryM>::empty(),
    {
        let r = ScoreTable { entries: Vec::new() };
        proof {
            assert(r@ =~= Seq::<EntryM>::empty());
        }
        r
    }

    /// Number of entries.
    pub fn len(&self) -> (r: usize)
        ensures
            r == self@.len(),
    {
        self.entries.len()
    }

    /// The entry at a position.
    pub fn entry_at(&self, i: usize) -> (r: ((i64, i64), i64))
        requires
            i < self@.len(),
        ensures
            ent_view(r) == self@[i as int],
    {
        self.entries[i]
    }

    /// Insert an entry before the first entry whose score strictly exceeds
    /// the new one, keeping the table stably ascending.
    #[verifier::loop_isolation(false)]
    pub fn insert_score(&mut self, c: (i64, i64), s: i64)
        ensures
            final(self)@ == model::tbl_insert(old(self)@, (c.0 as int, c.1 as int), s as int),
    {
        let ghost t = self@;
        let ghost cv: CellM = (c.0 as int, c.1 as int);
        let mut i: usize = 0;
        while i < self.entries.len()
            invariant
                i <= self.entries.len(),
                forall|j: int| 0 <= j < i ==> (#[trigger] t[j]).1 <= s as int,
                self@ == t,
                old(self)@ == t,
                self.entries@.len() == t.len(),
            decreases self.entries.len() - i,
        {
            if s < self.entries[i].1 {
                proof {
                    lemma_tbl_insert_pos(t, cv, s as int, i as int);
                }
                self.entries.insert(i, (c, s));
                proof {
                    assert(self@ =~= t.take(i as int) + seq![(cv, s as int)] + t.skip(i as int));
                }
                return ;
            }
            i = i + 1;
        }
        proof {
            lemma_tbl_insert_pos(t, cv, s as int, t.len() as int);
        }
        self.entries.push((c, s));
        proof {
            assert(self@ =~= t.take(t.len() as int) + seq![(cv, s as int)] + t.skip(
                t.len() as int,
            ));
        }
    }

    /// Remove the first entry for the given cell; report whether one existed.
    #[verifier::loop_isolation(false)]
    pub fn remove_score(&mut self, c: (i64, i64)) -> (r: bool)
        ensures
            final(self)@ == model::tbl_remove(old(self)@, (c.0 as int, c.1 as int)),
            r == (model::tbl_get(old(self)@, (c.0 as int, c.1 as int)) is Some),
    {
        let ghost t = self@;
        let ghost cv: CellM = (c.0 as int, c.1 as int);
        let mut i: usize = 0;
        proof {
            assert(t.skip(0) =~= t);
        }
        while i < self.entries.len()
            invariant
                i <= self.entries.len(),
                forall|j: int| 0 <= j < i ==> (#[trigger] t[j]).0 != cv,
                model::tbl_get(t, cv) == model::tbl_get(t.skip(i as int), cv),
                self@ == t,
                old(self)@ == t,
                self.entries@.len() == t.len(),
            decreases self.entries.len() - i,
        {
            let e = self.entries[i];
            proof {
                assert(ent_view(e) == t[i as int]);
            }
            if (e.0).0 == c.0 && (e.0).1 == c.1 {
                proof {
                    lemma_tbl_remove_pos(t, cv, i as int);
                    assert(t.skip(i as int)[0] == t[i as int]);
                }
                self.entries.remove(i);
                proof {
                    assert(self@ =~= t.take(i as int) + t.skip(i as int + 1));
                }
                return true;
            }
            proof {
                lemma_tbl_get_skip(t, cv, i as int);
            }
            i = i + 1;
        }
        proof {
            lemma_tbl_remove_absent(t, cv);
            assert(t.skip(t.len() as int).len() == 0);
        }
        false
    }

    /// Score of the first entry for the given cell, if any.
    #[verifier::loop_isolation(false)]
    pub fn get_score(&self, c: (i64, i64)) -> (r: Option<i64>)
        ensures
            match r {
                Some(v) => model::tbl_get(self@, (c.0 as int, c.1 as int)) == Some(v as int),
                None => model::tbl_get(self@, (c.0 as int, c.1 as int)) is None,
            },
    {
        let ghost t = self@;
        let ghost cv: CellM = (c.0 as int, c.1 as int);
        let mut i: usize = 0;
        proof {
            assert(t.skip(0) =~= t);
        }
        while i < self.entries.len()
            invariant
                i <= self.entries.len(),
                model::tbl_get(t, cv) == model::tbl_get(t.skip(i as int), cv),
                self@ == t,
                self.entries@.len() == t.len(),
            decreases self.entries.len() - i,
        {
            let e = self.entries[i];
            proof {
                assert(ent_view(e) == t[i as int]);
            }
            if (e.0).0 == c.0 && (e.0).1 == c.1 {
                proof {
                    assert(t.skip(i as int)[0] == t[i as int]);
                }
                return Some(e.1);
            }
            proof {
                lemma_tbl_get_skip(t, cv, i as int);
            }
            i = i + 1;
        }
        proof {
            assert(t.skip(t.len() as int).len() == 0);
        }
        None
    }
}

} // verus!
