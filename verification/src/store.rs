//! The persisted shift records, modelled as a sequence with unique natural
//! keys. Uploading is an upsert: a record whose (date, category, worker)
//! key is already present overwrites that row's mutable fields, any other
//! record is appended.

use vstd::prelude::*;
use crate::models::{Shift, ShiftView, same_key};

verus! {

/// Index of the record with the same natural key as `s`, or -1.
pub open spec fn key_index(v: Seq<ShiftView>, s: ShiftView) -> int
    decreases v.len(),
{
    if v.len() == 0 {
        -1
    } else if same_key(v.last(), s) {
        v.len() - 1
    } else {
        key_index(v.drop_last(), s)
    }
}

/// The stored sequence after upserting `s`.
pub open spec fn spec_upsert(v: Seq<ShiftView>, s: ShiftView) -> Seq<ShiftView> {
    if key_index(v, s) >= 0 {
        v.update(key_index(v, s), s)
    } else {
        v.push(s)
    }
}

/// No two stored records share a natural key.
pub open spec fn keys_unique(v: Seq<ShiftView>) -> bool {
    forall|i: int, j: int|
        0 <= i < j < v.len() ==> !same_key(#[trigger] v[i], #[trigger] v[j])
}

/// What `key_index` finds: a matching position, or the absence of one.
pub proof fn lemma_key_index(v: Seq<ShiftView>, s: ShiftView)
    ensures
        key_index(v, s) >= 0 ==> 0 <= key_index(v, s) < v.len() && same_key(
            v[key_index(v, s)],
            s,
        ),
        key_index(v, s) < 0 ==> forall|i: int| 0 <= i < v.len() ==> !same_key(#[trigger] v[i], s),
    decreases v.len(),
{
    if v.len() > 0 && !same_key(v.last(), s) {
        lemma_key_index(v.drop_last(), s);
        assert forall|i: int| 0 <= i < v.len() && key_index(v, s) < 0 implies !same_key(
            #[trigger] v[i],
            s,
        ) by {
            if i < v.len() - 1 {
                assert(v.drop_last()[i] == v[i]);
            }
        }
    }
}

/// Upserting preserves key uniqueness.
pub proof fn lemma_upsert_keys_unique(v: Seq<ShiftView>, s: ShiftView)
    requires
        keys_unique(v),
    ensures
        keys_unique(spec_upsert(v, s)),
{
    lemma_key_index(v, s);
    let k = key_index(v, s);
    if k >= 0 {
        let w = v.update(k, s);
        assert forall|i: int, j: int| 0 <= i < j < w.len() implies !same_key(
            #[trigger] w[i],
            #[trigger] w[j],
        ) by {
            if i != k && j != k {
                assert(w[i] == v[i] && w[j] == v[j]);
            } else if i == k {
                assert(w[j] == v[j]);
                assert(!same_key(v[k], v[j]));
            } else {
                assert(w[i] == v[i]);
                assert(!same_key(v[i], v[k]));
            }
        }
    }
}

/// The stored shift records.
pub struct ShiftStore {
    pub shifts: Vec<Shift>,
}

impl ShiftStore {
    /// The mathematical contents of the store.
    pub open spec fn view_seq(&self) -> Seq<ShiftView> {
        self.shifts@.map_values(|s: Shift| s@)
    }

    /// The store's invariant: natural keys are unique.
    pub open spec fn inv(&self) -> bool {
        keys_unique(self.view_seq())
    }

    pub fn new() -> (r: ShiftStore)
        ensures
            r.inv(),
            r.view_seq() == Seq::<ShiftView>::empty(),
    {
        let r = ShiftStore { shifts: Vec::new() };
        proof {
            assert(r.view_seq() =~= Seq::<ShiftView>::empty());
        }
        r
    }

    /// Upsert one record under its natural key.
    pub fn upload_shift(&mut self, shift: Shift)
        requires
            old(self).inv(),
        ensures
            final(self).inv(),
            final(self).view_seq() == spec_upsert(old(self).view_seq(), shift@),
    {
        proof {
            lemma_key_index(self.view_seq(), shift@);
            lemma_upsert_keys_unique(self.view_seq(), shift@);
        }
        let ghost v = self.view_seq();
        let mut i: usize = self.shifts.len();
        proof {
            assert(v.take(v.len() as int) =~= v);
        }
        while i > 0
            invariant
                0 <= i <= self.shifts@.len(),
                v == self.view_seq(),
                v == old(self).view_seq(),
                keys_unique(v),
                key_index(v, shift@) == key_index(v.take(i as int), shift@),
            decreases i,
        {
            i = i - 1;
            proof {
                assert(v.take(i as int + 1).drop_last() =~= v.take(i as int));
                assert(v.take(i as int + 1).last() == v[i as int]);
            }
            let hit = self.shifts[i].date.year == shift.date.year && self.shifts[i].date.month
                == shift.date.month && self.shifts[i].date.day == shift.date.day
                && self.shifts[i].planning == shift.planning && self.shifts[i].boff_id
                == shift.boff_id;
            if hit {
                proof {
                    assert(same_key(v[i as int], shift@));
                    assert(key_index(v, shift@) == i as int);
                    lemma_upsert_keys_unique(v, shift@);
                }
                self.shifts.set(i, shift);
                proof {
                    assert(self.view_seq() =~= spec_upsert(v, shift@));
                }
                return ;
            }
            proof {
                assert(!same_key(v[i as int], shift@));
            }
        }
        proof {
            assert(v.take(0) =~= Seq::<ShiftView>::empty());
            assert(key_index(v, shift@) == -1);
            lemma_upsert_keys_unique(v, shift@);
        }
        self.shifts.push(shift);
        proof {
            assert(self.view_seq() =~= spec_upsert(v, shift@));
        }
    }
}

/// Uploading twice under one natural key leaves exactly one stored record
/// with that key, and it carries the second upload's fields.
pub proof fn lemma_upsert_idempotent(v: Seq<ShiftView>, a: ShiftView, b: ShiftView)
    requires
        keys_unique(v),
        same_key(a, b),
    ensures
        exists|j: int|
            0 <= j < spec_upsert(spec_upsert(v, a), b).len() && #[trigger] spec_upsert(
                spec_upsert(v, a),
                b,
            )[j] == b,
        forall|i: int, j: int|
            0 <= i < j < spec_upsert(spec_upsert(v, a), b).len() ==> !(same_key(
                #[trigger] spec_upsert(spec_upsert(v, a), b)[i],
                b,
            ) && same_key(#[trigger] spec_upsert(spec_upsert(v, a), b)[j], b)),
{
    lemma_key_index(v, a);
    lemma_upsert_keys_unique(v, a);
    let w = spec_upsert(v, a);
    lemma_key_index(w, b);
    lemma_upsert_keys_unique(w, b);
    let u = spec_upsert(w, b);
    let ka = key_index(v, a);
    if ka >= 0 {
        assert(w[ka] == a);
        assert(same_key(w[ka], b));
        assert(key_index(w, b) >= 0);
    } else {
        assert(w.last() == a);
        assert(same_key(w.last(), b));
        assert(key_index(w, b) >= 0);
    }
    let kb = key_index(w, b);
    assert(u[kb] == b);
    assert(same_key(u[kb], b));
    assert forall|i: int, j: int| 0 <= i < j < u.len() implies !(same_key(#[trigger] u[i], b)
        && same_key(#[trigger] u[j], b)) by {
        if same_key(u[i], b) && same_key(u[j], b) {
            assert(same_key(u[i], u[j]));
            assert(keys_unique(u));
        }
    }
}

} // verus!
