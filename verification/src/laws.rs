//! Store-wide laws: statements that relate several operations, proved
//! once and for all inputs.

use vstd::prelude::*;
use crate::codec::{spec_encode, spec_decode, lemma_decode_encode};
use crate::descriptor::DescV;
use crate::store::{spec_recover, UpdateStore};

verus! {

/// The metadata texts that persisting each descriptor produces.
pub open spec fn encoded_texts(ds: Seq<DescV>) -> Seq<Seq<char>> {
    ds.map_values(|d: DescV| spec_encode(d))
}

/// Registration is observable: after a store's map takes an insert of
/// descriptor `d`, the lookup of `d`'s id yields exactly `d`. Together
/// with `add`'s and `get_message`'s contracts this says that a
/// descriptor handed to `add` is found again, unchanged.
pub proof fn lemma_add_then_get(m: Map<Seq<char>, DescV>, d: DescV)
    ensures
        m.insert(d.id, d).contains_key(d.id),
        m.insert(d.id, d)[d.id] == d,
{
}

/// Recovery round trip: persist any set of descriptors with unique
/// ids, in any order, and a fresh store built from those texts holds
/// exactly the persisted set, id for id and flag for flag.
pub proof fn lemma_recovery_round_trip(ds: Seq<DescV>)
    requires
        forall|i: int| 0 <= i < ds.len() ==> (#[trigger] ds[i]).wf(),
        forall|i: int, j: int| 0 <= i < j < ds.len() ==> ds[i].id != ds[j].id,
    ensures
        forall|i: int| 0 <= i < ds.len() ==> spec_recover(encoded_texts(ds)).contains_key(
            (#[trigger] ds[i]).id,
        ),
        forall|i: int| 0 <= i < ds.len() ==> spec_recover(encoded_texts(ds))[(
        #[trigger] ds[i]).id] == ds[i],
        forall|k: Seq<char>| #[trigger] spec_recover(encoded_texts(ds)).contains_key(k)
            ==> exists|i: int| 0 <= i < ds.len() && (#[trigger] ds[i]).id == k,
    decreases ds.len(),
{
    let texts = encoded_texts(ds);
    if ds.len() == 0 {
    } else {
        let ds0 = ds.drop_last();
        let texts0 = encoded_texts(ds0);
        assert(texts.drop_last() =~= texts0);
        assert(forall|i: int| 0 <= i < ds0.len() ==> (#[trigger] ds0[i]) == ds[i]);
        lemma_recovery_round_trip(ds0);
        lemma_decode_encode(ds.last());
        assert(texts.last() == spec_encode(ds.last()));
        let m0 = spec_recover(texts0);
        let m = spec_recover(texts);
        assert(m == m0.insert(ds.last().id, ds.last()));
        assert(forall|i: int| 0 <= i < ds.len() - 1 ==> ds[i].id != ds.last().id);
        assert forall|i: int| 0 <= i < ds.len() implies m.contains_key((#[trigger] ds[i]).id)
            && m[ds[i].id] == ds[i] by {
            if i < ds.len() - 1 {
                assert(ds0[i] == ds[i]);
                assert(m0.contains_key(ds[i].id) && m0[ds[i].id] == ds[i]);
                assert(ds[i].id != ds.last().id);
            }
        }
        assert forall|k: Seq<char>| #![auto] m.contains_key(k) implies exists|i: int|
            0 <= i < ds.len() && (#[trigger] ds[i]).id == k by {
            if k == ds.last().id {
                assert(ds[ds.len() - 1].id == k);
            } else {
                assert(m0.contains_key(k));
            }
        }
    }
}

/// A corrupted metadata text never hides a valid one: if entry `i`
/// parses to the well-formed descriptor `d`, and no other entry parses
/// to a well-formed descriptor with the same id, then recovery holds
/// `d` under its id — whatever the other entries contain.
pub proof fn lemma_recovery_skips_bad(texts: Seq<Seq<char>>, i: int, d: DescV)
    requires
        0 <= i < texts.len(),
        spec_decode(texts[i]) == Some(d),
        d.wf(),
        forall|j: int| 0 <= j < texts.len() && j != i ==> match spec_decode(#[trigger] texts[j]) {
            Some(e) => e.wf() ==> e.id != d.id,
            None => true,
        },
    ensures
        spec_recover(texts).contains_key(d.id),
        spec_recover(texts)[d.id] == d,
    decreases texts.len(),
{
    if i == texts.len() - 1 {
    } else {
        let texts0 = texts.drop_last();
        assert(forall|j: int| 0 <= j < texts0.len() ==> (#[trigger] texts0[j]) == texts[j]);
        lemma_recovery_skips_bad(texts0, i, d);
        match spec_decode(texts.last()) {
            Some(e) => {
                if e.wf() {
                    assert(texts[texts.len() - 1] == texts.last());
                    assert(e.id != d.id);
                }
            },
            None => {},
        }
    }
}


/// The transition order cannot be skipped: in every well-formed store
/// state, a descriptor marked applied is also marked retrieved, so no
/// path through retrieve and extract reaches `applied` without having
/// passed `retrieved`.
pub proof fn lemma_no_skipped_transition(s: UpdateStore, id: Seq<char>)
    requires
        s.inv(),
        s@.contains_key(id),
    ensures
        s@[id].applied ==> s@[id].retrieved,
{
    crate::store::lemma_map_of_wf(s, id);
}

} // verus!
