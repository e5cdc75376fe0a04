//! Which keyframe tracks the objects of a project still refer to, and which stored
//! tracks may therefore be dropped.
use vstd::prelude::*;
use std::collections::HashSet;
use crate::track_params::{parse_alias, KeyframeTrackParams};

verus! {

broadcast use vstd::std_specs::hash::group_hash_axioms;

/// The banks and tracks that some object of the project refers to.
pub struct UsedKeyframes {
    pub used_bank_ids: HashSet<usize>,
    /// Each at most once.
    pub used_keyframes: Vec<KeyframeTrackParams>,
}

impl UsedKeyframes {
    /// No repeated track.
    pub open spec fn wf(self) -> bool {
        forall|i: int, j: int|
            0 <= i < j < self.used_keyframes@.len() ==> self.used_keyframes@[i]
                != self.used_keyframes@[j]
    }

    /// The tracks referred to, as a set.
    pub open spec fn tracks(self) -> Set<KeyframeTrackParams> {
        self.used_keyframes@.to_set()
    }

    /// Nothing referred to yet.
    pub fn new() -> (r: Self)
        ensures
            r.wf(),
            r.used_bank_ids@ == Set::<usize>::empty(),
            r.tracks() == Set::<KeyframeTrackParams>::empty(),
    {
        let r = UsedKeyframes { used_bank_ids: HashSet::new(), used_keyframes: Vec::new() };
        assert(r.tracks() =~= Set::<KeyframeTrackParams>::empty());
        r
    }

    /// Records the track (and its bank) that the value `alias` of a number item
    /// refers to, if it refers to one.
    pub fn record_alias(&mut self, alias: &str)
        requires
            old(self).wf(),
        ensures
            final(self).wf(),
            match parse_alias(alias@) {
                Some(p) => final(self).used_bank_ids@ == old(self).used_bank_ids@.insert(p.bank_id)
                    && final(self).tracks() == old(self).tracks().insert(p),
                None => *final(self) == *old(self),
            },
    {
        if let Some(params) = KeyframeTrackParams::parse(alias) {
            self.used_bank_ids.insert(params.bank_id);
            let mut i: usize = 0;
            let mut found = false;
            while i < self.used_keyframes.len()
                invariant
                    i <= self.used_keyframes@.len(),
                    found == exists|j: int| 0 <= j < i && self.used_keyframes@[j] == params,
                decreases self.used_keyframes@.len() - i,
            {
                if self.used_keyframes[i] == params {
                    found = true;
                }
                i = i + 1;
            }
            let ghost before = self.used_keyframes@;
            if !found {
                self.used_keyframes.push(params);
                proof {
                    assert(self.tracks() =~= before.to_set().insert(params)) by {
                        assert forall|x: KeyframeTrackParams| #[trigger] self.tracks().contains(x)
                            <==> before.to_set().insert(params).contains(x) by {
                            if before.contains(x) {
                                let k = choose|k: int| 0 <= k < before.len() && before[k] == x;
                                assert(self.used_keyframes@[k] == x);
                            }
                            if self.used_keyframes@.contains(x) && x != params {
                                let k = choose|k: int| 0 <= k < self.used_keyframes@.len() && self.used_keyframes@[k] == x;
                                assert(before[k] == x);
                            }
                            if x == params {
                                assert(self.used_keyframes@[before.len() as int] == params);
                            }
                        }
                    }
                }
            } else {
                proof {
                    let k = choose|k: int| 0 <= k < before.len() && before[k] == params;
                    assert(before.to_set().contains(params));
                    assert(self.tracks() =~= before.to_set().insert(params));
                }
            }
        }
    }

    /// Whether a stored track may stay: its bank is not one any object refers to
    /// (the scene is not loaded), it belongs to the current bank, or some object
    /// refers to it.
    pub fn keeps(&self, params: &KeyframeTrackParams, current_bank_id: usize) -> (r: bool)
        requires
            self.wf(),
        ensures
            r == (!self.used_bank_ids@.contains(params.bank_id) || params.bank_id == current_bank_id
                || self.tracks().contains(*params)),
    {
        if !self.used_bank_ids.contains(&params.bank_id) || params.bank_id == current_bank_id {
            return true;
        }
        let mut i: usize = 0;
        while i < self.used_keyframes.len()
            invariant
                i <= self.used_keyframes@.len(),
                forall|j: int| 0 <= j < i ==> self.used_keyframes@[j] != *params,
            decreases self.used_keyframes@.len() - i,
        {
            if self.used_keyframes[i] == *params {
                assert(self.used_keyframes@.contains(*params));
                return true;
            }
            i = i + 1;
        }
        assert(!self.used_keyframes@.contains(*params));
        false
    }
}

/// A track that some object refers to is never dropped: once the alias that names
/// it is recorded, [`UsedKeyframes::keeps`] holds for it whatever the current bank.
pub proof fn lemma_recorded_track_kept(before: UsedKeyframes, after: UsedKeyframes, alias: Seq<char>, current_bank_id: usize)
    requires
        parse_alias(alias) is Some,
        after.used_bank_ids@ == before.used_bank_ids@.insert(parse_alias(alias)->0.bank_id),
        after.tracks() == before.tracks().insert(parse_alias(alias)->0),
    ensures
        !after.used_bank_ids@.contains(parse_alias(alias)->0.bank_id) || parse_alias(alias)->0.bank_id
            == current_bank_id || after.tracks().contains(parse_alias(alias)->0),
{
}

} // verus!
