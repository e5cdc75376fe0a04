//! Keeping keyframe tracks and the effects bound to them one-to-one.
//!
//! Every number item whose alias names a track is a binding. When two effects name
//! the same track, or the stored track no longer has one boundary per section of
//! its object, the binding is moved to a track of its own. A reconciliation pass
//! walks the bindings track by track; for each binding it first decides from what
//! it has seen so far ([`BindingReconciler::check_binding`]), and, when that is not
//! enough, from the stored track and the object's sections
//! ([`BindingReconciler::check_stored`]).
use vstd::prelude::*;
use crate::track_params::{draw, KeyframeTrackParams, TrackIdCounter};

verus! {

/// The map that an association list (keys at most once) stands for.
pub open spec fn assoc_map<V>(entries: Seq<(KeyframeTrackParams, V)>) -> Map<KeyframeTrackParams, V>
    decreases entries.len(),
{
    if entries.len() == 0 {
        Map::empty()
    } else {
        assoc_map(entries.drop_last()).insert(entries.last().0, entries.last().1)
    }
}

/// No key occurs twice.
pub open spec fn unique_keys<V>(entries: Seq<(KeyframeTrackParams, V)>) -> bool {
    forall|i: int, j: int| 0 <= i < j < entries.len() ==> entries[i].0 != entries[j].0
}

/// A key is in the map of an association list exactly when some entry has it, and
/// then it maps to that entry's value.
proof fn lemma_assoc_lookup<V>(entries: Seq<(KeyframeTrackParams, V)>, k: KeyframeTrackParams)
    requires
        unique_keys(entries),
    ensures
        assoc_map(entries).contains_key(k) <==> exists|i: int| 0 <= i < entries.len() && entries[i].0 == k,
        forall|i: int| 0 <= i < entries.len() && entries[i].0 == k ==> assoc_map(entries)[k] == entries[i].1,
    decreases entries.len(),
{
    if entries.len() > 0 {
        let rest = entries.drop_last();
        assert(unique_keys(rest));
        lemma_assoc_lookup(rest, k);
        if exists|i: int| 0 <= i < entries.len() && entries[i].0 == k {
            let i = choose|i: int| 0 <= i < entries.len() && entries[i].0 == k;
            if i < rest.len() {
                assert(rest[i].0 == k);
            }
        }
        if assoc_map(rest).contains_key(k) {
            let i = choose|i: int| 0 <= i < rest.len() && rest[i].0 == k;
            assert(entries[i].0 == k);
        }
        assert forall|i: int| 0 <= i < entries.len() && entries[i].0 == k implies assoc_map(entries)[k]
            == entries[i].1 by {
            if i < rest.len() {
                assert(rest[i] == entries[i]);
            }
        }
    }
}

/// Replacing the value of an existing key.
proof fn lemma_assoc_update<V>(entries: Seq<(KeyframeTrackParams, V)>, i: int, v: V)
    requires
        unique_keys(entries),
        0 <= i < entries.len(),
    ensures
        unique_keys(entries.update(i, (entries[i].0, v))),
        assoc_map(entries.update(i, (entries[i].0, v))) == assoc_map(entries).insert(entries[i].0, v),
    decreases entries.len(),
{
    let k = entries[i].0;
    let after = entries.update(i, (k, v));
    assert forall|a: int, b: int| 0 <= a < b < after.len() implies after[a].0 != after[b].0 by {
        assert(after[a].0 == entries[a].0);
        assert(after[b].0 == entries[b].0);
    }
    let rest = entries.drop_last();
    if i == entries.len() - 1 {
        assert(after.drop_last() =~= rest);
        assert(assoc_map(after) =~= assoc_map(entries).insert(k, v));
    } else {
        assert(unique_keys(rest));
        lemma_assoc_update(rest, i, v);
        assert(after.drop_last() =~= rest.update(i, (k, v)));
        assert(entries.last().0 != k);
        assert(assoc_map(after) =~= assoc_map(entries).insert(k, v));
    }
}

/// Position of the entry with key `key`, if any.
fn assoc_position<V>(entries: &Vec<(KeyframeTrackParams, V)>, key: &KeyframeTrackParams) -> (r: Option<usize>)
    requires
        unique_keys(entries@),
    ensures
        match r {
            Some(i) => i < entries@.len() && entries@[i as int].0 == *key,
            None => forall|j: int| 0 <= j < entries@.len() ==> entries@[j].0 != *key,
        },
{
    let mut i: usize = 0;
    while i < entries.len()
        invariant
            i <= entries@.len(),
            forall|j: int| 0 <= j < i ==> entries@[j].0 != *key,
        decreases entries@.len() - i,
    {
        if entries[i].0 == *key {
            return Some(i);
        }
        i = i + 1;
    }
    None
}

/// Looks `key` up in an association list.
fn assoc_get<V: Copy>(entries: &Vec<(KeyframeTrackParams, V)>, key: &KeyframeTrackParams) -> (r: Option<V>)
    requires
        unique_keys(entries@),
    ensures
        match r {
            Some(v) => assoc_map(entries@).contains_key(*key) && assoc_map(entries@)[*key] == v,
            None => !assoc_map(entries@).contains_key(*key),
        },
{
    proof { lemma_assoc_lookup(entries@, *key); }
    match assoc_position(entries, key) {
        Some(i) => Some(entries[i].1),
        None => None,
    }
}

/// Sets `key` to `value` in an association list.
fn assoc_put<V: Copy>(entries: &mut Vec<(KeyframeTrackParams, V)>, key: KeyframeTrackParams, value: V)
    requires
        unique_keys(old(entries)@),
    ensures
        unique_keys(final(entries)@),
        assoc_map(final(entries)@) == assoc_map(old(entries)@).insert(key, value),
{
    match assoc_position(entries, &key) {
        Some(i) => {
            proof { lemma_assoc_update(entries@, i as int, value); }
            entries.set(i, (key, value));
        },
        None => {
            let ghost before = entries@;
            entries.push((key, value));
            assert(entries@.drop_last() =~= before);
        },
    }
}

/// What to do with a binding once what has been seen so far is considered.
#[derive(Debug, Clone, Copy, PartialEq, Eq, Structural)]
pub enum BindingAction {
    /// Its track's migration was already dealt with: leave it alone.
    Skip,
    /// Another effect already uses its track: bind it to `new_params`, carrying the
    /// stored keyframes over.
    SplitDuplicate { new_params: KeyframeTrackParams },
    /// Its track has no identifiers yet: bind it to `new_params`.
    AssignNew { new_params: KeyframeTrackParams },
    /// Decide from the stored track and the object's sections.
    CheckStored,
}

/// What to do with a binding once its stored track and its object are considered.
#[derive(Debug, Clone, Copy, PartialEq, Eq, Structural)]
pub enum StoredAction {
    /// No track is stored under its identifiers: store a new one.
    Register,
    /// The stored track has the wrong number of boundaries: store it resized under
    /// `new_params` and bind the binding there.
    MigrateResized { new_params: KeyframeTrackParams },
    /// All is well.
    Keep,
}

/// What a reconciliation pass has learnt so far.
pub struct BindingReconciler {
    /// For each track seen, the effect (as numbered by the caller) it belongs to.
    pub param_to_effect: Vec<(KeyframeTrackParams, usize)>,
    /// For each track moved, the identifiers it moves to.
    pub migrations: Vec<(KeyframeTrackParams, KeyframeTrackParams)>,
}

impl BindingReconciler {
    pub open spec fn wf(self) -> bool {
        unique_keys(self.param_to_effect@) && unique_keys(self.migrations@)
    }

    /// The effect each track belongs to.
    pub open spec fn owners(self) -> Map<KeyframeTrackParams, usize> {
        assoc_map(self.param_to_effect@)
    }

    /// Where each moved track goes.
    pub open spec fn targets(self) -> Map<KeyframeTrackParams, KeyframeTrackParams> {
        assoc_map(self.migrations@)
    }

    /// Where `params` moves: where it already moves, or newly drawn identifiers.
    pub open spec fn target_of(
        self,
        params: KeyframeTrackParams,
        counter: TrackIdCounter,
    ) -> (KeyframeTrackParams, TrackIdCounter) {
        if self.targets().contains_key(params) {
            (self.targets()[params], counter)
        } else {
            draw(counter)
        }
    }

    /// Whether the first check of a binding of `params` (owned by `effect`) draws new
    /// identifiers.
    pub open spec fn check_draws(self, params: KeyframeTrackParams, effect: usize, resolved: bool) -> bool {
        !resolved && if self.owners().contains_key(params) && self.owners()[params] != effect {
            !self.targets().contains_key(params)
        } else {
            params.bank_id == 0
        }
    }

    /// Nothing learnt yet.
    pub fn new() -> (r: Self)
        ensures
            r.wf(),
            r.owners() == Map::<KeyframeTrackParams, usize>::empty(),
            r.targets() == Map::<KeyframeTrackParams, KeyframeTrackParams>::empty(),
    {
        BindingReconciler { param_to_effect: Vec::new(), migrations: Vec::new() }
    }

    fn target(&mut self, params: KeyframeTrackParams, counter: &mut TrackIdCounter) -> (r: KeyframeTrackParams)
        requires
            old(self).wf(),
            !old(self).targets().contains_key(params) ==> old(counter).next_keyframes_id < usize::MAX,
        ensures
            final(self).wf(),
            (r, *final(counter)) == old(self).target_of(params, *old(counter)),
            final(self).owners() == old(self).owners(),
            final(self).targets() == old(self).targets().insert(params, r),
    {
        match assoc_get(&self.migrations, &params) {
            Some(t) => {
                assert(old(self).targets().insert(params, t) =~= old(self).targets());
                t
            },
            None => {
                let t = KeyframeTrackParams::new(counter);
                assoc_put(&mut self.migrations, params, t);
                t
            },
        }
    }

    /// First check of a binding of the track `params`, which belongs to the effect
    /// numbered `effect`; `resolved` says whether the track's migration was already
    /// dealt with.
    pub fn check_binding(
        &mut self,
        params: KeyframeTrackParams,
        effect: usize,
        resolved: bool,
        counter: &mut TrackIdCounter,
    ) -> (r: BindingAction)
        requires
            old(self).wf(),
            old(self).check_draws(params, effect, resolved) ==> old(counter).next_keyframes_id < usize::MAX,
        ensures
            final(self).wf(),
            final(self).owners() == old(self).owners(),
            resolved ==> r == BindingAction::Skip && final(self).targets() == old(self).targets()
                && *final(counter) == *old(counter),
            !resolved && old(self).owners().contains_key(params) && old(self).owners()[params]
                != effect ==> {
                let (t, c) = old(self).target_of(params, *old(counter));
                &&& r == BindingAction::SplitDuplicate { new_params: t }
                &&& *final(counter) == c
                &&& final(self).targets() == old(self).targets().insert(params, t)
            },
            !resolved && !(old(self).owners().contains_key(params) && old(self).owners()[params]
                != effect) && params.bank_id == 0 ==> {
                let (t, c) = draw(*old(counter));
                &&& r == BindingAction::AssignNew { new_params: t }
                &&& *final(counter) == c
                &&& final(self).targets() == old(self).targets()
            },
            !resolved && !(old(self).owners().contains_key(params) && old(self).owners()[params]
                != effect) && params.bank_id != 0 ==> r == BindingAction::CheckStored
                && final(self).targets() == old(self).targets() && *final(counter) == *old(counter),
    {
        if resolved {
            return BindingAction::Skip;
        }
        let owner = assoc_get(&self.param_to_effect, &params);
        let other_owner = match owner {
            Some(e) => e != effect,
            None => false,
        };
        if other_owner {
            let t = self.target(params, counter);
            BindingAction::SplitDuplicate { new_params: t }
        } else if params.bank_id == 0 {
            BindingAction::AssignNew { new_params: KeyframeTrackParams::new(counter) }
        } else {
            BindingAction::CheckStored
        }
    }

    /// Second check of a binding of `params` (owned by `effect`), given the number
    /// of boundaries of the stored track (if one is stored) and of the object
    /// (its sections plus one). The track then belongs to `effect`.
    pub fn check_stored(
        &mut self,
        params: KeyframeTrackParams,
        effect: usize,
        stored_len: Option<usize>,
        num_keyframes: usize,
        counter: &mut TrackIdCounter,
    ) -> (r: StoredAction)
        requires
            old(self).wf(),
            stored_len matches Some(n) && n != num_keyframes && !old(self).targets().contains_key(
                params,
            ) ==> old(counter).next_keyframes_id < usize::MAX,
        ensures
            final(self).wf(),
            final(self).owners() == old(self).owners().insert(params, effect),
            stored_len is None ==> r == StoredAction::Register && final(self).targets()
                == old(self).targets() && *final(counter) == *old(counter),
            stored_len matches Some(n) && n != num_keyframes ==> {
                let (t, c) = old(self).target_of(params, *old(counter));
                &&& r == StoredAction::MigrateResized { new_params: t }
                &&& *final(counter) == c
                &&& final(self).targets() == old(self).targets().insert(params, t)
            },
            stored_len matches Some(n) && n == num_keyframes ==> r == StoredAction::Keep
                && final(self).targets() == old(self).targets() && *final(counter) == *old(counter),
    {
        let r = match stored_len {
            None => StoredAction::Register,
            Some(n) => if n != num_keyframes {
                let t = self.target(params, counter);
                StoredAction::MigrateResized { new_params: t }
            } else {
                StoredAction::Keep
            },
        };
        assoc_put(&mut self.param_to_effect, params, effect);
        r
    }
}

} // verus!
