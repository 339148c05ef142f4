//! The life of a world: it accepts preclaims, its preclaims are closed, it
//! is tracked, and it is gone.

use vstd::prelude::*;

use crate::finish::{not_named, pre_not_named};
use crate::resolver::pre_world_named;
use crate::scrape::tracked_named;
use crate::seqs::lemma_filter_members;
use crate::store::{first_index, lemma_first_index, lemma_first_index_found};
use crate::store::{Store, StoreView};
use crate::tracking::{SlotData, TrackOptions};

verus! {

/// Where a world stands in its life.
#[derive(Debug, PartialEq, Eq, Clone, Copy, Structural)]
pub enum Phase {
    /// There is no world of that name: none was created yet, or it was
    /// cancelled or finished.
    Gone,
    /// The world accepts preclaims.
    PreTracking,
    /// The preclaims of the world are resolved.
    PreclaimsClosed,
    /// The world is being played.
    Active,
}

impl StoreView {
    /// Where the world `name` stands in its life.
    pub open spec fn phase(self, name: Seq<char>) -> Phase {
        if self.tracked_world_named(name) is Some {
            Phase::Active
        } else {
            match self.pre_world(name) {
                Some(w) => if w.resolved_preclaims {
                    Phase::PreclaimsClosed
                } else {
                    Phase::PreTracking
                },
                None => Phase::Gone,
            }
        }
    }

    /// Resolving the preclaims of a world that accepts preclaims closes
    /// them, whoever wins.
    pub proof fn lemma_resolution_closes(self, name: Seq<char>, winners: Seq<(i64, i64)>)
        requires
            self.wf(),
            self.phase(name) == Phase::PreTracking,
        ensures
            self.after_resolution(name, winners).phase(name) == Phase::PreclaimsClosed,
    {
        let post = self.after_resolution(name, winners);
        self.lemma_resolution_keeps_worlds(name, winners);
        lemma_first_index_found(self.worlds, pre_world_named(name));
        let k = first_index(self.worlds, pre_world_named(name));
        assert forall|j: int| 0 <= j < k implies !pre_world_named(name)(#[trigger] post.worlds[j]) by {
            assert(!pre_world_named(name)(self.worlds[j]));
        }
        lemma_first_index(post.worlds, pre_world_named(name), k);
    }

    /// A world whose preclaims are closed never accepts preclaims again by
    /// being resolved once more.
    pub proof fn lemma_resolution_stays_closed(self, name: Seq<char>, other: Seq<char>, winners: Seq<(i64, i64)>)
        requires
            self.wf(),
            self.phase(name) == Phase::PreclaimsClosed,
        ensures
            self.after_resolution(other, winners).phase(name) == Phase::PreclaimsClosed,
    {
        let post = self.after_resolution(other, winners);
        self.lemma_resolution_keeps_worlds(other, winners);
        lemma_first_index_found(self.worlds, pre_world_named(name));
        let k = first_index(self.worlds, pre_world_named(name));
        assert forall|j: int| 0 <= j < k implies !pre_world_named(name)(#[trigger] post.worlds[j]) by {
            assert(!pre_world_named(name)(self.worlds[j]));
        }
        lemma_first_index(post.worlds, pre_world_named(name), k);
    }

    /// A world that was tracked is being played.
    pub proof fn lemma_tracking_activates(
        self,
        post: StoreView,
        name: Seq<char>,
        reality: Option<Seq<char>>,
        import: Seq<char>,
        options: TrackOptions,
        data: Seq<(String, SlotData)>,
    )
        requires
            self.tracks_to(post, name, reality, import, options, data),
        ensures
            post.phase(name) == Phase::Active,
    {
        lemma_first_index_found(post.tracked_worlds, tracked_named(name));
        let k = first_index(post.tracked_worlds, tracked_named(name));
        if k >= post.tracked_worlds.len() {
            assert(tracked_named(name)(post.tracked_worlds[post.tracked_worlds.len() - 1]));
        }
    }

    /// A world that was finished is gone, and so is what was left of it
    /// from before it was tracked.
    pub proof fn lemma_finish_ends(self, name: Seq<char>)
        requires
            !self.finish_fails(name),
        ensures
            self.after_finish(name).phase(name) == Phase::Gone,
    {
        let post = self.after_finish(name);
        lemma_filter_members(self.tracked_worlds, not_named(name));
        lemma_filter_members(self.worlds, pre_not_named(name));
        lemma_first_index_found(post.tracked_worlds, tracked_named(name));
        lemma_first_index_found(post.worlds, pre_world_named(name));
        let k = first_index(post.tracked_worlds, tracked_named(name));
        if k < post.tracked_worlds.len() {
            assert(not_named(name)(post.tracked_worlds[k]));
        }
        let j = first_index(post.worlds, pre_world_named(name));
        if j < post.worlds.len() {
            assert(pre_not_named(name)(post.worlds[j]));
        }
    }

    /// A world whose preclaims are cancelled before it is tracked is gone.
    pub proof fn lemma_cancel_ends(self, name: Seq<char>)
        requires
            self.phase(name) != Phase::Active,
        ensures
            self.after_cancel(name).phase(name) == Phase::Gone,
    {
        let post = self.after_cancel(name);
        lemma_filter_members(self.worlds, pre_not_named(name));
        lemma_first_index_found(post.worlds, pre_world_named(name));
        let j = first_index(post.worlds, pre_world_named(name));
        if j < post.worlds.len() {
            assert(pre_not_named(name)(post.worlds[j]));
        }
    }
}

impl Store {
    /// Where the world `name` stands in its life.
    pub fn phase_of(&self, name: &str) -> (phase: Phase)
        ensures
            phase == self@.phase(name@),
    {
        let world_name = name.to_owned();
        if self.find_tracked_world_named(&world_name).is_some() {
            return Phase::Active;
        }
        match self.find_pre_world(&world_name) {
            Some(k) => if self.worlds[k].resolved_preclaims {
                Phase::PreclaimsClosed
            } else {
                Phase::PreTracking
            },
            None => Phase::Gone,
        }
    }
}

} // verus!
