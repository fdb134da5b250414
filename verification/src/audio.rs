//! Track slots of the audio mixer.

use vstd::prelude::*;

verus! {

/// The first empty slot of `tracks`, if any.
pub open spec fn first_empty<T>(tracks: Seq<Option<T>>) -> Option<int> {
    if exists|i: int| 0 <= i < tracks.len() && tracks[i] is None {
        Some(choose|i: int| 0 <= i < tracks.len() && tracks[i] is None && forall|j: int| 0 <= j < i ==> tracks[j] is Some)
    } else {
        None
    }
}

/// The slots `after` and index `idx` after adding `track` to the slots
/// `before`: the first empty slot takes it, or else a new slot at the end.
pub open spec fn track_added<T>(before: Seq<Option<T>>, after: Seq<Option<T>>, track: T, idx: int) -> bool {
    match first_empty(before) {
        Some(i) => idx == i && after == before.update(i, Some(track)),
        None => idx == before.len() && after == before.push(Some(track)),
    }
}

/// An added track is found at the index that adding it returns, every other
/// slot keeps its track, and no slot is lost.
pub proof fn lemma_added_track_is_found<T>(before: Seq<Option<T>>, after: Seq<Option<T>>, track: T, idx: int)
    requires
        track_added(before, after, track, idx),
    ensures
        0 <= idx < after.len(),
        after[idx] == Some(track),
        after.len() >= before.len(),
        forall|j: int| 0 <= j < before.len() && j != idx ==> after[j] == before[j],
        idx < before.len() ==> before[idx] is None,
{
    if exists|i: int| 0 <= i < before.len() && before[i] is None {
        lemma_first_empty_exists(before);
    }
}

/// A sequence with an empty slot has a first one.
proof fn lemma_first_empty_exists<T>(s: Seq<Option<T>>)
    requires
        exists|i: int| 0 <= i < s.len() && s[i] is None,
    ensures
        exists|i: int| 0 <= i < s.len() && s[i] is None && forall|j: int| 0 <= j < i ==> s[j] is Some,
    decreases s.len(),
{
    let d = s.drop_last();
    if exists|i: int| 0 <= i < d.len() && d[i] is None {
        lemma_first_empty_exists(d);
        let i = choose|i: int| 0 <= i < d.len() && d[i] is None && forall|j: int| 0 <= j < i ==> d[j] is Some;
        assert(s[i] is None);
        assert forall|j: int| 0 <= j < i implies s[j] is Some by {
            assert(d[j] is Some);
        }
    } else {
        let k = choose|k: int| 0 <= k < s.len() && s[k] is None;
        if k < s.len() - 1 {
            assert(d[k] is None);
        }
        assert forall|j: int| 0 <= j < s.len() - 1 implies s[j] is Some by {
            if s[j] is None {
                assert(d[j] is None);
            }
        }
        assert(s[s.len() - 1] is None);
    }
}

/// Manages the tracks that are mixed together. Slots of removed tracks are
/// left empty and refilled first.
pub struct AudioMixer<T> {
    /// The track slots; `None` marks an empty slot.
    pub tracks: Vec<Option<T>>,
    /// Output sample rate (usually 48000 Hz).
    pub sample_rate: u32,
}

impl<T> AudioMixer<T> {
    /// Creates a mixer with no tracks at the given sample rate.
    pub fn new(sample_rate: u32) -> (m: Self)
        ensures
            m.tracks@ == Seq::<Option<T>>::empty(),
            m.sample_rate == sample_rate,
    {
        AudioMixer { tracks: Vec::new(), sample_rate }
    }

    /// Adds a track in the first empty slot, or in a new slot at the end, and
    /// returns its index.
    pub fn add_track(&mut self, track: T) -> (idx: usize)
        ensures
            final(self).sample_rate == old(self).sample_rate,
            track_added(old(self).tracks@, final(self).tracks@, track, idx as int),
    {
        let mut i: usize = 0;
        while i < self.tracks.len()
            invariant
                i <= self.tracks@.len(),
                self.tracks@ == old(self).tracks@,
                self.sample_rate == old(self).sample_rate,
                forall|j: int| 0 <= j < i ==> self.tracks@[j] is Some,
            decreases self.tracks@.len() - i,
        {
            let empty = match &self.tracks[i] {
                Some(_) => false,
                None => true,
            };
            if empty {
                proof {
                    let tr = self.tracks@;
                    let c = choose|k: int| 0 <= k < tr.len() && tr[k] is None && forall|j: int| 0 <= j < k ==> tr[j] is Some;
                    assert(0 <= i < tr.len() && tr[i as int] is None);
                    if c < i {
                    } else if c > i {
                        assert(tr[i as int] is Some);
                    }
                    assert(c == i);
                }
                self.tracks.set(i, Some(track));
                return i;
            }
            i += 1;
        }
        let idx = self.tracks.len();
        self.tracks.push(Some(track));
        idx
    }

    /// Returns the track in slot `id` for modification, if there is one.
    pub fn get_track_mut(&mut self, id: usize) -> (r: Option<&mut T>)
        ensures
            final(self).sample_rate == old(self).sample_rate,
            match r {
                Some(t) => {
                    &&& 0 <= id < old(self).tracks@.len()
                    &&& old(self).tracks@[id as int] == Some(*t)
                    &&& final(self).tracks@ == old(self).tracks@.update(id as int, Some(*final(t)))
                },
                None => {
                    &&& !(0 <= id < old(self).tracks@.len() && old(self).tracks@[id as int] is Some)
                    &&& final(self).tracks@ == old(self).tracks@
                },
            },
    {
        if id < self.tracks.len() {
            match &mut self.tracks[id] {
                Some(t) => Some(t),
                None => None,
            }
        } else {
            None
        }
    }
}

} // verus!
