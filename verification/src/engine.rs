//! The playback engine: the queue of entries, the playback cursors, and
//! every transport operation as an atomic state transition. Each
//! operation returns the one command the audio backend must be given so
//! that the loaded track always matches `current_track`.

use vstd::prelude::*;
use vstd::seq_lib::*;
use vstd::set_lib::*;
use rand::seq::SliceRandom;
use crate::library::LibraryIndex;
use crate::library::group_key;
use crate::library::rank_pair_ok;
use crate::track::track_key;

verus! {

/// One slot of the play queue: a track picked out of the library by its
/// stable index, paired with an id that survives reordering.
#[derive(Clone, Copy, PartialEq, Eq, Structural, Debug, Hash)]
pub struct QueueEntry {
    /// Index of the track in the library's flat track list.
    pub track: usize,
    /// Monotonically increasing id, distinct per entry, never reassigned.
    pub uid: usize,
}

/// The one command an operation asks of the audio backend.
#[derive(Clone, Copy, PartialEq, Eq, Structural, Debug)]
pub enum AudioAction {
    /// Clear the buffer, open this track's file, start playing it.
    Load(usize),
    /// Resume the paused buffer.
    Resume,
    /// Pause the buffer where it stands.
    Pause,
    /// Clear the buffer and play nothing.
    ClearBuffer,
    /// Seek the playing track back to its start.
    SeekToStart,
}

/// The mathematical value of the engine's state.
pub struct EngineView {
    pub playing: bool,
    pub current_track: Option<usize>,
    pub queue: Seq<QueueEntry>,
    pub next_uid: usize,
    pub queue_pos: usize,
    pub progress: u32,
}

/// Playback progress through the current track, in thousandths of its
/// duration. A track of unknown (zero) duration yields zero rather than
/// a division by zero, and a lagging duration never pushes the value
/// past one.
pub fn progress_permille(elapsed_ms: u64, duration_ms: u64) -> (p: u32)
    ensures
        p == spec_progress(elapsed_ms, duration_ms),
        p <= 1000,
{
    if duration_ms == 0 {
        0
    } else {
        let scaled: u128 = (elapsed_ms as u128) * 1000 / (duration_ms as u128);
        if scaled >= 1000 {
            1000
        } else {
            scaled as u32
        }
    }
}

/// What `progress_permille` returns: the elapsed fraction in
/// thousandths, clamped to one, and zero when the duration is unknown.
pub open spec fn spec_progress(elapsed_ms: u64, duration_ms: u64) -> u32 {
    if duration_ms == 0 {
        0u32
    } else if elapsed_ms * 1000 / (duration_ms as int) >= 1000 {
        1000u32
    } else {
        (elapsed_ms * 1000 / (duration_ms as int)) as u32
    }
}

/// Whether a presence update is owed after a tick: something must be
/// playing and the loaded track must differ from the last one reported.
pub fn should_refresh_presence(before: Option<usize>, current: Option<usize>, playing: bool) -> (r:
    bool)
    ensures
        r == (playing && (before is None || before != current)),
{
    playing && (match (before, current) {
        (Option::None, _) => true,
        (Option::Some(b), Option::Some(c)) => b != c,
        (Option::Some(_), Option::None) => true,
    })
}

/// Every entry of `new_q` either already stood in `old_q` or carries a
/// uid that had not been handed out before `bound`: once issued, a uid
/// never switches to a different track.
pub open spec fn entries_preserved(
    old_q: Seq<QueueEntry>,
    new_q: Seq<QueueEntry>,
    bound: usize,
) -> bool {
    forall|e: QueueEntry| #[trigger] new_q.contains(e) ==> old_q.contains(e) || e.uid >= bound
}

/// The uids present in a queue.
pub open spec fn uid_set(q: Seq<QueueEntry>) -> Set<usize> {
    Set::new(|u: usize| exists|i: int| 0 <= i < q.len() && (#[trigger] q[i]).uid == u)
}

/// The playback engine. `queue_pos` is the slot playback advances from;
/// `current_track` is the track whose audio the backend holds right now;
/// the two are distinct pointers that the structural edits re-derive.
pub struct PlaybackEngine {
    /// Whether transport is in the playing state.
    pub playing: bool,
    /// The track loaded in the audio backend, if any.
    pub current_track: Option<usize>,
    /// The play queue, in playback order.
    pub queue: Vec<QueueEntry>,
    /// Uid for the next entry ever enqueued.
    pub next_uid: usize,
    /// The queue slot the engine advances from.
    pub queue_pos: usize,
    /// Display progress through the current track, in thousandths.
    pub progress: u32,
}

impl View for PlaybackEngine {
    type V = EngineView;

    open spec fn view(&self) -> EngineView {
        EngineView {
            playing: self.playing,
            current_track: self.current_track,
            queue: self.queue@,
            next_uid: self.next_uid,
            queue_pos: self.queue_pos,
            progress: self.progress,
        }
    }
}

impl PlaybackEngine {
    /// Every uid in the queue was issued (is below `next_uid`) and no
    /// two entries share one.
    pub open spec fn uids_ok(self) -> bool {
        &&& forall|i: int|
            0 <= i < self.queue@.len() ==> (#[trigger] self.queue@[i]).uid < self.next_uid
        &&& forall|i: int, j: int|
            0 <= i < j < self.queue@.len() ==> (#[trigger] self.queue@[i]).uid != (
            #[trigger] self.queue@[j]).uid
    }

    /// Well-formedness, kept by every operation.
    pub open spec fn wf(self) -> bool {
        &&& self.uids_ok()
        &&& self.queue_pos <= self.queue@.len()
        &&& self.progress <= 1000
    }

    /// Nothing loaded and transport stopped.
    pub open spec fn is_idle(self) -> bool {
        &&& !self.playing
        &&& self.current_track is None
    }

    /// The two cursors agree: either the engine is idle, or the slot at
    /// `queue_pos` names exactly the loaded track.
    pub open spec fn cursor_ok(self) -> bool {
        ||| self.is_idle()
        ||| (match self.current_track {
            Some(t) => self.queue_pos < self.queue@.len() && self.queue@[
                self.queue_pos as int
            ].track == t,
            None => false,
        })
    }

    /// The state the engine starts in and returns to on a clear.
    pub open spec fn initial_view() -> EngineView {
        EngineView {
            playing: false,
            current_track: None,
            queue: Seq::empty(),
            next_uid: 0,
            queue_pos: 0,
            progress: 0,
        }
    }

    /// What `clear_queue` leaves behind, whatever stood before.
    pub open spec fn spec_clear(v: EngineView) -> EngineView {
        Self::initial_view()
    }

    /// A fresh, idle engine with an empty queue.
    pub fn new() -> (e: PlaybackEngine)
        ensures
            e@ == Self::initial_view(),
            e.wf(),
    {
        let e = PlaybackEngine {
            playing: false,
            current_track: None,
            queue: Vec::new(),
            next_uid: 0,
            queue_pos: 0,
            progress: 0,
        };
        proof {
            assert(e@.queue =~= Self::initial_view().queue);
        }
        e
    }

    /// Empties the queue, resets the uid counter and both cursors, and
    /// stops playback; the backend is told to drop its buffer.
    pub fn clear_queue(&mut self) -> (act: AudioAction)
        ensures
            final(self)@ == Self::spec_clear(old(self)@),
            final(self).wf(),
            final(self).is_idle(),
            act == AudioAction::ClearBuffer,
    {
        self.next_uid = 0;
        self.queue_pos = 0;
        self.queue = Vec::new();
        self.current_track = None;
        self.playing = false;
        self.progress = 0;
        proof {
            assert(self@.queue =~= Self::initial_view().queue);
        }
        AudioAction::ClearBuffer
    }

    /// Appends one entry for `track` under a fresh uid; nothing else
    /// moves.
    pub fn enqueue(&mut self, track: usize)
        requires
            old(self).wf(),
            old(self).next_uid < usize::MAX,
        ensures
            final(self).wf(),
            final(self).queue@ == old(self).queue@.push(
                QueueEntry { track, uid: old(self).next_uid },
            ),
            final(self).next_uid == old(self).next_uid + 1,
            final(self).playing == old(self).playing,
            final(self).current_track == old(self).current_track,
            final(self).queue_pos == old(self).queue_pos,
            final(self).progress == old(self).progress,
            entries_preserved(old(self).queue@, final(self).queue@, old(self).next_uid),
    {
        let e = QueueEntry { track, uid: self.next_uid };
        self.next_uid = self.next_uid + 1;
        self.queue.push(e);
        proof {
            let oldq = old(self).queue@;
            let newq = self.queue@;
            assert forall|x: QueueEntry| #[trigger] newq.contains(x) implies oldq.contains(x)
                || x.uid >= old(self).next_uid by {
                let i = choose|i: int| 0 <= i < newq.len() && newq[i] == x;
                if i < oldq.len() {
                    assert(oldq[i] == x);
                }
            }
        }
    }

    /// Loads `track` at once: the backend clears its buffer, opens the
    /// track and plays it; the queue and its cursor are untouched.
    pub fn play_immediately(&mut self, track: usize) -> (act: AudioAction)
        requires
            old(self).wf(),
        ensures
            final(self).wf(),
            final(self).playing,
            final(self).current_track == Some(track),
            final(self).progress == 0,
            final(self).queue@ == old(self).queue@,
            final(self).next_uid == old(self).next_uid,
            final(self).queue_pos == old(self).queue_pos,
            act == AudioAction::Load(track),
    {
        self.current_track = Some(track);
        self.playing = true;
        self.progress = 0;
        AudioAction::Load(track)
    }

    /// Starts or resumes playback: an empty queue leaves the engine
    /// idle; a cursor past the end wraps to the head and loads it; with
    /// nothing loaded the entry at the cursor is loaded; otherwise the
    /// paused buffer resumes.
    pub fn play(&mut self) -> (act: Option<AudioAction>)
        requires
            old(self).wf(),
        ensures
            final(self).wf(),
            final(self).queue@ == old(self).queue@,
            final(self).next_uid == old(self).next_uid,
            old(self).queue@.len() == 0 ==> {
                &&& !final(self).playing
                &&& final(self).current_track == old(self).current_track
                &&& final(self).queue_pos == old(self).queue_pos
                &&& final(self).progress == old(self).progress
                &&& act is None
            },
            old(self).queue@.len() > 0 && old(self).queue_pos >= old(self).queue@.len() ==> {
                &&& final(self).queue_pos == 0
                &&& final(self).playing
                &&& final(self).current_track == Some(old(self).queue@[0].track)
                &&& final(self).progress == 0
                &&& act == Some(AudioAction::Load(old(self).queue@[0].track))
            },
            old(self).queue@.len() > 0 && old(self).queue_pos < old(self).queue@.len() && old(
                self,
            ).current_track is None ==> {
                &&& final(self).queue_pos == old(self).queue_pos
                &&& final(self).playing
                &&& final(self).current_track == Some(
                    old(self).queue@[old(self).queue_pos as int].track,
                )
                &&& final(self).progress == 0
                &&& act == Some(
                    AudioAction::Load(old(self).queue@[old(self).queue_pos as int].track),
                )
            },
            old(self).queue@.len() > 0 && old(self).queue_pos < old(self).queue@.len() && old(
                self,
            ).current_track is Some ==> {
                &&& final(self).queue_pos == old(self).queue_pos
                &&& final(self).playing
                &&& final(self).current_track == old(self).current_track
                &&& final(self).progress == old(self).progress
                &&& act == Some(AudioAction::Resume)
            },
    {
        if self.queue.len() == 0 {
            self.playing = false;
            return None;
        }
        if self.queue_pos >= self.queue.len() {
            self.queue_pos = 0;
            let t = self.queue[0].track;
            return Some(self.play_immediately(t));
        }
        if self.current_track.is_none() {
            let t = self.queue[self.queue_pos].track;
            return Some(self.play_immediately(t));
        }
        self.playing = true;
        Some(AudioAction::Resume)
    }

    /// Pauses the backend and keeps its position; only the transport
    /// flag changes.
    pub fn pause(&mut self) -> (act: AudioAction)
        requires
            old(self).wf(),
        ensures
            final(self).wf(),
            !final(self).playing,
            final(self).current_track == old(self).current_track,
            final(self).queue@ == old(self).queue@,
            final(self).next_uid == old(self).next_uid,
            final(self).queue_pos == old(self).queue_pos,
            final(self).progress == old(self).progress,
            act == AudioAction::Pause,
    {
        self.playing = false;
        AudioAction::Pause
    }

    /// Advances on the buffer-empty signal: progress resets; a playing
    /// engine steps its cursor forward; the entry now at the cursor is
    /// loaded, or, with the queue exhausted, the engine stops with
    /// nothing loaded.
    pub fn play_next(&mut self) -> (act: Option<AudioAction>)
        requires
            old(self).wf(),
        ensures
            final(self).wf(),
            final(self).queue@ == old(self).queue@,
            final(self).next_uid == old(self).next_uid,
            old(self).queue@.len() == 0 ==> {
                &&& !final(self).playing
                &&& final(self).current_track == old(self).current_track
                &&& final(self).queue_pos == old(self).queue_pos
                &&& final(self).progress == old(self).progress
                &&& act is None
            },
            old(self).queue@.len() > 0 ==> {
                let np = if old(self).playing {
                    old(self).queue_pos + 1
                } else {
                    old(self).queue_pos as int
                };
                &&& final(self).progress == 0
                &&& (np < old(self).queue@.len() ==> {
                    &&& final(self).queue_pos == np
                    &&& final(self).playing
                    &&& final(self).current_track == Some(old(self).queue@[np].track)
                    &&& act == Some(AudioAction::Load(old(self).queue@[np].track))
                })
                &&& (np >= old(self).queue@.len() ==> {
                    &&& final(self).queue_pos == old(self).queue@.len()
                    &&& !final(self).playing
                    &&& final(self).current_track is None
                    &&& act is None
                })
            },
    {
        if self.queue.len() == 0 {
            self.playing = false;
            return None;
        }
        self.progress = 0;
        if self.playing {
            if self.queue_pos < self.queue.len() {
                self.queue_pos = self.queue_pos + 1;
            }
        }
        if self.queue_pos < self.queue.len() {
            let t = self.queue[self.queue_pos].track;
            Some(self.play_immediately(t))
        } else {
            self.playing = false;
            self.current_track = None;
            None
        }
    }

    /// Skip-to-previous near the start of a track, restart otherwise:
    /// below a tenth of progress and with room to move back, the cursor
    /// steps back and that entry is loaded; in every other case the
    /// current track is asked to seek to its start.
    pub fn back(&mut self) -> (act: AudioAction)
        requires
            old(self).wf(),
        ensures
            final(self).wf(),
            final(self).queue@ == old(self).queue@,
            final(self).next_uid == old(self).next_uid,
            old(self).progress < 100 && old(self).queue_pos > 0 ==> {
                &&& final(self).queue_pos == old(self).queue_pos - 1
                &&& final(self).playing
                &&& final(self).current_track == Some(
                    old(self).queue@[old(self).queue_pos - 1].track,
                )
                &&& final(self).progress == 0
                &&& act == AudioAction::Load(old(self).queue@[old(self).queue_pos - 1].track)
            },
            !(old(self).progress < 100 && old(self).queue_pos > 0) ==> {
                &&& final(self).queue_pos == old(self).queue_pos
                &&& final(self).playing == old(self).playing
                &&& final(self).current_track == old(self).current_track
                &&& final(self).progress == old(self).progress
                &&& act == AudioAction::SeekToStart
            },
    {
        if self.progress < 100 && self.queue_pos > 0 {
            self.queue_pos = self.queue_pos - 1;
            let t = self.queue[self.queue_pos].track;
            self.play_immediately(t)
        } else {
            AudioAction::SeekToStart
        }
    }

    /// Jumps to the queue slot the user clicked and loads its track.
    pub fn play_at(&mut self, pos: usize) -> (act: AudioAction)
        requires
            old(self).wf(),
            pos < old(self).queue@.len(),
        ensures
            final(self).wf(),
            final(self).queue@ == old(self).queue@,
            final(self).next_uid == old(self).next_uid,
            final(self).queue_pos == pos,
            final(self).playing,
            final(self).current_track == Some(old(self).queue@[pos as int].track),
            final(self).progress == 0,
            act == AudioAction::Load(old(self).queue@[pos as int].track),
    {
        self.queue_pos = pos;
        let t = self.queue[pos].track;
        self.play_immediately(t)
    }

    /// Replaces the queue with this one track and plays it: what a click
    /// on a library row does.
    pub fn play_now(&mut self, track: usize) -> (act: AudioAction)
        requires
            old(self).wf(),
            old(self).next_uid < usize::MAX,
        ensures
            final(self).wf(),
            final(self).queue@ == seq![QueueEntry { track, uid: old(self).next_uid }],
            final(self).next_uid == old(self).next_uid + 1,
            final(self).queue_pos == 0,
            final(self).playing,
            final(self).current_track == Some(track),
            final(self).progress == 0,
            final(self).cursor_ok(),
            entries_preserved(old(self).queue@, final(self).queue@, old(self).next_uid),
            act == AudioAction::Load(track),
    {
        self.queue_pos = 0;
        self.queue = Vec::new();
        let e = QueueEntry { track, uid: self.next_uid };
        self.next_uid = self.next_uid + 1;
        self.queue.push(e);
        proof {
            assert(self.queue@ =~= seq![QueueEntry { track, uid: old(self).next_uid }]);
        }
        self.play_immediately(track)
    }

    /// Removes the entry at `at`. Removing the slot the cursor stands on
    /// clears the buffer and, when the shortened queue still has an
    /// entry there and more than one entry remains, loads that entry;
    /// otherwise the engine stops with nothing loaded. Removing an
    /// earlier slot pulls the cursor back by one so it keeps naming the
    /// same entry.
    pub fn remove(&mut self, at: usize) -> (act: Option<AudioAction>)
        requires
            old(self).wf(),
            at < old(self).queue@.len(),
        ensures
            final(self).wf(),
            final(self).queue@ == old(self).queue@.remove(at as int),
            final(self).next_uid == old(self).next_uid,
            entries_preserved(old(self).queue@, final(self).queue@, old(self).next_uid),
            old(self).playing && old(self).cursor_ok() ==> final(self).cursor_ok(),
            at > old(self).queue_pos ==> {
                &&& final(self).queue_pos == old(self).queue_pos
                &&& final(self).playing == old(self).playing
                &&& final(self).current_track == old(self).current_track
                &&& final(self).progress == old(self).progress
                &&& act is None
            },
            at < old(self).queue_pos ==> {
                &&& final(self).queue_pos == old(self).queue_pos - 1
                &&& final(self).playing == old(self).playing
                &&& final(self).current_track == old(self).current_track
                &&& final(self).progress == old(self).progress
                &&& act is None
            },
            at == old(self).queue_pos ==> ({
                let newq = old(self).queue@.remove(at as int);
                if (at as int) < newq.len() && newq.len() > 1 {
                    &&& final(self).queue_pos == old(self).queue_pos
                    &&& final(self).playing
                    &&& final(self).current_track == Some(newq[at as int].track)
                    &&& final(self).progress == 0
                    &&& act == Some(AudioAction::Load(newq[at as int].track))
                } else {
                    &&& final(self).queue_pos == old(self).queue_pos
                    &&& final(self).is_idle()
                    &&& final(self).progress == old(self).progress
                    &&& act == Some(AudioAction::ClearBuffer)
                }
            }),
    {
        let ghost oldq = self.queue@;
        self.queue.remove(at);
        proof {
            oldq.remove_ensures(at as int);
            let newq = self.queue@;
            assert forall|i: int, j: int| 0 <= i < j < newq.len() implies (
            #[trigger] newq[i]).uid != (#[trigger] newq[j]).uid by {
                let i0 = if i < at {
                    i
                } else {
                    i + 1
                };
                let j0 = if j < at {
                    j
                } else {
                    j + 1
                };
                assert(newq[i] == oldq[i0]);
                assert(newq[j] == oldq[j0]);
            }
            assert forall|i: int| 0 <= i < newq.len() implies (#[trigger] newq[i]).uid < old(
                self,
            ).next_uid by {
                let i0 = if i < at {
                    i
                } else {
                    i + 1
                };
                assert(newq[i] == oldq[i0]);
            }
            assert forall|e: QueueEntry| #[trigger] newq.contains(e) implies oldq.contains(e) by {
                let i = choose|i: int| 0 <= i < newq.len() && newq[i] == e;
                let i0 = if i < at {
                    i
                } else {
                    i + 1
                };
                assert(oldq[i0] == e);
            }
        }
        if at == self.queue_pos {
            if self.queue_pos < self.queue.len() && self.queue.len() > 1 {
                let t = self.queue[self.queue_pos].track;
                Some(self.play_immediately(t))
            } else {
                self.playing = false;
                self.current_track = None;
                Some(AudioAction::ClearBuffer)
            }
        } else if at < self.queue_pos {
            proof {
                if old(self).playing && old(self).cursor_ok() {
                    assert(self.queue@[old(self).queue_pos - 1] == oldq[
                        old(self).queue_pos as int
                    ]);
                }
            }
            self.queue_pos = self.queue_pos - 1;
            None
        } else {
            proof {
                if old(self).playing && old(self).cursor_ok() {
                    assert(self.queue@[old(self).queue_pos as int] == oldq[
                        old(self).queue_pos as int
                    ]);
                }
            }
            None
        }
    }

    /// Replaces the queue with a caller-supplied permutation of the same
    /// entries. When something is playing, the cursor is re-derived: it
    /// moves to the first slot of the new order whose track is the
    /// loaded one, so a drag never leaves it tracking the wrong entry.
    pub fn reorder(&mut self, new_queue: Vec<QueueEntry>)
        requires
            old(self).wf(),
            new_queue@.to_multiset() == old(self).queue@.to_multiset(),
        ensures
            final(self).wf(),
            final(self).queue@ == new_queue@,
            final(self).next_uid == old(self).next_uid,
            final(self).playing == old(self).playing,
            final(self).current_track == old(self).current_track,
            final(self).progress == old(self).progress,
            entries_preserved(old(self).queue@, final(self).queue@, old(self).next_uid),
            old(self).playing && old(self).cursor_ok() ==> final(self).cursor_ok(),
            old(self).current_track matches Some(t) ==> ((old(self).playing && exists|i: int|
                0 <= i < new_queue@.len() && (#[trigger] new_queue@[i]).track == t) ==> {
                &&& final(self).queue_pos < new_queue@.len()
                &&& new_queue@[final(self).queue_pos as int].track == t
                &&& forall|j: int|
                    0 <= j < final(self).queue_pos ==> (#[trigger] new_queue@[j]).track != t
            }),
            old(self).current_track matches Some(t) ==> ((old(self).playing && forall|i: int|
                0 <= i < new_queue@.len() ==> (#[trigger] new_queue@[i]).track != t)
                ==> final(self).queue_pos == old(self).queue_pos),
            !old(self).playing ==> final(self).queue_pos == old(self).queue_pos,
            old(self).current_track is None ==> final(self).queue_pos == old(self).queue_pos,
    {
        proof {
            lemma_entry_permutation(old(self).queue@, new_queue@, old(self).next_uid);
        }
        self.queue = new_queue;
        if self.playing {
            match self.current_track {
                Some(t) => {
                    let n = self.queue.len();
                    let mut i: usize = 0;
                    while i < n
                        invariant
                            i <= n,
                            n == self.queue@.len(),
                            self.queue@ == new_queue@,
                            new_queue@.len() == old(self).queue@.len(),
                            self.playing == old(self).playing,
                            self.current_track == old(self).current_track,
                            old(self).current_track == Some(t),
                            self.next_uid == old(self).next_uid,
                            self.progress == old(self).progress,
                            self.queue_pos == old(self).queue_pos,
                            old(self).playing,
                            old(self).wf(),
                            forall|k: int|
                                0 <= k < new_queue@.len() ==> (#[trigger] new_queue@[k]).uid
                                    < old(self).next_uid,
                            forall|k: int, l: int|
                                0 <= k < l < new_queue@.len() ==> (#[trigger] new_queue@[k]).uid
                                    != (#[trigger] new_queue@[l]).uid,
                            forall|e: QueueEntry| #[trigger]
                                new_queue@.contains(e) ==> old(self).queue@.contains(e),
                            forall|j: int|
                                0 <= j < i ==> (#[trigger] self.queue@[j]).track != t,
                        decreases n - i,
                    {
                        if self.queue[i].track == t {
                            self.queue_pos = i;
                            return ;
                        }
                        i = i + 1;
                    }
                    proof {
                        if old(self).playing && old(self).cursor_ok() {
                            let e = old(self).queue@[old(self).queue_pos as int];
                            assert(old(self).queue@.contains(e));
                            lemma_entry_permutation(
                                old(self).queue@,
                                new_queue@,
                                old(self).next_uid,
                            );
                            assert(new_queue@.contains(e));
                            let k = choose|k: int|
                                0 <= k < new_queue@.len() && new_queue@[k] == e;
                            assert(new_queue@[k].track == t);
                            assert(false);
                        }
                    }
                },
                None => {},
            }
        }
    }

    /// Clears the buffer, permutes the queue at random, rewinds the
    /// cursor to the head and plays the entry now standing there. The
    /// entries themselves — and so the set of uids — are exactly the old
    /// ones.
    pub fn shuffle_queue(&mut self) -> (act: AudioAction)
        requires
            old(self).wf(),
            old(self).queue@.len() > 0,
        ensures
            final(self).wf(),
            final(self).queue@.to_multiset() == old(self).queue@.to_multiset(),
            final(self).queue@.len() == old(self).queue@.len(),
            uid_set(final(self).queue@) == uid_set(old(self).queue@),
            final(self).next_uid == old(self).next_uid,
            final(self).queue_pos == 0,
            final(self).playing,
            final(self).current_track == Some(final(self).queue@[0].track),
            final(self).progress == 0,
            final(self).cursor_ok(),
            entries_preserved(old(self).queue@, final(self).queue@, old(self).next_uid),
            act == AudioAction::Load(final(self).queue@[0].track),
    {
        shuffle_entries(&mut self.queue);
        proof {
            lemma_entry_permutation(old(self).queue@, self.queue@, old(self).next_uid);
            lemma_permutation_keeps_uid_set(old(self).queue@, self.queue@);
        }
        self.queue_pos = 0;
        let t = self.queue[0].track;
        self.play_immediately(t)
    }

    /// Rebuilds the queue from every library track under fresh uids and
    /// shuffles it; with an empty library the engine is left idle over
    /// an empty queue.
    pub fn shuffle_play(&mut self, track_count: usize) -> (act: Option<AudioAction>)
        requires
            old(self).wf(),
            old(self).next_uid + track_count <= usize::MAX,
        ensures
            final(self).wf(),
            final(self).next_uid == old(self).next_uid + track_count,
            entries_preserved(old(self).queue@, final(self).queue@, old(self).next_uid),
            track_count == 0 ==> {
                &&& final(self).queue@.len() == 0
                &&& final(self).is_idle()
                &&& final(self).queue_pos == 0
                &&& final(self).progress == 0
                &&& act == Some(AudioAction::ClearBuffer)
            },
            track_count > 0 ==> {
                &&& final(self).queue@.to_multiset() == fresh_entries(
                    old(self).next_uid,
                    track_count as int,
                ).to_multiset()
                &&& final(self).queue@.len() == track_count
                &&& final(self).queue_pos == 0
                &&& final(self).playing
                &&& final(self).current_track == Some(final(self).queue@[0].track)
                &&& final(self).progress == 0
                &&& final(self).cursor_ok()
                &&& act == Some(AudioAction::Load(final(self).queue@[0].track))
            },
    {
        let ghost uid0 = self.next_uid;
        let mut q: Vec<QueueEntry> = Vec::new();
        let mut i: usize = 0;
        proof {
            assert(q@ =~= fresh_entries(uid0, 0));
        }
        while i < track_count
            invariant
                i <= track_count,
                self.next_uid == uid0,
                uid0 + track_count <= usize::MAX,
                q@ == fresh_entries(uid0, i as int),
            decreases track_count - i,
        {
            q.push(QueueEntry { track: i, uid: self.next_uid + i });
            proof {
                assert(q@ =~= fresh_entries(uid0, i + 1));
            }
            i = i + 1;
        }
        self.next_uid = self.next_uid + track_count;
        self.queue = q;
        self.queue_pos = 0;
        if track_count == 0 {
            self.playing = false;
            self.current_track = None;
            self.progress = 0;
            proof {
                assert forall|e: QueueEntry| #[trigger]
                    self.queue@.contains(e) implies old(self).queue@.contains(e) || e.uid >= old(
                    self,
                ).next_uid by {}
            }
            return Some(AudioAction::ClearBuffer);
        }
        proof {
            assert forall|a: int, b: int| 0 <= a < b < self.queue@.len() implies (
            #[trigger] self.queue@[a]).uid != (#[trigger] self.queue@[b]).uid by {}
        }
        let act = self.shuffle_queue();
        proof {
            assert forall|e: QueueEntry| #[trigger]
                self.queue@.contains(e) implies old(self).queue@.contains(e) || e.uid >= old(
                self,
            ).next_uid by {
                let i2 = choose|i2: int| 0 <= i2 < self.queue@.len() && self.queue@[i2] == e;
                assert(fresh_entries(uid0, track_count as int).contains(e));
                let i3 = choose|i3: int|
                    0 <= i3 < track_count && fresh_entries(uid0, track_count as int)[i3] == e;
                assert(e.uid == uid0 + i3);
            }
        }
        Some(act)
    }

    /// Appends every track of the album group that `track` belongs to,
    /// in the group's sorted order, each under a fresh uid.
    pub fn enqueue_album(&mut self, lib: &LibraryIndex, track: usize)
        requires
            old(self).wf(),
            lib.wf(),
            track < lib.tracks@.len(),
            old(self).next_uid + lib.tracks@.len() <= usize::MAX,
        ensures
            final(self).wf(),
            final(self).playing == old(self).playing,
            final(self).current_track == old(self).current_track,
            final(self).queue_pos == old(self).queue_pos,
            final(self).progress == old(self).progress,
            entries_preserved(old(self).queue@, final(self).queue@, old(self).next_uid),
            exists|g: int|
                0 <= g < lib.groups@.len() && group_key(#[trigger] lib.groups@[g]) == track_key(
                    lib.tracks@[track as int]@,
                ),
            forall|g: int|
                0 <= g < lib.groups@.len() && group_key(#[trigger] lib.groups@[g]) == track_key(
                    lib.tracks@[track as int]@,
                ) ==> {
                    &&& final(self).queue@ == old(self).queue@ + album_entries(
                        lib.groups@[g].track_ids@,
                        old(self).next_uid,
                    )
                    &&& final(self).next_uid == old(self).next_uid + lib.groups@[
                        g
                    ].track_ids@.len()
                },
    {
        let g = lib.group_of_track(track);
        proof {
            lemma_group_len_le_tracks(*lib, g as int);
        }
        let m = lib.groups[g].track_ids.len();
        let ghost ids = lib.groups@[g as int].track_ids@;
        let ghost uid0 = old(self).next_uid;
        proof {
            assert(self.queue@ =~= old(self).queue@ + album_entries(ids.subrange(0, 0), uid0));
        }
        let mut j: usize = 0;
        while j < m
            invariant
                j <= m,
                g < lib.groups@.len(),
                m == ids.len(),
                m <= lib.tracks@.len(),
                ids == lib.groups@[g as int].track_ids@,
                uid0 + lib.tracks@.len() <= usize::MAX,
                self.next_uid == uid0 + j,
                self.queue@ == old(self).queue@ + album_entries(ids.subrange(0, j as int), uid0),
                self.queue@.len() == old(self).queue@.len() + j,
                old(self).wf(),
                forall|i: int|
                    0 <= i < old(self).queue@.len() ==> self.queue@[i] == old(self).queue@[i],
                forall|i: int|
                    0 <= i < old(self).queue@.len() ==> (#[trigger] old(self).queue@[i]).uid
                        < uid0,
                forall|i: int|
                    old(self).queue@.len() <= i < self.queue@.len() ==> (
                    #[trigger] self.queue@[i]).uid == uid0 + (i - old(self).queue@.len()),
                self.playing == old(self).playing,
                self.current_track == old(self).current_track,
                self.queue_pos == old(self).queue_pos,
                self.progress == old(self).progress,
            decreases m - j,
        {
            let id = lib.groups[g].track_ids[j];
            let e = QueueEntry { track: id, uid: self.next_uid };
            self.next_uid = self.next_uid + 1;
            self.queue.push(e);
            proof {
                assert(self.queue@ =~= old(self).queue@ + album_entries(
                    ids.subrange(0, j + 1),
                    uid0,
                ));
            }
            j = j + 1;
        }
        proof {
            assert(ids.subrange(0, m as int) =~= ids);
            let newq = self.queue@;
            let oldq = old(self).queue@;
            assert forall|a: int, b: int| 0 <= a < b < newq.len() implies (
            #[trigger] newq[a]).uid != (#[trigger] newq[b]).uid by {
                if b < oldq.len() {
                    assert(newq[a] == oldq[a] && newq[b] == oldq[b]);
                } else if a < oldq.len() {
                    assert(newq[a].uid < uid0);
                    assert(newq[b].uid >= uid0);
                }
            }
            assert forall|a: int| 0 <= a < newq.len() implies (#[trigger] newq[a]).uid
                < self.next_uid by {
                if a < oldq.len() {
                    assert(newq[a].uid < uid0);
                }
            }
            assert forall|e: QueueEntry| #[trigger] newq.contains(e) implies oldq.contains(e)
                || e.uid >= uid0 by {
                let i = choose|i: int| 0 <= i < newq.len() && newq[i] == e;
                if i < oldq.len() {
                    assert(oldq[i] == e);
                }
            }
            assert forall|g2: int|
                0 <= g2 < lib.groups@.len() && group_key(#[trigger] lib.groups@[g2]) == track_key(
                    lib.tracks@[track as int]@,
                ) implies g2 == g as int by {
                if g2 < g as int {
                    assert(group_key(lib.groups@[g2]) != group_key(lib.groups@[g as int]));
                } else if (g as int) < g2 {
                    assert(group_key(lib.groups@[g as int]) != group_key(lib.groups@[g2]));
                }
            }
        }
    }

    /// Recomputes the displayed progress from what the backend reports;
    /// nothing else moves.
    pub fn update_progress(&mut self, elapsed_ms: u64, duration_ms: u64)
        requires
            old(self).wf(),
        ensures
            final(self).wf(),
            final(self).progress == spec_progress(elapsed_ms, duration_ms),
            final(self).playing == old(self).playing,
            final(self).current_track == old(self).current_track,
            final(self).queue@ == old(self).queue@,
            final(self).next_uid == old(self).next_uid,
            final(self).queue_pos == old(self).queue_pos,
    {
        self.progress = progress_permille(elapsed_ms, duration_ms);
    }
}

/// The entries `shuffle_play` creates before shuffling: one per library
/// track, in library order, under consecutive uids from `uid0` on.
pub open spec fn fresh_entries(uid0: usize, count: int) -> Seq<QueueEntry> {
    Seq::new(
        count as nat,
        |i: int| QueueEntry { track: i as usize, uid: (uid0 + i) as usize },
    )
}

/// The entries `enqueue_album` appends: the group's ids in their stored
/// order, under consecutive uids from `uid0` on.
pub open spec fn album_entries(ids: Seq<usize>, uid0: usize) -> Seq<QueueEntry> {
    Seq::new(ids.len(), |i: int| QueueEntry { track: ids[i], uid: (uid0 + i) as usize })
}

/// Relies on rand's `SliceRandom::shuffle` (a Fisher-Yates shuffle): it
/// permutes the slice in place, so exactly the old entries remain, in
/// some order the random generator picked.
#[verifier::external_body]
fn shuffle_entries(entries: &mut Vec<QueueEntry>)
    ensures
        final(entries)@.to_multiset() == old(entries)@.to_multiset(),
        final(entries)@.len() == old(entries)@.len(),
{
    let mut rng = rand::rng();
    entries.shuffle(&mut rng);
}

/// A permutation of a well-uided queue is well-uided with the same
/// entries: lengths agree, the uid bound and distinctness carry over,
/// and exactly the old entries occur.
proof fn lemma_entry_permutation(old_q: Seq<QueueEntry>, new_q: Seq<QueueEntry>, bound: usize)
    requires
        new_q.to_multiset() == old_q.to_multiset(),
        forall|i: int| 0 <= i < old_q.len() ==> (#[trigger] old_q[i]).uid < bound,
        forall|i: int, j: int|
            0 <= i < j < old_q.len() ==> (#[trigger] old_q[i]).uid != (#[trigger] old_q[j]).uid,
    ensures
        new_q.len() == old_q.len(),
        forall|i: int| 0 <= i < new_q.len() ==> (#[trigger] new_q[i]).uid < bound,
        forall|i: int, j: int|
            0 <= i < j < new_q.len() ==> (#[trigger] new_q[i]).uid != (#[trigger] new_q[j]).uid,
        forall|e: QueueEntry| #[trigger] new_q.contains(e) ==> old_q.contains(e),
        forall|e: QueueEntry| #[trigger] old_q.contains(e) ==> new_q.contains(e),
{
    old_q.to_multiset_ensures();
    new_q.to_multiset_ensures();
    assert(new_q.len() == old_q.len()) by {
        assert(new_q.to_multiset().len() == old_q.to_multiset().len());
    }
    assert(old_q.no_duplicates()) by {
        assert forall|i: int, j: int|
            0 <= i < old_q.len() && 0 <= j < old_q.len() && i != j implies old_q[i]
            != old_q[j] by {
            if i < j {
                assert(old_q[i].uid != old_q[j].uid);
            } else {
                assert(old_q[j].uid != old_q[i].uid);
            }
        }
    }
    old_q.lemma_multiset_has_no_duplicates();
    new_q.lemma_multiset_has_no_duplicates_conv();
    assert forall|e: QueueEntry| #[trigger] new_q.contains(e) implies old_q.contains(e) by {
        assert(new_q.to_multiset().count(e) > 0);
        assert(old_q.to_multiset().count(e) > 0);
    }
    assert forall|e: QueueEntry| #[trigger] old_q.contains(e) implies new_q.contains(e) by {
        assert(old_q.to_multiset().count(e) > 0);
        assert(new_q.to_multiset().count(e) > 0);
    }
    assert forall|i: int| 0 <= i < new_q.len() implies (#[trigger] new_q[i]).uid < bound by {
        assert(new_q.contains(new_q[i]));
        assert(old_q.contains(new_q[i]));
        let k = choose|k: int| 0 <= k < old_q.len() && old_q[k] == new_q[i];
        assert(old_q[k].uid < bound);
    }
    assert forall|i: int, j: int| 0 <= i < j < new_q.len() implies (#[trigger] new_q[i]).uid != (
    #[trigger] new_q[j]).uid by {
        assert(new_q[i] != new_q[j]);
        assert(new_q.contains(new_q[i]));
        assert(new_q.contains(new_q[j]));
        assert(old_q.contains(new_q[i]));
        assert(old_q.contains(new_q[j]));
        let k1 = choose|k1: int| 0 <= k1 < old_q.len() && old_q[k1] == new_q[i];
        let k2 = choose|k2: int| 0 <= k2 < old_q.len() && old_q[k2] == new_q[j];
        assert(k1 != k2);
        if k1 < k2 {
            assert(old_q[k1].uid != old_q[k2].uid);
        } else {
            assert(old_q[k2].uid != old_q[k1].uid);
        }
    }
}

/// Law: entry preservation composes, so it holds across any sequence of
/// enqueue, remove and reorder operations: an entry alive at the end
/// either already stood in the first queue or was created under a uid
/// the engine had not yet handed out then — a uid is never reassigned
/// to a different track.
pub proof fn lemma_entries_preserved_chain(
    q1: Seq<QueueEntry>,
    q2: Seq<QueueEntry>,
    q3: Seq<QueueEntry>,
    bound1: usize,
    bound2: usize,
)
    requires
        entries_preserved(q1, q2, bound1),
        entries_preserved(q2, q3, bound2),
        bound1 <= bound2,
    ensures
        entries_preserved(q1, q3, bound1),
{
}

/// Law: a permutation of the queue neither creates nor destroys uids —
/// shuffling and reordering keep exactly the old set of ids.
pub proof fn lemma_permutation_keeps_uid_set(a: Seq<QueueEntry>, b: Seq<QueueEntry>)
    requires
        a.to_multiset() == b.to_multiset(),
    ensures
        uid_set(a) == uid_set(b),
{
    a.to_multiset_ensures();
    b.to_multiset_ensures();
    assert forall|u: usize| uid_set(a).contains(u) implies uid_set(b).contains(u) by {
        let i = choose|i: int| 0 <= i < a.len() && (#[trigger] a[i]).uid == u;
        assert(a.contains(a[i]));
        assert(a.to_multiset().count(a[i]) > 0);
        assert(b.to_multiset().count(a[i]) > 0);
        assert(b.contains(a[i]));
        let j = choose|j: int| 0 <= j < b.len() && b[j] == a[i];
        assert((#[trigger] b[j]).uid == u);
    }
    assert forall|u: usize| uid_set(b).contains(u) implies uid_set(a).contains(u) by {
        let i = choose|i: int| 0 <= i < b.len() && (#[trigger] b[i]).uid == u;
        assert(b.contains(b[i]));
        assert(b.to_multiset().count(b[i]) > 0);
        assert(a.to_multiset().count(b[i]) > 0);
        assert(a.contains(b[i]));
        let j = choose|j: int| 0 <= j < a.len() && a[j] == b[i];
        assert((#[trigger] a[j]).uid == u);
    }
    assert(uid_set(a) =~= uid_set(b));
}

/// A group's id list holds pairwise distinct, valid track indices, so
/// it cannot outnumber the tracks.
proof fn lemma_group_len_le_tracks(lib: LibraryIndex, g: int)
    requires
        lib.wf(),
        0 <= g < lib.groups@.len(),
    ensures
        lib.groups@[g].track_ids@.len() <= lib.tracks@.len(),
{
    let ids = lib.groups@[g].track_ids@;
    let n = lib.tracks@.len() as int;
    let m = ids.map_values(|x: usize| x as int);
    assert(m.len() == ids.len());
    assert(m.no_duplicates()) by {
        assert forall|i: int, j: int|
            0 <= i < m.len() && 0 <= j < m.len() && i != j implies m[i] != m[j] by {
            if i < j {
                assert(rank_pair_ok(lib.tracks@, ids[i], ids[j]));
            } else {
                assert(rank_pair_ok(lib.tracks@, ids[j], ids[i]));
            }
        }
    }
    m.unique_seq_to_set();
    assert(m.to_set().subset_of(set_int_range(0, n))) by {
        assert forall|e: int| m.to_set().contains(e) implies set_int_range(0, n).contains(e) by {
            let i = choose|i: int| 0 <= i < m.len() && m[i] == e;
            assert(ids[i] < lib.tracks@.len());
        }
    }
    lemma_int_range(0, n);
    lemma_len_subset(m.to_set(), set_int_range(0, n));
}

/// Law: clearing the queue is idempotent — clearing twice in a row
/// leaves exactly the idle state that one clear leaves.
pub proof fn lemma_clear_queue_idempotent(v: EngineView)
    ensures
        PlaybackEngine::spec_clear(PlaybackEngine::spec_clear(v)) == PlaybackEngine::spec_clear(v),
        !PlaybackEngine::spec_clear(v).playing,
        PlaybackEngine::spec_clear(v).current_track is None,
        PlaybackEngine::spec_clear(v).queue.len() == 0,
        PlaybackEngine::spec_clear(v).next_uid == 0,
        PlaybackEngine::spec_clear(v).queue_pos == 0,
{
}

/// Law: in a well-formed engine a uid picks out one queue slot, so a uid
/// can never name two different tracks at once.
pub proof fn lemma_uid_determines_track(e: PlaybackEngine, i: int, j: int)
    requires
        e.wf(),
        0 <= i < e.queue@.len(),
        0 <= j < e.queue@.len(),
        e.queue@[i].uid == e.queue@[j].uid,
    ensures
        i == j,
        e.queue@[i].track == e.queue@[j].track,
{
    if i < j {
        assert(e.queue@[i].uid != e.queue@[j].uid);
    }
    if j < i {
        assert(e.queue@[j].uid != e.queue@[i].uid);
    }
}

} // verus!
