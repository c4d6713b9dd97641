//! The library index: the flat track list plus the album groups, keyed
//! by album title and normalized primary artist. Every track lies in
//! exactly one group, and each group keeps its tracks sorted by track
//! number, unnumbered tracks last, ties in scan order.

use vstd::prelude::*;
use vstd::seq_lib::*;
use vstd::string::StrSliceExecFns;
use crate::text::contains_seq;
use crate::text::contains_str;
use crate::text::lower_of;
use crate::text::lowercase;
use crate::text::normalize_artist;
use crate::text::str_eq;
use crate::track::Track;
use crate::track::TrackView;
use crate::track::num_rank;
use crate::track::track_key;

verus! {

/// The tracks of one album, as indices into the flat track list.
pub struct AlbumGroup {
    /// Album title, first half of the group key.
    pub album: String,
    /// Normalized primary artist, second half of the group key.
    pub artist: String,
    /// Indices of the group's tracks, sorted by track number.
    pub track_ids: Vec<usize>,
}

/// The key a group is addressed by.
pub open spec fn group_key(g: AlbumGroup) -> (Seq<char>, Seq<char>) {
    (g.album@, g.artist@)
}

/// Sort rank of the track at index `id`.
pub open spec fn id_rank(tracks: Seq<Track>, id: usize) -> int {
    num_rank(tracks[id as int]@.track_number)
}

/// How two ids may follow one another inside a group: strictly smaller
/// rank, or equal rank and scan order.
pub open spec fn rank_pair_ok(tracks: Seq<Track>, a: usize, b: usize) -> bool {
    id_rank(tracks, a) < id_rank(tracks, b) || (id_rank(tracks, a) == id_rank(tracks, b) && a < b)
}

/// The group's ids are sorted by rank, ties in scan order.
pub open spec fn ids_sorted(ids: Seq<usize>, tracks: Seq<Track>) -> bool {
    forall|j: int, k: int|
        0 <= j < k < ids.len() ==> rank_pair_ok(tracks, #[trigger] ids[j], #[trigger] ids[k])
}

/// Track `i` sits in slot `j` of group `g`.
pub open spec fn group_slot(lib: LibraryIndex, g: int, j: int, i: int) -> bool {
    &&& 0 <= g < lib.groups@.len()
    &&& 0 <= j < lib.groups@[g].track_ids@.len()
    &&& lib.groups@[g].track_ids@[j] == i
}

/// `new_ids` is `old_ids` with `n` inserted after every id whose rank is
/// at most `n`'s and before every id whose rank exceeds it.
pub open spec fn inserted_sorted(
    old_ids: Seq<usize>,
    new_ids: Seq<usize>,
    tracks: Seq<Track>,
    n: usize,
) -> bool {
    exists|p: int|
        {
            &&& 0 <= p <= old_ids.len()
            &&& new_ids == #[trigger] old_ids.insert(p, n)
            &&& forall|j: int| 0 <= j < p ==> id_rank(tracks, #[trigger] old_ids[j]) <= id_rank(
                tracks,
                n,
            )
            &&& (p == old_ids.len() || id_rank(tracks, old_ids[p]) > id_rank(tracks, n))
        }
}

/// The catalog of known tracks and their album groups.
pub struct LibraryIndex {
    /// Every scanned track, in scan order; indices in here are stable.
    pub tracks: Vec<Track>,
    /// The album groups; keys are pairwise distinct.
    pub groups: Vec<AlbumGroup>,
}

impl LibraryIndex {
    /// Every id in every group points into the track list, at a track
    /// whose own key is the group's key.
    pub open spec fn members_ok(self) -> bool {
        forall|g: int, j: int|
            0 <= g < self.groups@.len() && 0 <= j < self.groups@[g].track_ids@.len() ==> {
                let id = #[trigger] self.groups@[g].track_ids@[j];
                &&& id < self.tracks@.len()
                &&& track_key(self.tracks@[id as int]@) == group_key(self.groups@[g])
            }
    }

    /// No two groups share a key.
    pub open spec fn keys_distinct(self) -> bool {
        forall|g1: int, g2: int|
            0 <= g1 < g2 < self.groups@.len() ==> group_key(#[trigger] self.groups@[g1])
                != group_key(#[trigger] self.groups@[g2])
    }

    /// Every group is sorted by rank, ties in scan order.
    pub open spec fn groups_sorted(self) -> bool {
        forall|g: int|
            0 <= g < self.groups@.len() ==> ids_sorted(
                (#[trigger] self.groups@[g]).track_ids@,
                self.tracks@,
            )
    }

    /// Track `i` appears in some group slot.
    pub open spec fn in_some_group(self, i: int) -> bool {
        exists|g: int, j: int| group_slot(self, g, j, i)
    }

    /// Every track appears in some group.
    pub open spec fn covered(self) -> bool {
        forall|i: int| 0 <= i < self.tracks@.len() ==> #[trigger] self.in_some_group(i)
    }

    /// Well-formedness: the grouping and ordering invariants together.
    pub open spec fn wf(self) -> bool {
        &&& self.members_ok()
        &&& self.keys_distinct()
        &&& self.groups_sorted()
        &&& self.covered()
    }

    /// An empty library.
    pub fn new() -> (lib: LibraryIndex)
        ensures
            lib.wf(),
            lib.tracks@.len() == 0,
            lib.groups@.len() == 0,
    {
        LibraryIndex { tracks: Vec::new(), groups: Vec::new() }
    }

    /// First group whose key is (`album`, `artist`), if any.
    fn find_group_idx(groups: &Vec<AlbumGroup>, album: &str, artist: &str) -> (r: Option<usize>)
        ensures
            match r {
                Some(g) => {
                    &&& g < groups@.len()
                    &&& group_key(groups@[g as int]) == (album@, artist@)
                },
                None => forall|g: int|
                    0 <= g < groups@.len() ==> group_key(#[trigger] groups@[g]) != (
                    album@,
                    artist@,
                    ),
            },
    {
        let mut g: usize = 0;
        while g < groups.len()
            invariant
                g <= groups@.len(),
                forall|g2: int|
                    0 <= g2 < g ==> group_key(#[trigger] groups@[g2]) != (album@, artist@),
            decreases groups@.len() - g,
        {
            if str_eq(groups[g].album.as_str(), album) && str_eq(
                groups[g].artist.as_str(),
                artist,
            ) {
                return Some(g);
            }
            g = g + 1;
        }
        None
    }

    /// Appends a freshly scanned track and files its index into the group
    /// keyed by the track's own album and normalized artist, keeping that
    /// group sorted; a first track of its album opens a new group.
    pub fn add_track(&mut self, t: Track)
        requires
            old(self).wf(),
            old(self).tracks@.len() < usize::MAX,
        ensures
            final(self).wf(),
            final(self).tracks@ == old(self).tracks@.push(t),
            (exists|g: int|
                0 <= g < old(self).groups@.len() && group_key(
                    #[trigger] old(self).groups@[g],
                ) == track_key(t@)) ==> {
                &&& final(self).groups@.len() == old(self).groups@.len()
                &&& forall|g: int|
                    0 <= g < final(self).groups@.len() && group_key(#[trigger] old(self).groups@[g])
                        != track_key(t@) ==> final(self).groups@[g] == old(self).groups@[g]
                &&& forall|g: int|
                    0 <= g < final(self).groups@.len() && group_key(#[trigger] old(self).groups@[g])
                        == track_key(t@) ==> {
                        &&& final(self).groups@[g].album == old(self).groups@[g].album
                        &&& final(self).groups@[g].artist == old(self).groups@[g].artist
                        &&& inserted_sorted(
                            old(self).groups@[g].track_ids@,
                            final(self).groups@[g].track_ids@,
                            final(self).tracks@,
                            old(self).tracks@.len() as usize,
                        )
                    }
            },
            (forall|g: int|
                0 <= g < old(self).groups@.len() ==> group_key(#[trigger] old(self).groups@[g])
                    != track_key(t@)) ==> {
                &&& final(self).groups@.len() == old(self).groups@.len() + 1
                &&& final(self).groups@.subrange(0, old(self).groups@.len() as int) == old(self).groups@
                &&& group_key(final(self).groups@.last()) == track_key(t@)
                &&& final(self).groups@.last().track_ids@ == seq![old(self).tracks@.len() as usize]
            },
    {
        let key_album = t.album.clone();
        let key_artist = normalize_artist(t.artist.as_str());
        let num = t.track_number;
        let n = self.tracks.len();
        let found = Self::find_group_idx(&self.groups, key_album.as_str(), key_artist.as_str());
        self.tracks.push(t);
        let ghost old_tracks = old(self).tracks@;
        proof {
            assert(forall|id: usize|
                id < old_tracks.len() ==> id_rank(self.tracks@, id) == id_rank(old_tracks, id));
        }
        match found {
            Some(gi) => {
                let ghost old_ids = self.groups@[gi as int].track_ids@;
                let ids_len = self.groups[gi].track_ids.len();
                let mut p: usize = 0;
                while p < ids_len
                    invariant
                        p <= ids_len,
                        gi < self.groups@.len(),
                        ids_len == self.groups@[gi as int].track_ids@.len(),
                        old_ids == self.groups@[gi as int].track_ids@,
                        n < self.tracks@.len(),
                        forall|j: int|
                            0 <= j < ids_len ==> #[trigger] old_ids[j] < n,
                        num == self.tracks@[n as int].track_number,
                        forall|j: int|
                            0 <= j < p ==> id_rank(self.tracks@, #[trigger] old_ids[j]) <= id_rank(
                                self.tracks@,
                                n as usize,
                            ),
                    ensures
                        p <= ids_len,
                        forall|j: int|
                            0 <= j < p ==> id_rank(self.tracks@, #[trigger] old_ids[j]) <= id_rank(
                                self.tracks@,
                                n as usize,
                            ),
                        p == ids_len || id_rank(self.tracks@, old_ids[p as int]) > id_rank(
                            self.tracks@,
                            n as usize,
                        ),
                    decreases ids_len - p,
                {
                    let id = self.groups[gi].track_ids[p];
                    let tn = self.tracks[id].track_number;
                    if rank_gt(tn, num) {
                        break;
                    }
                    p = p + 1;
                }
                self.groups[gi].track_ids.insert(p, n);
                proof {
                    self.lemma_add_existing(*old(self), t, gi as int, p as int);
                }
            },
            None => {
                let mut ids: Vec<usize> = Vec::new();
                ids.push(n);
                self.groups.push(AlbumGroup { album: key_album, artist: key_artist, track_ids: ids });
                proof {
                    self.lemma_add_new(*old(self), t);
                }
            },
        }
    }

    /// Re-establishes well-formedness after inserting into an existing group.
    proof fn lemma_add_existing(self, prev: LibraryIndex, t: Track, gi: int, p: int)
        requires
            prev.wf(),
            prev.tracks@.len() < usize::MAX,
            self.tracks@ == prev.tracks@.push(t),
            0 <= gi < prev.groups@.len(),
            group_key(prev.groups@[gi]) == track_key(t@),
            self.groups@.len() == prev.groups@.len(),
            forall|g: int|
                0 <= g < self.groups@.len() && g != gi ==> self.groups@[g] == prev.groups@[g],
            self.groups@[gi].album == prev.groups@[gi].album,
            self.groups@[gi].artist == prev.groups@[gi].artist,
            0 <= p <= prev.groups@[gi].track_ids@.len(),
            self.groups@[gi].track_ids@ == prev.groups@[gi].track_ids@.insert(
                p,
                prev.tracks@.len() as usize,
            ),
            forall|j: int|
                0 <= j < p ==> id_rank(self.tracks@, #[trigger] prev.groups@[gi].track_ids@[j])
                    <= id_rank(self.tracks@, prev.tracks@.len() as usize),
            p == prev.groups@[gi].track_ids@.len() || id_rank(
                self.tracks@,
                prev.groups@[gi].track_ids@[p],
            ) > id_rank(self.tracks@, prev.tracks@.len() as usize),
        ensures
            self.wf(),
            inserted_sorted(
                prev.groups@[gi].track_ids@,
                self.groups@[gi].track_ids@,
                self.tracks@,
                prev.tracks@.len() as usize,
            ),
    {
        let n = prev.tracks@.len() as usize;
        let old_ids = prev.groups@[gi].track_ids@;
        let new_ids = self.groups@[gi].track_ids@;
        old_ids.insert_ensures(p, n);
        assert(forall|id: usize|
            id < prev.tracks@.len() ==> id_rank(self.tracks@, id) == id_rank(prev.tracks@, id));
        assert(group_key(self.groups@[gi]) == group_key(prev.groups@[gi]));

        // members_ok
        assert forall|g: int, j: int|
            #![trigger self.groups@[g].track_ids@[j]]
            0 <= g < self.groups@.len() && 0 <= j < self.groups@[g].track_ids@.len() implies {
            let id = self.groups@[g].track_ids@[j];
            &&& id < self.tracks@.len()
            &&& track_key(self.tracks@[id as int]@) == group_key(self.groups@[g])
        } by {
            if g == gi {
                if j < p {
                    assert(new_ids[j] == old_ids[j]);
                } else if j == p {
                    assert(new_ids[j] == n);
                    assert(self.tracks@[n as int] == t);
                } else {
                    assert(new_ids[j] == old_ids[j - 1]);
                }
            }
        }

        // groups_sorted
        assert forall|g: int| 0 <= g < self.groups@.len() implies ids_sorted(
            self.groups@[g].track_ids@,
            self.tracks@,
        ) by {
            if g == gi {
                assert forall|j: int, k: int| 0 <= j < k < new_ids.len() implies rank_pair_ok(
                    self.tracks@,
                    new_ids[j],
                    new_ids[k],
                ) by {
                    assert(ids_sorted(old_ids, prev.tracks@));
                    if j < p && k < p {
                        assert(rank_pair_ok(prev.tracks@, old_ids[j], old_ids[k]));
                    } else if j < p && k == p {
                        // old id with rank at most n's comes before n; on a tie
                        // the fresh index n is the larger id.
                        assert(new_ids[j] == old_ids[j]);
                        assert(old_ids[j] < n);
                    } else if j < p && k > p {
                        assert(rank_pair_ok(prev.tracks@, old_ids[j], old_ids[k - 1]));
                    } else if j == p {
                        // everything after position p has rank above n's
                        assert(new_ids[k] == old_ids[k - 1]);
                        if p < k - 1 {
                            assert(rank_pair_ok(prev.tracks@, old_ids[p], old_ids[k - 1]));
                        }
                    } else {
                        assert(new_ids[j] == old_ids[j - 1]);
                        assert(new_ids[k] == old_ids[k - 1]);
                        assert(rank_pair_ok(prev.tracks@, old_ids[j - 1], old_ids[k - 1]));
                    }
                }
            } else {
                assert(self.groups@[g] == prev.groups@[g]);
                assert(ids_sorted(prev.groups@[g].track_ids@, prev.tracks@));
                assert forall|j: int, k: int|
                    0 <= j < k < self.groups@[g].track_ids@.len() implies rank_pair_ok(
                    self.tracks@,
                    self.groups@[g].track_ids@[j],
                    self.groups@[g].track_ids@[k],
                ) by {
                    assert(rank_pair_ok(
                        prev.tracks@,
                        prev.groups@[g].track_ids@[j],
                        prev.groups@[g].track_ids@[k],
                    ));
                }
            }
        }

        // keys_distinct
        assert forall|g1: int, g2: int| 0 <= g1 < g2 < self.groups@.len() implies group_key(
            self.groups@[g1],
        ) != group_key(self.groups@[g2]) by {
            assert(group_key(self.groups@[g1]) == group_key(prev.groups@[g1]));
            assert(group_key(self.groups@[g2]) == group_key(prev.groups@[g2]));
        }

        // covered
        assert forall|i: int| 0 <= i < self.tracks@.len() implies self.in_some_group(i) by {
            if i < prev.tracks@.len() {
                assert(prev.in_some_group(i));
                let (g, j) = choose|g: int, j: int| group_slot(prev, g, j, i);
                if g != gi {
                    assert(group_slot(self, g, j, i));
                } else if j < p {
                    assert(new_ids[j] == old_ids[j]);
                    assert(group_slot(self, gi, j, i));
                } else {
                    assert(new_ids[j + 1] == old_ids[j]);
                    assert(group_slot(self, gi, j + 1, i));
                }
            } else {
                assert(new_ids[p] == n);
                assert(group_slot(self, gi, p, i));
            }
        }
    }

    /// Re-establishes well-formedness after opening a new group.
    proof fn lemma_add_new(self, prev: LibraryIndex, t: Track)
        requires
            prev.wf(),
            prev.tracks@.len() < usize::MAX,
            self.tracks@ == prev.tracks@.push(t),
            forall|g: int|
                0 <= g < prev.groups@.len() ==> group_key(#[trigger] prev.groups@[g])
                    != track_key(t@),
            self.groups@.len() == prev.groups@.len() + 1,
            forall|g: int|
                0 <= g < prev.groups@.len() ==> self.groups@[g] == prev.groups@[g],
            group_key(self.groups@.last()) == track_key(t@),
            self.groups@.last().track_ids@ == seq![prev.tracks@.len() as usize],
        ensures
            self.wf(),
            self.groups@.subrange(0, prev.groups@.len() as int) == prev.groups@,
    {
        let n = prev.tracks@.len() as usize;
        let gl = prev.groups@.len() as int;
        assert(self.groups@.subrange(0, gl) =~= prev.groups@);
        assert(forall|id: usize|
            id < prev.tracks@.len() ==> id_rank(self.tracks@, id) == id_rank(prev.tracks@, id));

        assert forall|g: int, j: int|
            #![trigger self.groups@[g].track_ids@[j]]
            0 <= g < self.groups@.len() && 0 <= j < self.groups@[g].track_ids@.len() implies {
            let id = self.groups@[g].track_ids@[j];
            &&& id < self.tracks@.len()
            &&& track_key(self.tracks@[id as int]@) == group_key(self.groups@[g])
        } by {
            if g == gl {
                assert(self.groups@[g].track_ids@[j] == n);
                assert(self.tracks@[n as int] == t);
            }
        }

        assert forall|g: int| 0 <= g < self.groups@.len() implies ids_sorted(
            self.groups@[g].track_ids@,
            self.tracks@,
        ) by {
            if g < gl {
                assert(self.groups@[g] == prev.groups@[g]);
                assert(ids_sorted(prev.groups@[g].track_ids@, prev.tracks@));
                assert forall|j: int, k: int|
                    0 <= j < k < self.groups@[g].track_ids@.len() implies rank_pair_ok(
                    self.tracks@,
                    self.groups@[g].track_ids@[j],
                    self.groups@[g].track_ids@[k],
                ) by {
                    assert(rank_pair_ok(
                        prev.tracks@,
                        prev.groups@[g].track_ids@[j],
                        prev.groups@[g].track_ids@[k],
                    ));
                }
            }
        }

        assert forall|g1: int, g2: int| 0 <= g1 < g2 < self.groups@.len() implies group_key(
            self.groups@[g1],
        ) != group_key(self.groups@[g2]) by {
            if g2 == gl {
                assert(group_key(self.groups@[g1]) == group_key(prev.groups@[g1]));
            }
        }

        assert forall|i: int| 0 <= i < self.tracks@.len() implies self.in_some_group(i) by {
            if i < prev.tracks@.len() {
                assert(prev.in_some_group(i));
                let (g, j) = choose|g: int, j: int| group_slot(prev, g, j, i);
                assert(group_slot(self, g, j, i));
            } else {
                assert(self.groups@[gl].track_ids@[0] == n);
                assert(group_slot(self, gl, 0, i));
            }
        }
    }

    /// Which indices the search box should show: every track whose
    /// lowercased title, artist or album contains the lowercased query.
    /// An empty query matches every track.
    pub open spec fn track_matches(t: TrackView, ql: Seq<char>) -> bool {
        ||| contains_seq(lower_of(t.title), ql)
        ||| contains_seq(lower_of(t.artist), ql)
        ||| contains_seq(lower_of(t.album), ql)
    }

    /// The matching indices, in scan order.
    pub open spec fn matching_ids(tracks: Seq<Track>, ql: Seq<char>) -> Seq<usize>
        decreases tracks.len(),
    {
        if tracks.len() == 0 {
            Seq::empty()
        } else {
            let pre = Self::matching_ids(tracks.drop_last(), ql);
            if Self::track_matches(tracks.last()@, ql) {
                pre.push((tracks.len() - 1) as usize)
            } else {
                pre
            }
        }
    }

    /// Case-insensitive search across title, artist and album; a pure
    /// projection that leaves the library untouched.
    pub fn filter(&self, query: &str) -> (r: Vec<usize>)
        ensures
            r@ == Self::matching_ids(self.tracks@, lower_of(query@)),
    {
        let ql = lowercase(query);
        let mut r: Vec<usize> = Vec::new();
        proof {
            assert(self.tracks@.subrange(0, 0) =~= Seq::<Track>::empty());
        }
        let mut i: usize = 0;
        while i < self.tracks.len()
            invariant
                i <= self.tracks@.len(),
                ql@ == lower_of(query@),
                r@ == Self::matching_ids(self.tracks@.subrange(0, i as int), lower_of(query@)),
            decreases self.tracks@.len() - i,
        {
            let t = &self.tracks[i];
            let m = contains_str(lowercase(t.title.as_str()).as_str(), ql.as_str())
                || contains_str(lowercase(t.artist.as_str()).as_str(), ql.as_str())
                || contains_str(lowercase(t.album.as_str()).as_str(), ql.as_str());
            if m {
                r.push(i);
            }
            proof {
                let sub1 = self.tracks@.subrange(0, i + 1);
                assert(sub1.drop_last() =~= self.tracks@.subrange(0, i as int));
                assert(sub1.last() == self.tracks@[i as int]);
            }
            i = i + 1;
        }
        proof {
            assert(self.tracks@.subrange(0, self.tracks@.len() as int) =~= self.tracks@);
        }
        r
    }

    /// The index of the one group that holds the given track.
    pub fn group_of_track(&self, track: usize) -> (g: usize)
        requires
            self.wf(),
            track < self.tracks@.len(),
        ensures
            g < self.groups@.len(),
            group_key(self.groups@[g as int]) == track_key(self.tracks@[track as int]@),
            self.groups@[g as int].track_ids@.contains(track),
    {
        let t = &self.tracks[track];
        let artist_n = normalize_artist(t.artist.as_str());
        let found = Self::find_group_idx(&self.groups, t.album.as_str(), artist_n.as_str());
        proof {
            assert(self.in_some_group(track as int));
            let (g0, j0) = choose|g0: int, j0: int| group_slot(*self, g0, j0, track as int);
            assert(group_key(self.groups@[g0]) == track_key(self.tracks@[track as int]@));
        }
        match found {
            Some(g) => {
                proof {
                    let (g0, j0) = choose|g0: int, j0: int| group_slot(*self, g0, j0, track as int);
                    if g0 < g as int {
                        assert(group_key(self.groups@[g0]) != group_key(self.groups@[g as int]));
                    } else if (g as int) < g0 {
                        assert(group_key(self.groups@[g as int]) != group_key(self.groups@[g0]));
                    }
                    assert(g0 == g as int);
                    assert(self.groups@[g as int].track_ids@[j0] == track);
                }
                g
            },
            None => {
                proof {
                    let (g0, j0) = choose|g0: int, j0: int| group_slot(*self, g0, j0, track as int);
                    assert(group_key(self.groups@[g0]) != track_key(
                        self.tracks@[track as int]@,
                    ));
                    assert(false);
                }
                0
            },
        }
    }
}

/// Whether the first track number ranks strictly after the second;
/// a missing number ranks after every present one.
fn rank_gt(a: Option<usize>, b: Option<usize>) -> (r: bool)
    ensures
        r == (num_rank(a) > num_rank(b)),
{
    match (a, b) {
        (Option::None, Option::None) => false,
        (Option::None, Option::Some(_)) => true,
        (Option::Some(_), Option::None) => false,
        (Option::Some(x), Option::Some(y)) => x > y,
    }
}

/// Law: every scanned track's index appears in exactly one album group,
/// and that group's key equals the key computed from the track's own
/// album and normalized artist.
pub proof fn lemma_grouping_invariant(lib: LibraryIndex, i: int)
    requires
        lib.wf(),
        0 <= i < lib.tracks@.len(),
    ensures
        exists|g: int, j: int| group_slot(lib, g, j, i),
        forall|g1: int, j1: int, g2: int, j2: int|
            #[trigger] group_slot(lib, g1, j1, i) && #[trigger] group_slot(lib, g2, j2, i)
                ==> g1 == g2 && j1 == j2,
        forall|g: int, j: int|
            #[trigger] group_slot(lib, g, j, i) ==> group_key(lib.groups@[g]) == track_key(
                lib.tracks@[i]@,
            ),
{
    assert(lib.in_some_group(i));
    assert forall|g1: int, j1: int, g2: int, j2: int|
        #[trigger] group_slot(lib, g1, j1, i) && #[trigger] group_slot(
            lib,
            g2,
            j2,
            i,
        ) implies g1 == g2 && j1 == j2 by {
        assert(group_key(lib.groups@[g1]) == track_key(lib.tracks@[i]@));
        assert(group_key(lib.groups@[g2]) == track_key(lib.tracks@[i]@));
        if g1 < g2 || g2 < g1 {
            assert(false);
        }
        if j1 < j2 {
            assert(rank_pair_ok(
                lib.tracks@,
                lib.groups@[g1].track_ids@[j1],
                lib.groups@[g1].track_ids@[j2],
            ));
            assert(false);
        }
        if j2 < j1 {
            assert(rank_pair_ok(
                lib.tracks@,
                lib.groups@[g1].track_ids@[j2],
                lib.groups@[g1].track_ids@[j1],
            ));
            assert(false);
        }
    }
}

/// Law: inside any album group, numbered tracks appear in non-decreasing
/// numeric order, every unnumbered track appears after every numbered
/// one, and unnumbered tracks keep their scan order among themselves.
pub proof fn lemma_group_ordering(lib: LibraryIndex, g: int, j: int, k: int)
    requires
        lib.wf(),
        0 <= g < lib.groups@.len(),
        0 <= j < k < lib.groups@[g].track_ids@.len(),
    ensures
        ({
            let a = lib.tracks@[lib.groups@[g].track_ids@[j] as int]@.track_number;
            let b = lib.tracks@[lib.groups@[g].track_ids@[k] as int]@.track_number;
            &&& (a matches Some(av) ==> b matches Some(bv) ==> av <= bv)
            &&& (a is None ==> b is None)
            &&& (a is None && b is None ==> lib.groups@[g].track_ids@[j]
                < lib.groups@[g].track_ids@[k])
        }),
{
    assert(ids_sorted(lib.groups@[g].track_ids@, lib.tracks@));
    let idj = lib.groups@[g].track_ids@[j];
    let idk = lib.groups@[g].track_ids@[k];
    assert(rank_pair_ok(lib.tracks@, idj, idk));
    let a = lib.tracks@[idj as int]@.track_number;
    let b = lib.tracks@[idk as int]@.track_number;
    assert(id_rank(lib.tracks@, idj) == num_rank(a));
    assert(id_rank(lib.tracks@, idk) == num_rank(b));
    if a is None {
        assert(num_rank(a) == usize::MAX as int + 1);
        assert(num_rank(b) >= num_rank(a));
        assert(b is None);
        assert(num_rank(a) == num_rank(b));
        assert(idj < idk);
    }
    if a is Some && b is Some {
        assert(num_rank(a) == a->0);
        assert(num_rank(b) == b->0);
        assert(a->0 <= b->0);
    }
}

} // verus!
