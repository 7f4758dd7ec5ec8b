//! Stitch together any number of incomplete indexes to form a more complete
//! index.
//!
//! If a backup is interrupted, there may be several index hunks (and the
//! blocks they refer to) but not a complete tree. The best tree to restore at
//! that point is the new index, for as much of the tree as it covers, and then
//! the next older index from that path onwards. This applies again if the
//! older index was interrupted too, until a complete index is reached (one
//! whose band is closed) or there is no older band.
//!
//! Two things need care: the older index may end at an earlier path than was
//! already seen, and bands may have been deleted, so that their numbers have
//! gaps.
//!
//! The work is a state machine. It never reads anything itself: it says what
//! it needs next ([`IterStitchedIndexHunks::request`]) and is told what was
//! found. [`stitch_bands`] runs it over bands that are held in memory.

use vstd::prelude::*;
use crate::apath::Apath;
use crate::bandid::BandId;
use crate::index::EntryView;
use crate::index::IndexEntry;

verus! {

/// The index of one band, held in memory.
#[derive(Debug)]
pub struct BandIndex {
    /// The id of the band.
    pub id: BandId,
    /// The band can be opened: its head is there and is understood.
    pub opens: bool,
    /// The band is closed: its tail is there.
    pub closed: bool,
    /// The hunks of the band's index, in order.
    pub hunks: Vec<Vec<IndexEntry>>,
}

/// What a [`BandIndex`] says.
pub ghost struct BandView {
    pub id: Seq<u32>,
    pub opens: bool,
    pub closed: bool,
    pub hunks: Seq<Seq<EntryView>>,
}

impl DeepView for BandIndex {
    type V = BandView;

    open spec fn deep_view(&self) -> BandView {
        BandView {
            id: self.id@,
            opens: self.opens,
            closed: self.closed,
            hunks: self.hunks.deep_view(),
        }
    }
}

/// The place of the first band with this id, or the number of bands if there
/// is none.
pub open spec fn find_band(bands: Seq<BandView>, id: Seq<u32>) -> int
    decreases bands.len(),
{
    if bands.len() == 0 || bands[0].id == id {
        0
    } else {
        1 + find_band(bands.drop_first(), id)
    }
}

/// There is a band with this id.
pub open spec fn has_band(bands: Seq<BandView>, id: Seq<u32>) -> bool {
    0 <= find_band(bands, id) < bands.len()
}

/// There is a band with this id and it can be opened.
pub open spec fn band_opens(bands: Seq<BandView>, id: Seq<u32>) -> bool {
    has_band(bands, id) && bands[find_band(bands, id)].opens
}

/// There is a band with this id and it is closed.
pub open spec fn band_closed(bands: Seq<BandView>, id: Seq<u32>) -> bool {
    has_band(bands, id) && bands[find_band(bands, id)].closed
}

/// The hunks of the band with this id; none if there is no such band.
pub open spec fn band_hunks(bands: Seq<BandView>, id: Seq<u32>) -> Seq<Seq<EntryView>> {
    if has_band(bands, id) {
        bands[find_band(bands, id)].hunks
    } else {
        Seq::empty()
    }
}

/// `p` is `id` with a lower last number.
pub open spec fn earlier_sibling(p: Seq<u32>, id: Seq<u32>) -> bool {
    &&& p.len() == id.len()
    &&& p.len() >= 1
    &&& p.drop_last() == id.drop_last()
    &&& p.last() < id.last()
}

/// The nearest band before `id` that exists: `id` with its last number
/// lowered as little as it takes.
pub open spec fn previous_band(bands: Seq<BandView>, id: Seq<u32>) -> Option<Seq<u32>>
    decreases
            (if id.len() >= 1 {
                id.last() as int
            } else {
                0
            }),
{
    if id.len() == 0 || id.last() == 0 {
        None
    } else {
        let p = id.drop_last().push((id.last() - 1) as u32);
        if has_band(bands, p) {
            Some(p)
        } else {
            previous_band(bands, p)
        }
    }
}

/// Where a stitched read stands, as plain values.
pub ghost enum Stage {
    /// There is nothing more to read.
    Done,
    /// The band is known and no attempt was made to open it.
    Before(Seq<u32>),
    /// The band is open, and so many of its hunks were read.
    In(Seq<u32>, nat),
    /// All was read from the band that there is.
    After(Seq<u32>),
}

/// What state a stitched read is in, and what should happen next.
#[derive(Debug)]
pub enum State {
    /// The end of a closed band was reached, or the earliest band that
    /// exists: there is no more content.
    Done,
    /// The band to read is known and was not read at all.
    BeforeBand(BandId),
    /// Hunks are being read from a band; `hunk_number` is the next.
    InBand { band_id: BandId, hunk_number: usize },
    /// Reading the band has ended.
    AfterBand(BandId),
}

impl View for State {
    type V = Stage;

    open spec fn view(&self) -> Stage {
        match self {
            State::Done => Stage::Done,
            State::BeforeBand(id) => Stage::Before(id@),
            State::InBand { band_id, hunk_number } => Stage::In(band_id@, *hunk_number as nat),
            State::AfterBand(id) => Stage::After(id@),
        }
    }
}

/// The last number of the band that a stage speaks of.
pub open spec fn stage_rank(stage: Stage) -> nat {
    match stage {
        Stage::Done => 0,
        Stage::Before(id) | Stage::In(id, _) | Stage::After(id) => if id.len() >= 1 {
            id.last() as nat
        } else {
            0
        },
    }
}

/// How far a stage is from the end of its band.
pub open spec fn stage_phase(stage: Stage) -> nat {
    match stage {
        Stage::Done => 0,
        Stage::After(_) => 1,
        Stage::In(_, _) => 2,
        Stage::Before(_) => 3,
    }
}

/// The hunks of its band that a stage has not read.
pub open spec fn stage_left(bands: Seq<BandView>, stage: Stage) -> nat {
    match stage {
        Stage::In(id, k) => if k < band_hunks(bands, id).len() {
            (band_hunks(bands, id).len() - k) as nat
        } else {
            0
        },
        _ => 0,
    }
}

/// The stage after an attempt to open the band.
pub open spec fn stage_opened(stage: Stage, opened: bool) -> Stage {
    match stage {
        Stage::Before(id) => if opened {
            Stage::In(id, 0)
        } else {
            Stage::After(id)
        },
        other => other,
    }
}

/// The stage after the band was looked at once more: `closed` says whether it
/// is closed, `previous` which band comes before it.
pub open spec fn stage_finished(stage: Stage, closed: bool, previous: Option<Seq<u32>>) -> Stage {
    match stage {
        Stage::After(id) => if closed {
            Stage::Done
        } else {
            match previous {
                Some(p) => if earlier_sibling(p, id) {
                    Stage::Before(p)
                } else {
                    Stage::Done
                },
                None => Stage::Done,
            }
        },
        other => other,
    }
}

/// The hunks that a stitched read over `bands` yields from `stage` on, when
/// `last` is the last path it has yielded.
pub open spec fn remaining(bands: Seq<BandView>, stage: Stage, last: Option<Seq<u8>>) -> Seq<
    Seq<EntryView>,
>
    decreases stage_rank(stage), stage_phase(stage), stage_left(bands, stage),
{
    match stage {
        Stage::Done => Seq::empty(),
        Stage::Before(id) => remaining(bands, stage_opened(stage, band_opens(bands, id)), last),
        Stage::In(id, k) => {
            let hunks = band_hunks(bands, id);
            if k < hunks.len() {
                let kept = crate::index::entries_beyond(hunks[k as int], last);
                if kept.len() > 0 {
                    seq![kept] + remaining(
                        bands,
                        Stage::In(id, k + 1),
                        Some(kept.last().apath),
                    )
                } else {
                    remaining(bands, Stage::In(id, k + 1), last)
                }
            } else {
                remaining(bands, Stage::After(id), last)
            }
        },
        Stage::After(id) => {
            let next = stage_finished(stage, band_closed(bands, id), previous_band(bands, id));
            if next is Before {
                remaining(bands, next, last)
            } else {
                Seq::empty()
            }
        },
    }
}

/// The hunks that a stitched read of the band `start` yields.
pub open spec fn stitched(bands: Seq<BandView>, start: Seq<u32>) -> Seq<Seq<EntryView>> {
    remaining(bands, Stage::Before(start), None)
}

/// The entries of hunks, one hunk after the other.
pub open spec fn concat(hunks: Seq<Seq<EntryView>>) -> Seq<EntryView>
    decreases hunks.len(),
{
    if hunks.len() == 0 {
        Seq::empty()
    } else {
        hunks[0] + concat(hunks.drop_first())
    }
}

/// Every hunk of every band is in strictly increasing order.
pub open spec fn hunks_in_order(bands: Seq<BandView>) -> bool {
    forall|b: int, k: int|
        0 <= b < bands.len() && 0 <= k < bands[b].hunks.len() ==> crate::index::increasing(
            #[trigger] bands[b].hunks[k],
        )
}

/// The entries of a hunk and more hunks are those of the hunk, then those of
/// the others.
pub proof fn lemma_concat_first(hunk: Seq<EntryView>, more: Seq<Seq<EntryView>>)
    ensures
        concat(seq![hunk] + more) == hunk + concat(more),
{
    let all = seq![hunk] + more;
    assert(all[0] == hunk);
    assert(all.drop_first() =~= more);
}

/// Entries after increasing entries, all of them after the bound of those,
/// are after that bound too.
proof fn lemma_all_after_append(
    front: Seq<EntryView>,
    back: Seq<EntryView>,
    last: Option<Seq<u8>>,
)
    requires
        front.len() > 0,
        crate::index::all_after(front, last),
        crate::index::all_after(back, Some(front.last().apath)),
    ensures
        crate::index::all_after(front + back, last),
{
    if last is Some {
        let b = last->0;
        let whole = front + back;
        assert forall|i: int| 0 <= i < whole.len() implies crate::apath::path_lt(
            b,
            #[trigger] whole[i].apath,
        ) by {
            if i < front.len() {
                assert(whole[i] == front[i]);
            } else {
                assert(whole[i] == back[i - front.len()]);
                assert(crate::apath::path_lt(b, front[front.len() - 1].apath));
                crate::apath::lemma_path_lt_transitive(b, front.last().apath, whole[i].apath);
            }
        }
    }
}

/// What is left of entries beyond a bound is in order if they are, and is
/// all after the bound.
pub proof fn lemma_entries_beyond(entries: Seq<EntryView>, last: Option<Seq<u8>>)
    ensures
        crate::index::all_after(crate::index::entries_beyond(entries, last), last),
        crate::index::increasing(entries) ==> crate::index::increasing(
            crate::index::entries_beyond(entries, last),
        ),
{
    if last is Some {
        crate::index::lemma_entries_after(entries, last->0);
    }
}

/// From any stage on, a stitched read yields paths in strictly increasing
/// order, all of them after the last path yielded before.
pub proof fn lemma_remaining_increasing(bands: Seq<BandView>, stage: Stage, last: Option<Seq<u8>>)
    requires
        hunks_in_order(bands),
    ensures
        crate::index::increasing(concat(remaining(bands, stage, last))),
        crate::index::all_after(concat(remaining(bands, stage, last)), last),
    decreases stage_rank(stage), stage_phase(stage), stage_left(bands, stage),
{
    match stage {
        Stage::Done => {},
        Stage::Before(id) => {
            lemma_remaining_increasing(bands, stage_opened(stage, band_opens(bands, id)), last);
        },
        Stage::In(id, k) => {
            let hunks = band_hunks(bands, id);
            if k < hunks.len() {
                let kept = crate::index::entries_beyond(hunks[k as int], last);
                assert(crate::index::increasing(hunks[k as int])) by {
                    assert(has_band(bands, id));
                    assert(hunks == bands[find_band(bands, id)].hunks);
                }
                lemma_entries_beyond(hunks[k as int], last);
                if kept.len() > 0 {
                    let next = Some(kept.last().apath);
                    let rest = remaining(bands, Stage::In(id, k + 1), next);
                    lemma_remaining_increasing(bands, Stage::In(id, k + 1), next);
                    lemma_concat_first(kept, rest);
                    crate::index::lemma_increasing_append(kept, concat(rest));
                    lemma_all_after_append(kept, concat(rest), last);
                } else {
                    lemma_remaining_increasing(bands, Stage::In(id, k + 1), last);
                }
            } else {
                lemma_remaining_increasing(bands, Stage::After(id), last);
            }
        },
        Stage::After(id) => {
            let next = stage_finished(stage, band_closed(bands, id), previous_band(bands, id));
            if next is Before {
                lemma_remaining_increasing(bands, next, last);
            }
        },
    }
}

/// A stitched read yields paths in strictly increasing order, whichever band
/// it starts at and whatever became of the bands before it, as long as each
/// hunk is in order in itself.
pub proof fn lemma_stitched_increasing(bands: Seq<BandView>, start: Seq<u32>)
    requires
        hunks_in_order(bands),
    ensures
        crate::index::increasing(concat(stitched(bands, start))),
{
    lemma_remaining_increasing(bands, Stage::Before(start), None);
}

/// Entries after a bound are picked from each part of a whole by itself.
pub proof fn lemma_entries_after_parts(front: Seq<EntryView>, back: Seq<EntryView>, bound: Seq<u8>)
    ensures
        crate::index::entries_after(front + back, bound) == crate::index::entries_after(
            front,
            bound,
        ) + crate::index::entries_after(back, bound),
    decreases back.len(),
{
    if back.len() == 0 {
        assert(front + back =~= front);
        assert(crate::index::entries_after(back, bound) =~= Seq::<EntryView>::empty());
        assert(crate::index::entries_after(front, bound) + Seq::<EntryView>::empty()
            =~= crate::index::entries_after(front, bound));
    } else {
        lemma_entries_after_parts(front, back.drop_last(), bound);
        assert((front + back).drop_last() =~= front + back.drop_last());
        assert((front + back).last() == back.last());
        let a = crate::index::entries_after(front, bound);
        let b = crate::index::entries_after(back.drop_last(), bound);
        if crate::apath::path_lt(bound, back.last().apath) {
            assert((a + b).push(back.last()) =~= a + b.push(back.last()));
        }
    }
}

/// The parts of increasing entries are increasing, and the second part comes
/// after the first.
pub proof fn lemma_increasing_parts(front: Seq<EntryView>, back: Seq<EntryView>)
    requires
        crate::index::increasing(front + back),
    ensures
        crate::index::increasing(front),
        crate::index::increasing(back),
        crate::index::all_after(back, crate::index::last_path(front, None)),
{
    let whole = front + back;
    assert forall|i: int, j: int| 0 <= i < j < front.len() implies crate::apath::path_lt(
        #[trigger] front[i].apath,
        #[trigger] front[j].apath,
    ) by {
        assert(whole[i] == front[i] && whole[j] == front[j]);
    }
    assert forall|i: int, j: int| 0 <= i < j < back.len() implies crate::apath::path_lt(
        #[trigger] back[i].apath,
        #[trigger] back[j].apath,
    ) by {
        assert(whole[front.len() + i] == back[i] && whole[front.len() + j] == back[j]);
    }
    if front.len() > 0 {
        assert forall|i: int| 0 <= i < back.len() implies crate::apath::path_lt(
            front.last().apath,
            #[trigger] back[i].apath,
        ) by {
            assert(whole[front.len() - 1] == front.last() && whole[front.len() + i] == back[i]);
        }
    }
}

/// A bound that is weaker than one that all entries meet is met by all.
proof fn lemma_all_after_weaker(entries: Seq<EntryView>, bound: Seq<u8>, weaker: Seq<u8>)
    requires
        crate::index::all_after(entries, Some(bound)),
        crate::apath::path_lt(weaker, bound),
    ensures
        crate::index::all_after(entries, Some(weaker)),
{
    assert forall|i: int| 0 <= i < entries.len() implies crate::apath::path_lt(
        weaker,
        #[trigger] entries[i].apath,
    ) by {
        crate::apath::lemma_path_lt_transitive(weaker, bound, entries[i].apath);
    }
}

/// Reading a band whose index is in order, from its hunk `k` on, yields what
/// that part of the index holds beyond the last path yielded before, and then
/// what the read yields once the band has ended.
pub proof fn lemma_read_band(bands: Seq<BandView>, id: Seq<u32>, k: nat, last: Option<Seq<u8>>)
    requires
        k <= band_hunks(bands, id).len(),
        crate::index::increasing(concat(band_hunks(bands, id).skip(k as int))),
    ensures
        ({
            let own = crate::index::entries_beyond(
                concat(band_hunks(bands, id).skip(k as int)),
                last,
            );
            concat(remaining(bands, Stage::In(id, k), last)) == own + concat(
                remaining(bands, Stage::After(id), crate::index::last_path(own, last)),
            )
        }),
    decreases band_hunks(bands, id).len() - k,
{
    let hunks = band_hunks(bands, id);
    let part = hunks.skip(k as int);
    let own = crate::index::entries_beyond(concat(part), last);
    let after = |l: Option<Seq<u8>>| concat(remaining(bands, Stage::After(id), l));
    if k >= hunks.len() {
        assert(part =~= Seq::<Seq<EntryView>>::empty());
        assert(own =~= Seq::<EntryView>::empty());
        assert(own + after(last) =~= after(last));
    } else {
        let hunk = hunks[k as int];
        let more = hunks.skip(k as int + 1);
        let tail = concat(more);
        assert(part[0] == hunk);
        assert(part.drop_first() =~= more);
        assert(concat(part) == hunk + tail);
        lemma_increasing_parts(hunk, tail);
        let kept = crate::index::entries_beyond(hunk, last);
        lemma_entries_beyond(hunk, last);
        if kept.len() > 0 {
            // What is kept ends where the hunk ends, and all that follows in
            // the band comes after it.
            if last is Some {
                crate::index::lemma_entries_after(hunk, last->0);
                lemma_entries_after_parts(hunk, tail, last->0);
            }
            assert(hunk.len() > 0);
            assert(kept.last() == hunk.last());
            let next = Some(hunk.last().apath);
            crate::index::lemma_entries_after_all(tail, hunk.last().apath);
            if last is Some {
                assert(crate::apath::path_lt(last->0, kept[kept.len() - 1].apath));
                lemma_all_after_weaker(tail, hunk.last().apath, last->0);
                crate::index::lemma_entries_after_all(tail, last->0);
            }
            assert(own =~= kept + tail);
            lemma_read_band(bands, id, k + 1, next);
            let rest = remaining(bands, Stage::In(id, k + 1), next);
            lemma_concat_first(kept, rest);
            assert(crate::index::last_path(tail, next) == crate::index::last_path(own, last));
            assert(kept + (tail + after(crate::index::last_path(own, last))) =~= own + after(
                crate::index::last_path(own, last),
            ));
        } else {
            if last is Some {
                lemma_entries_after_parts(hunk, tail, last->0);
                assert(own =~= crate::index::entries_after(tail, last->0));
            } else {
                assert(hunk =~= Seq::<EntryView>::empty());
                assert(own =~= tail);
            }
            lemma_read_band(bands, id, k + 1, last);
        }
    }
}

/// A stitched read of a closed band yields the index of that band and no
/// more.
pub proof fn lemma_stitch_closed(bands: Seq<BandView>, id: Seq<u32>)
    requires
        band_opens(bands, id),
        band_closed(bands, id),
        crate::index::increasing(concat(band_hunks(bands, id))),
    ensures
        concat(stitched(bands, id)) == concat(band_hunks(bands, id)),
{
    let hunks = band_hunks(bands, id);
    assert(hunks.skip(0) =~= hunks);
    lemma_read_band(bands, id, 0, None);
    let own = concat(hunks);
    assert(remaining(bands, Stage::After(id), crate::index::last_path(own, None)) =~= Seq::<
        Seq<EntryView>,
    >::empty());
    assert(own + Seq::<EntryView>::empty() =~= own);
}

/// A stitched read of an incomplete band whose nearest band before is closed
/// yields the entries of the incomplete band, and then those of the band
/// before whose paths come after the last path of the incomplete band.
pub proof fn lemma_stitch_incomplete_then_closed(
    bands: Seq<BandView>,
    id: Seq<u32>,
    before: Seq<u32>,
)
    requires
        band_opens(bands, id),
        !band_closed(bands, id),
        previous_band(bands, id) == Some(before),
        band_opens(bands, before),
        band_closed(bands, before),
        crate::index::increasing(concat(band_hunks(bands, id))),
        crate::index::increasing(concat(band_hunks(bands, before))),
    ensures
        concat(stitched(bands, id)) == concat(band_hunks(bands, id))
            + crate::index::entries_beyond(
            concat(band_hunks(bands, before)),
            crate::index::last_path(concat(band_hunks(bands, id)), None),
        ),
{
    let hunks = band_hunks(bands, id);
    let older = band_hunks(bands, before);
    assert(hunks.skip(0) =~= hunks);
    assert(older.skip(0) =~= older);
    let own = concat(hunks);
    let last = crate::index::last_path(own, None);
    lemma_read_band(bands, id, 0, None);
    lemma_previous_band(bands, id);
    assert(remaining(bands, Stage::After(id), last) == remaining(
        bands,
        Stage::Before(before),
        last,
    ));
    lemma_read_band(bands, before, 0, last);
    let theirs = crate::index::entries_beyond(concat(older), last);
    assert(remaining(bands, Stage::After(before), crate::index::last_path(theirs, last)) =~= Seq::<
        Seq<EntryView>,
    >::empty());
    assert(theirs + Seq::<EntryView>::empty() =~= theirs);
}

/// What the state machine waits for.
#[derive(Debug)]
pub enum StitchRequest {
    /// Open this band, and tell [`IterStitchedIndexHunks::band_opened`]
    /// whether it opened.
    OpenBand(BandId),
    /// Read this hunk of the band, and hand it to
    /// [`IterStitchedIndexHunks::hunk_read`].
    ReadHunk { band_id: BandId, hunk_number: usize },
    /// Find out whether this band is closed and which band comes before it,
    /// and tell [`IterStitchedIndexHunks::band_finished`].
    BandStatus(BandId),
    /// Nothing: the read is over.
    Finished,
}

/// Reconstructs the most complete index there is for a band that may be
/// incomplete.
pub struct IterStitchedIndexHunks {
    /// The last (and greatest) path that was yielded.
    last_apath: Option<Apath>,
    state: State,
}

impl IterStitchedIndexHunks {
    /// Where the read stands.
    pub closed spec fn stage(&self) -> Stage {
        self.state@
    }

    /// The last path that was yielded.
    pub closed spec fn last(&self) -> Option<Seq<u8>> {
        match self.last_apath {
            Some(p) => Some(p@),
            None => None,
        }
    }

    /// A read of the most complete index there is for `band_id`.
    ///
    /// If the band is closed, that is the band's index. If it is not, the
    /// index is stitched: it goes on at the same point in the previous band,
    /// and so on backwards, until there is no previous band or a closed one
    /// is read.
    pub fn new(band_id: BandId) -> (r: IterStitchedIndexHunks)
        ensures
            r.stage() == Stage::Before(band_id@),
            r.last() is None,
    {
        IterStitchedIndexHunks { last_apath: None, state: State::BeforeBand(band_id) }
    }

    /// A read that yields nothing.
    pub fn empty() -> (r: IterStitchedIndexHunks)
        ensures
            r.stage() == Stage::Done,
            r.last() is None,
    {
        IterStitchedIndexHunks { last_apath: None, state: State::Done }
    }

    /// The state of the read.
    pub fn state(&self) -> (r: &State)
        ensures
            r@ == self.stage(),
    {
        &self.state
    }

    /// What the read needs next.
    pub fn request(&self) -> (r: StitchRequest)
        ensures
            match self.stage() {
                Stage::Done => r is Finished,
                Stage::Before(id) => r matches StitchRequest::OpenBand(b) && b@ == id,
                Stage::In(id, k) => r matches StitchRequest::ReadHunk { band_id, hunk_number }
                    && band_id@ == id && hunk_number == k,
                Stage::After(id) => r matches StitchRequest::BandStatus(b) && b@ == id,
            },
    {
        match &self.state {
            State::Done => StitchRequest::Finished,
            State::BeforeBand(id) => StitchRequest::OpenBand(id.clone()),
            State::InBand { band_id, hunk_number } => StitchRequest::ReadHunk {
                band_id: band_id.clone(),
                hunk_number: *hunk_number,
            },
            State::AfterBand(id) => StitchRequest::BandStatus(id.clone()),
        }
    }

    /// Tells the read whether the band it asked for could be opened. A band
    /// that cannot be opened is passed over.
    pub fn band_opened(&mut self, opened: bool)
        ensures
            final(self).stage() == stage_opened(old(self).stage(), opened),
            final(self).last() == old(self).last(),
    {
        let mut state = State::Done;
        core::mem::swap(&mut state, &mut self.state);
        self.state = match state {
            State::BeforeBand(id) => if opened {
                State::InBand { band_id: id, hunk_number: 0 }
            } else {
                State::AfterBand(id)
            },
            other => other,
        };
    }

    /// Hands the read the hunk it asked for, or `None` if the band has no
    /// such hunk. What comes back is what the read yields, if it yields
    /// anything: the entries of the hunk that come after all that was
    /// yielded before.
    pub fn hunk_read(&mut self, hunk: Option<Vec<IndexEntry>>) -> (r: Option<Vec<IndexEntry>>)
        ensures
            match old(self).stage() {
                Stage::In(id, k) => match hunk {
                    None => {
                        &&& r is None
                        &&& final(self).stage() == Stage::After(id)
                        &&& final(self).last() == old(self).last()
                    },
                    Some(h) => {
                        let kept = crate::index::entries_beyond(h.deep_view(), old(self).last());
                        &&& final(self).stage() == (if k < usize::MAX {
                            Stage::In(id, k + 1)
                        } else {
                            Stage::After(id)
                        })
                        &&& final(self).last() == crate::index::last_path(kept, old(self).last())
                        &&& kept.len() == 0 ==> r is None
                        &&& kept.len() > 0 ==> (r matches Some(y) && y.deep_view() == kept)
                    },
                },
                _ => {
                    &&& r is None
                    &&& final(self).stage() == old(self).stage()
                    &&& final(self).last() == old(self).last()
                },
            },
    {
        let mut state = State::Done;
        core::mem::swap(&mut state, &mut self.state);
        match state {
            State::InBand { band_id, hunk_number } => {
                match hunk {
                    None => {
                        self.state = State::AfterBand(band_id);
                        None
                    },
                    Some(h) => {
                        self.state = if hunk_number < usize::MAX {
                            State::InBand { band_id, hunk_number: hunk_number + 1 }
                        } else {
                            State::AfterBand(band_id)
                        };
                        let kept = match &self.last_apath {
                            Some(last) => crate::index::hunk_after(h, last),
                            None => h,
                        };
                        let n = kept.len();
                        if n > 0 {
                            self.last_apath = Some(kept[n - 1].apath.clone());
                            assert(kept.deep_view().last() == kept@[n - 1]@);
                            Some(kept)
                        } else {
                            None
                        }
                    },
                }
            },
            other => {
                self.state = other;
                None
            },
        }
    }

    /// Tells the read, which has come to the end of a band, whether that band
    /// is closed and which band comes before it. After a closed band nothing
    /// more is read, since its index is complete. Otherwise the read goes on
    /// in `previous`, which must be the same id with a lower last number, or
    /// ends if there is no such band.
    pub fn band_finished(&mut self, closed: bool, previous: Option<BandId>)
        ensures
            final(self).stage() == stage_finished(
                old(self).stage(),
                closed,
                match previous {
                    Some(p) => Some(p@),
                    None => None,
                },
            ),
            final(self).last() == old(self).last(),
    {
        let mut state = State::Done;
        core::mem::swap(&mut state, &mut self.state);
        self.state = match state {
            State::AfterBand(id) => if closed {
                State::Done
            } else {
                match previous {
                    Some(p) => if is_earlier_sibling(&p, &id) {
                        State::BeforeBand(p)
                    } else {
                        State::Done
                    },
                    None => State::Done,
                }
            },
            other => other,
        };
    }
}

/// Reads the entries of a stitched index that lie within a subtree and are
/// not left out. It is driven like [`IterStitchedIndexHunks`], which it wraps.
pub struct IndexEntryIter {
    hunks: IterStitchedIndexHunks,
    subtree: Apath,
    exclude: crate::excludes::Exclude,
}

impl IterStitchedIndexHunks {
    /// Reads only the entries that lie within `subtree` and that `exclude`
    /// does not leave out.
    pub fn iter_entries(self, subtree: Apath, exclude: crate::excludes::Exclude) -> (r:
        IndexEntryIter)
        ensures
            r.stage() == self.stage(),
            r.last() == self.last(),
            r.subtree() == subtree@,
            r.patterns() == exclude.patterns(),
    {
        IndexEntryIter { hunks: self, subtree, exclude }
    }
}

impl IndexEntryIter {
    /// Where the read stands.
    pub closed spec fn stage(&self) -> Stage {
        self.hunks.stage()
    }

    /// The last path that the stitched read has yielded, kept or not.
    pub closed spec fn last(&self) -> Option<Seq<u8>> {
        self.hunks.last()
    }

    /// The subtree that is read.
    pub closed spec fn subtree(&self) -> Seq<u8> {
        self.subtree@
    }

    /// The patterns of the paths that are left out.
    pub closed spec fn patterns(&self) -> Seq<Seq<char>> {
        self.exclude.patterns()
    }

    /// What the read needs next.
    pub fn request(&self) -> (r: StitchRequest)
        ensures
            match self.stage() {
                Stage::Done => r is Finished,
                Stage::Before(id) => r matches StitchRequest::OpenBand(b) && b@ == id,
                Stage::In(id, k) => r matches StitchRequest::ReadHunk { band_id, hunk_number }
                    && band_id@ == id && hunk_number == k,
                Stage::After(id) => r matches StitchRequest::BandStatus(b) && b@ == id,
            },
    {
        self.hunks.request()
    }

    /// Tells the read whether the band it asked for could be opened.
    pub fn band_opened(&mut self, opened: bool)
        ensures
            final(self).stage() == stage_opened(old(self).stage(), opened),
            final(self).last() == old(self).last(),
            final(self).subtree() == old(self).subtree(),
            final(self).patterns() == old(self).patterns(),
    {
        self.hunks.band_opened(opened);
    }

    /// Tells the read whether the band it has come to the end of is closed,
    /// and which band comes before it.
    pub fn band_finished(&mut self, closed: bool, previous: Option<BandId>)
        ensures
            final(self).stage() == stage_finished(
                old(self).stage(),
                closed,
                match previous {
                    Some(p) => Some(p@),
                    None => None,
                },
            ),
            final(self).last() == old(self).last(),
            final(self).subtree() == old(self).subtree(),
            final(self).patterns() == old(self).patterns(),
    {
        self.hunks.band_finished(closed, previous);
    }

    /// Hands the read the hunk it asked for, or `None` if the band has no
    /// such hunk. What comes back are the entries to yield: those that the
    /// stitched read yields of the hunk, as far as they lie within the
    /// subtree and are not left out.
    pub fn hunk_read(&mut self, hunk: Option<Vec<IndexEntry>>) -> (r: Vec<IndexEntry>)
        requires
            crate::apath::valid_path(old(self).subtree()),
            hunk matches Some(h) ==> forall|i: int|
                0 <= i < h@.len() ==> (#[trigger] h@[i]).apath.wf(),
        ensures
            final(self).subtree() == old(self).subtree(),
            final(self).patterns() == old(self).patterns(),
            match old(self).stage() {
                Stage::In(id, k) => match hunk {
                    None => {
                        &&& r@.len() == 0
                        &&& final(self).stage() == Stage::After(id)
                        &&& final(self).last() == old(self).last()
                    },
                    Some(h) => {
                        let kept = crate::index::entries_beyond(h.deep_view(), old(self).last());
                        &&& final(self).stage() == (if k < usize::MAX {
                            Stage::In(id, k + 1)
                        } else {
                            Stage::After(id)
                        })
                        &&& final(self).last() == crate::index::last_path(kept, old(self).last())
                        &&& r.deep_view() == crate::excludes::entries_selected(
                            kept,
                            old(self).subtree(),
                            crate::excludes::left_out(old(self).patterns(), kept),
                        )
                        &&& old(self).patterns().len() == 0 ==> r.deep_view()
                            == crate::excludes::entries_selected(
                            kept,
                            old(self).subtree(),
                            crate::excludes::none_left_out(kept.len()),
                        )
                    },
                },
                _ => {
                    &&& r@.len() == 0
                    &&& final(self).stage() == old(self).stage()
                    &&& final(self).last() == old(self).last()
                },
            },
    {
        let ghost given = if hunk is Some {
            hunk->0@
        } else {
            Seq::empty()
        };
        match self.hunks.hunk_read(hunk) {
            Some(kept) => {
                proof {
                    // What is kept of a hunk is made of entries of the hunk.
                    let views = kept.deep_view();
                    let from = hunk->0.deep_view();
                    if old(self).last() is Some {
                        crate::index::lemma_entries_after(from, old(self).last()->0);
                    }
                    assert forall|i: int| 0 <= i < kept@.len() implies (
                    #[trigger] kept@[i]).apath.wf() by {
                        assert(views[i] == kept@[i]@);
                        if old(self).last() is None {
                            assert(from[i] == views[i]);
                        }
                        assert(from.contains(views[i]));
                        let k = choose|k: int| 0 <= k < from.len() && from[k] == views[i];
                        assert(from[k] == given[k]@);
                        assert(given[k].apath.wf());
                    }
                }
                let ghost views = kept.deep_view();
                let r = crate::excludes::filter_entries(kept, &self.subtree, &self.exclude);
                proof {
                    assert(views == crate::index::entries_beyond(
                        hunk->0.deep_view(),
                        old(self).last(),
                    ));
                }
                r
            },
            None => {
                let r: Vec<IndexEntry> = Vec::new();
                proof {
                    if old(self).stage() is In && hunk is Some {
                        let none = Seq::<bool>::empty();
                        let kept = crate::index::entries_beyond(
                            hunk->0.deep_view(),
                            old(self).last(),
                        );
                        assert(kept =~= Seq::<EntryView>::empty());
                        assert(r.deep_view() =~= crate::excludes::entries_selected(
                            kept,
                            old(self).subtree(),
                            none,
                        ));
                        assert(crate::excludes::left_out(old(self).patterns(), kept) =~= none);
                        assert(crate::excludes::none_left_out(kept.len()) =~= none);
                    }
                }
                r
            },
        }
    }
}

/// True if `p` is `id` with a lower last number.
pub fn is_earlier_sibling(p: &BandId, id: &BandId) -> (r: bool)
    ensures
        r == earlier_sibling(p@, id@),
{
    let n = p.len();
    if n != id.len() {
        return false;
    }
    if !(p.last() < id.last()) {
        return false;
    }
    let mut i: usize = 0;
    while i + 1 < n
        invariant
            n == p@.len(),
            n == id@.len(),
            n >= 1,
            i <= n - 1,
            p@.take(i as int) == id@.take(i as int),
        decreases n - i,
    {
        if p.get(i) != id.get(i) {
            assert(p@.drop_last()[i as int] != id@.drop_last()[i as int]);
            return false;
        }
        assert(p@.take(i as int + 1) =~= p@.take(i as int).push(p@[i as int]));
        assert(id@.take(i as int + 1) =~= id@.take(i as int).push(id@[i as int]));
        i = i + 1;
    }
    assert(p@.drop_last() =~= p@.take(n - 1));
    assert(id@.drop_last() =~= id@.take(n - 1));
    true
}

/// What [`find_band`] finds.
pub proof fn lemma_find_band(bands: Seq<BandView>, id: Seq<u32>)
    ensures
        0 <= find_band(bands, id) <= bands.len(),
        forall|k: int| 0 <= k < find_band(bands, id) ==> bands[k].id != id,
        find_band(bands, id) < bands.len() ==> bands[find_band(bands, id)].id == id,
    decreases bands.len(),
{
    if bands.len() == 0 || bands[0].id == id {
    } else {
        lemma_find_band(bands.drop_first(), id);
        assert forall|k: int| 0 <= k < find_band(bands, id) implies bands[k].id != id by {
            if k > 0 {
                assert(bands[k] == bands.drop_first()[k - 1]);
            }
        }
    }
}

/// The first band with an id is where no band before has it.
pub proof fn lemma_find_band_at(bands: Seq<BandView>, id: Seq<u32>, i: int)
    requires
        0 <= i <= bands.len(),
        forall|k: int| 0 <= k < i ==> bands[k].id != id,
        i < bands.len() ==> bands[i].id == id,
    ensures
        find_band(bands, id) == i,
    decreases bands.len(),
{
    if bands.len() == 0 || bands[0].id == id {
    } else {
        assert forall|k: int| 0 <= k < i - 1 implies bands.drop_first()[k].id != id by {
            assert(bands.drop_first()[k] == bands[k + 1]);
        }
        lemma_find_band_at(bands.drop_first(), id, i - 1);
    }
}

/// The band before a band, where there is one, is that band with a lower last
/// number, and it exists.
pub proof fn lemma_previous_band(bands: Seq<BandView>, id: Seq<u32>)
    ensures
        previous_band(bands, id) matches Some(p) ==> earlier_sibling(p, id) && has_band(bands, p),
    decreases
            (if id.len() >= 1 {
                id.last() as int
            } else {
                0
            }),
{
    if id.len() == 0 || id.last() == 0 {
    } else {
        let p = id.drop_last().push((id.last() - 1) as u32);
        assert(p.drop_last() =~= id.drop_last());
        if !has_band(bands, p) {
            lemma_previous_band(bands, p);
            if previous_band(bands, p) is Some {
                let q = previous_band(bands, p)->0;
                assert(q.drop_last() == id.drop_last());
            }
        }
    }
}

/// Finds the first band with this id.
pub fn find_band_index(bands: &Vec<BandIndex>, id: &BandId) -> (r: Option<usize>)
    ensures
        r is Some <==> has_band(bands.deep_view(), id@),
        r matches Some(i) ==> i == find_band(bands.deep_view(), id@) && i < bands.len(),
{
    let ghost views = bands.deep_view();
    let mut i: usize = 0;
    while i < bands.len()
        invariant
            i <= bands.len(),
            views == bands.deep_view(),
            forall|k: int| 0 <= k < i ==> views[k].id != id@,
        decreases bands.len() - i,
    {
        if bands[i].id.same_as(id) {
            proof {
                assert(views[i as int].id == id@);
                lemma_find_band_at(views, id@, i as int);
            }
            return Some(i);
        }
        assert(views[i as int].id == bands[i as int].id@);
        i = i + 1;
    }
    proof {
        lemma_find_band_at(views, id@, i as int);
    }
    None
}

/// Finds the nearest band before `id` that is among `bands`.
pub fn previous_band_in(bands: &Vec<BandIndex>, id: &BandId) -> (r: Option<BandId>)
    ensures
        match r {
            Some(p) => previous_band(bands.deep_view(), id@) == Some(p@),
            None => previous_band(bands.deep_view(), id@) is None,
        },
{
    let mut at = id.clone();
    loop
        invariant
            previous_band(bands.deep_view(), id@) == previous_band(bands.deep_view(), at@),
        decreases at@.last(),
    {
        match at.previous() {
            None => {
                return None;
            },
            Some(p) => {
                if find_band_index(bands, &p).is_some() {
                    return Some(p);
                }
                at = p;
            },
        }
    }
}

/// A copy of a hunk.
pub fn copy_hunk(hunk: &Vec<IndexEntry>) -> (r: Vec<IndexEntry>)
    ensures
        r.deep_view() == hunk.deep_view(),
{
    let mut out: Vec<IndexEntry> = Vec::new();
    let mut i: usize = 0;
    while i < hunk.len()
        invariant
            i <= hunk.len(),
            out@.len() == i,
            forall|j: int| 0 <= j < i ==> (#[trigger] out@[j])@ == hunk@[j]@,
        decreases hunk.len() - i,
    {
        out.push(hunk[i].clone());
        i = i + 1;
    }
    assert(out.deep_view() =~= hunk.deep_view());
    out
}

/// The path of every entry is canonical.
pub open spec fn hunk_valid(entries: Seq<EntryView>) -> bool {
    forall|i: int| 0 <= i < entries.len() ==> crate::apath::valid_path(#[trigger] entries[i].apath)
}

/// The path of every entry of every hunk of every band is canonical.
pub open spec fn bands_valid(bands: Seq<BandView>) -> bool {
    forall|b: int, k: int|
        0 <= b < bands.len() && 0 <= k < bands[b].hunks.len() ==> hunk_valid(
            #[trigger] bands[b].hunks[k],
        )
}

/// What a stitched read yields are entries of the bands: where those have
/// canonical paths, so has all that is read.
pub proof fn lemma_remaining_valid(bands: Seq<BandView>, stage: Stage, last: Option<Seq<u8>>)
    requires
        bands_valid(bands),
    ensures
        forall|i: int|
            0 <= i < remaining(bands, stage, last).len() ==> hunk_valid(
                #[trigger] remaining(bands, stage, last)[i],
            ),
        hunk_valid(concat(remaining(bands, stage, last))),
    decreases stage_rank(stage), stage_phase(stage), stage_left(bands, stage),
{
    match stage {
        Stage::Done => {},
        Stage::Before(id) => {
            lemma_remaining_valid(bands, stage_opened(stage, band_opens(bands, id)), last);
        },
        Stage::In(id, k) => {
            let hunks = band_hunks(bands, id);
            if k < hunks.len() {
                let hunk = hunks[k as int];
                let kept = crate::index::entries_beyond(hunk, last);
                assert(hunk_valid(hunk)) by {
                    assert(has_band(bands, id));
                    assert(hunks == bands[find_band(bands, id)].hunks);
                }
                assert(hunk_valid(kept)) by {
                    if last is Some {
                        crate::index::lemma_entries_after(hunk, last->0);
                    }
                    assert forall|i: int| 0 <= i < kept.len() implies crate::apath::valid_path(
                        #[trigger] kept[i].apath,
                    ) by {
                        assert(hunk.contains(kept[i]));
                        let j = choose|j: int| 0 <= j < hunk.len() && hunk[j] == kept[i];
                        assert(crate::apath::valid_path(hunk[j].apath));
                    }
                }
                if kept.len() > 0 {
                    let next = Some(kept.last().apath);
                    let rest = remaining(bands, Stage::In(id, k + 1), next);
                    lemma_remaining_valid(bands, Stage::In(id, k + 1), next);
                    lemma_concat_first(kept, rest);
                    let all = seq![kept] + rest;
                    assert forall|i: int| 0 <= i < all.len() implies hunk_valid(#[trigger] all[i]) by {
                        if i > 0 {
                            assert(all[i] == rest[i - 1]);
                        }
                    }
                    assert forall|i: int| 0 <= i < (kept + concat(rest)).len() implies crate::apath::valid_path(
                        #[trigger] (kept + concat(rest))[i].apath,
                    ) by {
                        if i >= kept.len() {
                            assert((kept + concat(rest))[i] == concat(rest)[i - kept.len()]);
                        }
                    }
                } else {
                    lemma_remaining_valid(bands, Stage::In(id, k + 1), last);
                }
            } else {
                lemma_remaining_valid(bands, Stage::After(id), last);
            }
        },
        Stage::After(id) => {
            let next = stage_finished(stage, band_closed(bands, id), previous_band(bands, id));
            if next is Before {
                lemma_remaining_valid(bands, next, last);
            }
        },
    }
}

/// The entries of hunks and one more hunk are those of the hunks, then those
/// of the one.
pub proof fn lemma_concat_push(hunks: Seq<Seq<EntryView>>, hunk: Seq<EntryView>)
    ensures
        concat(hunks.push(hunk)) == concat(hunks) + hunk,
    decreases hunks.len(),
{
    let all = hunks.push(hunk);
    if hunks.len() == 0 {
        assert(all[0] == hunk);
        assert(all.drop_first() =~= Seq::<Seq<EntryView>>::empty());
        assert(concat(all.drop_first()) =~= Seq::<EntryView>::empty());
        assert(concat(hunks) =~= Seq::<EntryView>::empty());
        assert(concat(all) =~= hunk + Seq::<EntryView>::empty());
        assert(concat(hunks) + hunk =~= hunk);
        assert(hunk + Seq::<EntryView>::empty() =~= hunk);
    } else {
        lemma_concat_push(hunks.drop_first(), hunk);
        assert(all.drop_first() =~= hunks.drop_first().push(hunk));
        assert(all[0] == hunks[0]);
        assert(hunks[0] + (concat(hunks.drop_first()) + hunk) =~= (hunks[0] + concat(
            hunks.drop_first(),
        )) + hunk);
    }
}

/// Reads the entries of the most complete index there is for the band
/// `start` out of bands held in memory: the entries that a stitched read
/// yields, in order, as far as they lie within `subtree` and are not left out
/// by `exclude`. With the root as the subtree and nothing left out, these are
/// all the entries that the stitched read yields.
pub fn stitch_entries(
    bands: &Vec<BandIndex>,
    start: &BandId,
    subtree: &Apath,
    exclude: &crate::excludes::Exclude,
) -> (r: Vec<IndexEntry>)
    requires
        subtree.wf(),
        bands_valid(bands.deep_view()),
    ensures
        r.deep_view() == crate::excludes::selected(
            concat(stitched(bands.deep_view(), start@)),
            subtree@,
            exclude.patterns(),
        ),
        exclude.patterns().len() == 0 ==> r.deep_view() == crate::excludes::entries_selected(
            concat(stitched(bands.deep_view(), start@)),
            subtree@,
            crate::excludes::none_left_out(concat(stitched(bands.deep_view(), start@)).len()),
        ),
        exclude.patterns().len() == 0 && subtree@ == seq![crate::apath::SLASH] ==> r.deep_view()
            == concat(stitched(bands.deep_view(), start@)),
{
    let hunks = stitch_bands(bands, start);
    let ghost views = hunks.deep_view();
    let ghost patterns = exclude.patterns();
    proof {
        lemma_remaining_valid(bands.deep_view(), Stage::Before(start@), None);
    }
    let mut out: Vec<IndexEntry> = Vec::new();
    let mut k: usize = 0;
    proof {
        assert(views.take(0) =~= Seq::<Seq<EntryView>>::empty());
        assert(out.deep_view() =~= Seq::<EntryView>::empty());
    }
    while k < hunks.len()
        invariant
            k <= hunks.len(),
            subtree.wf(),
            views == hunks.deep_view(),
            patterns == exclude.patterns(),
            forall|i: int| 0 <= i < views.len() ==> hunk_valid(#[trigger] views[i]),
            out.deep_view() == crate::excludes::selected(
                concat(views.take(k as int)),
                subtree@,
                patterns,
            ),
            patterns.len() == 0 ==> out.deep_view() == crate::excludes::entries_selected(
                concat(views.take(k as int)),
                subtree@,
                crate::excludes::none_left_out(concat(views.take(k as int)).len()),
            ),
        decreases hunks.len() - k,
    {
        let hunk = copy_hunk(&hunks[k]);
        let ghost before = out.deep_view();
        proof {
            assert(views[k as int] == hunks@[k as int].deep_view());
            assert(hunk_valid(views[k as int]));
            assert forall|i: int| 0 <= i < hunk@.len() implies (#[trigger] hunk@[i]).apath.wf() by {
                assert(hunk.deep_view()[i] == hunk@[i]@);
                assert(crate::apath::valid_path(views[k as int][i].apath));
            }
            assert(views.take(k as int + 1) =~= views.take(k as int).push(views[k as int]));
            lemma_concat_push(views.take(k as int), views[k as int]);
            crate::excludes::lemma_selected_parts(
                concat(views.take(k as int)),
                views[k as int],
                subtree@,
                patterns,
            );
        }
        let mut kept = crate::excludes::filter_entries(hunk, subtree, exclude);
        let ghost more = kept.deep_view();
        out.append(&mut kept);
        proof {
            assert(out.deep_view() =~= before + more);
        }
        k = k + 1;
    }
    proof {
        assert(views.take(k as int) =~= views);
        if patterns.len() == 0 && subtree@ == seq![crate::apath::SLASH] {
            crate::excludes::lemma_root_keeps_all(concat(views));
        }
    }
    out
}

/// Reads the most complete index there is for the band `start` out of bands
/// held in memory: the hunks that a stitched read yields, in order.
pub fn stitch_bands(bands: &Vec<BandIndex>, start: &BandId) -> (r: Vec<Vec<IndexEntry>>)
    ensures
        r.deep_view() == stitched(bands.deep_view(), start@),
{
    let ghost views = bands.deep_view();
    let ghost goal = stitched(views, start@);
    let mut reader = IterStitchedIndexHunks::new(start.clone());
    let mut out: Vec<Vec<IndexEntry>> = Vec::new();
    assert(out.deep_view() =~= Seq::<Seq<EntryView>>::empty());
    loop
        invariant
            views == bands.deep_view(),
            goal == out.deep_view() + remaining(views, reader.stage(), reader.last()),
            reader.stage() matches Stage::In(id, k) ==> band_opens(views, id),
        ensures
            goal == out.deep_view(),
        decreases
                stage_rank(reader.stage()),
                stage_phase(reader.stage()),
                stage_left(views, reader.stage()),
    {
        let ghost stage = reader.stage();
        let ghost last = reader.last();
        match reader.request() {
            StitchRequest::Finished => {
                assert(out.deep_view() + Seq::<Seq<EntryView>>::empty() =~= out.deep_view());
                break ;
            },
            StitchRequest::OpenBand(id) => {
                let opened = match find_band_index(bands, &id) {
                    Some(i) => {
                        assert(views[i as int].opens == bands[i as int].opens);
                        bands[i].opens
                    },
                    None => false,
                };
                reader.band_opened(opened);
            },
            StitchRequest::ReadHunk { band_id, hunk_number } => {
                let found = find_band_index(bands, &band_id);
                let i = found.unwrap();
                assert(views[i as int].hunks == bands[i as int].hunks.deep_view());
                let hunk = if hunk_number < bands[i].hunks.len() {
                    Some(copy_hunk(&bands[i].hunks[hunk_number]))
                } else {
                    None
                };
                let ghost before = out.deep_view();
                match reader.hunk_read(hunk) {
                    Some(kept) => {
                        out.push(kept);
                        assert(out.deep_view() =~= before + seq![kept.deep_view()]);
                        assert(goal =~= out.deep_view() + remaining(
                            views,
                            reader.stage(),
                            reader.last(),
                        ));
                    },
                    None => {},
                }
            },
            StitchRequest::BandStatus(id) => {
                let closed = match find_band_index(bands, &id) {
                    Some(i) => {
                        assert(views[i as int].closed == bands[i as int].closed);
                        bands[i].closed
                    },
                    None => false,
                };
                let previous = previous_band_in(bands, &id);
                proof {
                    lemma_previous_band(views, id@);
                }
                reader.band_finished(closed, previous);
                proof {
                    if !(reader.stage() is Before) {
                        assert(reader.stage() is Done);
                    }
                }
            },
        }
    }
    out
}

} // verus!
