//! Merge two trees by walking them in lock step.
//!
//! This is a foundation for showing the difference between a stored and a
//! live tree, or for storing an incremental backup.

use vstd::prelude::*;
use crate::apath::Apath;
use crate::apath::Place;
use crate::entry::Entry;

verus! {

/// On which side of a merge a path was found.
#[derive(Clone, Copy, Debug, PartialEq, Eq, Structural)]
pub enum MergedEntryKind {
    LeftOnly,
    RightOnly,
    Both,
}

/// One path of a merge, and where it was found.
#[derive(Debug, PartialEq, Eq)]
pub struct MergedEntry {
    pub apath: Apath,
    pub kind: MergedEntryKind,
}

/// What a [`MergedEntry`] says.
pub ghost struct MergedView {
    pub apath: Seq<u8>,
    pub kind: MergedEntryKind,
}

impl View for MergedEntry {
    type V = MergedView;

    open spec fn view(&self) -> MergedView {
        MergedView { apath: self.apath@, kind: self.kind }
    }
}

impl DeepView for MergedEntry {
    type V = MergedView;

    open spec fn deep_view(&self) -> MergedView {
        self@
    }
}

/// The paths of two trees zipped together: each path once, in order, with the
/// side or sides it is on. Both lists are taken to be in increasing order.
pub open spec fn merged(a: Seq<Seq<u8>>, b: Seq<Seq<u8>>) -> Seq<MergedView>
    decreases a.len() + b.len(),
{
    if a.len() == 0 && b.len() == 0 {
        Seq::empty()
    } else if a.len() == 0 {
        seq![MergedView { apath: b[0], kind: MergedEntryKind::RightOnly }] + merged(
            a,
            b.drop_first(),
        )
    } else if b.len() == 0 {
        seq![MergedView { apath: a[0], kind: MergedEntryKind::LeftOnly }] + merged(
            a.drop_first(),
            b,
        )
    } else if a[0] == b[0] {
        seq![MergedView { apath: a[0], kind: MergedEntryKind::Both }] + merged(
            a.drop_first(),
            b.drop_first(),
        )
    } else if crate::apath::path_lt(a[0], b[0]) {
        seq![MergedView { apath: a[0], kind: MergedEntryKind::LeftOnly }] + merged(
            a.drop_first(),
            b,
        )
    } else {
        seq![MergedView { apath: b[0], kind: MergedEntryKind::RightOnly }] + merged(
            a,
            b.drop_first(),
        )
    }
}

/// The paths are in strictly increasing order.
pub open spec fn paths_increasing(paths: Seq<Seq<u8>>) -> bool {
    forall|i: int, j: int|
        0 <= i < j < paths.len() ==> crate::apath::path_lt(#[trigger] paths[i], #[trigger] paths[j])
}

/// `p` comes before every one of the paths.
pub open spec fn before_all(p: Seq<u8>, paths: Seq<Seq<u8>>) -> bool {
    forall|i: int| 0 <= i < paths.len() ==> crate::apath::path_lt(p, #[trigger] paths[i])
}

/// The paths of a merge.
pub open spec fn merged_paths(items: Seq<MergedView>) -> Seq<Seq<u8>> {
    Seq::new(items.len(), |i: int| items[i].apath)
}

/// What is left of increasing paths without the first is increasing, and
/// comes after the first.
pub proof fn lemma_paths_rest(paths: Seq<Seq<u8>>)
    requires
        paths_increasing(paths),
        paths.len() > 0,
    ensures
        paths_increasing(paths.drop_first()),
        before_all(paths[0], paths.drop_first()),
{
    let rest = paths.drop_first();
    assert forall|i: int, j: int| 0 <= i < j < rest.len() implies crate::apath::path_lt(
        #[trigger] rest[i],
        #[trigger] rest[j],
    ) by {
        assert(rest[i] == paths[i + 1] && rest[j] == paths[j + 1]);
    }
    assert forall|i: int| 0 <= i < rest.len() implies crate::apath::path_lt(
        paths[0],
        #[trigger] rest[i],
    ) by {
        assert(rest[i] == paths[i + 1]);
    }
}

/// What comes after a path that is before all paths is before them too.
proof fn lemma_before_all_weaker(p: Seq<u8>, q: Seq<u8>, paths: Seq<Seq<u8>>)
    requires
        crate::apath::path_lt(p, q),
        before_all(q, paths),
    ensures
        before_all(p, paths),
{
    assert forall|i: int| 0 <= i < paths.len() implies crate::apath::path_lt(
        p,
        #[trigger] paths[i],
    ) by {
        crate::apath::lemma_path_lt_transitive(p, q, paths[i]);
    }
}

/// A merge of increasing paths is increasing, and what is before all paths
/// of both sides is before all paths of the merge.
pub proof fn lemma_merged_increasing(a: Seq<Seq<u8>>, b: Seq<Seq<u8>>, floor: Option<Seq<u8>>)
    requires
        paths_increasing(a),
        paths_increasing(b),
        floor matches Some(f) ==> before_all(f, a) && before_all(f, b),
    ensures
        paths_increasing(merged_paths(merged(a, b))),
        floor matches Some(f) ==> before_all(f, merged_paths(merged(a, b))),
        merged(a, b).len() <= a.len() + b.len(),
    decreases a.len() + b.len(),
{
    if a.len() == 0 && b.len() == 0 {
    } else {
        crate::apath::lemma_path_lt_total(
            if a.len() > 0 {
                a[0]
            } else {
                b[0]
            },
            if b.len() > 0 {
                b[0]
            } else {
                a[0]
            },
        );
        let take_a = a.len() > 0 && (b.len() == 0 || a[0] == b[0] || crate::apath::path_lt(
            a[0],
            b[0],
        ));
        let take_b = b.len() > 0 && (a.len() == 0 || a[0] == b[0] || !crate::apath::path_lt(
            a[0],
            b[0],
        ));
        let head = if take_a {
            a[0]
        } else {
            b[0]
        };
        let rest_a = if take_a {
            a.drop_first()
        } else {
            a
        };
        let rest_b = if take_b {
            b.drop_first()
        } else {
            b
        };
        if a.len() > 0 {
            lemma_paths_rest(a);
        }
        if b.len() > 0 {
            lemma_paths_rest(b);
        }
        // The head comes before all that is left on both sides.
        if take_a && !take_b && b.len() > 0 {
            assert(before_all(b[0], b.drop_first()));
            lemma_before_all_weaker(head, b[0], b.drop_first());
            assert(before_all(head, b)) by {
                assert forall|i: int| 0 <= i < b.len() implies crate::apath::path_lt(
                    head,
                    #[trigger] b[i],
                ) by {
                    if i > 0 {
                        assert(b[i] == b.drop_first()[i - 1]);
                    }
                }
            }
        }
        if take_b && !take_a && a.len() > 0 {
            assert(crate::apath::path_lt(b[0], a[0]));
            lemma_before_all_weaker(head, a[0], a.drop_first());
            assert(before_all(head, a)) by {
                assert forall|i: int| 0 <= i < a.len() implies crate::apath::path_lt(
                    head,
                    #[trigger] a[i],
                ) by {
                    if i > 0 {
                        assert(a[i] == a.drop_first()[i - 1]);
                    }
                }
            }
        }
        lemma_merged_increasing(rest_a, rest_b, Some(head));
        let rest = merged_paths(merged(rest_a, rest_b));
        let all = merged_paths(merged(a, b));
        assert(all =~= seq![head] + rest);
        assert forall|i: int, j: int| 0 <= i < j < all.len() implies crate::apath::path_lt(
            #[trigger] all[i],
            #[trigger] all[j],
        ) by {
            if i == 0 {
                assert(all[j] == rest[j - 1]);
            } else {
                assert(all[i] == rest[i - 1] && all[j] == rest[j - 1]);
            }
        }
        if floor is Some {
            let f = floor->0;
            assert(crate::apath::path_lt(f, head)) by {
                if take_a {
                    assert(crate::apath::path_lt(f, a[0]));
                } else {
                    assert(crate::apath::path_lt(f, b[0]));
                }
            }
            assert forall|i: int| 0 <= i < all.len() implies crate::apath::path_lt(
                f,
                #[trigger] all[i],
            ) by {
                if i > 0 {
                    assert(all[i] == rest[i - 1]);
                    crate::apath::lemma_path_lt_transitive(f, head, rest[i - 1]);
                }
            }
        }
    }
}

/// One of the paths is `p`.
pub open spec fn has_path(paths: Seq<Seq<u8>>, p: Seq<u8>) -> bool {
    exists|i: int| 0 <= i < paths.len() && #[trigger] paths[i] == p
}

/// Every item of a merge of increasing paths tells the truth: its path is on
/// the left if it says left or both, on the right if it says right or both,
/// and on no side that it does not say.
pub proof fn lemma_merged_sides(a: Seq<Seq<u8>>, b: Seq<Seq<u8>>, k: int)
    requires
        paths_increasing(a),
        paths_increasing(b),
        0 <= k < merged(a, b).len(),
    ensures
        has_path(a, merged(a, b)[k].apath) <==> merged(a, b)[k].kind != MergedEntryKind::RightOnly,
        has_path(b, merged(a, b)[k].apath) <==> merged(a, b)[k].kind != MergedEntryKind::LeftOnly,
    decreases a.len() + b.len(),
{
    let take_a = a.len() > 0 && (b.len() == 0 || a[0] == b[0] || crate::apath::path_lt(a[0], b[0]));
    let take_b = b.len() > 0 && (a.len() == 0 || a[0] == b[0] || !crate::apath::path_lt(a[0], b[0]));
    let rest_a = if take_a {
        a.drop_first()
    } else {
        a
    };
    let rest_b = if take_b {
        b.drop_first()
    } else {
        b
    };
    if a.len() > 0 {
        lemma_paths_rest(a);
        crate::apath::lemma_path_lt_irreflexive(a[0]);
    }
    if b.len() > 0 {
        lemma_paths_rest(b);
        crate::apath::lemma_path_lt_irreflexive(b[0]);
    }
    if a.len() > 0 && b.len() > 0 {
        crate::apath::lemma_path_lt_total(a[0], b[0]);
    }
    let item = merged(a, b)[k];
    let p = item.apath;
    if k == 0 {
        // The head is the lowest path of both sides.
        if take_a {
            assert(a[0] == p);
        }
        if take_b {
            assert(b[0] == p);
        }
        if !take_a && has_path(a, p) {
            let i = choose|i: int| 0 <= i < a.len() && #[trigger] a[i] == p;
            if i > 0 {
                assert(a.drop_first()[i - 1] == a[i]);
                crate::apath::lemma_path_lt_transitive(b[0], a[0], a[i]);
            }
            crate::apath::lemma_path_lt_irreflexive(p);
        }
        if !take_b && has_path(b, p) {
            let i = choose|i: int| 0 <= i < b.len() && #[trigger] b[i] == p;
            if i > 0 {
                assert(b.drop_first()[i - 1] == b[i]);
                crate::apath::lemma_path_lt_transitive(a[0], b[0], b[i]);
            }
            crate::apath::lemma_path_lt_irreflexive(p);
        }
    } else {
        let rest = merged(rest_a, rest_b);
        assert(merged(a, b)[k] == rest[k - 1]);
        lemma_merged_sides(rest_a, rest_b, k - 1);
        // What is left is above the head, so the head is not the path.
        let head = merged(a, b)[0].apath;
        lemma_merged_increasing(a, b, None);
        let all = merged_paths(merged(a, b));
        assert(all[0] == head && all[k] == p);
        assert(crate::apath::path_lt(head, p));
        crate::apath::lemma_path_lt_irreflexive(p);
        if has_path(rest_a, p) {
            let i = choose|i: int| 0 <= i < rest_a.len() && #[trigger] rest_a[i] == p;
            if take_a {
                assert(a[i + 1] == rest_a[i]);
            }
        }
        if has_path(a, p) {
            let i = choose|i: int| 0 <= i < a.len() && #[trigger] a[i] == p;
            if take_a {
                assert(i > 0);
                assert(rest_a[i - 1] == a[i]);
            }
        }
        if has_path(rest_b, p) {
            let i = choose|i: int| 0 <= i < rest_b.len() && #[trigger] rest_b[i] == p;
            if take_b {
                assert(b[i + 1] == rest_b[i]);
            }
        }
        if has_path(b, p) {
            let i = choose|i: int| 0 <= i < b.len() && #[trigger] b[i] == p;
            if take_b {
                assert(i > 0);
                assert(rest_b[i - 1] == b[i]);
            }
        }
    }
}

/// The paths of entries, in their order.
pub open spec fn entry_paths<E: Entry>(entries: Seq<E>) -> Seq<Seq<u8>> {
    Seq::new(entries.len(), |i: int| entries[i].spec_apath()@)
}

/// Decides what a merge yields next from the next path of each side, where
/// the side has one: `None` at the end of both sides, else the side or sides
/// that the lowest path is on.
pub fn merge_heads(a: Option<&Apath>, b: Option<&Apath>) -> (r: Option<MergedEntryKind>)
    ensures
        r is None <==> a is None && b is None,
        a is Some && b is None ==> r == Some(MergedEntryKind::LeftOnly),
        a is None && b is Some ==> r == Some(MergedEntryKind::RightOnly),
        a is Some && b is Some ==> r == Some(
            if a->0@ == b->0@ {
                MergedEntryKind::Both
            } else if crate::apath::path_lt(a->0@, b->0@) {
                MergedEntryKind::LeftOnly
            } else {
                MergedEntryKind::RightOnly
            },
        ),
{
    match (a, b) {
        (None, None) => None,
        (Some(_), None) => Some(MergedEntryKind::LeftOnly),
        (None, Some(_)) => Some(MergedEntryKind::RightOnly),
        (Some(pa), Some(pb)) => match pa.place(pb) {
            Place::Same => Some(MergedEntryKind::Both),
            Place::Before => Some(MergedEntryKind::LeftOnly),
            Place::After => Some(MergedEntryKind::RightOnly),
        },
    }
}

/// Zips together the entries of two trees, each given in the order of its
/// paths.
///
/// At present this only says whether paths are absent from either side, not
/// whether the content differs.
pub struct MergeTrees<AE: Entry, BE: Entry> {
    ait: Vec<AE>,
    bit: Vec<BE>,
    /// How many entries of each side were merged.
    na: usize,
    nb: usize,
}

/// Zips together entries from two trees, read in the order of their paths.
pub fn iter_merged_entries<AE: Entry, BE: Entry>(a: Vec<AE>, b: Vec<BE>) -> (r: MergeTrees<AE, BE>)
    ensures
        r.pending() == merged(entry_paths(a@), entry_paths(b@)),
{
    let r = MergeTrees { ait: a, bit: b, na: 0, nb: 0 };
    assert(r.ait@.skip(0) =~= a@);
    assert(r.bit@.skip(0) =~= b@);
    r
}

impl<AE: Entry, BE: Entry> MergeTrees<AE, BE> {
    /// What the merge has yet to yield.
    pub closed spec fn pending(&self) -> Seq<MergedView> {
        if self.na <= self.ait@.len() && self.nb <= self.bit@.len() {
            merged(
                entry_paths(self.ait@.skip(self.na as int)),
                entry_paths(self.bit@.skip(self.nb as int)),
            )
        } else {
            Seq::empty()
        }
    }

    /// The next path of the merge: `None` once both sides have ended.
    pub fn next(&mut self) -> (r: Option<MergedEntry>)
        ensures
            match r {
                Some(entry) => old(self).pending() == seq![entry@] + final(self).pending(),
                None => old(self).pending().len() == 0 && final(self).pending().len() == 0,
            },
    {
        if self.na > self.ait.len() || self.nb > self.bit.len() {
            return None;
        }
        let ghost a = entry_paths(self.ait@.skip(self.na as int));
        let ghost b = entry_paths(self.bit@.skip(self.nb as int));
        let pa = if self.na < self.ait.len() {
            Some(self.ait[self.na].apath())
        } else {
            None
        };
        let pb = if self.nb < self.bit.len() {
            Some(self.bit[self.nb].apath())
        } else {
            None
        };
        proof {
            if pa is Some {
                assert(a[0] == self.ait@.skip(self.na as int)[0].spec_apath()@);
                assert(a.drop_first() =~= entry_paths(self.ait@.skip(self.na as int + 1))) by {
                    assert(self.ait@.skip(self.na as int).drop_first() =~= self.ait@.skip(
                        self.na as int + 1,
                    ));
                }
            }
            if pb is Some {
                assert(b[0] == self.bit@.skip(self.nb as int)[0].spec_apath()@);
                assert(b.drop_first() =~= entry_paths(self.bit@.skip(self.nb as int + 1))) by {
                    assert(self.bit@.skip(self.nb as int).drop_first() =~= self.bit@.skip(
                        self.nb as int + 1,
                    ));
                }
            }
            if pa is Some && pb is Some {
                crate::apath::lemma_path_lt_total(a[0], b[0]);
            }
        }
        match merge_heads(pa, pb) {
            None => None,
            Some(MergedEntryKind::Both) => {
                let apath = pa.unwrap().clone();
                self.na = self.na + 1;
                self.nb = self.nb + 1;
                Some(MergedEntry { apath, kind: MergedEntryKind::Both })
            },
            Some(MergedEntryKind::LeftOnly) => {
                let apath = pa.unwrap().clone();
                self.na = self.na + 1;
                Some(MergedEntry { apath, kind: MergedEntryKind::LeftOnly })
            },
            Some(MergedEntryKind::RightOnly) => {
                let apath = pb.unwrap().clone();
                self.nb = self.nb + 1;
                Some(MergedEntry { apath, kind: MergedEntryKind::RightOnly })
            },
        }
    }

    /// All that the merge has yet to yield.
    pub fn collect(self) -> (r: Vec<MergedEntry>)
        ensures
            r.deep_view() == self.pending(),
    {
        let mut merge = self;
        let mut out: Vec<MergedEntry> = Vec::new();
        let ghost goal = merge.pending();
        assert(out.deep_view() =~= Seq::<MergedView>::empty());
        loop
            invariant
                goal == out.deep_view() + merge.pending(),
            ensures
                goal == out.deep_view(),
            decreases merge.pending().len(),
        {
            let ghost before = out.deep_view();
            match merge.next() {
                Some(entry) => {
                    out.push(entry);
                    assert(out.deep_view() =~= before + seq![entry@]);
                },
                None => {
                    assert(merge.pending() =~= Seq::<MergedView>::empty());
                    break ;
                },
            }
        }
        out
    }
}

} // verus!
