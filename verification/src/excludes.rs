//! Leaving out of a tree the paths that match glob patterns, with the
//! `globset` crate.

use vstd::prelude::*;
use crate::apath::Apath;
use crate::errors::Error;
use crate::index::EntryView;
use crate::index::IndexEntry;

verus! {

/// The set of globs of the `globset` crate.
#[verifier::external_type_specification]
#[verifier::external_body]
pub struct ExGlobSet(globset::GlobSet);

/// The builder of sets of globs of the `globset` crate.
#[verifier::external_type_specification]
#[verifier::external_body]
pub struct ExGlobSetBuilder(globset::GlobSetBuilder);

/// The patterns of the globs that a set holds, in the order in which they were
/// added.
pub uninterp spec fn glob_set_patterns(set: globset::GlobSet) -> Seq<Seq<char>>;

/// The patterns of the globs that were added to a builder, in order.
pub uninterp spec fn glob_builder_patterns(builder: globset::GlobSetBuilder) -> Seq<Seq<char>>;

/// Calls `GlobSet::empty`.
///
/// Trusted: the set holds no glob.
#[verifier::external_body]
pub(crate) fn glob_set_empty() -> (r: globset::GlobSet)
    ensures
        glob_set_patterns(r).len() == 0,
{
    globset::GlobSet::empty()
}

/// Calls `GlobSetBuilder::new`.
///
/// Trusted: nothing was added to the new builder.
#[verifier::external_body]
pub(crate) fn glob_builder_new() -> (r: globset::GlobSetBuilder)
    ensures
        glob_builder_patterns(r).len() == 0,
{
    globset::GlobSetBuilder::new()
}

/// Whether the pattern is a glob, as `Glob::new` answers on the kind of
/// system that the library is built for.
pub uninterp spec fn is_glob(pattern: Seq<char>) -> bool;

/// Whether a set can be built of the globs with these patterns, as
/// `GlobSetBuilder::build` answers.
pub uninterp spec fn globs_build(patterns: Seq<Seq<char>>) -> bool;

/// Calls `Glob::new` on the pattern and, if that is a glob,
/// `GlobSetBuilder::add`. An error comes back as its message.
///
/// Trusted: whether the pattern is a glob depends on the pattern alone; a
/// pattern that is a glob is added after those that were added before, and a
/// pattern that is none leaves the builder as it was.
#[verifier::external_body]
pub(crate) fn glob_builder_add(builder: &mut globset::GlobSetBuilder, pattern: &str) -> (r: Result<
    (),
    String,
>)
    ensures
        r is Ok <==> is_glob(pattern@),
        r is Ok ==> glob_builder_patterns(*final(builder)) == glob_builder_patterns(
            *old(builder),
        ).push(pattern@),
        r is Err ==> glob_builder_patterns(*final(builder)) == glob_builder_patterns(*old(builder)),
{
    let glob = globset::Glob::new(pattern).map_err(|e| e.to_string())?;
    builder.add(glob);
    Ok(())
}

/// Calls `GlobSetBuilder::build`. An error comes back as its message.
///
/// Trusted: whether the set can be built depends on the patterns of the
/// globs alone, and the set holds the globs that were added to the builder.
#[verifier::external_body]
pub(crate) fn glob_builder_build(builder: &globset::GlobSetBuilder) -> (r: Result<
    globset::GlobSet,
    String,
>)
    ensures
        r is Ok <==> globs_build(glob_builder_patterns(*builder)),
        r matches Ok(set) ==> glob_set_patterns(set) == glob_builder_patterns(*builder),
{
    builder.build().map_err(|e| e.to_string())
}

/// Whether one of the globs with these patterns matches the path, as
/// `GlobSet::is_match` answers on the kind of system that the library is
/// built for: the crate reads a backslash, in a pattern and in a path, in one
/// way on Unix and in another elsewhere.
pub uninterp spec fn glob_set_match(patterns: Seq<Seq<char>>, path: Seq<char>) -> bool;

/// Calls `GlobSet::is_match`.
///
/// Trusted: the answer depends on the patterns of the set and on the path
/// alone, and a set without globs matches nothing.
#[verifier::external_body]
pub(crate) fn glob_set_is_match(set: &globset::GlobSet, path: &str) -> (r: bool)
    ensures
        r == glob_set_match(glob_set_patterns(*set), path@),
        glob_set_patterns(*set).len() == 0 ==> !r,
{
    set.is_match(path)
}

/// The texts of strings.
pub open spec fn pattern_texts(patterns: Seq<String>) -> Seq<Seq<char>> {
    Seq::new(patterns.len(), |i: int| patterns[i]@)
}

/// Says which paths are to be left out of a tree.
pub struct Exclude {
    globset: globset::GlobSet,
}

impl Exclude {
    /// The patterns of the paths to leave out.
    pub closed spec fn patterns(&self) -> Seq<Seq<char>> {
        glob_set_patterns(self.globset)
    }

    /// Leaves nothing out.
    pub fn nothing() -> (r: Exclude)
        ensures
            r.patterns().len() == 0,
    {
        Exclude { globset: glob_set_empty() }
    }

    /// Leaves out the paths that match one of the patterns. If one of the
    /// patterns is no glob, or the set cannot be built, the message of the
    /// failure comes back.
    pub fn from_patterns(patterns: &Vec<String>) -> (r: Result<Exclude, Error>)
        ensures
            r is Ok <==> (forall|i: int|
                0 <= i < patterns@.len() ==> is_glob((#[trigger] patterns@[i])@)) && globs_build(
                pattern_texts(patterns@),
            ),
            match r {
                Ok(exclude) => exclude.patterns() == pattern_texts(patterns@),
                Err(e) => e is InvalidGlob,
            },
    {
        let mut builder = glob_builder_new();
        let mut i: usize = 0;
        assert(glob_builder_patterns(builder) =~= pattern_texts(patterns@).take(0));
        while i < patterns.len()
            invariant
                i <= patterns.len(),
                glob_builder_patterns(builder) == pattern_texts(patterns@).take(i as int),
                forall|k: int| 0 <= k < i ==> is_glob((#[trigger] patterns@[k])@),
            decreases patterns.len() - i,
        {
            match glob_builder_add(&mut builder, patterns[i].as_str()) {
                Ok(_) => {},
                Err(message) => {
                    return Err(Error::InvalidGlob { message });
                },
            }
            assert(pattern_texts(patterns@).take(i as int + 1) =~= pattern_texts(patterns@).take(
                i as int,
            ).push(patterns@[i as int]@));
            i = i + 1;
        }
        assert(pattern_texts(patterns@).take(i as int) =~= pattern_texts(patterns@));
        match glob_builder_build(&builder) {
            Ok(globset) => Ok(Exclude { globset }),
            Err(message) => Err(Error::InvalidGlob { message }),
        }
    }

    /// True if the path is to be left out: one of the globs matches it.
    /// Where there are no patterns, nothing is left out.
    pub fn matches(&self, apath: &Apath) -> (r: bool)
        ensures
            r == glob_set_match(self.patterns(), apath.text()),
            self.patterns().len() == 0 ==> !r,
    {
        glob_set_is_match(&self.globset, apath.as_str())
    }
}

/// Those of the entries that lie within `subtree` and are not marked in
/// `left_out`, in their order.
pub open spec fn entries_selected(
    entries: Seq<EntryView>,
    subtree: Seq<u8>,
    left_out: Seq<bool>,
) -> Seq<EntryView>
    decreases entries.len(),
{
    if entries.len() == 0 || left_out.len() != entries.len() {
        Seq::empty()
    } else {
        let front = entries_selected(entries.drop_last(), subtree, left_out.drop_last());
        if crate::apath::path_within(entries.last().apath, subtree) && !left_out.last() {
            front.push(entries.last())
        } else {
            front
        }
    }
}

/// Keeps the entries that lie within `subtree` and are not marked in
/// `left_out`, which has one mark for each entry.
pub fn select_entries(entries: Vec<IndexEntry>, subtree: &Apath, left_out: &Vec<bool>) -> (r: Vec<
    IndexEntry,
>)
    requires
        subtree.wf(),
        left_out@.len() == entries@.len(),
        forall|i: int| 0 <= i < entries@.len() ==> (#[trigger] entries@[i]).apath.wf(),
    ensures
        r.deep_view() == entries_selected(entries.deep_view(), subtree@, left_out@),
{
    let mut out: Vec<IndexEntry> = Vec::new();
    let ghost all = entries@;
    let ghost views = entries.deep_view();
    assert(out.deep_view() =~= Seq::<EntryView>::empty());
    assert(left_out@.take(0) =~= Seq::<bool>::empty());
    let mut n: usize = 0;
    let total = entries.len();
    for entry in it: entries
        invariant
            all == it.seq(),
            all.len() == total,
            n == it.index(),
            subtree.wf(),
            views.len() == all.len(),
            left_out@.len() == all.len(),
            forall|k: int| 0 <= k < all.len() ==> views[k] == (#[trigger] all[k])@,
            forall|k: int| 0 <= k < all.len() ==> (#[trigger] all[k]).apath.wf(),
            out.deep_view() == entries_selected(
                views.take(it.index() as int),
                subtree@,
                left_out@.take(it.index() as int),
            ),
    {
        let ghost i = it.index() as int;
        let ghost before = out.deep_view();
        assert(i < all.len());
        proof {
            assert(views.take(i + 1).drop_last() =~= views.take(i));
            assert(views.take(i + 1).last() == entry@);
            assert(left_out@.take(i + 1).drop_last() =~= left_out@.take(i));
            assert(left_out@.take(i + 1).last() == left_out@[i]);
            assert(all[i] == entry);
        }
        if entry.apath.is_within(subtree) && !left_out[n] {
            out.push(entry);
            assert(out.deep_view() =~= before.push(entry@));
        }
        n = n + 1;
    }
    assert(views.take(views.len() as int) =~= views);
    assert(left_out@.take(left_out@.len() as int) =~= left_out@);
    out
}

/// For each of the entries, whether a glob of the patterns matches its path.
pub open spec fn left_out(patterns: Seq<Seq<char>>, entries: Seq<EntryView>) -> Seq<bool> {
    Seq::new(
        entries.len(),
        |i: int| glob_set_match(patterns, vstd::utf8::decode_utf8(entries[i].apath)),
    )
}

/// No entry is marked.
pub open spec fn none_left_out(n: nat) -> Seq<bool> {
    Seq::new(n, |i: int| false)
}

/// Those of the entries that lie within `subtree` and whose path no glob of
/// the patterns matches, in their order.
pub open spec fn selected(
    entries: Seq<EntryView>,
    subtree: Seq<u8>,
    patterns: Seq<Seq<char>>,
) -> Seq<EntryView> {
    entries_selected(entries, subtree, left_out(patterns, entries))
}

/// What is selected of entries one after the other is what is selected of
/// the first, then what is selected of the others.
pub proof fn lemma_selected_append(
    front: Seq<EntryView>,
    back: Seq<EntryView>,
    subtree: Seq<u8>,
    front_marks: Seq<bool>,
    back_marks: Seq<bool>,
)
    requires
        front_marks.len() == front.len(),
        back_marks.len() == back.len(),
    ensures
        entries_selected(front + back, subtree, front_marks + back_marks) == entries_selected(
            front,
            subtree,
            front_marks,
        ) + entries_selected(back, subtree, back_marks),
    decreases back.len(),
{
    let a = entries_selected(front, subtree, front_marks);
    if back.len() == 0 {
        assert(front + back =~= front);
        assert(front_marks + back_marks =~= front_marks);
        assert(a + Seq::<EntryView>::empty() =~= a);
    } else {
        lemma_selected_append(front, back.drop_last(), subtree, front_marks, back_marks.drop_last());
        assert((front + back).drop_last() =~= front + back.drop_last());
        assert((front_marks + back_marks).drop_last() =~= front_marks + back_marks.drop_last());
        assert((front + back).last() == back.last());
        assert((front_marks + back_marks).last() == back_marks.last());
        let b = entries_selected(back.drop_last(), subtree, back_marks.drop_last());
        assert((a + b).push(back.last()) =~= a + b.push(back.last()));
    }
}

/// The entries are selected from each part of a whole by itself.
pub proof fn lemma_selected_parts(
    front: Seq<EntryView>,
    back: Seq<EntryView>,
    subtree: Seq<u8>,
    patterns: Seq<Seq<char>>,
)
    ensures
        selected(front + back, subtree, patterns) == selected(front, subtree, patterns) + selected(
            back,
            subtree,
            patterns,
        ),
        entries_selected(front + back, subtree, none_left_out((front + back).len()))
            == entries_selected(front, subtree, none_left_out(front.len())) + entries_selected(
            back,
            subtree,
            none_left_out(back.len()),
        ),
{
    assert(left_out(patterns, front + back) =~= left_out(patterns, front) + left_out(
        patterns,
        back,
    ));
    lemma_selected_append(
        front,
        back,
        subtree,
        left_out(patterns, front),
        left_out(patterns, back),
    );
    assert(none_left_out((front + back).len()) =~= none_left_out(front.len()) + none_left_out(
        back.len(),
    ));
    lemma_selected_append(
        front,
        back,
        subtree,
        none_left_out(front.len()),
        none_left_out(back.len()),
    );
}

/// Where nothing is left out, every entry with a canonical path lies within
/// the root and is kept.
pub proof fn lemma_root_keeps_all(entries: Seq<EntryView>)
    requires
        forall|i: int| 0 <= i < entries.len() ==> crate::apath::valid_path(#[trigger] entries[i].apath),
    ensures
        entries_selected(entries, seq![crate::apath::SLASH], none_left_out(entries.len()))
            == entries,
    decreases entries.len(),
{
    let root = seq![crate::apath::SLASH];
    if entries.len() > 0 {
        let front = entries.drop_last();
        assert forall|i: int| 0 <= i < front.len() implies crate::apath::valid_path(
            #[trigger] front[i].apath,
        ) by {
            assert(front[i] == entries[i]);
        }
        lemma_root_keeps_all(front);
        assert(none_left_out(entries.len()).drop_last() =~= none_left_out(front.len()));
        assert(crate::apath::valid_path(entries[entries.len() - 1].apath));
        assert(crate::apath::path_within(entries.last().apath, root));
        assert(front.push(entries.last()) =~= entries);
    } else {
        assert(entries =~= Seq::<EntryView>::empty());
    }
}

/// Keeps the entries that lie within `subtree` and that `exclude` does not
/// leave out: those whose path no glob of `exclude` matches. Where there are
/// no patterns, all entries within `subtree` are kept.
pub fn filter_entries(entries: Vec<IndexEntry>, subtree: &Apath, exclude: &Exclude) -> (r: Vec<
    IndexEntry,
>)
    requires
        subtree.wf(),
        forall|i: int| 0 <= i < entries@.len() ==> (#[trigger] entries@[i]).apath.wf(),
    ensures
        r.deep_view() == selected(entries.deep_view(), subtree@, exclude.patterns()),
        exclude.patterns().len() == 0 ==> r.deep_view() == entries_selected(
            entries.deep_view(),
            subtree@,
            none_left_out(entries@.len()),
        ),
{
    let ghost views = entries.deep_view();
    let mut marks: Vec<bool> = Vec::new();
    let mut i: usize = 0;
    while i < entries.len()
        invariant
            i <= entries.len(),
            marks@.len() == i,
            views == entries.deep_view(),
            forall|k: int|
                0 <= k < i ==> marks@[k] == glob_set_match(
                    exclude.patterns(),
                    vstd::utf8::decode_utf8(#[trigger] views[k].apath),
                ),
            exclude.patterns().len() == 0 ==> forall|k: int| 0 <= k < i ==> !marks@[k],
        decreases entries.len() - i,
    {
        proof {
            assert(views[i as int] == entries@[i as int]@);
            entries@[i as int].apath.lemma_text_bytes(&entries@[i as int].apath);
            vstd::utf8::encode_utf8_decode_utf8(entries@[i as int].apath.text());
        }
        marks.push(exclude.matches(&entries[i].apath));
        i = i + 1;
    }
    proof {
        assert(marks@ =~= left_out(exclude.patterns(), views));
        if exclude.patterns().len() == 0 {
            assert(marks@ =~= none_left_out(entries@.len()));
        }
    }
    select_entries(entries, subtree, &marks)
}

} // verus!
