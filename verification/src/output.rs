//! Text output formats for structured data.
//!
//! These take what is known of an archive and make the lines to show. To
//! write them somewhere is left to the caller.

use vstd::prelude::*;
use vstd::string::StrSliceExecFns;
use vstd::string::StringExecFns;
use crate::bandid::BandId;
use crate::index::EntryView;
use crate::index::IndexEntry;
use crate::stitch::BandIndex;

verus! {

/// So many spaces.
pub open spec fn spaces(n: nat) -> Seq<char> {
    Seq::new(n, |i: int| ' ')
}

/// The text with spaces after it, so that it has at least `width`
/// characters.
pub open spec fn padded_right(text: Seq<char>, width: nat) -> Seq<char> {
    if text.len() >= width {
        text
    } else {
        text + spaces((width - text.len()) as nat)
    }
}

/// The text with spaces before it, so that it has at least `width`
/// characters.
pub open spec fn padded_left(text: Seq<char>, width: nat) -> Seq<char> {
    if text.len() >= width {
        text
    } else {
        spaces((width - text.len()) as nat) + text
    }
}

/// A number in decimal, with a zero before a single digit.
pub open spec fn two_digits(n: nat) -> Seq<char> {
    if n < 10 {
        seq!['0'] + crate::bandid::decimal_text(n)
    } else {
        crate::bandid::decimal_text(n)
    }
}

/// A span of time as hours, minutes and seconds. The hours are left out of a
/// span of less than an hour, and blanks stand in their place.
pub open spec fn hms_text(secs: u64) -> Seq<char> {
    if secs >= 3600 {
        padded_left(crate::bandid::decimal_text((secs / 3600) as nat), 2) + seq![':'] + two_digits(
            ((secs / 60) % 60) as nat,
        ) + seq![':'] + two_digits((secs % 60) as nat)
    } else {
        spaces(3) + padded_left(crate::bandid::decimal_text(((secs / 60) % 60) as nat), 2) + seq![
            ':',
        ] + two_digits((secs % 60) as nat)
    }
}

/// Appends so many spaces.
fn push_spaces(out: &mut String, n: usize)
    ensures
        final(out)@ == old(out)@ + spaces(n as nat),
{
    let mut i: usize = 0;
    proof {
        reveal_strlit(" ");
        assert(out@ =~= old(out)@ + spaces(0));
    }
    while i < n
        invariant
            i <= n,
            out@ == old(out)@ + spaces(i as nat),
        decreases n - i,
    {
        out.append(" ");
        proof {
            reveal_strlit(" ");
            assert(out@ =~= old(out)@ + spaces((i + 1) as nat));
        }
        i = i + 1;
    }
}

/// Appends the text, and spaces after it up to `width` characters.
pub fn push_padded_right(out: &mut String, text: &str, width: usize)
    ensures
        final(out)@ == old(out)@ + padded_right(text@, width as nat),
{
    let len = text.unicode_len();
    out.append(text);
    if len < width {
        push_spaces(out, width - len);
    }
    assert(out@ =~= old(out)@ + padded_right(text@, width as nat));
}

/// Appends spaces up to `width` characters with the text, and the text.
pub fn push_padded_left(out: &mut String, text: &str, width: usize)
    ensures
        final(out)@ == old(out)@ + padded_left(text@, width as nat),
{
    let len = text.unicode_len();
    if len < width {
        push_spaces(out, width - len);
    }
    out.append(text);
    assert(out@ =~= old(out)@ + padded_left(text@, width as nat));
}

/// Appends a number in decimal, with a zero before a single digit.
fn push_two_digits(out: &mut String, n: u64)
    ensures
        final(out)@ == old(out)@ + two_digits(n as nat),
{
    if n < 10 {
        proof {
            reveal_strlit("0");
        }
        out.append("0");
    }
    crate::bandid::push_decimal(out, n);
    assert(out@ =~= old(out)@ + two_digits(n as nat));
}

/// A span of so many seconds as hours, minutes and seconds.
pub fn duration_to_hms(secs: u64) -> (r: String)
    ensures
        r@ == hms_text(secs),
{
    let mut out = String::new();
    proof {
        reveal_strlit(":");
    }
    if secs >= 3600 {
        let mut hours = String::new();
        crate::bandid::push_decimal(&mut hours, secs / 3600);
        push_padded_left(&mut out, hours.as_str(), 2);
        out.append(":");
        push_two_digits(&mut out, (secs / 60) % 60);
        out.append(":");
        push_two_digits(&mut out, secs % 60);
    } else {
        push_spaces(&mut out, 3);
        let mut minutes = String::new();
        crate::bandid::push_decimal(&mut minutes, (secs / 60) % 60);
        push_padded_left(&mut out, minutes.as_str(), 2);
        out.append(":");
        push_two_digits(&mut out, secs % 60);
    }
    assert(out@ =~= hms_text(secs));
    out
}

/// What is known of one version of an archive.
#[derive(Debug)]
pub struct VersionInfo {
    /// The band of the version.
    pub band_id: BandId,
    /// Whether the band is closed.
    pub is_closed: bool,
    /// When the backup started, as it is to be shown.
    pub start_time: String,
    /// How long the backup took, in seconds, if it has ended.
    pub duration_secs: Option<u64>,
    /// The size of the files of the tree in bytes, if it was measured.
    pub tree_bytes: Option<u64>,
}

impl VersionInfo {
    /// What to show of a band, from what its head and tail say. How long the
    /// backup took is known if it has ended, and not before it started.
    pub fn from_info(info: crate::band::Info, start_time: String, tree_bytes: Option<u64>) -> (r:
        VersionInfo)
        ensures
            r.band_id@ == info.id@,
            r.is_closed == info.is_closed,
            r.start_time@ == start_time@,
            r.tree_bytes == tree_bytes,
            r.duration_secs == (match info.end_time {
                Some(end) => if end >= info.start_time {
                    Some((end - info.start_time) as u64)
                } else {
                    None
                },
                None => None,
            }),
    {
        let duration_secs = match info.end_time {
            Some(end) => if end >= info.start_time {
                let start = info.start_time;
                if start >= 0 {
                    Some((end - start) as u64)
                } else if end < 0 {
                    Some((end - start) as u64)
                } else {
                    // `start` is below zero and `end` is not: the span is the
                    // sum of what lies on either side of zero.
                    let below: u64 = if start == i64::MIN {
                        9_223_372_036_854_775_808
                    } else {
                        (-start) as u64
                    };
                    Some(below + end as u64)
                }
            } else {
                None
            },
            None => None,
        };
        VersionInfo {
            band_id: info.id,
            is_closed: info.is_closed,
            start_time,
            duration_secs,
            tree_bytes,
        }
    }
}

/// The text that tells whether a band is closed.
pub open spec fn completeness_text(is_closed: bool) -> Seq<char> {
    if is_closed {
        "complete"@
    } else {
        "incomplete"@
    }
}

/// The text that tells how long a backup took; nothing if it has not ended.
pub open spec fn duration_text(duration_secs: Option<u64>) -> Seq<char> {
    match duration_secs {
        Some(secs) => hms_text(secs),
        None => Seq::empty(),
    }
}

/// The size of a tree in megabytes; that of an empty tree where it was not
/// measured.
pub open spec fn tree_size_text(tree_bytes: Option<u64>) -> Seq<char> {
    let bytes = match tree_bytes {
        Some(n) => n,
        None => 0,
    };
    crate::misc::with_commas((bytes / 1_000_000) as nat) + " MB"@
}

/// The line that shows one version in full.
pub open spec fn version_line(info: VersionInfo, show_sizes: bool) -> Seq<char> {
    let line = padded_right(info.band_id.name(), 20) + seq![' '] + padded_right(
        completeness_text(info.is_closed),
        10,
    ) + seq![' '] + info.start_time@ + seq![' '] + padded_left(
        duration_text(info.duration_secs),
        8,
    );
    if show_sizes {
        line + seq![' '] + padded_left(tree_size_text(info.tree_bytes), 14)
    } else {
        line
    }
}

/// Show something about an archive.
pub trait ShowArchive {
    /// The lines to show for the versions of an archive, given in order.
    fn show_archive(&self, versions: &Vec<VersionInfo>) -> (r: Vec<String>);
}

/// Shows the names of the versions, one on a line.
#[derive(Debug, Default)]
pub struct ShortVersionList {}

impl ShowArchive for ShortVersionList {
    fn show_archive(&self, versions: &Vec<VersionInfo>) -> (r: Vec<String>)
        ensures
            r@.len() == versions@.len(),
            forall|i: int| 0 <= i < r@.len() ==> (#[trigger] r@[i])@ == versions@[i].band_id.name(),
    {
        let mut out: Vec<String> = Vec::new();
        let mut i: usize = 0;
        while i < versions.len()
            invariant
                i <= versions.len(),
                out@.len() == i,
                forall|k: int| 0 <= k < i ==> (#[trigger] out@[k])@ == versions@[k].band_id.name(),
            decreases versions.len() - i,
        {
            out.push(versions[i].band_id.to_string());
            i = i + 1;
        }
        out
    }
}

/// Shows each version with whether it is complete, when it started and how
/// long it took, and on request the size of its tree.
#[derive(Debug, Default)]
pub struct VerboseVersionList {
    show_sizes: bool,
}

impl VerboseVersionList {
    /// Whether the sizes of trees are shown.
    pub closed spec fn shows_sizes(&self) -> bool {
        self.show_sizes
    }

    /// A list that does not show sizes.
    pub fn new() -> (r: VerboseVersionList)
        ensures
            !r.shows_sizes(),
    {
        VerboseVersionList { show_sizes: false }
    }

    /// Controls whether to show the size of the tree of each version. To
    /// measure the trees takes extra time.
    pub fn show_sizes(self, show_sizes: bool) -> (r: VerboseVersionList)
        ensures
            r.shows_sizes() == show_sizes,
    {
        VerboseVersionList { show_sizes }
    }

    /// The line that shows one version.
    pub fn format_version(&self, info: &VersionInfo) -> (r: String)
        ensures
            r@ == version_line(*info, self.shows_sizes()),
    {
        proof {
            reveal_strlit(" ");
        }
        let mut out = String::new();
        push_padded_right(&mut out, info.band_id.to_string().as_str(), 20);
        out.append(" ");
        let is_complete_str = if info.is_closed {
            "complete"
        } else {
            "incomplete"
        };
        push_padded_right(&mut out, is_complete_str, 10);
        out.append(" ");
        out.append(info.start_time.as_str());
        out.append(" ");
        let duration_str = match info.duration_secs {
            Some(secs) => duration_to_hms(secs),
            None => String::new(),
        };
        push_padded_left(&mut out, duration_str.as_str(), 8);
        if self.show_sizes {
            let bytes = match info.tree_bytes {
                Some(n) => n,
                None => 0,
            };
            let tree_mb = crate::misc::bytes_to_human_mb(bytes);
            out.append(" ");
            push_padded_left(&mut out, tree_mb.as_str(), 14);
        }
        assert(out@ =~= version_line(*info, self.shows_sizes()));
        out
    }
}

impl ShowArchive for VerboseVersionList {
    fn show_archive(&self, versions: &Vec<VersionInfo>) -> (r: Vec<String>)
        ensures
            r@.len() == versions@.len(),
            forall|i: int|
                0 <= i < r@.len() ==> (#[trigger] r@[i])@ == version_line(
                    versions@[i],
                    self.shows_sizes(),
                ),
    {
        let mut out: Vec<String> = Vec::new();
        let mut i: usize = 0;
        while i < versions.len()
            invariant
                i <= versions.len(),
                out@.len() == i,
                forall|k: int|
                    0 <= k < i ==> (#[trigger] out@[k])@ == version_line(
                        versions@[k],
                        self.shows_sizes(),
                    ),
            decreases versions.len() - i,
        {
            out.push(self.format_version(&versions[i]));
            i = i + 1;
        }
        out
    }
}

/// Dumps the index of a band: gives its entries, to be written out.
#[derive(Debug)]
pub struct IndexDump<'a> {
    band: &'a BandIndex,
}

impl<'a> IndexDump<'a> {
    /// The hunks of the band that is dumped.
    pub closed spec fn hunks(&self) -> Seq<Seq<EntryView>> {
        self.band.hunks.deep_view()
    }

    /// A dump of the index of `band`.
    pub fn new(band: &'a BandIndex) -> (r: Self)
        ensures
            r.hunks() == band.hunks.deep_view(),
    {
        Self { band }
    }

    /// All the entries of the index, hunk after hunk.
    pub fn entries(&self) -> (r: Vec<IndexEntry>)
        ensures
            r.deep_view() == crate::stitch::concat(self.hunks()),
    {
        let hunks = &self.band.hunks;
        let ghost views = hunks.deep_view();
        let mut out: Vec<IndexEntry> = Vec::new();
        let mut i: usize = hunks.len();
        assert(views.skip(i as int) =~= Seq::<Seq<EntryView>>::empty());
        assert(out.deep_view() =~= crate::stitch::concat(views.skip(i as int)));
        // The hunks are taken from the last to the first, each in front of
        // what is there.
        while i > 0
            invariant
                i <= hunks.len(),
                views == hunks.deep_view(),
                out.deep_view() == crate::stitch::concat(views.skip(i as int)),
            decreases i,
        {
            i = i - 1;
            let mut next = crate::stitch::copy_hunk(&hunks[i]);
            let ghost head = next.deep_view();
            let ghost tail = out.deep_view();
            next.append(&mut out);
            out = next;
            proof {
                assert(out.deep_view() =~= head + tail);
                let part = views.skip(i as int);
                assert(part[0] == head);
                assert(part.drop_first() =~= views.skip(i as int + 1));
            }
        }
        assert(views.skip(0) =~= views);
        out
    }
}

} // verus!
