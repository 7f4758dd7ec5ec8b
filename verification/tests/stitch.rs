use conserve::apath::Apath;
use conserve::bandid::BandId;
use conserve::entry::UnixTime;
use conserve::index::{IndexBuilder, IndexEntry};
use conserve::excludes::Exclude;
use conserve::stitch::{
    stitch_bands, stitch_entries, BandIndex, IterStitchedIndexHunks, State, StitchRequest,
};

fn symlink(name: &str, target: &str) -> IndexEntry {
    IndexEntry::symlink(
        Apath::from_str(name).unwrap(),
        target.to_owned(),
        UnixTime { secs: 0, nanos: 0 },
    )
}

fn simple_ls(bands: &Vec<BandIndex>, band_id: BandId) -> String {
    let strs: Vec<String> = stitch_bands(bands, &band_id)
        .into_iter()
        .flatten()
        .map(|entry| format!("{}:{}", entry.apath.as_str(), entry.target.unwrap()))
        .collect();
    strs.join(" ")
}

/// Builds a history with these versions:
///
/// * b0 is incomplete and contains symlinks 0, 1, 2 all with target 'b0'.
/// * b1 is complete and contains symlinks 0, 1, 2, 3 all with target 'b1'.
/// * b2 is incomplete and contains symlinks 0, 2, with target 'b2'. 1 has been
///   deleted, and 3 we don't know about, so will assume is carried over.
/// * b3 has been deleted.
/// * b4 exists but has no hunks.
/// * b5 is incomplete and contains symlink 0, 00, with target 'b5'.
fn history() -> Vec<BandIndex> {
    let mut bands = Vec::new();

    let mut ib = IndexBuilder::new();
    let mut hunks = Vec::new();
    ib.push_entry(symlink("/0", "b0"));
    ib.push_entry(symlink("/1", "b0"));
    hunks.push(ib.finish_hunk().unwrap().entries);
    ib.push_entry(symlink("/2", "b0"));
    let (last, count) = ib.finish();
    hunks.push(last.unwrap().entries);
    assert_eq!(count, 2);
    bands.push(BandIndex { id: BandId::zero(), opens: true, closed: false, hunks });

    let mut ib = IndexBuilder::new();
    let mut hunks = Vec::new();
    ib.push_entry(symlink("/0", "b1"));
    ib.push_entry(symlink("/1", "b1"));
    hunks.push(ib.finish_hunk().unwrap().entries);
    ib.push_entry(symlink("/2", "b1"));
    ib.push_entry(symlink("/3", "b1"));
    let (last, count) = ib.finish();
    hunks.push(last.unwrap().entries);
    assert_eq!(count, 2);
    bands.push(BandIndex { id: BandId::new(&[1]), opens: true, closed: true, hunks });

    let mut ib = IndexBuilder::new();
    let mut hunks = Vec::new();
    ib.push_entry(symlink("/0", "b2"));
    hunks.push(ib.finish_hunk().unwrap().entries);
    ib.push_entry(symlink("/2", "b2"));
    let (last, count) = ib.finish();
    hunks.push(last.unwrap().entries);
    assert_eq!(count, 2);
    bands.push(BandIndex { id: BandId::new(&[2]), opens: true, closed: false, hunks });

    bands.push(BandIndex { id: BandId::new(&[4]), opens: true, closed: false, hunks: Vec::new() });

    let mut ib = IndexBuilder::new();
    let mut hunks = Vec::new();
    ib.push_entry(symlink("/0", "b5"));
    ib.push_entry(symlink("/00", "b5"));
    let (last, count) = ib.finish();
    hunks.push(last.unwrap().entries);
    assert_eq!(count, 1);
    bands.push(BandIndex { id: BandId::new(&[5]), opens: true, closed: false, hunks });

    bands
}

#[test]
fn stitch_index() {
    let bands = history();
    assert_eq!(bands[0].id, BandId::zero());
    assert_eq!(bands[1].id.to_string(), "b0001");
    assert_eq!(bands[2].id.to_string(), "b0002");
    assert_eq!(BandId::new(&[3]).to_string(), "b0003");
    assert_eq!(bands[3].id.to_string(), "b0004");
    assert_eq!(bands[4].id.to_string(), "b0005");

    assert_eq!(simple_ls(&bands, BandId::new(&[0])), "/0:b0 /1:b0 /2:b0");

    assert_eq!(simple_ls(&bands, BandId::new(&[1])), "/0:b1 /1:b1 /2:b1 /3:b1");

    assert_eq!(simple_ls(&bands, BandId::new(&[2])), "/0:b2 /2:b2 /3:b1");

    assert_eq!(simple_ls(&bands, BandId::new(&[4])), "/0:b2 /2:b2 /3:b1");

    assert_eq!(simple_ls(&bands, BandId::new(&[5])), "/0:b5 /00:b5 /2:b2 /3:b1");
}

#[test]
fn stitch_from_a_deleted_band_falls_back() {
    let bands = history();
    assert_eq!(simple_ls(&bands, BandId::new(&[3])), "/0:b2 /2:b2 /3:b1");
    assert_eq!(simple_ls(&bands, BandId::new(&[9])), "/0:b5 /00:b5 /2:b2 /3:b1");
}

#[test]
fn stitch_of_nothing_is_empty() {
    let bands: Vec<BandIndex> = Vec::new();
    assert!(stitch_bands(&bands, &BandId::new(&[7])).is_empty());
    let reader = IterStitchedIndexHunks::empty();
    assert!(matches!(reader.request(), StitchRequest::Finished));
}

/// A band that can no longer be opened after its only hunk was read ends the
/// read; nothing loops.
#[test]
fn issue_175() {
    let mut iter = IterStitchedIndexHunks::new(BandId::zero());
    assert!(matches!(iter.request(), StitchRequest::OpenBand(_)));
    iter.band_opened(true);
    assert!(matches!(iter.request(), StitchRequest::ReadHunk { hunk_number: 0, .. }));
    // Get the first and only index entry.
    assert!(iter.hunk_read(Some(vec![symlink("/file_a", "x")])).is_some());
    assert!(iter.hunk_read(None).is_none());
    // The band has no tail, and no band comes before it.
    assert!(matches!(iter.request(), StitchRequest::BandStatus(_)));
    iter.band_finished(false, None);
    // No more entries should follow.
    for _ in 0..10 {
        assert!(matches!(iter.request(), StitchRequest::Finished));
        assert!(matches!(iter.state(), State::Done));
        assert!(iter.hunk_read(Some(vec![symlink("/zzz", "x")])).is_none());
    }
}

#[test]
fn stitch_refuses_a_band_that_is_not_earlier() {
    let mut iter = IterStitchedIndexHunks::new(BandId::new(&[2]));
    iter.band_opened(false);
    iter.band_finished(false, Some(BandId::new(&[2])));
    assert!(matches!(iter.state(), State::Done));

    let mut iter = IterStitchedIndexHunks::new(BandId::new(&[2]));
    iter.band_opened(false);
    iter.band_finished(false, Some(BandId::new(&[1])));
    assert!(matches!(iter.state(), State::BeforeBand(_)));
}

fn paths(hunks: Vec<Vec<IndexEntry>>) -> Vec<String> {
    hunks.into_iter().flatten().map(|e| e.apath.as_str().to_owned()).collect()
}

#[test]
fn stitched_paths_increase_from_any_band() {
    let bands = history();
    for start in 0..8u32 {
        let listed = stitch_bands(&bands, &BandId::new(&[start]));
        assert!(listed.iter().all(|hunk| !hunk.is_empty()));
        let listed: Vec<Apath> = listed.into_iter().flatten().map(|e| e.apath).collect();
        for pair in listed.windows(2) {
            assert!(pair[0].precedes(&pair[1]), "from b{}: {:?}", start, pair);
        }
    }
}

#[test]
fn incomplete_band_goes_on_in_the_closed_band_before() {
    let closed = BandIndex {
        id: BandId::new(&[3]),
        opens: true,
        closed: true,
        hunks: vec![
            vec![symlink("/a", "old"), symlink("/b", "old")],
            vec![symlink("/b/x", "old"), symlink("/c", "old"), symlink("/d", "old")],
        ],
    };
    let open = BandIndex {
        id: BandId::new(&[4]),
        opens: true,
        closed: false,
        hunks: vec![vec![symlink("/a", "new")], vec![symlink("/aa", "new"), symlink("/b/x", "new")]],
    };
    let older = BandIndex {
        id: BandId::new(&[2]),
        opens: true,
        closed: true,
        hunks: vec![vec![symlink("/z", "older")]],
    };
    let bands = vec![older, closed, open];
    // The entries of the incomplete band, then those of the band before
    // whose paths come after its last; nothing of the bands before that.
    assert_eq!(simple_ls(&bands, BandId::new(&[4])), "/a:new /aa:new /b/x:new /c:old /d:old");
    assert_eq!(
        paths(stitch_bands(&bands, &BandId::new(&[3]))),
        ["/a", "/b", "/b/x", "/c", "/d"]
    );
    // A band that does not open is passed over, closed or not.
    let mut bands = bands;
    bands[2].opens = false;
    assert_eq!(
        simple_ls(&bands, BandId::new(&[4])),
        "/a:old /b:old /b/x:old /c:old /d:old"
    );
    bands[2].closed = true;
    assert_eq!(simple_ls(&bands, BandId::new(&[4])), "");
}

#[test]
fn stitched_entries_are_selected_by_subtree_and_globs() {
    let bands = history();
    let root = Apath::root();
    let names = |entries: Vec<IndexEntry>| -> Vec<String> {
        entries.iter().map(|e| format!("{}:{}", e.apath.as_str(), e.target.clone().unwrap())).collect()
    };
    // With the root and nothing left out, all that the stitched read yields.
    let all = stitch_entries(&bands, &BandId::new(&[2]), &root, &Exclude::nothing());
    assert_eq!(names(all), ["/0:b2", "/2:b2", "/3:b1"]);
    let all: Vec<IndexEntry> =
        stitch_bands(&bands, &BandId::new(&[5])).into_iter().flatten().collect();
    assert_eq!(
        names(stitch_entries(&bands, &BandId::new(&[5]), &root, &Exclude::nothing())),
        names(all)
    );
    // Entries are left out in whichever band they are found.
    let exclude = Exclude::from_patterns(&vec!["/2".to_string()]).unwrap();
    assert_eq!(
        names(stitch_entries(&bands, &BandId::new(&[2]), &root, &exclude)),
        ["/0:b2", "/3:b1"]
    );
    let exclude = Exclude::from_patterns(&vec!["/[03]".to_string()]).unwrap();
    assert_eq!(names(stitch_entries(&bands, &BandId::new(&[2]), &root, &exclude)), ["/2:b2"]);
    // Only what lies within the subtree is kept.
    let subtree = Apath::from_str("/3").unwrap();
    assert_eq!(
        names(stitch_entries(&bands, &BandId::new(&[2]), &subtree, &Exclude::nothing())),
        ["/3:b1"]
    );
    let nowhere = Apath::from_str("/nowhere").unwrap();
    assert!(stitch_entries(&bands, &BandId::new(&[2]), &nowhere, &Exclude::nothing()).is_empty());
}
