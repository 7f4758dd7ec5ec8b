//! Checks of what an index says against itself and against the blocks.

use vstd::prelude::*;
use crate::blockset::BlockLengths;
use crate::index::AddressView;
use crate::index::EntryView;
use crate::index::IndexEntry;

verus! {

/// What a validation found.
#[derive(Clone, Copy, Debug, Default, PartialEq, Eq, Structural)]
pub struct ValidateStats {
    /// Entries whose path does not come after that of the entry before.
    pub order_errors: usize,
    /// Addresses of blocks that are missing or not sound.
    pub block_missing_count: usize,
    /// Addresses that point beyond the end of their block.
    pub address_too_long_count: usize,
    /// Blocks that could not be read or are not sound.
    pub block_error_count: usize,
    /// Things that could not be read.
    pub io_errors: usize,
}

impl ValidateStats {
    /// Nothing found.
    pub open spec fn zeros() -> ValidateStats {
        ValidateStats {
            order_errors: 0,
            block_missing_count: 0,
            address_too_long_count: 0,
            block_error_count: 0,
            io_errors: 0,
        }
    }

    /// Something is wrong.
    pub open spec fn problems(self) -> bool {
        self != Self::zeros()
    }

    /// Nothing found.
    pub fn new() -> (r: ValidateStats)
        ensures
            r == Self::zeros(),
    {
        ValidateStats {
            order_errors: 0,
            block_missing_count: 0,
            address_too_long_count: 0,
            block_error_count: 0,
            io_errors: 0,
        }
    }

    /// True if anything is wrong. Then the archive is corrupt in part.
    pub fn has_problems(&self) -> (r: bool)
        ensures
            r == self.problems(),
    {
        self.order_errors > 0 || self.block_missing_count > 0 || self.address_too_long_count > 0
            || self.block_error_count > 0 || self.io_errors > 0
    }
}

/// The number of entries, from the second on, whose path does not come after
/// that of the entry before.
pub open spec fn order_breaks(entries: Seq<EntryView>) -> nat
    decreases entries.len(),
{
    if entries.len() <= 1 {
        0
    } else {
        order_breaks(entries.drop_last()) + (if crate::apath::path_lt(
            entries[entries.len() - 2].apath,
            entries.last().apath,
        ) {
            0nat
        } else {
            1nat
        })
    }
}

/// Entries without a break in their order are in increasing order.
pub proof fn lemma_no_breaks(entries: Seq<EntryView>)
    ensures
        order_breaks(entries) == 0 <==> crate::index::increasing(entries),
        order_breaks(entries) <= entries.len(),
    decreases entries.len(),
{
    if entries.len() <= 1 {
    } else {
        let front = entries.drop_last();
        lemma_no_breaks(front);
        let n = entries.len() as int;
        if crate::index::increasing(entries) {
            crate::index::lemma_increasing_front(entries, n - 1);
            assert(front =~= entries.take(n - 1));
            assert(crate::apath::path_lt(entries[n - 2].apath, entries[n - 1].apath));
        }
        if order_breaks(entries) == 0 {
            assert forall|i: int, j: int| 0 <= i < j < n implies crate::apath::path_lt(
                #[trigger] entries[i].apath,
                #[trigger] entries[j].apath,
            ) by {
                if j < n - 1 {
                    assert(front[i] == entries[i] && front[j] == entries[j]);
                } else if i < n - 2 {
                    assert(front[i] == entries[i] && front[n - 2] == entries[n - 2]);
                    crate::apath::lemma_path_lt_transitive(
                        entries[i].apath,
                        entries[n - 2].apath,
                        entries[n - 1].apath,
                    );
                }
            }
        }
    }
}

/// Counts the entries whose path does not come after that of the entry
/// before. There is none exactly if the paths are in strictly increasing
/// order, as they must be in the index of a band.
pub fn count_order_errors(entries: &Vec<IndexEntry>) -> (r: usize)
    ensures
        r == order_breaks(entries.deep_view()),
        r == 0 <==> crate::index::increasing(entries.deep_view()),
{
    let ghost views = entries.deep_view();
    let mut count: usize = 0;
    let mut i: usize = 1;
    proof {
        lemma_no_breaks(views);
        if entries.len() >= 1 {
            assert(order_breaks(views.take(1)) == 0);
        }
        lemma_no_breaks(views.take(1));
    }
    if entries.len() <= 1 {
        return 0;
    }
    while i < entries.len()
        invariant
            1 <= i <= entries.len(),
            views == entries.deep_view(),
            count == order_breaks(views.take(i as int)),
            count <= i,
        decreases entries.len() - i,
    {
        proof {
            let more = views.take(i as int + 1);
            assert(more.drop_last() =~= views.take(i as int));
            assert(more[more.len() - 2] == entries@[i as int - 1]@);
            assert(more.last() == entries@[i as int]@);
        }
        if !entries[i - 1].apath.precedes(&entries[i].apath) {
            count = count + 1;
        }
        i = i + 1;
    }
    assert(views.take(i as int) =~= views);
    count
}

/// A count as it is kept: it stops at the highest number.
pub open spec fn capped(n: nat) -> usize {
    if n > usize::MAX {
        usize::MAX
    } else {
        n as usize
    }
}

/// What can be wrong with an address.
#[derive(Clone, Copy, Debug, PartialEq, Eq, Structural)]
pub enum Fault {
    /// Its block is not there, or is not sound.
    Missing,
    /// It points beyond the end of its block.
    TooLong,
}

/// The address has the fault, given the blocks that are there and sound,
/// with their lengths.
pub open spec fn has_fault(address: AddressView, lengths: Map<Seq<u8>, usize>, fault: Fault) -> bool {
    match fault {
        Fault::Missing => !lengths.contains_key(address.hash),
        Fault::TooLong => lengths.contains_key(address.hash) && address.start + address.len
            > lengths[address.hash],
    }
}

/// The number of the addresses that have the fault.
pub open spec fn faults_in(
    addrs: Seq<AddressView>,
    lengths: Map<Seq<u8>, usize>,
    fault: Fault,
) -> nat
    decreases addrs.len(),
{
    if addrs.len() == 0 {
        0
    } else {
        faults_in(addrs.drop_last(), lengths, fault) + (if has_fault(
            addrs.last(),
            lengths,
            fault,
        ) {
            1nat
        } else {
            0nat
        })
    }
}

/// The number of the addresses of the entries that have the fault.
pub open spec fn faults_of(
    entries: Seq<EntryView>,
    lengths: Map<Seq<u8>, usize>,
    fault: Fault,
) -> nat
    decreases entries.len(),
{
    if entries.len() == 0 {
        0
    } else {
        faults_of(entries.drop_last(), lengths, fault) + faults_in(
            entries.last().addrs,
            lengths,
            fault,
        )
    }
}

/// The block of the address is among `lengths`, and is long enough for the
/// address.
pub open spec fn address_fits(address: AddressView, lengths: Map<Seq<u8>, usize>) -> bool {
    lengths.contains_key(address.hash) && address.start + address.len <= lengths[address.hash]
}

/// Every address of every entry fits its block.
pub open spec fn all_addresses_fit(entries: Seq<EntryView>, lengths: Map<Seq<u8>, usize>) -> bool {
    forall|i: int, j: int|
        0 <= i < entries.len() && 0 <= j < entries[i].addrs.len() ==> address_fits(
            #[trigger] entries[i].addrs[j],
            lengths,
        )
}

/// No address has a fault exactly if every address fits its block.
pub proof fn lemma_no_faults_in(addrs: Seq<AddressView>, lengths: Map<Seq<u8>, usize>)
    ensures
        faults_in(addrs, lengths, Fault::Missing) == 0 && faults_in(addrs, lengths, Fault::TooLong)
            == 0 <==> forall|j: int| 0 <= j < addrs.len() ==> address_fits(#[trigger] addrs[j], lengths),
    decreases addrs.len(),
{
    if addrs.len() > 0 {
        let front = addrs.drop_last();
        lemma_no_faults_in(front, lengths);
        if forall|j: int| 0 <= j < addrs.len() ==> address_fits(#[trigger] addrs[j], lengths) {
            assert forall|j: int| 0 <= j < front.len() implies address_fits(
                #[trigger] front[j],
                lengths,
            ) by {
                assert(front[j] == addrs[j]);
            }
            assert(address_fits(addrs[addrs.len() - 1], lengths));
        }
        if faults_in(addrs, lengths, Fault::Missing) == 0 && faults_in(
            addrs,
            lengths,
            Fault::TooLong,
        ) == 0 {
            assert forall|j: int| 0 <= j < addrs.len() implies address_fits(
                #[trigger] addrs[j],
                lengths,
            ) by {
                if j < front.len() {
                    assert(front[j] == addrs[j]);
                }
            }
        }
    }
}

/// No address of the entries has a fault exactly if every address fits its
/// block.
pub proof fn lemma_no_faults(entries: Seq<EntryView>, lengths: Map<Seq<u8>, usize>)
    ensures
        faults_of(entries, lengths, Fault::Missing) == 0 && faults_of(
            entries,
            lengths,
            Fault::TooLong,
        ) == 0 <==> all_addresses_fit(entries, lengths),
    decreases entries.len(),
{
    if entries.len() > 0 {
        let front = entries.drop_last();
        lemma_no_faults(front, lengths);
        lemma_no_faults_in(entries.last().addrs, lengths);
        if all_addresses_fit(entries, lengths) {
            assert forall|i: int, j: int|
                0 <= i < front.len() && 0 <= j < front[i].addrs.len() implies address_fits(
                #[trigger] front[i].addrs[j],
                lengths,
            ) by {
                assert(front[i] == entries[i]);
            }
            assert forall|j: int| 0 <= j < entries.last().addrs.len() implies address_fits(
                #[trigger] entries.last().addrs[j],
                lengths,
            ) by {
                assert(entries[entries.len() - 1].addrs[j] == entries.last().addrs[j]);
            }
        }
        if faults_of(entries, lengths, Fault::Missing) == 0 && faults_of(
            entries,
            lengths,
            Fault::TooLong,
        ) == 0 {
            assert forall|i: int, j: int|
                0 <= i < entries.len() && 0 <= j < entries[i].addrs.len() implies address_fits(
                #[trigger] entries[i].addrs[j],
                lengths,
            ) by {
                if i < front.len() {
                    assert(front[i] == entries[i]);
                    assert(address_fits(front[i].addrs[j], lengths));
                }
            }
        }
    }
}

/// Checks the addresses of the entries against the lengths of the blocks
/// that are there and sound. Counts the addresses whose block is not among
/// them, and those that point beyond the end of their block. Each count
/// stops at the highest number.
pub fn check_addresses(entries: &Vec<IndexEntry>, lengths: &BlockLengths) -> (r: (usize, usize))
    requires
        lengths.wf(),
    ensures
        r.0 == capped(faults_of(entries.deep_view(), lengths@, Fault::Missing)),
        r.1 == capped(faults_of(entries.deep_view(), lengths@, Fault::TooLong)),
        r.0 == 0 && r.1 == 0 <==> all_addresses_fit(entries.deep_view(), lengths@),
{
    let ghost views = entries.deep_view();
    let mut missing: usize = 0;
    let mut too_long: usize = 0;
    let mut i: usize = 0;
    proof {
        assert(views.take(0) =~= Seq::<EntryView>::empty());
        lemma_no_faults(views, lengths@);
    }
    while i < entries.len()
        invariant
            i <= entries.len(),
            lengths.wf(),
            views == entries.deep_view(),
            missing == capped(faults_of(views.take(i as int), lengths@, Fault::Missing)),
            too_long == capped(faults_of(views.take(i as int), lengths@, Fault::TooLong)),
        decreases entries.len() - i,
    {
        let addrs = &entries[i].addrs;
        let ghost row = views[i as int].addrs;
        let ghost missing_before = faults_of(views.take(i as int), lengths@, Fault::Missing);
        let ghost too_long_before = faults_of(views.take(i as int), lengths@, Fault::TooLong);
        proof {
            assert(row == addrs.deep_view());
            assert(views.take(i as int + 1).drop_last() =~= views.take(i as int));
            assert(views.take(i as int + 1).last() == views[i as int]);
            assert(row.take(0) =~= Seq::<AddressView>::empty());
        }
        let mut j: usize = 0;
        while j < addrs.len()
            invariant
                j <= addrs.len(),
                lengths.wf(),
                row == addrs.deep_view(),
                missing == capped(
                    missing_before + faults_in(row.take(j as int), lengths@, Fault::Missing),
                ),
                too_long == capped(
                    too_long_before + faults_in(row.take(j as int), lengths@, Fault::TooLong),
                ),
            decreases addrs.len() - j,
        {
            let address = &addrs[j];
            proof {
                assert(row[j as int] == address@);
                assert(row.take(j as int + 1).drop_last() =~= row.take(j as int));
                assert(row.take(j as int + 1).last() == row[j as int]);
            }
            match lengths.get(&address.hash) {
                None => {
                    missing = crate::monitor::count_up(missing);
                },
                Some(len) => {
                    if address.start > len as u64 || address.len > len as u64 - address.start {
                        too_long = crate::monitor::count_up(too_long);
                    }
                },
            }
            j = j + 1;
        }
        assert(row.take(j as int) =~= row);
        i = i + 1;
    }
    assert(views.take(i as int) =~= views);
    (missing, too_long)
}

/// Counts the addresses of the entries whose block is not in `present`. The
/// count stops at the highest number.
pub fn count_missing_blocks(entries: &Vec<IndexEntry>, present: &crate::blockset::BlockSet) -> (r:
    usize)
    requires
        present.wf(),
    ensures
        r == capped(absent_of(entries.deep_view(), present@)),
{
    let ghost views = entries.deep_view();
    let mut missing: usize = 0;
    let mut i: usize = 0;
    assert(views.take(0) =~= Seq::<EntryView>::empty());
    while i < entries.len()
        invariant
            i <= entries.len(),
            present.wf(),
            views == entries.deep_view(),
            missing == capped(absent_of(views.take(i as int), present@)),
        decreases entries.len() - i,
    {
        let addrs = &entries[i].addrs;
        let ghost row = views[i as int].addrs;
        let ghost before = absent_of(views.take(i as int), present@);
        proof {
            assert(row == addrs.deep_view());
            assert(views.take(i as int + 1).drop_last() =~= views.take(i as int));
            assert(views.take(i as int + 1).last() == views[i as int]);
            assert(row.take(0) =~= Seq::<AddressView>::empty());
        }
        let mut j: usize = 0;
        while j < addrs.len()
            invariant
                j <= addrs.len(),
                present.wf(),
                row == addrs.deep_view(),
                missing == capped(before + absent_in(row.take(j as int), present@)),
            decreases addrs.len() - j,
        {
            proof {
                assert(row[j as int] == addrs@[j as int]@);
                assert(row.take(j as int + 1).drop_last() =~= row.take(j as int));
                assert(row.take(j as int + 1).last() == row[j as int]);
            }
            if !present.contains(&addrs[j].hash) {
                missing = crate::monitor::count_up(missing);
            }
            j = j + 1;
        }
        assert(row.take(j as int) =~= row);
        i = i + 1;
    }
    assert(views.take(i as int) =~= views);
    missing
}

/// The number of the addresses whose block is not in `present`.
pub open spec fn absent_in(addrs: Seq<AddressView>, present: Set<Seq<u8>>) -> nat
    decreases addrs.len(),
{
    if addrs.len() == 0 {
        0
    } else {
        absent_in(addrs.drop_last(), present) + (if present.contains(addrs.last().hash) {
            0nat
        } else {
            1nat
        })
    }
}

/// The number of the addresses of the entries whose block is not in
/// `present`.
pub open spec fn absent_of(entries: Seq<EntryView>, present: Set<Seq<u8>>) -> nat
    decreases entries.len(),
{
    if entries.len() == 0 {
        0
    } else {
        absent_of(entries.drop_last(), present) + absent_in(entries.last().addrs, present)
    }
}

} // verus!
