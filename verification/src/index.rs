//! The index of a band: the entries of one tree, in the order of their paths,
//! cut into hunks.

use vstd::prelude::*;
use crate::apath::Apath;
use crate::blockhash::BlockHash;
use crate::entry::Entry;
use crate::entry::UnixTime;
use crate::kind::Kind;

verus! {

/// Points to some bytes of a file's content: `len` bytes from offset `start`
/// of the uncompressed content of the block named by `hash`.
#[derive(Debug, PartialEq, Eq)]
pub struct Address {
    /// Hash of the block that holds the bytes.
    pub hash: BlockHash,
    /// Position in the block where the bytes begin.
    pub start: u64,
    /// Number of bytes.
    pub len: u64,
}

impl Clone for Address {
    fn clone(&self) -> (r: Address)
        ensures
            r@ == self@,
    {
        Address { hash: self.hash.clone(), start: self.start, len: self.len }
    }
}

/// What an [`Address`] says.
pub ghost struct AddressView {
    pub hash: Seq<u8>,
    pub start: u64,
    pub len: u64,
}

impl View for Address {
    type V = AddressView;

    open spec fn view(&self) -> AddressView {
        AddressView { hash: self.hash@, start: self.start, len: self.len }
    }
}

impl DeepView for Address {
    type V = AddressView;

    open spec fn deep_view(&self) -> AddressView {
        self@
    }
}

/// The number of bytes that a list of addresses points to.
pub open spec fn addrs_len(addrs: Seq<AddressView>) -> nat
    decreases addrs.len(),
{
    if addrs.len() == 0 {
        0
    } else {
        addrs_len(addrs.drop_last()) + addrs.last().len as nat
    }
}

/// The text of a string that may be absent.
pub open spec fn text_of(s: Option<String>) -> Option<Seq<char>> {
    match s {
        Some(t) => Some(t@),
        None => None,
    }
}

/// The bytes of a hash that may be absent.
pub open spec fn hash_of(h: Option<BlockHash>) -> Option<Seq<u8>> {
    match h {
        Some(b) => Some(b@),
        None => None,
    }
}

/// A copy of a string that may be absent.
pub fn copy_text(s: &Option<String>) -> (r: Option<String>)
    ensures
        text_of(r) == text_of(*s),
{
    match s {
        Some(t) => Some(t.clone()),
        None => None,
    }
}

/// A copy of a list of addresses.
pub fn copy_addrs(addrs: &Vec<Address>) -> (r: Vec<Address>)
    ensures
        r.deep_view() == addrs.deep_view(),
{
    let mut out: Vec<Address> = Vec::new();
    let mut i: usize = 0;
    while i < addrs.len()
        invariant
            i <= addrs.len(),
            out@.len() == i,
            forall|j: int| 0 <= j < i ==> (#[trigger] out@[j])@ == addrs@[j]@,
        decreases addrs.len() - i,
    {
        out.push(addrs[i].clone());
        i = i + 1;
    }
    assert(out.deep_view() =~= addrs.deep_view());
    out
}

/// Adds up the bytes that the addresses point to. `None` comes back if they
/// are more than the highest number.
pub fn total_len(addrs: &Vec<Address>) -> (r: Option<u64>)
    ensures
        match r {
            Some(total) => total == addrs_len(addrs.deep_view()),
            None => addrs_len(addrs.deep_view()) > u64::MAX,
        },
{
    let ghost views = addrs.deep_view();
    let mut total: u64 = 0;
    let mut i: usize = 0;
    assert(views.take(0) =~= Seq::<AddressView>::empty());
    while i < addrs.len()
        invariant
            i <= addrs.len(),
            views == addrs.deep_view(),
            total == addrs_len(views.take(i as int)),
        decreases addrs.len() - i,
    {
        proof {
            assert(views.take(i as int + 1).drop_last() =~= views.take(i as int));
            assert(views.take(i as int + 1).last() == addrs@[i as int]@);
        }
        let len = addrs[i].len;
        if len > u64::MAX - total {
            proof {
                lemma_addrs_len_grows(views, i as int + 1);
            }
            return None;
        }
        total = total + len;
        i = i + 1;
    }
    assert(views.take(i as int) =~= views);
    Some(total)
}

/// More addresses do not point to fewer bytes.
pub proof fn lemma_addrs_len_grows(addrs: Seq<AddressView>, n: int)
    requires
        0 <= n <= addrs.len(),
    ensures
        addrs_len(addrs.take(n)) <= addrs_len(addrs),
    decreases addrs.len() - n,
{
    if n < addrs.len() {
        assert(addrs.take(n + 1).drop_last() =~= addrs.take(n));
        lemma_addrs_len_grows(addrs, n + 1);
    } else {
        assert(addrs.take(n) =~= addrs);
    }
}

/// Who owns an entry, as far as it is known.
#[derive(Clone, Debug, PartialEq, Eq)]
pub struct Owner {
    pub user: Option<String>,
    pub group: Option<String>,
}

/// Description of one archived file, directory or symlink.
#[derive(Debug, PartialEq, Eq)]
pub struct IndexEntry {
    /// Path of the entry in the tree.
    pub apath: Apath,
    /// What the entry is.
    pub kind: Kind,
    /// File modification time, in whole seconds past the Unix epoch.
    pub mtime: i64,
    /// Nanoseconds of the modification time beyond `mtime`.
    pub mtime_nanos: u32,
    /// Size of a file's content; `None` for directories and symlinks.
    pub size: Option<u64>,
    /// For symlinks only, the target of the symlink.
    pub target: Option<String>,
    /// For files, where the content is, in order; empty otherwise.
    pub addrs: Vec<Address>,
    /// For files, the hash of the whole content.
    pub content_hash: Option<BlockHash>,
    /// Permission bits, where they were recorded.
    pub unix_mode: Option<u32>,
    /// Owner, where it was recorded.
    pub owner: Owner,
}

/// What an [`IndexEntry`] says.
pub ghost struct EntryView {
    pub apath: Seq<u8>,
    pub kind: Kind,
    pub mtime: i64,
    pub mtime_nanos: u32,
    pub size: Option<u64>,
    pub target: Option<Seq<char>>,
    pub addrs: Seq<AddressView>,
    pub content_hash: Option<Seq<u8>>,
    pub unix_mode: Option<u32>,
    pub user: Option<Seq<char>>,
    pub group: Option<Seq<char>>,
}

impl EntryView {
    /// The entry is one that an index may hold: its path is canonical, its
    /// kind is known, a file's size is the number of bytes its addresses
    /// point to, and only a file has addresses.
    pub open spec fn wf(&self) -> bool {
        &&& crate::apath::valid_path(self.apath)
        &&& self.kind != Kind::Unknown
        &&& self.kind == Kind::File ==> self.size == Some(addrs_len(self.addrs) as u64)
            && addrs_len(self.addrs) <= u64::MAX
        &&& self.kind != Kind::File ==> self.addrs.len() == 0 && self.size is None
    }
}

impl View for IndexEntry {
    type V = EntryView;

    open spec fn view(&self) -> EntryView {
        EntryView {
            apath: self.apath@,
            kind: self.kind,
            mtime: self.mtime,
            mtime_nanos: self.mtime_nanos,
            size: self.size,
            target: text_of(self.target),
            addrs: self.addrs.deep_view(),
            content_hash: hash_of(self.content_hash),
            unix_mode: self.unix_mode,
            user: text_of(self.owner.user),
            group: text_of(self.owner.group),
        }
    }
}

impl DeepView for IndexEntry {
    type V = EntryView;

    open spec fn deep_view(&self) -> EntryView {
        self@
    }
}

impl Clone for IndexEntry {
    fn clone(&self) -> (r: IndexEntry)
        ensures
            r@ == self@,
    {
        IndexEntry {
            apath: self.apath.clone(),
            kind: self.kind,
            mtime: self.mtime,
            mtime_nanos: self.mtime_nanos,
            size: self.size,
            target: copy_text(&self.target),
            addrs: copy_addrs(&self.addrs),
            content_hash: match &self.content_hash {
                Some(h) => Some(h.clone()),
                None => None,
            },
            unix_mode: self.unix_mode,
            owner: Owner { user: copy_text(&self.owner.user), group: copy_text(&self.owner.group) },
        }
    }
}

impl IndexEntry {
    /// The entry is one that an index may hold.
    pub open spec fn wf(&self) -> bool {
        self@.wf()
    }

    /// Tells whether the entry is one that an index may hold.
    pub fn is_wf(&self) -> (r: bool)
        ensures
            r == self.wf(),
    {
        if !crate::apath::is_valid_path(self.apath.as_bytes()) {
            return false;
        }
        match self.kind {
            Kind::Unknown => false,
            Kind::File => {
                match (total_len(&self.addrs), self.size) {
                    (Some(total), Some(size)) => total == size,
                    _ => false,
                }
            },
            Kind::Dir | Kind::Symlink => {
                assert(self@.addrs.len() == self.addrs@.len());
                self.addrs.len() == 0 && self.size.is_none()
            },
        }
    }

    /// True if the kind, the time of modification and the size of this entry
    /// are those of `basis_entry`.
    pub fn is_unchanged_from<O: Entry>(&self, basis_entry: &O) -> (r: bool)
        ensures
            r == crate::entry::unchanged(
                (self.kind, UnixTime { secs: self.mtime, nanos: self.mtime_nanos }, self.size),
                (basis_entry.spec_kind(), basis_entry.spec_mtime(), basis_entry.spec_size()),
            ),
    {
        crate::entry::is_unchanged_from(self, basis_entry)
    }

    /// An entry for a directory.
    pub fn directory(apath: Apath, mtime: UnixTime) -> (r: IndexEntry)
        ensures
            r.apath@ == apath@,
            r.kind == Kind::Dir,
            r.mtime == mtime.secs,
            r.mtime_nanos == mtime.nanos,
            r.size is None,
            r.target is None,
            r.addrs@.len() == 0,
            r.unix_mode is None,
            r.owner.user is None,
            r.owner.group is None,
            r.content_hash is None,
            apath.wf() ==> r.wf(),
    {
        IndexEntry {
            apath,
            kind: Kind::Dir,
            mtime: mtime.secs,
            mtime_nanos: mtime.nanos,
            size: None,
            target: None,
            addrs: Vec::new(),
            content_hash: None,
            unix_mode: None,
            owner: Owner { user: None, group: None },
        }
    }

    /// An entry for a symlink that points to `target`.
    pub fn symlink(apath: Apath, target: String, mtime: UnixTime) -> (r: IndexEntry)
        ensures
            r.apath@ == apath@,
            r.kind == Kind::Symlink,
            r.mtime == mtime.secs,
            r.mtime_nanos == mtime.nanos,
            r.size is None,
            text_of(r.target) == Some(target@),
            r.addrs@.len() == 0,
            r.unix_mode is None,
            r.owner.user is None,
            r.owner.group is None,
            r.content_hash is None,
            apath.wf() ==> r.wf(),
    {
        IndexEntry {
            apath,
            kind: Kind::Symlink,
            mtime: mtime.secs,
            mtime_nanos: mtime.nanos,
            size: None,
            target: Some(target),
            addrs: Vec::new(),
            content_hash: None,
            unix_mode: None,
            owner: Owner { user: None, group: None },
        }
    }
}

impl Entry for IndexEntry {
    open spec fn spec_apath(&self) -> Apath {
        self.apath
    }

    open spec fn spec_kind(&self) -> Kind {
        self.kind
    }

    open spec fn spec_mtime(&self) -> UnixTime {
        UnixTime { secs: self.mtime, nanos: self.mtime_nanos }
    }

    open spec fn spec_size(&self) -> Option<u64> {
        self.size
    }

    open spec fn spec_symlink_target(&self) -> Option<String> {
        self.target
    }

    fn apath(&self) -> (r: &Apath) {
        &self.apath
    }

    fn kind(&self) -> (r: Kind) {
        self.kind
    }

    fn mtime(&self) -> (r: UnixTime) {
        UnixTime { secs: self.mtime, nanos: self.mtime_nanos }
    }

    fn size(&self) -> (r: Option<u64>) {
        self.size
    }

    fn symlink_target(&self) -> (r: &Option<String>) {
        &self.target
    }
}

/// The paths of the entries come in strictly increasing order.
pub open spec fn increasing(entries: Seq<EntryView>) -> bool {
    forall|i: int, j: int|
        0 <= i < j < entries.len() ==> crate::apath::path_lt(
            #[trigger] entries[i].apath,
            #[trigger] entries[j].apath,
        )
}

/// The path of every entry comes after `bound`; with no bound, any entries do.
pub open spec fn all_after(entries: Seq<EntryView>, bound: Option<Seq<u8>>) -> bool {
    bound matches Some(b) ==> forall|i: int|
        0 <= i < entries.len() ==> crate::apath::path_lt(b, #[trigger] entries[i].apath)
}

/// Those of the entries whose path comes after `bound`, in their order.
pub open spec fn entries_after(entries: Seq<EntryView>, bound: Seq<u8>) -> Seq<EntryView>
    decreases entries.len(),
{
    if entries.len() == 0 {
        Seq::empty()
    } else {
        let front = entries_after(entries.drop_last(), bound);
        if crate::apath::path_lt(bound, entries.last().apath) {
            front.push(entries.last())
        } else {
            front
        }
    }
}

/// What is left of the entries after `bound`: all of them where there is no
/// bound.
pub open spec fn entries_beyond(entries: Seq<EntryView>, bound: Option<Seq<u8>>) -> Seq<
    EntryView,
> {
    match bound {
        Some(b) => entries_after(entries, b),
        None => entries,
    }
}

/// The path of the last of the entries, or `fallback` where there is none.
pub open spec fn last_path(entries: Seq<EntryView>, fallback: Option<Seq<u8>>) -> Option<
    Seq<u8>,
> {
    if entries.len() > 0 {
        Some(entries.last().apath)
    } else {
        fallback
    }
}

/// An entry may come next after `entries`: there are none, or its path comes
/// after that of the last.
pub open spec fn may_follow(entries: Seq<EntryView>, entry: EntryView) -> bool {
    entries.len() == 0 || crate::apath::path_lt(entries.last().apath, entry.apath)
}

/// What [`entries_after`] keeps: entries of the input, in order, all of them
/// after the bound, and every entry after the bound.
pub proof fn lemma_entries_after(entries: Seq<EntryView>, bound: Seq<u8>)
    ensures
        entries_after(entries, bound).len() <= entries.len(),
        all_after(entries_after(entries, bound), Some(bound)),
        increasing(entries) ==> increasing(entries_after(entries, bound)),
        forall|i: int|
            0 <= i < entries_after(entries, bound).len() ==> entries.contains(
                #[trigger] entries_after(entries, bound)[i],
            ),
        forall|i: int|
            0 <= i < entries.len() && crate::apath::path_lt(bound, entries[i].apath)
                ==> entries_after(entries, bound).contains(#[trigger] entries[i]),
        entries.len() > 0 && entries_after(entries, bound).len() > 0 && increasing(entries)
            ==> entries_after(entries, bound).last() == entries.last(),
    decreases entries.len(),
{
    let kept = entries_after(entries, bound);
    if entries.len() > 0 {
        let front_in = entries.drop_last();
        let front = entries_after(front_in, bound);
        lemma_entries_after(front_in, bound);
        assert forall|i: int| 0 <= i < kept.len() implies entries.contains(#[trigger] kept[i]) by {
            if i < front.len() {
                assert(front_in.contains(front[i]));
                let k = choose|k: int| 0 <= k < front_in.len() && front_in[k] == front[i];
                assert(entries[k] == front[i]);
            } else {
                assert(kept[i] == entries[entries.len() - 1]);
            }
        }
        assert forall|i: int|
            0 <= i < entries.len() && crate::apath::path_lt(
                bound,
                entries[i].apath,
            ) implies kept.contains(#[trigger] entries[i]) by {
            if i < front_in.len() {
                assert(front_in[i] == entries[i]);
                assert(front.contains(front_in[i]));
                let k = choose|k: int| 0 <= k < front.len() && front[k] == front_in[i];
                assert(kept[k] == entries[i]);
            } else {
                assert(kept[kept.len() - 1] == entries[i]);
            }
        }
        if increasing(entries) {
            lemma_increasing_front(entries, entries.len() - 1);
            assert(front_in =~= entries.take(entries.len() - 1));
            assert(increasing(kept)) by {
                assert forall|i: int, j: int| 0 <= i < j < kept.len() implies crate::apath::path_lt(
                    #[trigger] kept[i].apath,
                    #[trigger] kept[j].apath,
                ) by {
                    if j < front.len() {
                        assert(kept[i] == front[i] && kept[j] == front[j]);
                    } else {
                        assert(kept[i] == front[i]);
                        assert(front_in.contains(front[i]));
                        let k = choose|k: int| 0 <= k < front_in.len() && front_in[k] == front[i];
                        assert(entries[k] == front[i]);
                        assert(kept[j] == entries[entries.len() - 1]);
                    }
                }
            }
            if kept.len() > 0 && !crate::apath::path_lt(bound, entries.last().apath) {
                // Something before the last entry is after the bound, so the
                // last entry is too.
                assert(front.len() > 0);
                assert(front_in.contains(front[0]));
                let k = choose|k: int| 0 <= k < front_in.len() && front_in[k] == front[0];
                assert(entries[k] == front[0]);
                assert(crate::apath::path_lt(bound, front[0].apath));
                assert(crate::apath::path_lt(entries[k].apath, entries[entries.len() - 1].apath));
                crate::apath::lemma_path_lt_transitive(
                    bound,
                    entries[k].apath,
                    entries.last().apath,
                );
            }
        }
    }
}

/// The front of increasing entries is increasing.
pub proof fn lemma_increasing_front(entries: Seq<EntryView>, n: int)
    requires
        increasing(entries),
        0 <= n <= entries.len(),
    ensures
        increasing(entries.take(n)),
{
    let front = entries.take(n);
    assert forall|i: int, j: int| 0 <= i < j < front.len() implies crate::apath::path_lt(
        #[trigger] front[i].apath,
        #[trigger] front[j].apath,
    ) by {
        assert(front[i] == entries[i] && front[j] == entries[j]);
    }
}

/// Nothing that is after a bound is dropped for it.
pub proof fn lemma_entries_after_all(entries: Seq<EntryView>, bound: Seq<u8>)
    requires
        all_after(entries, Some(bound)),
    ensures
        entries_after(entries, bound) == entries,
    decreases entries.len(),
{
    if entries.len() > 0 {
        assert(all_after(entries.drop_last(), Some(bound))) by {
            assert forall|i: int| 0 <= i < entries.drop_last().len() implies crate::apath::path_lt(
                bound,
                #[trigger] entries.drop_last()[i].apath,
            ) by {
                assert(entries.drop_last()[i] == entries[i]);
            }
        }
        lemma_entries_after_all(entries.drop_last(), bound);
        assert(crate::apath::path_lt(bound, entries[entries.len() - 1].apath));
        assert(entries.drop_last().push(entries.last()) =~= entries);
    } else {
        assert(entries =~= Seq::empty());
    }
}

/// Entries that follow increasing entries, each after the last of them, keep
/// the whole increasing.
pub proof fn lemma_increasing_append(front: Seq<EntryView>, back: Seq<EntryView>)
    requires
        increasing(front),
        increasing(back),
        all_after(back, last_path(front, None)),
    ensures
        increasing(front + back),
{
    let whole = front + back;
    assert forall|i: int, j: int| 0 <= i < j < whole.len() implies crate::apath::path_lt(
        #[trigger] whole[i].apath,
        #[trigger] whole[j].apath,
    ) by {
        if j < front.len() {
            assert(whole[i] == front[i] && whole[j] == front[j]);
        } else if i >= front.len() {
            assert(whole[i] == back[i - front.len()] && whole[j] == back[j - front.len()]);
        } else {
            assert(whole[i] == front[i] && whole[j] == back[j - front.len()]);
            assert(crate::apath::path_lt(front.last().apath, back[j - front.len()].apath));
            if i < front.len() - 1 {
                assert(crate::apath::path_lt(front[i].apath, front[front.len() - 1].apath));
                crate::apath::lemma_path_lt_transitive(
                    front[i].apath,
                    front.last().apath,
                    whole[j].apath,
                );
            }
        }
    }
}

/// Keeps the entries of a hunk whose path comes after `bound`.
///
/// This is how a reader moves on to just after a path: of a hunk that ends at
/// or before the bound nothing is left, a hunk that starts after it is left
/// whole, and a hunk across it loses its front.
pub fn hunk_after(hunk: Vec<IndexEntry>, bound: &Apath) -> (r: Vec<IndexEntry>)
    ensures
        r.deep_view() == entries_after(hunk.deep_view(), bound@),
{
    let mut out: Vec<IndexEntry> = Vec::new();
    let ghost all = hunk@;
    let ghost views = hunk.deep_view();
    assert(out.deep_view() =~= Seq::<EntryView>::empty());
    for entry in it: hunk
        invariant
            all == it.seq(),
            views.len() == all.len(),
            forall|k: int| 0 <= k < all.len() ==> views[k] == (#[trigger] all[k])@,
            out.deep_view() == entries_after(views.take(it.index() as int), bound@),
    {
        let ghost i = it.index() as int;
        let ghost before = out.deep_view();
        proof {
            assert(views.take(i + 1).drop_last() =~= views.take(i));
            assert(views.take(i + 1).last() == entry@);
        }
        if bound.precedes(&entry.apath) {
            out.push(entry);
            assert(out.deep_view() =~= before.push(entry@));
        }
    }
    assert(views.take(views.len() as int) =~= views);
    out
}

/// A hunk of an index that is ready to be written: its number within the
/// band, counted from zero, and its entries.
#[derive(Debug)]
pub struct IndexHunk {
    pub number: u32,
    pub entries: Vec<IndexEntry>,
}

/// Collects the entries of a new index in order, and cuts them into hunks.
pub struct IndexBuilder {
    /// Entries that are in no hunk yet.
    entries: Vec<IndexEntry>,
    /// The number of hunks handed out.
    sequence: u32,
    /// The path of the last entry taken, in this hunk or an earlier one.
    last_apath: Option<Apath>,
    /// The entries of the hunks handed out.
    written: Ghost<Seq<EntryView>>,
}

impl IndexBuilder {
    /// All the entries taken so far, those of earlier hunks first.
    pub closed spec fn all_entries(&self) -> Seq<EntryView> {
        self.written@ + self.entries.deep_view()
    }

    /// The entries that are in no hunk yet.
    pub closed spec fn buffered(&self) -> Seq<EntryView> {
        self.entries.deep_view()
    }

    /// The entries of the hunks handed out.
    pub closed spec fn written(&self) -> Seq<EntryView> {
        self.written@
    }

    /// The number of hunks handed out.
    pub closed spec fn hunk_count(&self) -> u32 {
        self.sequence
    }

    /// The entries taken so far are in strictly increasing order.
    pub closed spec fn wf(&self) -> bool {
        &&& increasing(self.all_entries())
        &&& match self.last_apath {
            Some(p) => self.all_entries().len() > 0 && p@ == self.all_entries().last().apath,
            None => self.all_entries().len() == 0,
        }
    }

    /// How the parts of a builder hang together.
    pub proof fn lemma_parts(&self)
        ensures
            self.all_entries() == self.written() + self.buffered(),
            self.wf() ==> increasing(self.all_entries()),
    {
    }

    /// A builder that has taken nothing.
    pub fn new() -> (r: IndexBuilder)
        ensures
            r.wf(),
            r.all_entries() == Seq::<EntryView>::empty(),
            r.buffered() == Seq::<EntryView>::empty(),
            r.written() == Seq::<EntryView>::empty(),
            r.hunk_count() == 0,
    {
        let r = IndexBuilder {
            entries: Vec::new(),
            sequence: 0,
            last_apath: None,
            written: Ghost(Seq::empty()),
        };
        assert(r.entries.deep_view() =~= Seq::<EntryView>::empty());
        assert(r.all_entries() =~= Seq::<EntryView>::empty());
        r
    }

    /// True if `entry` may be pushed next: its path comes after that of every
    /// entry taken so far.
    pub fn can_push(&self, entry: &IndexEntry) -> (r: bool)
        requires
            self.wf(),
        ensures
            r == may_follow(self.all_entries(), entry@),
    {
        match &self.last_apath {
            Some(last) => last.precedes(&entry.apath),
            None => true,
        }
    }

    /// The number of entries that are in no hunk yet.
    pub fn buffered_len(&self) -> (r: usize)
        ensures
            r == self.buffered().len(),
    {
        self.entries.len()
    }

    /// The number of hunks handed out.
    pub fn hunks_finished(&self) -> (r: u32)
        ensures
            r == self.hunk_count(),
    {
        self.sequence
    }

    /// Takes the next entry of the tree. It must come after all those before.
    pub fn push_entry(&mut self, entry: IndexEntry)
        requires
            old(self).wf(),
            may_follow(old(self).all_entries(), entry@),
        ensures
            final(self).wf(),
            final(self).all_entries() == old(self).all_entries().push(entry@),
            final(self).buffered() == old(self).buffered().push(entry@),
            final(self).written() == old(self).written(),
            final(self).hunk_count() == old(self).hunk_count(),
    {
        let ghost before = self.all_entries();
        let ghost buffered = self.entries.deep_view();
        self.last_apath = Some(entry.apath.clone());
        self.entries.push(entry);
        proof {
            assert(self.entries.deep_view() =~= buffered.push(entry@));
            assert(self.all_entries() =~= before.push(entry@));
            let one = seq![entry@];
            assert(one[0] == entry@);
            assert(increasing(one));
            assert(before.push(entry@) =~= before + one);
            assert(all_after(one, last_path(before, None))) by {
                if before.len() > 0 {
                    assert forall|i: int| 0 <= i < one.len() implies crate::apath::path_lt(
                        before.last().apath,
                        #[trigger] one[i].apath,
                    ) by {}
                }
            }
            lemma_increasing_append(before, one);
        }
    }

    /// Cuts a hunk: hands out the entries that are in no hunk yet under the
    /// next hunk number. Where there are none, no hunk is made.
    pub fn finish_hunk(&mut self) -> (r: Option<IndexHunk>)
        requires
            old(self).wf(),
            old(self).hunk_count() < u32::MAX,
        ensures
            final(self).wf(),
            final(self).all_entries() == old(self).all_entries(),
            final(self).buffered() == Seq::<EntryView>::empty(),
            r is None <==> old(self).buffered().len() == 0,
            r is None ==> final(self).hunk_count() == old(self).hunk_count()
                && final(self).written() == old(self).written(),
            r matches Some(hunk) ==> {
                &&& hunk.number == old(self).hunk_count()
                &&& hunk.entries.deep_view() == old(self).buffered()
                &&& final(self).hunk_count() == old(self).hunk_count() + 1
                &&& final(self).written() == old(self).written() + old(self).buffered()
            },
    {
        if self.entries.len() == 0 {
            assert(self.entries.deep_view() =~= Seq::<EntryView>::empty());
            return None;
        }
        let ghost before = self.all_entries();
        let mut entries: Vec<IndexEntry> = Vec::new();
        core::mem::swap(&mut entries, &mut self.entries);
        let number = self.sequence;
        self.sequence = number + 1;
        self.written = Ghost(before);
        proof {
            assert(self.entries.deep_view() =~= Seq::<EntryView>::empty());
            assert(self.all_entries() =~= before);
        }
        Some(IndexHunk { number, entries })
    }
}

impl IndexBuilder {
    /// Ends the index: cuts a last hunk of what is in no hunk yet, if there is
    /// anything, and tells how many hunks the index has.
    pub fn finish(self) -> (r: (Option<IndexHunk>, u32))
        requires
            self.wf(),
            self.hunk_count() < u32::MAX,
        ensures
            r.0 is None <==> self.buffered().len() == 0,
            r.0 is None ==> r.1 == self.hunk_count(),
            r.0 matches Some(hunk) ==> {
                &&& hunk.number == self.hunk_count()
                &&& hunk.entries.deep_view() == self.buffered()
                &&& r.1 == self.hunk_count() + 1
            },
    {
        let mut builder = self;
        let last = builder.finish_hunk();
        (last, builder.sequence)
    }
}

/// The entries of a builder's hunks are in increasing order across hunks:
/// whatever is pushed after a hunk was cut comes after all that is in it.
pub proof fn lemma_builder_order(builder: IndexBuilder, i: int, j: int)
    requires
        builder.wf(),
        0 <= i < j < builder.all_entries().len(),
    ensures
        crate::apath::path_lt(builder.all_entries()[i].apath, builder.all_entries()[j].apath),
{
    builder.lemma_parts();
}

} // verus!
