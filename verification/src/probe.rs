//! Summing up one directory: which entries are set aside for a later probe,
//! and which count toward the directory's own size.

use vstd::prelude::*;

verus! {

/// What one `stat` of an entry told.
#[derive(Clone, Copy, Debug, PartialEq, Eq, Structural)]
pub struct Stat {
    pub is_dir: bool,
    pub device: u64,
    pub len: u64,
}

/// One entry of a directory listing. `stat` is `None` where the entry could
/// not be examined.
#[derive(Clone, Debug)]
pub struct Entry {
    pub path: String,
    pub is_symlink: bool,
    pub stat: Option<Stat>,
}

/// An [`Entry`] with its path as a sequence of characters.
pub struct EntryView {
    pub path: Seq<char>,
    pub is_symlink: bool,
    pub stat: Option<Stat>,
}

impl View for Entry {
    type V = EntryView;

    open spec fn view(&self) -> EntryView {
        EntryView { path: self.path@, is_symlink: self.is_symlink, stat: self.stat }
    }
}

/// Why a directory could not be probed, or a scan not begun.
#[derive(Clone, Copy, Debug, PartialEq, Eq, Structural)]
pub enum ErrorKind {
    NotADirectory,
    ListFailed,
    RootNotFound,
}

/// A directory that could not be listed.
#[derive(Clone, Debug)]
pub struct ProbeError {
    pub path: String,
    pub kind: ErrorKind,
}

/// The summary of one directory: the bytes directly inside it and the
/// subdirectories still to be probed.
#[derive(Clone, Debug)]
pub struct DirMetadata {
    pub path: String,
    pub paths: Vec<String>,
    pub size: u64,
}

/// A [`DirMetadata`] over sequences of characters.
pub struct DirMetadataView {
    pub path: Seq<char>,
    pub paths: Seq<Seq<char>>,
    pub size: u64,
}

impl View for DirMetadata {
    type V = DirMetadataView;

    open spec fn view(&self) -> DirMetadataView {
        DirMetadataView { path: self.path@, paths: texts(self.paths@), size: self.size }
    }
}

/// The outcome of one probe, over sequences of characters.
pub enum ProbeView {
    Probed(DirMetadataView),
    Failed { path: Seq<char>, kind: ErrorKind },
}

impl ProbeView {
    /// The directory that the probe was about.
    pub open spec fn path(self) -> Seq<char> {
        match self {
            ProbeView::Probed(summary) => summary.path,
            ProbeView::Failed { path, .. } => path,
        }
    }
}

/// The outcome of a probe as a [`ProbeView`].
pub open spec fn probe_view(result: Result<DirMetadata, ProbeError>) -> ProbeView {
    match result {
        Ok(summary) => ProbeView::Probed(summary@),
        Err(error) => ProbeView::Failed { path: error.path@, kind: error.kind },
    }
}

/// The strings of `v`, each as its sequence of characters.
pub open spec fn texts(v: Seq<String>) -> Seq<Seq<char>> {
    Seq::new(v.len(), |i: int| v[i]@)
}

/// The entries of `v`, each as its view.
pub open spec fn entry_views(v: Seq<Entry>) -> Seq<EntryView> {
    Seq::new(v.len(), |i: int| v[i]@)
}

/// Whether `e` is a directory and no symbolic link, on whatever device.
pub open spec fn is_directory(e: EntryView) -> bool {
    !e.is_symlink && match e.stat {
        Some(stat) => stat.is_dir,
        None => false,
    }
}

/// Whether `e` is a subdirectory to probe later: no symbolic link, a
/// directory, and on the device `device`.
pub open spec fn is_child(e: EntryView, device: u64) -> bool {
    !e.is_symlink && match e.stat {
        Some(stat) => stat.is_dir && stat.device == device,
        None => false,
    }
}

/// The bytes that `e` adds to the size of the directory that lists it:
/// nothing for a symbolic link, for a subdirectory to probe later, and for an
/// entry that could not be examined; its length otherwise.
pub open spec fn leaf_size(e: EntryView, device: u64) -> nat {
    if e.is_symlink || is_child(e, device) {
        0
    } else {
        match e.stat {
            Some(stat) => stat.len as nat,
            None => 0,
        }
    }
}

/// The own size of a directory with the listing `entries`.
pub open spec fn own_size(entries: Seq<EntryView>, device: u64) -> nat
    decreases entries.len(),
{
    if entries.len() == 0 {
        0
    } else {
        own_size(entries.drop_last(), device) + leaf_size(entries.last(), device)
    }
}

/// The subdirectories to probe later among `entries`, in listing order.
pub open spec fn child_dirs(entries: Seq<EntryView>, device: u64) -> Seq<Seq<char>>
    decreases entries.len(),
{
    if entries.len() == 0 {
        Seq::empty()
    } else if is_child(entries.last(), device) {
        child_dirs(entries.drop_last(), device).push(entries.last().path)
    } else {
        child_dirs(entries.drop_last(), device)
    }
}

/// The summary of the directory `path` with the listing `entries`.
pub open spec fn summary_of(path: Seq<char>, entries: Seq<EntryView>, device: u64)
    -> DirMetadataView {
    DirMetadataView {
        path,
        paths: child_dirs(entries, device),
        size: own_size(entries, device) as u64,
    }
}

/// What probing `path` yields when listing it gave `listing`.
pub open spec fn probe_outcome(
    path: Seq<char>,
    device: u64,
    listing: Result<Seq<EntryView>, ErrorKind>,
) -> ProbeView {
    match listing {
        Ok(entries) => ProbeView::Probed(summary_of(path, entries, device)),
        Err(kind) => ProbeView::Failed { path, kind },
    }
}

/// A listing as sequences: its entries by their views, or its failure.
pub open spec fn listing_view(listing: Result<Vec<Entry>, ErrorKind>) -> Result<
    Seq<EntryView>,
    ErrorKind,
> {
    match listing {
        Ok(entries) => Ok(entry_views(entries@)),
        Err(kind) => Err(kind),
    }
}

/// The own size of a part of a listing is at most that of the whole.
pub proof fn own_size_of_prefix(entries: Seq<EntryView>, device: u64, n: int)
    requires
        0 <= n <= entries.len(),
    ensures
        own_size(entries.take(n), device) <= own_size(entries, device),
    decreases entries.len(),
{
    if n == entries.len() {
        assert(entries.take(n) =~= entries);
    } else {
        own_size_of_prefix(entries.drop_last(), device, n);
        assert(entries.drop_last().take(n) =~= entries.take(n));
    }
}

/// A path is set aside for a later probe exactly where an entry of that path
/// is a directory on the device and no symbolic link.
pub proof fn child_dirs_membership(entries: Seq<EntryView>, device: u64, c: Seq<char>)
    ensures
        child_dirs(entries, device).contains(c) <==> exists|i: int|
            0 <= i < entries.len() && (#[trigger] entries[i]).path == c && is_child(
                entries[i],
                device,
            ),
    decreases entries.len(),
{
    if entries.len() > 0 {
        let rest = entries.drop_last();
        let last = entries.last();
        child_dirs_membership(rest, device, c);
        let found = child_dirs(entries, device);
        if found.contains(c) {
            let k = choose|k: int| 0 <= k < found.len() && found[k] == c;
            if is_child(last, device) && k == found.len() - 1 {
                assert(entries[entries.len() - 1].path == c);
            } else {
                assert(child_dirs(rest, device)[k] == c);
                let i = choose|i: int|
                    0 <= i < rest.len() && (#[trigger] rest[i]).path == c && is_child(
                        rest[i],
                        device,
                    );
                assert(entries[i].path == c);
            }
        }
        if exists|i: int|
            0 <= i < entries.len() && (#[trigger] entries[i]).path == c && is_child(
                entries[i],
                device,
            ) {
            let i = choose|i: int|
                0 <= i < entries.len() && (#[trigger] entries[i]).path == c && is_child(
                    entries[i],
                    device,
                );
            if i == entries.len() - 1 {
                assert(found[found.len() - 1] == c);
            } else {
                assert(rest[i].path == c);
                let k = choose|k: int|
                    0 <= k < child_dirs(rest, device).len() && child_dirs(rest, device)[k] == c;
                assert(found[k] == c);
            }
        }
    }
}

/// The bytes of `e` where it is a file: nothing for a symbolic link, for a
/// directory, and for an entry that could not be examined.
pub open spec fn file_size(e: EntryView) -> nat {
    if e.is_symlink {
        0
    } else {
        match e.stat {
            Some(stat) => if stat.is_dir {
                0
            } else {
                stat.len as nat
            },
            None => 0,
        }
    }
}

/// The bytes of the files directly among `entries`.
pub open spec fn file_bytes(entries: Seq<EntryView>) -> nat
    decreases entries.len(),
{
    if entries.len() == 0 {
        0
    } else {
        file_bytes(entries.drop_last()) + file_size(entries.last())
    }
}

/// Whether every directory among `entries` that is no symbolic link is on
/// the device `device`.
pub open spec fn on_one_device(entries: Seq<EntryView>, device: u64) -> bool {
    forall|i: int|
        0 <= i < entries.len() ==> match (#[trigger] entries[i]).stat {
            Some(stat) => entries[i].is_symlink || !stat.is_dir || stat.device == device,
            None => true,
        }
}

/// Where every subdirectory is on the device, the own size of a directory is
/// the sum of the lengths of the files directly in it: neither a symbolic
/// link nor a subdirectory counts.
pub proof fn own_size_is_file_bytes(entries: Seq<EntryView>, device: u64)
    requires
        on_one_device(entries, device),
    ensures
        own_size(entries, device) == file_bytes(entries),
    decreases entries.len(),
{
    if entries.len() > 0 {
        let rest = entries.drop_last();
        assert forall|i: int| 0 <= i < rest.len() implies match (#[trigger] rest[i]).stat {
            Some(stat) => rest[i].is_symlink || !stat.is_dir || stat.device == device,
            None => true,
        } by {
            assert(rest[i] == entries[i]);
        }
        own_size_is_file_bytes(rest, device);
        assert(entries.last() == entries[entries.len() - 1]);
    }
}

/// Whether `e` is a subdirectory to probe later.
pub fn classify_child(e: &Entry, device: u64) -> (b: bool)
    ensures
        b == is_child(e@, device),
{
    if e.is_symlink {
        false
    } else {
        match e.stat {
            Some(stat) => stat.is_dir && stat.device == device,
            None => false,
        }
    }
}

/// The bytes that `e` adds to the size of the directory that lists it.
pub fn entry_size(e: &Entry, device: u64) -> (n: u64)
    ensures
        n == leaf_size(e@, device),
{
    if e.is_symlink || classify_child(e, device) {
        0
    } else {
        match e.stat {
            Some(stat) => stat.len,
            None => 0,
        }
    }
}

/// A listing in which no directory is on the device sets nothing aside.
pub proof fn other_devices_give_no_children(entries: Seq<EntryView>, device: u64)
    requires
        forall|i: int| 0 <= i < entries.len() ==> !is_child(#[trigger] entries[i], device),
    ensures
        child_dirs(entries, device) == Seq::<Seq<char>>::empty(),
    decreases entries.len(),
{
    if entries.len() > 0 {
        let rest = entries.drop_last();
        assert forall|i: int| 0 <= i < rest.len() implies !is_child(#[trigger] rest[i], device) by {
            assert(rest[i] == entries[i]);
        }
        other_devices_give_no_children(rest, device);
        assert(entries.last() == entries[entries.len() - 1]);
    }
}

/// The subdirectories to probe later among `entries`, in listing order.
pub fn subdirectories(entries: &Vec<Entry>, device: u64) -> (paths: Vec<String>)
    ensures
        texts(paths@) == child_dirs(entry_views(entries@), device),
{
    let ghost all = entry_views(entries@);
    let mut paths: Vec<String> = Vec::new();
    let mut i: usize = 0;
    while i < entries.len()
        invariant
            0 <= i <= entries.len(),
            all == entry_views(entries@),
            texts(paths@) == child_dirs(all.take(i as int), device),
        decreases entries.len() - i,
    {
        proof {
            assert(all.take(i + 1).drop_last() =~= all.take(i as int));
            assert(all.take(i + 1).last() == entries@[i as int]@);
        }
        let entry = &entries[i];
        if classify_child(entry, device) {
            let ghost before = paths@;
            paths.push(entry.path.clone());
            assert(texts(paths@) =~= texts(before).push(entry.path@));
        }
        i += 1;
    }
    assert(all.take(i as int) =~= all);
    paths
}

/// Whether the own size of a directory with the listing `entries` fits in
/// 64 bits.
pub fn size_fits(entries: &Vec<Entry>, device: u64) -> (fits: bool)
    ensures
        fits == (own_size(entry_views(entries@), device) <= u64::MAX),
{
    let ghost all = entry_views(entries@);
    let mut size: u64 = 0;
    let mut i: usize = 0;
    while i < entries.len()
        invariant
            0 <= i <= entries.len(),
            all == entry_views(entries@),
            size == own_size(all.take(i as int), device),
        decreases entries.len() - i,
    {
        proof {
            assert(all.take(i + 1).drop_last() =~= all.take(i as int));
            assert(all.take(i + 1).last() == entries@[i as int]@);
        }
        match size.checked_add(entry_size(&entries[i], device)) {
            Some(sum) => {
                size = sum;
            },
            None => {
                proof {
                    own_size_of_prefix(all, device, i + 1);
                }
                return false;
            },
        }
        i += 1;
    }
    assert(all.take(i as int) =~= all);
    true
}

/// Sums up the directory `dir_path` from what listing it gave: the entries
/// found, or the reason why it could not be listed.
///
/// A symbolic link counts for nothing. A directory on the device `device` is
/// set aside for a later probe. Every other entry adds its length to the
/// directory's own size, and nothing where it could not be examined. A
/// listing that failed makes the probe fail, for the same reason.
pub fn process_directory(dir_path: &String, device: u64, listing: &Result<Vec<Entry>, ErrorKind>)
    -> (result: Result<DirMetadata, ProbeError>)
    requires
        listing matches Ok(entries) ==> own_size(entry_views(entries@), device) <= u64::MAX,
    ensures
        probe_view(result) == probe_outcome(dir_path@, device, listing_view(*listing)),
{
    match listing {
        Err(kind) => Err(ProbeError { path: dir_path.clone(), kind: *kind }),
        Ok(entries) => {
            let ghost all = entry_views(entries@);
            let paths = subdirectories(entries, device);
            let mut size: u64 = 0;
            let mut i: usize = 0;
            while i < entries.len()
                invariant
                    0 <= i <= entries.len(),
                    all == entry_views(entries@),
                    own_size(all, device) <= u64::MAX,
                    size == own_size(all.take(i as int), device),
                decreases entries.len() - i,
            {
                proof {
                    assert(all.take(i + 1).drop_last() =~= all.take(i as int));
                    assert(all.take(i + 1).last() == entries@[i as int]@);
                    own_size_of_prefix(all, device, i + 1);
                }
                size = size + entry_size(&entries[i], device);
                i += 1;
            }
            assert(all.take(i as int) =~= all);
            Ok(DirMetadata { path: dir_path.clone(), paths, size })
        },
    }
}

} // verus!
