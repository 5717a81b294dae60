//! The scanner's bookkeeping: files grouped by digest, in the order in which
//! the directory listing yields them.
use vstd::prelude::*;

verus! {

/// One entry of a directory listing, as the scanner sees it.
pub enum Listed {
    /// A subdirectory: never entered and never hashed.
    Directory,
    /// A regular file, with its path as text (`None` where the path has no
    /// plain-text form) and the digest of its contents.
    File { path: Option<String>, digest: String },
}

/// What the scanner did with one listing entry.
#[derive(PartialEq, Eq, Structural, Clone, Copy, Debug)]
pub enum Observation {
    /// A subdirectory, skipped.
    Skipped,
    /// A file whose digest had not been seen before.
    First,
    /// A file whose digest had already been seen.
    Duplicate,
}

/// A digest and the files that produced it, in encounter order.
pub struct DigestGroup {
    digest: String,
    files: Vec<Option<String>>,
}

/// The mathematical form of a group: its digest and its files.
pub type GroupView = (Seq<char>, Seq<Option<String>>);

/// All files of one directory, grouped by digest; groups stand in the order in
/// which their digests were first seen.
pub struct DigestMap {
    groups: Vec<DigestGroup>,
}

/// Whether some group has the digest `d`.
pub open spec fn has_digest(groups: Seq<GroupView>, d: Seq<char>) -> bool {
    exists|i: int| 0 <= i < groups.len() && #[trigger] groups[i].0 == d
}

/// The groups after one more file with digest `d` has been recorded.
pub open spec fn record_file(groups: Seq<GroupView>, d: Seq<char>, f: Option<String>) -> Seq<GroupView> {
    if has_digest(groups, d) {
        let i = choose|i: int| 0 <= i < groups.len() && #[trigger] groups[i].0 == d;
        groups.update(i, (d, groups[i].1.push(f)))
    } else {
        groups.push((d, seq![f]))
    }
}

/// The groups after one more listing entry.
pub open spec fn observe_entry(groups: Seq<GroupView>, e: Listed) -> Seq<GroupView> {
    match e {
        Listed::Directory => groups,
        Listed::File { path, digest } => record_file(groups, digest@, path),
    }
}

/// The groups that a whole listing produces, entry by entry from the first.
pub open spec fn scan_of(listing: Seq<Listed>) -> Seq<GroupView>
    decreases listing.len(),
{
    if listing.len() == 0 {
        Seq::empty()
    } else {
        observe_entry(scan_of(listing.drop_last()), listing.last())
    }
}

/// Digests are pairwise distinct and no group is empty.
pub open spec fn groups_wf(groups: Seq<GroupView>) -> bool {
    &&& forall|i: int, j: int|
        0 <= i < groups.len() && 0 <= j < groups.len() && i != j ==> #[trigger] groups[i].0
            != #[trigger] groups[j].0
    &&& forall|i: int| 0 <= i < groups.len() ==> #[trigger] groups[i].1.len() >= 1
}

impl DigestGroup {
    pub closed spec fn view(&self) -> GroupView {
        (self.digest@, self.files@)
    }
}

impl DigestMap {
    pub closed spec fn view(&self) -> Seq<GroupView> {
        self.groups@.map_values(|g: DigestGroup| g.view())
    }

    pub open spec fn wf(&self) -> bool {
        groups_wf(self@)
    }

    /// A map with no group.
    pub fn new() -> (r: DigestMap)
        ensures
            r.wf(),
            r@ == Seq::<GroupView>::empty(),
    {
        let r = DigestMap { groups: Vec::new() };
        assert(r@ =~= Seq::<GroupView>::empty());
        r
    }

    /// The number of groups.
    pub fn len(&self) -> (r: usize)
        ensures
            r == self@.len(),
    {
        self.groups.len()
    }

    /// The digest of group `i`.
    pub fn digest(&self, i: usize) -> (r: &String)
        requires
            i < self@.len(),
        ensures
            r@ == self@[i as int].0,
    {
        &self.groups[i].digest
    }

    /// The files of group `i`, in encounter order.
    pub fn files(&self, i: usize) -> (r: &Vec<Option<String>>)
        requires
            i < self@.len(),
        ensures
            r@ == self@[i as int].1,
    {
        &self.groups[i].files
    }

    /// Records a file under its digest; returns whether the digest had been
    /// seen before.
    pub fn record(&mut self, path: Option<String>, digest: String) -> (dup: bool)
        requires
            old(self).wf(),
        ensures
            final(self).wf(),
            final(self)@ == record_file(old(self)@, digest@, path),
            dup == has_digest(old(self)@, digest@),
    {
        let ghost d = digest@;
        let n = self.groups.len();
        let mut k: usize = 0;
        while k < n
            invariant
                n == self.groups@.len(),
                d == digest@,
                k <= n,
                forall|j: int| 0 <= j < k ==> (#[trigger] self.groups@[j]).digest@ != d,
            ensures
                k < n ==> self.groups@[k as int].digest@ == d,
                forall|j: int| 0 <= j < k ==> (#[trigger] self.groups@[j]).digest@ != d,
            decreases n - k,
        {
            if self.groups[k].digest.eq(&digest) {
                break;
            }
            k = k + 1;
        }
        assert(forall|j: int| 0 <= j < n ==> #[trigger] self@[j] == self.groups@[j].view());
        if k < n {
            assert(self@[k as int].0 == d);
            assert(has_digest(self@, d));
            let ghost i = choose|i: int| 0 <= i < self@.len() && #[trigger] self@[i].0 == d;
            assert(i == k);
            let mut g = self.groups.remove(k);
            g.files.push(path);
            self.groups.insert(k, g);
            assert(self@ =~= record_file(old(self)@, d, path));
            true
        } else {
            assert(!has_digest(self@, d));
            let g = DigestGroup { digest, files: vec![path] };
            assert(g.view() == (d, seq![path]));
            self.groups.push(g);
            assert(self@ =~= record_file(old(self)@, d, path));
            false
        }
    }
}

impl DigestMap {
    /// Takes one listing entry: a subdirectory leaves the map as it is, a file
    /// is recorded under its digest.
    pub fn observe(&mut self, entry: &Listed) -> (r: Observation)
        requires
            old(self).wf(),
        ensures
            final(self).wf(),
            final(self)@ == observe_entry(old(self)@, *entry),
            r == (match *entry {
                Listed::Directory => Observation::Skipped,
                Listed::File { digest, .. } => if has_digest(old(self)@, digest@) {
                    Observation::Duplicate
                } else {
                    Observation::First
                },
            }),
    {
        match entry {
            Listed::Directory => Observation::Skipped,
            Listed::File { path, digest } => {
                let p = match path {
                    Some(t) => Some(t.clone()),
                    None => None,
                };
                if self.record(p, digest.clone()) {
                    Observation::Duplicate
                } else {
                    Observation::First
                }
            },
        }
    }
}

/// Groups the files of a whole directory listing by digest.
pub fn scan_listing(listing: &Vec<Listed>) -> (r: DigestMap)
    ensures
        r.wf(),
        r@ == scan_of(listing@),
{
    let mut r = DigestMap::new();
    let mut i: usize = 0;
    while i < listing.len()
        invariant
            i <= listing@.len(),
            r.wf(),
            r@ == scan_of(listing@.subrange(0, i as int)),
        decreases listing@.len() - i,
    {
        r.observe(&listing[i]);
        assert(listing@.subrange(0, i + 1).drop_last() =~= listing@.subrange(0, i as int));
        i = i + 1;
    }
    assert(listing@.subrange(0, listing@.len() as int) =~= listing@);
    r
}

/// Whether a listing entry is a file.
pub open spec fn is_file(e: Listed) -> bool {
    e is File
}

/// Subdirectories contribute nothing: a listing groups exactly as the same
/// listing with its subdirectories taken out.
pub proof fn lemma_directories_ignored(listing: Seq<Listed>)
    ensures
        scan_of(listing) == scan_of(listing.filter(|e: Listed| is_file(e))),
    decreases listing.len(),
{
    reveal(Seq::filter);
    if listing.len() > 0 {
        let pred = |e: Listed| is_file(e);
        let rest = listing.drop_last().filter(pred);
        lemma_directories_ignored(listing.drop_last());
        if is_file(listing.last()) {
            assert(listing.filter(pred) == rest.push(listing.last()));
            assert(rest.push(listing.last()).drop_last() =~= rest);
        } else {
            assert(listing.filter(pred) == rest);
        }
    }
}

} // verus!
