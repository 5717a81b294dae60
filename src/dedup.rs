//! The deduplicator: which members of each digest group are deleted.
//!
//! Lengths are those of a path's text, counted in UTF-8 bytes. A member whose
//! path has no plain-text form is never deleted and never counts as shortest.
use vstd::prelude::*;
use vstd::utf8::encode_utf8;
use crate::scan::{DigestMap, GroupView, Listed, has_digest, record_file, scan_of, groups_wf};

verus! {

/// The length of a member's path text, in UTF-8 bytes.
pub open spec fn text_len(f: Option<String>) -> nat {
    match f {
        Some(t) => encode_utf8(t@).len(),
        None => 0,
    }
}

/// Member `i` has a plain-text path that is no longer than any other such path
/// of the group.
pub open spec fn is_shortest(fs: Seq<Option<String>>, i: int) -> bool {
    &&& 0 <= i < fs.len()
    &&& fs[i] is Some
    &&& forall|j: int| 0 <= j < fs.len() && fs[j] is Some ==> text_len(fs[i]) <= text_len(#[trigger] fs[j])
}

/// Member `i` is the first of the shortest members: the one that is kept.
pub open spec fn is_survivor(fs: Seq<Option<String>>, i: int) -> bool {
    &&& is_shortest(fs, i)
    &&& forall|j: int| 0 <= j < i ==> !#[trigger] is_shortest(fs, j)
}

/// Member `i` is deleted: its group has two or more members, it has a
/// plain-text path, and it is not the survivor.
pub open spec fn doomed(fs: Seq<Option<String>>, i: int) -> bool {
    &&& fs.len() >= 2
    &&& fs[i] is Some
    &&& !is_survivor(fs, i)
}

/// The length of a member's path text, where it has one.
fn path_len(f: &Option<String>) -> (r: Option<usize>)
    ensures
        r == (match *f {
            Some(t) => Some(encode_utf8(t@).len() as usize),
            None => None,
        }),
        r is Some ==> r->Some_0 == text_len(*f),
{
    match f {
        Some(t) => Some(t.as_str().as_bytes().len()),
        None => None,
    }
}

/// For each member of a group, in order, whether it is deleted.
///
/// The shortest length `L` is found first; then, in encounter order, a member
/// longer than `L` is deleted, and of those of length `L` all but the first.
pub fn doomed_members(fs: &Vec<Option<String>>) -> (r: Vec<bool>)
    ensures
        r@.len() == fs@.len(),
        forall|i: int| 0 <= i < fs@.len() ==> r@[i] == doomed(fs@, i),
{
    let n = fs.len();
    let mut r: Vec<bool> = Vec::new();
    if n < 2 {
        let mut i: usize = 0;
        while i < n
            invariant
                n == fs@.len(),
                n < 2,
                i <= n,
                r@.len() == i,
                forall|j: int| 0 <= j < i ==> r@[j] == doomed(fs@, j),
            decreases n - i,
        {
            r.push(false);
            i = i + 1;
        }
        return r;
    }
    // the shortest length
    let mut have = false;
    let mut l: usize = 0;
    let mut i: usize = 0;
    while i < n
        invariant
            n == fs@.len(),
            i <= n,
            have == exists|j: int| 0 <= j < i && (#[trigger] fs@[j]) is Some,
            have ==> exists|j: int| 0 <= j < i && (#[trigger] fs@[j]) is Some && text_len(fs@[j]) == l,
            forall|j: int| 0 <= j < i && (#[trigger] fs@[j]) is Some ==> l <= text_len(fs@[j]),
        decreases n - i,
    {
        match path_len(&fs[i]) {
            Some(k) => {
                if !have || k < l {
                    l = k;
                }
                have = true;
            },
            None => {},
        }
        i = i + 1;
    }
    assert(forall|j: int| 0 <= j < n ==> (is_shortest(fs@, j) <==> (fs@[j] is Some && text_len(fs@[j]) == l)));
    // keep the first of the shortest
    let mut kept = false;
    i = 0;
    while i < n
        invariant
            n == fs@.len(),
            n >= 2,
            i <= n,
            r@.len() == i,
            forall|j: int| 0 <= j < n ==> (is_shortest(fs@, j) <==> (fs@[j] is Some && text_len(fs@[j]) == l)),
            forall|j: int| 0 <= j < n && (#[trigger] fs@[j]) is Some ==> l <= text_len(fs@[j]),
            kept == exists|j: int| 0 <= j < i && #[trigger] is_shortest(fs@, j),
            forall|j: int| 0 <= j < i ==> r@[j] == doomed(fs@, j),
        decreases n - i,
    {
        let ghost was_kept = kept;
        let d = match path_len(&fs[i]) {
            Some(k) => {
                if k > l {
                    true
                } else if kept {
                    true
                } else {
                    kept = true;
                    false
                }
            },
            None => false,
        };
        proof {
            let ii = i as int;
            assert(is_shortest(fs@, ii) <==> (fs@[ii] is Some && text_len(fs@[ii]) == l));
            if was_kept {
                let j = choose|j: int| 0 <= j < ii && #[trigger] is_shortest(fs@, j);
                assert(!is_survivor(fs@, ii));
            } else {
                assert(forall|j: int| 0 <= j < ii ==> !#[trigger] is_shortest(fs@, j));
            }
            assert(d == doomed(fs@, ii));
            assert(kept == exists|j: int| 0 <= j < ii + 1 && #[trigger] is_shortest(fs@, j));
        }
        r.push(d);
        i = i + 1;
    }
    r
}

proof fn lemma_shortest_exists(fs: Seq<Option<String>>, i: int)
    requires
        0 <= i < fs.len(),
        fs[i] is Some,
    ensures
        exists|k: int| #[trigger] is_shortest(fs, k),
    decreases fs.len(),
{
    let last = fs.len() - 1;
    let head = fs.drop_last();
    if exists|j: int| 0 <= j < head.len() && (#[trigger] head[j]) is Some {
        let j = choose|j: int| 0 <= j < head.len() && (#[trigger] head[j]) is Some;
        lemma_shortest_exists(head, j);
        let k = choose|k: int| #[trigger] is_shortest(head, k);
        assert forall|m: int| 0 <= m < last implies #[trigger] fs[m] == head[m] by {}
        if fs[last] is Some && text_len(fs[last]) < text_len(head[k]) {
            assert forall|m: int| 0 <= m < fs.len() && (#[trigger] fs[m]) is Some implies text_len(fs[last]) <= text_len(fs[m]) by {
                if m < last {
                    assert(head[m] is Some);
                }
            }
            assert(is_shortest(fs, last));
        } else {
            assert forall|m: int| 0 <= m < fs.len() && (#[trigger] fs[m]) is Some implies text_len(fs[k]) <= text_len(fs[m]) by {
                if m < last {
                    assert(head[m] is Some);
                }
            }
            assert(is_shortest(fs, k));
        }
    } else {
        assert forall|m: int| 0 <= m < fs.len() && (#[trigger] fs[m]) is Some implies m == last by {
            if m < last {
                assert(head[m] == fs[m]);
            }
        }
        assert(is_shortest(fs, last));
    }
}

proof fn lemma_survivor_exists(fs: Seq<Option<String>>, i: int)
    requires
        is_shortest(fs, i),
    ensures
        exists|k: int| 0 <= k <= i && #[trigger] is_survivor(fs, k),
    decreases i,
{
    if exists|j: int| 0 <= j < i && #[trigger] is_shortest(fs, j) {
        let j = choose|j: int| 0 <= j < i && #[trigger] is_shortest(fs, j);
        lemma_survivor_exists(fs, j);
    } else {
        assert(is_survivor(fs, i));
    }
}

/// A group of two or more members with some plain-text path keeps exactly one
/// of its members that have one, and deletes every other of them; members
/// without a plain-text path are never deleted.
pub proof fn lemma_one_kept(fs: Seq<Option<String>>)
    requires
        fs.len() >= 2,
        exists|j: int| 0 <= j < fs.len() && (#[trigger] fs[j]) is Some,
    ensures
        exists|k: int|
            0 <= k < fs.len() && (#[trigger] fs[k]) is Some && !doomed(fs, k) && forall|i: int|
                0 <= i < fs.len() && i != k && (#[trigger] fs[i]) is Some ==> doomed(fs, i),
        forall|i: int| 0 <= i < fs.len() && (#[trigger] fs[i]) is None ==> !doomed(fs, i),
{
    let j = choose|j: int| 0 <= j < fs.len() && (#[trigger] fs[j]) is Some;
    lemma_shortest_exists(fs, j);
    let s = choose|s: int| #[trigger] is_shortest(fs, s);
    lemma_survivor_exists(fs, s);
    let k = choose|k: int| 0 <= k <= s && #[trigger] is_survivor(fs, k);
    assert forall|i: int| 0 <= i < fs.len() && i != k && (#[trigger] fs[i]) is Some implies doomed(fs, i) by {
        if is_survivor(fs, i) {
            if i < k {
                assert(!is_shortest(fs, i));
            } else {
                assert(!is_shortest(fs, k));
            }
        }
    }
    assert(fs[k] is Some && !doomed(fs, k));
}

/// Of two members that share the shortest length, the one met later is
/// deleted; the one met first is kept when no third member shares it.
pub proof fn lemma_tie_goes_to_first(fs: Seq<Option<String>>, i: int, j: int)
    requires
        0 <= i < j < fs.len(),
        is_shortest(fs, i),
        is_shortest(fs, j),
    ensures
        doomed(fs, j),
        (forall|k: int| 0 <= k < fs.len() && k != i && k != j ==> !#[trigger] is_shortest(fs, k))
            ==> !doomed(fs, i),
{
}

/// A member strictly shorter than every other plain-text member is kept, and
/// every other plain-text member is deleted, wherever it stands in the group.
pub proof fn lemma_unique_shortest_kept(fs: Seq<Option<String>>, i: int)
    requires
        0 <= i < fs.len(),
        fs[i] is Some,
        forall|j: int| 0 <= j < fs.len() && j != i && (#[trigger] fs[j]) is Some ==> text_len(fs[i]) < text_len(fs[j]),
    ensures
        !doomed(fs, i),
        forall|j: int| 0 <= j < fs.len() && j != i && (#[trigger] fs[j]) is Some ==> doomed(fs, j),
{
    assert(is_shortest(fs, i));
    assert forall|j: int| 0 <= j < i implies !#[trigger] is_shortest(fs, j) by {
        if fs[j] is Some {
            assert(text_len(fs[i]) < text_len(fs[j]));
        }
    }
    assert forall|j: int| 0 <= j < fs.len() && j != i && (#[trigger] fs[j]) is Some implies doomed(fs, j) by {
        assert(!is_shortest(fs, j));
    }
}

/// The paths of the deleted members among the first `n` of a group, in order.
pub open spec fn doomed_upto(fs: Seq<Option<String>>, n: int) -> Seq<String>
    decreases n,
{
    if n <= 0 {
        Seq::empty()
    } else if doomed(fs, n - 1) {
        doomed_upto(fs, n - 1).push(fs[n - 1]->Some_0)
    } else {
        doomed_upto(fs, n - 1)
    }
}

/// The paths that a group loses, in encounter order.
pub open spec fn doomed_paths(fs: Seq<Option<String>>) -> Seq<String> {
    doomed_upto(fs, fs.len() as int)
}

/// The paths that a whole digest map loses, group after group.
pub open spec fn plan_of(groups: Seq<GroupView>) -> Seq<String>
    decreases groups.len(),
{
    if groups.len() == 0 {
        Seq::empty()
    } else {
        plan_of(groups.drop_last()) + doomed_paths(groups.last().1)
    }
}

/// The paths to delete from one directory, group after group and in
/// encounter order within a group.
pub fn deletion_plan(map: &DigestMap) -> (r: Vec<String>)
    ensures
        r@ == plan_of(map@),
{
    let mut r: Vec<String> = Vec::new();
    let mut g: usize = 0;
    while g < map.len()
        invariant
            g <= map@.len(),
            r@ == plan_of(map@.subrange(0, g as int)),
        decreases map@.len() - g,
    {
        let fs = map.files(g);
        let marks = doomed_members(fs);
        let ghost base = r@;
        let mut i: usize = 0;
        while i < fs.len()
            invariant
                fs@ == map@[g as int].1,
                marks@.len() == fs@.len(),
                forall|j: int| 0 <= j < fs@.len() ==> marks@[j] == doomed(fs@, j),
                i <= fs@.len(),
                r@ == base + doomed_upto(fs@, i as int),
            decreases fs@.len() - i,
        {
            if marks[i] {
                match &fs[i] {
                    Some(t) => {
                        r.push(t.clone());
                    },
                    None => {},
                }
            }
            proof {
                if doomed(fs@, i as int) {
                    assert(base + doomed_upto(fs@, i + 1) =~= (base + doomed_upto(fs@, i as int)).push(
                        fs@[i as int]->Some_0,
                    ));
                }
            }
            i = i + 1;
        }
        assert(map@.subrange(0, g + 1).drop_last() =~= map@.subrange(0, g as int));
        g = g + 1;
    }
    assert(map@.subrange(0, map@.len() as int) =~= map@);
    r
}

/// The members among the first `n` of a group that stay, in encounter order.
pub open spec fn kept_upto(fs: Seq<Option<String>>, n: int) -> Seq<Option<String>>
    decreases n,
{
    if n <= 0 {
        Seq::empty()
    } else if doomed(fs, n - 1) {
        kept_upto(fs, n - 1)
    } else {
        kept_upto(fs, n - 1).push(fs[n - 1])
    }
}

/// The members of a group that stay after it is deduplicated.
pub open spec fn kept_members(fs: Seq<Option<String>>) -> Seq<Option<String>> {
    kept_upto(fs, fs.len() as int)
}

proof fn lemma_at_most_one_named_kept(fs: Seq<Option<String>>, n: int)
    requires
        0 <= n <= fs.len(),
    ensures
        kept_upto(fs, n).len() <= n,
        forall|a: int, b: int|
            0 <= a < b < kept_upto(fs, n).len() ==> !((#[trigger] kept_upto(fs, n)[a]) is Some
                && (#[trigger] kept_upto(fs, n)[b]) is Some),
        fs.len() >= 2 ==> forall|a: int|
            0 <= a < kept_upto(fs, n).len() && (#[trigger] kept_upto(fs, n)[a]) is Some ==> exists|k: int|
                0 <= k < n && #[trigger] is_survivor(fs, k),
    decreases n,
{
    if n > 0 {
        lemma_at_most_one_named_kept(fs, n - 1);
        let prev = kept_upto(fs, n - 1);
        let cur = kept_upto(fs, n);
        if !doomed(fs, n - 1) {
            assert(cur == prev.push(fs[n - 1]));
            assert forall|a: int| 0 <= a < prev.len() implies #[trigger] cur[a] == prev[a] by {}
            if fs.len() >= 2 && fs[n - 1] is Some {
                assert(is_survivor(fs, n - 1));
                assert forall|a: int| 0 <= a < prev.len() implies !(#[trigger] prev[a] is Some) by {
                    if prev[a] is Some {
                        let k = choose|k: int| 0 <= k < n - 1 && #[trigger] is_survivor(fs, k);
                        assert(!is_shortest(fs, k));
                    }
                }
            }
            assert forall|a: int|
                0 <= a < cur.len() && (#[trigger] cur[a]) is Some && fs.len() >= 2 implies exists|k: int|
                0 <= k < n && #[trigger] is_survivor(fs, k) by {
                if a == prev.len() {
                    assert(is_survivor(fs, n - 1));
                } else {
                    assert(prev[a] is Some);
                }
            }
        }
    }
}

/// A second run over the members that a group kept deletes none of them.
pub proof fn lemma_second_pass_keeps_all(fs: Seq<Option<String>>)
    ensures
        forall|i: int| 0 <= i < kept_members(fs).len() ==> !#[trigger] doomed(kept_members(fs), i),
{
    lemma_at_most_one_named_kept(fs, fs.len() as int);
    let ks = kept_members(fs);
    assert forall|i: int| 0 <= i < ks.len() implies !#[trigger] doomed(ks, i) by {
        if ks[i] is Some {
            assert forall|j: int| 0 <= j < ks.len() && (#[trigger] ks[j]) is Some implies j == i by {
                if j < i {
                    assert(!(ks[j] is Some && ks[i] is Some));
                } else if i < j {
                    assert(!(ks[i] is Some && ks[j] is Some));
                }
            }
            assert(is_shortest(ks, i));
            assert forall|j: int| 0 <= j < i implies !#[trigger] is_shortest(ks, j) by {
                if ks[j] is Some {
                    assert(!(ks[j] is Some && ks[i] is Some));
                }
            }
            assert(is_survivor(ks, i));
        }
    }
}

proof fn lemma_nothing_doomed(fs: Seq<Option<String>>, n: int)
    requires
        forall|i: int| 0 <= i < fs.len() ==> !#[trigger] doomed(fs, i),
        n <= fs.len(),
    ensures
        doomed_upto(fs, n) == Seq::<String>::empty(),
    decreases n,
{
    if n > 0 {
        lemma_nothing_doomed(fs, n - 1);
    }
}

/// No two files of a listing share a digest.
pub open spec fn digests_distinct(listing: Seq<Listed>) -> bool {
    forall|i: int, j: int|
        0 <= i < listing.len() && 0 <= j < listing.len() && i != j && listing[i] is File
            && listing[j] is File ==> (#[trigger] listing[i])->digest@ != (#[trigger] listing[j])->digest@
}

proof fn lemma_distinct_groups_single(listing: Seq<Listed>)
    requires
        digests_distinct(listing),
    ensures
        forall|g: int| 0 <= g < scan_of(listing).len() ==> (#[trigger] scan_of(listing)[g]).1.len() == 1,
        forall|g: int| 0 <= g < scan_of(listing).len() ==> exists|i: int|
            0 <= i < listing.len() && (#[trigger] listing[i]) is File && listing[i]->digest@
                == (#[trigger] scan_of(listing)[g]).0,
    decreases listing.len(),
{
    if listing.len() > 0 {
        let head = listing.drop_last();
        assert forall|i: int, j: int|
            0 <= i < head.len() && 0 <= j < head.len() && i != j && head[i] is File
                && head[j] is File implies (#[trigger] head[i])->digest@ != (#[trigger] head[j])->digest@ by {
            assert(head[i] == listing[i] && head[j] == listing[j]);
        }
        lemma_distinct_groups_single(head);
        let prev = scan_of(head);
        let last = listing.len() - 1;
        assert forall|i: int| 0 <= i < head.len() implies #[trigger] head[i] == listing[i] by {}
        match listing.last() {
            Listed::Directory => {},
            Listed::File { path, digest } => {
                assert(!has_digest(prev, digest@)) by {
                    if has_digest(prev, digest@) {
                        let g = choose|g: int| 0 <= g < prev.len() && #[trigger] prev[g].0 == digest@;
                        let i = choose|i: int|
                            0 <= i < head.len() && (#[trigger] head[i]) is File && head[i]->digest@ == prev[g].0;
                        assert(listing[i]->digest@ != listing[last]->digest@);
                    }
                }
                let cur = scan_of(listing);
                assert(cur == prev.push((digest@, seq![path])));
                assert forall|g: int| 0 <= g < cur.len() implies exists|i: int|
                    0 <= i < listing.len() && (#[trigger] listing[i]) is File && listing[i]->digest@
                        == (#[trigger] cur[g]).0 by {
                    if g < prev.len() {
                        let i = choose|i: int|
                            0 <= i < head.len() && (#[trigger] head[i]) is File && head[i]->digest@ == prev[g].0;
                        assert(listing[i] == head[i]);
                    } else {
                        assert(listing[last] is File);
                    }
                }
            },
        }
    }
}

proof fn lemma_singletons_plan_nothing(groups: Seq<GroupView>)
    requires
        forall|g: int| 0 <= g < groups.len() ==> (#[trigger] groups[g]).1.len() == 1,
    ensures
        plan_of(groups) == Seq::<String>::empty(),
    decreases groups.len(),
{
    if groups.len() > 0 {
        let head = groups.drop_last();
        assert forall|g: int| 0 <= g < head.len() implies (#[trigger] head[g]).1.len() == 1 by {
            assert(head[g] == groups[g]);
        }
        lemma_singletons_plan_nothing(head);
        let fs = groups.last().1;
        assert(groups[groups.len() - 1].1.len() == 1);
        lemma_nothing_doomed(fs, fs.len() as int);
        assert(plan_of(groups) =~= Seq::<String>::empty());
    }
}

/// A directory whose files all have distinct digests loses no file.
pub proof fn lemma_distinct_digests_delete_nothing(listing: Seq<Listed>)
    requires
        digests_distinct(listing),
    ensures
        plan_of(scan_of(listing)) == Seq::<String>::empty(),
{
    lemma_distinct_groups_single(listing);
    lemma_singletons_plan_nothing(scan_of(listing));
}

/// The paths of the files of a listing whose digest is `d`, in listing order.
pub open spec fn members_of(listing: Seq<Listed>, d: Seq<char>) -> Seq<Option<String>>
    decreases listing.len(),
{
    if listing.len() == 0 {
        Seq::empty()
    } else {
        let m = members_of(listing.drop_last(), d);
        match listing.last() {
            Listed::File { path, digest } => if digest@ == d {
                m.push(path)
            } else {
                m
            },
            Listed::Directory => m,
        }
    }
}

/// Entry `i` of a listing is a file that a run deletes: it is doomed at its
/// position within the files of its digest.
pub open spec fn entry_doomed(listing: Seq<Listed>, i: int) -> bool {
    &&& listing[i] is File
    &&& doomed(
        members_of(listing, listing[i]->digest@),
        members_of(listing.take(i), listing[i]->digest@).len() as int,
    )
}

/// The entries among the first `n` of a listing that a run leaves in place.
pub open spec fn surviving_upto(listing: Seq<Listed>, n: int) -> Seq<Listed>
    decreases n,
{
    if n <= 0 {
        Seq::empty()
    } else if entry_doomed(listing, n - 1) {
        surviving_upto(listing, n - 1)
    } else {
        surviving_upto(listing, n - 1).push(listing[n - 1])
    }
}

/// The listing of a directory after a run: every entry but the deleted files,
/// in the same order.
pub open spec fn surviving(listing: Seq<Listed>) -> Seq<Listed> {
    surviving_upto(listing, listing.len() as int)
}

proof fn lemma_scan_groups_members(listing: Seq<Listed>)
    ensures
        groups_wf(scan_of(listing)),
        forall|g: int| 0 <= g < scan_of(listing).len() ==> (#[trigger] scan_of(listing)[g]).1
            == members_of(listing, scan_of(listing)[g].0),
        forall|d: Seq<char>| !has_digest(scan_of(listing), d) ==> #[trigger] members_of(listing, d)
            == Seq::<Option<String>>::empty(),
    decreases listing.len(),
{
    if listing.len() > 0 {
        let head = listing.drop_last();
        lemma_scan_groups_members(head);
        let prev = scan_of(head);
        let cur = scan_of(listing);
        match listing.last() {
            Listed::Directory => {
                assert(cur == prev);
                assert forall|d: Seq<char>| true implies #[trigger] members_of(listing, d) == members_of(head, d) by {}
            },
            Listed::File { path, digest } => {
                let d0 = digest@;
                assert(cur == record_file(prev, d0, path));
                assert forall|d: Seq<char>| d != d0 implies #[trigger] members_of(listing, d) == members_of(head, d) by {}
                assert(members_of(listing, d0) == members_of(head, d0).push(path));
                if has_digest(prev, d0) {
                    let i = choose|i: int| 0 <= i < prev.len() && #[trigger] prev[i].0 == d0;
                    assert(cur == prev.update(i, (d0, prev[i].1.push(path))));
                    assert forall|d: Seq<char>| !has_digest(cur, d) implies !has_digest(prev, d) by {
                        if has_digest(prev, d) {
                            let j = choose|j: int| 0 <= j < prev.len() && #[trigger] prev[j].0 == d;
                            assert(cur[j].0 == d);
                        }
                    }
                } else {
                    assert(cur == prev.push((d0, seq![path])));
                    assert(seq![path] =~= Seq::<Option<String>>::empty().push(path));
                    assert forall|d: Seq<char>| !has_digest(cur, d) implies !has_digest(prev, d) by {
                        if has_digest(prev, d) {
                            let j = choose|j: int| 0 <= j < prev.len() && #[trigger] prev[j].0 == d;
                            assert(cur[j].0 == d);
                        }
                    }
                    assert forall|d: Seq<char>| !has_digest(cur, d) implies d != d0 by {
                        assert(cur[prev.len() as int].0 == d0);
                    }
                }
            },
        }
    }
}

proof fn lemma_members_prefix(listing: Seq<Listed>, n: int, d: Seq<char>)
    requires
        0 <= n <= listing.len(),
    ensures
        members_of(listing.take(n), d).len() <= members_of(listing, d).len(),
        forall|k: int| 0 <= k < members_of(listing.take(n), d).len() ==> #[trigger] members_of(listing.take(n), d)[k]
            == members_of(listing, d)[k],
    decreases listing.len(),
{
    if n == listing.len() {
        assert(listing.take(n) =~= listing);
    } else {
        let head = listing.drop_last();
        assert(listing.take(n) =~= head.take(n));
        lemma_members_prefix(head, n, d);
    }
}

proof fn lemma_surviving_members(listing: Seq<Listed>, n: int, d: Seq<char>)
    requires
        0 <= n <= listing.len(),
    ensures
        members_of(surviving_upto(listing, n), d) == kept_upto(
            members_of(listing, d),
            members_of(listing.take(n), d).len() as int,
        ),
    decreases n,
{
    if n > 0 {
        lemma_surviving_members(listing, n - 1, d);
        let e = listing[n - 1];
        let pre = listing.take(n - 1);
        assert(listing.take(n).drop_last() =~= pre);
        assert(listing.take(n).last() == e);
        let prev = surviving_upto(listing, n - 1);
        let fs = members_of(listing, d);
        let pos = members_of(pre, d).len() as int;
        match e {
            Listed::File { path, digest } => {
                if digest@ == d {
                    lemma_members_prefix(listing, n, d);
                    assert(members_of(listing.take(n), d) == members_of(pre, d).push(path));
                    assert(members_of(listing.take(n), d)[pos] == path);
                    assert(fs[pos] == path);
                    if entry_doomed(listing, n - 1) {
                        assert(doomed(fs, pos));
                    } else {
                        assert(!doomed(fs, pos));
                        assert(prev.push(e).drop_last() =~= prev);
                    }
                } else {
                    if !entry_doomed(listing, n - 1) {
                        assert(prev.push(e).drop_last() =~= prev);
                    }
                }
            },
            Listed::Directory => {
                assert(prev.push(e).drop_last() =~= prev);
            },
        }
    }
}

/// Running again over the files that a run left in a directory deletes
/// nothing.
pub proof fn lemma_rescan_deletes_nothing(listing: Seq<Listed>)
    ensures
        plan_of(scan_of(surviving(listing))) == Seq::<String>::empty(),
{
    let rest = surviving(listing);
    let groups = scan_of(rest);
    lemma_scan_groups_members(rest);
    assert forall|g: int| 0 <= g < groups.len() implies doomed_paths(#[trigger] groups[g].1)
        == Seq::<String>::empty() by {
        let d = groups[g].0;
        assert(listing.take(listing.len() as int) =~= listing);
        lemma_surviving_members(listing, listing.len() as int, d);
        lemma_scan_groups_members(rest);
        assert(groups[g].1 == members_of(rest, d));
        assert(groups[g].1 == kept_members(members_of(listing, d)));
        lemma_second_pass_keeps_all(members_of(listing, d));
        lemma_nothing_doomed(groups[g].1, groups[g].1.len() as int);
    }
    lemma_no_doomed_plan(groups);
}

proof fn lemma_no_doomed_plan(groups: Seq<GroupView>)
    requires
        forall|g: int| 0 <= g < groups.len() ==> doomed_paths(#[trigger] groups[g].1) == Seq::<String>::empty(),
    ensures
        plan_of(groups) == Seq::<String>::empty(),
    decreases groups.len(),
{
    if groups.len() > 0 {
        let head = groups.drop_last();
        assert forall|g: int| 0 <= g < head.len() implies doomed_paths(#[trigger] head[g].1)
            == Seq::<String>::empty() by {
            assert(head[g] == groups[g]);
        }
        lemma_no_doomed_plan(head);
        assert(doomed_paths(groups[groups.len() - 1].1) == Seq::<String>::empty());
        assert(plan_of(groups) =~= Seq::<String>::empty());
    }
}

/// How a run treats the files it finds.
#[derive(PartialEq, Eq, Structural, Clone, Copy, Debug)]
pub struct Config {
    /// Report each step in detail.
    pub verbose: bool,
    /// Decide and report deletions, but touch no file.
    pub dry_run: bool,
}

/// The paths to remove from the filesystem: the deletion plan, or nothing in a
/// dry run.
pub fn removals(map: &DigestMap, config: Config) -> (r: Vec<String>)
    ensures
        r@ == (if config.dry_run {
            Seq::<String>::empty()
        } else {
            plan_of(map@)
        }),
{
    if config.dry_run {
        Vec::new()
    } else {
        deletion_plan(map)
    }
}

} // verus!
