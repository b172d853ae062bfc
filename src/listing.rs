//! What a built index holds, stated over the listing it was built from, and
//! the laws that follow: the order in which directories are read does not
//! matter, stray files are ignored, and a bad bucket name fails the build.

use vstd::prelude::*;
use crate::resolution::{Resolution, ParseError, parse_spec};
use crate::library::{
    LibraryModel, RootEntry, FsEntry, EntryKind, has_key, add_image_spec, add_resolution_spec, load_spec,
    build_spec, BuildError, lemma_build_failure_final,
};

verus! {

/// Whether `p` is filed in some bucket of `m` keyed `r`.
pub open spec fn in_bucket(m: LibraryModel, r: Resolution, p: Seq<char>) -> bool {
    exists|i: int| 0 <= i < m.len() && (#[trigger] m[i]).0 == r && m[i].1.contains(p)
}

/// Whether `e` is a directory whose path gives the resolution `r`.
pub open spec fn bucket_dir(e: Result<RootEntry, String>, r: Resolution) -> bool {
    e is Ok && e->Ok_0.kind == EntryKind::Directory && parse_spec(e->Ok_0.path@) == Ok::<Resolution, ParseError>(r)
}

/// Whether `e` is a regular file with path `p`.
pub open spec fn file_entry(e: Result<FsEntry, String>, p: Seq<char>) -> bool {
    e is Ok && e->Ok_0.kind == EntryKind::File && e->Ok_0.path@ == p
}

/// Whether the directory contents `c` list a regular file with path `p`.
pub open spec fn has_file(c: Seq<Result<FsEntry, String>>, p: Seq<char>) -> bool {
    exists|j: int| 0 <= j < c.len() && file_entry(#[trigger] c[j], p)
}

/// Whether some directory of the listing gives the resolution `r`.
pub open spec fn listed_key(l: Seq<Result<RootEntry, String>>, r: Resolution) -> bool {
    exists|i: int| 0 <= i < l.len() && bucket_dir(#[trigger] l[i], r)
}

/// Whether some directory of the listing that gives `r` holds the file `p`.
pub open spec fn listed_file(l: Seq<Result<RootEntry, String>>, r: Resolution, p: Seq<char>) -> bool {
    exists|i: int| 0 <= i < l.len() && bucket_dir(#[trigger] l[i], r) && has_file(l[i]->Ok_0.contents@, p)
}

pub open spec fn contents_clean(c: Seq<Result<FsEntry, String>>) -> bool {
    forall|j: int| 0 <= j < c.len() ==> (#[trigger] c[j]) is Ok
}

/// A root entry that a build gets past: it was read, and if it is a
/// directory, its path holds a resolution and its contents were read.
pub open spec fn entry_clean(e: Result<RootEntry, String>) -> bool {
    e is Ok && (e->Ok_0.kind == EntryKind::Directory ==> parse_spec(e->Ok_0.path@) is Ok
        && contents_clean(e->Ok_0.contents@))
}

pub open spec fn listing_clean(l: Seq<Result<RootEntry, String>>) -> bool {
    forall|i: int| 0 <= i < l.len() ==> entry_clean(#[trigger] l[i])
}

proof fn lemma_add_image_content(m: LibraryModel, r0: Resolution, q: Seq<char>)
    requires
        has_key(m, r0),
    ensures
        forall|r: Resolution, p: Seq<char>| #[trigger] in_bucket(add_image_spec(m, r0, q), r, p)
            <==> (in_bucket(m, r, p) || (r == r0 && p == q)),
        forall|r: Resolution| #[trigger] has_key(add_image_spec(m, r0, q), r) <==> has_key(m, r),
{
    let m2 = add_image_spec(m, r0, q);
    assert forall|r: Resolution, p: Seq<char>| #[trigger] in_bucket(m2, r, p)
        <==> (in_bucket(m, r, p) || (r == r0 && p == q)) by {
        if in_bucket(m2, r, p) {
            let i = choose|i: int| 0 <= i < m2.len() && (#[trigger] m2[i]).0 == r && m2[i].1.contains(p);
            let k = choose|k: int| 0 <= k < m2[i].1.len() && m2[i].1[k] == p;
            if m[i].0 == r0 && k == m[i].1.len() {
                assert(p == q);
            } else {
                assert(m[i].1[k] == p);
                assert(m[i].1.contains(p));
            }
        }
        if in_bucket(m, r, p) {
            let i = choose|i: int| 0 <= i < m.len() && (#[trigger] m[i]).0 == r && m[i].1.contains(p);
            let k = choose|k: int| 0 <= k < m[i].1.len() && m[i].1[k] == p;
            assert(m2[i].1[k] == p);
            assert(m2[i].1.contains(p));
        }
        if r == r0 && p == q {
            let i = choose|i: int| 0 <= i < m.len() && (#[trigger] m[i]).0 == r0;
            assert(m2[i].1[m[i].1.len() as int] == q);
            assert(m2[i].1.contains(q));
        }
    }
    assert forall|r: Resolution| #[trigger] has_key(m2, r) <==> has_key(m, r) by {
        if has_key(m, r) {
            let i = choose|i: int| 0 <= i < m.len() && (#[trigger] m[i]).0 == r;
            assert(m2[i].0 == r);
        }
        if has_key(m2, r) {
            let i = choose|i: int| 0 <= i < m2.len() && (#[trigger] m2[i]).0 == r;
            assert(m[i].0 == r);
        }
    }
}

proof fn lemma_add_resolution_content(m: LibraryModel, r0: Resolution)
    ensures
        forall|r: Resolution, p: Seq<char>| #[trigger] in_bucket(add_resolution_spec(m, r0), r, p)
            <==> in_bucket(m, r, p),
        forall|r: Resolution| #[trigger] has_key(add_resolution_spec(m, r0), r) <==> (has_key(m, r) || r == r0),
{
    let m2 = add_resolution_spec(m, r0);
    if !has_key(m, r0) {
        assert forall|r: Resolution, p: Seq<char>| #[trigger] in_bucket(m2, r, p) <==> in_bucket(m, r, p) by {
            if in_bucket(m, r, p) {
                let i = choose|i: int| 0 <= i < m.len() && (#[trigger] m[i]).0 == r && m[i].1.contains(p);
                assert(m2[i] == m[i]);
            }
            if in_bucket(m2, r, p) {
                let i = choose|i: int| 0 <= i < m2.len() && (#[trigger] m2[i]).0 == r && m2[i].1.contains(p);
                assert(i < m.len());
                assert(m2[i] == m[i]);
            }
        }
        assert forall|r: Resolution| #[trigger] has_key(m2, r) <==> (has_key(m, r) || r == r0) by {
            if has_key(m, r) {
                let i = choose|i: int| 0 <= i < m.len() && (#[trigger] m[i]).0 == r;
                assert(m2[i] == m[i]);
            }
            if r == r0 {
                assert(m2[m.len() as int].0 == r0);
            }
            if has_key(m2, r) {
                let i = choose|i: int| 0 <= i < m2.len() && (#[trigger] m2[i]).0 == r;
                if i < m.len() {
                    assert(m2[i] == m[i]);
                }
            }
        }
    }
}

/// Loading a directory's contents succeeds exactly when every read in them
/// succeeded, adds no key, and files under `r0` the regular files listed.
proof fn lemma_load_content(m: LibraryModel, r0: Resolution, c: Seq<Result<FsEntry, String>>)
    requires
        has_key(m, r0),
    ensures
        load_spec(m, r0, c) is Ok <==> contents_clean(c),
        load_spec(m, r0, c) matches Ok(m2) ==> (forall|r: Resolution| #[trigger] has_key(m2, r) <==> has_key(m, r)),
        load_spec(m, r0, c) matches Ok(m2) ==> (forall|r: Resolution, p: Seq<char>| #[trigger] in_bucket(m2, r, p)
            <==> (in_bucket(m, r, p) || (r == r0 && has_file(c, p)))),
    decreases c.len(),
{
    if c.len() > 0 {
        let c1 = c.drop_last();
        lemma_load_content(m, r0, c1);
        assert(contents_clean(c) <==> contents_clean(c1) && c.last() is Ok) by {
            if contents_clean(c1) && c.last() is Ok {
                assert forall|j: int| 0 <= j < c.len() implies (#[trigger] c[j]) is Ok by {
                    if j < c1.len() {
                        assert(c[j] == c1[j]);
                    }
                }
            }
            if contents_clean(c) {
                assert forall|j: int| 0 <= j < c1.len() implies (#[trigger] c1[j]) is Ok by {
                    assert(c[j] == c1[j]);
                }
            }
        }
        if let Ok(m1) = load_spec(m, r0, c1) {
            assert forall|p: Seq<char>| #[trigger] has_file(c, p) <==> (has_file(c1, p) || file_entry(c.last(), p)) by {
                if has_file(c1, p) {
                    let j = choose|j: int| 0 <= j < c1.len() && file_entry(#[trigger] c1[j], p);
                    assert(c[j] == c1[j]);
                }
                if has_file(c, p) {
                    let j = choose|j: int| 0 <= j < c.len() && file_entry(#[trigger] c[j], p);
                    if j < c1.len() {
                        assert(c[j] == c1[j]);
                    }
                }
            }
            if let Ok(f) = c.last() {
                if f.kind == EntryKind::File {
                    lemma_add_image_content(m1, r0, f.path@);
                }
            }
        }
    } else {
        assert forall|p: Seq<char>| !#[trigger] has_file(c, p) by {}
    }
}

/// A build succeeds exactly on a clean listing, and then its keys are the
/// resolutions of the listed directories and each bucket holds the regular
/// files of the directories of its resolution.
pub proof fn lemma_build_content(l: Seq<Result<RootEntry, String>>)
    ensures
        build_spec(l) is Ok <==> listing_clean(l),
        build_spec(l) matches Ok(m) ==> (forall|r: Resolution| #[trigger] has_key(m, r) <==> listed_key(l, r)),
        build_spec(l) matches Ok(m) ==> (forall|r: Resolution, p: Seq<char>| #[trigger] in_bucket(m, r, p)
            <==> listed_file(l, r, p)),
    decreases l.len(),
{
    if l.len() == 0 {
        assert forall|r: Resolution| !#[trigger] has_key(Seq::<(Resolution, Seq<Seq<char>>)>::empty(), r) by {}
    } else {
        let l1 = l.drop_last();
        let e = l.last();
        lemma_build_content(l1);
        assert(listing_clean(l) <==> listing_clean(l1) && entry_clean(e)) by {
            if listing_clean(l1) && entry_clean(e) {
                assert forall|i: int| 0 <= i < l.len() implies entry_clean(#[trigger] l[i]) by {
                    if i < l1.len() {
                        assert(l[i] == l1[i]);
                    }
                }
            }
            if listing_clean(l) {
                assert forall|i: int| 0 <= i < l1.len() implies entry_clean(#[trigger] l1[i]) by {
                    assert(l[i] == l1[i]);
                }
                assert(entry_clean(l[l.len() - 1]));
            }
        }
        assert forall|r: Resolution| #[trigger] listed_key(l, r) <==> (listed_key(l1, r) || bucket_dir(e, r)) by {
            if listed_key(l1, r) {
                let i = choose|i: int| 0 <= i < l1.len() && bucket_dir(#[trigger] l1[i], r);
                assert(l[i] == l1[i]);
            }
            if listed_key(l, r) {
                let i = choose|i: int| 0 <= i < l.len() && bucket_dir(#[trigger] l[i], r);
                if i < l1.len() {
                    assert(l[i] == l1[i]);
                }
            }
        }
        assert forall|r: Resolution, p: Seq<char>| #[trigger] listed_file(l, r, p)
            <==> (listed_file(l1, r, p) || (bucket_dir(e, r) && has_file(e->Ok_0.contents@, p))) by {
            if listed_file(l1, r, p) {
                let i = choose|i: int| 0 <= i < l1.len() && bucket_dir(#[trigger] l1[i], r)
                    && has_file(l1[i]->Ok_0.contents@, p);
                assert(l[i] == l1[i]);
            }
            if listed_file(l, r, p) {
                let i = choose|i: int| 0 <= i < l.len() && bucket_dir(#[trigger] l[i], r)
                    && has_file(l[i]->Ok_0.contents@, p);
                if i < l1.len() {
                    assert(l[i] == l1[i]);
                }
            }
        }
        if let Ok(m1) = build_spec(l1) {
            if let Ok(d) = e {
                if d.kind == EntryKind::Directory {
                    if let Ok(r0) = parse_spec(d.path@) {
                        lemma_add_resolution_content(m1, r0);
                        assert(has_key(add_resolution_spec(m1, r0), r0));
                        lemma_load_content(add_resolution_spec(m1, r0), r0, d.contents@);
                    }
                } else {
                    assert forall|r: Resolution| !bucket_dir(e, r) by {}
                }
            }
        }
    }
}

/// Whether two directory contents list the same entries, in any order.
pub open spec fn same_contents(a: Seq<Result<FsEntry, String>>, b: Seq<Result<FsEntry, String>>) -> bool {
    forall|x: Result<FsEntry, String>| a.contains(x) <==> b.contains(x)
}

/// Whether two root entries describe the same thing: both failed reads, or
/// the same path and kind with the same contents.
pub open spec fn same_entry(a: Result<RootEntry, String>, b: Result<RootEntry, String>) -> bool {
    (a is Err && b is Err) || (a is Ok && b is Ok && a->Ok_0.path@ == b->Ok_0.path@
        && a->Ok_0.kind == b->Ok_0.kind && same_contents(a->Ok_0.contents@, b->Ok_0.contents@))
}

/// Whether each entry of `l1` is matched by an entry of `l2`.
pub open spec fn covers(l1: Seq<Result<RootEntry, String>>, l2: Seq<Result<RootEntry, String>>) -> bool {
    forall|i: int| #![trigger l1[i]] 0 <= i < l1.len() ==> exists|j: int| 0 <= j < l2.len() && #[trigger] same_entry(l1[i], l2[j])
}

/// Whether two listings describe one directory tree, each entry of either
/// matched by an entry of the other, whatever the order of reading.
pub open spec fn same_tree(l1: Seq<Result<RootEntry, String>>, l2: Seq<Result<RootEntry, String>>) -> bool {
    covers(l1, l2) && covers(l2, l1)
}

proof fn lemma_same_entry_transfer(a: Result<RootEntry, String>, b: Result<RootEntry, String>)
    requires
        same_entry(a, b) || same_entry(b, a),
    ensures
        entry_clean(a) ==> entry_clean(b),
        forall|r: Resolution| #[trigger] bucket_dir(a, r) ==> bucket_dir(b, r),
        forall|p: Seq<char>| a is Ok && #[trigger] has_file(a->Ok_0.contents@, p) ==> has_file(b->Ok_0.contents@, p),
{
    if a is Ok {
        let ca = a->Ok_0.contents@;
        let cb = b->Ok_0.contents@;
        assert forall|p: Seq<char>| #[trigger] has_file(ca, p) implies has_file(cb, p) by {
            let k = choose|k: int| 0 <= k < ca.len() && file_entry(#[trigger] ca[k], p);
            assert(ca.contains(ca[k]));
            assert(cb.contains(ca[k]));
            let k2 = choose|k2: int| 0 <= k2 < cb.len() && cb[k2] == ca[k];
            assert(file_entry(cb[k2], p));
        }
        if entry_clean(a) && a->Ok_0.kind == EntryKind::Directory {
            assert forall|j: int| 0 <= j < cb.len() implies (#[trigger] cb[j]) is Ok by {
                assert(cb.contains(cb[j]));
                assert(ca.contains(cb[j]));
            }
        }
    }
}

proof fn lemma_covers_transfer(l1: Seq<Result<RootEntry, String>>, l2: Seq<Result<RootEntry, String>>)
    requires
        covers(l1, l2),
    ensures
        listing_clean(l2) ==> listing_clean(l1),
        forall|r: Resolution| #[trigger] listed_key(l1, r) ==> listed_key(l2, r),
        forall|r: Resolution, p: Seq<char>| #[trigger] listed_file(l1, r, p) ==> listed_file(l2, r, p),
{
    if listing_clean(l2) {
        assert forall|i: int| 0 <= i < l1.len() implies entry_clean(#[trigger] l1[i]) by {
            let j = choose|j: int| 0 <= j < l2.len() && #[trigger] same_entry(l1[i], l2[j]);
            lemma_same_entry_transfer(l2[j], l1[i]);
        }
    }
    assert forall|r: Resolution| #[trigger] listed_key(l1, r) implies listed_key(l2, r) by {
        let i = choose|i: int| 0 <= i < l1.len() && bucket_dir(#[trigger] l1[i], r);
        let j = choose|j: int| 0 <= j < l2.len() && #[trigger] same_entry(l1[i], l2[j]);
        lemma_same_entry_transfer(l1[i], l2[j]);
        assert(bucket_dir(l2[j], r));
    }
    assert forall|r: Resolution, p: Seq<char>| #[trigger] listed_file(l1, r, p) implies listed_file(l2, r, p) by {
        let i = choose|i: int| 0 <= i < l1.len() && bucket_dir(#[trigger] l1[i], r)
            && has_file(l1[i]->Ok_0.contents@, p);
        let j = choose|j: int| 0 <= j < l2.len() && #[trigger] same_entry(l1[i], l2[j]);
        lemma_same_entry_transfer(l1[i], l2[j]);
        assert(bucket_dir(l2[j], r) && has_file(l2[j]->Ok_0.contents@, p));
    }
}

/// Building twice from one directory tree, read in any two orders, gives
/// the same outcome: both builds succeed or both fail, and when they succeed
/// the two indexes have the same resolutions and file the same paths under
/// each.
pub proof fn lemma_build_order_independent(l1: Seq<Result<RootEntry, String>>, l2: Seq<Result<RootEntry, String>>)
    requires
        same_tree(l1, l2),
    ensures
        build_spec(l1) is Ok <==> build_spec(l2) is Ok,
        build_spec(l1) is Ok && build_spec(l2) is Ok ==> (forall|r: Resolution|
            has_key(build_spec(l1)->Ok_0, r) <==> #[trigger] has_key(build_spec(l2)->Ok_0, r)),
        build_spec(l1) is Ok && build_spec(l2) is Ok ==> (forall|r: Resolution, p: Seq<char>|
            in_bucket(build_spec(l1)->Ok_0, r, p) <==> #[trigger] in_bucket(build_spec(l2)->Ok_0, r, p)),
{
    lemma_build_content(l1);
    lemma_build_content(l2);
    lemma_covers_transfer(l1, l2);
    lemma_covers_transfer(l2, l1);
}

/// An entry of the root that is not a directory changes nothing: the build
/// gives the same outcome with it as without it, wherever it stands.
pub proof fn lemma_stray_entry_ignored(l: Seq<Result<RootEntry, String>>, i: int, e: RootEntry)
    requires
        0 <= i <= l.len(),
        e.kind != EntryKind::Directory,
    ensures
        build_spec(l.insert(i, Ok(e))) == build_spec(l),
    decreases l.len(),
{
    let l2 = l.insert(i, Ok(e));
    if i == l.len() {
        assert(l2.drop_last() =~= l);
    } else {
        lemma_stray_entry_ignored(l.drop_last(), i, e);
        assert(l2.drop_last() =~= l.drop_last().insert(i, Ok(e)));
        assert(l2.last() == l.last());
    }
}

/// A directory whose path holds no resolution fails the whole build: no
/// index comes out, and when every entry before it was built without
/// failure, the error is `InvalidBucketName` with its path.
pub proof fn lemma_invalid_bucket_fails(l: Seq<Result<RootEntry, String>>, i: int)
    requires
        0 <= i < l.len(),
        l[i] is Ok,
        l[i]->Ok_0.kind == EntryKind::Directory,
        parse_spec(l[i]->Ok_0.path@) is Err,
    ensures
        build_spec(l) is Err,
        build_spec(l.take(i)) is Ok ==> build_spec(l) == Err::<LibraryModel, BuildError>(
            BuildError::InvalidBucketName(l[i]->Ok_0.path)),
{
    lemma_build_content(l);
    assert(!entry_clean(l[i]));
    assert(l.take(i + 1).drop_last() =~= l.take(i));
    assert(l.take(i + 1).last() == l[i]);
    if build_spec(l.take(i + 1)) is Err {
        lemma_build_failure_final(l, i + 1);
    }
}

} // verus!
