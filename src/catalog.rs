//! The version catalog: the version directories under the documentation
//! root, newest first.
use vstd::prelude::*;
use vstd::multiset::Multiset;
use vstd::seq_lib::group_to_multiset_ensures;
use crate::version::{label_of, parse_version, version_key};

verus! {

broadcast use group_to_multiset_ensures;

/// A version entry: major, minor and the display label.
pub type VersionEntry = (u32, u32, String);

pub open spec fn key_of(e: VersionEntry) -> (u32, u32) {
    (e.0, e.1)
}

/// `(major, minor)` order: major first, ties broken by minor.
pub open spec fn key_le(a: (u32, u32), b: (u32, u32)) -> bool {
    a.0 < b.0 || (a.0 == b.0 && a.1 <= b.1)
}

pub open spec fn key_lt(a: (u32, u32), b: (u32, u32)) -> bool {
    a.0 < b.0 || (a.0 == b.0 && a.1 < b.1)
}

pub open spec fn keys_of(es: Seq<VersionEntry>) -> Seq<(u32, u32)> {
    es.map_values(|e: VersionEntry| key_of(e))
}

pub open spec fn is_ascending(es: Seq<VersionEntry>) -> bool {
    forall|i: int, j: int| 0 <= i < j < es.len() ==> key_le(key_of(es[i]), key_of(es[j]))
}

pub open spec fn is_descending(ks: Seq<(u32, u32)>) -> bool {
    forall|i: int, j: int| 0 <= i < j < ks.len() ==> key_le(ks[j], ks[i])
}

pub open spec fn is_strictly_descending(ks: Seq<(u32, u32)>) -> bool {
    forall|i: int, j: int| 0 <= i < j < ks.len() ==> key_lt(ks[j], ks[i])
}

/// The entries of `es` whose key is `k`, in the order of `es`.
pub open spec fn with_key(es: Seq<VersionEntry>, k: (u32, u32)) -> Seq<VersionEntry> {
    es.filter(|e: VersionEntry| key_of(e) == k)
}

/// Taking out the first entry of its key removes it from the front of that
/// key's entries and leaves the other keys' entries alone.
proof fn lemma_with_key_remove_first(vs: Seq<VersionEntry>, m: int, k: (u32, u32))
    requires
        0 <= m < vs.len(),
        forall|j: int| 0 <= j < m ==> key_of(vs[j]) != key_of(vs[m]),
    ensures
        with_key(vs, k) == (if k == key_of(vs[m]) {
            seq![vs[m]]
        } else {
            Seq::<VersionEntry>::empty()
        }) + with_key(vs.remove(m), k),
{
    let pred = |e: VersionEntry| key_of(e) == k;
    let head = vs.take(m);
    let tail = vs.skip(m + 1);
    assert(vs =~= head + (seq![vs[m]] + tail));
    assert(vs.remove(m) =~= head + tail);
    Seq::filter_distributes_over_add(head, seq![vs[m]] + tail, pred);
    Seq::filter_distributes_over_add(head, tail, pred);
    tail.lemma_filter_prepend(vs[m], pred);
    if k == key_of(vs[m]) {
        assert(head.all(|x: VersionEntry| !pred(x)));
        head.lemma_all_neg_filter_empty(pred);
        assert(head.filter(pred) =~= Seq::<VersionEntry>::empty());
        assert(head.filter(pred) + tail.filter(pred) =~= tail.filter(pred));
        assert(head.filter(pred) + (seq![vs[m]] + tail.filter(pred)) =~= seq![vs[m]]
            + tail.filter(pred));
    } else {
        assert(Seq::<VersionEntry>::empty() + tail.filter(pred) =~= tail.filter(pred));
        assert(Seq::<VersionEntry>::empty() + with_key(vs.remove(m), k) =~= with_key(
            vs.remove(m),
            k,
        ));
    }
}

/// Every entry carries the label that its numbers give.
pub open spec fn labels_match(es: Seq<VersionEntry>) -> bool {
    forall|i: int| 0 <= i < es.len() ==> (#[trigger] es[i]).2@ == label_of(es[i].0, es[i].1)
}

pub open spec fn paths_of(dirs: Seq<String>) -> Seq<Seq<char>> {
    dirs.map_values(|s: String| s@)
}

pub open spec fn text_of(strs: Seq<String>) -> Seq<Seq<char>> {
    strs.map_values(|s: String| s@)
}

pub open spec fn labels_of(ks: Seq<(u32, u32)>) -> Seq<Seq<char>> {
    ks.map_values(|k: (u32, u32)| label_of(k.0, k.1))
}

/// The keys of the version directories among `paths`, in the order given.
pub open spec fn version_keys(paths: Seq<Seq<char>>) -> Seq<(u32, u32)>
    decreases paths.len(),
{
    if paths.len() == 0 {
        seq![]
    } else {
        let rest = version_keys(paths.drop_last());
        match version_key(paths.last()) {
            Some(k) => rest.push(k),
            None => rest,
        }
    }
}

/// `ks` is the catalog of `paths`: their version keys, newest first.
pub open spec fn is_catalog_of(ks: Seq<(u32, u32)>, paths: Seq<Seq<char>>) -> bool {
    &&& is_descending(ks)
    &&& ks.to_multiset() == version_keys(paths).to_multiset()
}

/// The version entries of the directories `dirs` (paths of the documentation
/// root's subdirectories), in the order given; the others are left out.
pub fn list_version_dirs(dirs: &Vec<String>) -> (r: Vec<VersionEntry>)
    ensures
        keys_of(r@) == version_keys(paths_of(dirs@)),
        labels_match(r@),
{
    let mut out: Vec<VersionEntry> = Vec::new();
    let mut i: usize = 0;
    while i < dirs.len()
        invariant
            i <= dirs@.len(),
            keys_of(out@) == version_keys(paths_of(dirs@).take(i as int)),
            labels_match(out@),
        decreases dirs@.len() - i,
    {
        let ghost before = out@;
        assert(paths_of(dirs@).take(i + 1).drop_last() =~= paths_of(dirs@).take(i as int));
        assert(paths_of(dirs@).take(i + 1).last() == dirs@[i as int]@);
        match parse_version(dirs[i].as_str()) {
            Some(e) => {
                out.push(e);
                assert(keys_of(out@) =~= keys_of(before).push(key_of(e)));
            },
            None => {},
        }
        i = i + 1;
    }
    assert(paths_of(dirs@).take(dirs@.len() as int) =~= paths_of(dirs@));
    out
}

/// Sorts entries ascending by `(major, minor)`; the entries themselves are
/// kept, only their order changes, and entries of equal key keep their
/// relative order.
pub fn sort_versions(versions: &mut Vec<VersionEntry>)
    ensures
        final(versions)@.to_multiset() == old(versions)@.to_multiset(),
        keys_of(final(versions)@).to_multiset() == keys_of(old(versions)@).to_multiset(),
        is_ascending(final(versions)@),
        forall|k: (u32, u32)| with_key(final(versions)@, k) == with_key(old(versions)@, k),
{
    let mut sorted: Vec<VersionEntry> = Vec::new();
    while versions.len() > 0
        invariant
            sorted@.to_multiset().add(versions@.to_multiset()) == old(versions)@.to_multiset(),
            keys_of(sorted@).to_multiset().add(keys_of(versions@).to_multiset()) == keys_of(
                old(versions)@,
            ).to_multiset(),
            is_ascending(sorted@),
            forall|k: (u32, u32)|
                with_key(sorted@, k) + with_key(versions@, k) == with_key(old(versions)@, k),
            forall|i: int, j: int|
                0 <= i < sorted@.len() && 0 <= j < versions@.len() ==> key_le(
                    key_of(sorted@[i]),
                    key_of(versions@[j]),
                ),
        decreases versions@.len(),
    {
        let mut m: usize = 0;
        let mut j: usize = 1;
        while j < versions.len()
            invariant
                m < versions@.len(),
                1 <= j <= versions@.len(),
                forall|k: int| 0 <= k < j ==> key_le(key_of(versions@[m as int]), key_of(versions@[k])),
                forall|k: int| 0 <= k < m ==> key_lt(key_of(versions@[m as int]), key_of(versions@[k])),
            decreases versions@.len() - j,
        {
            if versions[j].0 < versions[m].0 || (versions[j].0 == versions[m].0 && versions[j].1
                < versions[m].1) {
                m = j;
            }
            j = j + 1;
        }
        let ghost vs = versions@;
        let ghost ss = sorted@;
        let e = versions.remove(m);
        sorted.push(e);
        proof {
            assert(keys_of(versions@) =~= keys_of(vs).remove(m as int));
            assert(keys_of(sorted@) =~= keys_of(ss).push(key_of(e)));
            assert(sorted@.to_multiset().add(versions@.to_multiset()) =~= ss.to_multiset().add(
                vs.to_multiset(),
            ));
            assert(keys_of(sorted@).to_multiset().add(keys_of(versions@).to_multiset())
                =~= keys_of(ss).to_multiset().add(keys_of(vs).to_multiset()));
            assert forall|k: (u32, u32)|
                with_key(sorted@, k) + with_key(versions@, k) == with_key(old(versions)@, k) by {
                lemma_with_key_remove_first(vs, m as int, k);
                let pred = |e: VersionEntry| key_of(e) == k;
                ss.lemma_filter_push(e, pred);
                if k == key_of(e) {
                    assert(with_key(sorted@, k) + with_key(versions@, k) =~= with_key(ss, k)
                        + with_key(vs, k));
                } else {
                    assert(with_key(vs, k) =~= with_key(versions@, k));
                }
            }
            assert forall|i: int, j: int|
                0 <= i < sorted@.len() && 0 <= j < versions@.len() implies key_le(
                key_of(sorted@[i]),
                key_of(versions@[j]),
            ) by {
                if j < m {
                    assert(versions@[j] == vs[j]);
                } else {
                    assert(versions@[j] == vs[j + 1]);
                }
            }
        }
    }
    assert(versions@.to_multiset() =~= Multiset::empty());
    assert(keys_of(versions@).to_multiset() =~= Multiset::empty());
    assert(sorted@.to_multiset() =~= old(versions)@.to_multiset());
    assert(keys_of(sorted@).to_multiset() =~= keys_of(old(versions)@).to_multiset());
    assert forall|k: (u32, u32)| with_key(sorted@, k) == with_key(old(versions)@, k) by {
        reveal(Seq::filter);
        assert(with_key(versions@, k) =~= Seq::<VersionEntry>::empty());
        assert(with_key(sorted@, k) + with_key(versions@, k) =~= with_key(sorted@, k));
    }
    *versions = sorted;
}

/// The labels of the version directories among `dirs`, newest first: for
/// example `["1.10", "1.9", "1.6"]`.
pub fn get_versions(dirs: &Vec<String>) -> (r: Vec<String>)
    ensures
        exists|ks: Seq<(u32, u32)>|
            is_catalog_of(ks, paths_of(dirs@)) && text_of(r@) == labels_of(ks),
{
    let mut entries = list_version_dirs(dirs);
    let ghost listed = entries@;
    sort_versions(&mut entries);
    assert forall|i: int| 0 <= i < entries@.len() implies (#[trigger] entries@[i]).2@ == label_of(
        entries@[i].0,
        entries@[i].1,
    ) by {
        assert(entries@.to_multiset().count(entries@[i]) > 0);
        assert(listed.contains(entries@[i]));
    }
    let n = entries.len();
    let mut out: Vec<String> = Vec::new();
    let mut i: usize = n;
    while i > 0
        invariant
            i <= n,
            n == entries@.len(),
            labels_match(entries@),
            out@.len() == n - i,
            forall|k: int| 0 <= k < n - i ==> (#[trigger] out@[k])@ == entries@[n - 1 - k].2@,
        decreases i,
    {
        i = i - 1;
        out.push(entries[i].2.clone());
    }
    let ghost ks = keys_of(entries@).reverse();
    proof {
        keys_of(entries@).lemma_reverse_to_multiset();
        assert(text_of(out@) =~= labels_of(ks));
    }
    out
}

/// The keys of a concatenation are the keys of its parts, in order.
pub proof fn lemma_version_keys_append(a: Seq<Seq<char>>, b: Seq<Seq<char>>)
    ensures
        version_keys(a + b) == version_keys(a) + version_keys(b),
    decreases b.len(),
{
    if b.len() == 0 {
        assert(a + b =~= a);
        assert(version_keys(a) + version_keys(b) =~= version_keys(a));
    } else {
        assert((a + b).drop_last() =~= a + b.drop_last());
        assert((a + b).last() == b.last());
        lemma_version_keys_append(a, b.drop_last());
        match version_key(b.last()) {
            Some(k) => {
                assert(version_keys(a) + version_keys(b) =~= (version_keys(a) + version_keys(
                    b.drop_last(),
                )).push(k));
            },
            None => {},
        }
    }
}

/// A directory that is no version directory leaves the catalog as it is,
/// wherever it stands among the others.
pub proof fn lemma_unrecognised_dir_ignored(
    before: Seq<Seq<char>>,
    path: Seq<char>,
    after: Seq<Seq<char>>,
)
    requires
        version_key(path) is None,
    ensures
        version_keys(before + seq![path] + after) == version_keys(before + after),
{
    lemma_version_keys_append(before + seq![path], after);
    lemma_version_keys_append(before, after);
    assert((before + seq![path]).drop_last() =~= before);
}

/// When no two directories name the same version, the catalog is strictly
/// descending.
pub proof fn lemma_catalog_strictly_descending(ks: Seq<(u32, u32)>, paths: Seq<Seq<char>>)
    requires
        is_catalog_of(ks, paths),
        version_keys(paths).no_duplicates(),
    ensures
        is_strictly_descending(ks),
{
    version_keys(paths).lemma_multiset_has_no_duplicates();
    assert forall|i: int, j: int| 0 <= i < j < ks.len() implies key_lt(ks[j], ks[i]) by {
        if ks[i] == ks[j] {
            let rest = ks.remove(j);
            assert(rest[i] == ks[i]);
            assert(rest.contains(ks[i]));
            assert(rest.to_multiset().count(ks[i]) > 0);
            assert(rest.to_multiset() == ks.to_multiset().remove(ks[j]));
            assert(ks.to_multiset().count(ks[i]) >= 2);
            assert(version_keys(paths).to_multiset().contains(ks[i]));
            assert(false);
        }
        assert(key_le(ks[j], ks[i]));
        if ks[j].0 == ks[i].0 && ks[j].1 == ks[i].1 {
            assert(ks[j] == ks[i]);
        }
    }
}

/// An empty documentation root gives an empty catalog.
pub proof fn lemma_empty_root(ks: Seq<(u32, u32)>)
    requires
        is_catalog_of(ks, seq![]),
    ensures
        ks.len() == 0,
        labels_of(ks).len() == 0,
{
    assert(version_keys(seq![]) =~= Seq::<(u32, u32)>::empty());
    assert(ks.to_multiset().len() == 0);
}

} // verus!
