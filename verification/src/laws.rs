use vstd::prelude::*;

verus! {

use crate::order::lex_leq;
use crate::order::lex_leq_fn;
use crate::order::lemma_lex_antisym;
use crate::order::lemma_lex_total_ordering;
use crate::present::numbered_files;
use crate::present::present_lines;
use crate::present::rels_of;
use crate::scan::DirEntryView;
use crate::scan::entries_sorted;
use crate::scan::scanned;
use crate::scan::yaml_pred;
use crate::scan::yaml_sorted;
use crate::text::has_yaml_ext;
use crate::text::rel_of;
use crate::text::under_root;
use vstd::multiset::Multiset;

/// A filtered sequence holds no element more often than the sequence it
/// came from.
proof fn lemma_filter_count(s: Seq<Seq<char>>, pred: spec_fn(Seq<char>) -> bool, x: Seq<char>)
    ensures
        s.filter(pred).to_multiset().count(x) <= s.to_multiset().count(x),
    decreases s.len(),
{
    broadcast use vstd::multiset::group_multiset_axioms;
    broadcast use vstd::seq_lib::group_to_multiset_ensures;

    reveal_with_fuel(Seq::filter, 2);
    if s.len() == 0 {
        assert(s.filter(pred) =~= Seq::<Seq<char>>::empty());
        assert(!s.contains(x));
        assert(!s.to_multiset().contains(x));
        assert(s.to_multiset().count(x) == 0);
        assert(s.filter(pred).to_multiset().count(x) == 0);
    } else {
        let rest = s.drop_last();
        let last = s.last();
        lemma_filter_count(rest, pred, x);
        assert(s =~= rest.push(last));
        assert(s.to_multiset() == rest.push(last).to_multiset());
        assert(rest.push(last).to_multiset() =~= rest.to_multiset().insert(last));
        if pred(last) {
            assert(s.filter(pred) == rest.filter(pred).push(last));
            assert(rest.filter(pred).push(last).to_multiset() =~= rest.filter(
                pred,
            ).to_multiset().insert(last));
        } else {
            assert(s.filter(pred) == rest.filter(pred));
        }
    }
}

/// What the per-directory scan keeps: exactly the files of the listing
/// that carry the `yaml` extension.
pub proof fn lemma_yaml_sorted_contains(files: Seq<Seq<char>>, f: Seq<char>)
    ensures
        yaml_sorted(files).contains(f) <==> files.contains(f) && has_yaml_ext(f),
{
    broadcast use vstd::multiset::group_multiset_axioms;
    broadcast use vstd::seq_lib::group_to_multiset_ensures;

    lemma_lex_total_ordering();
    let fil = files.filter(yaml_pred());
    fil.lemma_sort_by_ensures(lex_leq_fn());
    let srt = fil.sort_by(lex_leq_fn());
    assert(srt.to_multiset() == fil.to_multiset());
    assert(srt.contains(f) <==> fil.contains(f)) by {
        assert(srt.contains(f) <==> srt.to_multiset().contains(f));
        assert(fil.contains(f) <==> fil.to_multiset().contains(f));
    }
    if fil.contains(f) {
        files.lemma_filter_contains_rev(yaml_pred(), f);
        let i = choose|i: int| 0 <= i < fil.len() && #[trigger] fil[i] == f;
        files.lemma_filter_pred(yaml_pred(), i);
        assert(has_yaml_ext(f));
    }
    if files.contains(f) && has_yaml_ext(f) {
        let i = choose|i: int| 0 <= i < files.len() && #[trigger] files[i] == f;
        files.lemma_filter_contains(yaml_pred(), i);
    }
}

/// A listing without duplicate entries scans to a record without
/// duplicate files.
pub proof fn lemma_yaml_sorted_nodup(files: Seq<Seq<char>>)
    requires
        files.no_duplicates(),
    ensures
        yaml_sorted(files).no_duplicates(),
{
    broadcast use vstd::multiset::group_multiset_axioms;
    broadcast use vstd::seq_lib::group_to_multiset_ensures;

    lemma_lex_total_ordering();
    let fil = files.filter(yaml_pred());
    files.lemma_multiset_has_no_duplicates();
    assert forall|x: Seq<char>| #[trigger] fil.to_multiset().contains(x) implies fil.to_multiset().count(x)
        == 1 by {
        lemma_filter_count(files, yaml_pred(), x);
        assert(fil.to_multiset().count(x) >= 1);
        assert(files.to_multiset().count(x) >= 1);
        assert(files.to_multiset().contains(x));
    }
    fil.lemma_multiset_has_no_duplicates_conv();
    fil.lemma_sort_by_ensures(lex_leq_fn());
    let srt = fil.sort_by(lex_leq_fn());
    fil.lemma_multiset_has_no_duplicates();
    assert forall|x: Seq<char>| #[trigger] srt.to_multiset().contains(x) implies srt.to_multiset().count(x)
        == 1 by {
        assert(srt.to_multiset() == fil.to_multiset());
    }
    srt.lemma_multiset_has_no_duplicates_conv();
}

/// Two distinct paths below the root stay distinct when made relative.
pub proof fn lemma_rel_injective(root: Seq<char>, a: Seq<char>, b: Seq<char>)
    requires
        under_root(root, a),
        under_root(root, b),
        rel_of(root, a) == rel_of(root, b),
    ensures
        a == b,
{
    assert(rel_of(root, a).len() == a.len() - root.len() - 1);
    assert(rel_of(root, b).len() == b.len() - root.len() - 1);
    assert(a.len() == b.len());
    assert(a =~= b) by {
        assert forall|i: int| 0 <= i < a.len() implies a[i] == b[i] by {
            if i < root.len() {
                assert(a.take(root.len() as int)[i] == a[i]);
                assert(b.take(root.len() as int)[i] == b[i]);
            } else if i == root.len() {
            } else {
                assert(rel_of(root, a)[i - root.len() - 1] == a[i]);
                assert(rel_of(root, b)[i - root.len() - 1] == b[i]);
            }
        }
    }
}

/// Whether position `k` of record `i` accounts for the listed path `x`.
pub open spec fn numbered_source(
    entries: Seq<DirEntryView>,
    root: Seq<char>,
    x: Seq<char>,
    i: int,
    k: int,
) -> bool {
    &&& 0 <= i < entries.len()
    &&& 0 <= k < entries[i].files.len()
    &&& x == rel_of(root, entries[i].files[k])
}

/// A path stands in the numbered list exactly when some record's file
/// relativises to it.
pub proof fn lemma_numbered_contains(entries: Seq<DirEntryView>, root: Seq<char>, x: Seq<char>)
    ensures
        numbered_files(entries, root).contains(x) <==> exists|i: int, k: int|
            #[trigger] numbered_source(entries, root, x, i, k),
    decreases entries.len(),
{
    if entries.len() == 0 {
        assert(!numbered_files(entries, root).contains(x));
        if exists|i: int, k: int| #[trigger] numbered_source(entries, root, x, i, k) {
            let (i, k) = choose|i: int, k: int| #[trigger] numbered_source(entries, root, x, i, k);
            assert(false);
        }
    } else {
        lemma_numbered_contains(entries.drop_first(), root, x);
        let head = rels_of(root, entries[0].files);
        let tail = numbered_files(entries.drop_first(), root);
        let all = numbered_files(entries, root);
        assert(all == head + tail);
        if all.contains(x) {
            let j = choose|j: int| 0 <= j < all.len() && #[trigger] all[j] == x;
            if j < head.len() {
                assert(head[j] == x);
                assert(numbered_source(entries, root, x, 0, j));
            } else {
                assert(tail[j - head.len()] == x);
                assert(tail.contains(x));
                let (i2, k2) = choose|i2: int, k2: int|
                    #[trigger] numbered_source(entries.drop_first(), root, x, i2, k2);
                assert(entries.drop_first()[i2] == entries[i2 + 1]);
                assert(numbered_source(entries, root, x, i2 + 1, k2));
            }
        }
        if exists|i: int, k: int| #[trigger] numbered_source(entries, root, x, i, k) {
            let (i, k) = choose|i: int, k: int| #[trigger] numbered_source(entries, root, x, i, k);
            if i == 0 {
                assert(head[k] == x);
                assert(all[k] == x);
                assert(all.contains(x));
            } else {
                assert(entries.drop_first()[i - 1] == entries[i]);
                assert(numbered_source(entries.drop_first(), root, x, i - 1, k));
                assert(tail.contains(x));
                let j = choose|j: int| 0 <= j < tail.len() && #[trigger] tail[j] == x;
                assert(all[head.len() + j] == x);
                assert(all.contains(x));
            }
        }
    }
}

/// Records with duplicate-free, pairwise disjoint files below the root
/// produce a duplicate-free numbered list.
pub proof fn lemma_numbered_nodup(entries: Seq<DirEntryView>, root: Seq<char>)
    requires
        forall|i: int| 0 <= i < entries.len() ==> (#[trigger] entries[i]).files.no_duplicates(),
        forall|i: int, k: int|
            #![trigger entries[i].files[k]]
            0 <= i < entries.len() && 0 <= k < entries[i].files.len() ==> under_root(
                root,
                entries[i].files[k],
            ),
        forall|i: int, j: int|
            #![trigger entries[i], entries[j]]
            0 <= i < j < entries.len() ==> entries[i].files.disjoint(entries[j].files),
    ensures
        numbered_files(entries, root).no_duplicates(),
    decreases entries.len(),
{
    if entries.len() > 0 {
        let e0 = entries[0];
        let rest = entries.drop_first();
        let head = rels_of(root, e0.files);
        let tail = numbered_files(rest, root);
        let all = numbered_files(entries, root);
        assert(all == head + tail);
        assert forall|i: int| 0 <= i < rest.len() implies (#[trigger] rest[i]).files.no_duplicates() by {
            assert(rest[i] == entries[i + 1]);
        }
        assert forall|i: int, k: int|
            #![trigger rest[i].files[k]]
            0 <= i < rest.len() && 0 <= k < rest[i].files.len() implies under_root(
            root,
            rest[i].files[k],
        ) by {
            assert(rest[i] == entries[i + 1]);
            assert(under_root(root, entries[i + 1].files[k]));
        }
        assert forall|i: int, j: int|
            #![trigger rest[i], rest[j]]
            0 <= i < j < rest.len() implies rest[i].files.disjoint(rest[j].files) by {
            assert(rest[i] == entries[i + 1]);
            assert(rest[j] == entries[j + 1]);
        }
        lemma_numbered_nodup(rest, root);
        assert(head.no_duplicates()) by {
            assert forall|p: int, q: int|
                0 <= p < head.len() && 0 <= q < head.len() && p != q implies #[trigger] head[p]
                != #[trigger] head[q] by {
                if head[p] == head[q] {
                    assert(head[p] == rel_of(root, e0.files[p]));
                    assert(head[q] == rel_of(root, e0.files[q]));
                    assert(under_root(root, entries[0].files[p]));
                    assert(under_root(root, entries[0].files[q]));
                    lemma_rel_injective(root, e0.files[p], e0.files[q]);
                    assert(e0.files[p] != e0.files[q]);
                }
            }
        }
        assert forall|p: int, q: int|
            0 <= p < all.len() && 0 <= q < all.len() && p != q implies #[trigger] all[p]
            != #[trigger] all[q] by {
            if all[p] == all[q] {
                let hl = head.len() as int;
                if p < hl && q < hl {
                    assert(head[p] == head[q]);
                } else if p >= hl && q >= hl {
                    assert(tail[p - hl] == tail[q - hl]);
                } else {
                    let (hp, tq) = if p < hl {
                        (p, q - hl)
                    } else {
                        (q, p - hl)
                    };
                    assert(head[hp] == tail[tq]);
                    assert(tail.contains(tail[tq]));
                    lemma_numbered_contains(rest, root, tail[tq]);
                    let (i2, k2) = choose|i2: int, k2: int|
                        #[trigger] numbered_source(rest, root, tail[tq], i2, k2);
                    assert(rest[i2] == entries[i2 + 1]);
                    assert(under_root(root, entries[i2 + 1].files[k2]));
                    assert(under_root(root, entries[0].files[hp]));
                    lemma_rel_injective(root, e0.files[hp], entries[i2 + 1].files[k2]);
                    assert(entries[0].files.contains(e0.files[hp]));
                    assert(entries[i2 + 1].files.contains(e0.files[hp]));
                    assert(entries[0].files.disjoint(entries[i2 + 1].files));
                    assert(false);
                }
            }
        }
    }
}

/// Whether the listing numbered `i` holds, at position `k`, a file with
/// the `yaml` extension whose relative path is `x`.
pub open spec fn yaml_source(
    listings: Seq<DirEntryView>,
    root: Seq<char>,
    x: Seq<char>,
    i: int,
    k: int,
) -> bool {
    &&& 0 <= i < listings.len()
    &&& 0 <= k < listings[i].files.len()
    &&& has_yaml_ext(listings[i].files[k])
    &&& x == rel_of(root, listings[i].files[k])
}

/// Over any scanned tree, every regular file with the `yaml` extension
/// stands in the numbered list exactly once, as its path relative to the
/// root, and no other path stands there. `listings` are the raw directory
/// listings the walk handed over; `entries` is any record sequence meeting
/// the scan's contract for them.
pub proof fn lemma_each_file_listed_once(
    listings: Seq<DirEntryView>,
    entries: Seq<DirEntryView>,
    root: Seq<char>,
)
    requires
        entries_sorted(entries),
        forall|e: DirEntryView|
            #[trigger] entries.contains(e) <==> exists|i: int|
                0 <= i < listings.len() && e == scanned(#[trigger] listings[i]),
        forall|i: int, j: int|
            #![trigger listings[i], listings[j]]
            0 <= i < j < listings.len() ==> listings[i].dir != listings[j].dir,
        forall|i: int| 0 <= i < listings.len() ==> (#[trigger] listings[i]).files.no_duplicates(),
        forall|i: int, j: int|
            #![trigger listings[i], listings[j]]
            0 <= i < j < listings.len() ==> listings[i].files.disjoint(listings[j].files),
        forall|i: int, k: int|
            #![trigger listings[i].files[k]]
            0 <= i < listings.len() && 0 <= k < listings[i].files.len() ==> under_root(
                root,
                listings[i].files[k],
            ),
    ensures
        numbered_files(entries, root).no_duplicates(),
        forall|x: Seq<char>|
            #[trigger] numbered_files(entries, root).contains(x) <==> exists|i: int, k: int|
                #[trigger] yaml_source(listings, root, x, i, k),
{
    assert forall|p: int| 0 <= p < entries.len() implies (#[trigger] entries[p]).files.no_duplicates()
        && (exists|w: int|
        0 <= w < listings.len() && entries[p] == scanned(#[trigger] listings[w])) by {
        assert(entries.contains(entries[p]));
        let w = choose|w: int| 0 <= w < listings.len() && entries[p] == scanned(listings[w]);
        lemma_yaml_sorted_nodup(listings[w].files);
        assert(entries[p].files == yaml_sorted(listings[w].files));
    }
    assert forall|p: int, k: int|
        #![trigger entries[p].files[k]]
        0 <= p < entries.len() && 0 <= k < entries[p].files.len() implies under_root(
        root,
        entries[p].files[k],
    ) by {
        let w = choose|w: int| 0 <= w < listings.len() && entries[p] == scanned(#[trigger] listings[w]);
        let f = entries[p].files[k];
        assert(entries[p].files.contains(f));
        lemma_yaml_sorted_contains(listings[w].files, f);
        let k2 = choose|k2: int| 0 <= k2 < listings[w].files.len() && #[trigger] listings[w].files[k2] == f;
        assert(under_root(root, listings[w].files[k2]));
    }
    assert forall|p: int, q: int|
        #![trigger entries[p], entries[q]]
        0 <= p < q < entries.len() implies entries[p].files.disjoint(entries[q].files) by {
        let wp = choose|w: int| 0 <= w < listings.len() && entries[p] == scanned(#[trigger] listings[w]);
        let wq = choose|w: int| 0 <= w < listings.len() && entries[q] == scanned(#[trigger] listings[w]);
        assert(entries[p].dir != entries[q].dir);
        assert(wp != wq);
        assert forall|a: int, b: int|
            0 <= a < entries[p].files.len() && 0 <= b < entries[q].files.len() implies entries[p].files[a]
            != entries[q].files[b] by {
            let fa = entries[p].files[a];
            let fb = entries[q].files[b];
            if fa == fb {
                assert(entries[p].files.contains(fa));
                assert(entries[q].files.contains(fb));
                lemma_yaml_sorted_contains(listings[wp].files, fa);
                lemma_yaml_sorted_contains(listings[wq].files, fb);
                if wp < wq {
                    assert(listings[wp].files.disjoint(listings[wq].files));
                    let ia = choose|ia: int|
                        0 <= ia < listings[wp].files.len() && #[trigger] listings[wp].files[ia] == fa;
                    let ib = choose|ib: int|
                        0 <= ib < listings[wq].files.len() && #[trigger] listings[wq].files[ib] == fb;
                    assert(false);
                } else {
                    assert(listings[wq].files.disjoint(listings[wp].files));
                    let ia = choose|ia: int|
                        0 <= ia < listings[wp].files.len() && #[trigger] listings[wp].files[ia] == fa;
                    let ib = choose|ib: int|
                        0 <= ib < listings[wq].files.len() && #[trigger] listings[wq].files[ib] == fb;
                    assert(false);
                }
            }
        }
    }
    lemma_numbered_nodup(entries, root);
    assert forall|x: Seq<char>|
        #[trigger] numbered_files(entries, root).contains(x) <==> exists|i: int, k: int|
            #[trigger] yaml_source(listings, root, x, i, k) by {
        lemma_numbered_contains(entries, root, x);
        if numbered_files(entries, root).contains(x) {
            let (p, k) = choose|p: int, k: int| #[trigger] numbered_source(entries, root, x, p, k);
            let w = choose|w: int|
                0 <= w < listings.len() && entries[p] == scanned(#[trigger] listings[w]);
            let f = entries[p].files[k];
            assert(entries[p].files.contains(f));
            lemma_yaml_sorted_contains(listings[w].files, f);
            let k2 = choose|k2: int|
                0 <= k2 < listings[w].files.len() && #[trigger] listings[w].files[k2] == f;
            assert(yaml_source(listings, root, x, w, k2));
        }
        if exists|i: int, k: int| #[trigger] yaml_source(listings, root, x, i, k) {
            let (i, k) = choose|i: int, k: int| #[trigger] yaml_source(listings, root, x, i, k);
            let f = listings[i].files[k];
            assert(entries.contains(scanned(listings[i])));
            let p = choose|p: int| 0 <= p < entries.len() && #[trigger] entries[p] == scanned(listings[i]);
            lemma_yaml_sorted_contains(listings[i].files, f);
            assert(listings[i].files.contains(f)) by {
                assert(listings[i].files[k] == f);
            }
            assert(entries[p].files.contains(f));
            let k2 = choose|k2: int| 0 <= k2 < entries[p].files.len() && #[trigger] entries[p].files[k2] == f;
            assert(numbered_source(entries, root, x, p, k2));
            assert(numbered_files(entries, root).contains(x));
        }
    }
}

/// Filtering keeps multiset equality: two listings of the same files in
/// any orders keep the same files after the filter.
proof fn lemma_filter_multiset(s1: Seq<Seq<char>>, s2: Seq<Seq<char>>, pred: spec_fn(Seq<char>) -> bool)
    requires
        s1.to_multiset() == s2.to_multiset(),
    ensures
        s1.filter(pred).to_multiset() == s2.filter(pred).to_multiset(),
    decreases s1.len(),
{
    broadcast use vstd::multiset::group_multiset_axioms;
    broadcast use vstd::seq_lib::group_to_multiset_ensures;

    reveal_with_fuel(Seq::filter, 2);
    if s1.len() == 0 {
        assert(s1.to_multiset().len() == s1.len());
        assert(s2.to_multiset().len() == s2.len());
        assert(s2.len() == 0);
        assert(s1.filter(pred) =~= Seq::<Seq<char>>::empty());
        assert(s2.filter(pred) =~= Seq::<Seq<char>>::empty());
    } else {
        let x = s1.last();
        let s1p = s1.drop_last();
        assert(s1 =~= s1p.push(x));
        assert(s1.to_multiset() == s1p.push(x).to_multiset());
        assert(s1p.push(x).to_multiset() =~= s1p.to_multiset().insert(x));
        assert(s1.to_multiset().contains(x));
        assert(s2.to_multiset().contains(x));
        assert(s2.contains(x));
        let i = choose|i: int| 0 <= i < s2.len() && #[trigger] s2[i] == x;
        let s2p = s2.remove(i);
        assert(s2p.to_multiset() == s2.to_multiset().remove(x));
        assert(s1p.to_multiset() =~= s2p.to_multiset());
        lemma_filter_multiset(s1p, s2p, pred);
        let t1 = s2.subrange(0, i);
        let t2 = s2.subrange(i + 1, s2.len() as int);
        assert(s2 =~= t1 + (seq![x] + t2));
        assert(s2p =~= t1 + t2);
        Seq::filter_distributes_over_add(t1, seq![x] + t2, pred);
        Seq::filter_distributes_over_add(seq![x], t2, pred);
        Seq::filter_distributes_over_add(t1, t2, pred);
        assert(s2.filter(pred) == t1.filter(pred) + (seq![x].filter(pred) + t2.filter(pred)));
        assert(s2p.filter(pred) == t1.filter(pred) + t2.filter(pred));
        assert(seq![x].drop_last() =~= Seq::<Seq<char>>::empty());
        assert(seq![x].filter(pred) == if pred(x) {
            seq![x]
        } else {
            Seq::<Seq<char>>::empty()
        });
        if pred(x) {
            assert(s1.filter(pred) == s1p.filter(pred).push(x));
            assert(s1.filter(pred).to_multiset() =~= s1p.filter(pred).to_multiset().insert(x));
            vstd::seq_lib::lemma_multiset_commutative(
                t1.filter(pred),
                seq![x].filter(pred) + t2.filter(pred),
            );
            vstd::seq_lib::lemma_multiset_commutative(seq![x].filter(pred), t2.filter(pred));
            vstd::seq_lib::lemma_multiset_commutative(t1.filter(pred), t2.filter(pred));
            assert(seq![x].to_multiset() =~= Multiset::<Seq<char>>::empty().insert(x)) by {
                assert(seq![x] =~= Seq::<Seq<char>>::empty().push(x));
                assert(Seq::<Seq<char>>::empty().to_multiset().len() == 0);
                assert(Seq::<Seq<char>>::empty().to_multiset() =~= Multiset::<Seq<char>>::empty());
            }
            assert(s2.filter(pred).to_multiset() =~= s1.filter(pred).to_multiset());
        } else {
            assert(s1.filter(pred) == s1p.filter(pred));
            assert(seq![x].filter(pred) + t2.filter(pred) =~= t2.filter(pred));
            assert(s2.filter(pred) =~= s2p.filter(pred));
        }
    }
}

/// Two directory records over the same directory and the same files — in
/// whatever order each walk returned them — scan to the same record.
pub proof fn lemma_scanned_same(a: DirEntryView, b: DirEntryView)
    requires
        a.dir == b.dir,
        a.files.to_multiset() == b.files.to_multiset(),
    ensures
        scanned(a) == scanned(b),
{
    broadcast use vstd::multiset::group_multiset_axioms;
    broadcast use vstd::seq_lib::group_to_multiset_ensures;

    lemma_lex_total_ordering();
    lemma_filter_multiset(a.files, b.files, yaml_pred());
    let fa = a.files.filter(yaml_pred());
    let fb = b.files.filter(yaml_pred());
    fa.lemma_sort_by_ensures(lex_leq_fn());
    fb.lemma_sort_by_ensures(lex_leq_fn());
    vstd::seq_lib::lemma_sorted_unique(
        fa.sort_by(lex_leq_fn()),
        fb.sort_by(lex_leq_fn()),
        lex_leq_fn(),
    );
    assert(yaml_sorted(a.files) == yaml_sorted(b.files));
}

/// Strictly sorted record sequences with the same members are equal.
proof fn lemma_sorted_records_unique(e1: Seq<DirEntryView>, e2: Seq<DirEntryView>)
    requires
        entries_sorted(e1),
        entries_sorted(e2),
        forall|x: DirEntryView| #[trigger] e1.contains(x) <==> #[trigger] e2.contains(x),
    ensures
        e1 == e2,
    decreases e1.len(),
{
    if e1.len() == 0 {
        if e2.len() > 0 {
            assert(e2.contains(e2[0]));
            assert(e1.contains(e2[0]));
            assert(false);
        }
        assert(e1 =~= e2);
    } else if e2.len() == 0 {
        assert(e1.contains(e1[0]));
        assert(e2.contains(e1[0]));
        assert(false);
    } else {
        assert(e1.contains(e1[0]));
        assert(e2.contains(e1[0]));
        let j = choose|j: int| 0 <= j < e2.len() && #[trigger] e2[j] == e1[0];
        if j > 0 {
            assert(e2.contains(e2[0]));
            assert(e1.contains(e2[0]));
            let m = choose|m: int| 0 <= m < e1.len() && #[trigger] e1[m] == e2[0];
            assert(lex_leq(e2[0].dir, e2[j].dir) && e2[0].dir != e2[j].dir);
            if m > 0 {
                assert(lex_leq(e1[0].dir, e1[m].dir));
                lemma_lex_antisym(e1[0].dir, e2[0].dir);
                assert(false);
            } else {
                assert(false);
            }
        }
        assert(e1[0] == e2[0]);
        let r1 = e1.drop_first();
        let r2 = e2.drop_first();
        assert(entries_sorted(r1)) by {
            assert forall|p: int, q: int|
                #![trigger r1[p], r1[q]]
                0 <= p < q < r1.len() implies lex_leq(r1[p].dir, r1[q].dir) && r1[p].dir
                != r1[q].dir by {
                assert(r1[p] == e1[p + 1]);
                assert(r1[q] == e1[q + 1]);
            }
        }
        assert(entries_sorted(r2)) by {
            assert forall|p: int, q: int|
                #![trigger r2[p], r2[q]]
                0 <= p < q < r2.len() implies lex_leq(r2[p].dir, r2[q].dir) && r2[p].dir
                != r2[q].dir by {
                assert(r2[p] == e2[p + 1]);
                assert(r2[q] == e2[q + 1]);
            }
        }
        assert forall|x: DirEntryView| #[trigger] r1.contains(x) <==> #[trigger] r2.contains(
            x,
        ) by {
            if r1.contains(x) {
                let p = choose|p: int| 0 <= p < r1.len() && #[trigger] r1[p] == x;
                assert(e1[p + 1] == x);
                assert(e1.contains(x));
                assert(x.dir != e1[0].dir);
                assert(e2.contains(x));
                let q = choose|q: int| 0 <= q < e2.len() && #[trigger] e2[q] == x;
                assert(q != 0);
                assert(r2[q - 1] == x);
                assert(r2.contains(x));
            }
            if r2.contains(x) {
                let p = choose|p: int| 0 <= p < r2.len() && #[trigger] r2[p] == x;
                assert(e2[p + 1] == x);
                assert(e2.contains(x));
                assert(x.dir != e2[0].dir);
                assert(e1.contains(x));
                let q = choose|q: int| 0 <= q < e1.len() && #[trigger] e1[q] == x;
                assert(q != 0);
                assert(r1[q - 1] == x);
                assert(r1.contains(x));
            }
        }
        lemma_sorted_records_unique(r1, r2);
        assert(e1 =~= e2) by {
            assert forall|p: int| 0 <= p < e1.len() implies e1[p] == e2[p] by {
                if p > 0 {
                    assert(r1[p - 1] == r2[p - 1]);
                }
            }
        }
    }
}

/// Whether some listing records the directory of `l` with the same files,
/// in whatever order.
pub open spec fn tree_has(listings: Seq<DirEntryView>, l: DirEntryView) -> bool {
    exists|j: int|
        0 <= j < listings.len() && (#[trigger] listings[j]).dir == l.dir
            && listings[j].files.to_multiset() == l.files.to_multiset()
}

/// Numbering is stable and reproducible: two walks over an unchanged tree
/// — however they order the directories and the entries within each —
/// produce the same records, and with them the same numbered list and the
/// same printed lines.
pub proof fn lemma_numbering_stable(
    l1: Seq<DirEntryView>,
    l2: Seq<DirEntryView>,
    e1: Seq<DirEntryView>,
    e2: Seq<DirEntryView>,
    root: Seq<char>,
)
    requires
        entries_sorted(e1),
        entries_sorted(e2),
        forall|e: DirEntryView|
            #[trigger] e1.contains(e) <==> exists|i: int|
                0 <= i < l1.len() && e == scanned(#[trigger] l1[i]),
        forall|e: DirEntryView|
            #[trigger] e2.contains(e) <==> exists|i: int|
                0 <= i < l2.len() && e == scanned(#[trigger] l2[i]),
        forall|i: int| 0 <= i < l1.len() ==> tree_has(l2, #[trigger] l1[i]),
        forall|i: int| 0 <= i < l2.len() ==> tree_has(l1, #[trigger] l2[i]),
    ensures
        e1 == e2,
        numbered_files(e1, root) == numbered_files(e2, root),
        present_lines(e1, root, 1) == present_lines(e2, root, 1),
{
    assert forall|x: DirEntryView| #[trigger] e1.contains(x) <==> #[trigger] e2.contains(x) by {
        if e1.contains(x) {
            let i = choose|i: int| 0 <= i < l1.len() && x == scanned(#[trigger] l1[i]);
            assert(tree_has(l2, l1[i]));
            let j = choose|j: int|
                0 <= j < l2.len() && (#[trigger] l2[j]).dir == l1[i].dir
                    && l2[j].files.to_multiset() == l1[i].files.to_multiset();
            lemma_scanned_same(l1[i], l2[j]);
            assert(x == scanned(l2[j]));
            assert(e2.contains(x));
        }
        if e2.contains(x) {
            let i = choose|i: int| 0 <= i < l2.len() && x == scanned(#[trigger] l2[i]);
            assert(tree_has(l1, l2[i]));
            let j = choose|j: int|
                0 <= j < l1.len() && (#[trigger] l1[j]).dir == l2[i].dir
                    && l1[j].files.to_multiset() == l2[i].files.to_multiset();
            lemma_scanned_same(l2[i], l1[j]);
            assert(x == scanned(l1[j]));
            assert(e1.contains(x));
        }
    }
    lemma_sorted_records_unique(e1, e2);
}

} // verus!
