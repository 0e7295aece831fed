use vstd::prelude::*;

verus! {

use crate::order::lex_leq;
use crate::order::lex_leq_fn;
use crate::order::lemma_lex_connected;
use crate::order::lemma_lex_total_ordering;
use crate::order::lemma_lex_trans;
use crate::order::sort_strings;
use crate::order::str_lex_leq;
use crate::text::has_yaml_ext;
use crate::text::has_yaml_ext_str;
use vstd::seq_lib::lemma_sorted_unique;
use vstd::seq_lib::to_multiset_insert;

/// The raw listing of one directory: the directory's path and the paths of
/// the regular files that lie directly in it, in no particular order.
pub struct DirListing {
    pub dir: String,
    pub files: Vec<String>,
}

/// The abstract content of one directory record: a directory path and an
/// ordered sequence of file paths.
pub ghost struct DirEntryView {
    pub dir: Seq<char>,
    pub files: Seq<Seq<char>>,
}

impl View for DirListing {
    type V = DirEntryView;

    open spec fn view(&self) -> DirEntryView {
        DirEntryView { dir: self.dir@, files: self.files.deep_view() }
    }
}

/// One record of the directory-to-files mapping: a directory and its
/// matching files, sorted lexicographically.
pub struct DirEntry {
    pub dir: String,
    pub files: Vec<String>,
}

impl View for DirEntry {
    type V = DirEntryView;

    open spec fn view(&self) -> DirEntryView {
        DirEntryView { dir: self.dir@, files: self.files.deep_view() }
    }
}

/// The mapping from each scanned directory to its matching files, held as
/// records sorted by directory path.
pub struct DirectoryFileMap {
    pub entries: Vec<DirEntry>,
}

pub open spec fn views_of(s: Seq<DirEntry>) -> Seq<DirEntryView> {
    s.map_values(|e: DirEntry| e@)
}

impl View for DirectoryFileMap {
    type V = Seq<DirEntryView>;

    open spec fn view(&self) -> Seq<DirEntryView> {
        views_of(self.entries@)
    }
}

/// Records are strictly ordered by directory path: sorted, with no
/// directory occurring twice.
pub open spec fn entries_sorted(s: Seq<DirEntryView>) -> bool {
    forall|i: int, j: int|
        #![trigger s[i], s[j]]
        0 <= i < j < s.len() ==> lex_leq(s[i].dir, s[j].dir) && s[i].dir != s[j].dir
}

impl DirectoryFileMap {
    /// The map is well formed when its records are strictly sorted by
    /// directory path.
    pub open spec fn wf(&self) -> bool {
        entries_sorted(self@)
    }
}

/// The file-name predicate of the scan: a `yaml` extension.
pub open spec fn yaml_pred() -> spec_fn(Seq<char>) -> bool {
    |f: Seq<char>| has_yaml_ext(f)
}

/// The matching files of one raw directory listing, in lexicographic order.
pub open spec fn yaml_sorted(files: Seq<Seq<char>>) -> Seq<Seq<char>> {
    files.filter(yaml_pred()).sort_by(lex_leq_fn())
}

/// What the scan makes of one raw directory listing.
pub open spec fn scanned(l: DirEntryView) -> DirEntryView {
    DirEntryView { dir: l.dir, files: yaml_sorted(l.files) }
}

/// Keeps the files with the `yaml` extension, sorted lexicographically.
pub fn yaml_files_of(files: &Vec<String>) -> (r: Vec<String>)
    ensures
        r.deep_view() == yaml_sorted(files.deep_view()),
{
    let ghost d = files.deep_view();
    let mut filtered: Vec<String> = Vec::new();
    let mut i: usize = 0;
    proof {
        assert(filtered.deep_view() =~= d.take(0).filter(yaml_pred()));
    }
    while i < files.len()
        invariant
            i <= files.len(),
            d == files.deep_view(),
            filtered.deep_view() == d.take(i as int).filter(yaml_pred()),
        decreases files.len() - i,
    {
        let keep = has_yaml_ext_str(files[i].as_str());
        proof {
            assert(d[i as int] == files@[i as int]@);
        }
        let ghost before = filtered.deep_view();
        if keep {
            filtered.push(files[i].clone());
            proof {
                assert(filtered.deep_view() =~= before.push(d[i as int]));
            }
        }
        proof {
            reveal_with_fuel(Seq::filter, 2);
            let p = yaml_pred();
            let t = d.take(i + 1);
            assert(t.drop_last() =~= d.take(i as int));
            assert(t.last() == d[i as int]);
            assert(t.len() == i + 1);
            assert(t.filter(p) == if p(t.last()) {
                t.drop_last().filter(p).push(t.last())
            } else {
                t.drop_last().filter(p)
            });
            assert(filtered.deep_view() =~= t.filter(p));
        }
        i = i + 1;
    }
    proof {
        assert(d.take(files.len() as int) =~= d);
    }
    let r = sort_strings(&filtered);
    proof {
        lemma_lex_total_ordering();
        let fil = d.filter(yaml_pred());
        fil.lemma_sort_by_ensures(lex_leq_fn());
        lemma_sorted_unique(r.deep_view(), fil.sort_by(lex_leq_fn()), lex_leq_fn());
        assert(r.deep_view() == yaml_sorted(d));
    }
    r
}

/// Inserting a record whose directory respects the order and occurs
/// nowhere yet keeps the records strictly sorted.
proof fn lemma_entries_sorted_insert(s: Seq<DirEntryView>, j: int, e: DirEntryView)
    requires
        entries_sorted(s),
        0 <= j <= s.len(),
        forall|k: int| 0 <= k < j ==> lex_leq((#[trigger] s[k]).dir, e.dir),
        j < s.len() ==> lex_leq(e.dir, s[j].dir),
        forall|k: int| 0 <= k < s.len() ==> (#[trigger] s[k]).dir != e.dir,
    ensures
        entries_sorted(s.insert(j, e)),
{
    s.insert_ensures(j, e);
    let n = s.insert(j, e);
    assert forall|p: int, q: int|
        #![trigger n[p], n[q]]
        0 <= p < q < n.len() implies lex_leq(n[p].dir, n[q].dir) && n[p].dir != n[q].dir by {
        if q < j {
            assert(n[p] == s[p] && n[q] == s[q]);
        } else if p > j {
            assert(n[p] == s[p - 1] && n[q] == s[q - 1]);
        } else if p < j && q == j {
            assert(n[p] == s[p] && n[q] == e);
        } else if p == j {
            assert(n[p] == e && n[q] == s[q - 1]);
            if q - 1 > j {
                lemma_lex_trans(e.dir, s[j].dir, s[q - 1].dir);
            }
        } else {
            assert(n[p] == s[p] && n[q] == s[q - 1]);
        }
    }
}

/// Inserts a record for a directory not yet present, keeping the records
/// strictly sorted by directory path.
fn insert_entry(entries: &mut Vec<DirEntry>, e: DirEntry)
    requires
        entries_sorted(views_of(old(entries)@)),
        forall|k: int|
            0 <= k < old(entries)@.len() ==> (#[trigger] views_of(old(entries)@)[k]).dir != e@.dir,
    ensures
        entries_sorted(views_of(final(entries)@)),
        final(entries)@.len() == old(entries)@.len() + 1,
        forall|x: DirEntryView|
            #[trigger] views_of(final(entries)@).contains(x) <==> views_of(
                old(entries)@,
            ).contains(x) || x == e@,
{
    let ghost s = views_of(old(entries)@);
    let mut j: usize = 0;
    loop
        invariant
            j <= entries.len(),
            entries@ == old(entries)@,
            s == views_of(entries@),
            forall|k: int| 0 <= k < j ==> lex_leq((#[trigger] s[k]).dir, e@.dir),
        ensures
            j <= entries.len(),
            entries@ == old(entries)@,
            forall|k: int| 0 <= k < j ==> lex_leq((#[trigger] s[k]).dir, e@.dir),
            j < entries@.len() ==> !lex_leq(s[j as int].dir, e@.dir),
        decreases entries.len() - j,
    {
        if j == entries.len() {
            break ;
        }
        let le = str_lex_leq(entries[j].dir.as_str(), e.dir.as_str());
        proof {
            assert(s[j as int].dir == entries@[j as int].dir@);
        }
        if le {
            j = j + 1;
        } else {
            break ;
        }
    }
    let ghost jj = j as int;
    proof {
        if jj < s.len() {
            lemma_lex_connected(s[jj].dir, e@.dir);
        }
        lemma_entries_sorted_insert(s, jj, e@);
        to_multiset_insert(s, jj, e@);
    }
    let ghost vold = entries@;
    let ghost ev = e@;
    entries.insert(j, e);
    proof {
        vold.insert_ensures(jj, e);
        s.insert_ensures(jj, ev);
        let n = views_of(entries@);
        assert forall|k: int| 0 <= k < n.len() implies n[k] == s.insert(jj, ev)[k] by {
            assert(n[k] == entries@[k]@);
            if k < jj {
                assert(entries@[k] == vold[k]);
            } else if k > jj {
                assert(entries@[k] == vold[k - 1]);
            }
        }
        assert(n =~= s.insert(jj, ev));
        assert forall|x: DirEntryView| #[trigger] n.contains(x) implies s.contains(x) || x
            == ev by {
            let k = choose|k: int| 0 <= k < n.len() && n[k] == x;
            if k < jj {
                assert(s[k] == x);
            } else if k > jj {
                assert(s[k - 1] == x);
            }
        }
        assert forall|x: DirEntryView| s.contains(x) || x == ev implies #[trigger] n.contains(
            x,
        ) by {
            if s.contains(x) {
                let k = choose|k: int| 0 <= k < s.len() && s[k] == x;
                if k < jj {
                    assert(n[k] == x);
                } else {
                    assert(n[k + 1] == x);
                }
            } else {
                assert(n[jj] == x);
            }
        }
    }
}

/// Builds the directory-to-files mapping from the raw listings of all
/// scanned directories: each record keeps the files with the `yaml`
/// extension, sorted, and the records are strictly sorted by directory.
pub fn get_yaml_files(listings: &Vec<DirListing>) -> (m: DirectoryFileMap)
    requires
        forall|i: int, j: int|
            #![trigger listings@[i], listings@[j]]
            0 <= i < j < listings@.len() ==> listings@[i].dir@ != listings@[j].dir@,
    ensures
        m.wf(),
        m@.len() == listings@.len(),
        forall|e: DirEntryView|
            #[trigger] m@.contains(e) <==> exists|i: int|
                0 <= i < listings@.len() && e == scanned(#[trigger] listings@[i]@),
{
    let mut entries: Vec<DirEntry> = Vec::new();
    let mut i: usize = 0;
    proof {
        assert(views_of(entries@) =~= Seq::<DirEntryView>::empty());
    }
    while i < listings.len()
        invariant
            i <= listings.len(),
            forall|p: int, q: int|
                #![trigger listings@[p], listings@[q]]
                0 <= p < q < listings@.len() ==> listings@[p].dir@ != listings@[q].dir@,
            entries_sorted(views_of(entries@)),
            entries@.len() == i,
            forall|e: DirEntryView|
                #[trigger] views_of(entries@).contains(e) <==> exists|k: int|
                    0 <= k < i && e == scanned(#[trigger] listings@[k]@),
        decreases listings.len() - i,
    {
        let l = &listings[i];
        let files = yaml_files_of(&l.files);
        let e = DirEntry { dir: l.dir.clone(), files };
        proof {
            assert(e@ == scanned(listings@[i as int]@));
            let cur = views_of(entries@);
            assert forall|k: int| 0 <= k < entries@.len() implies (#[trigger] cur[k]).dir
                != e@.dir by {
                assert(cur.contains(cur[k]));
                let w = choose|w: int| 0 <= w < i && cur[k] == scanned(listings@[w]@);
                assert(listings@[w].dir@ != listings@[i as int].dir@);
            }
        }
        let ghost prev = views_of(entries@);
        insert_entry(&mut entries, e);
        proof {
            assert forall|x: DirEntryView| #[trigger] views_of(entries@).contains(x) implies (
            exists|k: int| 0 <= k < i + 1 && x == scanned(#[trigger] listings@[k]@)) by {
                if prev.contains(x) {
                    let k = choose|k: int| 0 <= k < i && x == scanned(listings@[k]@);
                    assert(x == scanned(listings@[k]@));
                } else {
                    assert(x == scanned(listings@[i as int]@));
                }
            }
            assert forall|x: DirEntryView|
                (exists|k: int| 0 <= k < i + 1 && x == scanned(#[trigger] listings@[k]@)) implies #[trigger] views_of(
                entries@,
            ).contains(x) by {
                let k = choose|k: int| 0 <= k < i + 1 && x == scanned(listings@[k]@);
                if k < i {
                    assert(prev.contains(x));
                }
            }
        }
        i = i + 1;
    }
    let m = DirectoryFileMap { entries };
    m
}

/// Returns the map's records as a vector ordered lexicographically by
/// directory path; since the map keeps its records in that order, this is
/// a copy of them.
pub fn sorted_directories(m: &DirectoryFileMap) -> (v: Vec<DirEntry>)
    ensures
        views_of(v@) == m@,
        m.wf() ==> entries_sorted(views_of(v@)),
{
    let mut v: Vec<DirEntry> = Vec::new();
    let mut i: usize = 0;
    proof {
        assert(views_of(v@) =~= m@.take(0));
    }
    while i < m.entries.len()
        invariant
            i <= m.entries.len(),
            views_of(v@) == m@.take(i as int),
        decreases m.entries.len() - i,
    {
        let e = &m.entries[i];
        let files = e.files.clone();
        proof {
            assert(files@ =~= e.files@);
        }
        let copy = DirEntry { dir: e.dir.clone(), files };
        proof {
            assert(copy@ == m@[i as int]) by {
                assert(copy.files.deep_view() =~= e.files.deep_view());
            }
        }
        let ghost before = views_of(v@);
        v.push(copy);
        proof {
            assert(views_of(v@) =~= before.push(copy@));
            assert(views_of(v@) =~= m@.take(i + 1));
        }
        i = i + 1;
    }
    proof {
        assert(m@.take(m.entries@.len() as int) =~= m@);
    }
    v
}

} // verus!
