use vstd::prelude::*;

verus! {

use crate::ansi::PaintColour;
use crate::ansi::paint;
use crate::ansi::painted;
use crate::scan::DirEntryView;
use crate::scan::DirectoryFileMap;
use crate::text::dec_rep;
use crate::text::dec_str;
use crate::text::rel_of;
use crate::text::rel_str;
use crate::text::stem_of;
use crate::text::stem_str;
use crate::text::under_root;
use vstd::string::StringExecFns;

/// The files of one record, each made relative to the scan root.
pub open spec fn rels_of(root: Seq<char>, files: Seq<Seq<char>>) -> Seq<Seq<char>> {
    files.map_values(|f: Seq<char>| rel_of(root, f))
}

/// The numbered list: the relative paths of all files, in record order;
/// the displayed index of a file is its position here plus one.
pub open spec fn numbered_files(entries: Seq<DirEntryView>, root: Seq<char>) -> Seq<Seq<char>>
    decreases entries.len(),
{
    if entries.len() == 0 {
        Seq::empty()
    } else {
        rels_of(root, entries[0].files) + numbered_files(entries.drop_first(), root)
    }
}

/// The printed line of one file: its running number and its display label
/// (the file name without extension) painted yellow.
pub open spec fn line_for(num: nat, root: Seq<char>, f: Seq<char>) -> Seq<char> {
    seq![' '] + dec_rep(num) + seq!['.', ' '] + painted(
        PaintColour::Yellow,
        stem_of(rel_of(root, f)),
    )
}

/// The printed lines of a record's files, numbering from `start`.
pub open spec fn file_lines(files: Seq<Seq<char>>, root: Seq<char>, start: nat) -> Seq<Seq<char>>
    decreases files.len(),
{
    if files.len() == 0 {
        Seq::empty()
    } else {
        seq![line_for(start, root, files[0])] + file_lines(files.drop_first(), root, start + 1)
    }
}

/// The printed lines of one record: the directory path as a header, one
/// line per file, then a blank line; a record without files prints nothing.
pub open spec fn header_lines(e: DirEntryView, root: Seq<char>, start: nat) -> Seq<Seq<char>> {
    if e.files.len() == 0 {
        Seq::empty()
    } else {
        seq![e.dir] + file_lines(e.files, root, start) + seq![Seq::<char>::empty()]
    }
}

/// Every printed line of the listing, numbering files from `start`.
pub open spec fn present_lines(entries: Seq<DirEntryView>, root: Seq<char>, start: nat) -> Seq<
    Seq<char>,
>
    decreases entries.len(),
{
    if entries.len() == 0 {
        Seq::empty()
    } else {
        header_lines(entries[0], root, start) + present_lines(
            entries.drop_first(),
            root,
            start + entries[0].files.len(),
        )
    }
}

pub proof fn lemma_numbered_snoc(s: Seq<DirEntryView>, e: DirEntryView, root: Seq<char>)
    ensures
        numbered_files(s.push(e), root) == numbered_files(s, root) + rels_of(root, e.files),
    decreases s.len(),
{
    if s.len() == 0 {
        let p = s.push(e);
        assert(p.drop_first() =~= Seq::<DirEntryView>::empty());
        assert(p[0] == e);
        assert(numbered_files(p.drop_first(), root) =~= Seq::<Seq<char>>::empty());
        assert(numbered_files(p, root) == rels_of(root, p[0].files) + numbered_files(
            p.drop_first(),
            root,
        ));
        assert(numbered_files(s, root) =~= Seq::<Seq<char>>::empty());
        assert(numbered_files(s.push(e), root) =~= numbered_files(s, root) + rels_of(
            root,
            e.files,
        ));
    } else {
        assert(s.push(e).drop_first() =~= s.drop_first().push(e));
        assert(s.push(e)[0] == s[0]);
        lemma_numbered_snoc(s.drop_first(), e, root);
        assert(numbered_files(s.push(e), root) =~= numbered_files(s, root) + rels_of(
            root,
            e.files,
        ));
    }
}

pub proof fn lemma_present_snoc(s: Seq<DirEntryView>, e: DirEntryView, root: Seq<char>, start: nat)
    ensures
        present_lines(s.push(e), root, start) == present_lines(s, root, start) + header_lines(
            e,
            root,
            (start + numbered_files(s, root).len()) as nat,
        ),
    decreases s.len(),
{
    if s.len() == 0 {
        let p = s.push(e);
        assert(p.drop_first() =~= Seq::<DirEntryView>::empty());
        assert(p[0] == e);
        assert(present_lines(p.drop_first(), root, (start + e.files.len()) as nat) =~= Seq::<
            Seq<char>,
        >::empty());
        assert(present_lines(p, root, start) == header_lines(p[0], root, start) + present_lines(
            p.drop_first(),
            root,
            start + p[0].files.len(),
        ));
        assert(numbered_files(s, root) =~= Seq::<Seq<char>>::empty());
        assert(present_lines(s, root, start) =~= Seq::<Seq<char>>::empty());
        assert(present_lines(s.push(e), root, start) =~= present_lines(s, root, start)
            + header_lines(e, root, (start + numbered_files(s, root).len()) as nat));
    } else {
        assert(s.push(e).drop_first() =~= s.drop_first().push(e));
        assert(s.push(e)[0] == s[0]);
        lemma_present_snoc(s.drop_first(), e, root, (start + s[0].files.len()) as nat);
        assert(numbered_files(s, root).len() == s[0].files.len() + numbered_files(
            s.drop_first(),
            root,
        ).len());
        assert(present_lines(s.push(e), root, start) =~= present_lines(s, root, start)
            + header_lines(e, root, (start + numbered_files(s, root).len()) as nat));
    }
}

pub proof fn lemma_file_lines_snoc(files: Seq<Seq<char>>, f: Seq<char>, root: Seq<char>, start: nat)
    ensures
        file_lines(files.push(f), root, start) == file_lines(files, root, start).push(
            line_for((start + files.len()) as nat, root, f),
        ),
    decreases files.len(),
{
    if files.len() == 0 {
        let p = files.push(f);
        assert(p.drop_first() =~= Seq::<Seq<char>>::empty());
        assert(p[0] == f);
        assert(file_lines(p.drop_first(), root, (start + 1) as nat) =~= Seq::<Seq<char>>::empty());
        assert(file_lines(p, root, start) == seq![line_for(start, root, p[0])] + file_lines(
            p.drop_first(),
            root,
            start + 1,
        ));
        assert(file_lines(files, root, start) =~= Seq::<Seq<char>>::empty());
        assert(file_lines(files.push(f), root, start) =~= file_lines(files, root, start).push(
            line_for((start + files.len()) as nat, root, f),
        ));
    } else {
        assert(files.push(f).drop_first() =~= files.drop_first().push(f));
        assert(files.push(f)[0] == files[0]);
        lemma_file_lines_snoc(files.drop_first(), f, root, (start + 1) as nat);
        assert(file_lines(files.push(f), root, start) =~= file_lines(files, root, start).push(
            line_for((start + files.len()) as nat, root, f),
        ));
    }
}

/// The numbered list splits at any record boundary.
pub proof fn lemma_numbered_take_skip(s: Seq<DirEntryView>, root: Seq<char>, i: int)
    requires
        0 <= i <= s.len(),
    ensures
        numbered_files(s, root) == numbered_files(s.take(i), root) + numbered_files(
            s.skip(i),
            root,
        ),
    decreases i,
{
    if i == 0 {
        assert(s.take(0) =~= Seq::<DirEntryView>::empty());
        assert(s.skip(0) =~= s);
        assert(numbered_files(s, root) =~= numbered_files(s.take(0), root) + numbered_files(
            s.skip(0),
            root,
        ));
    } else {
        lemma_numbered_take_skip(s.drop_first(), root, i - 1);
        assert(s.take(i).drop_first() =~= s.drop_first().take(i - 1));
        assert(s.skip(i) =~= s.drop_first().skip(i - 1));
        assert(s.take(i)[0] == s[0]);
        assert(numbered_files(s, root) =~= numbered_files(s.take(i), root) + numbered_files(
            s.skip(i),
            root,
        ));
    }
}

/// Walks the map's records in their (sorted) order and produces both the
/// lines to print for the operator and the numbered list of relative paths
/// that the printed numbers refer to.
pub fn list_yaml_files(m: &DirectoryFileMap, root: &str) -> (res: (Vec<String>, Vec<String>))
    requires
        forall|i: int, k: int|
            #![trigger m@[i].files[k]]
            0 <= i < m@.len() && 0 <= k < m@[i].files.len() ==> under_root(root@, m@[i].files[k]),
        numbered_files(m@, root@).len() < usize::MAX,
    ensures
        res.0.deep_view() == present_lines(m@, root@, 1),
        res.1.deep_view() == numbered_files(m@, root@),
{
    let mut lines: Vec<String> = Vec::new();
    let mut all: Vec<String> = Vec::new();
    let mut ei: usize = 0;
    proof {
        assert(m@.take(0) =~= Seq::<DirEntryView>::empty());
        assert(lines.deep_view() =~= present_lines(m@.take(0), root@, 1));
        assert(all.deep_view() =~= numbered_files(m@.take(0), root@));
    }
    while ei < m.entries.len()
        invariant
            ei <= m.entries.len(),
            m@.len() == m.entries@.len(),
            forall|i: int, k: int|
                #![trigger m@[i].files[k]]
                0 <= i < m@.len() && 0 <= k < m@[i].files.len() ==> under_root(
                    root@,
                    m@[i].files[k],
                ),
            numbered_files(m@, root@).len() < usize::MAX,
            lines.deep_view() == present_lines(m@.take(ei as int), root@, 1),
            all.deep_view() == numbered_files(m@.take(ei as int), root@),
        decreases m.entries.len() - ei,
    {
        let ghost base_lines = present_lines(m@.take(ei as int), root@, 1);
        let ghost base_nums = numbered_files(m@.take(ei as int), root@);
        let ghost ev = m@[ei as int];
        let ghost ef = ev.files;
        let e = &m.entries[ei];
        proof {
            assert(e@ == ev);
            lemma_numbered_take_skip(m@, root@, ei as int);
            assert(m@.skip(ei as int)[0] == ev);
            assert(numbered_files(m@.skip(ei as int), root@) == rels_of(root@, ef)
                + numbered_files(m@.skip(ei as int).drop_first(), root@));
            assert(rels_of(root@, ef).len() == ef.len());
            assert(base_nums.len() + ef.len() <= numbered_files(m@, root@).len());
        }
        if e.files.len() > 0 {
            lines.push(e.dir.clone());
            proof {
                assert(lines.deep_view() =~= base_lines.push(ev.dir));
            }
            let mut fi: usize = 0;
            proof {
                assert(ef.take(0) =~= Seq::<Seq<char>>::empty());
                assert(rels_of(root@, ef.take(0)) =~= Seq::<Seq<char>>::empty());
                assert(all.deep_view() =~= base_nums + rels_of(root@, ef.take(0)));
                assert(file_lines(ef.take(0), root@, (base_nums.len() + 1) as nat) =~= Seq::<
                    Seq<char>,
                >::empty());
                assert(lines.deep_view() =~= base_lines + seq![ev.dir] + file_lines(
                    ef.take(0),
                    root@,
                    (base_nums.len() + 1) as nat,
                ));
            }
            while fi < e.files.len()
                invariant
                    fi <= e.files.len(),
                    e == &m.entries@[ei as int],
                    0 <= ei < m@.len(),
                    ev == m@[ei as int],
                    ef == ev.files,
                    ef.len() == e.files@.len(),
                    m@.len() == m.entries@.len(),
                    forall|i: int, k: int|
                        #![trigger m@[i].files[k]]
                        0 <= i < m@.len() && 0 <= k < m@[i].files.len() ==> under_root(
                            root@,
                            m@[i].files[k],
                        ),
                    base_nums.len() + ef.len() <= numbered_files(m@, root@).len(),
                    numbered_files(m@, root@).len() < usize::MAX,
                    base_nums == numbered_files(m@.take(ei as int), root@),
                    base_lines == present_lines(m@.take(ei as int), root@, 1),
                    all.deep_view() == base_nums + rels_of(root@, ef.take(fi as int)),
                    lines.deep_view() == base_lines + seq![ev.dir] + file_lines(
                        ef.take(fi as int),
                        root@,
                        (base_nums.len() + 1) as nat,
                    ),
                decreases e.files.len() - fi,
            {
                let f = &e.files[fi];
                proof {
                    assert(f@ == ef[fi as int]);
                    assert(under_root(root@, ef[fi as int]));
                    assert(all.deep_view().len() == base_nums.len() + fi);
                }
                let rel = rel_str(root, f.as_str());
                let stem = stem_str(rel.as_str());
                let coloured = paint(PaintColour::Yellow, stem.as_str());
                let num: usize = all.len() + 1;
                let mut line: String = " ".to_owned();
                let numstr = dec_str(num);
                line.append(numstr.as_str());
                line.append(". ");
                line.append(coloured.as_str());
                proof {
                    reveal_strlit(" ");
                    reveal_strlit(". ");
                    assert(" "@ =~= seq![' ']);
                    assert(". "@ =~= seq!['.', ' ']);
                    assert(line@ =~= line_for(num as nat, root@, ef[fi as int]));
                }
                let ghost lines_before = lines.deep_view();
                let ghost all_before = all.deep_view();
                lines.push(line);
                all.push(rel);
                proof {
                    assert(lines.deep_view() =~= lines_before.push(
                        line_for(num as nat, root@, ef[fi as int]),
                    ));
                    assert(all.deep_view() =~= all_before.push(rel_of(root@, ef[fi as int])));
                    assert(ef.take(fi + 1) =~= ef.take(fi as int).push(ef[fi as int]));
                    assert(rels_of(root@, ef.take(fi + 1)) =~= rels_of(
                        root@,
                        ef.take(fi as int),
                    ).push(rel_of(root@, ef[fi as int])));
                    assert(all.deep_view() =~= base_nums + rels_of(root@, ef.take(fi + 1)));
                    lemma_file_lines_snoc(
                        ef.take(fi as int),
                        ef[fi as int],
                        root@,
                        (base_nums.len() + 1) as nat,
                    );
                    assert(lines.deep_view() =~= base_lines + seq![ev.dir] + file_lines(
                        ef.take(fi + 1),
                        root@,
                        (base_nums.len() + 1) as nat,
                    ));
                }
                fi = fi + 1;
            }
            lines.push(String::new());
            proof {
                assert(ef.take(ef.len() as int) =~= ef);
                assert(lines.deep_view() =~= base_lines + seq![ev.dir] + file_lines(
                    ef,
                    root@,
                    (base_nums.len() + 1) as nat,
                ) + seq![Seq::<char>::empty()]);
                assert(header_lines(ev, root@, (base_nums.len() + 1) as nat) == seq![ev.dir]
                    + file_lines(ef, root@, (base_nums.len() + 1) as nat) + seq![
                    Seq::<char>::empty(),
                ]);
                assert(lines.deep_view() =~= base_lines + header_lines(
                    ev,
                    root@,
                    (base_nums.len() + 1) as nat,
                ));
                assert(all.deep_view() =~= base_nums + rels_of(root@, ef));
            }
        } else {
            proof {
                assert(ef.len() == 0);
                assert(header_lines(ev, root@, (base_nums.len() + 1) as nat) =~= Seq::<
                    Seq<char>,
                >::empty());
                assert(rels_of(root@, ef) =~= Seq::<Seq<char>>::empty());
                assert(lines.deep_view() =~= base_lines + header_lines(
                    ev,
                    root@,
                    (base_nums.len() + 1) as nat,
                ));
                assert(all.deep_view() =~= base_nums + rels_of(root@, ef));
            }
        }
        proof {
            assert(m@.take(ei + 1) =~= m@.take(ei as int).push(ev));
            lemma_present_snoc(m@.take(ei as int), ev, root@, 1);
            lemma_numbered_snoc(m@.take(ei as int), ev, root@);
            assert(lines.deep_view() =~= present_lines(m@.take(ei + 1), root@, 1));
            assert(all.deep_view() =~= numbered_files(m@.take(ei + 1), root@));
        }
        ei = ei + 1;
    }
    proof {
        assert(m@.take(m.entries@.len() as int) =~= m@);
    }
    (lines, all)
}

} // verus!
