use vstd::prelude::*;

verus! {

use vstd::relations::sorted_by;
use vstd::relations::total_ordering;
use vstd::seq_lib::to_multiset_insert;
use vstd::string::StrSliceExecFns;

/// Lexicographic "less or equal" on character sequences, comparing code
/// points position by position; a proper prefix comes before any extension.
pub open spec fn lex_leq(a: Seq<char>, b: Seq<char>) -> bool
    decreases a.len(),
{
    if a.len() == 0 {
        true
    } else if b.len() == 0 {
        false
    } else if (a[0] as u32) < (b[0] as u32) {
        true
    } else if a[0] == b[0] {
        lex_leq(a.drop_first(), b.drop_first())
    } else {
        false
    }
}

/// The lexicographic order packaged as a relation value, so that it can be
/// handed to vstd's ordering and sorting lemmas.
pub open spec fn lex_leq_fn() -> spec_fn(Seq<char>, Seq<char>) -> bool {
    |a: Seq<char>, b: Seq<char>| lex_leq(a, b)
}

pub proof fn lemma_lex_refl(a: Seq<char>)
    ensures
        lex_leq(a, a),
    decreases a.len(),
{
    if a.len() > 0 {
        lemma_lex_refl(a.drop_first());
    }
}

pub proof fn lemma_lex_antisym(a: Seq<char>, b: Seq<char>)
    requires
        lex_leq(a, b),
        lex_leq(b, a),
    ensures
        a == b,
    decreases a.len(),
{
    if a.len() == 0 {
        assert(b.len() == 0);
        assert(a =~= b);
    } else {
        assert(b.len() > 0);
        if a[0] == b[0] {
            lemma_lex_antisym(a.drop_first(), b.drop_first());
            assert(a.drop_first() == b.drop_first());
            assert(a.drop_first().len() == a.len() - 1);
            assert(b.drop_first().len() == b.len() - 1);
            assert(a =~= b) by {
                assert forall|i: int| 0 <= i < a.len() implies a[i] == b[i] by {
                    if i > 0 {
                        assert(a.drop_first()[i - 1] == b.drop_first()[i - 1]);
                    }
                }
            }
        } else {
            assert(false);
        }
    }
}

pub proof fn lemma_lex_trans(a: Seq<char>, b: Seq<char>, c: Seq<char>)
    requires
        lex_leq(a, b),
        lex_leq(b, c),
    ensures
        lex_leq(a, c),
    decreases a.len(),
{
    if a.len() == 0 {
    } else {
        if a[0] == b[0] && b[0] == c[0] {
            lemma_lex_trans(a.drop_first(), b.drop_first(), c.drop_first());
        }
    }
}

pub proof fn lemma_lex_connected(a: Seq<char>, b: Seq<char>)
    ensures
        lex_leq(a, b) || lex_leq(b, a),
    decreases a.len(),
{
    if a.len() > 0 && b.len() > 0 {
        if (a[0] as u32) == (b[0] as u32) {
            vstd::utf8::char_u32_cast(a[0], a[0] as u32);
            vstd::utf8::char_u32_cast(b[0], b[0] as u32);
            assert(a[0] == b[0]);
            lemma_lex_connected(a.drop_first(), b.drop_first());
        }
    }
}

/// The lexicographic order on character sequences is a total order.
pub proof fn lemma_lex_total_ordering()
    ensures
        total_ordering(lex_leq_fn()),
{
    let r = lex_leq_fn();
    assert forall|a: Seq<char>| #[trigger] r(a, a) by {
        lemma_lex_refl(a);
    }
    assert forall|a: Seq<char>, b: Seq<char>| #[trigger] r(a, b) && #[trigger] r(b, a) implies a
        == b by {
        lemma_lex_antisym(a, b);
    }
    assert forall|a: Seq<char>, b: Seq<char>, c: Seq<char>|
        #[trigger] r(a, b) && #[trigger] r(b, c) implies r(a, c) by {
        lemma_lex_trans(a, b, c);
    }
    assert forall|a: Seq<char>, b: Seq<char>| #[trigger] r(a, b) || #[trigger] r(b, a) by {
        lemma_lex_connected(a, b);
    }
}

/// If the first `i` characters of `a` and `b` agree, the comparison is
/// decided by the remainders.
proof fn lemma_lex_skip(a: Seq<char>, b: Seq<char>, i: int)
    requires
        0 <= i <= a.len(),
        i <= b.len(),
        forall|j: int| 0 <= j < i ==> a[j] == b[j],
    ensures
        lex_leq(a, b) == lex_leq(a.skip(i), b.skip(i)),
    decreases i,
{
    if i == 0 {
        assert(a.skip(0) =~= a);
        assert(b.skip(0) =~= b);
    } else {
        assert(a[0] == b[0]);
        assert(a.drop_first() =~= a.skip(1));
        assert(b.drop_first() =~= b.skip(1));
        assert(a.skip(1).skip(i - 1) =~= a.skip(i));
        assert(b.skip(1).skip(i - 1) =~= b.skip(i));
        assert forall|j: int| 0 <= j < i - 1 implies a.skip(1)[j] == b.skip(1)[j] by {
            assert(a[j + 1] == b[j + 1]);
        }
        lemma_lex_skip(a.skip(1), b.skip(1), i - 1);
    }
}

/// Decides the lexicographic order on two strings, character by character.
pub fn str_lex_leq(a: &str, b: &str) -> (r: bool)
    ensures
        r == lex_leq(a@, b@),
{
    let alen = a.unicode_len();
    let blen = b.unicode_len();
    let mut i: usize = 0;
    loop
        invariant
            i <= alen,
            i <= blen,
            alen == a@.len(),
            blen == b@.len(),
            forall|j: int| 0 <= j < i ==> a@[j] == b@[j],
        decreases alen - i,
    {
        proof {
            lemma_lex_skip(a@, b@, i as int);
        }
        if i == alen {
            assert(a@.skip(i as int) =~= Seq::<char>::empty());
            return true;
        }
        if i == blen {
            assert(b@.skip(i as int) =~= Seq::<char>::empty());
            assert(a@.skip(i as int).len() > 0);
            return false;
        }
        let ca = a.get_char(i);
        let cb = b.get_char(i);
        assert(a@.skip(i as int)[0] == ca);
        assert(b@.skip(i as int)[0] == cb);
        if (ca as u32) < (cb as u32) {
            return true;
        }
        if (ca as u32) > (cb as u32) {
            assert(!lex_leq(a@.skip(i as int), b@.skip(i as int)));
            return false;
        }
        proof {
            vstd::utf8::char_u32_cast(ca, ca as u32);
            vstd::utf8::char_u32_cast(cb, cb as u32);
            assert(ca == cb);
        }
        i = i + 1;
    }
}

/// Inserting an element at a position that respects the order keeps a
/// sorted sequence sorted.
proof fn lemma_sorted_insert(s: Seq<Seq<char>>, j: int, x: Seq<char>)
    requires
        sorted_by(s, lex_leq_fn()),
        0 <= j <= s.len(),
        forall|k: int| 0 <= k < j ==> lex_leq(#[trigger] s[k], x),
        j < s.len() ==> lex_leq(x, s[j]),
    ensures
        sorted_by(s.insert(j, x), lex_leq_fn()),
{
    s.insert_ensures(j, x);
    let n = s.insert(j, x);
    assert forall|p: int, q: int| 0 <= p < q < n.len() implies lex_leq_fn()(n[p], n[q]) by {
        if q < j {
            assert(lex_leq_fn()(s[p], s[q]));
        } else if p > j {
            assert(lex_leq_fn()(s[p - 1], s[q - 1]));
        } else if p < j && q == j {
            assert(n[p] == s[p]);
            assert(lex_leq(s[p], x));
        } else if p == j {
            if q - 1 == j {
                assert(lex_leq(x, s[j]));
            } else {
                assert(lex_leq_fn()(s[j], s[q - 1]));
                lemma_lex_trans(x, s[j], s[q - 1]);
            }
        } else {
            assert(n[p] == s[p]);
            assert(n[q] == s[q - 1]);
            assert(lex_leq_fn()(s[p], s[q - 1]));
        }
    }
}

/// Inserts `x` into a lexicographically sorted vector, keeping it sorted.
fn insert_string_sorted(out: &mut Vec<String>, x: String)
    requires
        sorted_by(old(out).deep_view(), lex_leq_fn()),
    ensures
        sorted_by(final(out).deep_view(), lex_leq_fn()),
        final(out).deep_view().to_multiset() == old(out).deep_view().to_multiset().insert(x@),
{
    let mut j: usize = 0;
    loop
        invariant
            j <= out.len(),
            out@ == old(out)@,
            forall|k: int| 0 <= k < j ==> lex_leq(#[trigger] out.deep_view()[k], x@),
        ensures
            j <= out.len(),
            out@ == old(out)@,
            forall|k: int| 0 <= k < j ==> lex_leq(#[trigger] out.deep_view()[k], x@),
            j < out.len() ==> !lex_leq(out.deep_view()[j as int], x@),
        decreases out.len() - j,
    {
        if j == out.len() {
            break ;
        }
        let le = str_lex_leq(out[j].as_str(), x.as_str());
        proof {
            assert(out.deep_view()[j as int] == out@[j as int]@);
        }
        if le {
            j = j + 1;
        } else {
            break ;
        }
    }
    let ghost s = out.deep_view();
    let ghost jj = j as int;
    proof {
        if jj < s.len() {
            lemma_lex_connected(s[jj], x@);
            assert(lex_leq(x@, s[jj]));
        }
        lemma_sorted_insert(s, jj, x@);
        to_multiset_insert(s, jj, x@);
    }
    let ghost vold = out@;
    out.insert(j, x);
    proof {
        vold.insert_ensures(jj, x);
        s.insert_ensures(jj, x@);
        assert forall|k: int| 0 <= k < out.deep_view().len() implies out.deep_view()[k] == s.insert(
            jj,
            x@,
        )[k] by {
            assert(out.deep_view()[k] == out@[k]@);
            if k < jj {
                assert(out@[k] == vold[k]);
            } else if k == jj {
                assert(out@[k] == x);
            } else {
                assert(out@[k] == vold[k - 1]);
            }
        }
        assert(out.deep_view() =~= s.insert(jj, x@));
    }
}

/// Returns the elements of `v` in lexicographic order.
pub fn sort_strings(v: &Vec<String>) -> (r: Vec<String>)
    ensures
        sorted_by(r.deep_view(), lex_leq_fn()),
        r.deep_view().to_multiset() == v.deep_view().to_multiset(),
{
    let mut out: Vec<String> = Vec::new();
    let mut i: usize = 0;
    proof {
        assert(out.deep_view() =~= Seq::<Seq<char>>::empty());
        assert(v.deep_view().take(0).to_multiset() =~= out.deep_view().to_multiset()) by {
            assert(v.deep_view().take(0) =~= Seq::<Seq<char>>::empty());
        }
    }
    while i < v.len()
        invariant
            i <= v.len(),
            sorted_by(out.deep_view(), lex_leq_fn()),
            out.deep_view().to_multiset() == v.deep_view().take(i as int).to_multiset(),
        decreases v.len() - i,
    {
        let x = v[i].clone();
        proof {
            assert(x@ == v.deep_view()[i as int]);
        }
        insert_string_sorted(&mut out, x);
        proof {
            let d = v.deep_view();
            assert(d.take(i + 1) =~= d.take(i as int).push(d[i as int]));
            vstd::seq_lib::to_multiset_build(d.take(i as int), d[i as int]);
        }
        i = i + 1;
    }
    proof {
        assert(v.deep_view().take(v.len() as int) =~= v.deep_view());
    }
    out
}

} // verus!
