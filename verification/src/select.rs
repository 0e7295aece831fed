use vstd::prelude::*;

verus! {

use vstd::string::StrSliceExecFns;

/// A name for what `str::split_whitespace` returns: the maximal runs of
/// non-whitespace characters of the input, in order.
pub uninterp spec fn tokens_of(s: Seq<char>) -> Seq<Seq<char>>;

/// Relies on str::split_whitespace: it yields the maximal runs of
/// non-whitespace characters, and depends on the characters alone.
#[verifier::external_body]
fn split_ws(s: &str) -> (v: Vec<String>)
    ensures
        v.deep_view() == tokens_of(s@),
{
    s.split_whitespace().map(|t| t.to_string()).collect()
}

pub open spec fn is_digit(c: char) -> bool {
    48 <= (c as u32) <= 57
}

pub open spec fn digit_of(c: char) -> int {
    (c as u32) - 48
}

pub open spec fn all_digits(s: Seq<char>) -> bool {
    forall|i: int| 0 <= i < s.len() ==> is_digit(#[trigger] s[i])
}

/// The number written by a digit sequence, most significant digit first.
pub open spec fn digits_val(s: Seq<char>) -> int
    decreases s.len(),
{
    if s.len() == 0 {
        0
    } else {
        digits_val(s.drop_last()) * 10 + digit_of(s.last())
    }
}

/// A token once an optional leading plus sign is removed.
pub open spec fn unsigned_body(t: Seq<char>) -> Seq<char> {
    if t.len() > 0 && t[0] == '+' {
        t.drop_first()
    } else {
        t
    }
}

/// How a token parses as an unsigned number: an optional plus sign, then
/// at least one digit, with a value that fits the machine; anything else
/// does not parse.
pub open spec fn token_value(t: Seq<char>) -> Option<int> {
    let b = unsigned_body(t);
    if b.len() > 0 && all_digits(b) && digits_val(b) <= usize::MAX {
        Some(digits_val(b))
    } else {
        None
    }
}

proof fn lemma_digits_nonneg(s: Seq<char>)
    requires
        all_digits(s),
    ensures
        digits_val(s) >= 0,
    decreases s.len(),
{
    if s.len() > 0 {
        assert(all_digits(s.drop_last()));
        lemma_digits_nonneg(s.drop_last());
        assert(is_digit(s[s.len() - 1]));
    }
}

/// A digit string is worth at least as much as any of its prefixes.
proof fn lemma_digits_prefix(s: Seq<char>, k: int)
    requires
        all_digits(s),
        0 <= k <= s.len(),
    ensures
        digits_val(s.take(k)) <= digits_val(s),
    decreases s.len(),
{
    if k == s.len() {
        assert(s.take(k) =~= s);
    } else {
        let s2 = s.drop_last();
        assert(all_digits(s2));
        lemma_digits_prefix(s2, k);
        assert(s.take(k) =~= s2.take(k));
        lemma_digits_nonneg(s2);
        assert(is_digit(s[s.len() - 1]));
        assert(digits_val(s2) * 10 >= digits_val(s2));
    }
}

/// Parses one token as a selection number, exactly as an unsigned decimal
/// integer parse would: an optional plus sign, then digits; other text and
/// out-of-machine-range values do not parse.
pub fn parse_index(t: &str) -> (r: Option<usize>)
    ensures
        (match r {
            Some(n) => token_value(t@) == Some(n as int),
            None => token_value(t@) == None::<int>,
        }),
{
    let len = t.unicode_len();
    let mut start: usize = 0;
    if len > 0 {
        let c0 = t.get_char(0);
        if c0 == '+' {
            start = 1;
        }
    }
    let ghost b = unsigned_body(t@);
    proof {
        assert(b =~= t@.skip(start as int));
    }
    if start == len {
        return None;
    }
    let mut acc: usize = 0;
    let mut j: usize = start;
    proof {
        assert(b.take(0) =~= Seq::<char>::empty());
    }
    while j < len
        invariant
            start <= j <= len,
            start < len,
            len == t@.len(),
            b == unsigned_body(t@),
            b =~= t@.skip(start as int),
            b.len() == len - start,
            all_digits(b.take(j - start)),
            acc == digits_val(b.take(j - start)),
        decreases len - j,
    {
        let c = t.get_char(j);
        let cu = c as u32;
        proof {
            assert(b[j - start] == t@[j as int]);
        }
        if cu < 48 || cu > 57 {
            proof {
                assert(!is_digit(b[j - start]));
            }
            return None;
        }
        let d: usize = (cu - 48) as usize;
        let ghost pre = b.take(j - start);
        let ghost ext = b.take(j - start + 1);
        proof {
            assert(ext.drop_last() =~= pre);
            assert(ext.last() == b[j - start]);
            assert(is_digit(b[j - start]));
            assert(digit_of(b[j - start]) == d);
            assert(all_digits(ext));
            assert(digits_val(ext) == acc * 10 + d);
        }
        let acc10 = match acc.checked_mul(10) {
            Some(m) => m,
            None => {
                proof {
                    lemma_digits_nonneg(ext);
                    if all_digits(b) {
                        lemma_digits_prefix(b, j - start + 1);
                        assert(digits_val(b) > usize::MAX);
                    }
                }
                return None;
            },
        };
        let acc2 = match acc10.checked_add(d) {
            Some(a) => a,
            None => {
                proof {
                    if all_digits(b) {
                        lemma_digits_prefix(b, j - start + 1);
                        assert(digits_val(b) > usize::MAX);
                    }
                }
                return None;
            },
        };
        acc = acc2;
        j = j + 1;
    }
    proof {
        assert(b.take((len - start) as int) =~= b);
        assert(token_value(t@) == Some(acc as int));
    }
    Some(acc)
}

/// Whether some token of the input selects the 1-based index `n`.
pub open spec fn index_selected(tokens: Seq<Seq<char>>, n: int) -> bool {
    exists|j: int| 0 <= j < tokens.len() && token_value(#[trigger] tokens[j]) == Some(n)
}

/// The chosen relative paths among the first `i` listed files, in listing
/// order, each path kept once: position `k` contributes `files[k]` when
/// some token selects the displayed index `k + 1` and no earlier chosen
/// position contributed the same path.
pub open spec fn selected_paths(files: Seq<Seq<char>>, tokens: Seq<Seq<char>>, i: int) -> Seq<
    Seq<char>,
>
    decreases i,
{
    if i <= 0 {
        Seq::empty()
    } else {
        let prev = selected_paths(files, tokens, i - 1);
        if index_selected(tokens, i) && !prev.contains(files[i - 1]) {
            prev.push(files[i - 1])
        } else {
            prev
        }
    }
}

/// The listed paths with later duplicates dropped: position `k`
/// contributes `files[k]` when no earlier position holds the same path.
pub open spec fn dedup(files: Seq<Seq<char>>, i: int) -> Seq<Seq<char>>
    decreases i,
{
    if i <= 0 {
        Seq::empty()
    } else {
        let prev = dedup(files, i - 1);
        if prev.contains(files[i - 1]) {
            prev
        } else {
            prev.push(files[i - 1])
        }
    }
}

pub proof fn lemma_dedup_contains(files: Seq<Seq<char>>, i: int, x: Seq<char>)
    requires
        0 <= i <= files.len(),
    ensures
        dedup(files, i).contains(x) <==> exists|k: int| 0 <= k < i && #[trigger] files[k] == x,
    decreases i,
{
    if i > 0 {
        lemma_dedup_contains(files, i - 1, x);
        let prev = dedup(files, i - 1);
        let cur = dedup(files, i);
        if prev.contains(files[i - 1]) {
            assert(cur == prev);
            if exists|k: int| 0 <= k < i && #[trigger] files[k] == x {
                let k = choose|k: int| 0 <= k < i && #[trigger] files[k] == x;
                if k == i - 1 {
                    assert(prev.contains(x));
                } else {
                    assert(0 <= k < i - 1 && files[k] == x);
                }
            }
        } else {
            assert(cur == prev.push(files[i - 1]));
            if cur.contains(x) {
                let j = choose|j: int| 0 <= j < cur.len() && #[trigger] cur[j] == x;
                if j < prev.len() {
                    assert(prev[j] == x);
                    assert(prev.contains(x));
                    let k = choose|k: int| 0 <= k < i - 1 && #[trigger] files[k] == x;
                    assert(0 <= k < i && files[k] == x);
                } else {
                    assert(files[i - 1] == x);
                }
            }
            if exists|k: int| 0 <= k < i && #[trigger] files[k] == x {
                let k = choose|k: int| 0 <= k < i && #[trigger] files[k] == x;
                if k == i - 1 {
                    assert(cur[prev.len() as int] == x);
                    assert(cur.contains(x));
                } else {
                    assert(prev.contains(x));
                    let j = choose|j: int| 0 <= j < prev.len() && #[trigger] prev[j] == x;
                    assert(cur[j] == x);
                    assert(cur.contains(x));
                }
            }
        }
    }
}

/// The set of files the operator chose, as relative paths; each path is
/// held once, in the order of its displayed number.
pub struct SelectionSet {
    pub paths: Vec<String>,
}

impl View for SelectionSet {
    type V = Set<Seq<char>>;

    open spec fn view(&self) -> Set<Seq<char>> {
        self.paths.deep_view().to_set()
    }
}

impl SelectionSet {
    /// The stored paths, in order.
    pub open spec fn path_seq(&self) -> Seq<Seq<char>> {
        self.paths.deep_view()
    }

    /// No path is stored twice.
    pub open spec fn wf(&self) -> bool {
        forall|p: int, q: int|
            0 <= p < q < self.path_seq().len() ==> #[trigger] self.path_seq()[p]
                != #[trigger] self.path_seq()[q]
    }

    pub fn len(&self) -> (n: usize)
        ensures
            n == self.path_seq().len(),
    {
        self.paths.len()
    }

    /// Whether the selection holds the given relative path.
    pub fn contains_path(&self, p: &String) -> (r: bool)
        ensures
            r == self@.contains(p@),
    {
        contains_str(&self.paths, p)
    }
}

/// Whether the vector holds a string with the given characters.
fn contains_str(v: &Vec<String>, x: &String) -> (r: bool)
    ensures
        r == v.deep_view().contains(x@),
{
    let mut i: usize = 0;
    while i < v.len()
        invariant
            i <= v.len(),
            forall|k: int| 0 <= k < i ==> v.deep_view()[k] != x@,
        decreases v.len() - i,
    {
        let hit = v[i] == *x;
        proof {
            assert(v.deep_view()[i as int] == v@[i as int]@);
        }
        if hit {
            proof {
                assert(v.deep_view().contains(x@)) by {
                    assert(v.deep_view()[i as int] == x@);
                }
            }
            return true;
        }
        i = i + 1;
    }
    false
}

/// Resolves numeric tokens against the numbered list: each token that
/// parses to an in-range 1-based index chooses that file; unparsable and
/// out-of-range tokens choose nothing; duplicates collapse.
pub fn select_by_tokens(tokens: &Vec<String>, all_files: &Vec<String>) -> (s: SelectionSet)
    ensures
        s.wf(),
        s.path_seq() == selected_paths(
            all_files.deep_view(),
            tokens.deep_view(),
            all_files.deep_view().len() as int,
        ),
{
    let ghost files_d = all_files.deep_view();
    let ghost tokens_d = tokens.deep_view();
    let mut out: Vec<String> = Vec::new();
    let mut i: usize = 0;
    proof {
        assert(out.deep_view() =~= selected_paths(files_d, tokens_d, 0));
    }
    while i < all_files.len()
        invariant
            i <= all_files.len(),
            files_d == all_files.deep_view(),
            tokens_d == tokens.deep_view(),
            out.deep_view() == selected_paths(files_d, tokens_d, i as int),
            forall|p: int, q: int|
                0 <= p < q < out.deep_view().len() ==> #[trigger] out.deep_view()[p]
                    != #[trigger] out.deep_view()[q],
        decreases all_files.len() - i,
    {
        let mut hit = false;
        let mut j: usize = 0;
        while j < tokens.len()
            invariant
                j <= tokens.len(),
                tokens_d == tokens.deep_view(),
                0 <= i < files_d.len(),
                hit <==> (exists|j2: int|
                    0 <= j2 < j && token_value(#[trigger] tokens_d[j2]) == Some(i + 1)),
            decreases tokens.len() - j,
        {
            match parse_index(tokens[j].as_str()) {
                Some(n) => {
                    proof {
                        assert(tokens_d[j as int] == tokens@[j as int]@);
                    }
                    if n >= 1 && n - 1 == i {
                        hit = true;
                        proof {
                            assert(token_value(tokens_d[j as int]) == Some(i + 1));
                        }
                    }
                },
                None => {
                    proof {
                        assert(tokens_d[j as int] == tokens@[j as int]@);
                    }
                },
            }
            j = j + 1;
        }
        proof {
            assert(hit == index_selected(tokens_d, i + 1));
        }
        let ghost prev = out.deep_view();
        if hit {
            let already = contains_str(&out, &all_files[i]);
            proof {
                assert(files_d[i as int] == all_files@[i as int]@);
            }
            if !already {
                out.push(all_files[i].clone());
                proof {
                    assert(out.deep_view() =~= prev.push(files_d[i as int]));
                }
            }
        }
        proof {
            assert(out.deep_view() =~= selected_paths(files_d, tokens_d, i + 1));
        }
        i = i + 1;
    }
    SelectionSet { paths: out }
}

/// Reads a selection from one line of operator input. An input whose sole
/// whitespace-separated token is `0` selects every listed file; otherwise
/// each token that parses to an in-range index selects its file, and the
/// rest of the tokens select nothing.
pub fn select_files(input: &str, all_files: &Vec<String>) -> (s: SelectionSet)
    ensures
        s.wf(),
        tokens_of(input@) == seq![seq!['0']] ==> s.path_seq() == dedup(
            all_files.deep_view(),
            all_files.deep_view().len() as int,
        ) && s@ == all_files.deep_view().to_set(),
        tokens_of(input@) != seq![seq!['0']] ==> s.path_seq() == selected_paths(
            all_files.deep_view(),
            tokens_of(input@),
            all_files.deep_view().len() as int,
        ),
{
    let ghost files_d = all_files.deep_view();
    let toks = split_ws(input);
    let zero: String = "0".to_owned();
    let is_sentinel = toks.len() == 1 && toks[0] == zero;
    proof {
        reveal_strlit("0");
        assert(zero@ =~= seq!['0']);
        if is_sentinel {
            assert(toks.deep_view()[0] == toks@[0]@);
            assert(tokens_of(input@) =~= seq![seq!['0']]);
        } else {
            if toks.len() == 1 {
                assert(toks.deep_view()[0] == toks@[0]@);
                assert(toks@[0]@ != seq!['0']);
                assert(tokens_of(input@)[0] != seq![seq!['0']][0]);
            } else {
                assert(tokens_of(input@).len() != 1);
            }
            assert(tokens_of(input@) != seq![seq!['0']]);
        }
    }
    if is_sentinel {
        let mut out: Vec<String> = Vec::new();
        let mut i: usize = 0;
        proof {
            assert(out.deep_view() =~= dedup(files_d, 0));
        }
        while i < all_files.len()
            invariant
                i <= all_files.len(),
                files_d == all_files.deep_view(),
                out.deep_view() == dedup(files_d, i as int),
                forall|p: int, q: int|
                    0 <= p < q < out.deep_view().len() ==> #[trigger] out.deep_view()[p]
                        != #[trigger] out.deep_view()[q],
            decreases all_files.len() - i,
        {
            let ghost prev = out.deep_view();
            let already = contains_str(&out, &all_files[i]);
            proof {
                assert(files_d[i as int] == all_files@[i as int]@);
            }
            if !already {
                out.push(all_files[i].clone());
                proof {
                    assert(out.deep_view() =~= prev.push(files_d[i as int]));
                }
            }
            proof {
                assert(out.deep_view() =~= dedup(files_d, i + 1));
            }
            i = i + 1;
        }
        let s = SelectionSet { paths: out };
        proof {
            assert forall|x: Seq<char>| s@.contains(x) == files_d.to_set().contains(x) by {
                lemma_dedup_contains(files_d, files_d.len() as int, x);
                assert(s.path_seq().contains(x) == (exists|k: int|
                    0 <= k < files_d.len() && #[trigger] files_d[k] == x));
                assert(files_d.contains(x) == (exists|k: int|
                    0 <= k < files_d.len() && #[trigger] files_d[k] == x));
            }
            assert(s@ =~= files_d.to_set());
        }
        s
    } else {
        select_by_tokens(&toks, all_files)
    }
}

/// What the full selection holds: exactly the paths whose 1-based
/// displayed index is selected by some token that parses to a number in
/// range; tokens that do not parse or are out of range contribute nothing.
pub proof fn lemma_selected_paths_membership(
    files: Seq<Seq<char>>,
    tokens: Seq<Seq<char>>,
    i: int,
    x: Seq<char>,
)
    requires
        0 <= i <= files.len(),
    ensures
        selected_paths(files, tokens, i).contains(x) <==> exists|k: int|
            0 <= k < i && #[trigger] files[k] == x && index_selected(tokens, k + 1),
    decreases i,
{
    if i > 0 {
        lemma_selected_paths_membership(files, tokens, i - 1, x);
        let prev = selected_paths(files, tokens, i - 1);
        let cur = selected_paths(files, tokens, i);
        if index_selected(tokens, i) && !prev.contains(files[i - 1]) {
            assert(cur == prev.push(files[i - 1]));
            if cur.contains(x) {
                let j = choose|j: int| 0 <= j < cur.len() && #[trigger] cur[j] == x;
                if j < prev.len() {
                    assert(prev[j] == x);
                    assert(prev.contains(x));
                    let k = choose|k: int|
                        0 <= k < i - 1 && #[trigger] files[k] == x && index_selected(tokens, k + 1);
                    assert(0 <= k < i && files[k] == x && index_selected(tokens, k + 1));
                } else {
                    assert(files[i - 1] == x && index_selected(tokens, (i - 1) + 1));
                }
            }
            if exists|k: int|
                0 <= k < i && #[trigger] files[k] == x && index_selected(tokens, k + 1) {
                let k = choose|k: int|
                    0 <= k < i && #[trigger] files[k] == x && index_selected(tokens, k + 1);
                if k == i - 1 {
                    assert(cur[prev.len() as int] == x);
                    assert(cur.contains(x));
                } else {
                    assert(prev.contains(x));
                    let j = choose|j: int| 0 <= j < prev.len() && #[trigger] prev[j] == x;
                    assert(cur[j] == x);
                    assert(cur.contains(x));
                }
            }
        } else {
            assert(cur == prev);
            if cur.contains(x) {
                let k = choose|k: int|
                    0 <= k < i - 1 && #[trigger] files[k] == x && index_selected(tokens, k + 1);
                assert(0 <= k < i && files[k] == x && index_selected(tokens, k + 1));
            }
            if exists|k: int|
                0 <= k < i && #[trigger] files[k] == x && index_selected(tokens, k + 1) {
                let k = choose|k: int|
                    0 <= k < i && #[trigger] files[k] == x && index_selected(tokens, k + 1);
                if k == i - 1 {
                    assert(index_selected(tokens, i));
                    assert(prev.contains(files[i - 1]));
                    assert(prev.contains(x));
                }
            }
        }
    }
}

/// Whether a position is chosen depends only on which numbers the tokens
/// select, not on how often or in what order they occur.
pub proof fn lemma_selected_same_values(
    files: Seq<Seq<char>>,
    tokens1: Seq<Seq<char>>,
    tokens2: Seq<Seq<char>>,
    i: int,
)
    requires
        forall|n: int| index_selected(tokens1, n) <==> index_selected(tokens2, n),
    ensures
        selected_paths(files, tokens1, i) == selected_paths(files, tokens2, i),
    decreases i,
{
    if i > 0 {
        lemma_selected_same_values(files, tokens1, tokens2, i - 1);
    }
}

/// A token that already occurs in the list selects nothing new: the
/// selection collapses duplicates.
pub proof fn lemma_duplicate_token_collapses(
    files: Seq<Seq<char>>,
    tokens: Seq<Seq<char>>,
    t: Seq<char>,
    i: int,
)
    requires
        tokens.contains(t),
    ensures
        selected_paths(files, tokens.push(t), i) == selected_paths(files, tokens, i),
{
    let t2 = tokens.push(t);
    assert forall|n: int| index_selected(t2, n) implies index_selected(tokens, n) by {
        let j = choose|j: int| 0 <= j < t2.len() && token_value(t2[j]) == Some(n);
        if j < tokens.len() {
            assert(token_value(tokens[j]) == Some(n));
        } else {
            let w = choose|w: int| 0 <= w < tokens.len() && tokens[w] == t;
            assert(token_value(tokens[w]) == Some(n));
        }
    }
    assert forall|n: int| index_selected(tokens, n) implies index_selected(t2, n) by {
        let j = choose|j: int| 0 <= j < tokens.len() && token_value(tokens[j]) == Some(n);
        assert(token_value(t2[j]) == Some(n));
    }
    lemma_selected_same_values(files, tokens.push(t), tokens, i);
}

} // verus!
