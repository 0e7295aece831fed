use vstd::prelude::*;

verus! {

use vstd::string::StrSliceExecFns;

/// The character for a single decimal digit.
pub open spec fn dec_digit(d: int) -> char {
    if d == 0 {
        '0'
    } else if d == 1 {
        '1'
    } else if d == 2 {
        '2'
    } else if d == 3 {
        '3'
    } else if d == 4 {
        '4'
    } else if d == 5 {
        '5'
    } else if d == 6 {
        '6'
    } else if d == 7 {
        '7'
    } else if d == 8 {
        '8'
    } else {
        '9'
    }
}

/// The usual decimal rendering of a natural number, without a sign and
/// without leading zeros (except for the number zero itself).
pub open spec fn dec_rep(n: nat) -> Seq<char>
    decreases n,
{
    if n < 10 {
        seq![dec_digit(n as int)]
    } else {
        dec_rep(n / 10).push(dec_digit((n % 10) as int))
    }
}

fn digit_str(d: usize) -> (r: &'static str)
    requires
        d < 10,
    ensures
        r@ == seq![dec_digit(d as int)],
{
    proof {
        reveal_strlit("0");
        reveal_strlit("1");
        reveal_strlit("2");
        reveal_strlit("3");
        reveal_strlit("4");
        reveal_strlit("5");
        reveal_strlit("6");
        reveal_strlit("7");
        reveal_strlit("8");
        reveal_strlit("9");
    }
    if d == 0 {
        proof {
            assert("0"@ =~= seq![dec_digit(0)]);
        }
        "0"
    } else if d == 1 {
        proof {
            assert("1"@ =~= seq![dec_digit(1)]);
        }
        "1"
    } else if d == 2 {
        proof {
            assert("2"@ =~= seq![dec_digit(2)]);
        }
        "2"
    } else if d == 3 {
        proof {
            assert("3"@ =~= seq![dec_digit(3)]);
        }
        "3"
    } else if d == 4 {
        proof {
            assert("4"@ =~= seq![dec_digit(4)]);
        }
        "4"
    } else if d == 5 {
        proof {
            assert("5"@ =~= seq![dec_digit(5)]);
        }
        "5"
    } else if d == 6 {
        proof {
            assert("6"@ =~= seq![dec_digit(6)]);
        }
        "6"
    } else if d == 7 {
        proof {
            assert("7"@ =~= seq![dec_digit(7)]);
        }
        "7"
    } else if d == 8 {
        proof {
            assert("8"@ =~= seq![dec_digit(8)]);
        }
        "8"
    } else {
        proof {
            assert("9"@ =~= seq![dec_digit(9)]);
        }
        "9"
    }
}

/// Renders a number in decimal, matching `dec_rep`.
pub fn dec_str(n: usize) -> (r: String)
    ensures
        r@ == dec_rep(n as nat),
    decreases n,
{
    if n < 10 {
        let r = digit_str(n).to_owned();
        proof {
            assert(r@ =~= dec_rep(n as nat));
        }
        r
    } else {
        let mut r = dec_str(n / 10);
        r.append(digit_str(n % 10));
        proof {
            assert(r@ =~= dec_rep(n as nat));
        }
        r
    }
}

/// The index of the last occurrence of `c` in `s`, or -1 if `c` does not
/// occur.
pub open spec fn last_pos(s: Seq<char>, c: char) -> int
    decreases s.len(),
{
    if s.len() == 0 {
        -1
    } else if s.last() == c {
        s.len() - 1
    } else {
        last_pos(s.drop_last(), c)
    }
}

/// Finds the last occurrence of `c` in `s`, scanning from the end.
pub fn last_pos_str(s: &str, c: char) -> (r: Option<usize>)
    ensures
        (match r {
            Some(k) => last_pos(s@, c) == k as int && k < s@.len(),
            None => last_pos(s@, c) == -1,
        }),
{
    let len = s.unicode_len();
    let mut i: usize = len;
    proof {
        assert(s@.take(len as int) =~= s@);
    }
    loop
        invariant
            i <= len,
            len == s@.len(),
            last_pos(s@, c) == last_pos(s@.take(i as int), c),
        decreases i,
    {
        if i == 0 {
            return None;
        }
        let ch = s.get_char(i - 1);
        proof {
            assert(s@.take(i as int).last() == s@[i - 1]);
        }
        if ch == c {
            return Some(i - 1);
        }
        proof {
            assert(s@.take(i as int).drop_last() =~= s@.take(i - 1));
        }
        i = i - 1;
    }
}

/// The final path component: everything after the last slash.
pub open spec fn file_name(p: Seq<char>) -> Seq<char> {
    p.skip(last_pos(p, '/') + 1)
}

/// The file name without its extension: the part of the final component
/// before its last dot, unless that dot is the component's first character.
pub open spec fn stem_of(p: Seq<char>) -> Seq<char> {
    let n = file_name(p);
    let d = last_pos(n, '.');
    if d > 0 {
        n.take(d)
    } else {
        n
    }
}

/// Whether the final path component has the extension `yaml`.
pub open spec fn has_yaml_ext(p: Seq<char>) -> bool {
    let n = file_name(p);
    let d = last_pos(n, '.');
    d > 0 && n.skip(d + 1) == seq!['y', 'a', 'm', 'l']
}

/// Extracts the final path component of `p`.
pub fn file_name_str(p: &str) -> (r: String)
    ensures
        r@ == file_name(p@),
{
    let len = p.unicode_len();
    match last_pos_str(p, '/') {
        Some(k) => {
            let r = p.substring_char(k + 1, len).to_owned();
            proof {
                assert(r@ =~= file_name(p@));
            }
            r
        },
        None => {
            let r = p.to_owned();
            proof {
                assert(r@ =~= file_name(p@));
            }
            r
        },
    }
}

/// Extracts the display label of a file: its name without the extension.
pub fn stem_str(p: &str) -> (r: String)
    ensures
        r@ == stem_of(p@),
{
    let name = file_name_str(p);
    match last_pos_str(name.as_str(), '.') {
        Some(d) => {
            if d > 0 {
                let r = name.as_str().substring_char(0, d).to_owned();
                proof {
                    assert(r@ =~= stem_of(p@));
                }
                r
            } else {
                name
            }
        },
        None => name,
    }
}

/// Decides whether the file named by `p` has the extension `yaml`.
pub fn has_yaml_ext_str(p: &str) -> (r: bool)
    ensures
        r == has_yaml_ext(p@),
{
    let name = file_name_str(p);
    let nlen = name.as_str().unicode_len();
    match last_pos_str(name.as_str(), '.') {
        Some(d) => {
            if d > 0 {
                let ext = name.as_str().substring_char(d + 1, nlen).to_owned();
                let y: String = "yaml".to_owned();
                let r = ext == y;
                proof {
                    reveal_strlit("yaml");
                    assert(y@ =~= seq!['y', 'a', 'm', 'l']);
                    assert(ext@ =~= file_name(p@).skip(d + 1));
                }
                r
            } else {
                false
            }
        },
        None => false,
    }
}

/// Whether `f` lies strictly below the directory `root`: it starts with
/// `root`, a slash follows, and something follows the slash.
pub open spec fn under_root(root: Seq<char>, f: Seq<char>) -> bool {
    &&& f.len() > root.len() + 1
    &&& f.take(root.len() as int) == root
    &&& f[root.len() as int] == '/'
}

/// The path `f` made relative to `root`.
pub open spec fn rel_of(root: Seq<char>, f: Seq<char>) -> Seq<char> {
    f.skip(root.len() as int + 1)
}

/// Strips the `root` prefix and its trailing slash from `f`.
pub fn rel_str(root: &str, f: &str) -> (r: String)
    requires
        under_root(root@, f@),
    ensures
        r@ == rel_of(root@, f@),
{
    let rootlen = root.unicode_len();
    let flen = f.unicode_len();
    let r = f.substring_char(rootlen + 1, flen).to_owned();
    proof {
        assert(r@ =~= rel_of(root@, f@));
    }
    r
}

} // verus!
