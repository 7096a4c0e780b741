//! Small verified text helpers used by the code generator: decimal
//! formatting, joining lines with newlines, substituting the `{}`
//! placeholder of an instruction template, and character searches.

use vstd::prelude::*;
use vstd::string::*;

verus! {

/// The character a decimal digit denotes.
pub open spec fn digit_char(d: nat) -> char {
    if d == 0 {
        '0'
    } else if d == 1 {
        '1'
    } else if d == 2 {
        '2'
    } else if d == 3 {
        '3'
    } else if d == 4 {
        '4'
    } else if d == 5 {
        '5'
    } else if d == 6 {
        '6'
    } else if d == 7 {
        '7'
    } else if d == 8 {
        '8'
    } else {
        '9'
    }
}

/// The decimal numeral of `n`, most significant digit first, no leading
/// zeros (a single `0` for zero).
pub open spec fn spec_decimal(n: nat) -> Seq<char>
    decreases n,
{
    if n < 10 {
        seq![digit_char(n)]
    } else {
        spec_decimal(n / 10).push(digit_char(n % 10))
    }
}

/// The one-character string for a decimal digit.
fn digit_str(d: usize) -> (r: &'static str)
    requires
        d < 10,
    ensures
        r@ == seq![digit_char(d as nat)],
{
    let r: &'static str = if d == 0 {
        "0"
    } else if d == 1 {
        "1"
    } else if d == 2 {
        "2"
    } else if d == 3 {
        "3"
    } else if d == 4 {
        "4"
    } else if d == 5 {
        "5"
    } else if d == 6 {
        "6"
    } else if d == 7 {
        "7"
    } else if d == 8 {
        "8"
    } else {
        "9"
    };
    proof {
        reveal_strlit("0");
        reveal_strlit("1");
        reveal_strlit("2");
        reveal_strlit("3");
        reveal_strlit("4");
        reveal_strlit("5");
        reveal_strlit("6");
        reveal_strlit("7");
        reveal_strlit("8");
        reveal_strlit("9");
        assert(r@ =~= seq![digit_char(d as nat)]);
    }
    r
}

/// Format `n` in decimal.
pub fn usize_to_string(n: usize) -> (r: String)
    ensures
        r@ == spec_decimal(n as nat),
    decreases n,
{
    if n < 10 {
        String::from_str(digit_str(n))
    } else {
        let mut s = usize_to_string(n / 10);
        s.append(digit_str(n % 10));
        proof {
            assert(spec_decimal((n as nat) / 10).push(digit_char((n as nat) % 10)) =~= spec_decimal(
                (n as nat) / 10,
            ) + seq![digit_char((n as nat) % 10)]);
        }
        s
    }
}

/// Lines joined with a newline between each adjacent pair; no trailing
/// newline, and the empty line list joins to the empty string.
pub open spec fn spec_join(lines: Seq<Seq<char>>) -> Seq<char>
    decreases lines.len(),
{
    if lines.len() == 0 {
        Seq::empty()
    } else if lines.len() == 1 {
        lines[0]
    } else {
        lines[0] + seq!['\n'] + spec_join(lines.skip(1))
    }
}

/// Appending one more line to a join appends a newline and the line.
proof fn lemma_join_push(lines: Seq<Seq<char>>, x: Seq<char>)
    ensures
        lines.len() == 0 ==> spec_join(lines.push(x)) == x,
        lines.len() > 0 ==> spec_join(lines.push(x)) == spec_join(lines) + seq!['\n'] + x,
    decreases lines.len(),
{
    let p = lines.push(x);
    if lines.len() == 0 {
        assert(p.len() == 1 && p[0] == x);
    } else if lines.len() == 1 {
        assert(p.len() == 2 && p[0] == lines[0]);
        assert(p.skip(1) =~= seq![x]);
        assert(spec_join(seq![x]) == x);
    } else {
        assert(p[0] == lines[0]);
        assert(p.skip(1) =~= lines.skip(1).push(x));
        lemma_join_push(lines.skip(1), x);
        assert(lines[0] + seq!['\n'] + (spec_join(lines.skip(1)) + seq!['\n'] + x) =~= (lines[0]
            + seq!['\n'] + spec_join(lines.skip(1))) + seq!['\n'] + x);
    }
}

/// Join the lines with newlines between them.
pub fn join_lines(lines: &Vec<String>) -> (r: String)
    ensures
        r@ == spec_join(lines.deep_view()),
{
    let mut out = String::new();
    let mut i: usize = 0;
    proof {
        assert(lines.deep_view().take(0) =~= Seq::<Seq<char>>::empty());
    }
    while i < lines.len()
        invariant
            i <= lines@.len(),
            lines.deep_view().len() == lines@.len(),
            out@ == spec_join(lines.deep_view().take(i as int)),
        decreases lines@.len() - i,
    {
        if i > 0 {
            out.append("\n");
        }
        out.append(lines[i].as_str());
        proof {
            reveal_strlit("\n");
            assert("\n"@ =~= seq!['\n']);
            let dv = lines.deep_view();
            assert(dv[i as int] == lines@[i as int]@);
            assert(dv.take(i as int).push(dv[i as int]) =~= dv.take(i as int + 1));
            lemma_join_push(dv.take(i as int), dv[i as int]);
            if i > 0 {
                assert(spec_join(dv.take(i as int)) + "\n"@ + lines@[i as int]@ =~= spec_join(
                    dv.take(i as int),
                ) + seq!['\n'] + dv[i as int]);
            }
        }
        i = i + 1;
    }
    proof {
        assert(lines.deep_view().take(lines@.len() as int) =~= lines.deep_view());
    }
    out
}

/// The position of the leftmost occurrence of `c` in `s`, or -1 if there is
/// none.
pub open spec fn find_char(s: Seq<char>, c: char) -> int
    decreases s.len(),
{
    if s.len() == 0 {
        -1
    } else if s[0] == c {
        0
    } else {
        let r = find_char(s.skip(1), c);
        if r < 0 {
            -1
        } else {
            r + 1
        }
    }
}

/// What `find_char` finds: the first occurrence, or none at all.
proof fn lemma_find_char(s: Seq<char>, c: char)
    ensures
        find_char(s, c) == -1 ==> forall|k: int| 0 <= k < s.len() ==> s[k] != c,
        find_char(s, c) >= 0 ==> 0 <= find_char(s, c) < s.len() && s[find_char(s, c)] == c
            && forall|k: int| 0 <= k < find_char(s, c) ==> s[k] != c,
    decreases s.len(),
{
    if s.len() == 0 {
    } else if s[0] == c {
    } else {
        lemma_find_char(s.skip(1), c);
        let r = find_char(s.skip(1), c);
        if r == -1 {
            assert forall|k: int| 0 <= k < s.len() implies s[k] != c by {
                if k > 0 {
                    assert(s.skip(1)[k - 1] == s[k]);
                }
            }
        } else {
            assert(s.skip(1)[r] == s[r + 1]);
            assert forall|k: int| 0 <= k < r + 1 implies s[k] != c by {
                if k > 0 {
                    assert(s.skip(1)[k - 1] == s[k]);
                }
            }
        }
    }
}

/// Find the leftmost occurrence of `c` in `s`.
pub fn find_char_in(s: &str, c: char) -> (r: Option<usize>)
    ensures
        match r {
            Some(j) => j < s@.len() && find_char(s@, c) == j,
            None => find_char(s@, c) == -1,
        },
{
    let n = s.unicode_len();
    let mut j: usize = 0;
    while j < n
        invariant
            j <= n,
            n == s@.len(),
            forall|k: int| 0 <= k < j ==> s@[k] != c,
        decreases n - j,
    {
        if s.get_char(j) == c {
            proof {
                lemma_find_char(s@, c);
            }
            return Some(j);
        }
        j = j + 1;
    }
    proof {
        lemma_find_char(s@, c);
    }
    None
}

/// Character-for-character equality of two strings.
pub fn str_eq(a: &str, b: &str) -> (r: bool)
    ensures
        r == (a@ == b@),
{
    let na = a.unicode_len();
    let nb = b.unicode_len();
    if na != nb {
        return false;
    }
    let mut i: usize = 0;
    while i < na
        invariant
            i <= na,
            na == a@.len(),
            na == b@.len(),
            forall|k: int| 0 <= k < i ==> a@[k] == b@[k],
        decreases na - i,
    {
        if a.get_char(i) != b.get_char(i) {
            return false;
        }
        i = i + 1;
    }
    proof {
        assert(a@ =~= b@);
    }
    true
}

/// The position of the leftmost `{}` pair in `s`, or -1 if there is none.
pub open spec fn find_ph(s: Seq<char>) -> int
    decreases s.len(),
{
    if s.len() < 2 {
        -1
    } else if s[0] == '{' && s[1] == '}' {
        0
    } else {
        let r = find_ph(s.skip(1));
        if r < 0 {
            -1
        } else {
            r + 1
        }
    }
}

/// What `find_ph` finds: the first `{}` pair, or none at all.
proof fn lemma_find_ph(s: Seq<char>)
    ensures
        find_ph(s) == -1 ==> forall|k: int|
            0 <= k && k + 1 < s.len() ==> !(#[trigger] s[k] == '{' && s[k + 1] == '}'),
        find_ph(s) >= 0 ==> find_ph(s) + 1 < s.len() && s[find_ph(s)] == '{' && s[find_ph(s) + 1]
            == '}' && forall|k: int| 0 <= k < find_ph(s) ==> !(#[trigger] s[k] == '{' && s[k + 1] == '}'),
    decreases s.len(),
{
    if s.len() < 2 {
    } else if s[0] == '{' && s[1] == '}' {
    } else {
        lemma_find_ph(s.skip(1));
        let r = find_ph(s.skip(1));
        if r == -1 {
            assert forall|k: int| 0 <= k && k + 1 < s.len() implies !(#[trigger] s[k] == '{' && s[
                k + 1] == '}') by {
                if k > 0 {
                    assert(s.skip(1)[k - 1] == s[k]);
                    assert(s.skip(1)[k] == s[k + 1]);
                }
            }
        } else {
            assert(s.skip(1)[r] == s[r + 1]);
            assert(s.skip(1)[r + 1] == s[r + 2]);
            assert forall|k: int| 0 <= k < r + 1 implies !(#[trigger] s[k] == '{' && s[k + 1]
                == '}') by {
                if k > 0 {
                    assert(s.skip(1)[k - 1] == s[k]);
                    assert(s.skip(1)[k] == s[k + 1]);
                }
            }
        }
    }
}

/// `s` with every `{}` placeholder replaced by `val`, scanning left to
/// right and never rescanning the inserted text.
pub open spec fn spec_subst(s: Seq<char>, val: Seq<char>) -> Seq<char>
    decreases s.len(),
    via spec_subst_decreases
{
    let i = find_ph(s);
    if i < 0 {
        s
    } else {
        s.take(i) + val + spec_subst(s.skip(i + 2), val)
    }
}

#[via_fn]
proof fn spec_subst_decreases(s: Seq<char>, val: Seq<char>) {
    lemma_find_ph(s);
}

/// Find the leftmost `{}` pair at or after `from`.
fn find_placeholder(s: &str, from: usize) -> (r: Option<usize>)
    requires
        from <= s@.len(),
    ensures
        match r {
            Some(j) => from <= j && j + 1 < s@.len() && find_ph(s@.skip(from as int)) == j - from,
            None => find_ph(s@.skip(from as int)) == -1,
        },
{
    let n = s.unicode_len();
    if n < 2 {
        proof {
            lemma_find_ph(s@.skip(from as int));
        }
        return None;
    }
    if from >= n - 1 {
        proof {
            lemma_find_ph(s@.skip(from as int));
        }
        return None;
    }
    let mut j: usize = from;
    while j < n - 1
        invariant
            from <= j,
            j <= n,
            2 <= n,
            n == s@.len(),
            forall|k: int| from <= k < j ==> !(#[trigger] s@[k] == '{' && s@[k + 1] == '}'),
        decreases n - j,
    {
        let c1 = s.get_char(j);
        let c2 = s.get_char(j + 1);
        if c1 == '{' && c2 == '}' {
            proof {
                let rem = s@.skip(from as int);
                lemma_find_ph(rem);
                assert(rem[j - from] == s@[j as int]);
                assert(rem[j - from + 1] == s@[j as int + 1]);
                let f = find_ph(rem);
                if f == -1 {
                    assert(false);
                } else {
                    assert(rem[f] == s@[f + from]);
                    assert(rem[f + 1] == s@[f + from + 1]);
                    if f < j - from {
                        assert(false);
                    } else if f > j - from {
                        assert(!(rem[j - from] == '{' && rem[j - from + 1] == '}'));
                        assert(false);
                    }
                }
            }
            return Some(j);
        }
        j = j + 1;
    }
    proof {
        let rem = s@.skip(from as int);
        lemma_find_ph(rem);
        let f = find_ph(rem);
        if f >= 0 {
            assert(rem[f] == s@[f + from]);
            assert(rem[f + 1] == s@[f + from + 1]);
            assert(false);
        }
    }
    None
}

/// Substitute `val` for every `{}` placeholder in `s`.
pub fn replace_placeholder(s: &str, val: &str) -> (r: String)
    ensures
        r@ == spec_subst(s@, val@),
{
    let n = s.unicode_len();
    let mut out = String::new();
    let mut pos: usize = 0;
    proof {
        assert(s@.skip(0) =~= s@);
    }
    loop
        invariant
            pos <= n,
            n == s@.len(),
            spec_subst(s@, val@) == out@ + spec_subst(s@.skip(pos as int), val@),
        decreases n - pos,
    {
        match find_placeholder(s, pos) {
            Some(j) => {
                let seg = s.substring_char(pos, j);
                out.append(seg);
                out.append(val);
                proof {
                    let rem = s@.skip(pos as int);
                    lemma_find_ph(rem);
                    assert(rem.take(j - pos) =~= s@.subrange(pos as int, j as int));
                    assert(rem.skip(j - pos + 2) =~= s@.skip(j as int + 2));
                }
                pos = j + 2;
            },
            None => {
                let seg = s.substring_char(pos, n);
                out.append(seg);
                proof {
                    assert(s@.subrange(pos as int, n as int) =~= s@.skip(pos as int));
                }
                return out;
            },
        }
    }
}

} // verus!
