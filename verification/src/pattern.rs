//! The compiler-driver name pattern.
//!
//! A program name qualifies when its base name — what follows the last
//! path separator, with any dash-terminated prefixes such as a target
//! triple in front — is one of the driver tokens `cc`, `gcc`, `g++`,
//! `c++`, optionally followed by a dash and a version of one to three
//! dot-separated digit groups (`-7`, `-4.9`, `-4.9.2`).

use vstd::prelude::*;
use vstd::string::StrSliceExecFns;

verus! {

pub open spec fn is_digit(c: char) -> bool {
    '0' <= c && c <= '9'
}

pub open spec fn is_digit_or_dot(c: char) -> bool {
    is_digit(c) || c == '.'
}

/// A nonempty run of digits.
pub open spec fn all_digits(s: Seq<char>) -> bool {
    s.len() > 0 && forall|i: int| 0 <= i < s.len() ==> is_digit(#[trigger] s[i])
}

/// `N`
pub open spec fn version_one_group(w: Seq<char>) -> bool {
    all_digits(w)
}

/// `N.N`, with the dot at `i`
pub open spec fn version_two_groups(w: Seq<char>, i: int) -> bool {
    &&& 0 < i < w.len()
    &&& w[i] == '.'
    &&& all_digits(w.subrange(0, i))
    &&& all_digits(w.subrange(i + 1, w.len() as int))
}

/// `N.N.N`, with the dots at `i` and `j`
pub open spec fn version_three_groups(w: Seq<char>, i: int, j: int) -> bool {
    &&& 0 < i < j < w.len()
    &&& w[i] == '.'
    &&& w[j] == '.'
    &&& all_digits(w.subrange(0, i))
    &&& all_digits(w.subrange(i + 1, j))
    &&& all_digits(w.subrange(j + 1, w.len() as int))
}

/// A version suffix: one to three dot-separated nonempty digit groups.
pub open spec fn is_version_suffix(w: Seq<char>) -> bool {
    ||| version_one_group(w)
    ||| exists|i: int| version_two_groups(w, i)
    ||| exists|i: int, j: int| version_three_groups(w, i, j)
}

/// The literal driver tokens.
pub open spec fn is_driver_token(t: Seq<char>) -> bool {
    t == "cc"@ || t == "gcc"@ || t == "g++"@ || t == "c++"@
}

/// A driver token ends at `e`, and what precedes it is the start of the
/// name, a dash-terminated prefix, or a path component.
pub open spec fn token_ends_at(s: Seq<char>, e: int) -> bool {
    exists|i: int|
        0 <= i <= e <= s.len() && is_driver_token(#[trigger] s.subrange(i, e)) && (i == 0 || s[i
            - 1] == '-' || s[i - 1] == '/')
}

/// The whole pattern: a driver token, preceded by path and prefixes and
/// followed by nothing or by `-` and a version suffix reaching the end.
pub open spec fn is_compiler_name(s: Seq<char>) -> bool {
    exists|j: int|
        #![trigger token_ends_at(s, j)]
        0 <= j <= s.len() && token_ends_at(s, j) && (j == s.len() || (s[j] == '-'
            && is_version_suffix(s.subrange(j + 1, s.len() as int))))
}

/// The characters of a string, one by one.
fn chars_of(s: &str) -> (v: Vec<char>)
    ensures
        v@ == s@,
{
    let n = s.unicode_len();
    let mut v: Vec<char> = Vec::new();
    let mut i: usize = 0;
    while i < n
        invariant
            i <= n,
            n == s@.len(),
            v@ == s@.subrange(0, i as int),
        decreases n - i,
    {
        v.push(s.get_char(i));
        proof {
            assert(s@.subrange(0, i as int).push(s@[i as int]) =~= s@.subrange(0, i as int + 1));
        }
        i += 1;
    }
    proof {
        assert(s@.subrange(0, n as int) =~= s@);
    }
    v
}

/// A copy of the characters between `from` and `to`.
fn copy_range(v: &Vec<char>, from: usize, to: usize) -> (r: Vec<char>)
    requires
        from <= to <= v@.len(),
    ensures
        r@ == v@.subrange(from as int, to as int),
{
    let mut r: Vec<char> = Vec::new();
    let mut i = from;
    while i < to
        invariant
            from <= i <= to <= v@.len(),
            r@ == v@.subrange(from as int, i as int),
        decreases to - i,
    {
        r.push(v[i]);
        proof {
            assert(v@.subrange(from as int, i as int).push(v@[i as int]) =~= v@.subrange(
                from as int,
                i as int + 1,
            ));
        }
        i += 1;
    }
    r
}

fn digit_at(v: &Vec<char>, i: usize) -> (b: bool)
    requires
        i < v@.len(),
    ensures
        b == is_digit(v@[i as int]),
{
    let c = v[i];
    '0' <= c && c <= '9'
}

fn dd_before(v: &Vec<char>, m: usize) -> (b: bool)
    requires
        1 <= m <= v@.len(),
    ensures
        b == is_digit_or_dot(v@[m - 1]),
{
    let c = v[m - 1];
    ('0' <= c && c <= '9') || c == '.'
}

/// The first position at or after `from` that does not hold a digit.
fn scan_digits(v: &Vec<char>, from: usize) -> (e: usize)
    requires
        from <= v@.len(),
    ensures
        from <= e <= v@.len(),
        forall|k: int| from <= k < e ==> is_digit(#[trigger] v@[k]),
        e < v@.len() ==> !is_digit(v@[e as int]),
{
    let n = v.len();
    let mut i = from;
    while i < n && digit_at(v, i)
        invariant
            from <= i <= n,
            n == v@.len(),
            forall|k: int| from <= k < i ==> is_digit(#[trigger] v@[k]),
        decreases n - i,
    {
        i += 1;
    }
    i
}

/// In a region whose start holds digits up to the first non-digit `e`, a
/// dot preceded only by digits can stand only at `e` itself.
proof fn lemma_dot_at_first_nondigit(w: Seq<char>, lo: int, e: int, p: int)
    requires
        0 <= lo <= e <= w.len(),
        forall|k: int| lo <= k < e ==> is_digit(#[trigger] w[k]),
        e < w.len() ==> !is_digit(w[e]),
        lo <= p < w.len(),
        w[p] == '.',
        all_digits(w.subrange(lo, p)) || p == lo,
    ensures
        p == e,
{
    if p < e {
        assert(is_digit(w[p]));
        assert(false);
    }
    if p > e {
        assert(w.subrange(lo, p)[e - lo] == w[e]);
        assert(is_digit(w[e]));
        assert(false);
    }
}

/// Every character of a version suffix is a digit or a dot, and there is
/// at least one.
proof fn lemma_version_chars(w: Seq<char>)
    requires
        is_version_suffix(w),
    ensures
        w.len() > 0,
        forall|k: int| 0 <= k < w.len() ==> is_digit_or_dot(#[trigger] w[k]),
{
    if version_one_group(w) {
        assert forall|k: int| 0 <= k < w.len() implies is_digit_or_dot(w[k]) by {
            assert(is_digit(w[k]));
        }
    } else if exists|i: int| version_two_groups(w, i) {
        let i = choose|i: int| version_two_groups(w, i);
        assert forall|k: int| 0 <= k < w.len() implies is_digit_or_dot(w[k]) by {
            if k < i {
                assert(w.subrange(0, i)[k] == w[k]);
                assert(is_digit(w[k]));
            } else if k > i {
                assert(w.subrange(i + 1, w.len() as int)[k - i - 1] == w[k]);
                assert(is_digit(w[k]));
            }
        }
    } else {
        let (i, j) = choose|i: int, j: int| version_three_groups(w, i, j);
        assert forall|k: int| 0 <= k < w.len() implies is_digit_or_dot(w[k]) by {
            if k < i {
                assert(w.subrange(0, i)[k] == w[k]);
                assert(is_digit(w[k]));
            } else if i < k < j {
                assert(w.subrange(i + 1, j)[k - i - 1] == w[k]);
                assert(is_digit(w[k]));
            } else if k > j {
                assert(w.subrange(j + 1, w.len() as int)[k - j - 1] == w[k]);
                assert(is_digit(w[k]));
            }
        }
    }
}

/// Whether the whole of `v` is a version suffix.
fn check_version(v: &Vec<char>) -> (b: bool)
    ensures
        b == is_version_suffix(v@),
{
    let ghost w = v@;
    let n = v.len();
    let e1 = scan_digits(v, 0);
    if e1 == 0 {
        proof {
            refute_version_no_first_digit(w);
        }
        return false;
    }
    if e1 == n {
        proof {
            assert(version_one_group(w));
        }
        return true;
    }
    let c1 = v[e1];
    if c1 != '.' {
        proof {
            refute_version_bad_first_stop(w, e1 as int);
        }
        return false;
    }
    let s2 = e1 + 1;
    let e2 = scan_digits(v, s2);
    if e2 == s2 {
        proof {
            refute_version_empty_second_group(w, e1 as int);
        }
        return false;
    }
    if e2 == n {
        proof {
            assert(w.subrange(0, e1 as int).len() > 0);
            assert(forall|k: int|
                0 <= k < e1 ==> is_digit(#[trigger] w.subrange(0, e1 as int)[k]));
            assert(forall|k: int|
                0 <= k < n - s2 ==> is_digit(
                    #[trigger] w.subrange(s2 as int, n as int)[k],
                ));
            assert(version_two_groups(w, e1 as int));
        }
        return true;
    }
    let c2 = v[e2];
    if c2 != '.' {
        proof {
            refute_version_bad_second_stop(w, e1 as int, e2 as int);
        }
        return false;
    }
    let s3 = e2 + 1;
    let e3 = scan_digits(v, s3);
    if e3 == s3 {
        proof {
            refute_version_empty_third_group(w, e1 as int, e2 as int);
        }
        return false;
    }
    if e3 == n {
        proof {
            assert(forall|k: int|
                0 <= k < e1 ==> is_digit(#[trigger] w.subrange(0, e1 as int)[k]));
            assert(forall|k: int|
                0 <= k < e2 - s2 ==> is_digit(
                    #[trigger] w.subrange(s2 as int, e2 as int)[k],
                ));
            assert(forall|k: int|
                0 <= k < n - s3 ==> is_digit(
                    #[trigger] w.subrange(s3 as int, n as int)[k],
                ));
            assert(version_three_groups(w, e1 as int, e2 as int));
        }
        return true;
    }
    proof {
        refute_version_trailing(w, e1 as int, e2 as int, e3 as int);
    }
    false
}

/// No version suffix starts with anything but a digit.
proof fn refute_version_no_first_digit(w: Seq<char>)
    requires
        w.len() > 0 ==> !is_digit(w[0]),
    ensures
        !is_version_suffix(w),
{
    if is_version_suffix(w) {
        lemma_version_chars(w);
        if version_one_group(w) {
            assert(false);
        } else if exists|i: int| version_two_groups(w, i) {
            let i = choose|i: int| version_two_groups(w, i);
            assert(w.subrange(0, i)[0] == w[0]);
            assert(false);
        } else {
            let (i, j) = choose|i: int, j: int| version_three_groups(w, i, j);
            assert(w.subrange(0, i)[0] == w[0]);
            assert(false);
        }
    }
}

/// After its leading digits a version suffix can only continue with a dot.
proof fn refute_version_bad_first_stop(w: Seq<char>, e1: int)
    requires
        0 < e1 < w.len(),
        forall|k: int| 0 <= k < e1 ==> is_digit(#[trigger] w[k]),
        !is_digit(w[e1]),
        w[e1] != '.',
    ensures
        !is_version_suffix(w),
{
    if is_version_suffix(w) {
        if version_one_group(w) {
            assert(false);
        } else if exists|i: int| version_two_groups(w, i) {
            let i = choose|i: int| version_two_groups(w, i);
            lemma_dot_at_first_nondigit(w, 0, e1, i);
            assert(false);
        } else {
            let (i, j) = choose|i: int, j: int| version_three_groups(w, i, j);
            lemma_dot_at_first_nondigit(w, 0, e1, i);
            assert(false);
        }
    }
}

/// The dot of a version suffix is followed by at least one digit.
proof fn refute_version_empty_second_group(w: Seq<char>, e1: int)
    requires
        0 < e1 < w.len(),
        forall|k: int| 0 <= k < e1 ==> is_digit(#[trigger] w[k]),
        w[e1] == '.',
        e1 + 1 < w.len() ==> !is_digit(w[e1 + 1]),
    ensures
        !is_version_suffix(w),
{
    if is_version_suffix(w) {
        if version_one_group(w) {
            assert(!is_digit(w[e1]));
            assert(false);
        } else if exists|i: int| version_two_groups(w, i) {
            let i = choose|i: int| version_two_groups(w, i);
            lemma_dot_at_first_nondigit(w, 0, e1, i);
            let tail = w.subrange(i + 1, w.len() as int);
            assert(tail[0] == w[e1 + 1]);
            assert(false);
        } else {
            let (i, j) = choose|i: int, j: int| version_three_groups(w, i, j);
            lemma_dot_at_first_nondigit(w, 0, e1, i);
            assert(w.subrange(i + 1, j)[0] == w[e1 + 1]);
            assert(false);
        }
    }
}

/// After its second digit group a version suffix can only continue with a
/// second dot.
proof fn refute_version_bad_second_stop(w: Seq<char>, e1: int, e2: int)
    requires
        0 < e1 < e1 + 1 < e2 < w.len(),
        forall|k: int| 0 <= k < e1 ==> is_digit(#[trigger] w[k]),
        w[e1] == '.',
        forall|k: int| e1 + 1 <= k < e2 ==> is_digit(#[trigger] w[k]),
        !is_digit(w[e2]),
        w[e2] != '.',
    ensures
        !is_version_suffix(w),
{
    if is_version_suffix(w) {
        if version_one_group(w) {
            assert(!is_digit(w[e1]));
            assert(false);
        } else if exists|i: int| version_two_groups(w, i) {
            let i = choose|i: int| version_two_groups(w, i);
            lemma_dot_at_first_nondigit(w, 0, e1, i);
            let tail = w.subrange(i + 1, w.len() as int);
            assert(tail[e2 - e1 - 1] == w[e2]);
            assert(false);
        } else {
            let (i, j) = choose|i: int, j: int| version_three_groups(w, i, j);
            lemma_dot_at_first_nondigit(w, 0, e1, i);
            lemma_dot_at_first_nondigit(w, e1 + 1, e2, j);
            assert(false);
        }
    }
}

/// The second dot of a version suffix is followed by at least one digit.
proof fn refute_version_empty_third_group(w: Seq<char>, e1: int, e2: int)
    requires
        0 < e1 < e1 + 1 < e2 < w.len(),
        forall|k: int| 0 <= k < e1 ==> is_digit(#[trigger] w[k]),
        w[e1] == '.',
        forall|k: int| e1 + 1 <= k < e2 ==> is_digit(#[trigger] w[k]),
        w[e2] == '.',
        e2 + 1 < w.len() ==> !is_digit(w[e2 + 1]),
    ensures
        !is_version_suffix(w),
{
    if is_version_suffix(w) {
        if version_one_group(w) {
            assert(!is_digit(w[e1]));
            assert(false);
        } else if exists|i: int| version_two_groups(w, i) {
            let i = choose|i: int| version_two_groups(w, i);
            lemma_dot_at_first_nondigit(w, 0, e1, i);
            let tail = w.subrange(i + 1, w.len() as int);
            assert(tail[e2 - e1 - 1] == w[e2]);
            assert(false);
        } else {
            let (i, j) = choose|i: int, j: int| version_three_groups(w, i, j);
            lemma_dot_at_first_nondigit(w, 0, e1, i);
            lemma_dot_at_first_nondigit(w, e1 + 1, e2, j);
            let g3 = w.subrange(j + 1, w.len() as int);
            assert(g3[0] == w[e2 + 1]);
            assert(false);
        }
    }
}

/// A version suffix ends with its last digit group; nothing may follow.
proof fn refute_version_trailing(w: Seq<char>, e1: int, e2: int, e3: int)
    requires
        0 < e1 < e1 + 1 < e2 < e2 + 1 < e3 < w.len(),
        forall|k: int| 0 <= k < e1 ==> is_digit(#[trigger] w[k]),
        w[e1] == '.',
        forall|k: int| e1 + 1 <= k < e2 ==> is_digit(#[trigger] w[k]),
        w[e2] == '.',
        forall|k: int| e2 + 1 <= k < e3 ==> is_digit(#[trigger] w[k]),
        !is_digit(w[e3]),
    ensures
        !is_version_suffix(w),
{
    if is_version_suffix(w) {
        if version_one_group(w) {
            assert(!is_digit(w[e1]));
            assert(false);
        } else if exists|i: int| version_two_groups(w, i) {
            let i = choose|i: int| version_two_groups(w, i);
            lemma_dot_at_first_nondigit(w, 0, e1, i);
            let tail = w.subrange(i + 1, w.len() as int);
            assert(tail[e2 - e1 - 1] == w[e2]);
            assert(false);
        } else {
            let (i, j) = choose|i: int, j: int| version_three_groups(w, i, j);
            lemma_dot_at_first_nondigit(w, 0, e1, i);
            lemma_dot_at_first_nondigit(w, e1 + 1, e2, j);
            let g3 = w.subrange(j + 1, w.len() as int);
            assert(g3[e3 - e2 - 1] == w[e3]);
            assert(false);
        }
    }
}

fn sep_before(v: &Vec<char>, i: usize) -> (b: bool)
    requires
        i <= v@.len(),
    ensures
        b == (i == 0 || v@[i as int - 1] == '-' || v@[i as int - 1] == '/'),
{
    if i == 0 {
        true
    } else {
        let c = v[i - 1];
        c == '-' || c == '/'
    }
}

/// A driver token has two or three characters.
proof fn lemma_token_len(t: Seq<char>)
    requires
        is_driver_token(t),
    ensures
        t.len() == 2 || t.len() == 3,
{
    reveal_strlit("cc");
    reveal_strlit("gcc");
    reveal_strlit("g++");
    reveal_strlit("c++");
}

/// Whether a driver token ends exactly at `e`.
fn check_token_ends(v: &Vec<char>, e: usize) -> (b: bool)
    requires
        e <= v@.len(),
    ensures
        b == token_ends_at(v@, e as int),
{
    proof {
        reveal_strlit("cc");
        reveal_strlit("gcc");
        reveal_strlit("g++");
        reveal_strlit("c++");
    }
    let ghost s = v@;
    let ghost e_i = e as int;
    if e >= 2 && sep_before(v, e - 2) && v[e - 2] == 'c' && v[e - 1] == 'c' {
        proof {
            assert(s.subrange(e_i - 2, e_i) =~= "cc"@);
            assert(is_driver_token(s.subrange(e_i - 2, e_i)));
        }
        return true;
    }
    if e >= 3 && sep_before(v, e - 3) {
        let a = v[e - 3];
        let b2 = v[e - 2];
        let c2 = v[e - 1];
        if a == 'g' && b2 == 'c' && c2 == 'c' {
            proof {
                assert(s.subrange(e_i - 3, e_i) =~= "gcc"@);
                assert(is_driver_token(s.subrange(e_i - 3, e_i)));
            }
            return true;
        }
        if a == 'g' && b2 == '+' && c2 == '+' {
            proof {
                assert(s.subrange(e_i - 3, e_i) =~= "g++"@);
                assert(is_driver_token(s.subrange(e_i - 3, e_i)));
            }
            return true;
        }
        if a == 'c' && b2 == '+' && c2 == '+' {
            proof {
                assert(s.subrange(e_i - 3, e_i) =~= "c++"@);
                assert(is_driver_token(s.subrange(e_i - 3, e_i)));
            }
            return true;
        }
    }
    proof {
        if token_ends_at(s, e_i) {
            let i = choose|i: int|
                0 <= i <= e_i <= s.len() && is_driver_token(#[trigger] s.subrange(i, e_i)) && (i
                    == 0 || s[i - 1] == '-' || s[i - 1] == '/');
            let t = s.subrange(i, e_i);
            lemma_token_len(t);
            assert(t.len() == e_i - i);
            if t == "cc"@ {
                assert(s[e_i - 2] == t[0]);
                assert(s[e_i - 1] == t[1]);
                assert(false);
            } else if t == "gcc"@ {
                assert(s[e_i - 3] == t[0]);
                assert(s[e_i - 2] == t[1]);
                assert(s[e_i - 1] == t[2]);
                assert(false);
            } else if t == "g++"@ {
                assert(s[e_i - 3] == t[0]);
                assert(s[e_i - 2] == t[1]);
                assert(s[e_i - 1] == t[2]);
                assert(false);
            } else {
                assert(t == "c++"@);
                assert(s[e_i - 3] == t[0]);
                assert(s[e_i - 2] == t[1]);
                assert(s[e_i - 1] == t[2]);
                assert(false);
            }
        }
    }
    false
}

/// Whether `name` matches the compiler-driver pattern; answers exactly as
/// the structural specification does.
#[verifier::loop_isolation(false)]
pub fn matches_compiler_name(name: &str) -> (b: bool)
    ensures
        b == is_compiler_name(name@),
{
    let v = chars_of(name);
    let ghost s = v@;
    let n = v.len();
    if check_token_ends(&v, n) {
        proof {
            assert(token_ends_at(s, n as int));
        }
        return true;
    }
    let mut m = n;
    while m > 0 && dd_before(&v, m)
        invariant
            m <= n,
            forall|k: int| m <= k < n ==> is_digit_or_dot(#[trigger] s[k]),
        decreases m,
    {
        m -= 1;
    }
    if m < n && m > 0 {
        let prev = v[m - 1];
        if prev == '-' {
            let suf = copy_range(&v, m, n);
            if check_version(&suf) {
                if check_token_ends(&v, m - 1) {
                    proof {
                        assert(s[m - 1] == '-');
                        assert(token_ends_at(s, m as int - 1));
                        assert(is_version_suffix(s.subrange(m as int, n as int)));
                    }
                    return true;
                }
            }
        }
    }
    proof {
        if is_compiler_name(s) {
            let j = choose|j: int|
                0 <= j <= s.len() && #[trigger] token_ends_at(s, j) && (j == s.len() || (s[j] == '-'
                    && is_version_suffix(s.subrange(j + 1, s.len() as int))));
            if j == n {
                assert(false);
            } else {
                let i = choose|i: int|
                    0 <= i <= j <= s.len() && is_driver_token(#[trigger] s.subrange(i, j)) && (i
                        == 0 || s[i - 1] == '-' || s[i - 1] == '/');
                lemma_token_len(s.subrange(i, j));
                assert(j >= 2);
                let w = s.subrange(j + 1, n as int);
                lemma_version_chars(w);
                assert(w.len() > 0);
                assert forall|k: int| j + 1 <= k < n implies is_digit_or_dot(#[trigger] s[k]) by {
                    assert(w[k - j - 1] == s[k]);
                }
                if m > j + 1 {
                    assert(is_digit_or_dot(s[m - 1]));
                    assert(false);
                }
                if m < j + 1 {
                    assert(is_digit_or_dot(s[j]));
                    assert(false);
                }
                assert(m == j + 1);
                assert(s[n as int - 1] == w[w.len() - 1]);
                assert(m < n);
                assert(s.subrange(m as int, n as int) == w);
                assert(false);
            }
        }
    }
    false
}

} // verus!
