//! Verified helpers over strings viewed as sequences of characters:
//! equality, substring search, trimming, joining, and number parsing.

use vstd::prelude::*;
use vstd::string::StrSliceExecFns;
use vstd::string::StringExecFns;

verus! {

/// The Unicode `White_Space` property, as documented for `char::is_whitespace`.
pub open spec fn is_space_char(c: char) -> bool {
    (0x9 <= c as u32 && c as u32 <= 0xD) || c as u32 == 0x20 || c as u32 == 0x85
        || c as u32 == 0xA0 || c as u32 == 0x1680
        || (0x2000 <= c as u32 && c as u32 <= 0x200A) || c as u32 == 0x2028
        || c as u32 == 0x2029 || c as u32 == 0x202F || c as u32 == 0x205F
        || c as u32 == 0x3000
}

/// Decides whether `c` carries the Unicode `White_Space` property.
pub fn char_is_space(c: char) -> (r: bool)
    ensures
        r == is_space_char(c),
{
    let u = c as u32;
    (0x9 <= u && u <= 0xD) || u == 0x20 || u == 0x85 || u == 0xA0 || u == 0x1680
        || (0x2000 <= u && u <= 0x200A) || u == 0x2028 || u == 0x2029 || u == 0x202F
        || u == 0x205F || u == 0x3000
}

/// Character-wise string equality.
pub fn str_eq(a: &str, b: &str) -> (r: bool)
    ensures
        r == (a@ == b@),
{
    let alen = a.unicode_len();
    let blen = b.unicode_len();
    if alen != blen {
        return false;
    }
    let mut i: usize = 0;
    while i < alen
        invariant
            alen == a@.len(),
            blen == b@.len(),
            alen == blen,
            i <= alen,
            forall|j: int| 0 <= j < i ==> a@[j] == b@[j],
        decreases alen - i,
    {
        if a.get_char(i) != b.get_char(i) {
            return false;
        }
        i = i + 1;
    }
    proof {
        assert(a@ =~= b@);
    }
    true
}

/// `sub` occurs in `s` as a contiguous subsequence.
pub open spec fn contains_sub(s: Seq<char>, sub: Seq<char>) -> bool {
    exists|i: int| 0 <= i <= s.len() - sub.len() && #[trigger] s.subrange(i, i + sub.len()) == sub
}

/// Substring search, as `str::contains` over characters.
pub fn str_contains(hay: &str, needle: &str) -> (r: bool)
    ensures
        r == contains_sub(hay@, needle@),
{
    let n = hay.unicode_len();
    let m = needle.unicode_len();
    if m > n {
        return false;
    }
    if m == 0 {
        proof {
            assert(hay@.subrange(0, 0 + needle@.len() as int) =~= needle@);
        }
        return true;
    }
    let mut i: usize = 0;
    while i <= n - m
        invariant
            n == hay@.len(),
            m == needle@.len(),
            1 <= m <= n,
            i <= n - m + 1,
            forall|k: int| 0 <= k < i ==> #[trigger] hay@.subrange(k, k + m) != needle@,
        decreases n - m + 1 - i,
    {
        let mut j: usize = 0;
        let mut ok = true;
        while j < m
            invariant
                n == hay@.len(),
                m == needle@.len(),
                1 <= m <= n,
                i <= n - m,
                j <= m,
                ok ==> forall|t: int| 0 <= t < j ==> hay@[i + t] == needle@[t],
                !ok ==> hay@.subrange(i as int, i + m) != needle@,
            decreases m - j,
        {
            if hay.get_char(i + j) != needle.get_char(j) {
                proof {
                    assert(hay@.subrange(i as int, i + m)[j as int] == hay@[i + j]);
                }
                ok = false;
                j = m;
            } else {
                j = j + 1;
            }
        }
        if ok {
            proof {
                assert(hay@.subrange(i as int, i + m) =~= needle@);
            }
            return true;
        }
        i = i + 1;
    }
    false
}

/// Leading characters with the `White_Space` property removed.
pub open spec fn trim_front(s: Seq<char>) -> Seq<char>
    decreases s.len(),
{
    if s.len() > 0 && is_space_char(s[0]) {
        trim_front(s.drop_first())
    } else {
        s
    }
}

/// Trailing characters with the `White_Space` property removed.
pub open spec fn trim_back(s: Seq<char>) -> Seq<char>
    decreases s.len(),
{
    if s.len() > 0 && is_space_char(s.last()) {
        trim_back(s.drop_last())
    } else {
        s
    }
}

/// Both ends trimmed, as `str::trim`.
pub open spec fn trim_spec(s: Seq<char>) -> Seq<char> {
    trim_back(trim_front(s))
}

proof fn lemma_trim_front_subrange(s: Seq<char>, k: int)
    requires
        0 <= k <= s.len(),
        forall|j: int| 0 <= j < k ==> is_space_char(s[j]),
        k == s.len() || !is_space_char(s[k]),
    ensures
        trim_front(s) == s.subrange(k, s.len() as int),
    decreases k,
{
    if k == 0 {
        if s.len() == 0 {
            assert(trim_front(s) =~= s.subrange(0, s.len() as int));
        } else {
            assert(trim_front(s) == s);
            assert(s =~= s.subrange(0, s.len() as int));
        }
    } else {
        assert(is_space_char(s[0]));
        let t = s.drop_first();
        assert(forall|j: int| 0 <= j < k - 1 ==> is_space_char(#[trigger] t[j]));
        lemma_trim_front_subrange(t, k - 1);
        assert(t.subrange(k - 1, t.len() as int) =~= s.subrange(k, s.len() as int));
    }
}

proof fn lemma_trim_back_subrange(s: Seq<char>, e: int)
    requires
        0 <= e <= s.len(),
        forall|j: int| e <= j < s.len() ==> is_space_char(s[j]),
        e == 0 || !is_space_char(s[e - 1]),
    ensures
        trim_back(s) == s.subrange(0, e),
    decreases s.len(),
{
    if e == s.len() {
        if s.len() == 0 {
            assert(trim_back(s) =~= s.subrange(0, e));
        } else {
            assert(!is_space_char(s.last()));
            assert(s =~= s.subrange(0, e));
        }
    } else {
        assert(is_space_char(s.last()));
        let t = s.drop_last();
        lemma_trim_back_subrange(t, e);
        assert(t.subrange(0, e) =~= s.subrange(0, e));
    }
}

/// Trimming, as `str::trim`: both ends stripped of whitespace characters.
pub fn str_trim(s: &str) -> (r: String)
    ensures
        r@ == trim_spec(s@),
{
    let n = s.unicode_len();
    let mut start: usize = 0;
    loop
        invariant
            n == s@.len(),
            start <= n,
            forall|j: int| 0 <= j < start ==> is_space_char(s@[j]),
        ensures
            start <= n,
            forall|j: int| 0 <= j < start ==> is_space_char(s@[j]),
            start == n || !is_space_char(s@[start as int]),
        decreases n - start,
    {
        if start < n {
            if char_is_space(s.get_char(start)) {
                start = start + 1;
            } else {
                break;
            }
        } else {
            break;
        }
    }
    proof {
        lemma_trim_front_subrange(s@, start as int);
    }
    let mut end: usize = n;
    loop
        invariant
            n == s@.len(),
            start <= end <= n,
            forall|j: int| end <= j < n ==> is_space_char(s@[j]),
        ensures
            start <= end <= n,
            forall|j: int| end <= j < n ==> is_space_char(s@[j]),
            end == start || !is_space_char(s@[end - 1]),
        decreases end,
    {
        if end > start {
            if char_is_space(s.get_char(end - 1)) {
                end = end - 1;
            } else {
                break;
            }
        } else {
            break;
        }
    }
    let sub = s.substring_char(start, end);
    proof {
        let u = s@.subrange(start as int, n as int);
        if end == start {
            lemma_trim_back_subrange(u, 0);
        } else {
            lemma_trim_back_subrange(u, end - start);
        }
        assert(u.subrange(0, end - start) =~= s@.subrange(start as int, end as int));
    }
    String::from_str(sub)
}

/// `parts` interleaved with `sep`, as `[T]::join`.
pub open spec fn join_spec(parts: Seq<Seq<char>>, sep: Seq<char>) -> Seq<char>
    decreases parts.len(),
{
    if parts.len() == 0 {
        Seq::empty()
    } else if parts.len() == 1 {
        parts[0]
    } else {
        parts[0] + sep + join_spec(parts.drop_first(), sep)
    }
}

proof fn lemma_join_snoc(parts: Seq<Seq<char>>, sep: Seq<char>, x: Seq<char>)
    ensures
        parts.len() == 0 ==> join_spec(parts.push(x), sep) == x,
        parts.len() > 0 ==> join_spec(parts.push(x), sep) == join_spec(parts, sep) + sep + x,
    decreases parts.len(),
{
    if parts.len() == 0 {
        assert(parts.push(x)[0] == x);
    } else if parts.len() == 1 {
        let p = parts.push(x);
        assert(p.len() == 2);
        assert(p.drop_first() =~= seq![x]);
        assert(join_spec(p.drop_first(), sep) == x);
        assert(p[0] == parts[0]);
    } else {
        let p = parts.push(x);
        assert(p.drop_first() =~= parts.drop_first().push(x));
        lemma_join_snoc(parts.drop_first(), sep, x);
        assert(p[0] == parts[0]);
        assert((parts[0] + sep + (join_spec(parts.drop_first(), sep) + sep + x)) =~= (parts[0]
            + sep + join_spec(parts.drop_first(), sep)) + sep + x);
    }
}

/// Joining, as `[String]::join`: the parts interleaved with the separator.
pub fn join_strings(parts: &Vec<String>, sep: &str) -> (r: String)
    ensures
        r@ == join_spec(parts.deep_view(), sep@),
{
    let mut r = String::new();
    let mut i: usize = 0;
    while i < parts.len()
        invariant
            i <= parts.len(),
            parts.deep_view().len() == parts.len(),
            r@ == join_spec(parts.deep_view().subrange(0, i as int), sep@),
        decreases parts.len() - i,
    {
        if i > 0 {
            r.append(sep);
        }
        r.append(parts[i].as_str());
        proof {
            let pv = parts.deep_view();
            assert(pv.subrange(0, i as int).push(pv[i as int]) =~= pv.subrange(0, i + 1));
            lemma_join_snoc(pv.subrange(0, i as int), sep@, pv[i as int]);
            assert(pv[i as int] == parts@[i as int]@);
        }
        i = i + 1;
    }
    proof {
        assert(parts.deep_view().subrange(0, parts.len() as int) =~= parts.deep_view());
    }
    r
}

/// The directory part of a slash-separated path: everything before the
/// last `/`, or empty where there is none.
pub open spec fn dir_of(p: Seq<char>) -> Seq<char>
    decreases p.len(),
{
    if p.len() == 0 {
        Seq::empty()
    } else if p.last() == '/' {
        p.drop_last()
    } else {
        dir_of(p.drop_last())
    }
}

/// `rel` resolved against the directory `dir`.
pub open spec fn join_dir(dir: Seq<char>, rel: Seq<char>) -> Seq<char> {
    if dir.len() == 0 {
        rel
    } else {
        dir + "/"@ + rel
    }
}

proof fn lemma_dir_of_no_slash(p: Seq<char>)
    requires
        forall|j: int| 0 <= j < p.len() ==> p[j] != '/',
    ensures
        dir_of(p) == Seq::<char>::empty(),
    decreases p.len(),
{
    if p.len() > 0 {
        lemma_dir_of_no_slash(p.drop_last());
    } else {
        assert(dir_of(p) =~= Seq::<char>::empty());
    }
}

proof fn lemma_dir_of_at(p: Seq<char>, k: int)
    requires
        0 <= k < p.len(),
        p[k] == '/',
        forall|j: int| k < j < p.len() ==> p[j] != '/',
    ensures
        dir_of(p) == p.subrange(0, k),
    decreases p.len(),
{
    if k == p.len() - 1 {
        assert(p.last() == '/');
        assert(p.drop_last() =~= p.subrange(0, k));
    } else {
        assert(p.last() != '/');
        let q = p.drop_last();
        assert(q[k] == '/');
        lemma_dir_of_at(q, k);
        assert(q.subrange(0, k) =~= p.subrange(0, k));
    }
}

/// The directory part of a slash-separated path.
pub fn path_dir(p: &str) -> (r: String)
    ensures
        r@ == dir_of(p@),
{
    let n = p.unicode_len();
    let mut k: usize = n;
    loop
        invariant
            n == p@.len(),
            k <= n,
            forall|j: int| k <= j < n ==> p@[j] != '/',
        ensures
            k <= n,
            forall|j: int| k <= j < n ==> p@[j] != '/',
            k == 0 || p@[k - 1] == '/',
        decreases k,
    {
        if k > 0 {
            if p.get_char(k - 1) == '/' {
                break;
            } else {
                k = k - 1;
            }
        } else {
            break;
        }
    }
    if k == 0 {
        proof {
            lemma_dir_of_no_slash(p@);
        }
        String::new()
    } else {
        proof {
            lemma_dir_of_at(p@, k - 1);
        }
        let sub = p.substring_char(0, k - 1);
        String::from_str(sub)
    }
}

/// Resolves `rel` against the directory `dir`.
pub fn path_join(dir: &str, rel: &str) -> (r: String)
    ensures
        r@ == join_dir(dir@, rel@),
{
    if dir.unicode_len() == 0 {
        rel.to_owned()
    } else {
        let mut r = dir.to_owned();
        r.append("/");
        r.append(rel);
        r
    }
}

/// An ASCII decimal digit.
pub open spec fn is_digit_char(c: char) -> bool {
    0x30 <= c as u32 && c as u32 <= 0x39
}

/// The numeric value of one ASCII digit.
pub open spec fn digit_of(c: char) -> nat {
    (c as u32 - 0x30) as nat
}

/// Nonempty and made of ASCII digits only.
pub open spec fn all_digits(s: Seq<char>) -> bool {
    s.len() > 0 && forall|i: int| 0 <= i < s.len() ==> is_digit_char(s[i])
}

/// The value of a digit string read in base ten.
pub open spec fn digits_val(s: Seq<char>) -> nat
    decreases s.len(),
{
    if s.len() == 0 {
        0
    } else {
        digits_val(s.drop_last()) * 10 + digit_of(s.last())
    }
}

/// The digit part: everything after an optional leading `+`.
pub open spec fn strip_plus(s: Seq<char>) -> Seq<char> {
    if s.len() > 0 && s[0] == '+' {
        s.drop_first()
    } else {
        s
    }
}

/// The value of a digit string, if it is one and fits in `usize`.
pub open spec fn parse_digits(t: Seq<char>) -> Option<usize> {
    if all_digits(t) && digits_val(t) <= usize::MAX {
        Some(digits_val(t) as usize)
    } else {
        None
    }
}

/// What `str::parse::<usize>` accepts: an optional leading `+`, then ASCII
/// digits whose value fits in `usize`.
pub open spec fn parse_usize_spec(s: Seq<char>) -> Option<usize> {
    parse_digits(strip_plus(s))
}

proof fn lemma_digits_val_prefix(s: Seq<char>, k: int)
    requires
        0 <= k <= s.len(),
    ensures
        digits_val(s) >= digits_val(s.subrange(0, k)),
    decreases s.len() - k,
{
    if k == s.len() {
        assert(s.subrange(0, k) =~= s);
    } else {
        let t = s.subrange(0, k + 1);
        assert(t.drop_last() =~= s.subrange(0, k));
        assert(digits_val(t) == digits_val(s.subrange(0, k)) * 10 + digit_of(t.last()));
        assert(digits_val(s.subrange(0, k)) * 10 >= digits_val(s.subrange(0, k)))
            by (nonlinear_arith);
        lemma_digits_val_prefix(s, k + 1);
    }
}

/// Base-ten parsing, as `str::parse::<usize>`: an optional leading `+`,
/// then at least one ASCII digit, rejecting values that do not fit.
pub fn parse_usize(s: &str) -> (r: Option<usize>)
    ensures
        r == parse_usize_spec(s@),
{
    let n = s.unicode_len();
    let off: usize = if n > 0 && s.get_char(0) == '+' {
        1
    } else {
        0
    };
    let ghost t = strip_plus(s@);
    proof {
        assert(t =~= s@.subrange(off as int, n as int));
    }
    if n == off {
        return None;
    }
    let mut acc: usize = 0;
    let mut i: usize = off;
    while i < n
        invariant
            n == s@.len(),
            off <= i <= n,
            off <= 1,
            t == strip_plus(s@),
            t == s@.subrange(off as int, n as int),
            forall|j: int| 0 <= j < i - off ==> is_digit_char(t[j]),
            acc as nat == digits_val(t.subrange(0, i - off)),
        decreases n - i,
    {
        let c = s.get_char(i);
        proof {
            assert(t[i - off] == s@[i as int]);
        }
        let u = c as u32;
        if u < 0x30 || u > 0x39 {
            proof {
                assert(!is_digit_char(t[i - off]));
                assert(!all_digits(t));
                assert(parse_usize_spec(s@) is None);
            }
            return None;
        }
        let d: usize = (u - 0x30) as usize;
        proof {
            assert(t.subrange(0, i - off).push(c) =~= t.subrange(0, i + 1 - off));
            assert(t.subrange(0, i + 1 - off).drop_last() =~= t.subrange(0, i - off));
            assert(t.subrange(0, i + 1 - off).last() == c);
            assert(digit_of(c) == d as nat);
            assert(digits_val(t.subrange(0, i + 1 - off)) == acc as nat * 10 + d);
        }
        let max10: usize = usize::MAX / 10;
        if acc > max10 || (acc == max10 && d > usize::MAX % 10) {
            proof {
                assert(acc as nat * 10 + d > usize::MAX) by (nonlinear_arith)
                    requires
                        acc > usize::MAX / 10 || (acc == usize::MAX / 10 && d > usize::MAX % 10),
                        d <= 9,
                ;
                lemma_digits_val_prefix(t, i + 1 - off);
            }
            return None;
        }
        proof {
            assert(acc as nat * 10 + d <= usize::MAX) by (nonlinear_arith)
                requires
                    acc <= usize::MAX / 10,
                    acc == usize::MAX / 10 ==> d <= usize::MAX % 10,
                    d <= 9,
            ;
        }
        acc = acc * 10 + d;
        i = i + 1;
    }
    proof {
        assert(t.subrange(0, n - off) =~= t);
    }
    Some(acc)
}

} // verus!
