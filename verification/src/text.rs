//! Character-level text helpers shared by the cookie store, the history
//! reconciler and the URL utilities: trimming, splitting on a separator,
//! substring search, and conversions between `str` and `Vec<char>`.

use vstd::prelude::*;

verus! {

/// The whitespace characters that surrounding-space trimming removes.
pub open spec fn is_space(c: char) -> bool {
    c == ' ' || c == '\t' || c == '\n' || c == '\r'
}

/// `s` with leading whitespace removed.
pub open spec fn ltrim_spec(s: Seq<char>) -> Seq<char>
    decreases s.len(),
{
    if s.len() > 0 && is_space(s[0]) {
        ltrim_spec(s.drop_first())
    } else {
        s
    }
}

/// `s` with trailing whitespace removed.
pub open spec fn rtrim_spec(s: Seq<char>) -> Seq<char>
    decreases s.len(),
{
    if s.len() > 0 && is_space(s[s.len() - 1]) {
        rtrim_spec(s.drop_last())
    } else {
        s
    }
}

/// `s` with surrounding whitespace removed.
pub open spec fn trim_spec(s: Seq<char>) -> Seq<char> {
    rtrim_spec(ltrim_spec(s))
}

/// Index of the first occurrence of `c` in `s`, or `s.len()` if absent.
pub open spec fn first_idx(s: Seq<char>, c: char) -> int
    decreases s.len(),
{
    if s.len() == 0 {
        0
    } else if s[0] == c {
        0
    } else {
        1 + first_idx(s.drop_first(), c)
    }
}

pub proof fn lemma_first_idx(s: Seq<char>, c: char)
    ensures
        0 <= first_idx(s, c) <= s.len(),
        first_idx(s, c) < s.len() ==> s[first_idx(s, c)] == c,
        forall|k: int| 0 <= k < first_idx(s, c) ==> s[k] != c,
    decreases s.len(),
{
    if s.len() > 0 && s[0] != c {
        lemma_first_idx(s.drop_first(), c);
        assert forall|k: int| 0 <= k < first_idx(s, c) implies s[k] != c by {
            if k > 0 {
                assert(s.drop_first()[k - 1] == s[k]);
            }
        }
    }
}

/// `first_idx` is pinned down by its characteristic properties.
pub proof fn lemma_first_idx_at(s: Seq<char>, c: char, i: int)
    requires
        0 <= i <= s.len(),
        forall|k: int| 0 <= k < i ==> s[k] != c,
        i < s.len() ==> s[i] == c,
    ensures
        first_idx(s, c) == i,
    decreases s.len(),
{
    if s.len() > 0 && s[0] != c {
        lemma_first_idx_at(s.drop_first(), c, i - 1);
    }
}

/// `s` split at every occurrence of `sep`; the separators themselves are
/// not kept. The result always holds at least one piece.
pub open spec fn split_at_seps(s: Seq<char>, sep: char) -> Seq<Seq<char>>
    decreases s.len(),
    via split_at_seps_decreases
{
    let i = first_idx(s, sep);
    if i >= s.len() {
        seq![s]
    } else {
        seq![s.subrange(0, i)] + split_at_seps(s.skip(i + 1), sep)
    }
}

#[via_fn]
proof fn split_at_seps_decreases(s: Seq<char>, sep: char) {
    lemma_first_idx(s, sep);
}

/// `needle` occurs as a contiguous run inside `hay`.
pub open spec fn has_sub(hay: Seq<char>, needle: Seq<char>) -> bool {
    exists|i: int|
        0 <= i && i + needle.len() <= hay.len() && #[trigger] hay.subrange(i, i + needle.len())
            == needle
}

/// The characters of `s`, as an indexable vector.
pub fn chars_of(s: &str) -> (v: Vec<char>)
    ensures
        v@ == s@,
{
    let n = s.unicode_len();
    let mut v: Vec<char> = Vec::new();
    let mut i: usize = 0;
    while i < n
        invariant
            n == s@.len(),
            i <= n,
            v@ == s@.subrange(0, i as int),
        decreases n - i,
    {
        let c = s.get_char(i);
        v.push(c);
        i = i + 1;
        assert(v@ =~= s@.subrange(0, i as int));
    }
    assert(v@ =~= s@);
    v
}

/// Relies on `String::push`: appends one character at the end.
#[verifier::external_body]
fn push_char(s: &mut String, c: char)
    ensures
        final(s)@ == old(s)@.push(c),
{
    s.push(c);
}

/// A `String` holding exactly the characters of `v`.
pub fn string_from_chars(v: &Vec<char>) -> (s: String)
    ensures
        s@ == v@,
{
    let mut s = String::new();
    let mut i: usize = 0;
    while i < v.len()
        invariant
            i <= v@.len(),
            s@ == v@.subrange(0, i as int),
        decreases v@.len() - i,
    {
        push_char(&mut s, v[i]);
        i = i + 1;
        assert(s@ =~= v@.subrange(0, i as int));
    }
    assert(s@ =~= v@);
    s
}

/// The characters of `v` from `lo` (inclusive) to `hi` (exclusive).
pub fn slice_of(v: &Vec<char>, lo: usize, hi: usize) -> (r: Vec<char>)
    requires
        lo <= hi <= v@.len(),
    ensures
        r@ == v@.subrange(lo as int, hi as int),
{
    let mut r: Vec<char> = Vec::new();
    let mut i: usize = lo;
    while i < hi
        invariant
            lo <= i <= hi <= v@.len(),
            r@ == v@.subrange(lo as int, i as int),
        decreases hi - i,
    {
        r.push(v[i]);
        i = i + 1;
        assert(r@ =~= v@.subrange(lo as int, i as int));
    }
    r
}

/// Whether two character vectors hold the same characters.
pub fn chars_eq(a: &Vec<char>, b: &Vec<char>) -> (r: bool)
    ensures
        r == (a@ == b@),
{
    if a.len() != b.len() {
        assert(a@ != b@);
        return false;
    }
    let mut i: usize = 0;
    while i < a.len()
        invariant
            i <= a@.len(),
            a@.len() == b@.len(),
            forall|k: int| 0 <= k < i ==> a@[k] == b@[k],
        decreases a@.len() - i,
    {
        if a[i] != b[i] {
            return false;
        }
        i = i + 1;
    }
    assert(a@ =~= b@);
    true
}

fn is_space_exec(c: char) -> (r: bool)
    ensures
        r == is_space(c),
{
    c == ' ' || c == '\t' || c == '\n' || c == '\r'
}

/// `v` with surrounding whitespace removed.
pub fn trim_of(v: &Vec<char>) -> (r: Vec<char>)
    ensures
        r@ == trim_spec(v@),
{
    let n = v.len();
    let mut lo: usize = 0;
    proof {
        assert(v@.skip(0) =~= v@);
    }
    while lo < n && is_space_exec(v[lo])
        invariant
            n == v@.len(),
            lo <= n,
            ltrim_spec(v@) == ltrim_spec(v@.skip(lo as int)),
        decreases n - lo,
    {
        proof {
            assert(v@.skip(lo as int).drop_first() =~= v@.skip(lo as int + 1));
        }
        lo = lo + 1;
    }
    proof {
        assert(v@.skip(0) =~= v@);
        // Either the rest is empty or it starts with a non-space character,
        // so the left trim is complete.
        assert(ltrim_spec(v@) == v@.skip(lo as int));
    }
    let mut hi: usize = n;
    while hi > lo && is_space_exec(v[hi - 1])
        invariant
            lo <= hi <= n,
            n == v@.len(),
            ltrim_spec(v@) == v@.skip(lo as int),
            rtrim_spec(v@.skip(lo as int)) == rtrim_spec(v@.subrange(lo as int, hi as int)),
        decreases hi,
    {
        proof {
            assert(v@.subrange(lo as int, hi as int).drop_last() =~= v@.subrange(
                lo as int,
                hi as int - 1,
            ));
        }
        hi = hi - 1;
    }
    proof {
        assert(v@.skip(lo as int) =~= v@.subrange(lo as int, n as int));
    }
    slice_of(v, lo, hi)
}

/// Index of the first occurrence of `c` in `v` at or after `from`,
/// or `v.len()` if there is none.
pub fn find_from(v: &Vec<char>, c: char, from: usize) -> (r: usize)
    requires
        from <= v@.len(),
    ensures
        from <= r <= v@.len(),
        r < v@.len() ==> v@[r as int] == c,
        forall|k: int| from <= k < r ==> v@[k] != c,
{
    let mut i: usize = from;
    while i < v.len()
        invariant
            from <= i <= v@.len(),
            forall|k: int| from <= k < i ==> v@[k] != c,
        decreases v@.len() - i,
    {
        if v[i] == c {
            return i;
        }
        i = i + 1;
    }
    i
}

/// `v` split at every occurrence of `sep`.
pub fn split_by(v: &Vec<char>, sep: char) -> (parts: Vec<Vec<char>>)
    ensures
        parts.deep_view() == split_at_seps(v@, sep),
        parts@.len() >= 1,
{
    let mut parts: Vec<Vec<char>> = Vec::new();
    let mut pos: usize = 0;
    proof {
        assert(v@.skip(0) =~= v@);
        assert(parts.deep_view() =~= Seq::<Seq<char>>::empty());
        assert(Seq::<Seq<char>>::empty() + split_at_seps(v@, sep) =~= split_at_seps(v@, sep));
    }
    loop
        invariant_except_break
            split_at_seps(v@, sep) == parts.deep_view() + split_at_seps(v@.skip(pos as int), sep),
        invariant
            pos <= v@.len(),
        ensures
            parts.deep_view() == split_at_seps(v@, sep),
            parts@.len() >= 1,
        decreases v@.len() - pos,
    {
        let i = find_from(v, sep, pos);
        let seg = slice_of(v, pos, i);
        let ghost old_dv = parts.deep_view();
        let ghost rest = v@.skip(pos as int);
        parts.push(seg);
        proof {
            assert forall|k: int| 0 <= k < parts@.len() implies parts.deep_view()[k]
                == old_dv.push(seg@)[k] by {
                if k == old_dv.len() {
                    assert(parts@[k].deep_view() =~= parts@[k]@);
                }
            }
            assert(parts.deep_view() =~= old_dv.push(seg@));
            // The found index, shifted into the remainder, is the first
            // occurrence of the separator there.
            assert(forall|k: int|
                0 <= k < i - pos ==> rest[k] == v@[k + pos as int] && rest[k] != sep);
            if i < v@.len() {
                assert(rest[i - pos as int] == sep);
            }
            lemma_first_idx_at(rest, sep, i - pos as int);
            assert(rest.subrange(0, i - pos as int) =~= v@.subrange(pos as int, i as int));
        }
        if i == v.len() {
            proof {
                assert(split_at_seps(rest, sep) == seq![rest]);
                assert(rest =~= v@.subrange(pos as int, i as int));
                assert(parts.deep_view() =~= old_dv + seq![seg@]);
            }
            break;
        }
        proof {
            assert(rest.skip(i - pos as int + 1) =~= v@.skip(i as int + 1));
            assert(split_at_seps(rest, sep) == seq![seg@] + split_at_seps(
                v@.skip(i as int + 1),
                sep,
            ));
            assert(old_dv.push(seg@) + split_at_seps(v@.skip(i as int + 1), sep) =~= old_dv + (
            seq![seg@] + split_at_seps(v@.skip(i as int + 1), sep)));
        }
        pos = i + 1;
    }
    parts
}

/// Whether `needle` occurs as a contiguous run inside `hay`.
pub fn contains_sub(hay: &Vec<char>, needle: &Vec<char>) -> (r: bool)
    ensures
        r == has_sub(hay@, needle@),
{
    let n = needle.len();
    let h = hay.len();
    if n > h {
        assert(!has_sub(hay@, needle@));
        return false;
    }
    if n == 0 {
        assert(hay@.subrange(0, 0 + needle@.len() as int) =~= needle@);
        assert(has_sub(hay@, needle@));
        return true;
    }
    let mut i: usize = 0;
    while i <= h - n
        invariant
            n == needle@.len(),
            h == hay@.len(),
            0 < n <= h,
            i <= h - n + 1,
            forall|k: int| 0 <= k < i ==> #[trigger] hay@.subrange(k, k + needle@.len())
                != needle@,
        decreases h - i,
    {
        let window = slice_of(hay, i, i + n);
        if chars_eq(&window, needle) {
            assert(hay@.subrange(i as int, i as int + needle@.len()) == needle@);
            assert(has_sub(hay@, needle@));
            return true;
        }
        i = i + 1;
    }
    assert(!has_sub(hay@, needle@));
    false
}

/// Whether `v` starts with `prefix`.
pub fn starts_with_chars(v: &Vec<char>, prefix: &Vec<char>) -> (r: bool)
    ensures
        r == (prefix@.len() <= v@.len() && v@.subrange(0, prefix@.len() as int) == prefix@),
{
    if prefix.len() > v.len() {
        return false;
    }
    let head = slice_of(v, 0, prefix.len());
    chars_eq(&head, prefix)
}

/// Relies on `str`'s `PartialEq`: equal exactly when the character
/// sequences are equal.
#[verifier::external_body]
pub fn str_eq(a: &str, b: &str) -> (r: bool)
    ensures
        r == (a@ == b@),
{
    a == b
}

} // verus!
