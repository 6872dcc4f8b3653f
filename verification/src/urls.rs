//! URL text utilities: collapsing duplicated slashes in the path part of a
//! built URL, and reducing a URL to its host/path core so that two spellings
//! of the same service address compare equal.

use vstd::prelude::*;

use crate::text::{chars_of, slice_of, starts_with_chars, string_from_chars};

verus! {

/// Index of the first `://` in `s`, or `s.len()` if there is none.
pub open spec fn scheme_sep(s: Seq<char>) -> int
    decreases s.len(),
{
    if s.len() < 3 {
        s.len() as int
    } else if s[0] == ':' && s[1] == '/' && s[2] == '/' {
        0
    } else {
        1 + scheme_sep(s.drop_first())
    }
}

proof fn lemma_scheme_sep_at(s: Seq<char>, i: int)
    requires
        0 <= i,
        i + 3 <= s.len(),
        forall|k: int| 0 <= k < i ==> !(#[trigger] s[k] == ':' && s[k + 1] == '/' && s[k + 2] == '/'),
        s[i] == ':' && s[i + 1] == '/' && s[i + 2] == '/',
    ensures
        scheme_sep(s) == i,
    decreases s.len(),
{
    if i > 0 {
        lemma_scheme_sep_at(s.drop_first(), i - 1);
    }
}

proof fn lemma_scheme_sep_none(s: Seq<char>)
    requires
        forall|k: int|
            0 <= k && k + 3 <= s.len() ==> !(#[trigger] s[k] == ':' && s[k + 1] == '/' && s[k + 2]
                == '/'),
    ensures
        scheme_sep(s) == s.len(),
    decreases s.len(),
{
    if s.len() >= 3 {
        assert(forall|k: int|
            0 <= k && k + 3 <= s.drop_first().len() ==> #[trigger] s.drop_first()[k] == s[k + 1]
                && s.drop_first()[k + 1] == s[k + 2] && s.drop_first()[k + 2] == s[k + 3]);
        lemma_scheme_sep_none(s.drop_first());
    }
}

/// The path text with every run of slashes shortened to one slash; the
/// query or fragment, from the first `?` or `#` on, is kept verbatim.
pub open spec fn collapse_path(s: Seq<char>) -> Seq<char>
    decreases s.len(),
{
    if s.len() == 0 {
        Seq::empty()
    } else if s[0] == '?' || s[0] == '#' {
        s
    } else if s[0] == '/' && s.len() >= 2 && s[1] == '/' {
        collapse_path(s.drop_first())
    } else {
        seq![s[0]] + collapse_path(s.drop_first())
    }
}

/// A URL with duplicated slashes removed from its path: the text after the
/// scheme marker is collapsed, everything up to and including `://` is kept.
pub open spec fn format_url_spec(s: Seq<char>) -> Seq<char> {
    let i = scheme_sep(s);
    if i + 3 <= s.len() {
        s.subrange(0, i + 3) + collapse_path(s.skip(i + 3))
    } else {
        s
    }
}

/// Normalize a URL built by string concatenation: collapse duplicated
/// slashes in the path while leaving scheme, query and fragment alone.
pub fn format_url(url: &str) -> (r: String)
    ensures
        r@ == format_url_spec(url@),
{
    let v = chars_of(url);
    let n = v.len();
    if n < 3 {
        proof {
            lemma_scheme_sep_none(v@);
        }
        return String::from_str(url);
    }
    // Find the scheme marker.
    let mut sep: usize = 0;
    while sep <= n - 3 && !(v[sep] == ':' && v[sep + 1] == '/' && v[sep + 2] == '/')
        invariant
            n == v@.len(),
            3 <= n,
            sep <= n - 2,
            forall|k: int|
                0 <= k < sep ==> !(#[trigger] v@[k] == ':' && v@[k + 1] == '/' && v@[k + 2]
                    == '/'),
        decreases n - sep,
    {
        sep = sep + 1;
    }
    if sep > n - 3 {
        proof {
            lemma_scheme_sep_none(v@);
        }
        return String::from_str(url);
    }
    proof {
        lemma_scheme_sep_at(v@, sep as int);
    }
    let mut out = slice_of(&v, 0, sep + 3);
    let mut i: usize = sep + 3;
    proof {
        assert(v@.skip(sep as int + 3) =~= v@.subrange(sep as int + 3, n as int));
    }
    let mut guard = true;
    while i < n
        invariant
            n == v@.len(),
            sep + 3 <= i <= n,
            guard ==> format_url_spec(v@) == out@ + collapse_path(v@.skip(i as int)),
            !guard ==> format_url_spec(v@) == out@ + v@.skip(i as int),
        decreases n - i,
    {
        let c = v[i];
        proof {
            assert(v@.skip(i as int)[0] == v@[i as int]);
            assert(v@.skip(i as int).drop_first() =~= v@.skip(i as int + 1));
        }
        if guard && (c == '?' || c == '#') {
            guard = false;
            out.push(c);
            proof {
                assert(out@ + v@.skip(i as int + 1) =~= (out@.drop_last()) + v@.skip(i as int));
            }
        } else if guard && c == '/' && i + 1 < n && v[i + 1] == '/' {
            // skip this slash: the next character starts the same run
        } else {
            out.push(c);
            proof {
                if guard {
                    assert((out@.drop_last()) + (seq![c] + collapse_path(v@.skip(i as int + 1)))
                        =~= out@ + collapse_path(v@.skip(i as int + 1)));
                } else {
                    assert((out@.drop_last()) + v@.skip(i as int) =~= out@ + v@.skip(i as int + 1));
                }
            }
        }
        i = i + 1;
    }
    proof {
        assert(v@.skip(n as int) =~= Seq::<char>::empty());
        if guard {
            assert(out@ + collapse_path(Seq::<char>::empty()) =~= out@);
        } else {
            assert(out@ + Seq::<char>::empty() =~= out@);
        }
    }
    string_from_chars(&out)
}

/// `s` without a leading `http://` or `https://`.
pub open spec fn strip_scheme(s: Seq<char>) -> Seq<char> {
    if s.len() >= 8 && s.subrange(0, 8) == "https://"@ {
        s.skip(8)
    } else if s.len() >= 7 && s.subrange(0, 7) == "http://"@ {
        s.skip(7)
    } else {
        s
    }
}

/// `s` without trailing slashes.
pub open spec fn strip_trailing_slashes(s: Seq<char>) -> Seq<char>
    decreases s.len(),
{
    if s.len() > 0 && s[s.len() - 1] == '/' {
        strip_trailing_slashes(s.drop_last())
    } else {
        s
    }
}

/// The host/path core of a URL used to compare service addresses: the
/// scheme and trailing slashes are irrelevant to identity.
pub open spec fn simplify_url_spec(s: Seq<char>) -> Seq<char> {
    strip_trailing_slashes(strip_scheme(s))
}

/// Reduce a URL to its comparable core: drop a leading `http://` or
/// `https://` and any trailing slashes.
pub fn simplify_url(url: &str) -> (r: String)
    ensures
        r@ == simplify_url_spec(url@),
{
    let v = chars_of(url);
    proof {
        reveal_strlit("https://");
        reveal_strlit("http://");
    }
    let https = chars_of("https://");
    let http = chars_of("http://");
    let start: usize = if starts_with_chars(&v, &https) {
        8
    } else if starts_with_chars(&v, &http) {
        7
    } else {
        0
    };
    proof {
        assert(v@.skip(start as int) =~= v@.subrange(start as int, v@.len() as int));
        assert(strip_scheme(v@) == v@.skip(start as int));
    }
    let mut hi = v.len();
    while hi > start && v[hi - 1] == '/'
        invariant
            start <= hi <= v@.len(),
            strip_trailing_slashes(v@.skip(start as int)) == strip_trailing_slashes(
                v@.subrange(start as int, hi as int),
            ),
        decreases hi,
    {
        proof {
            assert(v@.subrange(start as int, hi as int).drop_last() =~= v@.subrange(
                start as int,
                hi as int - 1,
            ));
        }
        hi = hi - 1;
    }
    let core = slice_of(&v, start, hi);
    string_from_chars(&core)
}

} // verus!
