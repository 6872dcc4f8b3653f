//! The cookie-refresh protocol: resolve `${cookie.NAME}` references in the
//! operator's refresh request, validate the request shape, and extract the
//! fresh token values from the response by the configured specification
//! (a JSON path in the body, a response header, or a regular-expression
//! capture). The HTTP call itself happens outside.

use vstd::prelude::*;

use crate::cookie::CookieStore;
use crate::text::{chars_eq, chars_of, find_from, first_idx, lemma_first_idx_at, slice_of,
    split_at_seps, split_by, string_from_chars};

verus! {

/// The errors the refresh protocol reports.
#[derive(PartialEq, Eq, Debug)]
pub enum RefreshError {
    /// A `${cookie.` reference without a closing brace.
    InvalidTemplate,
    /// A referenced cookie has no current value; carries the cookie name.
    MissingCookie(String),
    /// The request configures both a form body and a JSON body.
    BothBodies,
    /// The request method is GET but a body is configured.
    BodyOnGet,
    /// An extraction specification without a `kind:value` shape.
    InvalidSpec,
    /// An extraction specification of an unknown kind.
    UnsupportedSpec,
    /// The response body is not JSON, or the configured path is absent.
    MissingToken,
    /// The configured header is absent from the response.
    MissingHeader,
    /// The configured pattern did not match, had no capture group, or does
    /// not compile.
    NoRegexMatch,
}

/// What resolving the templates in one text yields.
pub ghost enum ResolveOutcome {
    Done(Seq<char>),
    Unterminated,
    Missing(Seq<char>),
}

/// Index of the first occurrence of `pat` in `s`, or `s.len()` if none.
pub open spec fn first_sub_idx(s: Seq<char>, pat: Seq<char>) -> int
    decreases s.len(),
    via first_sub_idx_decreases
{
    if s.len() < pat.len() {
        s.len() as int
    } else if s.subrange(0, pat.len() as int) == pat {
        0
    } else {
        1 + first_sub_idx(s.drop_first(), pat)
    }
}

#[via_fn]
proof fn first_sub_idx_decreases(s: Seq<char>, pat: Seq<char>) {
    if s.len() >= pat.len() && s.subrange(0, pat.len() as int) != pat {
        if s.len() == 0 {
            assert(s.subrange(0, pat.len() as int) =~= pat);
        }
    }
}

pub proof fn lemma_first_sub_idx(s: Seq<char>, pat: Seq<char>)
    requires
        pat.len() > 0,
    ensures
        0 <= first_sub_idx(s, pat) <= s.len(),
        first_sub_idx(s, pat) + pat.len() <= s.len() ==> s.subrange(
            first_sub_idx(s, pat),
            first_sub_idx(s, pat) + pat.len() as int,
        ) == pat,
    decreases s.len(),
{
    if s.len() >= pat.len() && s.subrange(0, pat.len() as int) != pat {
        lemma_first_sub_idx(s.drop_first(), pat);
        if first_sub_idx(s, pat) + pat.len() <= s.len() {
            assert(s.drop_first().subrange(
                first_sub_idx(s.drop_first(), pat),
                first_sub_idx(s.drop_first(), pat) + pat.len() as int,
            ) =~= s.subrange(first_sub_idx(s, pat), first_sub_idx(s, pat) + pat.len() as int));
        }
    }
}

proof fn lemma_first_sub_idx_at(s: Seq<char>, pat: Seq<char>, i: int)
    requires
        pat.len() > 0,
        0 <= i,
        i + pat.len() <= s.len(),
        forall|k: int|
            0 <= k < i ==> #[trigger] s.subrange(k, k + pat.len() as int) != pat,
        s.subrange(i, i + pat.len() as int) == pat,
    ensures
        first_sub_idx(s, pat) == i,
    decreases s.len(),
{
    if i == 0 {
    } else {
        assert(s.subrange(0, pat.len() as int) == s.subrange(0, 0 + pat.len() as int));
        assert(s.subrange(0, pat.len() as int) != pat);
        assert forall|k: int|
            0 <= k < i - 1 implies #[trigger] s.drop_first().subrange(k, k + pat.len() as int)
            != pat by {
            assert(s.drop_first().subrange(k, k + pat.len() as int) =~= s.subrange(
                k + 1,
                k + 1 + pat.len() as int,
            ));
        }
        assert(s.drop_first().subrange(i - 1, i - 1 + pat.len() as int) =~= s.subrange(
            i,
            i + pat.len() as int,
        ));
        lemma_first_sub_idx_at(s.drop_first(), pat, i - 1);
    }
}

proof fn lemma_first_sub_idx_none(s: Seq<char>, pat: Seq<char>)
    requires
        pat.len() > 0,
        forall|k: int|
            0 <= k && k + pat.len() <= s.len() ==> #[trigger] s.subrange(k, k + pat.len() as int)
                != pat,
    ensures
        first_sub_idx(s, pat) == s.len(),
    decreases s.len(),
{
    if s.len() >= pat.len() {
        assert(s.subrange(0, pat.len() as int) == s.subrange(0, 0 + pat.len() as int));
        assert forall|k: int|
            0 <= k && k + pat.len() <= s.drop_first().len() implies #[trigger] s.drop_first()
                .subrange(k, k + pat.len() as int) != pat by {
            assert(s.drop_first().subrange(k, k + pat.len() as int) =~= s.subrange(
                k + 1,
                k + 1 + pat.len() as int,
            ));
        }
        lemma_first_sub_idx_none(s.drop_first(), pat);
    }
}

/// What resolving `${cookie.NAME}` references in `s` against the cookie map
/// yields: the spliced text, or the first failure — an unterminated
/// reference, or a referenced name with no value.
pub open spec fn resolve_spec(s: Seq<char>, cookies: Map<Seq<char>, Seq<char>>) -> ResolveOutcome
    decreases s.len(),
    via resolve_spec_decreases
{
    let marker = "${cookie."@;
    let i = first_sub_idx(s, marker);
    if i + marker.len() > s.len() {
        ResolveOutcome::Done(s)
    } else {
        let after = s.skip(i + marker.len() as int);
        let e = first_idx(after, '}');
        if e >= after.len() {
            ResolveOutcome::Unterminated
        } else {
            let key = after.subrange(0, e);
            if !cookies.contains_key(key) {
                ResolveOutcome::Missing(key)
            } else {
                match resolve_spec(after.skip(e + 1), cookies) {
                    ResolveOutcome::Done(rest) => ResolveOutcome::Done(
                        s.subrange(0, i) + cookies[key] + rest,
                    ),
                    other => other,
                }
            }
        }
    }
}

#[via_fn]
proof fn resolve_spec_decreases(s: Seq<char>, cookies: Map<Seq<char>, Seq<char>>) {
    reveal_strlit("${cookie.");
    lemma_first_sub_idx(s, "${cookie."@);
    let i = first_sub_idx(s, "${cookie."@);
    if i + "${cookie."@.len() <= s.len() {
        crate::text::lemma_first_idx(s.skip(i + "${cookie."@.len() as int), '}');
    }
}

/// Replace every `${cookie.NAME}` in `input` by the named cookie's current
/// value; an unterminated reference or a name without a value is an error.
pub fn resolve_template(store: &CookieStore, input: &str) -> (r: Result<String, RefreshError>)
    requires
        store.wf(),
    ensures
        match resolve_spec(input@, store.cookies()) {
            ResolveOutcome::Done(t) => r is Ok && r.unwrap()@ == t,
            ResolveOutcome::Unterminated => r == Result::<String, RefreshError>::Err(
                RefreshError::InvalidTemplate,
            ),
            ResolveOutcome::Missing(k) => r is Err && (r.unwrap_err() matches
                RefreshError::MissingCookie(n) && n@ == k),
        },
{
    let v = chars_of(input);
    let resolved = resolve_chars(store, &v)?;
    Ok(resolved)
}

fn resolve_chars(store: &CookieStore, v: &Vec<char>) -> (r: Result<String, RefreshError>)
    requires
        store.wf(),
    ensures
        match resolve_spec(v@, store.cookies()) {
            ResolveOutcome::Done(t) => r is Ok && r.unwrap()@ == t,
            ResolveOutcome::Unterminated => r == Result::<String, RefreshError>::Err(
                RefreshError::InvalidTemplate,
            ),
            ResolveOutcome::Missing(k) => r is Err && (r.unwrap_err() matches
                RefreshError::MissingCookie(n) && n@ == k),
        },
    decreases v@.len(),
{
    proof {
        reveal_strlit("${cookie.");
    }
    let marker = chars_of("${cookie.");
    let ghost mseq = "${cookie."@;
    let n = v.len();
    if n < 9 {
        proof {
            lemma_first_sub_idx_none(v@, mseq);
        }
        return Ok(string_from_chars(v));
    }
    // Find the first occurrence of the marker.
    let mut i: usize = 0;
    let mut found = false;
    while !found && i <= n - 9
        invariant
            marker@ == mseq,
            mseq.len() == 9,
            n == v@.len(),
            9 <= n,
            i <= n - 8,
            !found ==> forall|k: int|
                0 <= k < i ==> #[trigger] v@.subrange(k, k + mseq.len() as int) != mseq,
            found ==> i + 9 <= n && v@.subrange(i as int, i as int + mseq.len() as int) == mseq
                && forall|k: int|
                0 <= k < i ==> #[trigger] v@.subrange(k, k + mseq.len() as int) != mseq,
        decreases n - i, (if found { 0int } else { 1int }),
    {
        let window = slice_of(v, i, i + 9);
        if chars_eq(&window, &marker) {
            found = true;
        } else {
            i = i + 1;
        }
    }
    if !found {
        proof {
            assert forall|k: int|
                0 <= k && k + mseq.len() <= v@.len() implies #[trigger] v@.subrange(
                k,
                k + mseq.len() as int,
            ) != mseq by {
                assert(k < i);
            }
            lemma_first_sub_idx_none(v@, mseq);
        }
        return Ok(string_from_chars(v));
    }
    proof {
        lemma_first_sub_idx_at(v@, mseq, i as int);
    }
    // Find the closing brace after the marker.
    let key_start = i + 9;
    let e = find_from(v, '}', key_start);
    let ghost after = v@.skip(key_start as int);
    proof {
        assert(forall|k: int|
            0 <= k < e - key_start ==> after[k] == v@[k + key_start as int] && after[k] != '}');
        if e < v@.len() {
            assert(after[e - key_start as int] == '}');
        }
        lemma_first_idx_at(after, '}', e - key_start as int);
    }
    if e == n {
        return Err(RefreshError::InvalidTemplate);
    }
    let key = slice_of(v, key_start, e);
    proof {
        assert(key@ =~= after.subrange(0, e - key_start as int));
    }
    let key_text = string_from_chars(&key);
    match store.get_value(key_text.as_str()) {
        None => Err(RefreshError::MissingCookie(key_text)),
        Some(value) => {
            let tail = slice_of(v, e + 1, n);
            proof {
                assert(tail@ =~= after.skip(e - key_start as int + 1));
            }
            match resolve_chars(store, &tail) {
                Err(err) => Err(err),
                Ok(rest) => {
                    let head = slice_of(v, 0, i);
                    let mut out = string_from_chars(&head);
                    out.append(value.as_str());
                    out.append(rest.as_str());
                    proof {
                        assert(out@ =~= v@.subrange(0, i as int) + store.cookies()[key@] + rest@);
                    }
                    Ok(out)
                },
            }
        },
    }
}

/// Whether a method text spells GET, in any letter case.
pub open spec fn is_get_method(m: Seq<char>) -> bool {
    m.len() == 3 && (m[0] == 'G' || m[0] == 'g') && (m[1] == 'E' || m[1] == 'e') && (m[2] == 'T'
        || m[2] == 't')
}

fn method_is_get(m: &str) -> (r: bool)
    ensures
        r == is_get_method(m@),
{
    let v = chars_of(m);
    if v.len() != 3 {
        return false;
    }
    (v[0] == 'G' || v[0] == 'g') && (v[1] == 'E' || v[1] == 'e') && (v[2] == 'T' || v[2] == 't')
}

/// Check the shape of a refresh request: a form body and a JSON body are
/// mutually exclusive, and a GET request carries no body at all. These are
/// configuration errors, not runtime retries.
pub fn validate_refresh_request(
    method: &str,
    form_len: usize,
    json_len: usize,
) -> (r: Result<(), RefreshError>)
    ensures
        form_len > 0 && json_len > 0 ==> r == Result::<(), RefreshError>::Err(
            RefreshError::BothBodies,
        ),
        !(form_len > 0 && json_len > 0) && is_get_method(method@) && (form_len > 0 || json_len
            > 0) ==> r == Result::<(), RefreshError>::Err(RefreshError::BodyOnGet),
        !(form_len > 0 && json_len > 0) && !(is_get_method(method@) && (form_len > 0 || json_len
            > 0)) ==> r is Ok,
{
    if form_len > 0 && json_len > 0 {
        return Err(RefreshError::BothBodies);
    }
    if method_is_get(method) && (form_len > 0 || json_len > 0) {
        return Err(RefreshError::BodyOnGet);
    }
    Ok(())
}

/// The extraction strategy one `kind:value` specification denotes.
#[derive(PartialEq, Eq, Debug)]
pub enum ExtractKind {
    BodyJson(String),
    Header(String),
    BodyRegex(String),
}

/// The spec-level strategy of a specification text: the part before the
/// first `:` picks the kind, the rest is its argument.
pub open spec fn extract_kind_spec(s: Seq<char>) -> Option<(int, Seq<char>)> {
    let i = first_idx(s, ':');
    if i >= s.len() {
        None
    } else {
        let kind = s.subrange(0, i);
        let value = s.skip(i + 1);
        if kind == "body.json"@ {
            Some((0, value))
        } else if kind == "header"@ {
            Some((1, value))
        } else if kind == "body.regex"@ {
            Some((2, value))
        } else {
            Some((3, value))
        }
    }
}

/// Parse one extraction specification. A text without `:` is invalid; an
/// unknown kind is unsupported; otherwise the strategy and its argument.
pub fn parse_extraction_spec(spec_text: &str) -> (r: Result<ExtractKind, RefreshError>)
    ensures
        match extract_kind_spec(spec_text@) {
            None => r == Result::<ExtractKind, RefreshError>::Err(RefreshError::InvalidSpec),
            Some((kind, value)) => {
                if kind == 0 {
                    r is Ok && (r.unwrap() matches ExtractKind::BodyJson(p) && p@ == value)
                } else if kind == 1 {
                    r is Ok && (r.unwrap() matches ExtractKind::Header(h) && h@ == value)
                } else if kind == 2 {
                    r is Ok && (r.unwrap() matches ExtractKind::BodyRegex(p) && p@ == value)
                } else {
                    r == Result::<ExtractKind, RefreshError>::Err(RefreshError::UnsupportedSpec)
                }
            },
        },
{
    let v = chars_of(spec_text);
    let i = find_from(&v, ':', 0);
    proof {
        lemma_first_idx_at(v@, ':', i as int);
    }
    if i == v.len() {
        return Err(RefreshError::InvalidSpec);
    }
    let kind = slice_of(&v, 0, i);
    let value = slice_of(&v, i + 1, v.len());
    proof {
        assert(value@ =~= v@.skip(i as int + 1));
    }
    let kind_text = string_from_chars(&kind);
    let value_text = string_from_chars(&value);
    if crate::text::str_eq(kind_text.as_str(), "body.json") {
        Ok(ExtractKind::BodyJson(value_text))
    } else if crate::text::str_eq(kind_text.as_str(), "header") {
        Ok(ExtractKind::Header(value_text))
    } else if crate::text::str_eq(kind_text.as_str(), "body.regex") {
        Ok(ExtractKind::BodyRegex(value_text))
    } else {
        Err(RefreshError::UnsupportedSpec)
    }
}

/// The pieces of a dotted member path, in order, empty pieces skipped
/// (`a..b` reads as `a` then `b`).
pub open spec fn nonempty_parts(parts: Seq<Seq<char>>) -> Seq<Seq<char>>
    decreases parts.len(),
{
    if parts.len() == 0 {
        Seq::empty()
    } else {
        let rest = nonempty_parts(parts.drop_first());
        if parts[0].len() > 0 {
            seq![parts[0]] + rest
        } else {
            rest
        }
    }
}

/// The member pieces a dotted path denotes.
pub open spec fn path_parts(path: Seq<char>) -> Seq<Seq<char>> {
    nonempty_parts(split_at_seps(path, '.'))
}

/// Split a dotted member path into its nonempty pieces.
fn split_path(path: &str) -> (r: Vec<String>)
    ensures
        r.deep_view() == path_parts(path@),
{
    let pv = chars_of(path);
    let parts = split_by(&pv, '.');
    let ghost all = parts.deep_view();
    let mut r: Vec<String> = Vec::new();
    let mut i: usize = 0;
    proof {
        assert(all.skip(0) =~= all);
        assert(r.deep_view() =~= Seq::<Seq<char>>::empty());
        assert(Seq::<Seq<char>>::empty() + nonempty_parts(all) =~= nonempty_parts(all));
    }
    while i < parts.len()
        invariant
            i <= parts@.len(),
            all == parts.deep_view(),
            parts@.len() == all.len(),
            nonempty_parts(all) == r.deep_view() + nonempty_parts(all.skip(i as int)),
        decreases parts@.len() - i,
    {
        let ghost r0 = r.deep_view();
        proof {
            assert(all.skip(i as int)[0] == all[i as int]);
            assert(all.skip(i as int).drop_first() =~= all.skip(i as int + 1));
            assert(parts@[i as int].deep_view() == all[i as int]);
            assert(parts@[i as int]@ =~= parts@[i as int].deep_view());
        }
        if parts[i].len() > 0 {
            let piece = string_from_chars(&parts[i]);
            r.push(piece);
            proof {
                assert(r.deep_view() =~= r0.push(all[i as int]));
                assert(r0.push(all[i as int]) + nonempty_parts(all.skip(i as int + 1)) =~= r0 + (
                seq![all[i as int]] + nonempty_parts(all.skip(i as int + 1))));
            }
        }
        i = i + 1;
    }
    proof {
        assert(all.skip(all.len() as int) =~= Seq::<Seq<char>>::empty());
        assert(r.deep_view() + Seq::<Seq<char>>::empty() =~= r.deep_view());
    }
    r
}

/// The string at a chain of JSON object members: what walking the given
/// member names through the JSON document of `body` reaches, when that is a
/// string. A function of the body text and the member names alone.
pub uninterp spec fn json_members_text(body: Seq<char>, parts: Seq<Seq<char>>) -> Option<
    Seq<char>,
>;

/// Relies on serde_json's `from_str`, `Value::get` and `Value::as_str`: the
/// string reached by walking the member names through the body's JSON
/// document — absent when the body is not JSON, a member is missing, or the
/// reached value is not a string. The calls are combined here so that the
/// composite result can be named as a function of the body and the names.
#[verifier::external_body]
fn json_text_at(body: &str, parts: &Vec<String>) -> (r: Option<String>)
    ensures
        r is Some <==> json_members_text(body@, parts.deep_view()) is Some,
        r is Some ==> r.unwrap()@ == json_members_text(body@, parts.deep_view()).unwrap(),
{
    let doc: serde_json::Value = serde_json::from_str(body).ok()?;
    let mut cur = &doc;
    let mut i: usize = 0;
    while i < parts.len() {
        cur = cur.get(parts[i].as_str())?;
        i += 1;
    }
    cur.as_str().map(|t| t.to_string())
}

/// The text of the first capture group of the first match of a pattern in a
/// text. A function of the pattern and the text alone.
pub uninterp spec fn regex_first_capture(pattern: Seq<char>, text: Seq<char>) -> Option<
    Seq<char>,
>;

/// Relies on regex's `Regex::new` and `Regex::captures`: the first capture
/// group of the first match — absent when the pattern does not compile,
/// does not match, or has no capture group. The calls are combined here so
/// that the composite result can be named as a function of the two texts.
#[verifier::external_body]
fn regex_capture_text(pattern: &str, text: &str) -> (r: Option<String>)
    ensures
        r is Some <==> regex_first_capture(pattern@, text@) is Some,
        r is Some ==> r.unwrap()@ == regex_first_capture(pattern@, text@).unwrap(),
{
    regex::Regex::new(pattern).ok().and_then(|re| re.captures(text)).and_then(|caps| caps.get(1))
        .map(|m| m.as_str().to_string())
}

/// The value of the first response header with this name. Names compare
/// exactly: HTTP stacks hand header names over in lowercase, so the caller
/// lowercases the configured name before looking it up.
pub open spec fn header_lookup(
    headers: Seq<(Seq<char>, Seq<char>)>,
    name: Seq<char>,
) -> Option<Seq<char>>
    decreases headers.len(),
{
    if headers.len() == 0 {
        None
    } else if headers[0].0 == name {
        Some(headers[0].1)
    } else {
        header_lookup(headers.drop_first(), name)
    }
}

/// View of a header list.
pub open spec fn headers_seq(h: Seq<(String, String)>) -> Seq<(Seq<char>, Seq<char>)> {
    Seq::new(h.len(), |i: int| (h[i].0@, h[i].1@))
}

fn find_header(headers: &Vec<(String, String)>, name: &str) -> (r: Option<String>)
    ensures
        r is Some <==> header_lookup(headers_seq(headers@), name@) is Some,
        r is Some ==> r.unwrap()@ == header_lookup(headers_seq(headers@), name@).unwrap(),
{
    let ghost hs = headers_seq(headers@);
    let nv = chars_of(name);
    let mut i: usize = 0;
    proof {
        assert(hs.skip(0) =~= hs);
    }
    while i < headers.len()
        invariant
            i <= headers@.len(),
            hs == headers_seq(headers@),
            nv@ == name@,
            header_lookup(hs, name@) == header_lookup(hs.skip(i as int), name@),
        decreases headers@.len() - i,
    {
        proof {
            assert(hs.skip(i as int)[0] == hs[i as int]);
            assert(hs.skip(i as int).drop_first() =~= hs.skip(i as int + 1));
        }
        let hv = chars_of(headers[i].0.as_str());
        if chars_eq(&hv, &nv) {
            return Some(headers[i].1.clone());
        }
        i = i + 1;
    }
    proof {
        assert(hs.skip(hs.len() as int) =~= Seq::<(Seq<char>, Seq<char>)>::empty());
    }
    None
}

/// Extract one token value from the refresh response, by the configured
/// specification: a JSON path into the body, a response header name, or a
/// regular expression whose first capture group is the token. Each strategy
/// is pinned: the JSON strategy yields the string at the path's member
/// chain, the header strategy the named header's value, the regex strategy
/// the first capture of the pattern; each failure reports its own error.
pub fn extract_token_value(
    headers: &Vec<(String, String)>,
    body: &str,
    spec_text: &str,
) -> (r: Result<String, RefreshError>)
    ensures
        extract_kind_spec(spec_text@) is None ==> r == Result::<String, RefreshError>::Err(
            RefreshError::InvalidSpec,
        ),
        extract_kind_spec(spec_text@) matches Some((kind, value)) ==> {
            if kind == 0 {
                match json_members_text(body@, path_parts(value)) {
                    Some(t) => r is Ok && r.unwrap()@ == t,
                    None => r == Result::<String, RefreshError>::Err(RefreshError::MissingToken),
                }
            } else if kind == 1 {
                match header_lookup(headers_seq(headers@), value) {
                    Some(v) => r is Ok && r.unwrap()@ == v,
                    None => r == Result::<String, RefreshError>::Err(RefreshError::MissingHeader),
                }
            } else if kind == 2 {
                match regex_first_capture(value, body@) {
                    Some(t) => r is Ok && r.unwrap()@ == t,
                    None => r == Result::<String, RefreshError>::Err(RefreshError::NoRegexMatch),
                }
            } else {
                r == Result::<String, RefreshError>::Err(RefreshError::UnsupportedSpec)
            }
        },
{
    match parse_extraction_spec(spec_text)? {
        ExtractKind::BodyJson(path) => {
            let parts = split_path(path.as_str());
            match json_text_at(body, &parts) {
                Some(t) => Ok(t),
                None => Err(RefreshError::MissingToken),
            }
        },
        ExtractKind::Header(name) => {
            match find_header(headers, name.as_str()) {
                Some(v) => Ok(v),
                None => Err(RefreshError::MissingHeader),
            }
        },
        ExtractKind::BodyRegex(pattern) => {
            match regex_capture_text(pattern.as_str(), body) {
                Some(t) => Ok(t),
                None => Err(RefreshError::NoRegexMatch),
            }
        },
    }
}

} // verus!
