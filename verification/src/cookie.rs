//! The cookie store: holds the current session-cookie header value, merges
//! updates with last-write-wins semantics per cookie key, and decides when the
//! operator-configured subset of keys has to be written back to the
//! configuration file. The caller performs the actual write and confirms it.

use vstd::prelude::*;

use crate::text::{
    chars_eq, chars_of, find_from, first_idx, has_sub, is_space, lemma_first_idx,
    lemma_first_idx_at, slice_of, split_at_seps, split_by, string_from_chars, trim_of, trim_spec,
};

verus! {

/// The cookie pair a `k=v` piece of a cookie string denotes, if any:
/// the name is what stands before the first `=`, trimmed; the value is the
/// rest, trimmed; pieces without `=` or with an empty name denote nothing.
pub open spec fn pair_of_part(p: Seq<char>) -> Option<(Seq<char>, Seq<char>)> {
    let i = first_idx(p, '=');
    if i >= p.len() {
        None
    } else {
        let name = trim_spec(p.subrange(0, i));
        if name.len() == 0 {
            None
        } else {
            Some((name, trim_spec(p.skip(i + 1))))
        }
    }
}

/// The map denoted by a sequence of `k=v` pieces; a later piece wins over an
/// earlier piece with the same name.
pub open spec fn map_of_parts(parts: Seq<Seq<char>>) -> Map<Seq<char>, Seq<char>>
    decreases parts.len(),
{
    if parts.len() == 0 {
        Map::empty()
    } else {
        let rest = map_of_parts(parts.drop_first());
        match pair_of_part(parts[0]) {
            None => rest,
            Some(p) => if rest.contains_key(p.0) {
                rest
            } else {
                rest.insert(p.0, p.1)
            },
        }
    }
}

/// The cookie map denoted by a `k=v; k=v` cookie string.
pub open spec fn cookie_map_of(s: Seq<char>) -> Map<Seq<char>, Seq<char>> {
    map_of_parts(split_at_seps(s, ';'))
}

/// The map denoted by an association list, a later entry winning.
pub open spec fn assoc_map(pairs: Seq<(Seq<char>, Seq<char>)>) -> Map<Seq<char>, Seq<char>>
    decreases pairs.len(),
{
    if pairs.len() == 0 {
        Map::empty()
    } else {
        let rest = assoc_map(pairs.drop_first());
        if rest.contains_key(pairs[0].0) {
            rest
        } else {
            rest.insert(pairs[0].0, pairs[0].1)
        }
    }
}

/// A name or value that a cookie header can carry and parsing gives back
/// unchanged: no `;`, trimmed at both ends.
pub open spec fn wf_cookie_text(s: Seq<char>) -> bool {
    &&& forall|k: int| 0 <= k < s.len() ==> s[k] != ';'
    &&& (s.len() > 0 ==> !is_space(s[0]) && !is_space(s[s.len() - 1]))
}

/// A well-formed cookie pair: a name additionally is nonempty and has no `=`.
pub open spec fn wf_cookie_pair(p: (Seq<char>, Seq<char>)) -> bool {
    &&& wf_cookie_text(p.0)
    &&& wf_cookie_text(p.1)
    &&& p.0.len() > 0
    &&& forall|k: int| 0 <= k < p.0.len() ==> p.0[k] != '='
}

/// Well-formed pair list: every pair well formed, names distinct.
pub open spec fn wf_cookie_pairs(pairs: Seq<(Seq<char>, Seq<char>)>) -> bool {
    &&& forall|i: int| 0 <= i < pairs.len() ==> wf_cookie_pair(#[trigger] pairs[i])
    &&& forall|i: int, j: int|
        0 <= i < j < pairs.len() ==> (#[trigger] pairs[i]).0 != (#[trigger] pairs[j]).0
}

/// The `k=v` text of one pair.
pub open spec fn cookie_item(p: (Seq<char>, Seq<char>)) -> Seq<char> {
    p.0 + seq!['='] + p.1
}

/// The cookie header text of a pair list: items joined with `"; "`.
pub open spec fn join_cookies(pairs: Seq<(Seq<char>, Seq<char>)>) -> Seq<char>
    decreases pairs.len(),
{
    if pairs.len() == 0 {
        Seq::empty()
    } else if pairs.len() == 1 {
        cookie_item(pairs[0])
    } else {
        cookie_item(pairs[0]) + seq![';', ' '] + join_cookies(pairs.drop_first())
    }
}

/// `c` occurs in `s`.
pub open spec fn has_char(s: Seq<char>, c: char) -> bool {
    exists|k: int| 0 <= k < s.len() && s[k] == c
}

/// Whether `c` occurs in `v`.
pub fn has_char_exec(v: &Vec<char>, c: char) -> (r: bool)
    ensures
        r == has_char(v@, c),
{
    let i = find_from(v, c, 0);
    i < v.len()
}

/// Trimming never adds characters: a property of every character of `s`
/// holds of every character of `trim_spec(s)`.
pub proof fn lemma_ltrim_chars(s: Seq<char>, p: spec_fn(char) -> bool)
    requires
        forall|k: int| 0 <= k < s.len() ==> p(#[trigger] s[k]),
    ensures
        forall|k: int|
            0 <= k < crate::text::ltrim_spec(s).len() ==> p(
                #[trigger] crate::text::ltrim_spec(s)[k],
            ),
    decreases s.len(),
{
    if s.len() > 0 && is_space(s[0]) {
        assert(forall|k: int| 0 <= k < s.drop_first().len() ==> p(#[trigger] s.drop_first()[k]));
        lemma_ltrim_chars(s.drop_first(), p);
        assert(crate::text::ltrim_spec(s) == crate::text::ltrim_spec(s.drop_first()));
    } else {
        assert(crate::text::ltrim_spec(s) == s);
    }
}

pub proof fn lemma_rtrim_chars(s: Seq<char>, p: spec_fn(char) -> bool)
    requires
        forall|k: int| 0 <= k < s.len() ==> p(#[trigger] s[k]),
    ensures
        forall|k: int|
            0 <= k < crate::text::rtrim_spec(s).len() ==> p(
                #[trigger] crate::text::rtrim_spec(s)[k],
            ),
    decreases s.len(),
{
    if s.len() > 0 && is_space(s[s.len() - 1]) {
        assert(forall|k: int| 0 <= k < s.drop_last().len() ==> p(#[trigger] s.drop_last()[k]));
        lemma_rtrim_chars(s.drop_last(), p);
        assert(crate::text::rtrim_spec(s) == crate::text::rtrim_spec(s.drop_last()));
    } else {
        assert(crate::text::rtrim_spec(s) == s);
    }
}

pub proof fn lemma_trim_chars(s: Seq<char>, p: spec_fn(char) -> bool)
    requires
        forall|k: int| 0 <= k < s.len() ==> p(#[trigger] s[k]),
    ensures
        forall|k: int| 0 <= k < trim_spec(s).len() ==> p(#[trigger] trim_spec(s)[k]),
{
    lemma_ltrim_chars(s, p);
    lemma_rtrim_chars(crate::text::ltrim_spec(s), p);
}

/// A trimmed text has no whitespace at either end.
pub proof fn lemma_trim_trimmed(s: Seq<char>)
    ensures
        trim_spec(s).len() > 0 ==> !is_space(trim_spec(s)[0]) && !is_space(
            trim_spec(s)[trim_spec(s).len() - 1],
        ),
{
    lemma_ltrim_head(s);
    lemma_rtrim_props(crate::text::ltrim_spec(s));
}

proof fn lemma_ltrim_head(s: Seq<char>)
    ensures
        crate::text::ltrim_spec(s).len() > 0 ==> !is_space(crate::text::ltrim_spec(s)[0]),
    decreases s.len(),
{
    if s.len() > 0 && is_space(s[0]) {
        lemma_ltrim_head(s.drop_first());
    }
}

/// The right trim keeps the head character and strips trailing whitespace.
proof fn lemma_rtrim_props(s: Seq<char>)
    ensures
        crate::text::rtrim_spec(s).len() > 0 ==> !is_space(
            crate::text::rtrim_spec(s)[crate::text::rtrim_spec(s).len() - 1],
        ),
        crate::text::rtrim_spec(s).len() > 0 ==> crate::text::rtrim_spec(s)[0] == s[0],
    decreases s.len(),
{
    if s.len() > 0 && is_space(s[s.len() - 1]) {
        lemma_rtrim_props(s.drop_last());
    }
}

/// Trimming an already-trimmed text changes nothing.
pub proof fn lemma_trim_id(s: Seq<char>)
    requires
        s.len() > 0 ==> !is_space(s[0]) && !is_space(s[s.len() - 1]),
    ensures
        trim_spec(s) == s,
{
    assert(crate::text::ltrim_spec(s) == s);
    assert(crate::text::rtrim_spec(s) == s);
}

/// A space-only prefix disappears under a left trim.
pub proof fn lemma_ltrim_space_prefix(pre: Seq<char>, s: Seq<char>)
    requires
        forall|k: int| 0 <= k < pre.len() ==> is_space(#[trigger] pre[k]),
    ensures
        crate::text::ltrim_spec(pre + s) == crate::text::ltrim_spec(s),
    decreases pre.len(),
{
    if pre.len() > 0 {
        assert((pre + s).len() > 0 && is_space((pre + s)[0]));
        assert((pre + s).drop_first() =~= pre.drop_first() + s);
        lemma_ltrim_space_prefix(pre.drop_first(), s);
    } else {
        assert(pre + s =~= s);
    }
}

/// Looking a name up in the map of an association list: the map holds
/// exactly the listed names, and a later entry wins.
pub proof fn lemma_assoc_contains(pairs: Seq<(Seq<char>, Seq<char>)>, k: Seq<char>)
    ensures
        assoc_map(pairs).contains_key(k) <==> exists|i: int|
            0 <= i < pairs.len() && (#[trigger] pairs[i]).0 == k,
    decreases pairs.len(),
{
    if pairs.len() > 0 {
        lemma_assoc_contains(pairs.drop_first(), k);
        if pairs[0].0 == k {
        } else if assoc_map(pairs).contains_key(k) {
            let i = choose|i: int|
                0 <= i < pairs.drop_first().len() && (#[trigger] pairs.drop_first()[i]).0 == k;
            assert(pairs[i + 1].0 == k);
        } else {
            assert forall|i: int| 0 <= i < pairs.len() implies (#[trigger] pairs[i]).0 != k by {
                if i > 0 {
                    assert(pairs.drop_first()[i - 1].0 == pairs[i].0);
                }
            }
        }
    }
}

/// The value the map of an association list holds for a name is the value of
/// the last entry carrying that name.
pub proof fn lemma_assoc_map_last(pairs: Seq<(Seq<char>, Seq<char>)>, i: int)
    requires
        0 <= i < pairs.len(),
        forall|j: int| i < j < pairs.len() ==> (#[trigger] pairs[j]).0 != pairs[i].0,
    ensures
        assoc_map(pairs).contains_key(pairs[i].0),
        assoc_map(pairs)[pairs[i].0] == pairs[i].1,
    decreases pairs.len(),
{
    let k = pairs[i].0;
    if i == 0 {
        lemma_assoc_contains(pairs.drop_first(), k);
        assert(forall|j: int|
            0 <= j < pairs.drop_first().len() ==> (#[trigger] pairs.drop_first()[j]).0 == pairs[j
                + 1].0);
        assert(!assoc_map(pairs.drop_first()).contains_key(k));
    } else {
        assert(forall|j: int|
            0 <= j < pairs.drop_first().len() ==> #[trigger] pairs.drop_first()[j] == pairs[j + 1]);
        lemma_assoc_map_last(pairs.drop_first(), i - 1);
    }
}

/// Splitting a text whose first piece is separator-free peels that piece off.
proof fn lemma_split_prefix_no_sep(x: Seq<char>, y: Seq<char>, sep: char)
    requires
        forall|k: int| 0 <= k < x.len() ==> x[k] != sep,
    ensures
        split_at_seps(x + seq![sep] + y, sep) == seq![x] + split_at_seps(y, sep),
{
    let s = x + seq![sep] + y;
    assert(forall|k: int| 0 <= k < x.len() ==> s[k] == x[k]);
    assert(s[x.len() as int] == sep);
    lemma_first_idx_at(s, sep, x.len() as int);
    assert(s.subrange(0, x.len() as int) =~= x);
    assert(s.skip(x.len() as int + 1) =~= y);
}

/// Splitting a separator-free text gives that text as the only piece.
proof fn lemma_split_single(x: Seq<char>, sep: char)
    requires
        forall|k: int| 0 <= k < x.len() ==> x[k] != sep,
    ensures
        split_at_seps(x, sep) == seq![x],
{
    lemma_first_idx_at(x, sep, x.len() as int);
}

/// Every character of `pre` is whitespace.
pub open spec fn all_space(pre: Seq<char>) -> bool {
    forall|k: int| 0 <= k < pre.len() ==> is_space(#[trigger] pre[k])
}

/// Parsing a serialized pair, with an optional whitespace prefix, gives the
/// pair back.
proof fn lemma_pair_of_item(pre: Seq<char>, p: (Seq<char>, Seq<char>))
    requires
        all_space(pre),
        wf_cookie_pair(p),
    ensures
        pair_of_part(pre + cookie_item(p)) == Some(p),
{
    let s = pre + cookie_item(p);
    let i = pre.len() + p.0.len();
    assert forall|k: int| 0 <= k < i implies s[k] != '=' by {
        if k < pre.len() {
            assert(is_space(s[k]));
        } else {
            assert(s[k] == p.0[k - pre.len()]);
        }
    }
    assert(s[i as int] == '=');
    lemma_first_idx_at(s, '=', i as int);
    assert(s.subrange(0, i as int) =~= pre + p.0);
    lemma_ltrim_space_prefix(pre, p.0);
    lemma_trim_id(p.0);
    assert(trim_spec(pre + p.0) == p.0);
    assert(s.skip(i as int + 1) =~= p.1);
    lemma_trim_id(p.1);
    assert(pair_of_part(s) == Some((p.0, p.1)));
}

/// Serializing a well-formed pair list and parsing the result gives back
/// exactly the map the list denotes.
pub proof fn lemma_cookie_round_trip(pairs: Seq<(Seq<char>, Seq<char>)>)
    requires
        wf_cookie_pairs(pairs),
    ensures
        cookie_map_of(join_cookies(pairs)) == assoc_map(pairs),
{
    assert(Seq::<char>::empty() + join_cookies(pairs) =~= join_cookies(pairs));
    lemma_cookie_round_trip_pre(pairs, Seq::empty());
}

proof fn lemma_cookie_round_trip_pre(pairs: Seq<(Seq<char>, Seq<char>)>, pre: Seq<char>)
    requires
        wf_cookie_pairs(pairs),
        all_space(pre),
    ensures
        cookie_map_of(pre + join_cookies(pairs)) == assoc_map(pairs),
    decreases pairs.len(),
{
    assert(forall|k: int| 0 <= k < pre.len() ==> pre[k] != ';' && pre[k] != '=');
    if pairs.len() == 0 {
        assert(pre + join_cookies(pairs) =~= pre);
        lemma_split_single(pre, ';');
        lemma_first_idx_at(pre, '=', pre.len() as int);
        assert(pair_of_part(pre) is None);
        assert(seq![pre].drop_first() =~= Seq::<Seq<char>>::empty());
        assert(map_of_parts(Seq::<Seq<char>>::empty()) == Map::<Seq<char>, Seq<char>>::empty());
        assert(map_of_parts(seq![pre]) =~= Map::<Seq<char>, Seq<char>>::empty());
        assert(cookie_map_of(pre) =~= assoc_map(pairs));
    } else if pairs.len() == 1 {
        let p = pairs[0];
        assert(wf_cookie_pair(p));
        let s = pre + cookie_item(p);
        assert forall|k: int| 0 <= k < s.len() implies s[k] != ';' by {
            if k < pre.len() {
                assert(is_space(s[k]));
            } else if k < pre.len() + p.0.len() {
                assert(s[k] == p.0[k - pre.len()]);
            } else if k == pre.len() + p.0.len() {
                assert(s[k] == '=');
            } else {
                assert(s[k] == p.1[k - pre.len() - p.0.len() - 1]);
            }
        }
        lemma_split_single(s, ';');
        lemma_pair_of_item(pre, p);
        assert(seq![s].drop_first() =~= Seq::<Seq<char>>::empty());
        assert(map_of_parts(Seq::<Seq<char>>::empty()) == Map::<Seq<char>, Seq<char>>::empty());
        assert(map_of_parts(seq![s]) == Map::<Seq<char>, Seq<char>>::empty().insert(p.0, p.1));
        assert(pairs.drop_first().len() == 0);
        assert(assoc_map(pairs.drop_first()) == Map::<Seq<char>, Seq<char>>::empty());
        assert(assoc_map(pairs) == Map::<Seq<char>, Seq<char>>::empty().insert(p.0, p.1));
        assert(cookie_map_of(s) =~= assoc_map(pairs));
    } else {
        let p = pairs[0];
        let rest = pairs.drop_first();
        assert(wf_cookie_pair(p));
        let x = pre + cookie_item(p);
        let y = seq![' '] + join_cookies(rest);
        assert forall|k: int| 0 <= k < x.len() implies x[k] != ';' by {
            if k < pre.len() {
                assert(is_space(x[k]));
            } else if k < pre.len() + p.0.len() {
                assert(x[k] == p.0[k - pre.len()]);
            } else if k == pre.len() + p.0.len() {
                assert(x[k] == '=');
            } else {
                assert(x[k] == p.1[k - pre.len() - p.0.len() - 1]);
            }
        }
        assert(pre + join_cookies(pairs) =~= x + seq![';'] + y);
        lemma_split_prefix_no_sep(x, y, ';');
        assert(all_space(seq![' ']));
        lemma_cookie_round_trip_pre(rest, seq![' ']);
        lemma_pair_of_item(pre, p);
        let parts = split_at_seps(x + seq![';'] + y, ';');
        assert(parts[0] == x);
        assert(parts.drop_first() =~= split_at_seps(y, ';'));
        assert(map_of_parts(parts.drop_first()) == assoc_map(rest));
        assert(cookie_map_of(pre + join_cookies(pairs)) =~= assoc_map(pairs));
    }
}

/// View of an executable cookie-pair list.
pub open spec fn pairs_seq(v: Seq<(Vec<char>, Vec<char>)>) -> Seq<(Seq<char>, Seq<char>)> {
    Seq::new(v.len(), |i: int| (v[i].0@, v[i].1@))
}

/// The pieces of a split carry no separator.
proof fn lemma_split_parts_no_sep(s: Seq<char>, sep: char)
    ensures
        forall|i: int, k: int|
            0 <= i < split_at_seps(s, sep).len() && 0 <= k < split_at_seps(s, sep)[i].len()
                ==> #[trigger] split_at_seps(s, sep)[i][k] != sep,
    decreases s.len(),
{
    lemma_first_idx(s, sep);
    let j = first_idx(s, sep);
    if j < s.len() {
        lemma_split_parts_no_sep(s.skip(j + 1), sep);
        assert forall|i: int, k: int|
            0 <= i < split_at_seps(s, sep).len() && 0 <= k < split_at_seps(s, sep)[i].len() implies
            #[trigger] split_at_seps(s, sep)[i][k] != sep by {
            if i > 0 {
                assert(split_at_seps(s, sep)[i] == split_at_seps(s.skip(j + 1), sep)[i - 1]);
            }
        }
    }
}

/// Parse one `k=v` piece; mirrors `pair_of_part`.
fn parse_piece(p: &Vec<char>) -> (r: Option<(Vec<char>, Vec<char>)>)
    ensures
        r is Some <==> pair_of_part(p@) is Some,
        r is Some ==> (r.unwrap().0@, r.unwrap().1@) == pair_of_part(p@).unwrap(),
{
    let e = find_from(p, '=', 0);
    proof {
        lemma_first_idx_at(p@, '=', e as int);
    }
    if e == p.len() {
        return None;
    }
    let head = slice_of(p, 0, e);
    let name = trim_of(&head);
    if name.len() == 0 {
        return None;
    }
    let tail = slice_of(p, e + 1, p.len());
    proof {
        assert(p@.subrange(e as int + 1, p@.len() as int) =~= p@.skip(e as int + 1));
    }
    let value = trim_of(&tail);
    Some((name, value))
}

/// Replace the value under `name`, or append the pair if the name is new.
fn insert_overwrite(pairs: &mut Vec<(Vec<char>, Vec<char>)>, name: Vec<char>, value: Vec<char>)
    requires
        wf_cookie_pairs(pairs_seq(old(pairs)@)),
        wf_cookie_pair((name@, value@)),
    ensures
        wf_cookie_pairs(pairs_seq(final(pairs)@)),
        assoc_map(pairs_seq(final(pairs)@)) == assoc_map(pairs_seq(old(pairs)@)).insert(
            name@,
            value@,
        ),
{
    let ghost old_ps = pairs_seq(pairs@);
    let mut i: usize = 0;
    while i < pairs.len()
        invariant
            i <= pairs@.len(),
            pairs_seq(pairs@) == old_ps,
            old_ps == pairs_seq(old(pairs)@),
            wf_cookie_pairs(old_ps),
            wf_cookie_pair((name@, value@)),
            forall|k: int| 0 <= k < i ==> (#[trigger] old_ps[k]).0 != name@,
        decreases pairs@.len() - i,
    {
        if chars_eq(&pairs[i].0, &name) {
            let ghost kseq = name@;
            pairs.set(i, (name, value));
            proof {
                let new_ps = pairs_seq(pairs@);
                assert(new_ps =~= old_ps.update(i as int, (kseq, value@)));
                assert(old_ps[i as int].0 == kseq);
                lemma_assoc_update(old_ps, i as int, value@);
                assert(wf_cookie_pairs(new_ps));
            }
            return ;
        }
        i = i + 1;
    }
    proof {
        let ghost p = (name@, value@);
        assert(forall|k: int| 0 <= k < old_ps.len() ==> (#[trigger] old_ps[k]).0 != name@);
        lemma_assoc_push(old_ps, p);
    }
    pairs.push((name, value));
    proof {
        assert(pairs_seq(pairs@) =~= old_ps.push((name@, value@)));
        assert(wf_cookie_pairs(pairs_seq(pairs@)));
    }
}

/// Appending a pair whose name is new inserts it into the map.
proof fn lemma_assoc_push(pairs: Seq<(Seq<char>, Seq<char>)>, p: (Seq<char>, Seq<char>))
    requires
        forall|k: int| 0 <= k < pairs.len() ==> (#[trigger] pairs[k]).0 != p.0,
    ensures
        assoc_map(pairs.push(p)) == assoc_map(pairs).insert(p.0, p.1),
    decreases pairs.len(),
{
    if pairs.len() == 0 {
        assert(pairs.push(p).drop_first() =~= pairs);
        assert(assoc_map(pairs.push(p)) =~= assoc_map(pairs).insert(p.0, p.1));
    } else {
        assert(pairs.push(p).drop_first() =~= pairs.drop_first().push(p));
        assert(forall|k: int|
            0 <= k < pairs.drop_first().len() ==> (#[trigger] pairs.drop_first()[k]).0 == pairs[k
                + 1].0);
        lemma_assoc_push(pairs.drop_first(), p);
        lemma_assoc_contains(pairs.drop_first(), pairs[0].0);
        lemma_assoc_contains(pairs.drop_first(), p.0);
        assert(assoc_map(pairs.push(p)) =~= assoc_map(pairs).insert(p.0, p.1));
    }
}

/// Overwriting the value at the unique position of a name updates the map.
proof fn lemma_assoc_update(pairs: Seq<(Seq<char>, Seq<char>)>, i: int, v: Seq<char>)
    requires
        wf_cookie_pairs(pairs),
        wf_cookie_text(v),
        0 <= i < pairs.len(),
    ensures
        assoc_map(pairs.update(i, (pairs[i].0, v))) == assoc_map(pairs).insert(pairs[i].0, v),
        wf_cookie_pairs(pairs.update(i, (pairs[i].0, v))),
    decreases pairs.len(),
{
    let k = pairs[i].0;
    let upd = pairs.update(i, (k, v));
    assert forall|a: int| 0 <= a < upd.len() implies wf_cookie_pair(#[trigger] upd[a]) by {
        if a != i {
            assert(upd[a] == pairs[a]);
        } else {
            assert(wf_cookie_pair(pairs[i]));
            assert(upd[a] == (pairs[i].0, v));
        }
    }
    assert(wf_cookie_pairs(upd));
    if i == 0 {
        assert(upd.drop_first() =~= pairs.drop_first());
        lemma_assoc_contains(pairs.drop_first(), k);
        assert(forall|j: int|
            0 <= j < pairs.drop_first().len() ==> (#[trigger] pairs.drop_first()[j]).0 == pairs[j
                + 1].0);
        assert(!assoc_map(pairs.drop_first()).contains_key(k));
        assert(assoc_map(upd) =~= assoc_map(pairs).insert(k, v));
    } else {
        assert(upd.drop_first() =~= pairs.drop_first().update(i - 1, (pairs[i].0, v)));
        assert(forall|j: int|
            0 <= j < pairs.drop_first().len() ==> #[trigger] pairs.drop_first()[j] == pairs[j + 1]);
        lemma_assoc_update(pairs.drop_first(), i - 1, v);
        lemma_assoc_contains(pairs.drop_first(), pairs[0].0);
        assert(assoc_map(upd) =~= assoc_map(pairs).insert(k, v));
    }
}

/// Parse a whole `k=v; k=v` cookie text into a well-formed pair list whose
/// map is exactly the map the text denotes.
fn parse_cookie_chars(v: &Vec<char>) -> (pairs: Vec<(Vec<char>, Vec<char>)>)
    ensures
        wf_cookie_pairs(pairs_seq(pairs@)),
        assoc_map(pairs_seq(pairs@)) == cookie_map_of(v@),
{
    let parts = split_by(v, ';');
    proof {
        lemma_split_parts_no_sep(v@, ';');
    }
    let mut pairs: Vec<(Vec<char>, Vec<char>)> = Vec::new();
    let mut i: usize = 0;
    proof {
        assert(pairs_seq(pairs@) =~= Seq::<(Seq<char>, Seq<char>)>::empty());
        assert(parts.deep_view().skip(0) =~= parts.deep_view());
    }
    while i < parts.len()
        invariant
            i <= parts@.len(),
            parts.deep_view() == split_at_seps(v@, ';'),
            parts@.len() == parts.deep_view().len(),
            forall|a: int, k: int|
                0 <= a < parts.deep_view().len() && 0 <= k < parts.deep_view()[a].len()
                    ==> #[trigger] parts.deep_view()[a][k] != ';',
            wf_cookie_pairs(pairs_seq(pairs@)),
            assoc_map(pairs_seq(pairs@)).union_prefer_right(
                map_of_parts(parts.deep_view().skip(i as int)),
            ) == cookie_map_of(v@),
        decreases parts@.len() - i,
    {
        let ghost rem = parts.deep_view().skip(i as int);
        let ghost cur = assoc_map(pairs_seq(pairs@));
        proof {
            assert(parts@[i as int].deep_view() == parts.deep_view()[i as int]);
            assert(parts@[i as int].deep_view() =~= parts@[i as int]@);
            assert(rem[0] == parts.deep_view()[i as int]);
            assert(rem.drop_first() =~= parts.deep_view().skip(i as int + 1));
        }
        let piece = &parts[i];
        proof {
            assert(piece@ =~= parts.deep_view()[i as int]);
            assert(forall|k: int|
                0 <= k < piece@.len() ==> #[trigger] parts.deep_view()[i as int][k] != ';');
            assert(forall|k: int| 0 <= k < piece@.len() ==> piece@[k] != ';');
        }
        let parsed = parse_piece(piece);
        match parsed {
            Some(pair) => {
                let ghost kq = pair.0@;
                let ghost vq = pair.1@;
                proof {
                    // The parsed name and value are trimmed, carry no `;`,
                    // and the name carries no `=`.
                    let part = piece@;
                    let e = first_idx(part, '=');
                    lemma_first_idx(part, '=');
                    lemma_trim_trimmed(part.subrange(0, e));
                    lemma_trim_trimmed(part.skip(e + 1));
                    assert forall|k: int| 0 <= k < part.subrange(0, e).len() implies {
                        let c = #[trigger] part.subrange(0, e)[k];
                        c != ';' && c != '='
                    } by {
                        assert(part.subrange(0, e)[k] == part[k]);
                    }
                    assert forall|k: int| 0 <= k < part.skip(e + 1).len() implies #[trigger] part.skip(
                        e + 1,
                    )[k] != ';' by {
                        assert(part.skip(e + 1)[k] == part[k + e + 1]);
                    }
                    lemma_trim_chars(part.subrange(0, e), |c: char| c != ';' && c != '=');
                    lemma_trim_chars(part.skip(e + 1), |c: char| c != ';');
                    assert(wf_cookie_pair((kq, vq)));
                }
                insert_overwrite(&mut pairs, pair.0, pair.1);
                proof {
                    lemma_union_insert_step(cur, kq, vq, map_of_parts(rem.drop_first()));
                    assert(map_of_parts(rem) == {
                        let r = map_of_parts(rem.drop_first());
                        if r.contains_key(kq) {
                            r
                        } else {
                            r.insert(kq, vq)
                        }
                    });
                }
            },
            None => {
                proof {
                    assert(map_of_parts(rem) == map_of_parts(rem.drop_first()));
                }
            },
        }
        i = i + 1;
    }
    proof {
        assert(parts.deep_view().skip(parts.deep_view().len() as int) =~= Seq::<
            Seq<char>,
        >::empty());
        assert(map_of_parts(Seq::<Seq<char>>::empty()) == Map::<Seq<char>, Seq<char>>::empty());
        assert(assoc_map(pairs_seq(pairs@)).union_prefer_right(
            Map::<Seq<char>, Seq<char>>::empty(),
        ) =~= assoc_map(pairs_seq(pairs@)));
    }
    pairs
}

/// Folding one insert into the left of a preferred-right union is the same
/// as letting the right side absorb the key first.
proof fn lemma_union_insert_step(
    m: Map<Seq<char>, Seq<char>>,
    k: Seq<char>,
    v: Seq<char>,
    rest: Map<Seq<char>, Seq<char>>,
)
    ensures
        m.insert(k, v).union_prefer_right(rest) == m.union_prefer_right(
            if rest.contains_key(k) {
                rest
            } else {
                rest.insert(k, v)
            },
        ),
{
    assert(m.insert(k, v).union_prefer_right(rest) =~= m.union_prefer_right(
        if rest.contains_key(k) {
            rest
        } else {
            rest.insert(k, v)
        },
    ));
}

/// A fresh copy of a character vector.
fn copy_chars(v: &Vec<char>) -> (r: Vec<char>)
    ensures
        r@ == v@,
{
    let r = slice_of(v, 0, v.len());
    assert(v@.subrange(0, v@.len() as int) =~= v@);
    r
}

/// Append all characters of `src` to `dst`.
fn push_all(dst: &mut Vec<char>, src: &Vec<char>)
    ensures
        final(dst)@ == old(dst)@ + src@,
{
    let mut i: usize = 0;
    while i < src.len()
        invariant
            i <= src@.len(),
            dst@ == old(dst)@ + src@.subrange(0, i as int),
        decreases src@.len() - i,
    {
        dst.push(src[i]);
        i = i + 1;
        assert(dst@ =~= old(dst)@ + src@.subrange(0, i as int));
    }
    assert(dst@ =~= old(dst)@ + src@);
}

/// Serialize a pair list as a `k=v; k=v` cookie header text.
fn join_pairs(pairs: &Vec<(Vec<char>, Vec<char>)>) -> (r: String)
    ensures
        r@ == join_cookies(pairs_seq(pairs@)),
{
    let ghost ps = pairs_seq(pairs@);
    let mut out: Vec<char> = Vec::new();
    let mut i: usize = 0;
    proof {
        assert(ps.skip(0) =~= ps);
        if ps.len() > 0 {
            assert(out@ + join_cookies(ps) =~= join_cookies(ps));
        } else {
            assert(out@ + Seq::<char>::empty() =~= join_cookies(ps));
        }
    }
    while i < pairs.len()
        invariant
            i <= pairs@.len(),
            ps == pairs_seq(pairs@),
            join_cookies(ps) == out@ + (if i < ps.len() && i > 0 {
                seq![';', ' '] + join_cookies(ps.skip(i as int))
            } else if i < ps.len() {
                join_cookies(ps.skip(i as int))
            } else {
                Seq::<char>::empty()
            }),
        decreases pairs@.len() - i,
    {
        let ghost out0 = out@;
        if i > 0 {
            out.push(';');
            out.push(' ');
        }
        push_all(&mut out, &pairs[i].0);
        out.push('=');
        push_all(&mut out, &pairs[i].1);
        proof {
            let sep: Seq<char> = if i > 0 {
                seq![';', ' ']
            } else {
                Seq::<char>::empty()
            };
            assert(ps[i as int] == (pairs@[i as int].0@, pairs@[i as int].1@));
            assert(out@ =~= out0 + sep + cookie_item(ps[i as int]));
            assert(ps.skip(i as int)[0] == ps[i as int]);
            assert(ps.skip(i as int).drop_first() =~= ps.skip(i as int + 1));
            if i + 1 < pairs@.len() {
                assert(join_cookies(ps.skip(i as int)) == cookie_item(ps[i as int]) + seq![
                    ';',
                    ' ',
                ] + join_cookies(ps.skip(i as int + 1)));
                assert(join_cookies(ps) =~= out@ + (seq![';', ' '] + join_cookies(
                    ps.skip(i as int + 1),
                )));
            } else {
                assert(ps.skip(i as int).len() == 1);
                assert(join_cookies(ps.skip(i as int)) == cookie_item(ps[i as int]));
                assert(join_cookies(ps) =~= out@);
            }
        }
        i = i + 1;
    }
    proof {
        if pairs@.len() == 0 {
            assert(out@ =~= Seq::<char>::empty());
            assert(join_cookies(ps) =~= out@);
        } else {
            assert(join_cookies(ps) =~= out@);
        }
    }
    string_from_chars(&out)
}

/// The entries of `pairs` whose names stand in `keys`, in order.
pub open spec fn filter_keys(
    pairs: Seq<(Seq<char>, Seq<char>)>,
    keys: Seq<Seq<char>>,
) -> Seq<(Seq<char>, Seq<char>)>
    decreases pairs.len(),
{
    if pairs.len() == 0 {
        Seq::empty()
    } else {
        let rest = filter_keys(pairs.drop_first(), keys);
        if keys.contains(pairs[0].0) {
            seq![pairs[0]] + rest
        } else {
            rest
        }
    }
}

/// View of a list of key names.
pub open spec fn keys_seq(keys: Seq<String>) -> Seq<Seq<char>> {
    Seq::new(keys.len(), |i: int| keys[i]@)
}

/// Whether `name` is one of `keys`.
fn key_in(keys: &Vec<String>, name: &Vec<char>) -> (r: bool)
    ensures
        r == keys_seq(keys@).contains(name@),
{
    let mut i: usize = 0;
    while i < keys.len()
        invariant
            i <= keys@.len(),
            forall|j: int| 0 <= j < i ==> keys_seq(keys@)[j] != name@,
        decreases keys@.len() - i,
    {
        let kc = chars_of(keys[i].as_str());
        if chars_eq(&kc, name) {
            assert(keys_seq(keys@)[i as int] == name@);
            return true;
        }
        i = i + 1;
    }
    assert(forall|j: int| 0 <= j < keys_seq(keys@).len() ==> keys_seq(keys@)[j] != name@);
    false
}

/// Filtering keeps well-formedness: a subsequence of a well-formed pair list
/// is well formed.
proof fn lemma_filter_keys_wf(pairs: Seq<(Seq<char>, Seq<char>)>, keys: Seq<Seq<char>>)
    requires
        wf_cookie_pairs(pairs),
    ensures
        wf_cookie_pairs(filter_keys(pairs, keys)),
        forall|a: int|
            0 <= a < filter_keys(pairs, keys).len() ==> pairs.contains(
                #[trigger] filter_keys(pairs, keys)[a],
            ),
    decreases pairs.len(),
{
    if pairs.len() > 0 {
        let rest = pairs.drop_first();
        assert(forall|j: int| 0 <= j < rest.len() ==> #[trigger] rest[j] == pairs[j + 1]);
        assert(wf_cookie_pairs(rest));
        lemma_filter_keys_wf(rest, keys);
        let f = filter_keys(pairs, keys);
        let fr = filter_keys(rest, keys);
        assert forall|a: int| 0 <= a < f.len() implies pairs.contains(#[trigger] f[a]) by {
            if keys.contains(pairs[0].0) && a == 0 {
                assert(pairs[0] == f[0]);
            } else {
                let b = if keys.contains(pairs[0].0) {
                    a - 1
                } else {
                    a
                };
                assert(fr[b] == f[a]);
                let j = choose|j: int| 0 <= j < rest.len() && rest[j] == fr[b];
                assert(pairs[j + 1] == f[a]);
            }
        }
        assert forall|a: int, b: int| 0 <= a < b < f.len() implies (#[trigger] f[a]).0 != (
        #[trigger] f[b]).0 by {
            if keys.contains(pairs[0].0) && a == 0 {
                let j = choose|j: int| 0 <= j < rest.len() && rest[j] == fr[b - 1];
                assert(f[b] == pairs[j + 1]);
                assert(pairs[0].0 != pairs[j + 1].0);
            }
        }
        assert forall|a: int| 0 <= a < f.len() implies wf_cookie_pair(#[trigger] f[a]) by {
            let j = choose|j: int| 0 <= j < pairs.len() && pairs[j] == f[a];
            assert(wf_cookie_pair(pairs[j]));
        }
    }
}

/// Filtering by a key list that holds every name keeps every entry.
proof fn lemma_filter_keys_all(ps: Seq<(Seq<char>, Seq<char>)>, keys: Seq<Seq<char>>)
    requires
        forall|j: int| 0 <= j < ps.len() ==> keys.contains((#[trigger] ps[j]).0),
    ensures
        filter_keys(ps, keys) == ps,
    decreases ps.len(),
{
    if ps.len() > 0 {
        assert(forall|j: int|
            0 <= j < ps.drop_first().len() ==> #[trigger] ps.drop_first()[j] == ps[j + 1]);
        lemma_filter_keys_all(ps.drop_first(), keys);
        assert(keys.contains(ps[0].0));
        assert(seq![ps[0]] + ps.drop_first() =~= ps);
    }
}

/// The entries of `pairs` whose names the store persists.
fn filter_pairs(pairs: &Vec<(Vec<char>, Vec<char>)>, keys: &Vec<String>) -> (r: Vec<
    (Vec<char>, Vec<char>),
>)
    ensures
        pairs_seq(r@) == filter_keys(pairs_seq(pairs@), keys_seq(keys@)),
{
    let ghost ps = pairs_seq(pairs@);
    let ghost ks = keys_seq(keys@);
    let mut r: Vec<(Vec<char>, Vec<char>)> = Vec::new();
    let mut i: usize = 0;
    proof {
        assert(ps.skip(0) =~= ps);
        assert(pairs_seq(r@) =~= Seq::<(Seq<char>, Seq<char>)>::empty());
        assert(Seq::<(Seq<char>, Seq<char>)>::empty() + filter_keys(ps, ks) =~= filter_keys(
            ps,
            ks,
        ));
    }
    while i < pairs.len()
        invariant
            i <= pairs@.len(),
            ps == pairs_seq(pairs@),
            ks == keys_seq(keys@),
            filter_keys(ps, ks) == pairs_seq(r@) + filter_keys(ps.skip(i as int), ks),
        decreases pairs@.len() - i,
    {
        let ghost r0 = pairs_seq(r@);
        proof {
            assert(ps.skip(i as int)[0] == ps[i as int]);
            assert(ps.skip(i as int).drop_first() =~= ps.skip(i as int + 1));
        }
        let name = &pairs[i].0;
        if key_in(keys, name) {
            let entry = (copy_chars(&pairs[i].0), copy_chars(&pairs[i].1));
            r.push(entry);
            proof {
                assert(pairs_seq(r@) =~= r0.push(ps[i as int]));
                assert(r0.push(ps[i as int]) + filter_keys(ps.skip(i as int + 1), ks) =~= r0 + (
                seq![ps[i as int]] + filter_keys(ps.skip(i as int + 1), ks)));
            }
        }
        i = i + 1;
    }
    proof {
        assert(ps.skip(ps.len() as int) =~= Seq::<(Seq<char>, Seq<char>)>::empty());
        assert(pairs_seq(r@) + Seq::<(Seq<char>, Seq<char>)>::empty() =~= pairs_seq(r@));
    }
    r
}


/// Lexicographic order on cookie names, by code point; with one name a
/// prefix of the other, the shorter comes first.
pub open spec fn key_le(a: Seq<char>, b: Seq<char>) -> bool
    decreases a.len(),
{
    if a.len() == 0 {
        true
    } else if b.len() == 0 {
        false
    } else if (a[0] as int) < (b[0] as int) {
        true
    } else if (a[0] as int) > (b[0] as int) {
        false
    } else {
        key_le(a.drop_first(), b.drop_first())
    }
}

/// `p` inserted into `ps` before the first entry whose name is not below it.
pub open spec fn insert_sorted(
    p: (Seq<char>, Seq<char>),
    ps: Seq<(Seq<char>, Seq<char>)>,
) -> Seq<(Seq<char>, Seq<char>)>
    decreases ps.len(),
{
    if ps.len() == 0 {
        seq![p]
    } else if key_le(p.0, ps[0].0) {
        seq![p] + ps
    } else {
        seq![ps[0]] + insert_sorted(p, ps.drop_first())
    }
}

/// `ps` sorted by name, by repeated insertion.
pub open spec fn sort_pairs(ps: Seq<(Seq<char>, Seq<char>)>) -> Seq<(Seq<char>, Seq<char>)>
    decreases ps.len(),
{
    if ps.len() == 0 {
        Seq::empty()
    } else {
        insert_sorted(ps[0], sort_pairs(ps.drop_first()))
    }
}

proof fn lemma_insert_sorted_len(p: (Seq<char>, Seq<char>), ps: Seq<(Seq<char>, Seq<char>)>)
    ensures
        insert_sorted(p, ps).len() == ps.len() + 1,
    decreases ps.len(),
{
    if ps.len() > 0 && !key_le(p.0, ps[0].0) {
        lemma_insert_sorted_len(p, ps.drop_first());
    }
}

proof fn lemma_sort_pairs_len(ps: Seq<(Seq<char>, Seq<char>)>)
    ensures
        sort_pairs(ps).len() == ps.len(),
    decreases ps.len(),
{
    if ps.len() > 0 {
        lemma_sort_pairs_len(ps.drop_first());
        lemma_insert_sorted_len(ps[0], sort_pairs(ps.drop_first()));
    }
}

/// Inserting at the first position whose name is not below `p`'s pins the
/// result of `insert_sorted`.
proof fn lemma_insert_sorted_at(
    p: (Seq<char>, Seq<char>),
    ps: Seq<(Seq<char>, Seq<char>)>,
    i: int,
)
    requires
        0 <= i <= ps.len(),
        forall|k: int| 0 <= k < i ==> !key_le(p.0, (#[trigger] ps[k]).0),
        i < ps.len() ==> key_le(p.0, ps[i].0),
    ensures
        insert_sorted(p, ps) == ps.subrange(0, i) + seq![p] + ps.skip(i),
    decreases ps.len(),
{
    if ps.len() == 0 {
        assert(insert_sorted(p, ps) =~= ps.subrange(0, i) + seq![p] + ps.skip(i));
    } else if key_le(p.0, ps[0].0) {
        assert(i == 0);
        assert(seq![p] + ps =~= ps.subrange(0, 0) + seq![p] + ps.skip(0));
    } else {
        assert(forall|k: int|
            0 <= k < ps.drop_first().len() ==> #[trigger] ps.drop_first()[k] == ps[k + 1]);
        lemma_insert_sorted_at(p, ps.drop_first(), i - 1);
        assert(seq![ps[0]] + (ps.drop_first().subrange(0, i - 1) + seq![p] + ps.drop_first().skip(
            i - 1,
        )) =~= ps.subrange(0, i) + seq![p] + ps.skip(i));
    }
}

/// Whether `a`'s name comes no later than `b`'s.
fn chars_le(a: &Vec<char>, b: &Vec<char>) -> (r: bool)
    ensures
        r == key_le(a@, b@),
{
    let mut i: usize = 0;
    proof {
        assert(a@.skip(0) =~= a@);
        assert(b@.skip(0) =~= b@);
    }
    loop
        invariant
            i <= a@.len(),
            i <= b@.len(),
            key_le(a@, b@) == key_le(a@.skip(i as int), b@.skip(i as int)),
        decreases a@.len() - i,
    {
        proof {
            if i < a@.len() {
                assert(a@.skip(i as int)[0] == a@[i as int]);
                assert(a@.skip(i as int).drop_first() =~= a@.skip(i as int + 1));
            }
            if i < b@.len() {
                assert(b@.skip(i as int)[0] == b@[i as int]);
                assert(b@.skip(i as int).drop_first() =~= b@.skip(i as int + 1));
            }
        }
        if i == a.len() {
            return true;
        }
        if i == b.len() {
            return false;
        }
        let x = a[i];
        let y = b[i];
        if x != y {
            return x < y;
        }
        i = i + 1;
    }
}

/// The pairs of `pairs`, sorted by name.
fn sort_cookie_pairs(pairs: &Vec<(Vec<char>, Vec<char>)>) -> (r: Vec<(Vec<char>, Vec<char>)>)
    ensures
        pairs_seq(r@) == sort_pairs(pairs_seq(pairs@)),
{
    let ghost ps = pairs_seq(pairs@);
    let mut r: Vec<(Vec<char>, Vec<char>)> = Vec::new();
    let mut i: usize = pairs.len();
    proof {
        assert(pairs_seq(r@) =~= Seq::<(Seq<char>, Seq<char>)>::empty());
        assert(ps.skip(pairs@.len() as int) =~= Seq::<(Seq<char>, Seq<char>)>::empty());
    }
    // Insert the entries from the back, so that the result mirrors the
    // insertion-sort definition over the remaining suffix.
    while i > 0
        invariant
            i <= pairs@.len(),
            ps == pairs_seq(pairs@),
            pairs_seq(r@) == sort_pairs(ps.skip(i as int)),
        decreases i,
    {
        i = i - 1;
        let name = copy_chars(&pairs[i].0);
        let value = copy_chars(&pairs[i].1);
        let ghost r0 = pairs_seq(r@);
        // Find the first position whose name is not below the new one.
        let mut j: usize = 0;
        while j < r.len() && !chars_le(&name, &r[j].0)
            invariant
                j <= r@.len(),
                pairs_seq(r@) == r0,
                name@ == ps[i as int].0,
                forall|k: int| 0 <= k < j ==> !key_le(name@, (#[trigger] r0[k]).0),
            decreases r@.len() - j,
        {
            j = j + 1;
        }
        proof {
            lemma_insert_sorted_at((name@, value@), r0, j as int);
        }
        r.insert(j, (name, value));
        proof {
            assert(pairs_seq(r@) =~= r0.subrange(0, j as int) + seq![(ps[i as int].0, ps[i as int].1)]
                + r0.skip(j as int));
            assert(ps.skip(i as int)[0] == ps[i as int]);
            assert(ps.skip(i as int).drop_first() =~= ps.skip(i as int + 1));
            assert((ps[i as int].0, ps[i as int].1) =~~= ps[i as int]);
            assert(pairs_seq(r@) =~= insert_sorted(ps[i as int], sort_pairs(ps.skip(i as int + 1))));
        }
    }
    proof {
        assert(ps.skip(0) =~= ps);
    }
    r
}

/// The pair an update contributes once normalized, if it can stand in a
/// cookie header at all: both sides trimmed; dropped when the name is empty
/// or either side would corrupt the header text.
pub open spec fn sanitize_pair(p: (Seq<char>, Seq<char>)) -> Option<(Seq<char>, Seq<char>)> {
    let n = trim_spec(p.0);
    let v = trim_spec(p.1);
    if n.len() == 0 || has_char(n, '=') || has_char(n, ';') || has_char(v, ';') {
        None
    } else {
        Some((n, v))
    }
}

/// The normalized pairs of an update batch, in order.
pub open spec fn sanitized_pairs(updates: Seq<(Seq<char>, Seq<char>)>) -> Seq<
    (Seq<char>, Seq<char>),
>
    decreases updates.len(),
{
    if updates.len() == 0 {
        Seq::empty()
    } else {
        let rest = sanitized_pairs(updates.drop_first());
        match sanitize_pair(updates[0]) {
            None => rest,
            Some(p) => seq![p] + rest,
        }
    }
}

/// View of an update batch given as strings.
pub open spec fn upd_seq(u: Seq<(String, String)>) -> Seq<(Seq<char>, Seq<char>)> {
    Seq::new(u.len(), |i: int| (u[i].0@, u[i].1@))
}

fn sanitize_exec(name: &String, value: &String) -> (r: Option<(Vec<char>, Vec<char>)>)
    ensures
        r is Some <==> sanitize_pair((name@, value@)) is Some,
        r is Some ==> (r.unwrap().0@, r.unwrap().1@) == sanitize_pair((name@, value@)).unwrap(),
        r is Some ==> wf_cookie_pair((r.unwrap().0@, r.unwrap().1@)),
{
    let nc = chars_of(name.as_str());
    let vc = chars_of(value.as_str());
    let n = trim_of(&nc);
    let v = trim_of(&vc);
    if n.len() == 0 || has_char_exec(&n, '=') || has_char_exec(&n, ';') || has_char_exec(&v, ';') {
        None
    } else {
        proof {
            lemma_trim_trimmed(nc@);
            lemma_trim_trimmed(vc@);
        }
        Some((n, v))
    }
}

/// The pair one `Set-Cookie` header value denotes: everything before the
/// first `;` read as a `k=v` piece.
pub open spec fn set_cookie_pair_of(s: Seq<char>) -> Option<(Seq<char>, Seq<char>)> {
    pair_of_part(s.subrange(0, first_idx(s, ';')))
}

/// The pairs a list of `Set-Cookie` header values denotes, in order.
pub open spec fn set_cookie_pairs(raws: Seq<Seq<char>>) -> Seq<(Seq<char>, Seq<char>)>
    decreases raws.len(),
{
    if raws.len() == 0 {
        Seq::empty()
    } else {
        let rest = set_cookie_pairs(raws.drop_first());
        match set_cookie_pair_of(raws[0]) {
            None => rest,
            Some(p) => seq![p] + rest,
        }
    }
}

/// What a cookie-subset write decision is: write only a nonempty subset that
/// differs from what was last written.
pub open spec fn persist_directive(subset: Seq<char>, persisted: Option<Seq<char>>) -> Option<
    Seq<char>,
> {
    if subset.len() > 0 && persisted != Some(subset) {
        Some(subset)
    } else {
        None
    }
}

/// Law: a write is requested at most once per distinct subset value. Once a
/// subset has been confirmed as persisted, the same subset is never offered
/// for writing again.
pub proof fn lemma_persist_at_most_once(subset: Seq<char>, persisted: Option<Seq<char>>)
    ensures
        persisted == Some(subset) ==> persist_directive(subset, persisted) is None,
        persist_directive(subset, persisted) is Some ==> persisted != Some(
            persist_directive(subset, persisted).unwrap(),
        ),
{
}

/// Law: after a batch update, a key written by the batch holds the value of
/// the last update naming it.
pub proof fn lemma_last_write_wins(
    m: Map<Seq<char>, Seq<char>>,
    updates: Seq<(Seq<char>, Seq<char>)>,
    i: int,
)
    requires
        0 <= i < updates.len(),
        forall|j: int| i < j < updates.len() ==> (#[trigger] updates[j]).0 != updates[i].0,
    ensures
        m.union_prefer_right(assoc_map(updates)).contains_key(updates[i].0),
        m.union_prefer_right(assoc_map(updates))[updates[i].0] == updates[i].1,
{
    lemma_assoc_map_last(updates, i);
}

/// Law: the header value always reflects the store's cookie map. For a
/// well-formed store the text handed to `header_value` denotes exactly the
/// held map, in which, by the update laws below, the most recent write of
/// every key stands.
pub proof fn lemma_header_reflects_store(store: &CookieStore)
    requires
        store.wf(),
        store.header_text() is Some,
    ensures
        cookie_map_of(store.header_text().unwrap()) == store.cookies(),
{
}

/// Law: after a batch update, a key no update names keeps its old value.
pub proof fn lemma_untouched_key(
    m: Map<Seq<char>, Seq<char>>,
    updates: Seq<(Seq<char>, Seq<char>)>,
    k: Seq<char>,
)
    requires
        forall|j: int| 0 <= j < updates.len() ==> (#[trigger] updates[j]).0 != k,
    ensures
        m.union_prefer_right(assoc_map(updates)).contains_key(k) == m.contains_key(k),
        m.contains_key(k) ==> m.union_prefer_right(assoc_map(updates))[k] == m[k],
{
    lemma_assoc_contains(updates, k);
}

/// Holder of the current session-cookie header value. Merges updates with
/// last-write-wins semantics per key and decides when the operator-configured
/// subset of keys has to be written back; the caller does the write and
/// confirms it with `confirm_persisted`.
pub struct CookieStore {
    /// The current cookie header text, as last received or rebuilt.
    pub current_text: Option<String>,
    /// The parsed cookie pairs the header text denotes.
    pub pairs: Vec<(Vec<char>, Vec<char>)>,
    /// The cookie names the operator wants written to the configuration.
    pub persist_keys: Option<Vec<String>>,
    /// The last subset text whose write the caller confirmed.
    pub persisted: Option<String>,
}

impl CookieStore {
    /// The cookie map the store holds.
    pub open spec fn cookies(&self) -> Map<Seq<char>, Seq<char>> {
        assoc_map(pairs_seq(self.pairs@))
    }

    /// The header text the store would send.
    pub open spec fn header_text(&self) -> Option<Seq<char>> {
        match self.current_text {
            None => None,
            Some(s) => Some(s@),
        }
    }

    pub open spec fn persisted_text(&self) -> Option<Seq<char>> {
        match self.persisted {
            None => None,
            Some(s) => Some(s@),
        }
    }

    pub open spec fn has_persist_keys(&self) -> bool {
        match self.persist_keys {
            None => false,
            Some(ks) => ks@.len() > 0,
        }
    }

    /// The serialized subset of the current cookies under the persisted
    /// keys: the matching entries, key-sorted, as a `k=v; k=v` text. The
    /// sorting makes the serialization stable, so equal subsets always
    /// compare equal whatever order updates arrived in.
    pub open spec fn persist_subset(&self) -> Seq<char> {
        match self.persist_keys {
            None => Seq::empty(),
            Some(ks) => join_cookies(
                sort_pairs(filter_keys(pairs_seq(self.pairs@), keys_seq(ks@))),
            ),
        }
    }

    /// Internal consistency: the pairs are well formed and denote exactly
    /// the map of the header text.
    pub open spec fn wf(&self) -> bool {
        &&& wf_cookie_pairs(pairs_seq(self.pairs@))
        &&& match self.current_text {
            None => self.pairs@.len() == 0,
            Some(s) => cookie_map_of(s@) == self.cookies(),
        }
    }

    /// Build a store from an optional initial cookie header and the
    /// operator's persisted-key hint.
    pub fn new(initial_cookie: Option<&str>, persist_keys_hint: Option<Vec<String>>) -> (r:
        CookieStore)
        ensures
            r.wf(),
            r.cookies() == match initial_cookie {
                None => Map::<Seq<char>, Seq<char>>::empty(),
                Some(s) => cookie_map_of(s@),
            },
            r.header_text() == match initial_cookie {
                None => None::<Seq<char>>,
                Some(s) => Some(s@),
            },
            r.persisted_text() is Some ==> r.has_persist_keys(),
            // The baseline: the filtered, key-sorted initial subset counts
            // as already written, so the first redundant write after
            // construction is suppressed.
            r.persisted_text() == (if r.persist_subset().len() > 0 {
                Some(r.persist_subset())
            } else {
                None::<Seq<char>>
            }),
            match persist_keys_hint {
                Some(ks) => ks@.len() > 0 ==> match r.persist_keys {
                    Some(v) => keys_seq(v@) == keys_seq(ks@),
                    None => false,
                },
                None => true,
            },
            (match persist_keys_hint {
                Some(ks) => ks@.len() == 0,
                None => true,
            }) ==> r.has_persist_keys() == (r.pairs@.len() > 0),
    {
        let mut pairs: Vec<(Vec<char>, Vec<char>)> = Vec::new();
        let mut current_text: Option<String> = None;
        match initial_cookie {
            None => {
                proof {
                    assert(pairs_seq(pairs@) =~= Seq::<(Seq<char>, Seq<char>)>::empty());
                }
            },
            Some(s) => {
                let cv = chars_of(s);
                pairs = parse_cookie_chars(&cv);
                current_text = Some(String::from_str(s));
            },
        }
        let keep = match &persist_keys_hint {
            Some(ks) => ks.len() > 0,
            None => false,
        };
        if keep {
            let keys = match persist_keys_hint {
                Some(ks) => ks,
                None => Vec::new(),
            };
            let subset = filter_pairs(&pairs, &keys);
            let sorted = sort_cookie_pairs(&subset);
            let persisted: Option<String> = if sorted.len() > 0 {
                Some(join_pairs(&sorted))
            } else {
                None
            };
            CookieStore { current_text, pairs, persist_keys: Some(keys), persisted }
        } else if pairs.len() > 0 {
            // No explicit hint: treat every initial cookie name as persisted,
            // with the normalized initial subset as already written.
            let mut keys: Vec<String> = Vec::new();
            let mut i: usize = 0;
            while i < pairs.len()
                invariant
                    i <= pairs@.len(),
                    keys@.len() == i,
                    forall|k: int| 0 <= k < i ==> keys_seq(keys@)[k] == pairs_seq(pairs@)[k].0,
                decreases pairs@.len() - i,
            {
                let ghost k0 = keys@;
                let name = string_from_chars(&pairs[i].0);
                keys.push(name);
                proof {
                    assert forall|k: int|
                        0 <= k < i + 1 implies keys_seq(keys@)[k] == pairs_seq(pairs@)[k].0 by {
                        if k < i {
                            assert(keys@[k] == k0[k]);
                            assert(keys_seq(k0)[k] == pairs_seq(pairs@)[k].0);
                        } else {
                            assert(keys@[k]@ == pairs@[k].0@);
                        }
                    }
                }
                i = i + 1;
            }
            proof {
                assert forall|j: int|
                    0 <= j < pairs_seq(pairs@).len() implies keys_seq(keys@).contains(
                    (#[trigger] pairs_seq(pairs@)[j]).0,
                ) by {
                    assert(keys_seq(keys@)[j] == pairs_seq(pairs@)[j].0);
                }
                lemma_filter_keys_all(pairs_seq(pairs@), keys_seq(keys@));
            }
            let sorted = sort_cookie_pairs(&pairs);
            let persisted = Some(join_pairs(&sorted));
            proof {
                assert(pairs_seq(sorted@).len() == pairs_seq(pairs@).len()) by {
                    lemma_sort_pairs_len(pairs_seq(pairs@));
                }
            }
            CookieStore { current_text, pairs, persist_keys: Some(keys), persisted }
        } else {
            CookieStore { current_text, pairs, persist_keys: None, persisted: None }
        }
    }

    /// The current cookie header value, if any. When the store is well
    /// formed, the returned text denotes exactly the held cookie map, so the
    /// header always reflects the most recent value of every key.
    pub fn header_value(&self) -> (r: Option<String>)
        ensures
            r is Some <==> self.header_text() is Some,
            r is Some ==> r.unwrap()@ == self.header_text().unwrap(),
            self.wf() && r is Some ==> cookie_map_of(r.unwrap()@) == self.cookies(),
            self.wf() && r is None ==> self.cookies() == Map::<Seq<char>, Seq<char>>::empty(),
    {
        match &self.current_text {
            None => {
                proof {
                    if self.wf() {
                        assert(pairs_seq(self.pairs@) =~= Seq::<(Seq<char>, Seq<char>)>::empty());
                    }
                }
                None
            },
            Some(s) => Some(s.clone()),
        }
    }

    /// The value stored under one cookie name.
    pub fn get_value(&self, name: &str) -> (r: Option<String>)
        requires
            self.wf(),
        ensures
            r is Some <==> self.cookies().contains_key(name@),
            r is Some ==> r.unwrap()@ == self.cookies()[name@],
    {
        let n = chars_of(name);
        let ghost ps = pairs_seq(self.pairs@);
        let mut i: usize = 0;
        while i < self.pairs.len()
            invariant
                i <= self.pairs@.len(),
                ps == pairs_seq(self.pairs@),
                wf_cookie_pairs(ps),
                n@ == name@,
                forall|k: int| 0 <= k < i ==> (#[trigger] ps[k]).0 != name@,
            decreases self.pairs@.len() - i,
        {
            if chars_eq(&self.pairs[i].0, &n) {
                proof {
                    lemma_assoc_map_last(ps, i as int);
                }
                return Some(string_from_chars(&self.pairs[i].1));
            }
            i = i + 1;
        }
        proof {
            lemma_assoc_contains(ps, name@);
        }
        None
    }

    /// Merge a batch of name/value updates into the store. Gives back the
    /// subset text the caller must now write to the configuration, if the
    /// persisted subset changed; `confirm_persisted` records a finished write.
    pub fn update_from_pairs(&mut self, updates: &Vec<(String, String)>) -> (r: Option<String>)
        requires
            old(self).wf(),
        ensures
            final(self).wf(),
            final(self).cookies() == old(self).cookies().union_prefer_right(
                assoc_map(sanitized_pairs(upd_seq(updates@))),
            ),
            final(self).persist_keys == old(self).persist_keys,
            final(self).persisted == old(self).persisted,
            updates@.len() == 0 ==> r is None && *final(self) == *old(self),
            final(self).pairs@.len() == 0 || !final(self).has_persist_keys() ==> r is None,
            updates@.len() > 0 && final(self).pairs@.len() > 0 && final(self).has_persist_keys()
                ==> {
                &&& r is Some <==> persist_directive(
                    final(self).persist_subset(),
                    final(self).persisted_text(),
                ) is Some
                &&& r is Some ==> r.unwrap()@ == final(self).persist_subset()
            },
            updates@.len() > 0 && final(self).pairs@.len() > 0 ==> final(self).header_text()
                == Some(join_cookies(pairs_seq(final(self).pairs@))),
    {
        if updates.len() == 0 {
            return None;
        }
        let mut adds: Vec<(Vec<char>, Vec<char>)> = Vec::new();
        let mut i: usize = 0;
        proof {
            assert(pairs_seq(adds@) =~= Seq::<(Seq<char>, Seq<char>)>::empty());
            assert(upd_seq(updates@).skip(0) =~= upd_seq(updates@));
            assert(pairs_seq(adds@) + sanitized_pairs(upd_seq(updates@)) =~= sanitized_pairs(
                upd_seq(updates@),
            ));
        }
        while i < updates.len()
            invariant
                i <= updates@.len(),
                forall|a: int|
                    0 <= a < pairs_seq(adds@).len() ==> wf_cookie_pair(
                        #[trigger] pairs_seq(adds@)[a],
                    ),
                sanitized_pairs(upd_seq(updates@)) == pairs_seq(adds@) + sanitized_pairs(
                    upd_seq(updates@).skip(i as int),
                ),
            decreases updates@.len() - i,
        {
            proof {
                assert(upd_seq(updates@).skip(i as int)[0] == upd_seq(updates@)[i as int]);
                assert(upd_seq(updates@).skip(i as int).drop_first() =~= upd_seq(updates@).skip(
                    i as int + 1,
                ));
            }
            let ghost a0 = pairs_seq(adds@);
            match sanitize_exec(&updates[i].0, &updates[i].1) {
                Some(p) => {
                    let ghost pv = (p.0@, p.1@);
                    adds.push(p);
                    proof {
                        assert(pairs_seq(adds@) =~= a0.push(pv));
                        assert(a0.push(pv) + sanitized_pairs(upd_seq(updates@).skip(i as int + 1))
                            =~= a0 + (seq![pv] + sanitized_pairs(
                            upd_seq(updates@).skip(i as int + 1),
                        )));
                    }
                },
                None => {},
            }
            i = i + 1;
        }
        proof {
            assert(upd_seq(updates@).skip(upd_seq(updates@).len() as int) =~= Seq::<
                (Seq<char>, Seq<char>),
            >::empty());
            assert(pairs_seq(adds@) + Seq::<(Seq<char>, Seq<char>)>::empty() =~= pairs_seq(adds@));
        }
        self.apply_merged(adds)
    }

    /// Merge the pairs carried by a response's `Set-Cookie` header values.
    pub fn update_from_set_cookie(&mut self, raw_values: &Vec<String>) -> (r: Option<String>)
        requires
            old(self).wf(),
        ensures
            final(self).wf(),
            final(self).cookies() == old(self).cookies().union_prefer_right(
                assoc_map(set_cookie_pairs(raw_values.deep_view())),
            ),
            final(self).persist_keys == old(self).persist_keys,
            final(self).persisted == old(self).persisted,
            raw_values@.len() == 0 ==> r is None && *final(self) == *old(self),
            final(self).pairs@.len() == 0 || !final(self).has_persist_keys() ==> r is None,
            raw_values@.len() > 0 && final(self).pairs@.len() > 0 && final(self).has_persist_keys()
                ==> {
                &&& r is Some <==> persist_directive(
                    final(self).persist_subset(),
                    final(self).persisted_text(),
                ) is Some
                &&& r is Some ==> r.unwrap()@ == final(self).persist_subset()
            },
    {
        if raw_values.len() == 0 {
            return None;
        }
        let mut adds: Vec<(Vec<char>, Vec<char>)> = Vec::new();
        let mut i: usize = 0;
        proof {
            assert(pairs_seq(adds@) =~= Seq::<(Seq<char>, Seq<char>)>::empty());
            assert(raw_values.deep_view().skip(0) =~= raw_values.deep_view());
            assert(pairs_seq(adds@) + set_cookie_pairs(raw_values.deep_view())
                =~= set_cookie_pairs(raw_values.deep_view()));
        }
        while i < raw_values.len()
            invariant
                i <= raw_values@.len(),
                forall|a: int|
                    0 <= a < pairs_seq(adds@).len() ==> wf_cookie_pair(
                        #[trigger] pairs_seq(adds@)[a],
                    ),
                set_cookie_pairs(raw_values.deep_view()) == pairs_seq(adds@) + set_cookie_pairs(
                    raw_values.deep_view().skip(i as int),
                ),
            decreases raw_values@.len() - i,
        {
            proof {
                assert(raw_values.deep_view()[i as int] == raw_values@[i as int].deep_view());
                assert(raw_values.deep_view().skip(i as int)[0] == raw_values.deep_view()[i as int]);
                assert(raw_values.deep_view().skip(i as int).drop_first()
                    =~= raw_values.deep_view().skip(i as int + 1));
            }
            let ghost a0 = pairs_seq(adds@);
            match Self::parse_cookie_pair(raw_values[i].as_str()) {
                Some(p) => {
                    let nv = chars_of(p.0.as_str());
                    let vv = chars_of(p.1.as_str());
                    let ghost pv = (nv@, vv@);
                    adds.push((nv, vv));
                    proof {
                        assert(pairs_seq(adds@) =~= a0.push(pv));
                        assert(a0.push(pv) + set_cookie_pairs(
                            raw_values.deep_view().skip(i as int + 1),
                        ) =~= a0 + (seq![pv] + set_cookie_pairs(
                            raw_values.deep_view().skip(i as int + 1),
                        )));
                    }
                },
                None => {},
            }
            i = i + 1;
        }
        proof {
            assert(raw_values.deep_view().skip(raw_values.deep_view().len() as int) =~= Seq::<
                Seq<char>,
            >::empty());
            assert(pairs_seq(adds@) + Seq::<(Seq<char>, Seq<char>)>::empty() =~= pairs_seq(adds@));
        }
        self.apply_merged(adds)
    }

    /// Record that the caller wrote `subset` to the configuration.
    pub fn confirm_persisted(&mut self, subset: String)
        ensures
            final(self).persisted_text() == Some(subset@),
            final(self).pairs == old(self).pairs,
            final(self).current_text == old(self).current_text,
            final(self).persist_keys == old(self).persist_keys,
            old(self).wf() ==> final(self).wf(),
    {
        self.persisted = Some(subset);
    }

    /// Parse one `Set-Cookie` header value into a name/value pair: the
    /// `k=v` piece before the first `;`, both sides trimmed.
    pub fn parse_cookie_pair(raw: &str) -> (r: Option<(String, String)>)
        ensures
            r is Some <==> set_cookie_pair_of(raw@) is Some,
            r is Some ==> (r.unwrap().0@, r.unwrap().1@) == set_cookie_pair_of(raw@).unwrap(),
            r is Some ==> wf_cookie_pair((r.unwrap().0@, r.unwrap().1@)),
    {
        let v = chars_of(raw);
        let cut = find_from(&v, ';', 0);
        proof {
            lemma_first_idx_at(v@, ';', cut as int);
        }
        let piece = slice_of(&v, 0, cut);
        match parse_piece(&piece) {
            None => None,
            Some(p) => {
                proof {
                    let part = piece@;
                    let e = first_idx(part, '=');
                    lemma_first_idx(part, '=');
                    lemma_trim_trimmed(part.subrange(0, e));
                    lemma_trim_trimmed(part.skip(e + 1));
                    assert forall|k: int| 0 <= k < part.subrange(0, e).len() implies {
                        let c = #[trigger] part.subrange(0, e)[k];
                        c != ';' && c != '='
                    } by {
                        assert(part.subrange(0, e)[k] == part[k]);
                        assert(part[k] == v@[k]);
                    }
                    assert forall|k: int|
                        0 <= k < part.skip(e + 1).len() implies #[trigger] part.skip(e + 1)[k]
                        != ';' by {
                        assert(part.skip(e + 1)[k] == part[k + e + 1]);
                        assert(part[k + e + 1] == v@[k + e + 1]);
                    }
                    lemma_trim_chars(part.subrange(0, e), |c: char| c != ';' && c != '=');
                    lemma_trim_chars(part.skip(e + 1), |c: char| c != ';');
                }
                Some((string_from_chars(&p.0), string_from_chars(&p.1)))
            },
        }
    }

    /// Merge already-normalized pairs, rebuild the header text, and decide
    /// whether the persisted subset has to be written.
    fn apply_merged(&mut self, adds: Vec<(Vec<char>, Vec<char>)>) -> (r: Option<String>)
        requires
            old(self).wf(),
            forall|a: int|
                0 <= a < pairs_seq(adds@).len() ==> wf_cookie_pair(#[trigger] pairs_seq(adds@)[a]),
        ensures
            final(self).wf(),
            final(self).cookies() == old(self).cookies().union_prefer_right(
                assoc_map(pairs_seq(adds@)),
            ),
            final(self).persist_keys == old(self).persist_keys,
            final(self).persisted == old(self).persisted,
            adds@.len() == 0 && old(self).pairs@.len() == 0 ==> *final(self) == *old(self),
            final(self).pairs@.len() == 0 || !final(self).has_persist_keys() ==> r is None,
            final(self).pairs@.len() > 0 && final(self).has_persist_keys() ==> {
                &&& r is Some <==> persist_directive(
                    final(self).persist_subset(),
                    final(self).persisted_text(),
                ) is Some
                &&& r is Some ==> r.unwrap()@ == final(self).persist_subset()
            },
            final(self).pairs@.len() > 0 ==> final(self).header_text() == Some(
                join_cookies(pairs_seq(final(self).pairs@)),
            ),
            final(self).pairs@.len() == 0 ==> final(self).current_text == old(self).current_text,
    {
        let ghost all_adds = pairs_seq(adds@);
        let mut i: usize = 0;
        proof {
            assert(all_adds.skip(0) =~= all_adds);
        }
        while i < adds.len()
            invariant
                i <= adds@.len(),
                all_adds == pairs_seq(adds@),
                forall|a: int| 0 <= a < all_adds.len() ==> wf_cookie_pair(#[trigger] all_adds[a]),
                wf_cookie_pairs(pairs_seq(self.pairs@)),
                assoc_map(pairs_seq(self.pairs@)).union_prefer_right(
                    assoc_map(all_adds.skip(i as int)),
                ) == assoc_map(pairs_seq(old(self).pairs@)).union_prefer_right(
                    assoc_map(all_adds),
                ),
                self.current_text == old(self).current_text,
                self.persist_keys == old(self).persist_keys,
                self.persisted == old(self).persisted,
                all_adds.len() == 0 ==> self.pairs == old(self).pairs,
            decreases adds@.len() - i,
        {
            let ghost cur = assoc_map(pairs_seq(self.pairs@));
            let ghost rem = all_adds.skip(i as int);
            proof {
                assert(rem[0] == all_adds[i as int]);
                assert(rem.drop_first() =~= all_adds.skip(i as int + 1));
                assert(adds@[i as int].0@ == all_adds[i as int].0 && adds@[i as int].1@
                    == all_adds[i as int].1);
            }
            let name = copy_chars(&adds[i].0);
            let value = copy_chars(&adds[i].1);
            insert_overwrite(&mut self.pairs, name, value);
            proof {
                let rest = assoc_map(rem.drop_first());
                lemma_union_insert_step(cur, all_adds[i as int].0, all_adds[i as int].1, rest);
                assert(assoc_map(rem) == if rest.contains_key(all_adds[i as int].0) {
                    rest
                } else {
                    rest.insert(all_adds[i as int].0, all_adds[i as int].1)
                });
            }
            i = i + 1;
        }
        proof {
            assert(all_adds.skip(all_adds.len() as int) =~= Seq::<(Seq<char>, Seq<char>)>::empty());
            assert(assoc_map(Seq::<(Seq<char>, Seq<char>)>::empty()) == Map::<
                Seq<char>,
                Seq<char>,
            >::empty());
            assert(assoc_map(pairs_seq(self.pairs@)).union_prefer_right(
                Map::<Seq<char>, Seq<char>>::empty(),
            ) =~= assoc_map(pairs_seq(self.pairs@)));
        }
        if self.pairs.len() == 0 {
            proof {
                assert(pairs_seq(self.pairs@) =~= Seq::<(Seq<char>, Seq<char>)>::empty());
                let u = old(self).cookies().union_prefer_right(assoc_map(all_adds));
                assert(u == Map::<Seq<char>, Seq<char>>::empty());
                assert forall|k: Seq<char>| !old(self).cookies().contains_key(k) by {
                    if old(self).cookies().contains_key(k) {
                        assert(u.contains_key(k));
                    }
                }
                assert(old(self).cookies() =~= Map::<Seq<char>, Seq<char>>::empty());
                if all_adds.len() == 0 {
                    assert(*self =~= *old(self));
                }
            }
            return None;
        }
        let header = join_pairs(&self.pairs);
        proof {
            lemma_cookie_round_trip(pairs_seq(self.pairs@));
        }
        self.current_text = Some(header);
        let keys_ref = match &self.persist_keys {
            Some(ks) => if ks.len() > 0 {
                Some(ks)
            } else {
                None
            },
            None => None,
        };
        match keys_ref {
            None => None,
            Some(ks) => {
                let subset = filter_pairs(&self.pairs, ks);
                let sorted = sort_cookie_pairs(&subset);
                if sorted.len() == 0 {
                    return None;
                }
                let s = join_pairs(&sorted);
                let same = match &self.persisted {
                    Some(p) => crate::text::str_eq(p.as_str(), s.as_str()),
                    None => false,
                };
                if same {
                    None
                } else {
                    Some(s)
                }
            },
        }
    }
}

} // verus!
