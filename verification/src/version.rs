//! Dot-separated version comparison: `3.6.1` against `3.0.0` under an
//! operator such as `<` or `>=`. Components compare numerically from the
//! left; when all shared components are equal, the version with fewer
//! components is the smaller one.

use vstd::prelude::*;

use crate::text::{chars_of, first_idx, lemma_first_idx_at, slice_of, split_at_seps};

verus! {

pub open spec fn is_digit(c: char) -> bool {
    '0' <= c && c <= '9'
}

pub open spec fn digit_val(c: char) -> int {
    c as int - '0' as int
}

/// The numeric value of a digit text, read left to right.
pub open spec fn digits_value(s: Seq<char>) -> int
    decreases s.len(),
{
    if s.len() == 0 {
        0
    } else {
        digits_value(s.drop_last()) * 10 + digit_val(s[s.len() - 1])
    }
}

/// The number a version component denotes: a nonempty all-digit text whose
/// value fits in 32 bits; anything else denotes nothing and is dropped.
pub open spec fn component_value(s: Seq<char>) -> Option<u32> {
    if s.len() > 0 && (forall|k: int| 0 <= k < s.len() ==> is_digit(#[trigger] s[k]))
        && digits_value(s) <= u32::MAX {
        Some(digits_value(s) as u32)
    } else {
        None
    }
}

/// The numeric components of a version text: dot-separated pieces that
/// denote numbers, in order.
pub open spec fn version_components(s: Seq<char>) -> Seq<u32> {
    parsed_components(split_at_seps(s, '.'))
}

pub open spec fn parsed_components(parts: Seq<Seq<char>>) -> Seq<u32>
    decreases parts.len(),
{
    if parts.len() == 0 {
        Seq::empty()
    } else {
        let rest = parsed_components(parts.drop_first());
        match component_value(parts[0]) {
            None => rest,
            Some(n) => seq![n] + rest,
        }
    }
}

/// Compare two component lists: the first differing component decides;
/// with no differing component, the shorter list is smaller.
pub open spec fn version_order(a: Seq<u32>, b: Seq<u32>) -> int
    decreases a.len(),
{
    if a.len() == 0 || b.len() == 0 {
        if a.len() < b.len() {
            -1
        } else if a.len() > b.len() {
            1
        } else {
            0
        }
    } else if a[0] < b[0] {
        -1
    } else if a[0] > b[0] {
        1
    } else {
        version_order(a.drop_first(), b.drop_first())
    }
}

/// What `version_compare` answers for one operator text.
pub open spec fn version_compare_spec(cur: Seq<char>, target: Seq<char>, op: Seq<char>) -> bool {
    let ord = version_order(version_components(cur), version_components(target));
    if op == "=="@ {
        ord == 0
    } else if op == "!="@ {
        ord != 0
    } else if op == ">"@ {
        ord > 0
    } else if op == ">="@ {
        ord >= 0
    } else if op == "<"@ {
        ord < 0
    } else if op == "<="@ {
        ord <= 0
    } else {
        false
    }
}

/// Parse one version component; mirrors `component_value`.
fn parse_component(s: &Vec<char>) -> (r: Option<u32>)
    ensures
        r == component_value(s@),
{
    if s.len() == 0 {
        return None;
    }
    let mut value: u64 = 0;
    let mut i: usize = 0;
    while i < s.len()
        invariant
            i <= s@.len(),
            forall|k: int| 0 <= k < i ==> is_digit(#[trigger] s@[k]),
            value == digits_value(s@.subrange(0, i as int)),
            value <= u32::MAX,
        decreases s@.len() - i,
    {
        let c = s[i];
        if !('0' <= c && c <= '9') {
            return None;
        }
        let d = (c as u32) - ('0' as u32);
        let next: u64 = value * 10 + (d as u64);
        proof {
            assert(s@.subrange(0, i as int + 1).drop_last() =~= s@.subrange(0, i as int));
            assert(s@.subrange(0, i as int + 1)[i as int] == s@[i as int]);
        }
        if next > u32::MAX as u64 {
            // The full component exceeds the range: it denotes nothing.
            proof {
                if forall|k: int| 0 <= k < s@.len() ==> is_digit(#[trigger] s@[k]) {
                    lemma_digits_value_grows(s@, i as int + 1);
                }
            }
            return None;
        }
        value = next;
        i = i + 1;
    }
    proof {
        assert(s@.subrange(0, s@.len() as int) =~= s@);
    }
    Some(value as u32)
}

/// The value of a digit text never falls below the value of a prefix.
proof fn lemma_digits_value_grows(s: Seq<char>, i: int)
    requires
        0 <= i <= s.len(),
        forall|k: int| 0 <= k < s.len() ==> is_digit(#[trigger] s[k]),
    ensures
        digits_value(s) >= digits_value(s.subrange(0, i)),
    decreases s.len() - i,
{
    if i < s.len() {
        lemma_digits_value_grows(s, i + 1);
        assert(s.subrange(0, i + 1).drop_last() =~= s.subrange(0, i));
        assert(digits_value(s.subrange(0, i + 1)) == digits_value(s.subrange(0, i)) * 10
            + digit_val(s[i + 1 - 1]));
        assert(forall|k: int|
            0 <= k < s.subrange(0, i).len() ==> is_digit(#[trigger] s.subrange(0, i)[k]));
        lemma_digits_value_nonneg(s.subrange(0, i));
    } else {
        assert(s.subrange(0, i) =~= s);
    }
}

proof fn lemma_digits_value_nonneg(s: Seq<char>)
    requires
        forall|k: int| 0 <= k < s.len() ==> is_digit(#[trigger] s[k]),
    ensures
        digits_value(s) >= 0,
    decreases s.len(),
{
    if s.len() > 0 {
        assert(forall|k: int|
            0 <= k < s.drop_last().len() ==> is_digit(#[trigger] s.drop_last()[k]));
        lemma_digits_value_nonneg(s.drop_last());
    }
}

/// The numeric components of a version text.
fn parse_version(s: &str) -> (r: Vec<u32>)
    ensures
        r@ == version_components(s@),
{
    let v = chars_of(s);
    let mut out: Vec<u32> = Vec::new();
    let mut pos: usize = 0;
    let n = v.len();
    proof {
        assert(v@.skip(0) =~= v@);
        assert(out@ + parsed_components(split_at_seps(v@, '.')) =~= parsed_components(
            split_at_seps(v@, '.'),
        ));
    }
    loop
        invariant_except_break
            version_components(v@) == out@ + parsed_components(split_at_seps(v@.skip(pos as int), '.')),
        invariant
            pos <= n,
            n == v@.len(),
        ensures
            out@ == version_components(v@),
        decreases n - pos,
    {
        let i = crate::text::find_from(&v, '.', pos);
        let seg = slice_of(&v, pos, i);
        let ghost rest = v@.skip(pos as int);
        proof {
            assert(forall|k: int|
                0 <= k < i - pos ==> rest[k] == v@[k + pos as int] && rest[k] != '.');
            if i < v@.len() {
                assert(rest[i - pos as int] == '.');
            }
            lemma_first_idx_at(rest, '.', i - pos as int);
            assert(rest.subrange(0, i - pos as int) =~= v@.subrange(pos as int, i as int));
        }
        let ghost out0 = out@;
        match parse_component(&seg) {
            Some(nval) => {
                out.push(nval);
                proof {
                    assert(out@ =~= out0.push(nval));
                }
            },
            None => {},
        }
        if i == n {
            proof {
                assert(split_at_seps(rest, '.') == seq![rest]);
                assert(seq![rest].drop_first() =~= Seq::<Seq<char>>::empty());
                assert(parsed_components(Seq::<Seq<char>>::empty()) == Seq::<u32>::empty());
                assert(rest =~= seg@);
                match component_value(seg@) {
                    Some(nval) => {
                        assert(parsed_components(seq![rest]) == seq![nval] + Seq::<u32>::empty());
                        assert(out@ =~= out0 + (seq![nval] + Seq::<u32>::empty()));
                    },
                    None => {
                        assert(out@ =~= out0 + parsed_components(seq![rest]));
                    },
                }
            }
            break;
        }
        proof {
            assert(rest.skip(i - pos as int + 1) =~= v@.skip(i as int + 1));
            assert(split_at_seps(rest, '.') == seq![seg@] + split_at_seps(v@.skip(i as int + 1), '.'));
            assert((seq![seg@] + split_at_seps(v@.skip(i as int + 1), '.')).drop_first()
                =~= split_at_seps(v@.skip(i as int + 1), '.'));
            let tail = parsed_components(split_at_seps(v@.skip(i as int + 1), '.'));
            match component_value(seg@) {
                Some(nval) => {
                    assert(parsed_components(split_at_seps(rest, '.')) == seq![nval] + tail);
                    assert(out@ + tail =~= out0 + (seq![nval] + tail));
                },
                None => {
                    assert(parsed_components(split_at_seps(rest, '.')) == tail);
                },
            }
        }
        pos = i + 1;
    }
    out
}

/// Compare two version texts under an operator drawn from
/// `==`, `!=`, `>`, `>=`, `<` and `<=`; an unknown operator answers false.
pub fn version_compare(current_version: &str, target_version: &str, op: &str) -> (r: bool)
    ensures
        r == version_compare_spec(current_version@, target_version@, op@),
{
    let a = parse_version(current_version);
    let b = parse_version(target_version);
    let mut i: usize = 0;
    let mut ord: i8 = 0;
    let ghost av = a@;
    let ghost bv = b@;
    proof {
        assert(av.skip(0) =~= av);
        assert(bv.skip(0) =~= bv);
    }
    while i < a.len() && i < b.len() && ord == 0
        invariant
            av == a@,
            bv == b@,
            i <= av.len(),
            i <= bv.len(),
            ord == 0 ==> version_order(av, bv) == version_order(
                av.skip(i as int),
                bv.skip(i as int),
            ),
            ord != 0 ==> version_order(av, bv) == ord as int,
            ord == -1 || ord == 0 || ord == 1,
        decreases av.len() - i,
    {
        proof {
            assert(av.skip(i as int)[0] == av[i as int]);
            assert(bv.skip(i as int)[0] == bv[i as int]);
            assert(av.skip(i as int).drop_first() =~= av.skip(i as int + 1));
            assert(bv.skip(i as int).drop_first() =~= bv.skip(i as int + 1));
        }
        if a[i] < b[i] {
            ord = -1;
        } else if a[i] > b[i] {
            ord = 1;
        }
        i = i + 1;
    }
    proof {
        if ord == 0 {
            assert(av.skip(i as int).len() == 0 || bv.skip(i as int).len() == 0);
        }
    }
    let ghost spec_ord = version_order(av, bv);
    let result_ord: i8 = if ord != 0 {
        ord
    } else if a.len() < b.len() {
        -1
    } else if a.len() > b.len() {
        1
    } else {
        0
    };
    proof {
        assert(result_ord as int == spec_ord || (result_ord == 0 && spec_ord == 0));
    }
    if crate::text::str_eq(op, "==") {
        result_ord == 0
    } else if crate::text::str_eq(op, "!=") {
        result_ord != 0
    } else if crate::text::str_eq(op, ">") {
        result_ord > 0
    } else if crate::text::str_eq(op, ">=") {
        result_ord >= 0
    } else if crate::text::str_eq(op, "<") {
        result_ord < 0
    } else if crate::text::str_eq(op, "<=") {
        result_ord <= 0
    } else {
        false
    }
}

} // verus!
