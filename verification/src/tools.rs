//! Pattern-driven tree traversal, shell-style argument extraction,
//! and `%path%` parameter filling.

use crate::error::Error;
use crate::scope::SchemaScope;
use crate::text::{char_is_ws, dec_chars, is_ws, push_char, push_dec_i64, str_eq};
use crate::value::{
    first_key_index, lemma_ent_dv, lemma_first_key_index, lemma_seq_dv, lookup_key, Doc, Value,
};
use vstd::prelude::*;
use vstd::string::StrSliceExecFns;

verus! {

/// The position of the first occurrence of `sep`, or `-1`.
pub open spec fn first_char_index(s: Seq<char>, sep: char) -> int
    decreases s.len(),
{
    if s.len() == 0 {
        -1
    } else if s[0] == sep {
        0
    } else {
        let r = first_char_index(s.drop_first(), sep);
        if r < 0 {
            -1
        } else {
            r + 1
        }
    }
}

/// What `first_char_index` finds.
pub proof fn lemma_first_char_index(s: Seq<char>, sep: char)
    ensures
        -1 <= first_char_index(s, sep) < s.len(),
        first_char_index(s, sep) >= 0 ==> s[first_char_index(s, sep)] == sep,
        forall|j: int| 0 <= j < first_char_index(s, sep) ==> s[j] != sep,
        first_char_index(s, sep) == -1 ==> forall|j: int| 0 <= j < s.len() ==> s[j] != sep,
    decreases s.len(),
{
    if s.len() > 0 && s[0] != sep {
        lemma_first_char_index(s.drop_first(), sep);
        assert forall|j: int| 0 <= j < first_char_index(s, sep) implies s[j] != sep by {
            if j > 0 {
                assert(s.drop_first()[j - 1] == s[j]);
            }
        }
        if first_char_index(s, sep) == -1 {
            assert forall|j: int| 0 <= j < s.len() implies s[j] != sep by {
                if j > 0 {
                    assert(s.drop_first()[j - 1] == s[j]);
                }
            }
        }
    }
}

/// A pointwise characterization pins `first_char_index` down.
pub proof fn lemma_first_char_index_of(s: Seq<char>, sep: char, i: int)
    requires
        0 <= i < s.len(),
        s[i] == sep,
        forall|j: int| 0 <= j < i ==> s[j] != sep,
    ensures
        first_char_index(s, sep) == i,
    decreases s.len(),
{
    if i > 0 {
        assert(forall|j: int| 0 <= j < s.len() - 1 ==> s.drop_first()[j] == s[j + 1]);
        lemma_first_char_index_of(s.drop_first(), sep, i - 1);
    }
}

/// The pieces of `s` between occurrences of `sep`, in order; an
/// absent separator gives the one-piece list.
pub open spec fn split_on(s: Seq<char>, sep: char) -> Seq<Seq<char>>
    decreases s.len(),
    via split_on_dec
{
    let i = first_char_index(s, sep);
    if i < 0 {
        seq![s]
    } else {
        seq![s.take(i)] + split_on(s.skip(i + 1), sep)
    }
}

#[via_fn]
proof fn split_on_dec(s: Seq<char>, sep: char) {
    lemma_first_char_index(s, sep);
}

/// `s` without its leading slashes.
pub open spec fn drop_leading_slashes(s: Seq<char>) -> Seq<char>
    decreases s.len(),
{
    if s.len() > 0 && s[0] == '/' {
        drop_leading_slashes(s.drop_first())
    } else {
        s
    }
}

/// `s` without its trailing slashes.
pub open spec fn drop_trailing_slashes(s: Seq<char>) -> Seq<char>
    decreases s.len(),
{
    if s.len() > 0 && s.last() == '/' {
        drop_trailing_slashes(s.drop_last())
    } else {
        s
    }
}

/// `s` without slashes at either end.
pub open spec fn trim_slashes(s: Seq<char>) -> Seq<char> {
    drop_trailing_slashes(drop_leading_slashes(s))
}

/// A `type:key` pattern segment: exactly one colon splits it into the
/// scope label and the child key.
pub open spec fn parse_segment(s: Seq<char>) -> Option<(Seq<char>, Seq<char>)> {
    let parts = split_on(s, ':');
    if parts.len() == 2 {
        Some((parts[0], parts[1]))
    } else {
        None
    }
}

/// The segments of a whole path pattern, or nothing when any segment
/// is malformed.
pub open spec fn parse_pattern(p: Seq<char>) -> Option<Seq<(Seq<char>, Seq<char>)>> {
    let parts = split_on(trim_slashes(p), '/');
    if forall|i: int| 0 <= i < parts.len() ==> (#[trigger] parse_segment(parts[i])) is Some {
        Some(Seq::new(parts.len(), |i: int| parse_segment(parts[i]).unwrap()))
    } else {
        None
    }
}

/// Whether every character is a decimal digit.
pub open spec fn all_digits(s: Seq<char>) -> bool {
    forall|i: int| 0 <= i < s.len() ==> '0' <= #[trigger] s[i] <= '9'
}

/// The numeric value of a digit string.
pub open spec fn digits_val(s: Seq<char>) -> int
    decreases s.len(),
{
    if s.len() == 0 {
        0
    } else {
        digits_val(s.drop_last()) * 10 + (s.last() as int - '0' as int)
    }
}

/// An array-index pointer token: digits only, no leading zero unless
/// the token is exactly `0`, and a value that fits the machine.
pub open spec fn parse_index(s: Seq<char>) -> Option<int> {
    if s.len() == 0 {
        None
    } else if s.len() > 1 && s[0] == '0' {
        None
    } else if !all_digits(s) {
        None
    } else if digits_val(s) > usize::MAX as int {
        None
    } else {
        Some(digits_val(s))
    }
}

/// Pointer-style child lookup: an object is looked up by exact key,
/// an array by a decimal index token, anything else has no children.
pub open spec fn child_of(d: Doc, key: Seq<char>) -> Option<Doc> {
    match d {
        Doc::Object(es) => lookup_key(es, key),
        Doc::Array(xs) => match parse_index(key) {
            Some(i) => if 0 <= i < xs.len() {
                Some(xs[i])
            } else {
                None
            },
            None => None,
        },
        _ => None,
    }
}

/// Chained pointer lookup over a token list.
pub open spec fn ptr_lookup(d: Doc, tokens: Seq<Seq<char>>) -> Option<Doc>
    decreases tokens.len(),
{
    if tokens.len() == 0 {
        Some(d)
    } else {
        match child_of(d, tokens[0]) {
            Some(c) => ptr_lookup(c, tokens.drop_first()),
            None => None,
        }
    }
}

/// Finds the first occurrence of `sep` in `s`.
fn find_char(s: &str, sep: char) -> (r: Option<usize>)
    ensures
        match r {
            Some(i) => i < s@.len() && first_char_index(s@, sep) == i,
            None => first_char_index(s@, sep) == -1,
        },
{
    let n = s.unicode_len();
    let mut i: usize = 0;
    while i < n
        invariant
            n == s@.len(),
            i <= n,
            forall|j: int| 0 <= j < i ==> s@[j] != sep,
        decreases n - i,
    {
        if s.get_char(i) == sep {
            proof {
                lemma_first_char_index_of(s@, sep, i as int);
            }
            return Some(i);
        }
        i += 1;
    }
    proof {
        lemma_first_char_index(s@, sep);
    }
    None
}

/// Splits `s` at every occurrence of `sep`, following `split_on`.
pub(crate) fn split_str(s: &str, sep: char) -> (r: Vec<String>)
    ensures
        r.deep_view() =~= split_on(s@, sep),
    decreases s@.len(),
{
    match find_char(s, sep) {
        None => {
            let mut out: Vec<String> = Vec::new();
            out.push(String::from_str(s));
            proof {
                assert(out.deep_view() =~= split_on(s@, sep));
            }
            out
        },
        Some(i) => {
            let n = s.unicode_len();
            let head = s.substring_char(0, i);
            let tail = s.substring_char(i + 1, n);
            proof {
                assert(head@ =~= s@.take(i as int));
                assert(tail@ =~= s@.skip(i + 1));
            }
            let mut out: Vec<String> = Vec::new();
            out.push(String::from_str(head));
            let mut rest = split_str(tail, sep);
            let ghost out0 = out@;
            let ghost rest0 = rest@;
            let ghost restdv = rest.deep_view();
            out.append(&mut rest);
            proof {
                assert(out@ == out0 + rest0);
                assert forall|t: int|
                    0 <= t < out@.len() implies out.deep_view()[t] == (seq![s@.take(i as int)]
                    + restdv)[t] by {
                    assert(out.deep_view()[t] == out@[t]@);
                    if t == 0 {
                        assert(out@[0] == out0[0]);
                    } else {
                        assert(out@[t] == rest0[t - 1]);
                        assert(restdv[t - 1] == rest0[t - 1]@);
                    }
                }
                assert(out.deep_view() =~= seq![s@.take(i as int)] + restdv);
                assert(out.deep_view() =~= seq![s@.take(i as int)] + split_on(s@.skip(i + 1), sep));
            }
            out
        },
    }
}

proof fn lemma_drop_leading(s: Seq<char>, a: int)
    requires
        0 <= a <= s.len(),
        forall|j: int| 0 <= j < a ==> s[j] == '/',
        a == s.len() || s[a] != '/',
    ensures
        drop_leading_slashes(s) == s.skip(a),
    decreases a,
{
    if a == 0 {
        assert(s.skip(0) =~= s);
    } else {
        assert(s[0] == '/');
        assert forall|j: int| 0 <= j < a - 1 implies s.drop_first()[j] == '/' by {
            assert(s.drop_first()[j] == s[j + 1]);
        }
        if a < s.len() {
            assert(s.drop_first()[a - 1] == s[a as int]);
        }
        lemma_drop_leading(s.drop_first(), a - 1);
        assert(s.drop_first().skip(a - 1) =~= s.skip(a));
    }
}

proof fn lemma_drop_trailing(s: Seq<char>, b: int)
    requires
        0 <= b <= s.len(),
        forall|j: int| b <= j < s.len() ==> s[j] == '/',
        b == 0 || s[b - 1] != '/',
    ensures
        drop_trailing_slashes(s) == s.take(b),
    decreases s.len() - b,
{
    if b == s.len() {
        assert(s.take(b) =~= s);
    } else {
        assert(s.last() == '/');
        assert forall|j: int| b <= j < s.len() - 1 implies s.drop_last()[j] == '/' by {
            assert(s.drop_last()[j] == s[j]);
        }
        if b > 0 {
            assert(s.drop_last()[b - 1] == s[b - 1]);
        }
        lemma_drop_trailing(s.drop_last(), b);
        assert(s.drop_last().take(b) =~= s.take(b));
    }
}

/// Removes slashes from both ends of `s`, following `trim_slashes`.
fn trim_slashes_str(s: &str) -> (r: String)
    ensures
        r@ == trim_slashes(s@),
{
    let n = s.unicode_len();
    let mut a: usize = 0;
    while a < n && s.get_char(a) == '/'
        invariant
            n == s@.len(),
            a <= n,
            forall|j: int| 0 <= j < a ==> s@[j] == '/',
        decreases n - a,
    {
        a += 1;
    }
    proof {
        lemma_drop_leading(s@, a as int);
    }
    let mut b: usize = n;
    while b > a && s.get_char(b - 1) == '/'
        invariant
            n == s@.len(),
            a <= b <= n,
            forall|j: int| b <= j < n ==> s@[j] == '/',
        decreases b,
    {
        b -= 1;
    }
    let mid = s.substring_char(a, b);
    proof {
        let dropped = s@.skip(a as int);
        if b > a {
            assert(s@[b - 1] != '/');
            assert forall|j: int| b - a <= j < dropped.len() implies dropped[j] == '/' by {
                assert(dropped[j] == s@[j + a]);
            }
            assert(dropped[b - a - 1] == s@[b - 1]);
            lemma_drop_trailing(dropped, b - a);
        } else {
            assert forall|j: int| 0 <= j < dropped.len() implies dropped[j] == '/' by {
                assert(dropped[j] == s@[j + a]);
            }
            lemma_drop_trailing(dropped, 0);
        }
        assert(mid@ =~= dropped.take(b - a));
        assert(mid@ == trim_slashes(s@));
    }
    String::from_str(mid)
}

proof fn lemma_digits_val_bound(s: Seq<char>, i: int)
    requires
        all_digits(s),
        0 <= i <= s.len(),
    ensures
        digits_val(s) >= digits_val(s.take(i)),
        digits_val(s.take(i)) >= 0,
    decreases s.len() - i,
{
    if i == s.len() {
        assert(s.take(i) =~= s);
        lemma_digits_val_nonneg(s);
    } else {
        lemma_digits_val_bound(s, i + 1);
        assert(s.take(i + 1).drop_last() =~= s.take(i));
        assert('0' <= s[i] <= '9');
        assert(s.take(i + 1).last() == s[i]);
        lemma_digits_val_nonneg(s.take(i));
    }
}

proof fn lemma_digits_val_nonneg(s: Seq<char>)
    requires
        forall|i: int| 0 <= i < s.len() ==> '0' <= #[trigger] s[i] <= '9',
    ensures
        digits_val(s) >= 0,
    decreases s.len(),
{
    if s.len() > 0 {
        assert forall|i: int| 0 <= i < s.len() - 1 implies '0' <= #[trigger] s.drop_last()[i]
            <= '9' by {
            assert(s.drop_last()[i] == s[i]);
        }
        lemma_digits_val_nonneg(s.drop_last());
    }
}

/// Parses an array-index pointer token, following `parse_index`.
fn parse_index_str(s: &str) -> (r: Option<usize>)
    ensures
        match r {
            Some(i) => parse_index(s@) == Some(i as int),
            None => parse_index(s@) is None,
        },
{
    let n = s.unicode_len();
    if n == 0 {
        return None;
    }
    if n > 1 && s.get_char(0) == '0' {
        return None;
    }
    let mut acc: usize = 0;
    let mut i: usize = 0;
    while i < n
        invariant
            n == s@.len(),
            i <= n,
            forall|j: int| 0 <= j < i ==> '0' <= #[trigger] s@[j] <= '9',
            acc == digits_val(s@.take(i as int)),
        decreases n - i,
    {
        let c = s.get_char(i);
        if !(c >= '0' && c <= '9') {
            return None;
        }
        let d: usize = (c as u32 as usize) - ('0' as u32 as usize);
        if acc > (usize::MAX - d) / 10 {
            // the value cannot fit; the digits that remain only grow it
            proof {
                assert(s@.take(i + 1).drop_last() =~= s@.take(i as int));
                assert(s@.take(i + 1).last() == s@[i as int]);
                if parse_index(s@) is Some {
                    assert(all_digits(s@));
                    lemma_digits_val_bound(s@, i + 1);
                }
            }
            return None;
        }
        acc = acc * 10 + d;
        proof {
            assert(s@.take(i + 1).drop_last() =~= s@.take(i as int));
            assert(s@.take(i + 1).last() == s@[i as int]);
        }
        i += 1;
    }
    proof {
        assert(s@.take(n as int) =~= s@);
    }
    Some(acc)
}

/// Whether `c` is a direct structural child of `p`.
pub open spec fn is_child_value(p: Value, c: Value) -> bool {
    ||| (p is Object && exists|t: int|
        0 <= t < p->Object_0@.len() && c == (#[trigger] p->Object_0@[t]).1)
    ||| (p is Array && exists|t: int| 0 <= t < p->Array_0@.len() && c == #[trigger] p->Array_0@[t])
}

/// A child is structurally below its parent.
pub proof fn lemma_child_decreases(p: Value, c: Value)
    requires
        is_child_value(p, c),
    ensures
        decreases_to!(p => c),
{
    if p is Object && exists|t: int|
        0 <= t < p->Object_0@.len() && c == (#[trigger] p->Object_0@[t]).1 {
        let t = choose|t: int|
            0 <= t < p->Object_0@.len() && c == (#[trigger] p->Object_0@[t]).1;
        assert(decreases_to!(p => p->Object_0));
        assert(decreases_to!(p->Object_0 => p->Object_0@));
        assert(decreases_to!(p->Object_0@ => p->Object_0@[t]));
        assert(decreases_to!(p->Object_0@[t] => p->Object_0@[t].1));
        assert(decreases_to!(p => c));
    } else {
        let t = choose|t: int| 0 <= t < p->Array_0@.len() && c == #[trigger] p->Array_0@[t];
        assert(decreases_to!(p => p->Array_0));
        assert(decreases_to!(p->Array_0 => p->Array_0@));
        assert(decreases_to!(p->Array_0@ => p->Array_0@[t]));
        assert(decreases_to!(p => c));
    }
}

/// Pointer-style child access on a node, following `child_of`.
fn get_child<'a>(node: &'a Value, key: &str) -> (r: Option<&'a Value>)
    ensures
        match r {
            Some(c) => child_of(node@, key@) == Some(c@) && is_child_value(*node, *c),
            None => child_of(node@, key@) is None,
        },
{
    match node {
        Value::Object(es) => {
            match crate::value::find_key(es, key) {
                Some(t) => {
                    proof {
                        lemma_ent_dv(es@);
                    }
                    Some(&es[t].1)
                },
                None => None,
            }
        },
        Value::Array(xs) => {
            match parse_index_str(key) {
                Some(t) => {
                    proof {
                        lemma_seq_dv(xs@);
                    }
                    if t < xs.len() {
                        Some(&xs[t])
                    } else {
                        None
                    }
                },
                None => None,
            }
        },
        _ => None,
    }
}

/// A pattern segment pair as the model sees it: scope label and key.
pub type SegV = (Seq<char>, Seq<char>);

/// One match found by the tree walker: the matched node and the
/// literal keys captured at wildcard positions, in traversal order.
pub struct NodeMatch {
    pub node: Value,
    pub parts: Vec<String>,
}

impl View for NodeMatch {
    type V = (Doc, Seq<Seq<char>>);

    open spec fn view(&self) -> (Doc, Seq<Seq<char>>) {
        (self.node@, self.parts.deep_view())
    }
}

/// Every node matched by the pattern suffix `segs[i..]` under `d`,
/// depth first: a spent pattern matches `d` itself; a literal segment
/// descends into the child with that key, or matches nothing when the
/// child is absent; a wildcard segment visits every entry of an
/// object in stored order, capturing its key, and fails on any other
/// node shape.
pub open spec fn walk(d: Doc, segs: Seq<SegV>, i: int, parts: Seq<Seq<char>>) -> Result<
    Seq<(Doc, Seq<Seq<char>>)>,
    (),
>
    decreases d, 0int,
    via walk_dec
{
    if i >= segs.len() {
        Ok(seq![(d, parts)])
    } else {
        let key = segs[i].1;
        if key == "*"@ {
            match d {
                Doc::Object(es) => walk_all(es, 0, segs, i, parts),
                _ => Err(()),
            }
        } else {
            match child_of(d, key) {
                Some(c) => walk(c, segs, i + 1, parts),
                None => Ok(Seq::empty()),
            }
        }
    }
}

/// The matches below every entry of `es` from position `j` on, for a
/// wildcard at segment `i`, concatenated in entry order; the first
/// failing subtree fails the whole traversal.
pub open spec fn walk_all(
    es: crate::value::Entries,
    j: int,
    segs: Seq<SegV>,
    i: int,
    parts: Seq<Seq<char>>,
) -> Result<Seq<(Doc, Seq<Seq<char>>)>, ()>
    decreases es, es.len() - j,
{
    if j < 0 || j >= es.len() {
        Ok(Seq::empty())
    } else {
        match walk(es[j].1, segs, i + 1, parts.push(es[j].0)) {
            Err(e) => Err(e),
            Ok(first) => match walk_all(es, j + 1, segs, i, parts) {
                Err(e) => Err(e),
                Ok(rest) => Ok(first + rest),
            },
        }
    }
}

#[via_fn]
proof fn walk_dec(d: Doc, segs: Seq<SegV>, i: int, parts: Seq<Seq<char>>) {
    if i < segs.len() {
        let key = segs[i].1;
        if key == "*"@ {
            if d is Object {
                assert(decreases_to!(d => d->Object_0));
            }
        } else {
            match d {
                Doc::Object(es) => {
                    lemma_first_key_index(es, key);
                    let t = first_key_index(es, key);
                    if t >= 0 {
                        assert(decreases_to!(d => d->Object_0));
                        assert(decreases_to!(es => es[t]));
                        assert(decreases_to!(es[t] => es[t].1));
                        assert(decreases_to!(d => es[t].1));
                    }
                },
                Doc::Array(xs) => {
                    if parse_index(key) is Some {
                        let t = parse_index(key).unwrap();
                        if 0 <= t < xs.len() {
                            assert(decreases_to!(d => d->Array_0));
                            assert(decreases_to!(xs => xs[t]));
                            assert(decreases_to!(d => xs[t]));
                        }
                    }
                },
                _ => {},
            }
        }
    }
}

/// The pattern segments as the executable walker holds them.
pub open spec fn segs_view(segs: Seq<(String, String)>) -> Seq<SegV> {
    Seq::new(segs.len(), |i: int| (segs[i].0@, segs[i].1@))
}

#[verifier::loop_isolation(false)]
fn walk_exec(
    node: &Value,
    context: &mut SchemaScope,
    segs: &Vec<(String, String)>,
    i: usize,
    parts: &mut Vec<String>,
    out: &mut Vec<NodeMatch>,
) -> (r: Result<(), Error>)
    requires
        i <= segs@.len(),
    ensures
        final(context)@ == old(context)@,
        final(parts)@ == old(parts)@,
        match walk(node@, segs_view(segs@), i as int, old(parts).deep_view()) {
            Ok(ms) => r is Ok && final(out)@.len() == old(out)@.len() + ms.len() && (forall|t: int|
                0 <= t < old(out)@.len() ==> final(out)@[t] == #[trigger] old(out)@[t]) && (forall|
                t: int,
            |
                0 <= t < ms.len() ==> (#[trigger] final(out)@[old(out)@.len() + t])@ == ms[t]),
            Err(e) => r == Err::<(), Error>(Error::NotImplemented),
        },
    decreases node, 0int,
{
    let ghost gsegs = segs_view(segs@);
    let ghost parts0 = parts.deep_view();
    if i >= segs.len() {
        let copied = node.deep_copy();
        let mut captured: Vec<String> = Vec::new();
        let mut t: usize = 0;
        while t < parts.len()
            invariant
                t <= parts@.len(),
                captured@.len() == t,
                forall|s: int| 0 <= s < t ==> (#[trigger] captured@[s])@ == parts@[s]@,
            decreases parts@.len() - t,
        {
            captured.push(parts[t].clone());
            t += 1;
        }
        proof {
            assert(captured.deep_view() =~= parts.deep_view());
        }
        out.push(NodeMatch { node: copied, parts: captured });
        return Ok(());
    }
    let wildcard = str_eq(segs[i].1.as_str(), "*");
    if wildcard {
        match node {
            Value::Object(es) => {
                proof {
                    lemma_ent_dv(es@);
                }
                let ghost edv = Value::ent_dv(es@);
                let mut j: usize = 0;
                let ghost out0 = out@;
                while j < es.len()
                    invariant
                        j <= es@.len(),
                        context@ == old(context)@,
                        parts@ == old(parts)@,
                        parts.deep_view() == parts0,
                        out@.len() >= out0.len(),
                        forall|t: int| 0 <= t < out0.len() ==> out@[t] == #[trigger] out0[t],
                        ({
                            let done = Seq::new(
                                (out@.len() - out0.len()) as nat,
                                |t: int| out@[out0.len() + t]@,
                            );
                            match walk_all(edv, j as int, gsegs, i as int, parts0) {
                                Ok(rest) => walk_all(edv, 0, gsegs, i as int, parts0) == Ok::<
                                    _,
                                    (),
                                >(done + rest),
                                Err(e) => walk_all(edv, 0, gsegs, i as int, parts0) == Err::<
                                    Seq<(Doc, Seq<Seq<char>>)>,
                                    _,
                                >(e),
                            }
                        }),
                    decreases es@.len() - j,
                {
                    let key = es[j].0.clone();
                    context.push_str(segs[i].0.as_str(), key.as_str());
                    let ghost parts_pre = parts@;
                    parts.push(key);
                    proof {
                        assert forall|t: int|
                            0 <= t < parts.deep_view().len() implies parts.deep_view()[t]
                            == parts0.push(es@[j as int].0@)[t] by {
                            assert(parts.deep_view()[t] == parts@[t]@);
                            if t < parts_pre.len() {
                                assert(parts@[t] == parts_pre[t]);
                                assert(parts0[t] == parts_pre[t]@);
                            }
                        }
                        assert(decreases_to!(*node => (*node)->Object_0));
                        assert(decreases_to!((*node)->Object_0 => es@));
                        assert(decreases_to!(es@ => es@[j as int]));
                        assert(decreases_to!(es@[j as int] => es@[j as int].1));
                        assert(decreases_to!(*node => es@[j as int].1));
                        assert(parts.deep_view() =~= parts0.push(es@[j as int].0@));
                        assert(edv[j as int] == (es@[j as int].0@, es@[j as int].1.dv()));
                    }
                    let ghost out_pre = out@;
                    let sub = walk_exec(&es[j].1, context, segs, i + 1, parts, out);
                    parts.pop();
                    context.pop();
                    proof {
                        assert(parts@ =~= parts_pre);
                        assert(context@ =~= old(context)@);
                    }
                    match sub {
                        Err(e) => {
                            proof {
                                assert(walk(edv[j as int].1, gsegs, i + 1, parts0.push(
                                    edv[j as int].0,
                                )) is Err);
                            }
                            return Err(e);
                        },
                        Ok(()) => {
                            proof {
                                let subms = walk(
                                    edv[j as int].1,
                                    gsegs,
                                    i + 1,
                                    parts0.push(edv[j as int].0),
                                )->Ok_0;
                                let done_pre = Seq::new(
                                    (out_pre.len() - out0.len()) as nat,
                                    |t: int| out_pre[out0.len() + t]@,
                                );
                                let done_now = Seq::new(
                                    (out@.len() - out0.len()) as nat,
                                    |t: int| out@[out0.len() + t]@,
                                );
                                assert forall|t: int|
                                    0 <= t < done_now.len() implies done_now[t] == (done_pre
                                    + subms)[t] by {
                                    if t < done_pre.len() {
                                        assert(out@[out0.len() + t] == out_pre[out0.len() + t]);
                                    } else {
                                        assert(out@[out_pre.len() + (t - done_pre.len())]@
                                            == subms[t - done_pre.len()]);
                                    }
                                }
                                assert(done_now =~= done_pre + subms);
                                let rest_next = walk_all(edv, j + 1, gsegs, i as int, parts0);
                                match rest_next {
                                    Ok(rest) => {
                                        assert(done_now + rest =~= done_pre + (subms + rest));
                                    },
                                    Err(_) => {},
                                }
                            }
                        },
                    }
                    j += 1;
                }
                proof {
                    let done = Seq::new((out@.len() - out0.len()) as nat, |t: int| out@[out0.len() + t]@);
                    assert(walk_all(edv, es@.len() as int, gsegs, i as int, parts0) == Ok::<
                        _,
                        (),
                    >(Seq::<(Doc, Seq<Seq<char>>)>::empty()));
                    assert(done + Seq::<(Doc, Seq<Seq<char>>)>::empty() =~= done);
                    assert(walk(node@, gsegs, i as int, parts0) == walk_all(
                        edv,
                        0,
                        gsegs,
                        i as int,
                        parts0,
                    ));
                }
                Ok(())
            },
            _ => Err(Error::NotImplemented),
        }
    } else {
        context.push_str(segs[i].0.as_str(), segs[i].1.as_str());
        let found = get_child(node, segs[i].1.as_str());
        let r = match found {
            Some(child) => {
                proof {
                    lemma_child_decreases(*node, *child);
                }
                walk_exec(child, context, segs, i + 1, parts, out)
            },
            None => Ok(()),
        };
        context.pop();
        proof {
            assert(context@ =~= old(context)@);
        }
        r
    }
}


/// Replacement of the node at an exact key path: descends by pointer
/// child lookup and swaps the reached node for `newv`; reports
/// whether the path existed, leaving the tree unchanged when not.
pub open spec fn set_at(d: Doc, tokens: Seq<Seq<char>>, newv: Doc) -> (Doc, bool)
    decreases tokens.len(),
{
    if tokens.len() == 0 {
        (newv, true)
    } else {
        match d {
            Doc::Object(es) => {
                let t = first_key_index(es, tokens[0]);
                if t < 0 {
                    (d, false)
                } else {
                    let sub = set_at(es[t].1, tokens.drop_first(), newv);
                    if sub.1 {
                        (Doc::Object(es.update(t, (es[t].0, sub.0))), true)
                    } else {
                        (d, false)
                    }
                }
            },
            Doc::Array(xs) => {
                match parse_index(tokens[0]) {
                    Some(t) => {
                        if 0 <= t < xs.len() {
                            let sub = set_at(xs[t], tokens.drop_first(), newv);
                            if sub.1 {
                                (Doc::Array(xs.update(t, sub.0)), true)
                            } else {
                                (d, false)
                            }
                        } else {
                            (d, false)
                        }
                    },
                    None => (d, false),
                }
            },
            _ => (d, false),
        }
    }
}

fn set_at_exec(node: Value, keys: &Vec<String>, i: usize, newv: Value) -> (r: (Value, bool))
    requires
        i <= keys@.len(),
    ensures
        (r.0@, r.1) == set_at(node@, keys.deep_view().skip(i as int), newv@),
    decreases keys@.len() - i,
{
    let ghost toks = keys.deep_view().skip(i as int);
    if i >= keys.len() {
        proof {
            assert(toks.len() == 0);
        }
        (newv, true)
    } else {
        proof {
            assert(toks[0] == keys.deep_view()[i as int]);
            assert(toks.drop_first() =~= keys.deep_view().skip(i + 1));
        }
        match node {
            Value::Object(mut es) => {
                let ghost es0 = es@;
                proof {
                    lemma_ent_dv(es0);
                }
                match crate::value::find_key(&es, keys[i].as_str()) {
                    None => (Value::Object(es), false),
                    Some(t) => {
                        let (k2, oldv) = es.remove(t);
                        let (sub, ok) = set_at_exec(oldv, keys, i + 1, newv);
                        es.insert(t, (k2, sub));
                        proof {
                            lemma_ent_dv(es@);
                            assert(es@ =~= es0.update(t as int, (es0[t as int].0, sub)));
                            let edv0 = Value::ent_dv(es0);
                            assert forall|q: int|
                                0 <= q < es@.len() implies Value::ent_dv(es@)[q] == edv0.update(
                                t as int,
                                (edv0[t as int].0, sub.dv()),
                            )[q] by {
                                assert(Value::ent_dv(es@)[q] == (es@[q].0@, es@[q].1.dv()));
                                assert(edv0[q] == (es0[q].0@, es0[q].1.dv()));
                                if q != t {
                                    assert(es@[q] == es0[q]);
                                } else {
                                    assert(es@[q] == (es0[q].0, sub));
                                }
                            }
                            assert(Value::ent_dv(es@) =~= edv0.update(
                                t as int,
                                (edv0[t as int].0, sub.dv()),
                            ));
                        }
                        if ok {
                            (Value::Object(es), true)
                        } else {
                            proof {
                                assert forall|q: int|
                                    0 <= q < es@.len() implies Value::ent_dv(es@)[q]
                                    == Value::ent_dv(es0)[q] by {
                                    if q != t {
                                        assert(es@[q] == es0[q]);
                                    } else {
                                        assert(es@[q] == (es0[q].0, sub));
                                    }
                                }
                                assert(Value::ent_dv(es@) =~= Value::ent_dv(es0));
                            }
                            (Value::Object(es), false)
                        }
                    },
                }
            },
            Value::Array(mut xs) => {
                let ghost xs0 = xs@;
                proof {
                    lemma_seq_dv(xs0);
                }
                match parse_index_str(keys[i].as_str()) {
                    None => (Value::Array(xs), false),
                    Some(t) => {
                        if t < xs.len() {
                            let oldv = xs.remove(t);
                            let (sub, ok) = set_at_exec(oldv, keys, i + 1, newv);
                            xs.insert(t, sub);
                            proof {
                                lemma_seq_dv(xs@);
                                assert(xs@ =~= xs0.update(t as int, sub));
                                assert forall|q: int|
                                    0 <= q < xs@.len() implies Value::seq_dv(xs@)[q]
                                    == Value::seq_dv(xs0).update(t as int, sub.dv())[q] by {
                                    assert(Value::seq_dv(xs@)[q] == xs@[q].dv());
                                    assert(Value::seq_dv(xs0)[q] == xs0[q].dv());
                                    if q != t {
                                        assert(xs@[q] == xs0[q]);
                                    } else {
                                        assert(xs@[q] == sub);
                                    }
                                }
                                assert(Value::seq_dv(xs@) =~= Value::seq_dv(xs0).update(
                                    t as int,
                                    sub.dv(),
                                ));
                            }
                            if ok {
                                (Value::Array(xs), true)
                            } else {
                                proof {
                                    assert forall|q: int|
                                        0 <= q < xs@.len() implies Value::seq_dv(xs@)[q]
                                        == Value::seq_dv(xs0)[q] by {
                                        if q != t {
                                            assert(xs@[q] == xs0[q]);
                                        } else {
                                            assert(xs@[q] == sub);
                                        }
                                    }
                                    assert(Value::seq_dv(xs@) =~= Value::seq_dv(xs0));
                                }
                                (Value::Array(xs), false)
                            }
                        } else {
                            (Value::Array(xs), false)
                        }
                    },
                }
            },
            other => (other, false),
        }
    }
}

/// Replaces the node at an exact key path, objects addressed by key
/// and arrays by decimal index, and reports whether the path existed.
/// Together with `each_node` this gives callers targeted mutation:
/// locate nodes by pattern, then rewrite them by path.
pub fn set_node_at(root: &mut Value, keys: &Vec<String>, new_value: Value) -> (r: bool)
    ensures
        (final(root)@, r) == set_at(old(root)@, keys.deep_view(), new_value@),
{
    let mut tmp = Value::Null;
    core::mem::swap(root, &mut tmp);
    let (res, ok) = set_at_exec(tmp, keys, 0, new_value);
    tmp = res;
    core::mem::swap(root, &mut tmp);
    proof {
        assert(keys.deep_view().skip(0) =~= keys.deep_view());
    }
    ok
}

/// Locates every node matched by a `type:key` path pattern with `*`
/// wildcards and returns a copy of each matched node with its
/// captured wildcard keys, in depth-first order. A malformed segment
/// is reported as `IncorrectPath`; a wildcard over a non-object node
/// as `NotImplemented`. The scope is left as it was found, on every
/// exit path.
pub fn each_node(root: &Value, context: &mut SchemaScope, path: &str) -> (r: Result<
    Vec<NodeMatch>,
    Error,
>)
    ensures
        final(context)@ == old(context)@,
        match parse_pattern(path@) {
            None => r matches Err(Error::IncorrectPath(p)) && p@ == path@,
            Some(segs) => match walk(root@, segs, 0, Seq::empty()) {
                Ok(ms) => r matches Ok(v) && v@.len() == ms.len() && (forall|t: int|
                    0 <= t < ms.len() ==> (#[trigger] v@[t])@ == ms[t]),
                Err(e) => r == Err::<Vec<NodeMatch>, Error>(Error::NotImplemented),
            },
        },
{
    let trimmed = trim_slashes_str(path);
    let raw = split_str(trimmed.as_str(), '/');
    let ghost rawdv = raw.deep_view();
    let mut segs: Vec<(String, String)> = Vec::new();
    let mut k: usize = 0;
    while k < raw.len()
        invariant
            k <= raw@.len(),
            rawdv == raw.deep_view(),
            rawdv =~= split_on(trim_slashes(path@), '/'),
            rawdv.len() == raw@.len(),
            segs@.len() == k,
            forall|t: int|
                0 <= t < k ==> parse_segment(rawdv[t]) == Some(
                    ((#[trigger] segs@[t]).0@, segs@[t].1@),
                ),
        decreases raw@.len() - k,
    {
        proof {
            assert(rawdv[k as int] == raw@[k as int]@);
        }
        let mut pieces = split_str(raw[k].as_str(), ':');
        if pieces.len() == 2 {
            let second = pieces.remove(1);
            let first_piece = pieces.remove(0);
            proof {
                assert(second@ == split_on(rawdv[k as int], ':')[1]);
                assert(first_piece@ == split_on(rawdv[k as int], ':')[0]);
            }
            segs.push((first_piece, second));
        } else {
            proof {
                assert(parse_segment(rawdv[k as int]) is None);
                assert(parse_pattern(path@) is None);
            }
            return Err(Error::IncorrectPath(String::from_str(path)));
        }
        k += 1;
    }
    proof {
        assert forall|t: int|
            0 <= t < rawdv.len() implies (#[trigger] parse_segment(rawdv[t])) is Some by {
            assert(parse_segment(rawdv[t]) == Some((segs@[t].0@, segs@[t].1@)));
        }
        assert(parse_pattern(path@) is Some);
        let pat = parse_pattern(path@)->Some_0;
        assert forall|t: int| 0 <= t < rawdv.len() implies segs_view(segs@)[t] == pat[t] by {
            assert(parse_segment(rawdv[t]) == Some((segs@[t].0@, segs@[t].1@)));
        }
        assert(segs_view(segs@) =~= pat);
    }
    let mut parts: Vec<String> = Vec::new();
    let mut out: Vec<NodeMatch> = Vec::new();
    proof {
        assert(parts.deep_view() =~= Seq::<Seq<char>>::empty());
    }
    let ghost out_pre = out@;
    let res = walk_exec(root, context, &segs, 0, &mut parts, &mut out);
    proof {
        match walk(root@, segs_view(segs@), 0, Seq::<Seq<char>>::empty()) {
            Ok(ms) => {
                assert forall|t: int| 0 <= t < ms.len() implies (#[trigger] out@[t])@ == ms[t] by {
                    assert((out@[out_pre.len() + t])@ == ms[t]);
                    assert(out_pre.len() + t == t);
                }
            },
            Err(_) => {},
        }
    }
    match res {
        Ok(()) => Ok(out),
        Err(e) => Err(e),
    }
}

/// One step of shell-style tokenization from position `i`: the next
/// token and the position after it. A backslash escapes the next
/// character; quotes group without being kept; unquoted whitespace
/// ends a token.
pub open spec fn next_arg(cs: Seq<char>, i: int, out: Seq<char>, escaped: bool, quote: Option<
    char,
>) -> (Option<Seq<char>>, int)
    decreases cs.len() - i,
{
    if i < 0 || i >= cs.len() {
        (if out.len() > 0 {
            Some(out)
        } else {
            None
        }, i)
    } else {
        let c = cs[i];
        if escaped {
            next_arg(cs, i + 1, out.push(c), false, quote)
        } else if c == '\\' {
            next_arg(cs, i + 1, out, true, quote)
        } else if quote is Some {
            if c == quote.unwrap() {
                next_arg(cs, i + 1, out, false, None)
            } else {
                next_arg(cs, i + 1, out.push(c), false, quote)
            }
        } else if c == '\'' || c == '"' {
            next_arg(cs, i + 1, out, false, Some(c))
        } else if is_ws(c) {
            if out.len() > 0 {
                (Some(out), i + 1)
            } else {
                next_arg(cs, i + 1, out, false, None)
            }
        } else {
            next_arg(cs, i + 1, out.push(c), false, quote)
        }
    }
}

/// A shell-style tokenizer over a command line: yields one argument
/// per call, handling quotes, escapes and whitespace as `next_arg`
/// says.
pub struct ArgumentsExtractor {
    chars: Vec<char>,
    pos: usize,
}

impl View for ArgumentsExtractor {
    type V = (Seq<char>, int);

    closed spec fn view(&self) -> (Seq<char>, int) {
        (self.chars@, self.pos as int)
    }
}

impl ArgumentsExtractor {
    /// A tokenizer at the start of the given command line.
    pub fn new(command: &str) -> (r: Self)
        ensures
            r@ == (command@, 0int),
    {
        let n = command.unicode_len();
        let mut chars: Vec<char> = Vec::new();
        let mut i: usize = 0;
        while i < n
            invariant
                n == command@.len(),
                i <= n,
                chars@.len() == i,
                forall|j: int| 0 <= j < i ==> chars@[j] == command@[j],
            decreases n - i,
        {
            chars.push(command.get_char(i));
            i += 1;
        }
        proof {
            assert(chars@ =~= command@);
        }
        ArgumentsExtractor { chars, pos: 0 }
    }

    /// The next argument, or nothing when the line is exhausted.
    pub fn next(&mut self) -> (r: Option<String>)
        ensures
            ({
                let step = next_arg(old(self)@.0, old(self)@.1, Seq::empty(), false, None);
                &&& final(self)@.0 == old(self)@.0
                &&& final(self)@.1 == step.1
                &&& match (r, step.0) {
                    (Some(s), Some(t)) => s@ == t,
                    (None, None) => true,
                    _ => false,
                }
            }),
    {
        let ghost cs = self.chars@;
        let ghost p0 = self.pos as int;
        let mut out = String::new();
        let mut escaped = false;
        let mut quote: Option<char> = None;
        proof {
            assert(out@ =~= Seq::<char>::empty());
        }
        while self.pos < self.chars.len()
            invariant
                old(self)@.0 == cs,
                old(self)@.1 == p0,
                self.chars@ == cs,
                next_arg(cs, p0, Seq::empty(), false, None) == next_arg(
                    cs,
                    self.pos as int,
                    out@,
                    escaped,
                    quote,
                ),
            decreases cs.len() - self.pos,
        {
            let c = self.chars[self.pos];
            self.pos = self.pos + 1;
            if escaped {
                push_char(&mut out, c);
                escaped = false;
            } else if c == '\\' {
                escaped = true;
            } else if let Some(qc) = quote {
                if c == qc {
                    quote = None;
                } else {
                    push_char(&mut out, c);
                }
            } else if c == '\'' || c == '"' {
                quote = Some(c);
            } else if char_is_ws(c) {
                if out.unicode_len() > 0 {
                    return Some(out);
                }
            } else {
                push_char(&mut out, c);
            }
        }
        if out.unicode_len() > 0 {
            Some(out)
        } else {
            None
        }
    }
}

/// The characters of a parameter name with every dot replaced by a
/// slash.
pub open spec fn dots_to_slashes(cur: Seq<char>) -> Seq<char> {
    Seq::new(
        cur.len(),
        |i: int|
            if cur[i] == '.' {
                '/'
            } else {
                cur[i]
            },
    )
}

/// The diagnostic pointer path of a parameter name.
pub open spec fn path_of(cur: Seq<char>) -> Seq<char> {
    seq!['/'] + dots_to_slashes(cur)
}

/// The pointer tokens a parameter name addresses.
pub open spec fn tokens_of(cur: Seq<char>) -> Seq<Seq<char>> {
    split_on(dots_to_slashes(cur), '/')
}

/// Parameter substitution from position `i` with the scanner state:
/// outside `%...%` characters pass through; a closing percent looks
/// the accumulated name up in the data and splices the text or
/// decimal rendering it finds, or fails with the name's pointer path
/// when the node is missing or is neither text nor a number.
pub open spec fn fill_from(
    cs: Seq<char>,
    i: int,
    inp: bool,
    cur: Seq<char>,
    acc: Seq<char>,
    data: Doc,
) -> Result<Seq<char>, Seq<char>>
    decreases cs.len() - i,
{
    if i < 0 || i >= cs.len() {
        Ok(acc)
    } else {
        let c = cs[i];
        if c == '%' {
            if cur.len() > 0 {
                match ptr_lookup(data, tokens_of(cur)) {
                    Some(Doc::Text(s)) => fill_from(cs, i + 1, !inp, Seq::empty(), acc + s, data),
                    Some(Doc::Number(n)) => fill_from(
                        cs,
                        i + 1,
                        !inp,
                        Seq::empty(),
                        acc + dec_chars(n),
                        data,
                    ),
                    _ => Err(path_of(cur)),
                }
            } else {
                fill_from(cs, i + 1, !inp, cur, acc, data)
            }
        } else if inp {
            fill_from(cs, i + 1, inp, cur.push(c), acc, data)
        } else {
            fill_from(cs, i + 1, inp, cur, acc.push(c), data)
        }
    }
}

/// What filling a whole phrase yields.
pub open spec fn fill_spec(phrase: Seq<char>, data: Doc) -> Result<Seq<char>, Seq<char>> {
    fill_from(phrase, 0, false, Seq::empty(), Seq::empty(), data)
}

fn lookup_tokens<'a>(root: &'a Value, tokens: &Vec<String>) -> (r: Option<&'a Value>)
    ensures
        match r {
            Some(c) => ptr_lookup(root@, tokens.deep_view()) == Some(c@),
            None => ptr_lookup(root@, tokens.deep_view()) is None,
        },
{
    let ghost toks = tokens.deep_view();
    proof {
        assert(toks.skip(0) =~= toks);
    }
    let mut cur: &Value = root;
    let mut k: usize = 0;
    while k < tokens.len()
        invariant
            k <= toks.len(),
            toks == tokens.deep_view(),
            toks.len() == tokens@.len(),
            ptr_lookup(root@, toks) == ptr_lookup(cur@, toks.skip(k as int)),
        decreases toks.len() - k,
    {
        proof {
            assert(toks.skip(k as int)[0] == toks[k as int]);
            assert(toks[k as int] == tokens@[k as int]@);
            assert(toks.skip(k as int).drop_first() =~= toks.skip(k + 1));
        }
        match get_child(cur, tokens[k].as_str()) {
            Some(c) => {
                cur = c;
            },
            None => {
                return None;
            },
        }
        k += 1;
    }
    proof {
        assert(toks.skip(toks.len() as int).len() == 0);
    }
    Some(cur)
}

/// Fills every `%path%` placeholder in `phrase` from `data`,
/// following `fill_spec`: dotted paths address nested values, text is
/// spliced verbatim, numbers in decimal; a path that is missing or
/// names a non-scalar fails with `CannotFillParameters`.
pub fn fill_parameters(phrase: &str, data: &Value) -> (r: Result<String, Error>)
    ensures
        match (r, fill_spec(phrase@, data@)) {
            (Ok(s), Ok(t)) => s@ == t,
            (Err(e), Err(p)) => e matches Error::CannotFillParameters(ps) && ps@ == p,
            _ => false,
        },
{
    let n = phrase.unicode_len();
    let mut i: usize = 0;
    let mut inp = false;
    let mut cur = String::new();
    let mut acc = String::new();
    proof {
        assert(cur@ =~= Seq::<char>::empty());
        assert(acc@ =~= Seq::<char>::empty());
    }
    while i < n
        invariant
            n == phrase@.len(),
            i <= n,
            fill_spec(phrase@, data@) == fill_from(phrase@, i as int, inp, cur@, acc@, data@),
        decreases n - i,
    {
        let c = phrase.get_char(i);
        if c == '%' {
            if cur.unicode_len() > 0 {
                // map dots to slashes, then follow the pointer
                let cn = cur.unicode_len();
                let mut mapped = String::new();
                let mut t: usize = 0;
                while t < cn
                    invariant
                        cn == cur@.len(),
                        t <= cn,
                        mapped@.len() == t,
                        forall|s: int| 0 <= s < t ==> mapped@[s] == dots_to_slashes(cur@)[s],
                    decreases cn - t,
                {
                    let ch = cur.get_char(t);
                    if ch == '.' {
                        push_char(&mut mapped, '/');
                    } else {
                        push_char(&mut mapped, ch);
                    }
                    t += 1;
                }
                proof {
                    assert(mapped@ =~= dots_to_slashes(cur@));
                }
                let tokens = split_str(mapped.as_str(), '/');
                let found = lookup_tokens(data, &tokens);
                match found {
                    Some(Value::Text(s)) => {
                        acc.append(s.as_str());
                        cur = String::new();
                        inp = !inp;
                        proof {
                            assert(cur@ =~= Seq::<char>::empty());
                        }
                    },
                    Some(Value::Number(num)) => {
                        push_dec_i64(&mut acc, *num);
                        cur = String::new();
                        inp = !inp;
                        proof {
                            assert(cur@ =~= Seq::<char>::empty());
                        }
                    },
                    _ => {
                        let mut p = String::new();
                        push_char(&mut p, '/');
                        p.append(mapped.as_str());
                        proof {
                            assert(p@ =~= path_of(cur@));
                        }
                        return Err(Error::CannotFillParameters(p));
                    },
                }
            } else {
                inp = !inp;
            }
        } else if inp {
            push_char(&mut cur, c);
        } else {
            push_char(&mut acc, c);
        }
        i += 1;
    }
    Ok(acc)
}

} // verus!
