//! The laws this library states about merging and normalization,
//! proved once and for all inputs.

use crate::merge::{
    fold_merged, merged, merged_entries, norm_entries, norm_elems, normalized, resolve_all_of,
    swap_remove_entries,
};
use crate::value::{first_key_index, lemma_first_key_index, lemma_first_key_index_of, lookup_key,
    Doc, Entries};
use vstd::prelude::*;

verus! {

/// No object anywhere in the tree has an `allOf` key.
pub open spec fn all_of_free(d: Doc) -> bool
    decreases d,
{
    match d {
        Doc::Object(es) => first_key_index(es, "allOf"@) == -1 && entries_all_of_free(es),
        Doc::Array(xs) => elems_all_of_free(xs),
        _ => true,
    }
}

/// Every entry value is free of `allOf` keys.
pub open spec fn entries_all_of_free(es: Entries) -> bool
    decreases es,
{
    if es.len() == 0 {
        true
    } else {
        entries_all_of_free(es.drop_last()) && all_of_free(es.last().1)
    }
}

/// Every element is free of `allOf` keys.
pub open spec fn elems_all_of_free(xs: Seq<Doc>) -> bool
    decreases xs,
{
    if xs.len() == 0 {
        true
    } else {
        elems_all_of_free(xs.drop_last()) && all_of_free(xs.last())
    }
}

/// Idempotence: normalizing a document with no `allOf` key anywhere
/// leaves it exactly as it was.
pub proof fn lemma_normalized_all_of_free(d: Doc)
    requires
        all_of_free(d),
    ensures
        normalized(d) == d,
    decreases d,
{
    match d {
        Doc::Object(es) => {
            lemma_norm_entries_free(es);
            assert(resolve_all_of(es) == Doc::Object(es));
        },
        Doc::Array(xs) => {
            lemma_norm_elems_free(xs);
        },
        _ => {},
    }
}

proof fn lemma_norm_entries_free(es: Entries)
    requires
        entries_all_of_free(es),
    ensures
        norm_entries(es) == es,
    decreases es,
{
    if es.len() > 0 {
        lemma_norm_entries_free(es.drop_last());
        lemma_normalized_all_of_free(es.last().1);
        assert(norm_entries(es) =~= es);
    } else {
        assert(norm_entries(es) =~= es);
    }
}

proof fn lemma_norm_elems_free(xs: Seq<Doc>)
    requires
        elems_all_of_free(xs),
    ensures
        norm_elems(xs) == xs,
    decreases xs,
{
    if xs.len() > 0 {
        lemma_norm_elems_free(xs.drop_last());
        lemma_normalized_all_of_free(xs.last());
        assert(norm_elems(xs) =~= xs);
    } else {
        assert(norm_elems(xs) =~= xs);
    }
}

/// The fold over branches proceeds strictly left to right: extending
/// the branch list by one merges that branch into the previous fold
/// result, so array order decides which branch wins a conflict.
pub proof fn lemma_fold_merged_step(bs: Seq<Doc>, b: Doc)
    requires
        bs.len() >= 1,
    ensures
        fold_merged(bs.push(b)) == merged(fold_merged(bs), b),
{
    assert(bs.push(b).drop_last() =~= bs);
    assert(bs.push(b).last() == b);
}

/// Merging two arrays concatenates them, source elements after
/// target elements, with no deduplication.
pub proof fn lemma_merged_arrays(a: Seq<Doc>, b: Seq<Doc>)
    ensures
        merged(Doc::Array(a), Doc::Array(b)) == Doc::Array(a + b),
{
}

/// Last writer wins: in every shape combination other than
/// object-into-object and array-into-array, the source replaces the
/// target entirely.
pub proof fn lemma_merged_replaces(a: Doc, b: Doc)
    requires
        !(a is Object && b is Object),
        !(a is Array && b is Array),
    ensures
        merged(a, b) == b,
{
}

/// An empty or malformed `allOf` is inert: when the first `allOf`
/// entry of a node holds an empty array or no array at all,
/// composition resolution leaves the node untouched, `allOf` key
/// included.
pub proof fn lemma_inert_all_of(es: Entries)
    requires
        ({
            let j = first_key_index(es, "allOf"@);
            j >= 0 && (match es[j].1 {
                Doc::Array(bs) => bs.len() == 0,
                _ => true,
            })
        }),
    ensures
        resolve_all_of(es) == Doc::Object(es),
{
}

/// No two entries share a key.
pub open spec fn unique_keys(es: Entries) -> bool {
    forall|i: int, j: int|
        0 <= i < j < es.len() ==> (#[trigger] es[i]).0 != (#[trigger] es[j]).0
}

proof fn lemma_lookup_push(es: Entries, k0: Seq<char>, v0: Doc, k: Seq<char>)
    ensures
        lookup_key(es.push((k0, v0)), k) == (if first_key_index(es, k) >= 0 {
            lookup_key(es, k)
        } else if k == k0 {
            Some(v0)
        } else {
            None::<Doc>
        }),
{
    let p = es.push((k0, v0));
    lemma_first_key_index(es, k);
    let t = first_key_index(es, k);
    if t >= 0 {
        assert(p[t] == es[t]);
        assert forall|s: int| 0 <= s < t implies (#[trigger] p[s]).0 != k by {
            assert(p[s] == es[s]);
        }
        lemma_first_key_index_of(p, k, t);
    } else if k == k0 {
        assert(p[es.len() as int] == (k0, v0));
        assert forall|s: int| 0 <= s < es.len() implies (#[trigger] p[s]).0 != k by {
            assert(p[s] == es[s]);
        }
        lemma_first_key_index_of(p, k, es.len() as int);
    } else {
        lemma_first_key_index(p, k);
        if first_key_index(p, k) >= 0 {
            let s = first_key_index(p, k);
            if s < es.len() {
                assert(p[s] == es[s]);
            } else {
                assert(p[s] == (k0, v0));
            }
            assert(false);
        }
    }
}

proof fn lemma_lookup_update(es: Entries, j: int, w: Doc, k: Seq<char>)
    requires
        0 <= j < es.len(),
        first_key_index(es, es[j].0) == j,
    ensures
        lookup_key(es.update(j, (es[j].0, w)), k) == (if k == es[j].0 {
            Some(w)
        } else {
            lookup_key(es, k)
        }),
{
    let u = es.update(j, (es[j].0, w));
    lemma_first_key_index(es, k);
    let t = first_key_index(es, k);
    assert forall|s: int| 0 <= s < es.len() implies (#[trigger] u[s]).0 == es[s].0 by {
        if s != j {
            assert(u[s] == es[s]);
        }
    }
    if t >= 0 {
        assert(u[t].0 == k);
        assert forall|s: int| 0 <= s < t implies (#[trigger] u[s]).0 != k by {
            assert(u[s].0 == es[s].0);
        }
        lemma_first_key_index_of(u, k, t);
        if k == es[j].0 {
            assert(t == j);
            assert(u[t] == (es[j].0, w));
        } else {
            assert(es[t].0 == k);
            assert(t != j);
            assert(u[t] == es[t]);
        }
    } else {
        lemma_first_key_index(u, k);
        if first_key_index(u, k) >= 0 {
            let s = first_key_index(u, k);
            assert(u[s].0 == es[s].0);
            assert(false);
        }
        if k == es[j].0 {
            assert(es[j].0 == k);
            assert(false);
        }
    }
}

/// Object union: looking a key up in the object-merge of two entry
/// lists finds the target's value where only the target has the key,
/// the source's value where only the source has it, and the recursive
/// merge of the two where both do. The source may not repeat a key.
pub proof fn lemma_merged_object_lookup(ae: Entries, be: Entries, k: Seq<char>)
    requires
        unique_keys(be),
    ensures
        lookup_key(merged_entries(ae, be), k) == (match (lookup_key(ae, k), lookup_key(be, k)) {
            (Some(x), Some(y)) => Some(merged(x, y)),
            (Some(x), None) => Some(x),
            (None, Some(y)) => Some(y),
            (None, None) => None::<Doc>,
        }),
    decreases be.len(),
{
    if be.len() == 0 {
    } else {
        let bp = be.drop_last();
        let k0 = be.last().0;
        let v0 = be.last().1;
        assert(be.last() == be[be.len() - 1]);
        assert forall|i: int, j: int|
            0 <= i < j < bp.len() implies (#[trigger] bp[i]).0 != (#[trigger] bp[j]).0 by {
            assert(bp[i] == be[i]);
            assert(bp[j] == be[j]);
        }
        lemma_merged_object_lookup(ae, bp, k);
        lemma_merged_object_lookup(ae, bp, k0);
        let rest = merged_entries(ae, bp);
        let j = first_key_index(rest, k0);
        lemma_first_key_index(rest, k0);
        assert forall|i: int| 0 <= i < bp.len() implies (#[trigger] bp[i]).0 != k0 by {
            assert(bp[i] == be[i]);
        }
        lemma_first_key_index(bp, k0);
        if first_key_index(bp, k0) >= 0 {
            assert(false);
        }
        assert(be =~= bp.push((k0, v0)));
        lemma_lookup_push(bp, k0, v0, k);
        lemma_first_key_index(bp, k);
        if j < 0 {
            assert(merged_entries(ae, be) == rest.push((k0, v0)));
            lemma_lookup_push(rest, k0, v0, k);
            lemma_first_key_index(rest, k);
        } else {
            assert(rest[j].0 == k0);
            assert(merged_entries(ae, be) == rest.update(j, (rest[j].0, merged(rest[j].1, v0))));
            lemma_lookup_update(rest, j, merged(rest[j].1, v0), k);
        }
    }
}

/// Nested resolution order: when a node's first `allOf` entry holds
/// a non-empty branch array, normalizing the node folds the
/// *normalized* branches — every branch has its own nested `allOf`
/// fully resolved before it is merged into the parent — and merges
/// the fold result into the node built from its normalized siblings.
pub proof fn lemma_nested_resolution_order(es: Entries, j: int, bs: Seq<Doc>)
    requires
        0 <= j < es.len(),
        es[j].0 == "allOf"@,
        forall|t: int| 0 <= t < j ==> (#[trigger] es[t]).0 != "allOf"@,
        es[j].1 == Doc::Array(bs),
        bs.len() > 0,
    ensures
        normalized(Doc::Object(es)) == merged(
            Doc::Object(swap_remove_entries(norm_entries(es), j)),
            fold_merged(norm_elems(bs)),
        ),
{
    let esn = norm_entries(es);
    crate::merge::lemma_norm_entries(es);
    crate::merge::lemma_norm_elems(bs);
    assert forall|t: int| 0 <= t < j implies (#[trigger] esn[t]).0 != "allOf"@ by {
        assert(esn[t] == (es[t].0, normalized(es[t].1)));
    }
    assert(esn[j].0 == "allOf"@);
    crate::value::lemma_first_key_index_of(esn, "allOf"@, j);
    assert(esn[j].1 == normalized(Doc::Array(bs)));
    assert(norm_elems(bs).len() == bs.len());
}

/// Sibling precedence: when resolution merges the branch fold into
/// the node, any key whose folded branch value is a scalar shows
/// that branch value afterwards — a sibling entry declared alongside
/// `allOf` under the same key is overwritten. The fold result may
/// not repeat a key.
pub proof fn lemma_sibling_precedence(es: Entries, j: int, bs: Seq<Doc>, k: Seq<char>, y: Doc)
    requires
        0 <= j < es.len(),
        es[j].0 == "allOf"@,
        forall|t: int| 0 <= t < j ==> (#[trigger] es[t]).0 != "allOf"@,
        es[j].1 == Doc::Array(bs),
        bs.len() > 0,
        fold_merged(norm_elems(bs)) is Object,
        unique_keys(fold_merged(norm_elems(bs))->Object_0),
        lookup_key(fold_merged(norm_elems(bs))->Object_0, k) == Some(y),
        !(y is Object),
        !(y is Array),
    ensures
        normalized(Doc::Object(es)) is Object,
        lookup_key(normalized(Doc::Object(es))->Object_0, k) == Some(y),
{
    lemma_nested_resolution_order(es, j, bs);
    let base = swap_remove_entries(norm_entries(es), j);
    let accs = fold_merged(norm_elems(bs))->Object_0;
    lemma_merged_object_lookup(base, accs, k);
    match lookup_key(base, k) {
        Some(x) => {
            lemma_merged_replaces(x, y);
        },
        None => {},
    }
}

proof fn lemma_wildcard_all(es: Entries, j: int, seg: crate::tools::SegV)
    requires
        0 <= j <= es.len(),
        seg.1 == "*"@,
    ensures
        crate::tools::walk_all(es, j, seq![seg], 0, Seq::empty()) == Ok::<_, ()>(
            Seq::new((es.len() - j) as nat, |t: int| (es[j + t].1, seq![es[j + t].0])),
        ),
    decreases es.len() - j,
{
    let segs = seq![seg];
    let want = Seq::new((es.len() - j) as nat, |t: int| (es[j + t].1, seq![es[j + t].0]));
    if j == es.len() {
        assert(want =~= Seq::<(Doc, Seq<Seq<char>>)>::empty());
    } else {
        lemma_wildcard_all(es, j + 1, seg);
        let captured = Seq::<Seq<char>>::empty().push(es[j].0);
        assert(captured =~= seq![es[j].0]);
        assert(crate::tools::walk(es[j].1, segs, 1, captured) == Ok::<_, ()>(
            seq![(es[j].1, captured)],
        ));
        let rest = Seq::new((es.len() - j - 1) as nat, |t: int| (es[j + 1 + t].1, seq![
            es[j + 1 + t].0,
        ]));
        assert forall|t: int|
            0 <= t < want.len() implies want[t] == (seq![(es[j].1, captured)] + rest)[t] by {
            if t > 0 {
                assert(rest[t - 1] == (es[j + t].1, seq![es[j + t].0]));
            }
        }
        assert(want =~= seq![(es[j].1, captured)] + rest);
    }
}

/// Wildcard capture: walking an object with a single wildcard
/// segment matches every entry value once, in the object's own entry
/// order, and captures exactly that entry's key.
pub proof fn lemma_wildcard_capture(es: Entries, seg: crate::tools::SegV)
    requires
        seg.1 == "*"@,
    ensures
        crate::tools::walk(Doc::Object(es), seq![seg], 0, Seq::empty()) == Ok::<_, ()>(
            Seq::new(es.len(), |j: int| (es[j].1, seq![es[j].0])),
        ),
{
    lemma_wildcard_all(es, 0, seg);
    let a = Seq::new((es.len() - 0) as nat, |t: int| (es[0 + t].1, seq![es[0 + t].0]));
    let b = Seq::new(es.len(), |j: int| (es[j].1, seq![es[j].0]));
    assert(a =~= b);
}

} // verus!
