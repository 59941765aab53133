//! Composition normalization: resolving every `allOf` combinator by
//! deep merging, innermost first, and the pairwise merge algorithm it
//! is built on.

use crate::scope::SchemaScope;
use crate::value::{
    first_key_index, lemma_ent_dv, lemma_first_key_index, lemma_seq_dv, Doc, Entries, Value,
};
use vstd::prelude::*;

verus! {

/// The pairwise deep merge of two nodes, the source `b` merged into
/// the target `a`:
/// - object into object: each source entry is merged into the target
///   entry with the same key, a missing key being appended at the end;
/// - array into array: the source elements are appended after the
///   target elements, in order, with no deduplication;
/// - any other combination: the source replaces the target.
pub open spec fn merged(a: Doc, b: Doc) -> Doc
    decreases b,
{
    match (a, b) {
        (Doc::Object(ae), Doc::Object(be)) => Doc::Object(merged_entries(ae, be)),
        (Doc::Array(aa), Doc::Array(ba)) => Doc::Array(aa + ba),
        (_, src) => src,
    }
}

/// The object-merge of entry lists: the entries of `be` are folded
/// into `ae` left to right; a key already present has its value
/// merged in place at its first occurrence, a new key is appended.
pub open spec fn merged_entries(ae: Entries, be: Entries) -> Entries
    decreases be,
{
    if be.len() == 0 {
        ae
    } else {
        let rest = merged_entries(ae, be.drop_last());
        let k = be.last().0;
        let v = be.last().1;
        let j = first_key_index(rest, k);
        if j < 0 {
            rest.push((k, v))
        } else {
            rest.update(j, (rest[j].0, merged(rest[j].1, v)))
        }
    }
}

/// The left-to-right fold of `merged` over a non-empty branch list:
/// branch one merged into branch zero, branch two into that result,
/// and so on in array order.
pub open spec fn fold_merged(bs: Seq<Doc>) -> Doc
    recommends
        bs.len() >= 1,
    decreases bs.len(),
{
    if bs.len() <= 1 {
        bs[0]
    } else {
        merged(fold_merged(bs.drop_last()), bs.last())
    }
}

/// Entry removal as the composition step performs it: the last entry
/// moves into the removed slot.
pub open spec fn swap_remove_entries(es: Entries, j: int) -> Entries {
    es.update(j, es.last()).drop_last()
}

/// Composition resolution on an object whose children are already
/// normalized. When the first `allOf` entry holds a non-empty array,
/// the branches are folded left to right, the `allOf` entry is
/// removed, and the fold result is merged into the remaining node, so
/// branch values overwrite sibling values on conflict. An absent
/// `allOf`, a non-array value, or an empty array leaves the node
/// unchanged.
pub open spec fn resolve_all_of(es: Entries) -> Doc {
    let j = first_key_index(es, "allOf"@);
    if j < 0 {
        Doc::Object(es)
    } else {
        match es[j].1 {
            Doc::Array(branches) => {
                if branches.len() == 0 {
                    Doc::Object(es)
                } else {
                    merged(Doc::Object(swap_remove_entries(es, j)), fold_merged(branches))
                }
            },
            _ => Doc::Object(es),
        }
    }
}

/// The normalization pass: children first in stored order, then
/// composition resolution on the node itself.
pub open spec fn normalized(d: Doc) -> Doc
    decreases d,
{
    match d {
        Doc::Object(es) => resolve_all_of(norm_entries(es)),
        Doc::Array(xs) => Doc::Array(norm_elems(xs)),
        _ => d,
    }
}

/// Entry-wise normalization of object entries, keys kept.
pub open spec fn norm_entries(es: Entries) -> Entries
    decreases es,
{
    if es.len() == 0 {
        Seq::empty()
    } else {
        norm_entries(es.drop_last()).push((es.last().0, normalized(es.last().1)))
    }
}

/// Element-wise normalization of array elements.
pub open spec fn norm_elems(xs: Seq<Doc>) -> Seq<Doc>
    decreases xs,
{
    if xs.len() == 0 {
        Seq::empty()
    } else {
        norm_elems(xs.drop_last()).push(normalized(xs.last()))
    }
}

/// Merges `b` into `a` by value, following `merged`.
fn merge_owned(a: Value, b: Value) -> (r: Value)
    ensures
        r@ == merged(a@, b@),
    decreases b, 0int,
{
    let ghost b0 = b;
    match (a, b) {
        (Value::Object(ae), Value::Object(be)) => {
            proof {
                assert(decreases_to!(b0 => b0->Object_0));
                assert(decreases_to!(b0->Object_0 => b0->Object_0@));
                assert(b0->Object_0@ == be@);
            }
            let es = ent_merge(ae, be);
            Value::Object(es)
        },
        (Value::Array(mut aa), Value::Array(mut ba)) => {
            let ghost aa0 = aa@;
            let ghost ba0 = ba@;
            aa.append(&mut ba);
            proof {
                lemma_seq_dv(aa0);
                lemma_seq_dv(ba0);
                lemma_seq_dv(aa@);
                assert forall|i: int|
                    0 <= i < aa@.len() implies Value::seq_dv(aa@)[i] == (Value::seq_dv(aa0)
                    + Value::seq_dv(ba0))[i] by {
                    assert(Value::seq_dv(aa@)[i] == aa@[i].dv());
                    if i < aa0.len() {
                        assert(aa@[i] == aa0[i]);
                        assert((Value::seq_dv(aa0) + Value::seq_dv(ba0))[i] == Value::seq_dv(aa0)[i]);
                        assert(Value::seq_dv(aa0)[i] == aa0[i].dv());
                    } else {
                        assert(aa@[i] == ba0[i - aa0.len()]);
                        assert((Value::seq_dv(aa0) + Value::seq_dv(ba0))[i] == Value::seq_dv(ba0)[i
                            - aa0.len()]);
                        assert(Value::seq_dv(ba0)[i - aa0.len()] == ba0[i - aa0.len()].dv());
                    }
                }
                assert(Value::seq_dv(aa@) =~= Value::seq_dv(aa0) + Value::seq_dv(ba0));
            }
            Value::Array(aa)
        },
        (_, src) => src,
    }
}

/// Folds the entries of `be` into `ae`, following `merged_entries`.
fn ent_merge(mut ae: Vec<(String, Value)>, mut be: Vec<(String, Value)>) -> (r: Vec<
    (String, Value),
>)
    ensures
        Value::ent_dv(r@) == merged_entries(Value::ent_dv(ae@), Value::ent_dv(be@)),
    decreases be@, 0int,
{
    let ghost ae0 = ae@;
    let ghost be0 = be@;
    proof {
        lemma_ent_dv(be0);
    }
    if be.len() == 0 {
        ae
    } else {
        let (k, v) = be.remove(be.len() - 1);
        proof {
            assert(be@ =~= be0.drop_last());
            assert(decreases_to!(be0 => be0[be0.len() - 1]));
            assert(decreases_to!(be0[be0.len() - 1] => be0[be0.len() - 1].1));
            assert(v == be0.last().1);
        }
        let mut rest = ent_merge(ae, be);
        let ghost rest0 = rest@;
        let ghost restdv = Value::ent_dv(rest0);
        proof {
            lemma_ent_dv(rest0);
            assert(Value::ent_dv(be0.drop_last()) =~= Value::ent_dv(be0).drop_last()) by {
                lemma_ent_dv(be0.drop_last());
                assert forall|i: int|
                    0 <= i < be0.len() - 1 implies Value::ent_dv(be0.drop_last())[i] == Value::ent_dv(
                    be0,
                ).drop_last()[i] by {
                    assert(be0.drop_last()[i] == be0[i]);
                }
            }
        }
        match crate::value::find_key(&rest, k.as_str()) {
            Some(j) => {
                let (k2, oldv) = rest.remove(j);
                let newv = merge_owned(oldv, v);
                rest.insert(j, (k2, newv));
                proof {
                    let jj = j as int;
                    let bedv = Value::ent_dv(be0);
                    let up = restdv.update(jj, (restdv[jj].0, merged(restdv[jj].1, v.dv())));
                    lemma_ent_dv(rest@);
                    assert(rest@ =~= rest0.remove(jj).insert(jj, (k2, newv)));
                    assert forall|i: int|
                        0 <= i < rest@.len() implies Value::ent_dv(rest@)[i] == up[i] by {
                        if i < jj {
                            assert(rest@[i] == rest0[i]);
                        } else if i == jj {
                            assert(rest@[i] == (k2, newv));
                            assert((k2, oldv) == rest0[jj]);
                        } else {
                            assert(rest@[i] == rest0[i]);
                        }
                    }
                    assert(Value::ent_dv(rest@) =~= up);
                    assert(merged_entries(Value::ent_dv(ae0), bedv) == up);
                }
                rest
            },
            None => {
                rest.push((k, v));
                proof {
                    let bedv = Value::ent_dv(be0);
                    lemma_ent_dv(rest@);
                    assert(rest@ =~= rest0.push((k, v)));
                    assert forall|i: int|
                        0 <= i < rest@.len() implies Value::ent_dv(rest@)[i] == restdv.push(
                        (k@, v.dv()),
                    )[i] by {
                        if i < rest0.len() {
                            assert(rest@[i] == rest0[i]);
                        } else {
                            assert(rest@[i] == (k, v));
                        }
                    }
                    assert(Value::ent_dv(rest@) =~= restdv.push((k@, v.dv())));
                    assert(merged_entries(Value::ent_dv(ae0), bedv) == restdv.push((k@, v.dv())));
                }
                rest
            },
        }
    }
}

/// `norm_entries` normalizes each entry value and keeps its key.
pub proof fn lemma_norm_entries(es: Entries)
    ensures
        norm_entries(es).len() == es.len(),
        forall|i: int|
            0 <= i < es.len() ==> norm_entries(es)[i] == ((#[trigger] es[i]).0, normalized(
                es[i].1,
            )),
    decreases es.len(),
{
    if es.len() > 0 {
        lemma_norm_entries(es.drop_last());
        assert forall|i: int|
            0 <= i < es.len() implies norm_entries(es)[i] == ((#[trigger] es[i]).0, normalized(
            es[i].1,
        )) by {
            if i < es.len() - 1 {
                assert(es.drop_last()[i] == es[i]);
                assert(norm_entries(es)[i] == norm_entries(es.drop_last())[i]);
            } else {
                assert(es[i] == es.last());
            }
        }
    }
}

/// `norm_elems` normalizes each element in place.
pub proof fn lemma_norm_elems(xs: Seq<Doc>)
    ensures
        norm_elems(xs).len() == xs.len(),
        forall|i: int| 0 <= i < xs.len() ==> norm_elems(xs)[i] == normalized(#[trigger] xs[i]),
    decreases xs.len(),
{
    if xs.len() > 0 {
        lemma_norm_elems(xs.drop_last());
        assert forall|i: int|
            0 <= i < xs.len() implies norm_elems(xs)[i] == normalized(#[trigger] xs[i]) by {
            if i < xs.len() - 1 {
                assert(xs.drop_last()[i] == xs[i]);
                assert(norm_elems(xs)[i] == norm_elems(xs.drop_last())[i]);
            } else {
                assert(xs[i] == xs.last());
            }
        }
    }
}

/// Merges the owned source `b` into the target `a` in place,
/// following `merged`. The options carry no weight here yet: the
/// merge is total and deterministic for every shape combination.
pub fn merge_values(a: &mut Value, b: Value, options: &MergerOptions)
    ensures
        final(a)@ == merged(old(a)@, b@),
{
    let mut tmp = Value::Null;
    core::mem::swap(a, &mut tmp);
    tmp = merge_owned(tmp, b);
    core::mem::swap(a, &mut tmp);
}

/// Normalizes one subtree, children before parent, and leaves the
/// scope as it found it.
#[verifier::loop_isolation(false)]
fn normalize_node(node: Value, scope: &mut SchemaScope) -> (r: Value)
    ensures
        r@ == normalized(node@),
        final(scope)@ == old(scope)@,
    decreases node, 0int,
{
    let ghost n0 = node;
    match node {
        Value::Object(mut es) => {
            let ghost es0 = es@;
            proof {
                lemma_ent_dv(es0);
            }
            let mut i: usize = 0;
            while i < es.len()
                invariant
                    n0 is Object && n0->Object_0@ == es0,
                    es@.len() == es0.len(),
                    i <= es0.len(),
                    forall|j: int| i <= j < es0.len() ==> #[trigger] es@[j] == es0[j],
                    forall|j: int|
                        0 <= j < i ==> (#[trigger] es@[j]).0 == es0[j].0 && es@[j].1.dv()
                            == normalized(es0[j].1.dv()),
                    scope@ == old(scope)@,
                decreases es0.len() - i,
            {
                let ghost pre = es@;
                let (k, v) = es.remove(i);
                proof {
                    assert(v == es0[i as int].1);
                    assert(decreases_to!(n0 => n0->Object_0));
                    assert(decreases_to!(n0->Object_0 => n0->Object_0@));
                    assert(decreases_to!(es0 => es0[i as int]));
                    assert(decreases_to!(es0[i as int] => es0[i as int].1));
                    assert(decreases_to!(n0 => es0[i as int].1));
                }
                scope.any(&k);
                let v2 = normalize_node(v, scope);
                scope.pop();
                es.insert(i, (k, v2));
                proof {
                    assert(scope@ =~= old(scope)@);
                    assert forall|j: int| i + 1 <= j < es0.len() implies #[trigger] es@[j]
                        == es0[j] by {
                        assert(es@[j] == pre.remove(i as int).insert(i as int, (k, v2))[j]);
                    }
                }
                i += 1;
            }
            let ghost esn = es@;
            let ghost edvn = Value::ent_dv(esn);
            proof {
                lemma_ent_dv(esn);
                lemma_norm_entries(Value::ent_dv(es0));
                assert forall|j: int|
                    0 <= j < es0.len() implies edvn[j] == norm_entries(Value::ent_dv(es0))[j] by {
                    assert(edvn[j] == ((esn[j]).0@, esn[j].1.dv()));
                    assert(Value::ent_dv(es0)[j] == ((es0[j]).0@, es0[j].1.dv()));
                }
                assert(edvn =~= norm_entries(Value::ent_dv(es0)));
            }
            // composition resolution on this node
            match crate::value::find_key(&es, "allOf") {
                None => {
                    Value::Object(es)
                },
                Some(j) => {
                    let resolvable: bool = match &es[j].1 {
                        Value::Array(bs) => bs.len() > 0,
                        _ => false,
                    };
                    proof {
                        lemma_first_key_index(edvn, "allOf"@);
                        if edvn[j as int].1 is Array {
                            lemma_seq_dv(es@[j as int].1->Array_0@);
                        }
                    }
                    if resolvable {
                        let (rk, rv) = es.swap_remove(j);
                        let mut bs = match rv {
                            Value::Array(b) => b,
                            _ => {
                                proof {
                                    assert(false);
                                }
                                Vec::new()
                            },
                        };
                        let ghost bs0 = bs@;
                        let ghost bdv = Value::seq_dv(bs0);
                        proof {
                            lemma_seq_dv(bs0);
                            assert(edvn[j as int].1 == Doc::Array(bdv));
                            assert forall|t: int|
                                0 <= t < es@.len() implies Value::ent_dv(es@)[t]
                                == swap_remove_entries(edvn, j as int)[t] by {
                                lemma_ent_dv(es@);
                                assert(es@[t] == esn.update(j as int, esn.last()).drop_last()[t]);
                                assert(edvn[t] == ((esn[t]).0@, esn[t].1.dv()));
                                if t == j {
                                    assert(es@[t] == esn.last());
                                    assert(edvn.last() == ((esn.last()).0@, esn.last().1.dv()));
                                }
                            }
                            lemma_ent_dv(es@);
                            assert(Value::ent_dv(es@) =~= swap_remove_entries(edvn, j as int));
                        }
                        let mut acc = bs.remove(0);
                        proof {
                            assert(acc == bs0[0]);
                            assert(acc.dv() == bdv[0]);
                            assert(fold_merged(bdv.take(1)) == bdv.take(1)[0]);
                        }
                        let mut p: usize = 1;
                        while bs.len() > 0
                            invariant
                                bdv == Value::seq_dv(bs0),
                                bdv.len() == bs0.len(),
                                forall|t: int| 0 <= t < bs0.len() ==> bdv[t] == #[trigger] bs0[t].dv(),
                                1 <= p <= bs0.len(),
                                bs@.len() == bs0.len() - p,
                                forall|t: int|
                                    0 <= t < bs@.len() ==> #[trigger] bs@[t] == bs0[t + p],
                                acc@ == fold_merged(bdv.take(p as int)),
                            decreases bs@.len(),
                        {
                            let ghost bpre = bs@;
                            let nxt = bs.remove(0);
                            proof {
                                assert(nxt == bs0[p as int]);
                                assert forall|t: int| 0 <= t < bs@.len() implies #[trigger] bs@[t]
                                    == bs0[t + p + 1] by {
                                    assert(bs@[t] == bpre.remove(0)[t]);
                                }
                            }
                            let prev = acc;
                            acc = merge_owned(prev, nxt);
                            proof {
                                assert(bdv.take(p + 1).drop_last() =~= bdv.take(p as int));
                                assert(bdv.take(p + 1).last() == bdv[p as int]);
                                assert(acc@ == merged(fold_merged(bdv.take(p as int)), bdv[p as int]));
                            }
                            p += 1;
                        }
                        proof {
                            assert(bdv.take(bs0.len() as int) =~= bdv);
                            assert(acc@ == fold_merged(bdv));
                        }
                        let mut out = Value::Object(es);
                        let opts = MergerOptions { leave_invalid_properties: false };
                        merge_values(&mut out, acc, &opts);
                        proof {
                            assert(out@ == merged(
                                Doc::Object(swap_remove_entries(edvn, j as int)),
                                fold_merged(bdv),
                            ));
                        }
                        out
                    } else {
                        Value::Object(es)
                    }
                },
            }
        },
        Value::Array(mut xs) => {
            let ghost xs0 = xs@;
            proof {
                lemma_seq_dv(xs0);
            }
            let mut i: usize = 0;
            while i < xs.len()
                invariant
                    n0 is Array && n0->Array_0@ == xs0,
                    xs@.len() == xs0.len(),
                    i <= xs0.len(),
                    forall|j: int| i <= j < xs0.len() ==> #[trigger] xs@[j] == xs0[j],
                    forall|j: int|
                        0 <= j < i ==> (#[trigger] xs@[j]).dv() == normalized(xs0[j].dv()),
                    scope@ == old(scope)@,
                decreases xs0.len() - i,
            {
                let ghost pre = xs@;
                let v = xs.remove(i);
                proof {
                    assert(v == xs0[i as int]);
                    assert(decreases_to!(n0 => n0->Array_0));
                    assert(decreases_to!(n0->Array_0 => n0->Array_0@));
                    assert(decreases_to!(xs0 => xs0[i as int]));
                    assert(decreases_to!(n0 => xs0[i as int]));
                }
                scope.index(i);
                let v2 = normalize_node(v, scope);
                scope.pop();
                xs.insert(i, v2);
                proof {
                    assert(scope@ =~= old(scope)@);
                    assert forall|j: int| i + 1 <= j < xs0.len() implies #[trigger] xs@[j]
                        == xs0[j] by {
                        assert(xs@[j] == pre.remove(i as int).insert(i as int, v2)[j]);
                    }
                }
                i += 1;
            }
            proof {
                lemma_seq_dv(xs@);
                lemma_norm_elems(Value::seq_dv(xs0));
                assert forall|j: int|
                    0 <= j < xs0.len() implies Value::seq_dv(xs@)[j] == norm_elems(
                    Value::seq_dv(xs0),
                )[j] by {
                    assert(Value::seq_dv(xs@)[j] == xs@[j].dv());
                    assert(Value::seq_dv(xs0)[j] == xs0[j].dv());
                }
                assert(Value::seq_dv(xs@) =~= norm_elems(Value::seq_dv(xs0)));
            }
            Value::Array(xs)
        },
        other => other,
    }
}

/// The normalizer and its one configuration switch.
pub struct Merger;

/// Options for a normalization pass. `leave_invalid_properties` is
/// accepted and carried, but the current pass always preserves
/// structurally invalid leftovers, so it does not yet change
/// behavior.
pub struct MergerOptions {
    pub leave_invalid_properties: bool,
}

impl Merger {
    /// The default options: strictness switched off.
    pub fn options() -> (r: MergerOptions)
        ensures
            r.leave_invalid_properties == false,
    {
        MergerOptions { leave_invalid_properties: false }
    }
}

impl MergerOptions {
    /// Sets the strictness switch and hands the options back for
    /// chaining.
    pub fn with_leave_invalid_properties(&mut self, value: bool) -> (r: &mut Self)
        ensures
            *r == (MergerOptions { leave_invalid_properties: value }),
            *final(self) == *final(r),
    {
        self.leave_invalid_properties = value;
        self
    }

    /// Runs the normalization pass over the whole document: after it,
    /// every node whose `allOf` held a non-empty array is flattened.
    pub fn process(&self, schema: &mut Schema)
        ensures
            final(schema).body()@ == normalized(old(schema).body()@),
    {
        let mut scope = SchemaScope::default();
        let mut body = Value::Null;
        core::mem::swap(&mut schema.body, &mut body);
        let normalized_body = normalize_node(body, &mut scope);
        schema.body = normalized_body;
    }
}

/// The document holder: owns the tree the normalizer works on.
pub struct Schema {
    body: Value,
}

impl Schema {
    /// The document tree.
    pub closed spec fn body(&self) -> Value {
        self.body
    }

    /// Wraps a pre-parsed document tree.
    pub fn from_json(value: Value) -> (r: Schema)
        ensures
            r.body() == value,
    {
        Schema { body: value }
    }

    /// Shared read access to the document tree.
    pub fn get_body(&self) -> (r: &Value)
        ensures
            *r == self.body(),
    {
        &self.body
    }

    /// Exclusive mutable access to the document tree.
    pub fn get_body_mut(&mut self) -> (r: &mut Value)
        ensures
            *r == old(self).body(),
            final(self).body() == *final(r),
    {
        &mut self.body
    }
}

} // verus!
