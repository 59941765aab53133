//! The document tree: a recursive JSON-like value, and its
//! mathematical model used by every contract in this crate.

use crate::text::{dec_chars, digit_char, push_char, push_dec_i64, str_eq};
use vstd::prelude::*;
use vstd::string::StrSliceExecFns;

verus! {

/// One node of a document tree. Objects keep their entries in
/// insertion order and never hold the same key twice.
pub enum Value {
    Null,
    Bool(bool),
    Number(i64),
    Text(String),
    Array(Vec<Value>),
    Object(Vec<(String, Value)>),
}

/// The mathematical model of a document tree node.
pub enum Doc {
    Null,
    Bool(bool),
    Number(int),
    Text(Seq<char>),
    Array(Seq<Doc>),
    Object(Seq<(Seq<char>, Doc)>),
}

impl Value {
    /// The model of this node.
    pub open spec fn dv(self) -> Doc
        decreases self,
    {
        match self {
            Value::Null => Doc::Null,
            Value::Bool(b) => Doc::Bool(b),
            Value::Number(n) => Doc::Number(n as int),
            Value::Text(s) => Doc::Text(s@),
            Value::Array(vs) => Doc::Array(Value::seq_dv(vs@)),
            Value::Object(es) => Doc::Object(Value::ent_dv(es@)),
        }
    }

    /// The models of a sequence of nodes, in order.
    pub open spec fn seq_dv(s: Seq<Value>) -> Seq<Doc>
        decreases s,
    {
        if s.len() == 0 {
            Seq::empty()
        } else {
            Value::seq_dv(s.drop_last()).push(s.last().dv())
        }
    }

    /// The models of a sequence of object entries, in order.
    pub open spec fn ent_dv(s: Seq<(String, Value)>) -> Seq<(Seq<char>, Doc)>
        decreases s,
    {
        if s.len() == 0 {
            Seq::empty()
        } else {
            Value::ent_dv(s.drop_last()).push((s.last().0@, s.last().1.dv()))
        }
    }
}

/// `seq_dv` maps the model over the elements one by one.
pub proof fn lemma_seq_dv(s: Seq<Value>)
    ensures
        Value::seq_dv(s).len() == s.len(),
        forall|i: int| 0 <= i < s.len() ==> Value::seq_dv(s)[i] == #[trigger] s[i].dv(),
    decreases s.len(),
{
    if s.len() > 0 {
        lemma_seq_dv(s.drop_last());
        assert forall|i: int| 0 <= i < s.len() implies Value::seq_dv(s)[i] == #[trigger] s[i].dv()
        by {
            if i < s.len() - 1 {
                assert(s.drop_last()[i] == s[i]);
                assert(Value::seq_dv(s)[i] == Value::seq_dv(s.drop_last())[i]);
            } else {
                assert(s[i] == s.last());
            }
        }
    }
}

/// `ent_dv` maps the model over the entries one by one.
pub proof fn lemma_ent_dv(s: Seq<(String, Value)>)
    ensures
        Value::ent_dv(s).len() == s.len(),
        forall|i: int|
            0 <= i < s.len() ==> Value::ent_dv(s)[i] == ((#[trigger] s[i]).0@, s[i].1.dv()),
    decreases s.len(),
{
    if s.len() > 0 {
        lemma_ent_dv(s.drop_last());
        assert forall|i: int|
            0 <= i < s.len() implies Value::ent_dv(s)[i] == ((#[trigger] s[i]).0@, s[i].1.dv())
        by {
            if i < s.len() - 1 {
                assert(s.drop_last()[i] == s[i]);
                assert(Value::ent_dv(s)[i] == Value::ent_dv(s.drop_last())[i]);
            } else {
                assert(s[i] == s.last());
            }
        }
    }
}

/// Object entries as the model sees them.
pub type Entries = Seq<(Seq<char>, Doc)>;

/// The position of the first entry whose key is `k`, or `-1` when no
/// entry has that key.
pub open spec fn first_key_index(es: Entries, k: Seq<char>) -> int
    decreases es.len(),
{
    if es.len() == 0 {
        -1
    } else if es[0].0 == k {
        0
    } else {
        let r = first_key_index(es.drop_first(), k);
        if r < 0 {
            -1
        } else {
            r + 1
        }
    }
}

/// What `first_key_index` finds: the first entry with the key, or
/// proof that no entry has it.
pub proof fn lemma_first_key_index(es: Entries, k: Seq<char>)
    ensures
        -1 <= first_key_index(es, k) < es.len(),
        first_key_index(es, k) >= 0 ==> es[first_key_index(es, k)].0 == k,
        forall|j: int|
            0 <= j < es.len() && j < first_key_index(es, k) ==> (#[trigger] es[j]).0 != k,
        first_key_index(es, k) == -1 ==> forall|j: int|
            0 <= j < es.len() ==> (#[trigger] es[j]).0 != k,
    decreases es.len(),
{
    if es.len() > 0 && es[0].0 != k {
        lemma_first_key_index(es.drop_first(), k);
        assert forall|j: int|
            0 <= j < es.len() && j < first_key_index(es, k) implies (#[trigger] es[j]).0 != k by {
            if j > 0 {
                assert(es.drop_first()[j - 1] == es[j]);
            }
        }
        if first_key_index(es, k) == -1 {
            assert forall|j: int| 0 <= j < es.len() implies (#[trigger] es[j]).0 != k by {
                if j > 0 {
                    assert(es.drop_first()[j - 1] == es[j]);
                }
            }
        }
    }
}

/// A pointwise characterization pins `first_key_index` down.
pub proof fn lemma_first_key_index_of(es: Entries, k: Seq<char>, i: int)
    requires
        0 <= i < es.len(),
        es[i].0 == k,
        forall|j: int| 0 <= j < i ==> (#[trigger] es[j]).0 != k,
    ensures
        first_key_index(es, k) == i,
    decreases es.len(),
{
    if i > 0 {
        assert(forall|j: int| 0 <= j < es.len() - 1 ==> es.drop_first()[j] == es[j + 1]);
        lemma_first_key_index_of(es.drop_first(), k, i - 1);
    }
}

/// The value of the first entry whose key is `k`, if any entry has it.
pub open spec fn lookup_key(es: Entries, k: Seq<char>) -> Option<Doc> {
    let r = first_key_index(es, k);
    if r < 0 {
        None
    } else {
        Some(es[r].1)
    }
}

/// Finds the first entry of `es` whose key equals `k`.
pub fn find_key(es: &Vec<(String, Value)>, k: &str) -> (r: Option<usize>)
    ensures
        match r {
            Some(i) => i < es@.len() && first_key_index(Value::ent_dv(es@), k@) == i,
            None => first_key_index(Value::ent_dv(es@), k@) == -1,
        },
{
    proof {
        lemma_ent_dv(es@);
    }
    let ghost edv = Value::ent_dv(es@);
    let mut j: usize = 0;
    while j < es.len()
        invariant
            j <= es@.len(),
            edv == Value::ent_dv(es@),
            edv.len() == es@.len(),
            forall|i: int| 0 <= i < es@.len() ==> edv[i] == ((#[trigger] es@[i]).0@, es@[i].1.dv()),
            forall|i: int| 0 <= i < j ==> (#[trigger] edv[i]).0 != k@,
        decreases es@.len() - j,
    {
        if str_eq(es[j].0.as_str(), k) {
            proof {
                lemma_first_key_index_of(edv, k@, j as int);
            }
            return Some(j);
        }
        j += 1;
    }
    proof {
        lemma_first_key_index(edv, k@);
    }
    None
}

impl View for Value {
    type V = Doc;

    open spec fn view(&self) -> Doc {
        self.dv()
    }
}

impl Value {
    /// A structurally equal copy of this node.
    pub fn deep_copy(&self) -> (r: Value)
        ensures
            r@ == self@,
        decreases self,
    {
        match self {
            Value::Null => Value::Null,
            Value::Bool(b) => Value::Bool(*b),
            Value::Number(n) => Value::Number(*n),
            Value::Text(s) => Value::Text(s.clone()),
            Value::Array(vs) => {
                let mut out: Vec<Value> = Vec::new();
                let mut i: usize = 0;
                while i < vs.len()
                    invariant
                        *self == Value::Array(*vs),
                        i <= vs@.len(),
                        out@.len() == i,
                        forall|j: int| 0 <= j < i ==> (#[trigger] out@[j]).dv() == vs@[j].dv(),
                    decreases vs@.len() - i,
                {
                    proof {
                        assert(decreases_to!(*self => (*self)->Array_0));
                        assert(decreases_to!(*vs => vs@));
                        assert(decreases_to!(vs@ => vs@[i as int]));
                        assert(decreases_to!(*self => vs@[i as int]));
                    }
                    let c = vs[i].deep_copy();
                    out.push(c);
                    i += 1;
                }
                proof {
                    lemma_seq_dv(out@);
                    lemma_seq_dv(vs@);
                    assert forall|j: int|
                        0 <= j < vs@.len() implies Value::seq_dv(out@)[j] == Value::seq_dv(vs@)[j]
                    by {
                        assert(out@[j].dv() == vs@[j].dv());
                    }
                    assert(Value::seq_dv(out@) =~= Value::seq_dv(vs@));
                }
                Value::Array(out)
            },
            Value::Object(es) => {
                let mut out: Vec<(String, Value)> = Vec::new();
                let mut i: usize = 0;
                while i < es.len()
                    invariant
                        *self == Value::Object(*es),
                        i <= es@.len(),
                        out@.len() == i,
                        forall|j: int|
                            0 <= j < i ==> (#[trigger] out@[j]).0@ == es@[j].0@ && out@[j].1.dv()
                                == es@[j].1.dv(),
                    decreases es@.len() - i,
                {
                    proof {
                        assert(decreases_to!(*self => (*self)->Object_0));
                        assert(decreases_to!(*es => es@));
                        assert(decreases_to!(es@ => es@[i as int]));
                        assert(decreases_to!(es@[i as int] => es@[i as int].1));
                        assert(decreases_to!(*self => es@[i as int].1));
                    }
                    let k = es[i].0.clone();
                    let c = es[i].1.deep_copy();
                    out.push((k, c));
                    i += 1;
                }
                proof {
                    lemma_ent_dv(out@);
                    lemma_ent_dv(es@);
                    assert forall|j: int|
                        0 <= j < es@.len() implies Value::ent_dv(out@)[j] == Value::ent_dv(es@)[j]
                    by {
                        assert(out@[j].0@ == es@[j].0@ && out@[j].1.dv() == es@[j].1.dv());
                    }
                    assert(Value::ent_dv(out@) =~= Value::ent_dv(es@));
                }
                Value::Object(out)
            },
        }
    }
}

/// The escaped rendering of one character inside a JSON string
/// literal.
pub open spec fn esc_char(c: char) -> Seq<char> {
    if c == '"' {
        seq!['\\', '"']
    } else if c == '\\' {
        seq!['\\', '\\']
    } else if c == '\n' {
        seq!['\\', 'n']
    } else if c == '\r' {
        seq!['\\', 'r']
    } else if c == '\t' {
        seq!['\\', 't']
    } else if c == '\u{8}' {
        seq!['\\', 'b']
    } else if c == '\u{C}' {
        seq!['\\', 'f']
    } else if (c as u32) < 0x20 {
        seq!['\\', 'u', '0', '0', hex_char((c as u32 / 16) as nat), hex_char((c as u32 % 16) as nat)]
    } else {
        seq![c]
    }
}

/// The lowercase hexadecimal digit for a value below sixteen.
pub open spec fn hex_char(d: nat) -> char {
    if d < 10 {
        digit_char(d)
    } else if d == 10 {
        'a'
    } else if d == 11 {
        'b'
    } else if d == 12 {
        'c'
    } else if d == 13 {
        'd'
    } else if d == 14 {
        'e'
    } else {
        'f'
    }
}

/// The escaped rendering of a whole string body.
pub open spec fn esc_all(s: Seq<char>) -> Seq<char>
    decreases s.len(),
{
    if s.len() == 0 {
        Seq::empty()
    } else {
        esc_all(s.drop_last()) + esc_char(s.last())
    }
}

/// The compact JSON rendering of a node: no spaces, object entries
/// and array elements in their stored order.
pub open spec fn json_chars(d: Doc) -> Seq<char>
    decreases d,
{
    match d {
        Doc::Null => "null"@,
        Doc::Bool(b) => if b {
            "true"@
        } else {
            "false"@
        },
        Doc::Number(n) => dec_chars(n),
        Doc::Text(s) => seq!['"'] + esc_all(s) + seq!['"'],
        Doc::Array(xs) => seq!['['] + json_list(xs) + seq![']'],
        Doc::Object(es) => seq!['{'] + json_entries(es) + seq!['}'],
    }
}

/// The comma-separated renderings of array elements.
pub open spec fn json_list(xs: Seq<Doc>) -> Seq<char>
    decreases xs,
{
    if xs.len() == 0 {
        Seq::empty()
    } else if xs.len() == 1 {
        json_chars(xs[0])
    } else {
        json_list(xs.drop_last()) + seq![','] + json_chars(xs.last())
    }
}

/// The comma-separated renderings of object entries.
pub open spec fn json_entries(es: Entries) -> Seq<char>
    decreases es,
{
    if es.len() == 0 {
        Seq::empty()
    } else if es.len() == 1 {
        json_entry(es[0])
    } else {
        json_entries(es.drop_last()) + seq![','] + json_entry(es.last())
    }
}

/// The rendering of one object entry: quoted key, colon, value.
pub open spec fn json_entry(e: (Seq<char>, Doc)) -> Seq<char>
    decreases e,
{
    seq!['"'] + esc_all(e.0) + seq!['"', ':'] + json_chars(e.1)
}

fn hex_of(d: u32) -> (c: char)
    requires
        d < 16,
    ensures
        c == hex_char(d as nat),
{
    if d == 10 {
        'a'
    } else if d == 11 {
        'b'
    } else if d == 12 {
        'c'
    } else if d == 13 {
        'd'
    } else if d == 14 {
        'e'
    } else if d == 15 {
        'f'
    } else {
        crate::text::digit_of(d as u64)
    }
}

fn push_esc_char(out: &mut String, c: char)
    ensures
        final(out)@ == old(out)@ + esc_char(c),
{
    if c == '"' {
        push_char(out, '\\');
        push_char(out, '"');
    } else if c == '\\' {
        push_char(out, '\\');
        push_char(out, '\\');
    } else if c == '\n' {
        push_char(out, '\\');
        push_char(out, 'n');
    } else if c == '\r' {
        push_char(out, '\\');
        push_char(out, 'r');
    } else if c == '\t' {
        push_char(out, '\\');
        push_char(out, 't');
    } else if c == '\u{8}' {
        push_char(out, '\\');
        push_char(out, 'b');
    } else if c == '\u{C}' {
        push_char(out, '\\');
        push_char(out, 'f');
    } else if (c as u32) < 0x20 {
        let u = c as u32;
        push_char(out, '\\');
        push_char(out, 'u');
        push_char(out, '0');
        push_char(out, '0');
        push_char(out, hex_of(u / 16));
        push_char(out, hex_of(u % 16));
    } else {
        push_char(out, c);
    }
    proof {
        assert(out@ =~= old(out)@ + esc_char(c));
    }
}

fn push_escaped(out: &mut String, s: &str)
    ensures
        final(out)@ == old(out)@ + esc_all(s@),
{
    let n = s.unicode_len();
    let mut i: usize = 0;
    while i < n
        invariant
            n == s@.len(),
            i <= n,
            out@ == old(out)@ + esc_all(s@.take(i as int)),
        decreases n - i,
    {
        let c = s.get_char(i);
        push_esc_char(out, c);
        proof {
            assert(s@.take(i + 1).drop_last() =~= s@.take(i as int));
            assert(s@.take(i + 1).last() == c);
            assert(out@ =~= old(out)@ + esc_all(s@.take(i + 1)));
        }
        i += 1;
    }
    proof {
        assert(s@.take(n as int) =~= s@);
    }
}

impl Value {
    /// Writes the compact JSON rendering of this node onto `out`.
    fn write_json(&self, out: &mut String)
        ensures
            final(out)@ == old(out)@ + json_chars(self@),
        decreases self,
    {
        match self {
            Value::Null => {
                out.append("null");
            },
            Value::Bool(b) => {
                if *b {
                    out.append("true");
                } else {
                    out.append("false");
                }
            },
            Value::Number(n) => {
                push_dec_i64(out, *n);
            },
            Value::Text(s) => {
                push_char(out, '"');
                push_escaped(out, s.as_str());
                push_char(out, '"');
                proof {
                    assert(out@ =~= old(out)@ + json_chars(self@));
                }
            },
            Value::Array(vs) => {
                proof {
                    lemma_seq_dv(vs@);
                }
                let ghost sdv = Value::seq_dv(vs@);
                push_char(out, '[');
                let mut i: usize = 0;
                while i < vs.len()
                    invariant
                        *self == Value::Array(*vs),
                        sdv == Value::seq_dv(vs@),
                        sdv.len() == vs@.len(),
                        forall|j: int| 0 <= j < vs@.len() ==> sdv[j] == #[trigger] vs@[j].dv(),
                        i <= vs@.len(),
                        out@ == old(out)@ + seq!['['] + json_list(sdv.take(i as int)),
                    decreases vs@.len() - i,
                {
                    if i > 0 {
                        push_char(out, ',');
                    }
                    proof {
                        assert(decreases_to!(*self => (*self)->Array_0));
                        assert(decreases_to!(*vs => vs@));
                        assert(decreases_to!(vs@ => vs@[i as int]));
                        assert(decreases_to!(*self => vs@[i as int]));
                    }
                    vs[i].write_json(out);
                    proof {
                        if i == 0 {
                            assert(sdv.take(1)[0] == sdv[0]);
                            assert(json_list(sdv.take(1)) == json_chars(sdv[0]));
                        } else {
                            assert(sdv.take(i + 1).drop_last() =~= sdv.take(i as int));
                            assert(sdv.take(i + 1).last() == sdv[i as int]);
                        }
                        assert(out@ =~= old(out)@ + seq!['['] + json_list(sdv.take(i + 1)));
                    }
                    i += 1;
                }
                push_char(out, ']');
                proof {
                    assert(sdv.take(vs@.len() as int) =~= sdv);
                    assert(out@ =~= old(out)@ + json_chars(self@));
                }
            },
            Value::Object(es) => {
                proof {
                    lemma_ent_dv(es@);
                }
                let ghost edv = Value::ent_dv(es@);
                push_char(out, '{');
                let mut i: usize = 0;
                while i < es.len()
                    invariant
                        *self == Value::Object(*es),
                        edv == Value::ent_dv(es@),
                        edv.len() == es@.len(),
                        forall|j: int|
                            0 <= j < es@.len() ==> edv[j] == ((#[trigger] es@[j]).0@,
                            es@[j].1.dv()),
                        i <= es@.len(),
                        out@ == old(out)@ + seq!['{'] + json_entries(edv.take(i as int)),
                    decreases es@.len() - i,
                {
                    if i > 0 {
                        push_char(out, ',');
                    }
                    push_char(out, '"');
                    push_escaped(out, es[i].0.as_str());
                    push_char(out, '"');
                    push_char(out, ':');
                    proof {
                        assert(decreases_to!(*self => (*self)->Object_0));
                        assert(decreases_to!(*es => es@));
                        assert(decreases_to!(es@ => es@[i as int]));
                        assert(decreases_to!(es@[i as int] => es@[i as int].1));
                        assert(decreases_to!(*self => es@[i as int].1));
                    }
                    es[i].1.write_json(out);
                    proof {
                        assert(edv[i as int] == (es@[i as int].0@, es@[i as int].1.dv()));
                        if i == 0 {
                            assert(edv.take(1)[0] == edv[0]);
                            assert(json_entries(edv.take(1)) == json_entry(edv[0]));
                        } else {
                            assert(edv.take(i + 1).drop_last() =~= edv.take(i as int));
                            assert(edv.take(i + 1).last() == edv[i as int]);
                            assert(json_entries(edv.take(i + 1)) == json_entries(edv.take(i as int))
                                + seq![','] + json_entry(edv[i as int]));
                        }
                        assert(json_entry(edv[i as int]) == seq!['"'] + esc_all(edv[i as int].0)
                            + seq!['"', ':'] + json_chars(edv[i as int].1));
                        assert(out@ =~= old(out)@ + seq!['{'] + json_entries(edv.take(i + 1)));
                    }
                    i += 1;
                }
                push_char(out, '}');
                proof {
                    assert(edv.take(es@.len() as int) =~= edv);
                    assert(out@ =~= old(out)@ + json_chars(self@));
                }
            },
        }
    }

    /// The compact JSON rendering of this node as a fresh string.
    pub fn to_string(&self) -> (r: String)
        ensures
            r@ == json_chars(self@),
    {
        let mut out = String::new();
        self.write_json(&mut out);
        proof {
            assert(out@ =~= json_chars(self@));
        }
        out
    }
}

} // verus!
