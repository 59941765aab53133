//! The scope tracker: an ordered stack of labeled path segments that
//! records the current traversal position for diagnostics.

use crate::text::{dec_digits, dec_string_u64, push_char};
use vstd::prelude::*;

verus! {

/// An ordered stack of `(kind, name)` segments. Segments pushed while
/// descending into a child are popped before control returns to the
/// parent, on every exit path.
pub struct SchemaScope {
    segments: Vec<(String, String)>,
}

impl View for SchemaScope {
    type V = Seq<(Seq<char>, Seq<char>)>;

    closed spec fn view(&self) -> Seq<(Seq<char>, Seq<char>)> {
        Seq::new(self.segments@.len(), |i: int| (self.segments@[i].0@, self.segments@[i].1@))
    }
}

/// The diagnostic rendering of a segment stack: a dot before each
/// segment name, in traversal order.
pub open spec fn render_segments(s: Seq<(Seq<char>, Seq<char>)>) -> Seq<char>
    decreases s.len(),
{
    if s.len() == 0 {
        Seq::empty()
    } else {
        render_segments(s.drop_last()) + seq!['.'] + s.last().1
    }
}

impl SchemaScope {
    /// An empty scope.
    pub fn new() -> (r: SchemaScope)
        ensures
            r@ == Seq::<(Seq<char>, Seq<char>)>::empty(),
    {
        let r = SchemaScope { segments: Vec::new() };
        proof {
            assert(r@ =~= Seq::<(Seq<char>, Seq<char>)>::empty());
        }
        r
    }

    /// The number of segments on the stack.
    pub fn len(&self) -> (r: usize)
        ensures
            r == self@.len(),
    {
        self.segments.len()
    }

    /// Appends a segment with the given kind and name.
    pub fn push_str(&mut self, kind: &str, name: &str)
        ensures
            final(self)@ == old(self)@.push((kind@, name@)),
    {
        self.segments.push((String::from_str(kind), String::from_str(name)));
        proof {
            assert(self@ =~= old(self)@.push((kind@, name@)));
        }
    }

    /// Appends a segment for an unlabeled object-key descent.
    pub fn any(&mut self, name: &String)
        ensures
            final(self)@ == old(self)@.push(("any"@, name@)),
    {
        self.push_str("any", name.as_str());
    }

    /// Appends a segment for an array-index descent.
    pub fn index(&mut self, idx: usize)
        ensures
            final(self)@ == old(self)@.push(("index"@, dec_digits(idx as nat))),
    {
        let name = dec_string_u64(idx as u64);
        self.segments.push((String::from_str("index"), name));
        proof {
            assert(self@ =~= old(self)@.push(("index"@, dec_digits(idx as nat))));
        }
    }

    /// Removes the most recently pushed segment; does nothing on an
    /// empty stack.
    pub fn pop(&mut self)
        ensures
            final(self)@ == if old(self)@.len() == 0 {
                old(self)@
            } else {
                old(self)@.drop_last()
            },
    {
        let popped = self.segments.pop();
        proof {
            if old(self)@.len() == 0 {
                assert(self@ =~= old(self)@);
            } else {
                assert(self@ =~= old(self)@.drop_last());
            }
        }
    }

    /// The diagnostic rendering of the current position.
    pub fn render(&self) -> (r: String)
        ensures
            r@ == render_segments(self@),
    {
        let mut out = String::new();
        let mut i: usize = 0;
        while i < self.segments.len()
            invariant
                i <= self.segments@.len(),
                out@ == render_segments(self@.take(i as int)),
                self@.len() == self.segments@.len(),
            decreases self.segments@.len() - i,
        {
            push_char(&mut out, '.');
            out.append(self.segments[i].1.as_str());
            proof {
                assert(self@.take(i + 1).drop_last() =~= self@.take(i as int));
                assert(self@.take(i + 1).last() == self@[i as int]);
                assert(self@[i as int].1 == self.segments@[i as int].1@);
                assert(out@ =~= render_segments(self@.take(i + 1)));
            }
            i += 1;
        }
        proof {
            assert(self@.take(self@.len() as int) =~= self@);
        }
        out
    }
}

impl Default for SchemaScope {
    /// An empty scope.
    fn default() -> (r: SchemaScope)
        ensures
            r@ == Seq::<(Seq<char>, Seq<char>)>::empty(),
    {
        SchemaScope::new()
    }
}

} // verus!
