//! Heap objects that values can refer to, and the table that interns strings.

use std::rc::Rc;
use vstd::prelude::*;
use vstd::utf8::{decode_utf8, valid_utf8};

verus! {

/// A heap object; so far only strings.
#[derive(Debug, Clone)]
pub enum Object {
    String(String),
}

/// The text of an object.
pub open spec fn object_text(o: Object) -> Seq<char> {
    match o {
        Object::String(s) => s@,
    }
}

impl Object {
    /// The text of a string object, as a fresh `String`.
    pub fn string(&self) -> (s: String)
        ensures
            s@ == object_text(*self),
    {
        match self {
            Self::String(s) => s.clone(),
        }
    }
}

/// The text that `String::from_utf8_lossy` makes of some bytes.
pub uninterp spec fn utf8_lossy(bytes: Seq<u8>) -> Seq<char>;

/// `String::from_utf8_lossy(bytes).into_owned()`: decodes the bytes, with
/// U+FFFD in place of each invalid sequence. Stated: the result is the named
/// decoding of the bytes, and for valid UTF-8 it is the plain decoding.
#[verifier::external_body]
fn string_from_utf8_lossy(bytes: &[u8]) -> (s: String)
    ensures
        s@ == utf8_lossy(bytes@),
        valid_utf8(bytes@) ==> s@ == decode_utf8(bytes@),
{
    String::from_utf8_lossy(bytes).into_owned()
}

/// `Rc::clone`: another pointer to the same object.
#[verifier::external_body]
fn share(rc: &Rc<Object>) -> (r: Rc<Object>)
    ensures
        r == *rc,
{
    Rc::clone(rc)
}

/// The interned strings: at most one object per text, kept in the order in
/// which the texts were first interned and found by comparing texts.
pub struct StringTable {
    entries: Vec<(String, Rc<Object>)>,
}

impl View for StringTable {
    type V = Seq<Seq<char>>;

    closed spec fn view(&self) -> Seq<Seq<char>> {
        self.entries@.map_values(|e: (String, Rc<Object>)| e.0@)
    }
}

impl StringTable {
    /// Each entry's object holds the entry's text, and no text is interned
    /// twice.
    pub closed spec fn wf(&self) -> bool {
        &&& forall|i: int|
            0 <= i < self.entries@.len() ==> object_text(*self.entries@[i].1)
                == self.entries@[i].0@
        &&& forall|i: int, j: int|
            0 <= i < j < self.entries@.len() ==> self.entries@[i].0@ != self.entries@[j].0@
    }

    /// An empty table.
    pub fn new() -> (t: StringTable)
        ensures
            t.wf(),
            t@ == Seq::<Seq<char>>::empty(),
    {
        let t = StringTable { entries: Vec::new() };
        assert(t@ =~= Seq::<Seq<char>>::empty());
        t
    }

    /// The number of interned strings.
    pub fn len(&self) -> (n: usize)
        ensures
            n == self@.len(),
    {
        self.entries.len()
    }

    /// The object for the text that `bytes` decode to: the interned one if
    /// the text is interned, else a new one, which is added to the table.
    pub fn intern(&mut self, bytes: &[u8]) -> (obj: Rc<Object>)
        requires
            old(self).wf(),
        ensures
            final(self).wf(),
            object_text(*obj) == utf8_lossy(bytes@),
            old(self)@.contains(utf8_lossy(bytes@)) ==> final(self)@ == old(self)@,
            !old(self)@.contains(utf8_lossy(bytes@)) ==> final(self)@ == old(self)@.push(
                utf8_lossy(bytes@),
            ),
    {
        let name = string_from_utf8_lossy(bytes);
        let mut i: usize = 0;
        while i < self.entries.len()
            invariant
                self.wf(),
                self@ == old(self)@,
                name@ == utf8_lossy(bytes@),
                0 <= i <= self.entries@.len(),
                forall|j: int| 0 <= j < i ==> self.entries@[j].0@ != name@,
            decreases self.entries@.len() - i,
        {
            if self.entries[i].0 == name {
                proof {
                    assert(self@[i as int] == name@);
                }
                return share(&self.entries[i].1);
            }
            i += 1;
        }
        proof {
            assert forall|j: int| 0 <= j < self@.len() implies self@[j] != name@ by {
                assert(self@[j] == self.entries@[j].0@);
            }
        }
        let copy = name.clone();
        let obj = Rc::new(Object::String(copy));
        let shared = share(&obj);
        self.entries.push((name, obj));
        proof {
            assert(self@ =~= old(self)@.push(utf8_lossy(bytes@)));
        }
        shared
    }
}

/// Interning never forgets a text and never repeats one.
pub proof fn interning_keeps_texts_distinct(t: Seq<Seq<char>>, u: Seq<Seq<char>>, text: Seq<char>)
    requires
        forall|i: int, j: int| 0 <= i < j < t.len() ==> t[i] != t[j],
        t.contains(text) ==> u == t,
        !t.contains(text) ==> u == t.push(text),
    ensures
        forall|i: int, j: int| 0 <= i < j < u.len() ==> u[i] != u[j],
        u.contains(text),
        t.len() <= u.len(),
        forall|i: int| 0 <= i < t.len() ==> u[i] == t[i],
{
    if !t.contains(text) {
        assert(u[t.len() as int] == text);
    }
}

} // verus!
