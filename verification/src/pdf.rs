//! The part of a PDF object graph that signature recognition reads.
//!
//! `PdfModel` holds the trailer and the numbered objects of a document as
//! plain values; dictionary lookups take the first entry with the key and
//! references are followed as lopdf's `Document::get_object` follows them.

use vstd::prelude::*;
use crate::cms::bytes_eq;

verus! {

/// One PDF object. A real number is kept as the integer that `as i64` makes
/// of it (the only use the library has for reals).
pub enum PdfObject {
    Null,
    Boolean(bool),
    Integer(i64),
    Real(i64),
    Name(Vec<u8>),
    Str(Vec<u8>),
    Array(Vec<PdfObject>),
    Dictionary(PdfDict),
    Stream,
    Reference(u32, u16),
}

/// A PDF dictionary: keys with their values, in the document's order.
pub struct PdfDict {
    pub entries: Vec<(Vec<u8>, PdfObject)>,
}

/// The numbered objects of a document (in object-number order), its trailer
/// and its page count.
pub struct PdfModel {
    pub trailer: PdfDict,
    pub objects: Vec<(u32, u16, PdfObject)>,
    pub page_count: usize,
}

/// A PDF object as a mathematical value: the content of an array or a
/// dictionary is a sequence of values.
pub enum PdfValue {
    Null,
    Boolean(bool),
    Integer(i64),
    Real(i64),
    Name(Seq<u8>),
    Str(Seq<u8>),
    Array(Seq<PdfValue>),
    Dictionary(Seq<(Seq<u8>, PdfValue)>),
    Stream,
    Reference(u32, u16),
}

/// The value of an object of the model.
pub open spec fn value_of(o: PdfObject) -> PdfValue
    decreases o,
{
    match o {
        PdfObject::Null => PdfValue::Null,
        PdfObject::Boolean(b) => PdfValue::Boolean(b),
        PdfObject::Integer(n) => PdfValue::Integer(n),
        PdfObject::Real(n) => PdfValue::Real(n),
        PdfObject::Name(n) => PdfValue::Name(n@),
        PdfObject::Str(s) => PdfValue::Str(s@),
        PdfObject::Array(items) => PdfValue::Array(
            Seq::new(
                items@.len(),
                |i: int|
                    if 0 <= i < items@.len() {
                        value_of(items@[i])
                    } else {
                        PdfValue::Null
                    },
            ),
        ),
        PdfObject::Dictionary(d) => PdfValue::Dictionary(
            Seq::new(
                d.entries@.len(),
                |i: int|
                    if 0 <= i < d.entries@.len() {
                        (d.entries@[i].0@, value_of(d.entries@[i].1))
                    } else {
                        (Seq::empty(), PdfValue::Null)
                    },
            ),
        ),
        PdfObject::Stream => PdfValue::Stream,
        PdfObject::Reference(n, g) => PdfValue::Reference(n, g),
    }
}

impl View for PdfObject {
    type V = PdfValue;

    open spec fn view(&self) -> PdfValue {
        value_of(*self)
    }
}

/// The entries of a dictionary of the model, as values.
pub open spec fn dict_value(d: PdfDict) -> Seq<(Seq<u8>, PdfValue)> {
    Seq::new(d.entries@.len(), |i: int| (d.entries@[i].0@, d.entries@[i].1@))
}

/// The value of the first entry of `entries[i..]` with `key`.
pub open spec fn entries_get(entries: Seq<(Vec<u8>, PdfObject)>, key: Seq<u8>, i: int) -> Option<
    PdfObject,
>
    decreases entries.len() - i,
{
    if i >= entries.len() {
        None
    } else if entries[i].0@ == key {
        Some(entries[i].1)
    } else {
        entries_get(entries, key, i + 1)
    }
}

/// The value that `key` maps to in `d`.
pub open spec fn dict_get(d: PdfDict, key: Seq<u8>) -> Option<PdfObject> {
    entries_get(d.entries@, key, 0)
}

impl PdfDict {
    /// The value that `key` maps to.
    pub fn get(&self, key: &[u8]) -> (r: Option<&PdfObject>)
        ensures
            match dict_get(*self, key@) {
                Some(o) => r is Some && *r->Some_0 == o,
                None => r is None,
            },
    {
        let mut i: usize = 0;
        while i < self.entries.len()
            invariant
                i <= self.entries@.len(),
                dict_get(*self, key@) == entries_get(self.entries@, key@, i as int),
            decreases self.entries@.len() - i,
        {
            if bytes_eq(self.entries[i].0.as_slice(), key) {
                return Some(&self.entries[i].1);
            }
            i = i + 1;
        }
        None
    }

    /// Whether `key` has an entry.
    pub fn has(&self, key: &[u8]) -> (r: bool)
        ensures
            r == dict_get(*self, key@) is Some,
    {
        self.get(key).is_some()
    }
}

/// The object numbered `id` among `objects[i..]` (first match).
pub open spec fn objects_get(objects: Seq<(u32, u16, PdfObject)>, id: (u32, u16), i: int) -> Option<
    PdfObject,
>
    decreases objects.len() - i,
{
    if i >= objects.len() {
        None
    } else if objects[i].0 == id.0 && objects[i].1 == id.1 {
        Some(objects[i].2)
    } else {
        objects_get(objects, id, i + 1)
    }
}

/// The most references `get_object` follows after the first lookup.
pub open spec fn deref_limit() -> nat {
    128
}

/// Follows references from `o`, `hops` of them already taken: a missing
/// object or more than `deref_limit()` hops gives nothing.
pub open spec fn follow(m: PdfModel, o: PdfObject, hops: nat) -> Option<PdfObject>
    decreases deref_limit() + 1 - hops,
{
    match o {
        PdfObject::Reference(n, g) => match objects_get(m.objects@, (n, g), 0) {
            None => None,
            Some(next) => if hops + 1 > deref_limit() {
                None
            } else {
                follow(m, next, hops + 1)
            },
        },
        _ => Some(o),
    }
}

/// The object numbered `id`, references followed.
pub open spec fn get_object(m: PdfModel, id: (u32, u16)) -> Option<PdfObject> {
    match objects_get(m.objects@, id, 0) {
        None => None,
        Some(o) => follow(m, o, 0),
    }
}

impl PdfModel {
    fn lookup(&self, n: u32, g: u16) -> (r: Option<&PdfObject>)
        ensures
            match objects_get(self.objects@, (n, g), 0) {
                Some(o) => r is Some && *r->Some_0 == o,
                None => r is None,
            },
    {
        let mut i: usize = 0;
        while i < self.objects.len()
            invariant
                i <= self.objects@.len(),
                objects_get(self.objects@, (n, g), 0) == objects_get(
                    self.objects@,
                    (n, g),
                    i as int,
                ),
            decreases self.objects@.len() - i,
        {
            if self.objects[i].0 == n && self.objects[i].1 == g {
                return Some(&self.objects[i].2);
            }
            i = i + 1;
        }
        None
    }

    /// The object numbered `(n, g)`, references followed.
    pub fn get_object(&self, n: u32, g: u16) -> (r: Option<&PdfObject>)
        ensures
            match get_object(*self, (n, g)) {
                Some(o) => r is Some && *r->Some_0 == o,
                None => r is None,
            },
    {
        let mut cur = match self.lookup(n, g) {
            Some(o) => o,
            None => return None,
        };
        let mut hops: usize = 0;
        loop
            invariant
                hops <= 128,
                get_object(*self, (n, g)) == follow(*self, *cur, hops as nat),
            decreases 129 - hops,
        {
            match cur {
                PdfObject::Reference(rn, rg) => {
                    let next = match self.lookup(*rn, *rg) {
                        Some(o) => o,
                        None => return None,
                    };
                    if hops + 1 > 128 {
                        return None;
                    }
                    cur = next;
                    hops = hops + 1;
                },
                _ => return Some(cur),
            }
        }
    }
}

/// A dictionary given inline or through a reference.
pub open spec fn deref_dict(m: PdfModel, o: PdfObject) -> Option<PdfDict> {
    match o {
        PdfObject::Dictionary(d) => Some(d),
        PdfObject::Reference(n, g) => match get_object(m, (n, g)) {
            Some(PdfObject::Dictionary(d)) => Some(d),
            _ => None,
        },
        _ => None,
    }
}

/// A dictionary given inline or through a reference.
pub fn deref_dict_of<'a>(m: &'a PdfModel, o: &'a PdfObject) -> (r: Option<&'a PdfDict>)
    ensures
        match deref_dict(*m, *o) {
            Some(d) => r is Some && *r->Some_0 == d,
            None => r is None,
        },
{
    match o {
        PdfObject::Dictionary(d) => Some(d),
        PdfObject::Reference(n, g) => match m.get_object(*n, *g) {
            Some(PdfObject::Dictionary(d)) => Some(d),
            _ => None,
        },
        _ => None,
    }
}

} // verus!
