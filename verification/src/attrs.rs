//! Document attribute values and the document's attribute table.
use vstd::prelude::*;

verus! {

/// The value of a document attribute: a string, or set/unset.
#[derive(Debug, PartialEq, Eq)]
pub enum AttrValue {
    String(String),
    Bool(bool),
}

pub enum AttrValueV {
    String(Seq<char>),
    Bool(bool),
}

impl View for AttrValue {
    type V = AttrValueV;

    open spec fn view(&self) -> AttrValueV {
        match self {
            AttrValue::String(s) => AttrValueV::String(s@),
            AttrValue::Bool(b) => AttrValueV::Bool(*b),
        }
    }
}

impl AttrValue {
    pub fn duplicate(&self) -> (r: AttrValue)
        ensures
            r@ == self@,
    {
        match self {
            AttrValue::String(s) => AttrValue::String(s.clone()),
            AttrValue::Bool(b) => AttrValue::Bool(*b),
        }
    }
}

/// The document's attributes, each name at most once.
#[derive(Debug)]
pub struct DocAttrs {
    pub entries: Vec<(String, AttrValue)>,
}

pub open spec fn entries_view(e: Seq<(String, AttrValue)>) -> Seq<(Seq<char>, AttrValueV)> {
    e.map_values(|p: (String, AttrValue)| (p.0@, p.1@))
}

/// The value of `key` among `entries`: that of the first entry named `key`.
pub open spec fn lookup(entries: Seq<(Seq<char>, AttrValueV)>, key: Seq<char>) -> Option<AttrValueV>
    decreases entries.len(),
{
    if entries.len() == 0 {
        None
    } else if entries[0].0 == key {
        Some(entries[0].1)
    } else {
        lookup(entries.drop_first(), key)
    }
}

/// Whether a value counts as the attribute being set: any string, or `true`.
pub open spec fn is_set_value(v: Option<AttrValueV>) -> bool {
    match v {
        None => false,
        Some(AttrValueV::String(_)) => true,
        Some(AttrValueV::Bool(b)) => b,
    }
}

impl View for DocAttrs {
    type V = Seq<(Seq<char>, AttrValueV)>;

    open spec fn view(&self) -> Seq<(Seq<char>, AttrValueV)> {
        entries_view(self.entries@)
    }
}

impl DocAttrs {
    pub fn new() -> (r: DocAttrs)
        ensures
            r@ == Seq::<(Seq<char>, AttrValueV)>::empty(),
    {
        let r = DocAttrs { entries: Vec::new() };
        assert(r@ =~= Seq::<(Seq<char>, AttrValueV)>::empty());
        r
    }

    /// The value of `key`.
    pub fn get(&self, key: &str) -> (r: Option<&AttrValue>)
        ensures
            match lookup(self@, key@) {
                Some(v) => r matches Some(x) && x@ == v,
                None => r is None,
            },
    {
        let mut i: usize = 0;
        assert(self@.skip(0) =~= self@);
        while i < self.entries.len()
            invariant
                0 <= i <= self.entries@.len(),
                lookup(self@, key@) == lookup(self@.skip(i as int), key@),
            decreases self.entries@.len() - i,
        {
            let ghost rest = self@.skip(i as int);
            assert(rest[0] == (self.entries@[i as int].0@, self.entries@[i as int].1@));
            if crate::text::str_eq(self.entries[i].0.as_str(), key) {
                return Some(&self.entries[i].1);
            }
            assert(rest.drop_first() =~= self@.skip(i + 1));
            i = i + 1;
        }
        None
    }

    /// Whether `key` is set: to any string, or to `true`.
    pub fn is_true(&self, key: &str) -> (r: bool)
        ensures
            r == is_set_value(lookup(self@, key@)),
    {
        match self.get(key) {
            None => false,
            Some(AttrValue::String(_)) => true,
            Some(AttrValue::Bool(b)) => *b,
        }
    }

    /// Whether `key` is explicitly unset.
    pub fn is_false(&self, key: &str) -> (r: bool)
        ensures
            r == (lookup(self@, key@) == Some(AttrValueV::Bool(false))),
    {
        match self.get(key) {
            Some(AttrValue::Bool(b)) => !*b,
            _ => false,
        }
    }

    /// Sets `key` to `value`, replacing an earlier value.
    pub fn insert(&mut self, key: String, value: AttrValue)
        ensures
            lookup(final(self)@, key@) == Some(value@),
            forall|k: Seq<char>| k != key@ ==> lookup(final(self)@, k) == lookup(old(self)@, k),
    {
        let ghost e = (key@, value@);
        let mut i: usize = 0;
        while i < self.entries.len()
            invariant
                0 <= i <= self.entries@.len(),
                self@ == old(self)@,
                e == (key@, value@),
                forall|j: int| 0 <= j < i ==> (#[trigger] self@[j]).0 != key@,
            decreases self.entries@.len() - i,
        {
            assert(self@[i as int] == (self.entries@[i as int].0@, self.entries@[i as int].1@));
            if crate::text::str_eq(self.entries[i].0.as_str(), key.as_str()) {
                assert(self@[i as int].0 == e.0);
                proof {
                    lemma_lookup_update(self@, i as int, e);
                }
                self.entries.set(i, (key, value));
                assert(self@ =~= old(self)@.update(i as int, e));
                return;
            }
            i = i + 1;
        }
        proof {
            lemma_lookup_push(self@, e);
        }
        self.entries.push((key, value));
        assert(self@ =~= old(self)@.push(e));
    }
}

proof fn lemma_lookup_update(s: Seq<(Seq<char>, AttrValueV)>, i: int, e: (Seq<char>, AttrValueV))
    requires
        0 <= i < s.len(),
        s[i].0 == e.0,
        forall|j: int| 0 <= j < i ==> (#[trigger] s[j]).0 != e.0,
    ensures
        lookup(s.update(i, e), e.0) == Some(e.1),
        forall|k: Seq<char>| k != e.0 ==> lookup(s.update(i, e), k) == lookup(s, k),
    decreases i,
{
    let u = s.update(i, e);
    if i == 0 {
        assert(u.drop_first() =~= s.drop_first());
        assert forall|k: Seq<char>| k != e.0 implies lookup(u, k) == lookup(s, k) by {
            assert(u[0].0 == e.0);
            assert(s[0].0 == e.0);
            assert(lookup(u, k) == lookup(u.drop_first(), k));
            assert(lookup(s, k) == lookup(s.drop_first(), k));
        }
    } else {
        lemma_lookup_update(s.drop_first(), i - 1, e);
        assert(u.drop_first() =~= s.drop_first().update(i - 1, e));
        assert(s[0].0 != e.0);
        assert(u[0] == s[0]);
        assert forall|k: Seq<char>| k != e.0 implies lookup(u, k) == lookup(s, k) by {
            assert(u[0] == s[0]);
            assert(lookup(s.drop_first().update(i - 1, e), k) == lookup(s.drop_first(), k));
            assert(lookup(u, k) == if u[0].0 == k { Some(u[0].1) } else { lookup(u.drop_first(), k) });
        }
    }
}

proof fn lemma_lookup_push(s: Seq<(Seq<char>, AttrValueV)>, e: (Seq<char>, AttrValueV))
    requires
        forall|j: int| 0 <= j < s.len() ==> (#[trigger] s[j]).0 != e.0,
    ensures
        lookup(s.push(e), e.0) == Some(e.1),
        forall|k: Seq<char>| k != e.0 ==> lookup(s.push(e), k) == lookup(s, k),
    decreases s.len(),
{
    let p = s.push(e);
    if s.len() == 0 {
        assert(p.drop_first() =~= Seq::<(Seq<char>, AttrValueV)>::empty());
        assert forall|k: Seq<char>| k != e.0 implies lookup(p, k) == lookup(s, k) by {
            assert(p[0].0 == e.0);
            assert(lookup(p, k) == lookup(p.drop_first(), k));
            assert(lookup(p.drop_first(), k) is None);
        }
    } else {
        lemma_lookup_push(s.drop_first(), e);
        assert(p.drop_first() =~= s.drop_first().push(e));
        assert(s[0].0 != e.0);
        assert(p[0] == s[0]);
        assert forall|k: Seq<char>| k != e.0 implies lookup(p, k) == lookup(s, k) by {
            assert(p[0] == s[0]);
            assert(lookup(s.drop_first().push(e), k) == lookup(s.drop_first(), k));
            assert(lookup(p, k) == if p[0].0 == k { Some(p[0].1) } else { lookup(p.drop_first(), k) });
        }
    }
}

/// `after` is `before` with each name of `entries` set to its string value,
/// and every other attribute as it was.
pub open spec fn attrs_set_to(
    before: Seq<(Seq<char>, AttrValueV)>,
    after: Seq<(Seq<char>, AttrValueV)>,
    entries: Seq<(Seq<char>, Seq<char>)>,
) -> bool {
    &&& forall|i: int| 0 <= i < entries.len() ==>
        lookup(after, #[trigger] entries[i].0) == Some(AttrValueV::String(entries[i].1))
    &&& forall|k: Seq<char>| (forall|i: int| 0 <= i < entries.len() ==> entries[i].0 != k)
        ==> #[trigger] lookup(after, k) == lookup(before, k)
}

/// Sets each name of `entries` to its string value; the names are distinct.
pub fn insert_job_attrs(attrs: &mut DocAttrs, entries: Vec<(String, String)>)
    requires
        forall|i: int, j: int|
            0 <= i < j < entries@.len() ==> (#[trigger] entries@[i]).0@ != (#[trigger] entries@[j]).0@,
    ensures
        attrs_set_to(old(attrs)@, final(attrs)@, entries@.map_values(|e: (String, String)| (e.0@, e.1@))),
{
    let ghost orig = entries@;
    let ghost all = orig.map_values(|e: (String, String)| (e.0@, e.1@));
    let mut entries = entries;
    while entries.len() > 0
        invariant
            entries@ == orig.subrange(0, entries@.len() as int),
            entries@.len() <= orig.len(),
            all == orig.map_values(|e: (String, String)| (e.0@, e.1@)),
            forall|i: int, j: int|
                0 <= i < j < orig.len() ==> (#[trigger] orig[i]).0@ != (#[trigger] orig[j]).0@,
            forall|p: int| entries@.len() <= p < orig.len() ==>
                lookup(attrs@, #[trigger] all[p].0) == Some(AttrValueV::String(all[p].1)),
            forall|k: Seq<char>| (forall|p: int| entries@.len() <= p < orig.len() ==> all[p].0 != k)
                ==> #[trigger] lookup(attrs@, k) == lookup(old(attrs)@, k),
        decreases entries@.len(),
    {
        let ghost n = entries@.len() - 1;
        let (key, value) = entries.pop().unwrap();
        assert(orig[n] == (key, value));
        assert(all[n] == (key@, value@));
        attrs.insert(key, AttrValue::String(value));
        assert forall|p: int| entries@.len() <= p < orig.len() implies
            lookup(attrs@, #[trigger] all[p].0) == Some(AttrValueV::String(all[p].1)) by {
            if p != n {
                assert(orig[n].0@ != orig[p].0@);
            }
        }
    }
}

} // verus!
