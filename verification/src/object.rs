//! The object produced by a parse: a key/value mapping with unique keys,
//! where a later duplicate key overwrites the earlier entry.

use vstd::prelude::*;

use crate::value::member_view;
use crate::value::member_wf;
use crate::value::Member;
use crate::value::MemberV;

verus! {

/// One committed key/value pair of the object.
#[derive(Debug)]
pub struct Entry {
    pub key: String,
    pub value: Member,
}

/// The key/value mapping a successful parse produces.  Entries are kept in
/// commit order; keys are unique, and committing a key again overwrites the
/// earlier entry in place.
#[derive(Debug)]
pub struct ObjectMap {
    pub entries: Vec<Entry>,
}

/// The mathematical content of one entry.
pub open spec fn entry_view(e: Entry) -> (Seq<char>, MemberV) {
    (e.key@, member_view(e.value))
}

/// No two pairs of the sequence share a key.
pub open spec fn keys_unique(es: Seq<(Seq<char>, MemberV)>) -> bool {
    forall|i: int, j: int| 0 <= i < j < es.len() ==> (#[trigger] es[i]).0 != (#[trigger] es[j]).0
}

/// The mapping described by a sequence of pairs, later pairs overwriting
/// earlier ones.
pub open spec fn entries_to_map(es: Seq<(Seq<char>, MemberV)>) -> Map<Seq<char>, MemberV>
    decreases es.len(),
{
    if es.len() == 0 {
        Map::empty()
    } else {
        entries_to_map(es.drop_last()).insert(es.last().0, es.last().1)
    }
}

/// Appending a pair inserts its binding.
pub proof fn lemma_entries_to_map_push(es: Seq<(Seq<char>, MemberV)>, kv: (Seq<char>, MemberV))
    ensures
        entries_to_map(es.push(kv)) == entries_to_map(es).insert(kv.0, kv.1),
{
    assert(es.push(kv).drop_last() =~= es);
    assert(es.push(kv).last() == kv);
}

/// Overwriting the pair that holds a key in place inserts the new binding.
pub proof fn lemma_entries_to_map_update(
    es: Seq<(Seq<char>, MemberV)>,
    i: int,
    kv: (Seq<char>, MemberV),
)
    requires
        0 <= i < es.len(),
        es[i].0 == kv.0,
        keys_unique(es),
    ensures
        entries_to_map(es.update(i, kv)) == entries_to_map(es).insert(kv.0, kv.1),
    decreases es.len(),
{
    let up = es.update(i, kv);
    if i == es.len() - 1 {
        assert(up.drop_last() =~= es.drop_last());
        assert(up.last() == kv);
        assert(entries_to_map(es.drop_last()).insert(es.last().0, es.last().1).insert(kv.0, kv.1)
            =~= entries_to_map(es.drop_last()).insert(kv.0, kv.1));
    } else {
        assert(up.drop_last() =~= es.drop_last().update(i, kv));
        assert(up.last() == es.last());
        lemma_entries_to_map_update(es.drop_last(), i, kv);
        let base = entries_to_map(es.drop_last());
        assert(es.last().0 != kv.0);
        assert(base.insert(kv.0, kv.1).insert(es.last().0, es.last().1) =~= base.insert(
            es.last().0,
            es.last().1,
        ).insert(kv.0, kv.1));
    }
}

/// A key is bound exactly when some pair holds it, and, keys being unique,
/// it is bound to that pair's value.
pub proof fn lemma_entries_to_map_index(es: Seq<(Seq<char>, MemberV)>, k: Seq<char>)
    requires
        keys_unique(es),
    ensures
        entries_to_map(es).contains_key(k) <==> exists|i: int| 0 <= i < es.len() && es[i].0 == k,
        forall|i: int|
            0 <= i < es.len() && (#[trigger] es[i]).0 == k ==> entries_to_map(es)[k] == es[i].1,
    decreases es.len(),
{
    if es.len() > 0 {
        lemma_entries_to_map_index(es.drop_last(), k);
        if es.last().0 == k {
            assert(es[es.len() - 1].0 == k);
        } else {
            assert(forall|i: int|
                0 <= i < es.len() && (#[trigger] es[i]).0 == k ==> 0 <= i < es.len() - 1
                    && es.drop_last()[i].0 == k && es.drop_last()[i].1 == es[i].1);
            assert(entries_to_map(es).contains_key(k) <==> entries_to_map(
                es.drop_last(),
            ).contains_key(k));
        }
    }
}

/// A key is bound exactly when some pair holds it, duplicates or not.
pub proof fn lemma_entries_to_map_contains(es: Seq<(Seq<char>, MemberV)>, k: Seq<char>)
    ensures
        entries_to_map(es).contains_key(k) <==> exists|i: int| 0 <= i < es.len() && (#[trigger] es[i]).0 == k,
    decreases es.len(),
{
    if es.len() > 0 {
        lemma_entries_to_map_contains(es.drop_last(), k);
        if es.last().0 == k {
            assert((es[es.len() - 1]).0 == k);
        } else {
            assert(forall|i: int|
                0 <= i < es.len() && (#[trigger] es[i]).0 == k ==> 0 <= i < es.len() - 1
                    && es.drop_last()[i].0 == k);
        }
    }
}

/// The last pair that holds a key decides what the key is bound to.
pub proof fn lemma_entries_to_map_last(es: Seq<(Seq<char>, MemberV)>, i: int)
    requires
        0 <= i < es.len(),
        forall|j: int| i < j < es.len() ==> (#[trigger] es[j]).0 != es[i].0,
    ensures
        entries_to_map(es).contains_key(es[i].0),
        entries_to_map(es)[es[i].0] == es[i].1,
    decreases es.len(),
{
    if i == es.len() - 1 {
    } else {
        assert(es.drop_last()[i] == es[i]);
        lemma_entries_to_map_last(es.drop_last(), i);
        assert(es.last().0 != es[i].0);
    }
}

/// The mapping binds as many keys as there are pairs, when keys are unique.
pub proof fn lemma_entries_to_map_len(es: Seq<(Seq<char>, MemberV)>)
    requires
        keys_unique(es),
    ensures
        entries_to_map(es).dom().finite(),
        entries_to_map(es).dom().len() == es.len(),
    decreases es.len(),
{
    if es.len() > 0 {
        lemma_entries_to_map_len(es.drop_last());
        lemma_entries_to_map_index(es.drop_last(), es.last().0);
        assert(forall|i: int| 0 <= i < es.len() - 1 ==> (#[trigger] es[i]).0 == es.drop_last()[i].0);
        assert(!entries_to_map(es.drop_last()).contains_key(es.last().0));
        vstd::set::axiom_set_insert_len(entries_to_map(es.drop_last()).dom(), es.last().0);
        assert(entries_to_map(es).dom() =~= entries_to_map(es.drop_last()).dom().insert(
            es.last().0,
        ));
    }
}

impl View for ObjectMap {
    type V = Map<Seq<char>, MemberV>;

    open spec fn view(&self) -> Map<Seq<char>, MemberV> {
        entries_to_map(self.entries_view())
    }
}

impl ObjectMap {
    /// The pairs of the mapping in commit order, as mathematical values.
    pub open spec fn entries_view(&self) -> Seq<(Seq<char>, MemberV)> {
        Seq::new(self.entries@.len(), |i: int| entry_view(self.entries@[i]))
    }

    /// Keys are unique and every stored value is a well-formed, non-empty
    /// member.
    pub open spec fn wf(&self) -> bool {
        &&& keys_unique(self.entries_view())
        &&& forall|i: int|
            0 <= i < self.entries_view().len() ==> member_wf(
                (#[trigger] self.entries_view()[i]).1,
            ) && !(self.entries_view()[i].1 is Empty)
    }

    /// A mapping with no entries.
    pub fn new() -> (m: ObjectMap)
        ensures
            m.wf(),
            m@ == Map::<Seq<char>, MemberV>::empty(),
            m.entries_view() == Seq::<(Seq<char>, MemberV)>::empty(),
    {
        let m = ObjectMap { entries: Vec::new() };
        proof {
            assert(m.entries_view() =~= Seq::<(Seq<char>, MemberV)>::empty());
        }
        m
    }

    /// How many entries the mapping holds.
    pub fn len(&self) -> (n: usize)
        ensures
            n == self.entries_view().len(),
            self.wf() ==> n == self@.dom().len(),
    {
        proof {
            if self.wf() {
                lemma_entries_to_map_len(self.entries_view());
            }
        }
        self.entries.len()
    }

    /// Whether the mapping holds no entry.
    pub fn is_empty(&self) -> (b: bool)
        ensures
            b == (self.entries_view().len() == 0),
            b == (self@ =~= Map::<Seq<char>, MemberV>::empty()),
    {
        proof {
            if self.entries_view().len() != 0 {
                lemma_entries_to_map_push(
                    self.entries_view().drop_last(),
                    self.entries_view().last(),
                );
                assert(self.entries_view().drop_last().push(self.entries_view().last())
                    =~= self.entries_view());
                assert(self@.contains_key(self.entries_view().last().0));
            }
        }
        self.entries.len() == 0
    }

    /// The position of the entry that holds `key`, if any.
    fn find(&self, key: &str) -> (r: Option<usize>)
        ensures
            match r {
                Some(i) => i < self.entries_view().len() && self.entries_view()[i as int].0
                    == key@,
                None => forall|i: int|
                    0 <= i < self.entries_view().len() ==> (#[trigger] self.entries_view()[i]).0
                        != key@,
            },
    {
        let n = self.entries.len();
        let mut i: usize = 0;
        while i < n
            invariant
                n == self.entries_view().len(),
                i <= n,
                forall|j: int|
                    0 <= j < i ==> (#[trigger] self.entries_view()[j]).0 != key@,
            decreases n - i,
        {
            if str_eq(self.entries[i].key.as_str(), key) {
                return Some(i);
            }
            i += 1;
        }
        None
    }

    /// Bind `key` to `value`: overwrite the entry that already holds the key,
    /// or append a new entry.
    pub fn insert(&mut self, key: String, value: Member)
        requires
            old(self).wf(),
            member_wf(member_view(value)),
            !(member_view(value) is Empty),
        ensures
            final(self).wf(),
            final(self)@ == old(self)@.insert(key@, member_view(value)),
    {
        let ghost old_es = self.entries_view();
        match self.find(key.as_str()) {
            Some(i) => {
                self.entries.set(i, Entry { key, value });
                proof {
                    assert(self.entries_view() =~= old_es.update(
                        i as int,
                        (key@, member_view(value)),
                    ));
                    lemma_entries_to_map_update(old_es, i as int, (key@, member_view(value)));
                }
            },
            None => {
                self.entries.push(Entry { key, value });
                proof {
                    assert(self.entries_view() =~= old_es.push((key@, member_view(value))));
                    lemma_entries_to_map_push(old_es, (key@, member_view(value)));
                }
            },
        }
    }

    /// The value bound to `key`, if the key is bound.
    pub fn get<'a>(&'a self, key: &str) -> (r: Option<&'a Member>)
        requires
            self.wf(),
        ensures
            match r {
                Some(m) => self@.contains_key(key@) && member_view(*m) == self@[key@],
                None => !self@.contains_key(key@),
            },
    {
        proof {
            lemma_entries_to_map_index(self.entries_view(), key@);
        }
        match self.find(key) {
            Some(i) => Some(&self.entries[i].value),
            None => None,
        }
    }
}

/// Whether two string slices hold the same characters.
pub fn str_eq(a: &str, b: &str) -> (r: bool)
    ensures
        r == (a@ == b@),
{
    let na = a.unicode_len();
    let nb = b.unicode_len();
    if na != nb {
        return false;
    }
    let mut i: usize = 0;
    while i < na
        invariant
            a@.len() == na,
            b@.len() == na,
            i <= na,
            forall|j: int| 0 <= j < i ==> a@[j] == b@[j],
        decreases na - i,
    {
        if a.get_char(i) != b.get_char(i) {
            return false;
        }
        i += 1;
    }
    proof {
        assert(a@ =~= b@);
    }
    true
}

/// The flat object a whole parse produces, together with the two flags the
/// scan maintains: whether an object is currently open, and whether a
/// matching close was ever seen (the success signal of the parse).
#[derive(Debug)]
pub struct JSON {
    pub map: ObjectMap,
    pub current_object: bool,
    pub is_json: bool,
}

/// The mathematical view of a [`JSON`].
#[verifier::ext_equal]
pub ghost struct JsonV {
    pub map: Map<Seq<char>, MemberV>,
    pub current_object: bool,
    pub is_json: bool,
}

impl View for JSON {
    type V = JsonV;

    open spec fn view(&self) -> JsonV {
        JsonV { map: self.map@, current_object: self.current_object, is_json: self.is_json }
    }
}

} // verus!
