//! The symbol Registry: name-keyed tables of fragments, blueprints and
//! schemas, with last-write-wins insertion and insertion-order iteration.
use vstd::prelude::*;

verus! {

/// A generic schema template: ordered parameter names and a body that
/// uses `$Param` tokens.
#[derive(Debug, Clone)]
pub struct Blueprint {
    pub params: Vec<String>,
    pub body: String,
}

/// A reusable insertable text template: ordered parameter names and a
/// body that uses `{{param}}` tokens.
#[derive(Debug, Clone)]
pub struct Fragment {
    pub params: Vec<String>,
    pub body: String,
}

/// The mathematical value of a template: its parameter names and body.
pub struct TemplateModel {
    pub params: Seq<Seq<char>>,
    pub body: Seq<char>,
}

impl View for Blueprint {
    type V = TemplateModel;

    open spec fn view(&self) -> TemplateModel {
        TemplateModel { params: self.params.deep_view(), body: self.body@ }
    }
}

impl View for Fragment {
    type V = TemplateModel;

    open spec fn view(&self) -> TemplateModel {
        TemplateModel { params: self.params.deep_view(), body: self.body@ }
    }
}

/// The finite map held by a sequence of key-value pairs, later entries
/// winning.
pub open spec fn kv_map<M>(s: Seq<(Seq<char>, M)>) -> Map<Seq<char>, M>
    decreases s.len(),
{
    if s.len() == 0 {
        Map::empty()
    } else {
        kv_map(s.drop_last()).insert(s.last().0, s.last().1)
    }
}

/// Whether the keys of the pair sequence are pairwise distinct.
pub open spec fn keys_unique<M>(s: Seq<(Seq<char>, M)>) -> bool {
    forall|i: int, j: int| 0 <= i < j < s.len() ==> (#[trigger] s[i]).0 != (#[trigger] s[j]).0
}

pub proof fn lemma_kv_contains<M>(s: Seq<(Seq<char>, M)>, k: Seq<char>)
    ensures
        kv_map(s).contains_key(k) <==> exists|i: int| 0 <= i < s.len() && (#[trigger] s[i]).0 == k,
    decreases s.len(),
{
    if s.len() > 0 {
        lemma_kv_contains(s.drop_last(), k);
        if s.last().0 == k {
            assert((#[trigger] s[s.len() - 1]).0 == k);
        } else if kv_map(s).contains_key(k) {
            let i = choose|i: int| 0 <= i < s.drop_last().len() && (#[trigger] s.drop_last()[i]).0
                == k;
            assert((#[trigger] s[i]).0 == k);
        } else {
            assert forall|i: int| 0 <= i < s.len() implies (#[trigger] s[i]).0 != k by {
                if i < s.len() - 1 {
                    assert(s.drop_last()[i] == s[i]);
                }
            }
        }
    }
}

pub proof fn lemma_kv_unique_at<M>(s: Seq<(Seq<char>, M)>, i: int)
    requires
        keys_unique(s),
        0 <= i < s.len(),
    ensures
        kv_map(s).contains_key(s[i].0),
        kv_map(s)[s[i].0] == s[i].1,
    decreases s.len(),
{
    if i == s.len() - 1 {
    } else {
        assert(keys_unique(s.drop_last()));
        assert(s.drop_last()[i] == s[i]);
        lemma_kv_unique_at(s.drop_last(), i);
        assert(s[i].0 != s.last().0);
    }
}

/// A name-keyed table with insertion-order iteration; inserting an
/// existing name replaces its value in place and keeps its position.
#[derive(Debug)]
pub struct TextMap<V> {
    entries: Vec<(String, V)>,
}

impl<V: View> TextMap<V> {
    /// The entries, as key-view / value-view pairs in insertion order.
    pub closed spec fn kv(self) -> Seq<(Seq<char>, V::V)> {
        self.entries@.map_values(|e: (String, V)| (e.0@, e.1@))
    }

    /// The keys in insertion order.
    pub open spec fn key_seq(self) -> Seq<Seq<char>> {
        self.kv().map_values(|e: (Seq<char>, V::V)| e.0)
    }

    /// The finite map this table holds.
    pub open spec fn map_of(self) -> Map<Seq<char>, V::V> {
        kv_map(self.kv())
    }

    /// Every name occurs at most once.
    pub open spec fn wf(self) -> bool {
        keys_unique(self.kv())
    }

    /// An empty table.
    pub fn new() -> (r: TextMap<V>)
        ensures
            r.kv() == Seq::<(Seq<char>, V::V)>::empty(),
            r.wf(),
    {
        let r = TextMap { entries: Vec::new() };
        proof {
            assert(r.kv() =~= Seq::<(Seq<char>, V::V)>::empty());
        }
        r
    }

    /// The number of entries.
    pub fn len(&self) -> (n: usize)
        ensures
            n == self.kv().len(),
    {
        self.entries.len()
    }

    /// The name of the entry at position `i`.
    pub fn key_at(&self, i: usize) -> (k: &String)
        requires
            i < self.kv().len(),
        ensures
            k@ == self.kv()[i as int].0,
    {
        &self.entries[i].0
    }

    /// The value of the entry at position `i`.
    pub fn value_at(&self, i: usize) -> (v: &V)
        requires
            i < self.kv().len(),
        ensures
            v@ == self.kv()[i as int].1,
    {
        &self.entries[i].1
    }

    /// Looks a name up.
    pub fn get(&self, name: &String) -> (r: Option<&V>)
        requires
            self.wf(),
        ensures
            match r {
                Some(v) => self.map_of().contains_key(name@) && self.map_of()[name@] == v@,
                None => !self.map_of().contains_key(name@),
            },
    {
        let n = self.entries.len();
        let mut i: usize = 0;
        while i < n
            invariant
                i <= n,
                n == self.kv().len(),
                self.wf(),
                forall|j: int| 0 <= j < i ==> (#[trigger] self.kv()[j]).0 != name@,
            decreases n - i,
        {
            if self.entries[i].0 == *name {
                proof {
                    assert(self.kv()[i as int].0 == name@);
                    lemma_kv_unique_at(self.kv(), i as int);
                }
                return Some(&self.entries[i].1);
            }
            proof {
                assert(self.kv()[i as int].0 != name@);
            }
            i = i + 1;
        }
        proof {
            lemma_kv_contains(self.kv(), name@);
        }
        None
    }

    /// Whether a name is present.
    pub fn contains_key(&self, name: &String) -> (r: bool)
        requires
            self.wf(),
        ensures
            r == self.map_of().contains_key(name@),
    {
        match self.get(name) {
            Some(_) => true,
            None => false,
        }
    }

    /// Inserts a value under a name; an existing entry of the same name
    /// is replaced in place, otherwise the entry is appended.
    pub fn insert(&mut self, name: String, value: V)
        requires
            old(self).wf(),
        ensures
            final(self).wf(),
            final(self).map_of() == old(self).map_of().insert(name@, value@),
            final(self).key_seq() == if old(self).key_seq().contains(name@) {
                old(self).key_seq()
            } else {
                old(self).key_seq().push(name@)
            },
    {
        let n = self.entries.len();
        let mut i: usize = 0;
        while i < n
            invariant
                i <= n,
                n == self.kv().len(),
                self.wf(),
                self == old(self),
                forall|j: int| 0 <= j < i ==> (#[trigger] self.kv()[j]).0 != name@,
            decreases n - i,
        {
            if self.entries[i].0 == *(&name) {
                proof {
                    assert(self.kv()[i as int].0 == name@);
                }
                self.entries.remove(i);
                self.entries.insert(i, (name, value));
                proof {
                    assert(self.kv() =~= old(self).kv().update(i as int, (name@, value@)));
                    lemma_textmap_replace(old(self).kv(), self.kv(), i as int, name@, value@);
                }
                return ;
            }
            proof {
                assert(self.kv()[i as int].0 != name@);
            }
            i = i + 1;
        }
        self.entries.push((name, value));
        proof {
            assert(self.kv() =~= old(self).kv().push((name@, value@)));
            assert(self.kv().drop_last() =~= old(self).kv());
            assert(self.wf());
            assert(final(self).map_of() =~= old(self).map_of().insert(name@, value@));
            assert(!old(self).key_seq().contains(name@)) by {
                if old(self).key_seq().contains(name@) {
                    let j = choose|j: int| 0 <= j < old(self).key_seq().len() && old(
                        self,
                    ).key_seq()[j] == name@;
                    assert((#[trigger] old(self).kv()[j]).0 == name@);
                }
            }
            assert(final(self).key_seq() =~= old(self).key_seq().push(name@));
        }
    }
}

proof fn lemma_textmap_replace<M>(
    before: Seq<(Seq<char>, M)>,
    after: Seq<(Seq<char>, M)>,
    i: int,
    k: Seq<char>,
    v: M,
)
    requires
        keys_unique(before),
        0 <= i < before.len(),
        before[i].0 == k,
        after == before.update(i, (k, v)),
    ensures
        keys_unique(after),
        kv_map(after) == kv_map(before).insert(k, v),
        after.map_values(|e: (Seq<char>, M)| e.0) == if before.map_values(
            |e: (Seq<char>, M)| e.0,
        ).contains(k) {
            before.map_values(|e: (Seq<char>, M)| e.0)
        } else {
            before.map_values(|e: (Seq<char>, M)| e.0).push(k)
        },
    decreases before.len(),
{
    assert(keys_unique(after)) by {
        assert forall|p: int, q: int| 0 <= p < q < after.len() implies (#[trigger] after[p]).0 != (
        #[trigger] after[q]).0 by {
            assert(before[p].0 == after[p].0 && before[q].0 == after[q].0);
        }
    }
    assert(before.map_values(|e: (Seq<char>, M)| e.0)[i] == k);
    assert(before.map_values(|e: (Seq<char>, M)| e.0).contains(k));
    assert(after.map_values(|e: (Seq<char>, M)| e.0) =~= before.map_values(
        |e: (Seq<char>, M)| e.0,
    ));
    if i == before.len() - 1 {
        assert(after.drop_last() =~= before.drop_last());
        assert(kv_map(after) == kv_map(before.drop_last()).insert(k, v));
        assert(kv_map(before) == kv_map(before.drop_last()).insert(k, before[i].1));
        assert(kv_map(before).insert(k, v) =~= kv_map(before.drop_last()).insert(k, v));
    } else {
        assert(keys_unique(before.drop_last()));
        assert(before.drop_last()[i] == before[i]);
        assert(after.drop_last() =~= before.drop_last().update(i, (k, v)));
        lemma_textmap_replace(before.drop_last(), after.drop_last(), i, k, v);
        assert(after.last() == before.last());
        assert(kv_map(after) == kv_map(before.drop_last()).insert(k, v).insert(
            before.last().0,
            before.last().1,
        ));
        assert(before.last().0 != k);
        assert(kv_map(before.drop_last()).insert(k, v).insert(before.last().0, before.last().1)
            =~= kv_map(before.drop_last()).insert(before.last().0, before.last().1).insert(k, v));
    }
}

/// The symbol table of one generation run: fragments, blueprints,
/// extracted schemas and generated concrete schemas, in independent
/// namespaces.
#[derive(Debug)]
pub struct Registry {
    pub fragments: TextMap<Fragment>,
    pub blueprints: TextMap<Blueprint>,
    pub schemas: TextMap<String>,
    pub concrete_schemas: TextMap<String>,
}

impl Registry {
    /// All four tables are well formed.
    pub open spec fn wf(self) -> bool {
        self.fragments.wf() && self.blueprints.wf() && self.schemas.wf()
            && self.concrete_schemas.wf()
    }

    /// An empty registry.
    pub fn new() -> (r: Registry)
        ensures
            r.wf(),
            r.fragments.kv() == Seq::<(Seq<char>, TemplateModel)>::empty(),
            r.blueprints.kv() == Seq::<(Seq<char>, TemplateModel)>::empty(),
            r.schemas.kv() == Seq::<(Seq<char>, Seq<char>)>::empty(),
            r.concrete_schemas.kv() == Seq::<(Seq<char>, Seq<char>)>::empty(),
    {
        Registry {
            fragments: TextMap::new(),
            blueprints: TextMap::new(),
            schemas: TextMap::new(),
            concrete_schemas: TextMap::new(),
        }
    }

    /// Registers a fragment; a fragment of the same name is overwritten.
    pub fn insert_fragment(&mut self, name: String, params: Vec<String>, content: String)
        requires
            old(self).wf(),
        ensures
            final(self).wf(),
            final(self).fragments.map_of() == old(self).fragments.map_of().insert(
                name@,
                TemplateModel { params: params.deep_view(), body: content@ },
            ),
            final(self).blueprints == old(self).blueprints,
            final(self).schemas == old(self).schemas,
            final(self).concrete_schemas == old(self).concrete_schemas,
    {
        self.fragments.insert(name, Fragment { params, body: content });
    }

    /// Registers a blueprint; a blueprint of the same name is
    /// overwritten.
    pub fn insert_blueprint(&mut self, name: String, params: Vec<String>, content: String)
        requires
            old(self).wf(),
        ensures
            final(self).wf(),
            final(self).blueprints.map_of() == old(self).blueprints.map_of().insert(
                name@,
                TemplateModel { params: params.deep_view(), body: content@ },
            ),
            final(self).fragments == old(self).fragments,
            final(self).schemas == old(self).schemas,
            final(self).concrete_schemas == old(self).concrete_schemas,
    {
        self.blueprints.insert(name, Blueprint { params, body: content });
    }

    /// Registers an extracted schema body under its name; a schema of
    /// the same name is overwritten.
    pub fn insert_schema(&mut self, name: String, content: String)
        requires
            old(self).wf(),
        ensures
            final(self).wf(),
            final(self).schemas.map_of() == old(self).schemas.map_of().insert(name@, content@),
            final(self).fragments == old(self).fragments,
            final(self).blueprints == old(self).blueprints,
            final(self).concrete_schemas == old(self).concrete_schemas,
    {
        self.schemas.insert(name, content);
    }
}

} // verus!
