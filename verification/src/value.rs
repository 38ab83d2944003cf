//! The generic tree value documents are parsed into: mappings,
//! sequences and scalars, with insertion order kept.
//!
//! Parsing YAML text into the tree and rendering the tree back as YAML
//! are the work of the `serde_yaml` crate, behind the two trusted
//! functions at the bottom of this file; everything that reads or
//! builds trees is verified against the `DocModel` view.
use vstd::prelude::*;

verus! {

broadcast use vstd::std_specs::vec::group_vec_axioms;

/// A parsed document tree.  Scalars keep YAML's distinctions that the
/// merge rules can observe: null, booleans, strings, and any other
/// scalar (numbers, in particular) by its rendering.
#[derive(Debug)]
pub enum DocValue {
    Null,
    Bool(bool),
    Str(String),
    Num(String),
    Sequence(Vec<DocValue>),
    Mapping(Vec<(DocValue, DocValue)>),
}

/// The mathematical value of a document tree.
#[verifier::ext_equal]
pub enum DocModel {
    Null,
    Bool(bool),
    Str(Seq<char>),
    Num(Seq<char>),
    Sequence(Seq<DocModel>),
    Mapping(Seq<(DocModel, DocModel)>),
}

/// The models of a sequence of trees.
pub open spec fn docs_model(v: Seq<DocValue>) -> Seq<DocModel>
    decreases v,
{
    if v.len() == 0 {
        Seq::empty()
    } else {
        docs_model(v.drop_last()).push(v.last().model())
    }
}

/// The models of a sequence of key-value entries.
pub open spec fn entries_model(v: Seq<(DocValue, DocValue)>) -> Seq<(DocModel, DocModel)>
    decreases v,
{
    if v.len() == 0 {
        Seq::empty()
    } else {
        entries_model(v.drop_last()).push((v.last().0.model(), v.last().1.model()))
    }
}

impl DocValue {
    /// The mathematical value of this tree.
    pub open spec fn model(self) -> DocModel
        decreases self,
    {
        match self {
            DocValue::Null => DocModel::Null,
            DocValue::Bool(b) => DocModel::Bool(b),
            DocValue::Str(s) => DocModel::Str(s@),
            DocValue::Num(s) => DocModel::Num(s@),
            DocValue::Sequence(v) => DocModel::Sequence(docs_model(v@)),
            DocValue::Mapping(v) => DocModel::Mapping(entries_model(v@)),
        }
    }
}

/// The model of a sequence of trees is the sequence of their models.
pub broadcast proof fn lemma_docs_model(v: Seq<DocValue>)
    ensures
        (#[trigger] docs_model(v)).len() == v.len(),
        forall|i: int|
            #![trigger docs_model(v)[i]]
            #![trigger v[i].model()]
            0 <= i < v.len() ==> docs_model(v)[i] == v[i].model(),
    decreases v.len(),
{
    if v.len() > 0 {
        lemma_docs_model(v.drop_last());
    }
}

/// The model of an entry sequence is the sequence of entrywise models.
pub broadcast proof fn lemma_entries_model(v: Seq<(DocValue, DocValue)>)
    ensures
        (#[trigger] entries_model(v)).len() == v.len(),
        forall|i: int|
            #![trigger entries_model(v)[i]]
            #![trigger v[i].0.model()]
            #![trigger v[i].1.model()]
            0 <= i < v.len() ==> entries_model(v)[i] == (v[i].0.model(), v[i].1.model()),
    decreases v.len(),
{
    if v.len() > 0 {
        lemma_entries_model(v.drop_last());
    }
}

/// Whether two trees are structurally equal.
pub fn doc_eq(a: &DocValue, b: &DocValue) -> (r: bool)
    ensures
        r == (a.model() == b.model()),
    decreases *a,
{
    broadcast use lemma_docs_model, lemma_entries_model;

    match (a, b) {
        (DocValue::Null, DocValue::Null) => true,
        (DocValue::Bool(x), DocValue::Bool(y)) => *x == *y,
        (DocValue::Str(x), DocValue::Str(y)) => *x == *y,
        (DocValue::Num(x), DocValue::Num(y)) => *x == *y,
        (DocValue::Sequence(x), DocValue::Sequence(y)) => {
            if x.len() != y.len() {
                proof {
                    lemma_docs_model(x@);
                    lemma_docs_model(y@);
                    assert(a.model()->Sequence_0.len() != b.model()->Sequence_0.len());
                }
                return false;
            }
            let mut i: usize = 0;
            let mut same = true;
            while i < x.len()
                invariant
                    i <= x@.len(),
                    x@.len() == y@.len(),
                    *a == DocValue::Sequence(*x),
                    *b == DocValue::Sequence(*y),
                    same == (forall|j: int|
                        0 <= j < i ==> #[trigger] x@[j].model() == y@[j].model()),
                decreases x@.len() - i,
            {
                proof {
                    assert(*a == DocValue::Sequence(*x));
                    assert(decreases_to!(*a => a->Sequence_0));
                    assert(decreases_to!(*x => x@));
                    assert(decreases_to!(x@ => x@[i as int]));
                }
                if !doc_eq(&x[i], &y[i]) {
                    same = false;
                    proof {
                        assert(x@[i as int].model() != y@[i as int].model());
                    }
                    i = x.len();
                } else {
                    i = i + 1;
                }
            }
            proof {
                lemma_docs_model(x@);
                lemma_docs_model(y@);
                let am = a.model()->Sequence_0;
                let bm = b.model()->Sequence_0;
                if same {
                    assert forall|j: int| 0 <= j < am.len() implies am[j] == bm[j] by {
                        assert(x@[j].model() == y@[j].model());
                    }
                    assert(am =~= bm);
                } else {
                    let j = choose|j: int|
                        0 <= j < x@.len() && #[trigger] x@[j].model() != y@[j].model();
                    assert(am[j] != bm[j]);
                }
            }
            same
        },
        (DocValue::Mapping(x), DocValue::Mapping(y)) => {
            if x.len() != y.len() {
                proof {
                    lemma_entries_model(x@);
                    lemma_entries_model(y@);
                    assert(a.model()->Mapping_0.len() != b.model()->Mapping_0.len());
                }
                return false;
            }
            let mut i: usize = 0;
            let mut same = true;
            while i < x.len()
                invariant
                    i <= x@.len(),
                    x@.len() == y@.len(),
                    *a == DocValue::Mapping(*x),
                    *b == DocValue::Mapping(*y),
                    same == (forall|j: int|
                        0 <= j < i ==> #[trigger] x@[j].0.model() == y@[j].0.model() && x@[j].1.model()
                            == y@[j].1.model()),
                decreases x@.len() - i,
            {
                proof {
                    assert(*a == DocValue::Mapping(*x));
                    assert(decreases_to!(*a => a->Mapping_0));
                    assert(decreases_to!(*x => x@));
                    assert(decreases_to!(x@ => x@[i as int]));
                    assert(decreases_to!(x@[i as int] => x@[i as int].0));
                    assert(decreases_to!(x@[i as int] => x@[i as int].1));
                }
                if !doc_eq(&x[i].0, &y[i].0) || !doc_eq(&x[i].1, &y[i].1) {
                    same = false;
                    proof {
                        assert(x@[i as int].0.model() != y@[i as int].0.model() || x@[
                            i as int].1.model() != y@[i as int].1.model());
                    }
                    i = x.len();
                } else {
                    i = i + 1;
                }
            }
            proof {
                lemma_entries_model(x@);
                lemma_entries_model(y@);
                let am = a.model()->Mapping_0;
                let bm = b.model()->Mapping_0;
                if same {
                    assert forall|j: int| 0 <= j < am.len() implies am[j] == bm[j] by {
                        assert(x@[j].0.model() == y@[j].0.model());
                        assert(x@[j].1.model() == y@[j].1.model());
                    }
                    assert(am =~= bm);
                } else {
                    let j = choose|j: int|
                        0 <= j < x@.len() && !(#[trigger] x@[j].0.model() == y@[j].0.model() && x@[
                        j].1.model() == y@[j].1.model());
                    assert(am[j] != bm[j]);
                }
            }
            same
        },
        _ => {
            proof {
                assert(a.model() != b.model());
            }
            false
        },
    }
}

/// What `serde_yaml` parses the text into: `None` exactly when the text
/// is not well-formed; determined by the text alone.
pub uninterp spec fn yaml_doc_of(s: Seq<char>) -> Option<DocModel>;

/// What `serde_yaml` renders the tree as; determined by the tree alone.
pub uninterp spec fn yaml_text_of(d: DocModel) -> Seq<char>;

/// The serde_yaml value declared so the conversion helpers below may
/// name it in their signatures.
#[verifier::external_type_specification]
#[verifier::external_body]
pub struct ExYamlValue(serde_yaml::Value);

/// Converts a parsed `serde_yaml` value into the document tree: one arm
/// per scalar kind, numbers by their rendering, tags dropped, sequences
/// and mappings element by element.
#[verifier::external_body]
fn value_to_doc(v: &serde_yaml::Value) -> DocValue {
    match v {
        serde_yaml::Value::Null => DocValue::Null,
        serde_yaml::Value::Bool(b) => DocValue::Bool(*b),
        serde_yaml::Value::Number(n) => DocValue::Num(n.to_string()),
        serde_yaml::Value::String(s) => DocValue::Str(s.clone()),
        serde_yaml::Value::Sequence(xs) => DocValue::Sequence(xs.iter().map(value_to_doc).collect()),
        serde_yaml::Value::Mapping(m) => DocValue::Mapping(
            m.iter().map(|(k, val)| (value_to_doc(k), value_to_doc(val))).collect(),
        ),
        serde_yaml::Value::Tagged(t) => value_to_doc(&t.value),
    }
}

/// Converts the document tree back into a `serde_yaml` value, arm by
/// arm; a number rendering that no longer parses falls back to a
/// string.
#[verifier::external_body]
fn doc_to_value(d: &DocValue) -> serde_yaml::Value {
    match d {
        DocValue::Null => serde_yaml::Value::Null,
        DocValue::Bool(b) => serde_yaml::Value::Bool(*b),
        DocValue::Str(s) => serde_yaml::Value::String(s.clone()),
        DocValue::Num(s) => match s.parse::<serde_yaml::Number>() {
            Ok(n) => serde_yaml::Value::Number(n),
            Err(_) => serde_yaml::Value::String(s.clone()),
        },
        DocValue::Sequence(xs) => serde_yaml::Value::Sequence(xs.iter().map(doc_to_value).collect()),
        DocValue::Mapping(m) => serde_yaml::Value::Mapping(
            m.iter().map(|(k, v)| (doc_to_value(k), doc_to_value(v))).collect(),
        ),
    }
}

/// Relies on `serde_yaml::from_str::<Value>`: parses YAML (or JSON)
/// text into a tree of mappings, sequences and scalars, or fails on
/// malformed text; the outcome depends on the text alone.
#[verifier::external_body]
pub fn parse_yaml(text: &str) -> (r: Option<DocValue>)
    ensures
        match r {
            Some(d) => yaml_doc_of(text@) == Some(d.model()),
            None => yaml_doc_of(text@) is None,
        },
{
    match serde_yaml::from_str::<serde_yaml::Value>(text) {
        Ok(v) => Some(value_to_doc(&v)),
        Err(_) => None,
    }
}

/// Relies on `serde_yaml::to_string`: renders the tree as YAML text;
/// the rendering depends on the tree alone.  `None` on the rare
/// serializer failure.
#[verifier::external_body]
pub fn emit_yaml(d: &DocValue) -> (r: Option<String>)
    ensures
        match r {
            Some(s) => s@ == yaml_text_of(d.model()),
            None => true,
        },
{
    match serde_yaml::to_string(&doc_to_value(d)) {
        Ok(s) => Some(s),
        Err(_) => None,
    }
}

} // verus!
