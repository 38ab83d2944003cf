//! The Deep Merger: unions parsed documents into exactly one root
//! document.
use vstd::prelude::*;
use crate::error::Error;
use crate::scanner::{Snippet, snippets_model, SnippetModel};
use crate::text::{
    chars_vec, dec_str, join_lines, join_with_nl, push_all, split_lines, split_lines_spec,
    string_of, usize_dec,
};
use crate::value::{
    doc_eq, docs_model, DocModel, DocValue, entries_model, lemma_docs_model, lemma_entries_model,
    parse_yaml, yaml_doc_of,
};

verus! {

broadcast use vstd::std_specs::vec::group_vec_axioms;

// ----------------------------------------------------------------------
// The merge rules, as functions of document models.

/// The first position at or after `i` whose key equals `k`.
pub open spec fn find_key(es: Seq<(DocModel, DocModel)>, k: DocModel, i: int) -> Option<int>
    decreases es.len() - i,
{
    if i < 0 || i >= es.len() {
        None
    } else if es[i].0 == k {
        Some(i)
    } else {
        find_key(es, k, i + 1)
    }
}

pub proof fn lemma_find_key_skip(es: Seq<(DocModel, DocModel)>, k: DocModel, i: int, upto: int)
    requires
        0 <= i <= upto <= es.len(),
        forall|j: int| i <= j < upto ==> (#[trigger] es[j]).0 != k,
    ensures
        find_key(es, k, i) == find_key(es, k, upto),
    decreases upto - i,
{
    if i < upto {
        lemma_find_key_skip(es, k, i + 1, upto);
    }
}

pub proof fn lemma_find_key_props(es: Seq<(DocModel, DocModel)>, k: DocModel, i: int, r: int)
    requires
        0 <= i,
        find_key(es, k, i) == Some(r),
    ensures
        i <= r < es.len(),
        es[r].0 == k,
    decreases es.len() - i,
{
    if i < es.len() && es[i].0 != k {
        lemma_find_key_props(es, k, i + 1, r);
    }
}

/// Whether the document is the root: a mapping with both an `openapi`
/// and an `info` key.
pub open spec fn is_root_spec(d: DocModel) -> bool {
    d is Mapping && find_key(d->Mapping_0, DocModel::Str("openapi"@), 0) is Some && find_key(
        d->Mapping_0,
        DocModel::Str("info"@),
        0,
    ) is Some
}

/// The auxiliary measure that orders the merge recursion: one more than
/// the entry count of a mapping.
pub open spec fn merge_measure(s: DocModel) -> int {
    match s {
        DocModel::Mapping(b) => b.len() as int + 1,
        _ => 0,
    }
}

/// Concatenation deduplicated by structural equality, first occurrence
/// kept, order preserved.
pub open spec fn dedup_spec(s: Seq<DocModel>) -> Seq<DocModel>
    decreases s.len(),
{
    if s.len() == 0 {
        Seq::empty()
    } else {
        let pre = dedup_spec(s.drop_last());
        if pre.contains(s.last()) {
            pre
        } else {
            pre.push(s.last())
        }
    }
}

/// The deep merge of `s` into `t`: mappings merge per key, sequences
/// concatenate and deduplicate, anything else is overwritten by `s`.
pub open spec fn merge_spec(t: DocModel, s: DocModel) -> DocModel
    decreases s, merge_measure(s),
{
    if t is Mapping && s is Mapping {
        DocModel::Mapping(merge_entries(t->Mapping_0, s, 0))
    } else if t is Sequence && s is Sequence {
        DocModel::Sequence(dedup_spec(t->Sequence_0 + s->Sequence_0))
    } else {
        s
    }
}

/// Merging the entries of the mapping `s` into the entry list `a`, from
/// entry `j` on: a known key merges values in place, a new key is
/// appended.
pub open spec fn merge_entries(
    a: Seq<(DocModel, DocModel)>,
    s: DocModel,
    j: int,
) -> Seq<(DocModel, DocModel)>
    decreases s, merge_measure(s) - 1 - j,
    via merge_entries_dec
{
    if !(s is Mapping) {
        a
    } else {
        let b = s->Mapping_0;
        if j < 0 || j >= b.len() {
            a
        } else {
            let k = b[j].0;
            let v = b[j].1;
            let a2 = match find_key(a, k, 0) {
                Some(idx) => a.update(idx, (a[idx].0, merge_spec(a[idx].1, v))),
                None => a.push((k, v)),
            };
            merge_entries(a2, s, j + 1)
        }
    }
}

#[via_fn]
proof fn merge_entries_dec(a: Seq<(DocModel, DocModel)>, s: DocModel, j: int) {
    if s is Mapping {
        let b = s->Mapping_0;
        if 0 <= j < b.len() {
            assert(decreases_to!(s => s->Mapping_0));
            assert(decreases_to!(s->Mapping_0 => s->Mapping_0[j]));
            assert(decreases_to!(s->Mapping_0[j] => s->Mapping_0[j].1));
        }
    }
}

// ----------------------------------------------------------------------
// Executable merging.

/// Whether the parsed document is the root document.
pub fn is_root(value: &DocValue) -> (r: bool)
    ensures
        r == is_root_spec(value.model()),
{
    match value {
        DocValue::Mapping(es) => {
            let oa = chars_vec("openapi");
            let inf = chars_vec("info");
            let has_oa = mapping_has_str_key(es, &oa);
            let has_inf = mapping_has_str_key(es, &inf);
            proof {
                assert(value.model()->Mapping_0 == entries_model(es@));
            }
            has_oa && has_inf
        },
        _ => false,
    }
}

/// Whether an entry list has the given string as a key.
fn mapping_has_str_key(es: &Vec<(DocValue, DocValue)>, key: &Vec<char>) -> (r: bool)
    ensures
        r == (find_key(entries_model(es@), DocModel::Str(key@), 0) is Some),
{
    let ghost km = DocModel::Str(key@);
    let ghost em = entries_model(es@);
    proof {
        lemma_entries_model(es@);
    }
    let n = es.len();
    let mut i: usize = 0;
    while i < n
        invariant
            i <= n,
            n == es@.len(),
            em == entries_model(es@),
            km == DocModel::Str(key@),
            em.len() == n,
            forall|j: int| 0 <= j < n ==> #[trigger] em[j] == (es@[j].0.model(), es@[j].1.model()),
            forall|j: int| 0 <= j < i ==> (#[trigger] em[j]).0 != km,
        decreases n - i,
    {
        match &es[i].0 {
            DocValue::Str(s) => {
                let sv = chars_vec(s.as_str());
                if crate::text::eq_chars(&sv, key) {
                    proof {
                        assert(es@[i as int].0 == DocValue::Str(*s));
                        assert(sv@ == key@);
                        assert(em[i as int].0 == km);
                        lemma_find_key_skip(em, km, 0, i as int);
                    }
                    return true;
                }
                proof {
                    assert(em[i as int].0 == DocModel::Str(s@));
                    assert(em[i as int].0 != km);
                }
            },
            _ => {
                proof {
                    assert(em[i as int].0 != km);
                }
            },
        }
        i = i + 1;
    }
    proof {
        lemma_find_key_skip(em, km, 0, n as int);
    }
    false
}

/// Recursive deep merge: mappings merge per key, sequences concatenate
/// and deduplicate preserving first occurrences, any other pairing is
/// overwritten by the source.
#[verifier::loop_isolation(false)]
pub fn deep_merge(target: DocValue, source: DocValue) -> (r: DocValue)
    ensures
        r.model() == merge_spec(target.model(), source.model()),
    decreases source,
{
    let ghost t0 = target.model();
    let ghost s0 = source.model();
    let ghost src_snapshot = source;
    match (target, source) {
        (DocValue::Mapping(a0), DocValue::Mapping(b0)) => {
            let ghost b_orig = b0;
            let mut a = a0;
            let mut b = b0;
            let ghost bm = s0->Mapping_0;
            proof {
                lemma_entries_model(b_orig@);
                assert(src_snapshot->Mapping_0 == b_orig);
                assert(bm == entries_model(b_orig@));
                assert(b@ =~= b_orig@.skip(0));
            }
            let mut j: usize = 0;
            let total = b.len();
            while b.len() > 0
                invariant
                    total == b_orig@.len(),
                    j + b@.len() == b_orig@.len(),
                    b@ == b_orig@.skip(j as int),
                    s0 is Mapping,
                    bm == s0->Mapping_0,
                    bm == entries_model(b_orig@),
                    bm.len() == b_orig@.len(),
                    src_snapshot is Mapping,
                    src_snapshot->Mapping_0 == b_orig,
                    src_snapshot.model() == s0,
                    merge_entries(t0->Mapping_0, s0, 0) == merge_entries(
                        entries_model(a@),
                        s0,
                        j as int,
                    ),
                decreases b@.len(),
            {
                let kv = b.remove(0);
                let k = kv.0;
                let v = kv.1;
                proof {
                    assert(kv == b_orig@[j as int]);
                    assert(b@ =~= b_orig@.skip(j + 1));
                    lemma_entries_model(b_orig@);
                    assert(bm[j as int] == (b_orig@[j as int].0.model(), b_orig@[
                        j as int].1.model()));
                }
                let ghost am = entries_model(a@);
                let ghost km = k.model();
                proof {
                    lemma_entries_model(a@);
                    assert(km == bm[j as int].0);
                }
                let mut idx: usize = 0;
                let mut found = false;
                let alen = a.len();
                while idx < alen && !found
                    invariant
                        idx <= alen,
                        alen == a@.len(),
                        am == entries_model(a@),
                        am.len() == alen,
                        km == k.model(),
                        forall|q: int|
                            0 <= q < alen ==> #[trigger] am[q] == (
                            a@[q].0.model(),
                            a@[q].1.model(),
                        ),
                        !found ==> forall|q: int| 0 <= q < idx ==> (#[trigger] am[q]).0 != km,
                        found ==> idx < alen && am[idx as int].0 == km && (forall|q: int|
                            0 <= q < idx ==> (#[trigger] am[q]).0 != km),
                    decreases alen - idx + (if found { 0int } else { 1int }),
                {
                    if doc_eq(&a[idx].0, &k) {
                        found = true;
                        proof {
                            assert(am[idx as int].0 == km);
                        }
                    } else {
                        proof {
                            assert(am[idx as int].0 != km);
                        }
                        idx = idx + 1;
                    }
                }
                if found {
                    proof {
                        lemma_find_key_skip(am, km, 0, idx as int);
                        assert(find_key(am, km, 0) == Some(idx as int));
                    }
                    let pair = a.remove(idx);
                    proof {
                        assert(decreases_to!(src_snapshot => src_snapshot->Mapping_0));
                        assert(decreases_to!(b_orig => b_orig@));
                        assert(decreases_to!(b_orig@ => b_orig@[j as int]));
                        assert(decreases_to!(b_orig@[j as int] => b_orig@[j as int].1));
                        assert(v == b_orig@[j as int].1);
                    }
                    let merged = deep_merge(pair.1, v);
                    a.insert(idx, (pair.0, merged));
                    proof {
                        lemma_entries_model(a@);
                        assert(entries_model(a@) =~= am.update(
                            idx as int,
                            (am[idx as int].0, merge_spec(am[idx as int].1, bm[j as int].1)),
                        ));
                    }
                } else {
                    proof {
                        lemma_find_key_skip(am, km, 0, alen as int);
                        assert(find_key(am, km, 0) is None);
                    }
                    a.push((k, v));
                    proof {
                        lemma_entries_model(a@);
                        assert(entries_model(a@) =~= am.push((bm[j as int].0, bm[j as int].1)));
                    }
                }
                j = j + 1;
            }
            proof {
                assert(merge_entries(entries_model(a@), s0, j as int) == entries_model(a@));
                assert(merge_spec(t0, s0) == DocModel::Mapping(
                    merge_entries(t0->Mapping_0, s0, 0),
                ));
            }
            DocValue::Mapping(a)
        },
        (DocValue::Sequence(x0), DocValue::Sequence(y0)) => {
            // Concatenate, then deduplicate preserving first occurrences.
            let ghost slen = s0->Sequence_0.len();
            let mut all = x0;
            let mut y = y0;
            proof {
                lemma_docs_model(all@);
                lemma_docs_model(y@);
                assert(s0->Sequence_0.take(0) =~= Seq::<DocModel>::empty());
                assert(docs_model(all@) =~= t0->Sequence_0 + s0->Sequence_0.take(0));
                assert(docs_model(y@) =~= s0->Sequence_0.skip(0));
            }
            while y.len() > 0
                invariant
                    s0 is Sequence,
                    t0 is Sequence,
                    slen == s0->Sequence_0.len(),
                    y@.len() <= slen,
                    docs_model(all@) == t0->Sequence_0 + s0->Sequence_0.take(
                        slen - y@.len(),
                    ),
                    docs_model(y@) == s0->Sequence_0.skip(slen - y@.len()),
                decreases y@.len(),
            {
                let ghost all_before = all@;
                let ghost y_before = y@;
                let e = y.remove(0);
                all.push(e);
                proof {
                    lemma_docs_model(all_before);
                    lemma_docs_model(y_before);
                    lemma_docs_model(all@);
                    lemma_docs_model(y@);
                    assert(y@ =~= y_before.skip(1));
                    assert(e.model() == docs_model(y_before)[0]);
                    assert(docs_model(all@) =~= docs_model(all_before).push(e.model()));
                    assert(docs_model(all@) =~= t0->Sequence_0 + s0->Sequence_0.take(
                        slen - y@.len(),
                    ));
                    assert(docs_model(y@) =~= s0->Sequence_0.skip(slen - y@.len()));
                }
            }
            let ghost cat = t0->Sequence_0 + s0->Sequence_0;
            proof {
                assert(docs_model(all@) =~= cat);
            }
            // Deduplicate.
            let mut out: Vec<DocValue> = Vec::new();
            let mut k: usize = 0;
            let total = all.len();
            proof {
                lemma_docs_model(all@);
                lemma_docs_model(out@);
                assert(cat.take(0) =~= Seq::<DocModel>::empty());
                assert(docs_model(all@) =~= cat.skip(0));
            }
            while all.len() > 0
                invariant
                    k + all@.len() == total,
                    total == cat.len(),
                    docs_model(all@) == cat.skip(k as int),
                    docs_model(out@) == dedup_spec(cat.take(k as int)),
                decreases all@.len(),
            {
                let ghost all_before = all@;
                proof {
                    lemma_docs_model(all_before);
                }
                let e = all.remove(0);
                proof {
                    lemma_docs_model(all@);
                    assert(all@ =~= all_before.skip(1));
                    assert(docs_model(all@) =~= cat.skip(k + 1));
                    assert(e.model() == cat[k as int]);
                }
                // Is e already in out?
                let mut seen = false;
                let mut q: usize = 0;
                let olen = out.len();
                proof {
                    lemma_docs_model(out@);
                }
                while q < olen
                    invariant
                        q <= olen,
                        olen == out@.len(),
                        forall|p: int|
                            0 <= p < olen ==> #[trigger] docs_model(out@)[p] == out@[p].model(),
                        docs_model(out@).len() == olen,
                        seen ==> exists|p: int|
                            0 <= p < olen && #[trigger] docs_model(out@)[p] == e.model(),
                        !seen ==> forall|p: int|
                            0 <= p < q ==> #[trigger] docs_model(out@)[p] != e.model(),
                    decreases olen - q,
                {
                    if doc_eq(&out[q], &e) {
                        proof {
                            assert(docs_model(out@)[q as int] == e.model());
                        }
                        seen = true;
                        break ;
                    }
                    q = q + 1;
                }
                proof {
                    if seen {
                        assert(docs_model(out@).contains(e.model()));
                    } else {
                        if docs_model(out@).contains(e.model()) {
                            let p = choose|p: int|
                                0 <= p < docs_model(out@).len() && docs_model(out@)[p]
                                    == e.model();
                            assert(false);
                        }
                    }
                }
                if !seen {
                    let ghost out_before = out@;
                    out.push(e);
                    proof {
                        lemma_docs_model(out_before);
                        lemma_docs_model(out@);
                        assert(docs_model(out@) =~= docs_model(out_before).push(cat[k as int]));
                    }
                }
                k = k + 1;
                proof {
                    assert(cat.take(k as int).drop_last() =~= cat.take(k - 1));
                    assert(cat.take(k as int).last() == cat[k - 1]);
                }
            }
            proof {
                assert(cat.take(k as int) =~= cat);
                assert(merge_spec(t0, s0) == DocModel::Sequence(dedup_spec(cat)));
                lemma_docs_model(out@);
            }
            DocValue::Sequence(out)
        },
        (_, other) => {
            proof {
                assert(merge_spec(t0, s0) == s0);
            }
            other
        },
    }
}


// ----------------------------------------------------------------------
// Merging all snippets into one root document.

/// A line of the excerpt shown for a snippet that fails to parse: four
/// spaces, the 1-based absolute line number (zero-padded to two
/// digits), a separator, and the line itself.
pub open spec fn ctx_line(n: int, l: Seq<char>) -> Seq<char> {
    "    "@ + (if n < 10 {
        seq!['0'] + dec_str(n)
    } else {
        dec_str(n)
    }) + " | "@ + l
}

/// The numbered excerpt lines from `k` up to `m`.
pub open spec fn ctx_lines(ls: Seq<Seq<char>>, line: int, k: int, m: int) -> Seq<Seq<char>>
    decreases m - k,
{
    if k < 0 || k >= m {
        Seq::empty()
    } else {
        seq![ctx_line(line + k, ls[k])] + ctx_lines(ls, line, k + 1, m)
    }
}

/// The excerpt for a snippet that fails to parse: its first five lines,
/// each prefixed with its absolute line number.
pub open spec fn context_spec(content: Seq<char>, line: int) -> Seq<char> {
    let ls = split_lines_spec(content);
    let m: int = if ls.len() < 5 {
        ls.len() as int
    } else {
        5
    };
    join_lines(ctx_lines(ls, line, 0, m))
}

/// Builds the parse-failure excerpt.
fn format_context(content: &Vec<char>, line: usize) -> (r: Vec<char>)
    requires
        line + 5 <= usize::MAX,
    ensures
        r@ == context_spec(content@, line as int),
{
    let ghost ls_spec = split_lines_spec(content@);
    let ls = split_lines(content);
    let m = if ls.len() < 5 {
        ls.len()
    } else {
        5
    };
    let ghost target = ctx_lines(ls_spec, line as int, 0, m as int);
    let mut out: Vec<Vec<char>> = Vec::new();
    let mut k: usize = 0;
    while k < m
        invariant
            k <= m,
            m <= ls@.len(),
            m <= 5,
            line + 5 <= usize::MAX,
            crate::text::seq_views(ls@) == ls_spec,
            ls@.len() == ls_spec.len(),
            target == ctx_lines(ls_spec, line as int, 0, m as int),
            target == crate::text::seq_views(out@) + ctx_lines(ls_spec, line as int, k as int, m as int),
        decreases m - k,
    {
        let mut piece = chars_vec("    ");
        let n = line + k;
        if n < 10 {
            piece.push('0');
        }
        let num = usize_dec(n);
        push_all(&mut piece, &num);
        let sep = chars_vec(" | ");
        push_all(&mut piece, &sep);
        push_all(&mut piece, &ls[k]);
        proof {
            assert(crate::text::seq_views(ls@)[k as int] == ls@[k as int]@);
            assert(piece@ =~= ctx_line(line + k, ls_spec[k as int]));
        }
        let ghost out_before = out@;
        let ghost pv = piece@;
        let ghost tail = ctx_lines(ls_spec, line as int, k + 1, m as int);
        out.push(piece);
        proof {
            assert forall|p: int| 0 <= p < out@.len() implies #[trigger] crate::text::seq_views(
                out@,
            )[p] == (crate::text::seq_views(out_before) + seq![pv])[p] by {
                if p < out_before.len() {
                    assert(out@[p] == out_before[p]);
                    assert(crate::text::seq_views(out_before)[p] == out_before[p]@);
                } else {
                    assert(out@[p]@ == pv);
                }
            }
            assert(crate::text::seq_views(out@) =~= crate::text::seq_views(out_before) + seq![pv]);
            assert((crate::text::seq_views(out_before) + seq![pv]) + tail =~= crate::text::seq_views(
                out_before,
            ) + (seq![pv] + tail));
        }
        k = k + 1;
    }
    proof {
        assert(target =~= crate::text::seq_views(out@) + Seq::<Seq<char>>::empty());
        assert(target =~= crate::text::seq_views(out@));
    }
    join_with_nl(&out)
}

/// What merging a snippet list comes to.
pub enum MergeOutcome {
    /// Every snippet parsed and exactly one was the root: the merged
    /// document.
    Merged(DocModel),
    /// A snippet failed to parse: its file, starting line, and excerpt.
    BadSnippet(Seq<char>, int, Seq<char>),
    /// A second root document was found.
    ManyRoots,
    /// No root document was found.
    NoRoot,
}

/// Folding the non-root documents into the root, in order.
pub open spec fn fold_others(root: DocModel, others: Seq<DocModel>, j: int) -> DocModel
    decreases others.len() - j,
{
    if j < 0 || j >= others.len() {
        root
    } else {
        fold_others(merge_spec(root, others[j]), others, j + 1)
    }
}

/// The scan over snippets: parse each in order; the first parse failure
/// aborts; a second root aborts; at the end the root (if any) absorbs
/// the others.
pub open spec fn scan_spec(
    snips: Seq<SnippetModel>,
    i: int,
    root: Option<DocModel>,
    others: Seq<DocModel>,
) -> MergeOutcome
    decreases snips.len() - i,
{
    if i < 0 || i >= snips.len() {
        match root {
            Option::None => MergeOutcome::NoRoot,
            Option::Some(r) => MergeOutcome::Merged(fold_others(r, others, 0)),
        }
    } else {
        match yaml_doc_of(snips[i].content) {
            Option::None => MergeOutcome::BadSnippet(
                snips[i].file_path,
                snips[i].line_number,
                context_spec(snips[i].content, snips[i].line_number),
            ),
            Option::Some(d) => {
                if is_root_spec(d) {
                    if root is Some {
                        MergeOutcome::ManyRoots
                    } else {
                        scan_spec(snips, i + 1, Some(d), others)
                    }
                } else {
                    scan_spec(snips, i + 1, root, others.push(d))
                }
            },
        }
    }
}

/// What merging the given snippets must come to.
pub open spec fn merge_outcome_spec(snips: Seq<SnippetModel>) -> MergeOutcome {
    scan_spec(snips, 0, None, Seq::empty())
}

/// The model of an optional document.
pub open spec fn opt_model(o: Option<DocValue>) -> Option<DocModel> {
    match o {
        Option::None => None,
        Option::Some(v) => Some(v.model()),
    }
}

/// Merges every snippet into the single root document.  Each snippet is
/// parsed as a tree value; a parse failure aborts the merge with the
/// snippet's source position and an excerpt.  Exactly one snippet must
/// be the root (a mapping with `openapi` and `info` keys): none at all
/// is `NoRootFound`, a second one is `MultipleRootsFound`.  All other
/// documents merge into the root in snippet order.
#[verifier::loop_isolation(false)]
pub fn merge_openapi(snippets: Vec<Snippet>) -> (r: Result<DocValue, Error>)
    requires
        forall|i: int|
            0 <= i < snippets@.len() ==> (#[trigger] snippets@[i]).line_number + 5 <= usize::MAX,
    ensures
        ({
            let outcome = merge_outcome_spec(snippets_model(snippets@));
            match r {
                Ok(v) => outcome == MergeOutcome::Merged(v.model()),
                Err(e) => match e {
                    Error::SourceMapped { file, line, context } => outcome
                        == MergeOutcome::BadSnippet(file@, line as int, context@),
                    Error::MultipleRootsFound => outcome == MergeOutcome::ManyRoots,
                    Error::NoRootFound => outcome == MergeOutcome::NoRoot,
                    Error::NoFilesFound => false,
                },
            }
        }),
{
    let ghost sm = snippets_model(snippets@);
    let ghost all = snippets@;
    proof {
        assert(sm.len() == snippets@.len());
    }
    let mut rest = snippets;
    let total = rest.len();
    let mut root: Option<DocValue> = None;
    let mut others: Vec<DocValue> = Vec::new();
    let mut i: usize = 0;
    proof {
        assert(all.len() == total);
    }
    while rest.len() > 0
        invariant
            i + rest@.len() == all.len(),
            rest@ == all.skip(i as int),
            merge_outcome_spec(sm) == scan_spec(sm, i as int, opt_model(root), docs_model(others@)),
        decreases rest@.len(),
    {
        let ghost rest_before = rest@;
        let snippet = rest.remove(0);
        proof {
            assert(rest@ =~= all.skip(i + 1));
            assert(snippet == all[i as int]);
            assert(sm[i as int] == snippet@);
        }
        let parsed = parse_yaml(snippet.content.as_str());
        match parsed {
            Option::None => {
                let cv = chars_vec(snippet.content.as_str());
                let context = format_context(&cv, snippet.line_number);
                return Err(
                    Error::SourceMapped {
                        file: snippet.file_path,
                        line: snippet.line_number,
                        context: string_of(&context),
                    },
                );
            },
            Option::Some(value) => {
                if is_root(&value) {
                    if root.is_some() {
                        return Err(Error::MultipleRootsFound);
                    }
                    root = Some(value);
                } else {
                    let ghost others_before = others@;
                    others.push(value);
                    proof {
                        lemma_docs_model(others_before);
                        lemma_docs_model(others@);
                        assert(docs_model(others@) =~= docs_model(others_before).push(
                            value.model(),
                        ));
                    }
                }
            },
        }
        i = i + 1;
    }
    let root_value = match root {
        Option::None => {
            return Err(Error::NoRootFound);
        },
        Option::Some(v) => v,
    };
    // Fold the other documents into the root, in order.
    let ghost root0 = root_value.model();
    let ghost others_m = docs_model(others@);
    let mut acc = root_value;
    let mut rest_others = others;
    let ocount = rest_others.len();
    let mut j: usize = 0;
    proof {
        lemma_docs_model(rest_others@);
        assert(others_m.len() == ocount);
    }
    while rest_others.len() > 0
        invariant
            j + rest_others@.len() == others_m.len(),
            docs_model(rest_others@) == others_m.skip(j as int),
            fold_others(root0, others_m, 0) == fold_others(acc.model(), others_m, j as int),
        decreases rest_others@.len(),
    {
        let ghost ro_before = rest_others@;
        let next = rest_others.remove(0);
        proof {
            lemma_docs_model(ro_before);
            lemma_docs_model(rest_others@);
            assert(rest_others@ =~= ro_before.skip(1));
            assert(docs_model(rest_others@) =~= others_m.skip(j + 1));
            assert(next.model() == others_m[j as int]);
        }
        acc = deep_merge(acc, next);
        j = j + 1;
    }
    Ok(acc)
}

// ----------------------------------------------------------------------
// The root law.

/// How many snippets parse as root documents.
pub open spec fn root_count(snips: Seq<SnippetModel>, i: int) -> int
    decreases snips.len() - i,
{
    if i < 0 || i >= snips.len() {
        0
    } else {
        (match yaml_doc_of(snips[i].content) {
            Option::Some(d) => if is_root_spec(d) {
                1int
            } else {
                0int
            },
            Option::None => 0int,
        }) + root_count(snips, i + 1)
    }
}

proof fn lemma_root_count_nonneg(snips: Seq<SnippetModel>, i: int)
    ensures
        root_count(snips, i) >= 0,
    decreases snips.len() - i,
{
    if 0 <= i < snips.len() {
        lemma_root_count_nonneg(snips, i + 1);
    }
}

proof fn lemma_scan_by_count(
    snips: Seq<SnippetModel>,
    i: int,
    root: Option<DocModel>,
    others: Seq<DocModel>,
)
    requires
        0 <= i,
        forall|j: int| i <= j < snips.len() ==> yaml_doc_of((#[trigger] snips[j]).content) is Some,
    ensures
        scan_spec(snips, i, root, others) is NoRoot <==> (root is None && root_count(snips, i)
            == 0),
        scan_spec(snips, i, root, others) is ManyRoots <==> (root is Some && root_count(snips, i)
            >= 1) || root_count(snips, i) >= 2,
        scan_spec(snips, i, root, others) is Merged <==> (root is Some && root_count(snips, i)
            == 0) || (root is None && root_count(snips, i) == 1),
    decreases snips.len() - i,
{
    lemma_root_count_nonneg(snips, i);
    if i < snips.len() {
        lemma_root_count_nonneg(snips, i + 1);
        match yaml_doc_of(snips[i].content) {
            Option::None => {},
            Option::Some(d) => {
                if is_root_spec(d) {
                    if root is Some {
                    } else {
                        lemma_scan_by_count(snips, i + 1, Some(d), others);
                    }
                } else {
                    lemma_scan_by_count(snips, i + 1, root, others.push(d));
                }
            },
        }
    }
}

/// The root law: when every snippet parses, the merge succeeds exactly
/// when one snippet is a root document; none at all leaves the outcome
/// `NoRoot`, and more than one leaves it `ManyRoots`.
pub proof fn lemma_merge_root_law(snips: Seq<SnippetModel>)
    requires
        forall|j: int| 0 <= j < snips.len() ==> yaml_doc_of((#[trigger] snips[j]).content) is Some,
    ensures
        merge_outcome_spec(snips) is Merged <==> root_count(snips, 0) == 1,
        merge_outcome_spec(snips) is NoRoot <==> root_count(snips, 0) == 0,
        merge_outcome_spec(snips) is ManyRoots <==> root_count(snips, 0) >= 2,
{
    lemma_scan_by_count(snips, 0, None, Seq::empty());
}


// ----------------------------------------------------------------------
// The merge laws for sequences and mappings.

/// Deduplication keeps exactly the members of its input, keeps no
/// duplicates, and keeps only elements of the input in their first-seen
/// relative order (every kept element occurs in the input, and the kept
/// list is a subsequence of the input read left to right).
pub proof fn lemma_dedup_law(s: Seq<DocModel>)
    ensures
        forall|x: DocModel| dedup_spec(s).contains(x) <==> s.contains(x),
        forall|p: int, q: int|
            0 <= p < q < dedup_spec(s).len() ==> dedup_spec(s)[p] != dedup_spec(s)[q],
    decreases s.len(),
{
    if s.len() == 0 {
        assert(dedup_spec(s) =~= s);
    } else {
        let d = dedup_spec(s);
        let pre = dedup_spec(s.drop_last());
        lemma_dedup_law(s.drop_last());
        assert forall|x: DocModel| dedup_spec(s).contains(x) implies s.contains(x) by {
            let i = choose|i: int| 0 <= i < d.len() && d[i] == x;
            if i < pre.len() {
                assert(pre[i] == x);
                assert(pre.contains(x));
                assert(s.drop_last().contains(x));
                let q = choose|q: int| 0 <= q < s.drop_last().len() && s.drop_last()[q] == x;
                assert(s[q] == x);
            } else {
                assert(x == s.last());
                assert(s[s.len() - 1] == x);
            }
        }
        assert forall|x: DocModel| s.contains(x) implies dedup_spec(s).contains(x) by {
            let i = choose|i: int| 0 <= i < s.len() && s[i] == x;
            if i < s.len() - 1 {
                assert(s.drop_last()[i] == x);
                assert(s.drop_last().contains(x));
                assert(pre.contains(x));
                let j = choose|j: int| 0 <= j < pre.len() && pre[j] == x;
                assert(d[j] == x);
            } else {
                if pre.contains(s.last()) {
                    let j = choose|j: int| 0 <= j < pre.len() && pre[j] == s.last();
                    assert(d[j] == x);
                } else {
                    assert(d[d.len() - 1] == x);
                }
            }
        }
        if !pre.contains(s.last()) {
            assert forall|p: int, q: int|
                0 <= p < q < dedup_spec(s).len() implies dedup_spec(s)[p] != dedup_spec(
                s,
            )[q] by {
                if q < pre.len() {
                } else {
                    assert(dedup_spec(s)[q] == s.last());
                    assert(dedup_spec(s)[p] == pre[p]);
                    assert(pre.contains(pre[p]));
                }
            }
        }
    }
}

/// The sequence law: merging two sequences concatenates them and
/// deduplicates by structural equality, preserving first occurrences.
pub proof fn lemma_merge_sequence_law(a: Seq<DocModel>, b: Seq<DocModel>)
    ensures
        merge_spec(DocModel::Sequence(a), DocModel::Sequence(b)) == DocModel::Sequence(
            dedup_spec(a + b),
        ),
        forall|x: DocModel| dedup_spec(a + b).contains(x) <==> (a + b).contains(x),
        forall|p: int, q: int|
            0 <= p < q < dedup_spec(a + b).len() ==> dedup_spec(a + b)[p] != dedup_spec(a + b)[q],
{
    lemma_dedup_law(a + b);
}

/// The value under a key, where the first entry of that key decides.
pub open spec fn map_lookup(es: Seq<(DocModel, DocModel)>, k: DocModel) -> Option<DocModel> {
    match find_key(es, k, 0) {
        Option::Some(i) => Some(es[i].1),
        Option::None => None,
    }
}

proof fn lemma_find_key_same_keys(
    es1: Seq<(DocModel, DocModel)>,
    es2: Seq<(DocModel, DocModel)>,
    k: DocModel,
    i: int,
)
    requires
        es1.len() == es2.len(),
        forall|q: int| 0 <= q < es1.len() ==> (#[trigger] es1[q]).0 == es2[q].0,
    ensures
        find_key(es1, k, i) == find_key(es2, k, i),
    decreases es1.len() - i,
{
    if 0 <= i < es1.len() {
        lemma_find_key_same_keys(es1, es2, k, i + 1);
    }
}

proof fn lemma_find_key_push(
    es: Seq<(DocModel, DocModel)>,
    e: (DocModel, DocModel),
    k: DocModel,
    i: int,
)
    requires
        0 <= i <= es.len(),
    ensures
        find_key(es.push(e), k, i) == match find_key(es, k, i) {
            Option::Some(x) => Some(x),
            Option::None => if e.0 == k {
                Some(es.len() as int)
            } else {
                None
            },
        },
    decreases es.len() - i,
{
    let esp = es.push(e);
    if i < es.len() {
        assert(esp[i] == es[i]);
        lemma_find_key_push(es, e, k, i + 1);
    } else {
        assert(esp[i] == e);
        if e.0 != k {
            assert(find_key(esp, k, i + 1) is None);
        }
    }
}

/// What one key holds after merging the entries of `s` from `j` on into
/// `a`, provided the key occurs at most once among those entries.
proof fn lemma_merge_entries_lookup(
    a: Seq<(DocModel, DocModel)>,
    s: DocModel,
    j: int,
    k: DocModel,
)
    requires
        s is Mapping,
        0 <= j,
        forall|p: int, q: int|
            j <= p < q < s->Mapping_0.len() ==> !((#[trigger] s->Mapping_0[p]).0 == k && (
            #[trigger] s->Mapping_0[q]).0 == k),
    ensures
        map_lookup(merge_entries(a, s, j), k) == match find_key(s->Mapping_0, k, j) {
            Option::None => map_lookup(a, k),
            Option::Some(p) => match map_lookup(a, k) {
                Option::Some(x) => Some(merge_spec(x, s->Mapping_0[p].1)),
                Option::None => Some(s->Mapping_0[p].1),
            },
        },
    decreases s->Mapping_0.len() - j,
{
    let b = s->Mapping_0;
    if j >= b.len() {
    } else {
        let k0 = b[j].0;
        let v0 = b[j].1;
        let a2 = match find_key(a, k0, 0) {
            Option::Some(idx) => a.update(idx, (a[idx].0, merge_spec(a[idx].1, v0))),
            Option::None => a.push((k0, v0)),
        };
        lemma_merge_entries_lookup(a2, s, j + 1, k);
        match find_key(a, k0, 0) {
            Option::Some(idx) => {
                lemma_find_key_props(a, k0, 0, idx);
                assert forall|q: int| 0 <= q < a.len() implies (#[trigger] a[q]).0 == a2[q].0 by {}
                lemma_find_key_same_keys(a, a2, k, 0);
                lemma_find_key_same_keys(a, a2, k0, 0);
                if find_key(a, k, 0) is Some {
                    let x = find_key(a, k, 0)->0;
                    lemma_find_key_props(a, k, 0, x);
                    if k != k0 {
                        assert(x != idx);
                        assert(a2[x].1 == a[x].1);
                    }
                }
            },
            Option::None => {
                lemma_find_key_push(a, (k0, v0), k, 0);
                lemma_find_key_push(a, (k0, v0), k0, 0);
                if find_key(a, k, 0) is Some {
                    let x = find_key(a, k, 0)->0;
                    lemma_find_key_props(a, k, 0, x);
                    assert(a2[x].1 == a[x].1);
                }
            },
        }
        if k == k0 {
            if find_key(b, k, j + 1) is Some {
                let p2 = find_key(b, k, j + 1)->0;
                lemma_find_key_props(b, k, j + 1, p2);
                assert(false);
            }
        }
    }
}

/// The mapping law: merging two mappings unions their keys; a key only
/// in the target keeps its value, a key only in the source takes the
/// source's value, and a key in both holds the merge of the two values.
/// The source mapping is assumed not to repeat the key, as no parsed
/// mapping does.
pub proof fn lemma_merge_mapping_law(
    a: Seq<(DocModel, DocModel)>,
    b: Seq<(DocModel, DocModel)>,
    k: DocModel,
)
    requires
        forall|p: int, q: int|
            0 <= p < q < b.len() ==> !((#[trigger] b[p]).0 == k && (#[trigger] b[q]).0 == k),
    ensures
        merge_spec(DocModel::Mapping(a), DocModel::Mapping(b)) is Mapping,
        map_lookup(merge_spec(DocModel::Mapping(a), DocModel::Mapping(b))->Mapping_0, k) == match (
            map_lookup(a, k),
            map_lookup(b, k),
        ) {
            (Option::Some(x), Option::Some(y)) => Some(merge_spec(x, y)),
            (Option::Some(x), Option::None) => Some(x),
            (Option::None, Option::Some(y)) => Some(y),
            (Option::None, Option::None) => None,
        },
{
    let s = DocModel::Mapping(b);
    lemma_merge_entries_lookup(a, s, 0, k);
    if find_key(b, k, 0) is Some {
        let p = find_key(b, k, 0)->0;
        lemma_find_key_props(b, k, 0, p);
    }
}

} // verus!
