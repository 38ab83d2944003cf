//! The Directive Preprocessor: expands `@insert` and `@extend`
//! directives against the Registry's fragments, textually first, then
//! structurally through the parsed tree.
use vstd::prelude::*;
use crate::index::{Registry, TemplateModel};
use crate::text::{
    char_whitespace, chars_vec, find_from, is_word_char, join_lines, join_with_nl,
    push_all, replace_all, replace_spec, seq_views, split_lines, split_lines_spec, string_of,
    sub_chars, trim_chars, trim_matches_char, trim_matches_spec, trim_spec, word_char,
};
use crate::value::{
    docs_model, DocModel, DocValue, emit_yaml, entries_model, lemma_docs_model,
    lemma_entries_model, parse_yaml, yaml_doc_of, yaml_text_of,
};

verus! {

broadcast use vstd::std_specs::vec::group_vec_axioms;

/// How deep nested directive expansion descends through the parsed
/// tree before it stops; a guard against self-referential fragments.
pub const MAX_EXPAND_DEPTH: u32 = 64;

/// The map the preprocessor reads fragments from.
pub type FragmentMap = Map<Seq<char>, TemplateModel>;

// ----------------------------------------------------------------------
// Scanning one line for a directive.

/// The first position at or after `i` that is not whitespace.
pub open spec fn ws_end(s: Seq<char>, i: int) -> int
    decreases s.len() - i,
{
    if i < 0 || i >= s.len() {
        i
    } else if char_whitespace(s[i]) {
        ws_end(s, i + 1)
    } else {
        i
    }
}

/// The first position at or after `i` that does not continue a word.
pub open spec fn word_end(s: Seq<char>, i: int) -> int
    decreases s.len() - i,
{
    if i < 0 || i >= s.len() {
        i
    } else if is_word_char(s[i]) {
        word_end(s, i + 1)
    } else {
        i
    }
}

pub proof fn lemma_ws_end_range(s: Seq<char>, i: int)
    requires
        0 <= i <= s.len(),
    ensures
        i <= ws_end(s, i) <= s.len(),
    decreases s.len() - i,
{
    if i < s.len() && char_whitespace(s[i]) {
        lemma_ws_end_range(s, i + 1);
    }
}

pub proof fn lemma_ws_end_skip(s: Seq<char>, i: int, upto: int)
    requires
        0 <= i <= upto <= s.len(),
        forall|j: int| i <= j < upto ==> char_whitespace(#[trigger] s[j]),
    ensures
        ws_end(s, i) == ws_end(s, upto),
    decreases upto - i,
{
    if i < upto {
        lemma_ws_end_skip(s, i + 1, upto);
    }
}

pub proof fn lemma_word_end_range(s: Seq<char>, i: int)
    requires
        0 <= i <= s.len(),
    ensures
        i <= word_end(s, i) <= s.len(),
    decreases s.len() - i,
{
    if i < s.len() && is_word_char(s[i]) {
        lemma_word_end_range(s, i + 1);
    }
}

pub proof fn lemma_word_end_skip(s: Seq<char>, i: int, upto: int)
    requires
        0 <= i <= upto <= s.len(),
        forall|j: int| i <= j < upto ==> is_word_char(#[trigger] s[j]),
    ensures
        word_end(s, i) == word_end(s, upto),
    decreases upto - i,
{
    if i < upto {
        lemma_word_end_skip(s, i + 1, upto);
    }
}

proof fn lemma_find_from_props(s: Seq<char>, pat: Seq<char>, from: int, p: int)
    requires
        0 <= from,
        find_from(s, pat, from) == Some(p),
    ensures
        from <= p,
        p + pat.len() <= s.len(),
    decreases s.len() - from + 1,
{
    if !(from < 0 || from + pat.len() > s.len()) {
        if !crate::text::matches_at(s, pat, from) {
            lemma_find_from_props(s, pat, from + 1, p);
        }
    }
}

/// The first well-formed directive of the given keyword at or after
/// `from`: the keyword, at least one whitespace character, then a word;
/// the result is the word's start and end.
pub open spec fn match_directive(s: Seq<char>, kw: Seq<char>, from: int) -> Option<(int, int)>
    decreases s.len() - from,
    via match_directive_dec
{
    if from < 0 || kw.len() == 0 {
        None
    } else {
        match find_from(s, kw, from) {
            Option::None => None,
            Option::Some(p) => {
                let q = p + kw.len();
                let w = ws_end(s, q);
                if w > q && w < s.len() && is_word_char(s[w]) {
                    Some((w, word_end(s, w)))
                } else {
                    match_directive(s, kw, p + 1)
                }
            },
        }
    }
}

#[via_fn]
proof fn match_directive_dec(s: Seq<char>, kw: Seq<char>, from: int) {
    if from >= 0 && kw.len() > 0 {
        match find_from(s, kw, from) {
            Option::None => {},
            Option::Some(p) => {
                lemma_find_from_props(s, kw, from, p);
            },
        }
    }
}

/// The last position holding `c`, scanning down from `hi`.
pub open spec fn rfind_char(s: Seq<char>, c: char, hi: int) -> Option<int>
    decreases hi + 1,
{
    if hi < 0 || hi >= s.len() {
        None
    } else if s[hi] == c {
        Some(hi)
    } else {
        rfind_char(s, c, hi - 1)
    }
}

/// The raw argument text of a directive whose name ends at `ne`: the
/// text between an immediately following `(` and the last `)` of the
/// line; none without both brackets.
pub open spec fn directive_args(s: Seq<char>, ne: int) -> Option<Seq<char>> {
    if 0 <= ne < s.len() && s[ne] == '(' {
        match rfind_char(s, ')', s.len() - 1) {
            Option::Some(r) => if r > ne {
                Some(s.subrange(ne + 1, r))
            } else {
                None
            },
            Option::None => None,
        }
    } else {
        None
    }
}

/// Splitting argument text on every comma, as `str::split(',')`: a
/// trailing comma yields a final empty piece.
pub open spec fn split_plain(s: Seq<char>, start: int, i: int) -> Seq<Seq<char>>
    decreases s.len() - i,
{
    if i < 0 || i >= s.len() {
        seq![s.subrange(start, s.len() as int)]
    } else if s[i] == ',' {
        seq![s.subrange(start, i)] + split_plain(s, i + 1, i + 1)
    } else {
        split_plain(s, start, i + 1)
    }
}

/// One comma-separated argument: trimmed, then stripped of surrounding
/// quotes.
pub open spec fn clean_arg(a: Seq<char>) -> Seq<char> {
    trim_matches_spec(trim_spec(a), '"')
}

/// The cleaned arguments of `split_plain`.
pub open spec fn clean_args(parts: Seq<Seq<char>>, k: int) -> Seq<Seq<char>>
    decreases parts.len() - k,
{
    if k < 0 || k >= parts.len() {
        Seq::empty()
    } else {
        seq![clean_arg(parts[k])] + clean_args(parts, k + 1)
    }
}

/// The argument list of a directive: blank text means no arguments at
/// all; otherwise comma-split, trimmed and quote-stripped.
pub open spec fn parse_args(a: Seq<char>) -> Seq<Seq<char>> {
    if trim_spec(a).len() == 0 {
        Seq::empty()
    } else {
        clean_args(split_plain(a, 0, 0), 0)
    }
}

/// Substituting `{{param}}` placeholders positionally: parameters
/// beyond the argument count keep their placeholders, extra arguments
/// are ignored.
pub open spec fn subst_frag_spec(
    body: Seq<char>,
    params: Seq<Seq<char>>,
    args: Seq<Seq<char>>,
    k: int,
) -> Seq<char>
    decreases params.len() - k,
{
    if k < 0 || k >= params.len() || k >= args.len() {
        body
    } else {
        subst_frag_spec(
            replace_spec(body, "{{"@ + params[k] + "}}"@, args[k]),
            params,
            args,
            k + 1,
        )
    }
}

// ----------------------------------------------------------------------
// Phase A: line-oriented directive rewriting.

/// Each expanded fragment line re-indented to the directive line's
/// indentation.
pub open spec fn indent_lines(ls: Seq<Seq<char>>, indent: Seq<char>, k: int) -> Seq<Seq<char>>
    decreases ls.len() - k,
{
    if k < 0 || k >= ls.len() {
        Seq::empty()
    } else {
        seq![indent + ls[k]] + indent_lines(ls, indent, k + 1)
    }
}

/// What one line of input becomes in phase A.  An `@insert` of a known
/// fragment becomes the fragment's substituted body, re-indented; an
/// `@insert` of an unknown fragment passes through unchanged.  An
/// `@extend` becomes an `x-openapi-extend` marker entry carrying the
/// directive's text.  Any other line passes through unchanged.
pub open spec fn phase_a_line(line: Seq<char>, frags: FragmentMap) -> Seq<Seq<char>> {
    match match_directive(line, "@insert"@, 0) {
        Option::Some((ns, ne)) => {
            let name = line.subrange(ns, ne);
            let args = match directive_args(line, ne) {
                Option::Some(a) => parse_args(a),
                Option::None => Seq::empty(),
            };
            if frags.contains_key(name) {
                let frag = frags[name];
                let expanded = subst_frag_spec(frag.body, frag.params, args, 0);
                let indent = line.subrange(0, ws_end(line, 0));
                if trim_spec(expanded).len() == 0 {
                    Seq::empty()
                } else {
                    indent_lines(split_lines_spec(expanded), indent, 0)
                }
            } else {
                seq![line]
            }
        },
        Option::None => match match_directive(line, "@extend"@, 0) {
            Option::Some((ns, ne)) => {
                let name = line.subrange(ns, ne);
                let args_raw = match directive_args(line, ne) {
                    Option::Some(a) => a,
                    Option::None => Seq::empty(),
                };
                let marker = if args_raw.len() == 0 {
                    name
                } else {
                    name + "("@ + args_raw + ")"@
                };
                let indent = line.subrange(0, ws_end(line, 0));
                seq![indent + "x-openapi-extend: \""@ + marker + "\""@]
            },
            Option::None => seq![line],
        },
    }
}

/// Phase A over all lines.
pub open spec fn phase_a_lines(ls: Seq<Seq<char>>, frags: FragmentMap, k: int) -> Seq<Seq<char>>
    decreases ls.len() - k,
{
    if k < 0 || k >= ls.len() {
        Seq::empty()
    } else {
        phase_a_line(ls[k], frags) + phase_a_lines(ls, frags, k + 1)
    }
}

/// The phase A output text.
pub open spec fn phase_a_spec(content: Seq<char>, frags: FragmentMap) -> Seq<char> {
    join_lines(phase_a_lines(split_lines_spec(content), frags, 0))
}


/// The fail-open law of `@insert`: a directive line naming a fragment
/// the registry does not hold passes through phase A unchanged, and
/// the run goes on.
pub proof fn lemma_unknown_fragment_line_unchanged(line: Seq<char>, frags: FragmentMap)
    requires
        match match_directive(line, "@insert"@, 0) {
            Option::Some((ns, ne)) => !frags.contains_key(line.subrange(ns, ne)),
            Option::None => false,
        },
    ensures
        phase_a_line(line, frags) == seq![line],
{
}

// ----------------------------------------------------------------------
// Phase B: structural expansion of `@extend` markers.

/// Parsing an `@extend` marker value: `Name(arg, ...)` or a bare name.
pub open spec fn parse_extend_spec(s: Seq<char>) -> (Seq<char>, Seq<Seq<char>>) {
    match crate::text::find_char_from(s, '(', 0) {
        Option::Some(idx) => {
            let name = trim_spec(s.subrange(0, idx));
            let args_str = crate::text::drop_trailing(
                s.subrange(idx + 1, s.len() as int),
                crate::text::eq_char_pred(')'),
            );
            let args = if trim_spec(args_str).len() == 0 {
                Seq::empty()
            } else {
                clean_args(split_plain(args_str, 0, 0), 0)
            };
            (name, args)
        },
        Option::None => (trim_spec(s), Seq::empty()),
    }
}

/// Merging a fragment's parsed value into a node: mappings merge per
/// key recursively, anything else is overwritten by the fragment.
pub open spec fn merge_values_spec(t: DocModel, s: DocModel) -> DocModel
    decreases s, crate::merger::merge_measure(s),
{
    if t is Mapping && s is Mapping {
        DocModel::Mapping(merge_values_entries(t->Mapping_0, s, 0))
    } else {
        s
    }
}

/// Folding the fragment's entries into the node's entry list.
pub open spec fn merge_values_entries(
    a: Seq<(DocModel, DocModel)>,
    s: DocModel,
    j: int,
) -> Seq<(DocModel, DocModel)>
    decreases s, crate::merger::merge_measure(s) - 1 - j,
    via merge_values_entries_dec
{
    if !(s is Mapping) {
        a
    } else {
        let b = s->Mapping_0;
        if j < 0 || j >= b.len() {
            a
        } else {
            let k = b[j].0;
            let v = b[j].1;
            let a2 = match crate::merger::find_key(a, k, 0) {
                Option::Some(idx) => a.update(idx, (a[idx].0, merge_values_spec(a[idx].1, v))),
                Option::None => a.push((k, v)),
            };
            merge_values_entries(a2, s, j + 1)
        }
    }
}

#[via_fn]
proof fn merge_values_entries_dec(a: Seq<(DocModel, DocModel)>, s: DocModel, j: int) {
    if s is Mapping {
        let b = s->Mapping_0;
        if 0 <= j < b.len() {
            assert(decreases_to!(s => s->Mapping_0));
            assert(decreases_to!(s->Mapping_0 => s->Mapping_0[j]));
            assert(decreases_to!(s->Mapping_0[j] => s->Mapping_0[j].1));
        }
    }
}

/// What the extend marker expands to at a mapping node, if anything:
/// the marker string must parse, name a known fragment, and the
/// substituted body must itself parse.
pub open spec fn extend_expansion(marker: Seq<char>, frags: FragmentMap) -> Option<DocModel> {
    let (name, args) = parse_extend_spec(marker);
    if frags.contains_key(name) {
        let frag = frags[name];
        let expanded = subst_frag_spec(frag.body, frag.params, args, 0);
        yaml_doc_of(expanded)
    } else {
        None
    }
}

/// The `x-openapi-extend` key.
pub open spec fn extend_key() -> DocModel {
    DocModel::Str("x-openapi-extend"@)
}

/// A mapping's entries after removing the entry at `idx` by swapping
/// the last entry into its place, as the mapping type of the parsing
/// crate removes keys.
pub open spec fn swap_removed(
    es: Seq<(DocModel, DocModel)>,
    idx: int,
) -> Seq<(DocModel, DocModel)> {
    es.update(idx, es.last()).drop_last()
}

/// One node of the tree processed: a mapping first has its
/// `x-openapi-extend` marker removed and (when it names a known
/// fragment with a parsable body) merged in, then its values are
/// processed in turn; sequence elements are processed elementwise;
/// scalars are untouched.  `depth` guards against fragments that expand
/// to further markers without end.
pub open spec fn process_value_spec(v: DocModel, frags: FragmentMap, depth: nat) -> DocModel
    decreases depth, v, 1int, 0int,
    via process_value_spec_dec
{
    if depth == 0 {
        v
    } else {
        match v {
            DocModel::Mapping(es) => {
                match crate::merger::find_key(es, extend_key(), 0) {
                    Option::Some(idx) => {
                        let removed = swap_removed(es, idx);
                        let marker = es[idx].1;
                        let merged = if marker is Str {
                            match extend_expansion(marker->Str_0, frags) {
                                Option::Some(frag_val) => merge_values_spec(
                                    DocModel::Mapping(removed),
                                    frag_val,
                                ),
                                Option::None => DocModel::Mapping(removed),
                            }
                        } else {
                            DocModel::Mapping(removed)
                        };
                        if merged is Mapping {
                            DocModel::Mapping(
                                process_entries_spec(
                                    merged->Mapping_0,
                                    frags,
                                    (depth - 1) as nat,
                                    0,
                                ),
                            )
                        } else {
                            merged
                        }
                    },
                    Option::None => DocModel::Mapping(
                        process_entries_spec(es, frags, (depth - 1) as nat, 0),
                    ),
                }
            },
            DocModel::Sequence(xs) => DocModel::Sequence(
                process_seq_spec(xs, frags, (depth - 1) as nat, 0),
            ),
            _ => v,
        }
    }
}

#[via_fn]
proof fn process_value_spec_dec(v: DocModel, frags: FragmentMap, depth: nat) {
}

/// The values of an entry list processed in order, from `k` on.
pub open spec fn process_entries_spec(
    es: Seq<(DocModel, DocModel)>,
    frags: FragmentMap,
    depth: nat,
    k: int,
) -> Seq<(DocModel, DocModel)>
    decreases depth, es, 0int, es.len() - k,
    via process_entries_spec_dec
{
    if k < 0 || k >= es.len() {
        Seq::empty()
    } else {
        seq![(es[k].0, process_value_spec(es[k].1, frags, depth))] + process_entries_spec(
            es,
            frags,
            depth,
            k + 1,
        )
    }
}

#[via_fn]
proof fn process_entries_spec_dec(
    es: Seq<(DocModel, DocModel)>,
    frags: FragmentMap,
    depth: nat,
    k: int,
) {
    if 0 <= k < es.len() {
        assert(decreases_to!(es => es[k]));
        assert(decreases_to!(es[k] => es[k].1));
    }
}

/// The elements of a sequence processed in order, from `k` on.
pub open spec fn process_seq_spec(
    xs: Seq<DocModel>,
    frags: FragmentMap,
    depth: nat,
    k: int,
) -> Seq<DocModel>
    decreases depth, xs, 0int, xs.len() - k,
    via process_seq_spec_dec
{
    if k < 0 || k >= xs.len() {
        Seq::empty()
    } else {
        seq![process_value_spec(xs[k], frags, depth)] + process_seq_spec(xs, frags, depth, k + 1)
    }
}

#[via_fn]
proof fn process_seq_spec_dec(xs: Seq<DocModel>, frags: FragmentMap, depth: nat, k: int) {
    if 0 <= k < xs.len() {
        assert(decreases_to!(xs => xs[k]));
    }
}

/// What preprocessing comes to: phase A rewrites directives line by
/// line; if the result parses, the tree's extend markers are expanded
/// and the tree is re-rendered, otherwise the phase A text stands.
pub open spec fn preprocess_parsed(content: Seq<char>, frags: FragmentMap) -> Option<DocModel> {
    yaml_doc_of(phase_a_spec(content, frags))
}


// ----------------------------------------------------------------------
// Executable scanning.

/// Finds the first well-formed directive of the keyword in the line.
fn find_directive(line: &Vec<char>, kw: &Vec<char>, from: usize) -> (r: Option<(usize, usize)>)
    requires
        kw@.len() > 0,
    ensures
        match r {
            Some((ns, ne)) => match_directive(line@, kw@, from as int) == Some((
                ns as int,
                ne as int,
            )),
            None => match_directive(line@, kw@, from as int) is None,
        },
    decreases line@.len() - from,
{
    let p = match crate::text::find_sub(line, kw, from) {
        Option::None => {
            return None;
        },
        Option::Some(p) => p,
    };
    let n = line.len();
    proof {
        lemma_find_from_props(line@, kw@, from as int, p as int);
    }
    let q = p + kw.len();
    let mut w: usize = q;
    while w < n && line[w].is_whitespace()
        invariant
            q <= w <= n,
            n == line@.len(),
            forall|j: int| q <= j < w ==> char_whitespace(#[trigger] line@[j]),
        decreases n - w,
    {
        w = w + 1;
    }
    proof {
        lemma_ws_end_skip(line@, q as int, w as int);
        assert(ws_end(line@, w as int) == w as int);
    }
    if w > q && w < n && word_char(line[w]) {
        let mut ne: usize = w;
        while ne < n && word_char(line[ne])
            invariant
                w <= ne <= n,
                n == line@.len(),
                forall|j: int| w <= j < ne ==> is_word_char(#[trigger] line@[j]),
            decreases n - ne,
        {
            ne = ne + 1;
        }
        proof {
            lemma_word_end_skip(line@, w as int, ne as int);
            assert(word_end(line@, ne as int) == ne as int);
        }
        Some((w, ne))
    } else {
        find_directive(line, kw, p + 1)
    }
}

/// Extracts the raw argument text after a directive name.
fn directive_args_exec(line: &Vec<char>, ne: usize) -> (r: Option<Vec<char>>)
    ensures
        match r {
            Some(a) => directive_args(line@, ne as int) == Some(a@),
            None => directive_args(line@, ne as int) is None,
        },
{
    let n = line.len();
    if !(ne < n && line[ne] == '(') {
        return None;
    }
    let mut h: usize = n;
    while h > 0
        invariant
            h <= n,
            n == line@.len(),
            ne < n,
            line@[ne as int] == '(',
            forall|j: int| h <= j < n ==> #[trigger] line@[j] != ')',
        decreases h,
    {
        h = h - 1;
        if line[h] == ')' {
            proof {
                lemma_rfind_skip(line@, ')', h as int, n - 1);
            }
            if h > ne {
                return Some(crate::text::sub_chars(line, ne + 1, h));
            } else {
                return None;
            }
        }
    }
    proof {
        lemma_rfind_skip(line@, ')', -1, n - 1);
    }
    None
}

pub proof fn lemma_rfind_skip(s: Seq<char>, c: char, at: int, hi: int)
    requires
        at <= hi < s.len(),
        forall|j: int| at < j <= hi ==> #[trigger] s[j] != c,
    ensures
        rfind_char(s, c, hi) == rfind_char(s, c, at),
    decreases hi - at,
{
    if at < hi {
        lemma_rfind_skip(s, c, at, hi - 1);
    }
}

proof fn lemma_clean_args_cons(h: Seq<char>, rest: Seq<Seq<char>>)
    ensures
        clean_args(seq![h] + rest, 0) == seq![clean_arg(h)] + clean_args(rest, 0),
    decreases rest.len(),
{
    let whole = seq![h] + rest;
    assert(whole[0] == h);
    assert(clean_args(whole, 0) == seq![clean_arg(h)] + clean_args(whole, 1));
    lemma_clean_args_shift(whole, rest, 1);
}

proof fn lemma_clean_args_shift(whole: Seq<Seq<char>>, rest: Seq<Seq<char>>, k: int)
    requires
        1 <= k <= whole.len(),
        whole.len() == rest.len() + 1,
        forall|j: int| 0 <= j < rest.len() ==> whole[j + 1] == #[trigger] rest[j],
    ensures
        clean_args(whole, k) == clean_args(rest, k - 1),
    decreases whole.len() - k,
{
    if k < whole.len() {
        assert(whole[k] == rest[k - 1]);
        lemma_clean_args_shift(whole, rest, k + 1);
    }
}

proof fn lemma_clean_args_single(h: Seq<char>)
    ensures
        clean_args(seq![h], 0) == seq![clean_arg(h)],
{
    let whole = seq![h];
    assert(whole[0] == h);
    assert(clean_args(whole, 1) =~= Seq::<Seq<char>>::empty());
    assert(seq![clean_arg(h)] + Seq::<Seq<char>>::empty() =~= seq![clean_arg(h)]);
}

/// Substitutes `{{param}}` placeholders in a fragment body
/// positionally: extra placeholders stay, extra arguments are ignored.
pub fn substitute_fragment_args(fragment: &str, params: &Vec<String>, args: &Vec<String>) -> (r:
    String)
    ensures
        r@ == subst_frag_spec(fragment@, params.deep_view(), args.deep_view(), 0),
{
    let mut body = chars_vec(fragment);
    let ghost pv = params.deep_view();
    let ghost av = args.deep_view();
    let mut k: usize = 0;
    while k < params.len() && k < args.len()
        invariant
            k <= params@.len(),
            pv == params.deep_view(),
            av == args.deep_view(),
            pv.len() == params@.len(),
            av.len() == args@.len(),
            subst_frag_spec(fragment@, pv, av, 0) == subst_frag_spec(body@, pv, av, k as int),
        decreases params@.len() - k,
    {
        let mut pat = chars_vec("{{");
        let pn = chars_vec(params[k].as_str());
        push_all(&mut pat, &pn);
        let close = chars_vec("}}");
        push_all(&mut pat, &close);
        let rep = chars_vec(args[k].as_str());
        proof {
            assert(params@[k as int]@ == pv[k as int]);
            assert(args@[k as int]@ == av[k as int]);
            assert(pat@ =~= "{{"@ + pv[k as int] + "}}"@);
        }
        body = replace_all(&body, &pat, &rep);
        k = k + 1;
    }
    proof {
        assert(subst_frag_spec(body@, pv, av, k as int) == body@);
    }
    string_of(&body)
}

/// Parses an `@extend` marker value of the shape `Name(arg, ...)` or a
/// bare `Name`.
pub fn parse_extend_str(s: &str) -> (r: (String, Vec<String>))
    ensures
        ({
            let (name, args) = parse_extend_spec(s@);
            r.0@ == name && r.1.deep_view() == args
        }),
{
    let sv = chars_vec(s);
    match crate::text::find_char(&sv, '(', 0) {
        Option::Some(idx) => {
            proof {
                crate::text::lemma_find_char_in_range(sv@, '(', idx as int);
            }
            let head = crate::text::sub_chars(&sv, 0, idx);
            let name = trim_chars(&head);
            let tail = crate::text::sub_chars(&sv, idx + 1, sv.len());
            let args_str = trim_end_parens(&tail);
            let t = trim_chars(&args_str);
            let mut args: Vec<String> = Vec::new();
            if t.len() == 0 {
                proof {
                    assert(args.deep_view() =~= parse_extend_spec(s@).1);
                }
                return (string_of(&name), args);
            }
            let mut parts = parse_args_inner(&args_str);
            let ghost parts0 = seq_views(parts@);
            while parts.len() > 0
                invariant
                    args.deep_view() + seq_views(parts@) == parts0,
                decreases parts@.len(),
            {
                let ghost args_before = args.deep_view();
                let ghost parts_before = parts@;
                let p = parts.remove(0);
                args.push(string_of(&p));
                proof {
                    assert(parts@ =~= parts_before.skip(1));
                    assert(seq_views(parts_before)[0] == p@);
                    assert forall|x: int| 0 <= x < args.deep_view().len() implies #[trigger] args.deep_view()[x]
                        == args_before.push(p@)[x] by {}
                    assert(args.deep_view() =~= args_before.push(p@));
                    assert(args.deep_view() + seq_views(parts@) =~= parts0);
                }
            }
            proof {
                assert(args.deep_view() + seq_views(parts@) =~= args.deep_view());
            }
            (string_of(&name), args)
        },
        Option::None => {
            let name = trim_chars(&sv);
            let args: Vec<String> = Vec::new();
            proof {
                assert(args.deep_view() =~= Seq::<Seq<char>>::empty());
            }
            (string_of(&name), args)
        },
    }
}

/// Strips every trailing `)` from argument text.
pub fn trim_end_parens(v: &Vec<char>) -> (r: Vec<char>)
    ensures
        r@ == crate::text::drop_trailing(v@, crate::text::eq_char_pred(')')),
{
    let ghost p = crate::text::eq_char_pred(')');
    let mut b: usize = v.len();
    while b > 0 && v[b - 1] == ')'
        invariant
            b <= v@.len(),
            forall|j: int| b <= j < v@.len() ==> #[trigger] v@[j] == ')',
        decreases b,
    {
        b = b - 1;
    }
    proof {
        assert forall|j: int| b <= j < v@.len() implies p(v@[j]) by {
            assert(v@[j] == ')');
        }
        assert(b == 0 || !p(v@[b - 1]));
        crate::text::lemma_drop_trailing_is_take(v@, p, b as int);
        assert(v@.take(b as int) =~= v@.subrange(0, b as int));
    }
    crate::text::sub_chars(v, 0, b)
}

/// The cleaned comma-split of argument text.
fn parse_args_inner(a: &Vec<char>) -> (r: Vec<Vec<char>>)
    ensures
        seq_views(r@) == clean_args(split_plain(a@, 0, 0), 0),
{
    let ghost target = clean_args(split_plain(a@, 0, 0), 0);
    let n = a.len();
    let mut out: Vec<Vec<char>> = Vec::new();
    let mut start: usize = 0;
    let mut i: usize = 0;
    while i < n
        invariant
            start <= i <= n,
            n == a@.len(),
            clean_args(split_plain(a@, 0, 0), 0) == seq_views(out@) + clean_args(
                split_plain(a@, start as int, i as int),
                0,
            ),
        decreases n - i,
    {
        if a[i] == ',' {
            let piece = crate::text::sub_chars(a, start, i);
            let cleaned = trim_matches_char(&trim_chars(&piece), '"');
            let ghost om = seq_views(out@);
            let ghost pv = cleaned@;
            let ghost rest = clean_args(split_plain(a@, i + 1, i + 1), 0);
            out.push(cleaned);
            proof {
                assert(split_plain(a@, start as int, i as int) == seq![
                    a@.subrange(start as int, i as int),
                ] + split_plain(a@, i + 1, i + 1));
                lemma_clean_args_cons(
                    a@.subrange(start as int, i as int),
                    split_plain(a@, i + 1, i + 1),
                );
                assert forall|x: int| 0 <= x < out@.len() implies #[trigger] seq_views(out@)[x]
                    == (om + seq![pv])[x] by {
                    if x < om.len() {
                    } else {
                        assert(out@[x]@ == pv);
                    }
                }
                assert(seq_views(out@) =~= om + seq![pv]);
                assert((om + seq![pv]) + rest =~= om + (seq![pv] + rest));
            }
            start = i + 1;
            i = i + 1;
        } else {
            i = i + 1;
        }
    }
    let piece = crate::text::sub_chars(a, start, n);
    let cleaned = trim_matches_char(&trim_chars(&piece), '"');
    let ghost om = seq_views(out@);
    let ghost pv = cleaned@;
    out.push(cleaned);
    proof {
        assert(split_plain(a@, start as int, n as int) == seq![
            a@.subrange(start as int, n as int),
        ]);
        lemma_clean_args_single(a@.subrange(start as int, n as int));
        assert forall|x: int| 0 <= x < out@.len() implies #[trigger] seq_views(out@)[x] == (om
            + seq![pv])[x] by {
            if x < om.len() {
            } else {
                assert(out@[x]@ == pv);
            }
        }
        assert(seq_views(out@) =~= om + seq![pv]);
    }
    out
}


// ----------------------------------------------------------------------
// Executable structural expansion.

/// Merges a fragment's parsed value into a node: mappings merge per key
/// recursively, anything else is overwritten.
#[verifier::loop_isolation(false)]
fn merge_values(target: DocValue, source: DocValue) -> (r: DocValue)
    ensures
        r.model() == merge_values_spec(target.model(), source.model()),
    decreases source,
{
    let ghost t0 = target.model();
    let ghost s0 = source.model();
    let ghost src_snapshot = source;
    match (target, source) {
        (DocValue::Mapping(a0), DocValue::Mapping(b0)) => {
            let ghost b_orig = b0;
            let mut a = a0;
            let mut b = b0;
            let ghost bm = s0->Mapping_0;
            proof {
                lemma_entries_model(b_orig@);
                assert(src_snapshot->Mapping_0 == b_orig);
                assert(bm == entries_model(b_orig@));
                assert(b@ =~= b_orig@.skip(0));
            }
            let mut j: usize = 0;
            let total = b.len();
            while b.len() > 0
                invariant
                    total == b_orig@.len(),
                    j + b@.len() == b_orig@.len(),
                    b@ == b_orig@.skip(j as int),
                    merge_values_entries(t0->Mapping_0, s0, 0) == merge_values_entries(
                        entries_model(a@),
                        s0,
                        j as int,
                    ),
                decreases b@.len(),
            {
                let kv = b.remove(0);
                let k = kv.0;
                let v = kv.1;
                proof {
                    assert(kv == b_orig@[j as int]);
                    assert(b@ =~= b_orig@.skip(j + 1));
                    lemma_entries_model(b_orig@);
                    assert(bm[j as int] == (b_orig@[j as int].0.model(), b_orig@[
                        j as int].1.model()));
                }
                let ghost am = entries_model(a@);
                let ghost km = k.model();
                proof {
                    lemma_entries_model(a@);
                }
                let mut idx: usize = 0;
                let mut found = false;
                let alen = a.len();
                while idx < alen
                    invariant
                        idx <= alen,
                        alen == a@.len(),
                        am == entries_model(a@),
                        am.len() == alen,
                        km == k.model(),
                        forall|q: int|
                            0 <= q < alen ==> #[trigger] am[q] == (
                            a@[q].0.model(),
                            a@[q].1.model(),
                        ),
                        !found ==> forall|q: int| 0 <= q < idx ==> (#[trigger] am[q]).0 != km,
                        found ==> idx < alen && am[idx as int].0 == km && (forall|q: int|
                            0 <= q < idx ==> (#[trigger] am[q]).0 != km),
                    decreases alen - idx + (if found {
                        0int
                    } else {
                        1int
                    }),
                {
                    if crate::value::doc_eq(&a[idx].0, &k) {
                        found = true;
                        proof {
                            assert(am[idx as int].0 == km);
                        }
                        break ;
                    }
                    proof {
                        assert(am[idx as int].0 != km);
                    }
                    idx = idx + 1;
                }
                if found {
                    proof {
                        crate::merger::lemma_find_key_skip(am, km, 0, idx as int);
                        assert(crate::merger::find_key(am, km, 0) == Some(idx as int));
                    }
                    let pair = a.remove(idx);
                    proof {
                        assert(decreases_to!(src_snapshot => src_snapshot->Mapping_0));
                        assert(decreases_to!(b_orig => b_orig@));
                        assert(decreases_to!(b_orig@ => b_orig@[j as int]));
                        assert(decreases_to!(b_orig@[j as int] => b_orig@[j as int].1));
                        assert(v == b_orig@[j as int].1);
                    }
                    let merged = merge_values(pair.1, v);
                    a.insert(idx, (pair.0, merged));
                    proof {
                        lemma_entries_model(a@);
                        assert(entries_model(a@) =~= am.update(
                            idx as int,
                            (am[idx as int].0, merge_values_spec(am[idx as int].1, bm[j as int].1)),
                        ));
                    }
                } else {
                    proof {
                        crate::merger::lemma_find_key_skip(am, km, 0, alen as int);
                        assert(crate::merger::find_key(am, km, 0) is None);
                    }
                    a.push((k, v));
                    proof {
                        lemma_entries_model(a@);
                        assert(entries_model(a@) =~= am.push((bm[j as int].0, bm[j as int].1)));
                    }
                }
                j = j + 1;
            }
            proof {
                assert(merge_values_entries(entries_model(a@), s0, j as int) == entries_model(a@));
            }
            DocValue::Mapping(a)
        },
        (_, other) => {
            proof {
                assert(merge_values_spec(t0, s0) == s0);
            }
            other
        },
    }
}

/// Expands `x-openapi-extend` markers through one node of the tree and
/// recurses into its children, to the given depth.
#[verifier::loop_isolation(false)]
fn process_value(v: DocValue, registry: &Registry, depth: u32) -> (r: DocValue)
    requires
        registry.wf(),
    ensures
        r.model() == process_value_spec(v.model(), registry.fragments.map_of(), depth as nat),
    decreases depth, 0int,
{
    let ghost frags = registry.fragments.map_of();
    let ghost v0 = v.model();
    if depth == 0 {
        return v;
    }
    match v {
        DocValue::Mapping(es0) => {
            let mut es = es0;
            let ghost esm = entries_model(es@);
            proof {
                lemma_entries_model(es@);
                assert(v0->Mapping_0 == esm);
            }
            let key_text = chars_vec("x-openapi-extend");
            let probe = DocValue::Str(string_of(&key_text));
            proof {
                assert(probe.model() == extend_key());
            }
            // Find the marker entry, if any.
            let mut idx: usize = 0;
            let mut found = false;
            let elen = es.len();
            while idx < elen
                invariant
                    idx <= elen,
                    elen == es@.len(),
                    esm == entries_model(es@),
                    !found ==> forall|q: int| 0 <= q < idx ==> (#[trigger] esm[q]).0
                        != extend_key(),
                    found ==> idx < elen && esm[idx as int].0 == extend_key() && (forall|q: int|
                        0 <= q < idx ==> (#[trigger] esm[q]).0 != extend_key()),
                decreases elen - idx + (if found {
                    0int
                } else {
                    1int
                }),
            {
                proof {
                    lemma_entries_model(es@);
                }
                if crate::value::doc_eq(&es[idx].0, &probe) {
                    found = true;
                    proof {
                        assert(esm[idx as int].0 == extend_key());
                    }
                    break ;
                }
                proof {
                    assert(esm[idx as int].0 != extend_key());
                }
                idx = idx + 1;
            }
            if !found {
                proof {
                    crate::merger::lemma_find_key_skip(esm, extend_key(), 0, elen as int);
                    assert(crate::merger::find_key(esm, extend_key(), 0) is None);
                }
                let out = process_entry_list(es, registry, depth - 1);
                proof {
                    assert(process_value_spec(v0, frags, depth as nat) == DocModel::Mapping(
                        process_entries_spec(esm, frags, (depth - 1) as nat, 0),
                    ));
                }
                return DocValue::Mapping(out);
            }
            proof {
                crate::merger::lemma_find_key_skip(esm, extend_key(), 0, idx as int);
                assert(crate::merger::find_key(esm, extend_key(), 0) == Some(idx as int));
            }
            let kv = es.swap_remove(idx);
            let marker = kv.1;
            proof {
                lemma_entries_model(es@);
                assert(entries_model(es@) =~= swap_removed(esm, idx as int));
                assert(marker.model() == esm[idx as int].1);
            }
            let merged: DocValue = match marker {
                DocValue::Str(ms) => {
                    let pe = parse_extend_str(ms.as_str());
                    let name = pe.0;
                    let args = pe.1;
                    match registry.fragments.get(&name) {
                        Option::Some(frag) => {
                            let expanded = substitute_fragment_args(
                                frag.body.as_str(),
                                &frag.params,
                                &args,
                            );
                            match parse_yaml(expanded.as_str()) {
                                Option::Some(frag_val) => merge_values(
                                    DocValue::Mapping(es),
                                    frag_val,
                                ),
                                Option::None => DocValue::Mapping(es),
                            }
                        },
                        Option::None => DocValue::Mapping(es),
                    }
                },
                _ => DocValue::Mapping(es),
            };
            match merged {
                DocValue::Mapping(m_entries) => {
                    let out = process_entry_list(m_entries, registry, depth - 1);
                    DocValue::Mapping(out)
                },
                other => other,
            }
        },
        DocValue::Sequence(xs0) => {
            let mut xs = xs0;
            let ghost xm = docs_model(xs@);
            proof {
                lemma_docs_model(xs@);
                assert(v0->Sequence_0 == xm);
            }
            let mut out: Vec<DocValue> = Vec::new();
            proof {
                lemma_docs_model(out@);
                assert(docs_model(out@) =~= Seq::<DocModel>::empty());
                assert(xs@ =~= xs@.skip(0));
                assert(docs_model(xs@) =~= xm.skip(0));
            }
            let mut k: usize = 0;
            let total = xs.len();
            while xs.len() > 0
                invariant
                    total == xm.len(),
                    k + xs@.len() == xm.len(),
                    docs_model(xs@) == xm.skip(k as int),
                    process_seq_spec(xm, frags, (depth - 1) as nat, 0) == docs_model(out@)
                        + process_seq_spec(xm, frags, (depth - 1) as nat, k as int),
                decreases xs@.len(),
            {
                let ghost xs_before = xs@;
                let e = xs.remove(0);
                proof {
                    lemma_docs_model(xs_before);
                    lemma_docs_model(xs@);
                    assert(xs@ =~= xs_before.skip(1));
                    assert(docs_model(xs@) =~= xm.skip(k + 1));
                    assert(e.model() == xm[k as int]);
                }
                let pe = process_value(e, registry, depth - 1);
                let ghost out_before = out@;
                out.push(pe);
                k = k + 1;
                proof {
                    lemma_docs_model(out_before);
                    lemma_docs_model(out@);
                    assert(docs_model(out@) =~= docs_model(out_before).push(pe.model()));
                    assert((docs_model(out_before) + seq![pe.model()]) + process_seq_spec(
                        xm,
                        frags,
                        (depth - 1) as nat,
                        k as int,
                    ) =~= docs_model(out_before) + (seq![pe.model()] + process_seq_spec(
                        xm,
                        frags,
                        (depth - 1) as nat,
                        k as int,
                    )));
                }
            }
            proof {
                assert(docs_model(out@) + process_seq_spec(xm, frags, (depth - 1) as nat, k as int)
                    =~= docs_model(out@));
            }
            DocValue::Sequence(out)
        },
        other => {
            proof {
                assert(process_value_spec(v0, frags, depth as nat) == v0);
            }
            other
        },
    }
}

/// Processes each value of an entry list, in order.
#[verifier::loop_isolation(false)]
fn process_entry_list(es0: Vec<(DocValue, DocValue)>, registry: &Registry, depth: u32) -> (r: Vec<
    (DocValue, DocValue),
>)
    requires
        registry.wf(),
    ensures
        entries_model(r@) == process_entries_spec(
            entries_model(es0@),
            registry.fragments.map_of(),
            depth as nat,
            0,
        ),
    decreases depth, 1int,
{
    let ghost frags = registry.fragments.map_of();
    let ghost esm = entries_model(es0@);
    let mut es = es0;
    let mut out: Vec<(DocValue, DocValue)> = Vec::new();
    let mut k: usize = 0;
    let total = es.len();
    proof {
        lemma_entries_model(es@);
        assert(es@ =~= es@.skip(0));
        assert(entries_model(es@) =~= esm.skip(0));
        lemma_entries_model(out@);
        assert(entries_model(out@) =~= Seq::<(DocModel, DocModel)>::empty());
    }
    while es.len() > 0
        invariant
            total == esm.len(),
            k + es@.len() == esm.len(),
            entries_model(es@) == esm.skip(k as int),
            process_entries_spec(esm, frags, depth as nat, 0) == entries_model(out@)
                + process_entries_spec(esm, frags, depth as nat, k as int),
        decreases es@.len(),
    {
        let ghost es_before = es@;
        let kv = es.remove(0);
        proof {
            lemma_entries_model(es_before);
            lemma_entries_model(es@);
            assert(es@ =~= es_before.skip(1));
            assert(entries_model(es@) =~= esm.skip(k + 1));
            assert(kv.0.model() == esm[k as int].0);
            assert(kv.1.model() == esm[k as int].1);
        }
        let pv2 = process_value(kv.1, registry, depth);
        let ghost out_before = out@;
        out.push((kv.0, pv2));
        k = k + 1;
        proof {
            lemma_entries_model(out_before);
            lemma_entries_model(out@);
            assert(entries_model(out@) =~= entries_model(out_before).push(
                (esm[k - 1].0, pv2.model()),
            ));
            assert((entries_model(out_before) + seq![(esm[k - 1].0, pv2.model())])
                + process_entries_spec(esm, frags, depth as nat, k as int) =~= entries_model(
                out_before,
            ) + (seq![(esm[k - 1].0, pv2.model())] + process_entries_spec(
                esm,
                frags,
                depth as nat,
                k as int,
            )));
        }
    }
    proof {
        assert(entries_model(out@) + process_entries_spec(esm, frags, depth as nat, k as int)
            =~= entries_model(out@));
    }
    out
}


// ----------------------------------------------------------------------
// Executable phase A and the preprocessor entry point.

proof fn lemma_match_directive_props(s: Seq<char>, kw: Seq<char>, from: int, ns: int, ne: int)
    requires
        0 <= from,
        kw.len() > 0,
        match_directive(s, kw, from) == Some((ns, ne)),
    ensures
        0 <= ns <= ne <= s.len(),
    decreases s.len() - from,
{
    match find_from(s, kw, from) {
        Option::None => {},
        Option::Some(p) => {
            lemma_find_from_props(s, kw, from, p);
            let q = p + kw.len();
            let w = ws_end(s, q);
            lemma_ws_end_range(s, q);
            if w > q && w < s.len() && is_word_char(s[w]) {
                lemma_word_end_range(s, w);
            } else {
                lemma_match_directive_props(s, kw, p + 1, ns, ne);
            }
        },
    }
}

/// The leading whitespace of the line.
fn leading_ws(line: &Vec<char>) -> (r: Vec<char>)
    ensures
        r@ == line@.subrange(0, ws_end(line@, 0)),
{
    let n = line.len();
    let mut a: usize = 0;
    while a < n && line[a].is_whitespace()
        invariant
            a <= n,
            n == line@.len(),
            forall|j: int| 0 <= j < a ==> char_whitespace(#[trigger] line@[j]),
        decreases n - a,
    {
        a = a + 1;
    }
    proof {
        lemma_ws_end_skip(line@, 0, a as int);
        assert(ws_end(line@, a as int) == a as int);
    }
    crate::text::sub_chars(line, 0, a)
}

/// The directive arguments as owned strings.
fn args_to_strings(parts: Vec<Vec<char>>) -> (r: Vec<String>)
    ensures
        r.deep_view() == seq_views(parts@),
{
    let ghost parts0 = seq_views(parts@);
    let mut parts = parts;
    let mut args: Vec<String> = Vec::new();
    while parts.len() > 0
        invariant
            args.deep_view() + seq_views(parts@) == parts0,
        decreases parts@.len(),
    {
        let ghost args_before = args.deep_view();
        let ghost parts_before = parts@;
        let p = parts.remove(0);
        args.push(string_of(&p));
        proof {
            assert(parts@ =~= parts_before.skip(1));
            assert(seq_views(parts_before)[0] == p@);
            assert(args.deep_view() =~= args_before.push(p@));
            assert(args.deep_view() + seq_views(parts@) =~= parts0);
        }
    }
    proof {
        assert(args.deep_view() + seq_views(parts@) =~= args.deep_view());
    }
    args
}

/// Phase A of one line.
#[verifier::loop_isolation(false)]
fn phase_a_line_exec(line: &Vec<char>, registry: &Registry) -> (r: Vec<Vec<char>>)
    requires
        registry.wf(),
    ensures
        seq_views(r@) == phase_a_line(line@, registry.fragments.map_of()),
{
    let ghost frags = registry.fragments.map_of();
    let kw_ins = chars_vec("@insert");
    let kw_ext = chars_vec("@extend");
    proof {
        reveal_strlit("@insert");
        reveal_strlit("@extend");
    }
    let mut out: Vec<Vec<char>> = Vec::new();
    match find_directive(line, &kw_ins, 0) {
        Option::Some((ns, ne)) => {
            proof {
                lemma_match_directive_props(line@, "@insert"@, 0, ns as int, ne as int);
            }
            let name = crate::text::sub_chars(line, ns, ne);
            let parts: Vec<Vec<char>> = match directive_args_exec(line, ne) {
                Option::Some(a) => {
                    let t = trim_chars(&a);
                    if t.len() == 0 {
                        Vec::new()
                    } else {
                        parse_args_inner(&a)
                    }
                },
                Option::None => Vec::new(),
            };
            let ghost args_spec = match directive_args(line@, ne as int) {
                Option::Some(a) => parse_args(a),
                Option::None => Seq::empty(),
            };
            proof {
                assert(seq_views(parts@) =~= args_spec);
            }
            let name_s = string_of(&name);
            match registry.fragments.get(&name_s) {
                Option::Some(frag) => {
                    let args_s = args_to_strings(parts);
                    let expanded = substitute_fragment_args(
                        frag.body.as_str(),
                        &frag.params,
                        &args_s,
                    );
                    let ev = chars_vec(expanded.as_str());
                    let trimmed = trim_chars(&ev);
                    if trimmed.len() == 0 {
                        proof {
                            assert(seq_views(out@) =~= phase_a_line(line@, frags));
                        }
                        return out;
                    }
                    let indent = leading_ws(line);
                    let ghost ls_spec = split_lines_spec(ev@);
                    let mut ls = split_lines(&ev);
                    let lcount = ls.len();
                    proof {
                        assert(ls_spec.len() == lcount);
                    }
                    let ghost target = indent_lines(ls_spec, indent@, 0);
                    let mut k: usize = 0;
                    while ls.len() > 0
                        invariant
                            k + ls@.len() == ls_spec.len(),
                            seq_views(ls@) == ls_spec.skip(k as int),
                            indent_lines(ls_spec, indent@, 0) == seq_views(out@) + indent_lines(
                                ls_spec,
                                indent@,
                                k as int,
                            ),
                        decreases ls@.len(),
                    {
                        let ghost ls_before = ls@;
                        let l = ls.remove(0);
                        let mut piece = crate::text::sub_chars(&indent, 0, indent.len());
                        push_all(&mut piece, &l);
                        proof {
                            assert(ls@ =~= ls_before.skip(1));
                            assert forall|p: int| 0 <= p < ls@.len() implies #[trigger] seq_views(
                                ls@,
                            )[p] == ls_spec.skip(k + 1)[p] by {
                                assert(ls@[p] == ls_before[p + 1]);
                                assert(seq_views(ls_before)[p + 1] == ls_before[p + 1]@);
                            }
                            assert(seq_views(ls@) =~= ls_spec.skip(k + 1));
                            assert(seq_views(ls_before)[0] == l@);
                            assert(l@ == ls_spec[k as int]);
                            assert(piece@ =~= indent@ + ls_spec[k as int]);
                        }
                        let ghost om = seq_views(out@);
                        let ghost pv = piece@;
                        let ghost rest = indent_lines(ls_spec, indent@, k + 1);
                        out.push(piece);
                        k = k + 1;
                        proof {
                            assert forall|x: int| 0 <= x < out@.len() implies #[trigger] seq_views(
                                out@,
                            )[x] == (om + seq![pv])[x] by {
                                if x < om.len() {
                                } else {
                                    assert(out@[x]@ == pv);
                                }
                            }
                            assert(seq_views(out@) =~= om + seq![pv]);
                            assert((om + seq![pv]) + rest =~= om + (seq![pv] + rest));
                        }
                    }
                    proof {
                        assert(seq_views(out@) + indent_lines(ls_spec, indent@, k as int)
                            =~= seq_views(out@));
                        assert(seq_views(out@) =~= phase_a_line(line@, frags));
                    }
                    out
                },
                Option::None => {
                    let copy = crate::text::sub_chars(line, 0, line.len());
                    out.push(copy);
                    proof {
                        assert(out@[0]@ =~= line@);
                        assert(seq_views(out@) =~= phase_a_line(line@, frags));
                    }
                    out
                },
            }
        },
        Option::None => {
            match find_directive(line, &kw_ext, 0) {
                Option::Some((ns, ne)) => {
                    proof {
                        lemma_match_directive_props(line@, "@extend"@, 0, ns as int, ne as int);
                    }
                    let name = crate::text::sub_chars(line, ns, ne);
                    let args_raw: Vec<char> = match directive_args_exec(line, ne) {
                        Option::Some(a) => a,
                        Option::None => Vec::new(),
                    };
                    let ghost marker_spec = if args_raw@.len() == 0 {
                        line@.subrange(ns as int, ne as int)
                    } else {
                        line@.subrange(ns as int, ne as int) + "("@ + args_raw@ + ")"@
                    };
                    let mut marker = crate::text::sub_chars(&name, 0, name.len());
                    if args_raw.len() > 0 {
                        let op = chars_vec("(");
                        push_all(&mut marker, &op);
                        push_all(&mut marker, &args_raw);
                        let cp = chars_vec(")");
                        push_all(&mut marker, &cp);
                    }
                    proof {
                        assert(marker@ =~= marker_spec);
                    }
                    let indent = leading_ws(line);
                    let mut piece = crate::text::sub_chars(&indent, 0, indent.len());
                    let head = chars_vec("x-openapi-extend: \"");
                    push_all(&mut piece, &head);
                    push_all(&mut piece, &marker);
                    let tail = chars_vec("\"");
                    push_all(&mut piece, &tail);
                    out.push(piece);
                    proof {
                        assert(out@[0]@ =~= line@.subrange(0, ws_end(line@, 0))
                            + "x-openapi-extend: \""@ + marker_spec + "\""@);
                        assert(seq_views(out@) =~= phase_a_line(line@, frags));
                    }
                    out
                },
                Option::None => {
                    let copy = crate::text::sub_chars(line, 0, line.len());
                    out.push(copy);
                    proof {
                        assert(out@[0]@ =~= line@);
                        assert(seq_views(out@) =~= phase_a_line(line@, frags));
                    }
                    out
                },
            }
        },
    }
}

/// Pre-processes a snippet: `@insert` and `@extend` directives are
/// expanded against the Registry's fragments line by line; if the
/// rewritten text parses as a tree, `x-openapi-extend` markers are
/// expanded structurally and the tree is re-rendered, otherwise the
/// rewritten text itself is returned.
#[verifier::loop_isolation(false)]
pub fn preprocess(content: &str, registry: &Registry) -> (r: String)
    requires
        registry.wf(),
    ensures
        ({
            let frags = registry.fragments.map_of();
            let pa = phase_a_spec(content@, frags);
            match yaml_doc_of(pa) {
                Option::None => r@ == pa,
                Option::Some(d) => r@ == yaml_text_of(
                    process_value_spec(d, frags, MAX_EXPAND_DEPTH as nat),
                ) || r@ == pa,
            }
        }),
{
    let ghost frags = registry.fragments.map_of();
    let cv = chars_vec(content);
    let ghost ls_spec = split_lines_spec(content@);
    let mut lines = split_lines(&cv);
    let lcount = lines.len();
    proof {
        assert(ls_spec.len() == lcount);
    }
    let mut out: Vec<Vec<char>> = Vec::new();
    let mut k: usize = 0;
    while lines.len() > 0
        invariant
            k + lines@.len() == ls_spec.len(),
            seq_views(lines@) == ls_spec.skip(k as int),
            phase_a_lines(ls_spec, frags, 0) == seq_views(out@) + phase_a_lines(
                ls_spec,
                frags,
                k as int,
            ),
        decreases lines@.len(),
    {
        let ghost lines_before = lines@;
        let line = lines.remove(0);
        proof {
            assert(lines@ =~= lines_before.skip(1));
            assert forall|p: int| 0 <= p < lines@.len() implies #[trigger] seq_views(lines@)[p]
                == ls_spec.skip(k + 1)[p] by {
                assert(lines@[p] == lines_before[p + 1]);
                assert(seq_views(lines_before)[p + 1] == lines_before[p + 1]@);
            }
            assert(seq_views(lines@) =~= ls_spec.skip(k + 1));
            assert(seq_views(lines_before)[0] == line@);
            assert(line@ == ls_spec[k as int]);
        }
        let mut chunk = phase_a_line_exec(&line, registry);
        let ghost om = seq_views(out@);
        let ghost cm = seq_views(chunk@);
        let ghost chunk_view = chunk@;
        let ghost rest = phase_a_lines(ls_spec, frags, k + 1);
        out.append(&mut chunk);
        k = k + 1;
        proof {
            assert forall|x: int| 0 <= x < out@.len() implies #[trigger] seq_views(out@)[x] == (om
                + cm)[x] by {
                if x < om.len() {
                } else {
                    assert(out@[x] == chunk_view[x - om.len()]);
                    assert(seq_views(chunk_view)[x - om.len()] == chunk_view[x - om.len()]@);
                }
            }
            assert(seq_views(out@) =~= om + cm);
            assert((om + cm) + rest =~= om + (cm + rest));
        }
    }
    proof {
        assert(seq_views(out@) + phase_a_lines(ls_spec, frags, k as int) =~= seq_views(out@));
    }
    let pa = join_with_nl(&out);
    let pa_s = string_of(&pa);
    proof {
        assert(pa_s@ == phase_a_spec(content@, frags));
    }
    match parse_yaml(pa_s.as_str()) {
        Option::None => pa_s,
        Option::Some(d) => {
            let processed = process_value(d, registry, MAX_EXPAND_DEPTH);
            match emit_yaml(&processed) {
                Option::Some(s) => s,
                Option::None => pa_s,
            }
        },
    }
}

} // verus!
