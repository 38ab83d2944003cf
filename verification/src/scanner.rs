//! Snippets: provenance-carrying units of specification text, and the
//! pipeline passes that rewrite them.
use vstd::prelude::*;
use crate::generics::{BlueprintMap, SchemaMap};
use crate::index::Registry;
use crate::preprocessor::{word_end, ws_end};
use crate::text::{
    char_whitespace, chars_vec, is_digit_char, is_word_char, join_lines, join_with_nl, matches_at,
    push_all, replace_all, seq_views, split_lines, split_lines_spec, string_of, sub_chars,
};

verus! {

/// A source-mapped snippet of specification text.
#[derive(Debug)]
pub struct Snippet {
    pub content: String,
    pub file_path: String,
    pub line_number: usize,
}

/// The mathematical value of a snippet.
pub struct SnippetModel {
    pub content: Seq<char>,
    pub file_path: Seq<char>,
    pub line_number: int,
}

impl View for Snippet {
    type V = SnippetModel;

    open spec fn view(&self) -> SnippetModel {
        SnippetModel {
            content: self.content@,
            file_path: self.file_path@,
            line_number: self.line_number as int,
        }
    }
}

/// The models of a vector of snippets.
pub open spec fn snippets_model(v: Seq<Snippet>) -> Seq<SnippetModel> {
    Seq::new(v.len(), |i: int| v[i]@)
}


// ----------------------------------------------------------------------
// Shorthand macro expansion (the second pipeline pass).

/// The end of a run of characters an inline generic argument list may
/// hold: word characters, commas and plain spaces.
pub open spec fn is_flat_arg_char(c: char) -> bool {
    is_word_char(c) || c == ',' || c == ' '
}

/// The first position at or after `i` that is no inline-argument
/// character.
pub open spec fn flat_end(s: Seq<char>, i: int) -> int
    decreases s.len() - i,
{
    if i < 0 || i >= s.len() {
        i
    } else if is_flat_arg_char(s[i]) {
        flat_end(s, i + 1)
    } else {
        i
    }
}

proof fn lemma_flat_end_range(s: Seq<char>, i: int)
    requires
        0 <= i <= s.len(),
    ensures
        i <= flat_end(s, i) <= s.len(),
    decreases s.len() - i,
{
    if i < s.len() && is_flat_arg_char(s[i]) {
        lemma_flat_end_range(s, i + 1);
    }
}

proof fn lemma_flat_end_skip(s: Seq<char>, i: int, upto: int)
    requires
        0 <= i <= upto <= s.len(),
        forall|j: int| i <= j < upto ==> is_flat_arg_char(#[trigger] s[j]),
    ensures
        flat_end(s, i) == flat_end(s, upto),
    decreases upto - i,
{
    if i < upto {
        lemma_flat_end_skip(s, i + 1, upto);
    }
}

/// One cursor pass expanding the array shorthand: every
/// `$Vec<Name>` becomes an inline array schema referencing `Name`.
pub open spec fn vec_short(s: Seq<char>, i: int) -> Seq<char>
    decreases s.len() - i,
    via vec_short_dec
{
    if i < 0 || i >= s.len() {
        Seq::empty()
    } else if matches_at(s, "$Vec<"@, i) {
        let ws = i + 5;
        let we = word_end(s, ws);
        if we > ws && we < s.len() && s[we] == '>' {
            "{ type: array, items: { $ref: \"#/components/schemas/"@ + s.subrange(ws, we)
                + "\" } }"@ + vec_short(s, we + 1)
        } else {
            seq![s[i]] + vec_short(s, i + 1)
        }
    } else {
        seq![s[i]] + vec_short(s, i + 1)
    }
}

#[via_fn]
proof fn vec_short_dec(s: Seq<char>, i: int) {
    if 0 <= i < s.len() && matches_at(s, "$Vec<"@, i) {
        if i + 5 <= s.len() {
            crate::preprocessor::lemma_word_end_range(s, i + 5);
        }
    }
}

/// One cursor pass flattening inline generics: every
/// `$Name<Args>` whose argument text holds only words, commas and
/// spaces is monomorphized and replaced by its mangled reference.
pub open spec fn flatten_generics(s: Seq<char>, i: int, cs: SchemaMap, bps: BlueprintMap) -> (
    Seq<char>,
    SchemaMap,
)
    decreases s.len() - i,
    via flatten_generics_dec
{
    if i < 0 || i >= s.len() {
        (Seq::empty(), cs)
    } else if s[i] == '$' && i + 1 <= s.len() {
        let ne = word_end(s, i + 1);
        if ne > i + 1 && ne < s.len() && s[ne] == '<' {
            let ae = flat_end(s, ne + 1);
            if ae > ne + 1 && ae < s.len() && s[ae] == '>' {
                let name = s.subrange(i + 1, ne);
                let args = s.subrange(ne + 1, ae);
                let (mangled, cs1) = crate::generics::mono_spec(
                    name,
                    args,
                    cs,
                    bps,
                    crate::generics::MAX_RESOLVE_DEPTH as nat,
                );
                let (rest, cs2) = flatten_generics(s, ae + 1, cs1, bps);
                (seq!['$'] + mangled + rest, cs2)
            } else {
                let (rest, cs2) = flatten_generics(s, i + 1, cs, bps);
                (seq![s[i]] + rest, cs2)
            }
        } else {
            let (rest, cs2) = flatten_generics(s, i + 1, cs, bps);
            (seq![s[i]] + rest, cs2)
        }
    } else {
        let (rest, cs2) = flatten_generics(s, i + 1, cs, bps);
        (seq![s[i]] + rest, cs2)
    }
}

#[via_fn]
proof fn flatten_generics_dec(s: Seq<char>, i: int, cs: SchemaMap, bps: BlueprintMap) {
    if 0 <= i < s.len() && s[i] == '$' {
        crate::preprocessor::lemma_word_end_range(s, i + 1);
        let ne = word_end(s, i + 1);
        if ne > i + 1 && ne < s.len() && s[ne] == '<' {
            lemma_flat_end_range(s, ne + 1);
        }
    }
}

/// The end of a run of characters that a `@return` schema token may
/// hold: anything but whitespace and double quotes.
pub open spec fn tok_end(s: Seq<char>, i: int) -> int
    decreases s.len() - i,
{
    if i < 0 || i >= s.len() {
        i
    } else if !char_whitespace(s[i]) && s[i] != '"' {
        tok_end(s, i + 1)
    } else {
        i
    }
}

proof fn lemma_tok_end_range(s: Seq<char>, i: int)
    requires
        0 <= i <= s.len(),
    ensures
        i <= tok_end(s, i) <= s.len(),
    decreases s.len() - i,
{
    if i < s.len() && !char_whitespace(s[i]) && s[i] != '"' {
        lemma_tok_end_range(s, i + 1);
    }
}

proof fn lemma_tok_end_skip(s: Seq<char>, i: int, upto: int)
    requires
        0 <= i <= upto <= s.len(),
        forall|j: int| i <= j < upto ==> !char_whitespace(#[trigger] s[j]) && s[j] != '"',
    ensures
        tok_end(s, i) == tok_end(s, upto),
    decreases upto - i,
{
    if i < upto {
        lemma_tok_end_skip(s, i + 1, upto);
    }
}

/// A `@return` helper line: leading whitespace, the keyword, a
/// three-digit status, a colon, a schema token, and an optional quoted
/// description ending the line.
pub open spec fn return_match(line: Seq<char>) -> Option<(int, Seq<char>, Seq<char>, Seq<char>)> {
    let i0 = ws_end(line, 0);
    if !matches_at(line, "@return"@, i0) {
        None
    } else {
        let q = i0 + 7;
        let w = ws_end(line, q);
        if !(w > q && w + 3 <= line.len() && is_digit_char(line[w]) && is_digit_char(line[w + 1])
            && is_digit_char(line[w + 2])) {
            None
        } else {
            let t = w + 3;
            let u = ws_end(line, t);
            if !(u < line.len() && line[u] == ':') {
                None
            } else {
                let v = ws_end(line, u + 1);
                let se = tok_end(line, v);
                if se <= v {
                    None
                } else {
                    let status = line.subrange(w, t);
                    let schema = line.subrange(v, se);
                    if se == line.len() {
                        Some((i0, status, schema, "Success"@))
                    } else {
                        let d = ws_end(line, se);
                        if d > se && d < line.len() && line[d] == '"' && line.last() == '"'
                            && line.len() - 1 > d {
                            Some((i0, status, schema, line.subrange(d + 1, line.len() - 1)))
                        } else {
                            None
                        }
                    }
                }
            }
        }
    }
}

/// The six lines a `@return` helper expands to.
pub open spec fn return_lines(
    indent: Seq<char>,
    status: Seq<char>,
    schema: Seq<char>,
    desc: Seq<char>,
) -> Seq<Seq<char>> {
    let schema_line = if schema.len() >= 4 && schema.subrange(0, 4) == "$Vec"@ {
        indent + "        "@ + schema
    } else {
        indent + "        $ref: "@ + schema
    };
    seq![
        indent + "'"@ + status + "':"@,
        indent + "  description: \""@ + desc + "\""@,
        indent + "  content:"@,
        indent + "    application/json:"@,
        indent + "      schema:"@,
        schema_line,
    ]
}

/// A parameterless `@insert` shorthand line: optional dash, the
/// keyword, and a bare name ending the line.
pub open spec fn insert_short(line: Seq<char>) -> Option<(Seq<char>, Seq<char>)> {
    let i0 = ws_end(line, 0);
    let j = if i0 < line.len() && line[i0] == '-' {
        ws_end(line, i0 + 1)
    } else {
        i0
    };
    if !matches_at(line, "@insert"@, j) {
        None
    } else {
        let q = j + 7;
        let w = ws_end(line, q);
        if w > q && w < line.len() && is_word_char(line[w]) {
            let ne = word_end(line, w);
            if ne == line.len() {
                Some((line.subrange(0, i0), line.subrange(w, ne)))
            } else {
                None
            }
        } else {
            None
        }
    }
}

/// An `@extend` shorthand line: leading whitespace, the keyword
/// directly after it, whitespace, then the rest of the line.
pub open spec fn extend_short(line: Seq<char>) -> Option<(Seq<char>, Seq<char>)> {
    let i0 = ws_end(line, 0);
    if !matches_at(line, "@extend"@, i0) {
        None
    } else {
        let q = i0 + 7;
        let w = ws_end(line, q);
        if w == q {
            None
        } else if w < line.len() {
            Some((line.subrange(0, i0), line.subrange(w, line.len() as int)))
        } else if line.len() - q >= 2 {
            Some((line.subrange(0, i0), line.subrange(line.len() - 1, line.len() as int)))
        } else {
            None
        }
    }
}

/// What one already-expanded line becomes: the array shorthand, then
/// inline generic flattening, then the parameterless-insert and
/// auto-quoting extend shorthands.
pub open spec fn macro_subline(
    line: Seq<char>,
    frags: crate::preprocessor::FragmentMap,
    cs: SchemaMap,
    bps: BlueprintMap,
) -> (Seq<Seq<char>>, SchemaMap) {
    let v1 = vec_short(line, 0);
    let (v2, cs1) = flatten_generics(v1, 0, cs, bps);
    match insert_short(v2) {
        Option::Some((ind, name)) => {
            if !frags.contains_key(name) {
                (
                    seq![ind + "- "@ + "$ref: \"#/components/parameters/"@ + name + "\""@],
                    cs1,
                )
            } else {
                match extend_short(v2) {
                    Option::Some((ind2, content)) => (
                        seq![
                            ind2 + "x-openapi-extend: '"@ + crate::text::replace_spec(
                                content,
                                "'"@,
                                "''"@,
                            ) + "'"@,
                        ],
                        cs1,
                    ),
                    Option::None => (seq![v2], cs1),
                }
            }
        },
        Option::None => {
            match extend_short(v2) {
                Option::Some((ind2, content)) => (
                    seq![
                        ind2 + "x-openapi-extend: '"@ + crate::text::replace_spec(
                            content,
                            "'"@,
                            "''"@,
                        ) + "'"@,
                    ],
                    cs1,
                ),
                Option::None => (seq![v2], cs1),
            }
        },
    }
}

/// The sublines of one input line (a `@return` expansion or the line
/// itself), each put through `macro_subline`, in order.
pub open spec fn macro_sublines(
    ls: Seq<Seq<char>>,
    k: int,
    frags: crate::preprocessor::FragmentMap,
    cs: SchemaMap,
    bps: BlueprintMap,
) -> (Seq<Seq<char>>, SchemaMap)
    decreases ls.len() - k,
{
    if k < 0 || k >= ls.len() {
        (Seq::empty(), cs)
    } else {
        let (first, cs1) = macro_subline(ls[k], frags, cs, bps);
        let (rest, cs2) = macro_sublines(ls, k + 1, frags, cs1, bps);
        (first + rest, cs2)
    }
}

/// What one input line becomes under the macro pass.
pub open spec fn macro_line(
    line: Seq<char>,
    frags: crate::preprocessor::FragmentMap,
    cs: SchemaMap,
    bps: BlueprintMap,
) -> (Seq<Seq<char>>, SchemaMap) {
    match return_match(line) {
        Option::Some((i0, status, schema, desc)) => macro_sublines(
            return_lines(line.subrange(0, i0), status, schema, desc),
            0,
            frags,
            cs,
            bps,
        ),
        Option::None => macro_sublines(seq![line], 0, frags, cs, bps),
    }
}

/// The macro pass over every line of a snippet.
pub open spec fn macro_lines(
    ls: Seq<Seq<char>>,
    k: int,
    frags: crate::preprocessor::FragmentMap,
    cs: SchemaMap,
    bps: BlueprintMap,
) -> (Seq<Seq<char>>, SchemaMap)
    decreases ls.len() - k,
{
    if k < 0 || k >= ls.len() {
        (Seq::empty(), cs)
    } else {
        let (first, cs1) = macro_line(ls[k], frags, cs, bps);
        let (rest, cs2) = macro_lines(ls, k + 1, frags, cs1, bps);
        (first + rest, cs2)
    }
}


// ----------------------------------------------------------------------
// Executable macro expansion.

/// Expands the array shorthand across one line.
#[verifier::loop_isolation(false)]
fn vec_short_exec(line: &Vec<char>) -> (r: Vec<char>)
    ensures
        r@ == vec_short(line@, 0),
{
    let ghost s = line@;
    let pat = chars_vec("$Vec<");
    proof {
        reveal_strlit("$Vec<");
    }
    let rep_head = chars_vec("{ type: array, items: { $ref: \"#/components/schemas/");
    let rep_tail = chars_vec("\" } }");
    let n = line.len();
    let mut out: Vec<char> = Vec::new();
    let mut i: usize = 0;
    while i < n
        invariant
            i <= n,
            vec_short(s, 0) == out@ + vec_short(s, i as int),
        decreases n - i,
    {
        let is_vec = crate::text::check_match_at(line, &pat, i);
        let mut advanced = false;
        if is_vec {
            let ws = i + 5;
            let mut we: usize = ws;
            while we < n && crate::text::word_char(line[we])
                invariant
                    ws <= we <= n,
                    forall|j: int| ws <= j < we ==> is_word_char(#[trigger] s[j]),
                decreases n - we,
            {
                we = we + 1;
            }
            proof {
                crate::preprocessor::lemma_word_end_skip(s, ws as int, we as int);
                assert(word_end(s, we as int) == we as int);
            }
            if we > ws && we < n && line[we] == '>' {
                push_all(&mut out, &rep_head);
                let name = sub_chars(line, ws, we);
                push_all(&mut out, &name);
                push_all(&mut out, &rep_tail);
                i = we + 1;
                advanced = true;
                proof {
                    assert(vec_short(s, 0) =~= out@ + vec_short(s, i as int));
                }
            }
        }
        if !advanced {
            out.push(line[i]);
            i = i + 1;
            proof {
                assert(vec_short(s, 0) =~= out@ + vec_short(s, i as int));
            }
        }
    }
    proof {
        assert(vec_short(s, 0) =~= out@ + vec_short(s, i as int));
        assert(out@ + vec_short(s, i as int) =~= out@);
    }
    out
}

/// Flattens inline generics across one line, instantiating each
/// through the Monomorphizer.
#[verifier::loop_isolation(false)]
fn flatten_exec(line: &Vec<char>, mono: &mut crate::generics::Monomorphizer) -> (r: Vec<char>)
    requires
        old(mono).registry.wf(),
    ensures
        final(mono).registry.wf(),
        ({
            let (t, m) = flatten_generics(
                line@,
                0,
                old(mono).registry.concrete_schemas.map_of(),
                old(mono).registry.blueprints.map_of(),
            );
            r@ == t && final(mono).registry.concrete_schemas.map_of() == m
        }),
        final(mono).registry.blueprints == old(mono).registry.blueprints,
        final(mono).registry.fragments == old(mono).registry.fragments,
        final(mono).registry.schemas == old(mono).registry.schemas,
{
    let ghost s = line@;
    let ghost bps = old(mono).registry.blueprints.map_of();
    let ghost cs0 = old(mono).registry.concrete_schemas.map_of();
    let n = line.len();
    let mut out: Vec<char> = Vec::new();
    let mut i: usize = 0;
    while i < n
        invariant
            i <= n,
            mono.registry.wf(),
            mono.registry.blueprints == old(mono).registry.blueprints,
            mono.registry.fragments == old(mono).registry.fragments,
            mono.registry.schemas == old(mono).registry.schemas,
            mono.registry.blueprints.map_of() == bps,
            flatten_generics(s, 0, cs0, bps) == {
                let (t, m) = flatten_generics(
                    s,
                    i as int,
                    mono.registry.concrete_schemas.map_of(),
                    bps,
                );
                (out@ + t, m)
            },
        decreases n - i,
    {
        let mut advanced = false;
        if line[i] == '$' {
            let mut ne: usize = i + 1;
            while ne < n && crate::text::word_char(line[ne])
                invariant
                    i + 1 <= ne <= n,
                    forall|j: int| i + 1 <= j < ne ==> is_word_char(#[trigger] s[j]),
                decreases n - ne,
            {
                ne = ne + 1;
            }
            proof {
                crate::preprocessor::lemma_word_end_skip(s, i + 1, ne as int);
                assert(word_end(s, ne as int) == ne as int);
            }
            if ne > i + 1 && ne < n && line[ne] == '<' {
                let mut ae: usize = ne + 1;
                while ae < n && (crate::text::word_char(line[ae]) || line[ae] == ','
                    || line[ae] == ' ')
                    invariant
                        ne + 1 <= ae <= n,
                        forall|j: int| ne + 1 <= j < ae ==> is_flat_arg_char(#[trigger] s[j]),
                    decreases n - ae,
                {
                    ae = ae + 1;
                }
                proof {
                    lemma_flat_end_skip(s, ne + 1, ae as int);
                    assert(flat_end(s, ae as int) == ae as int);
                }
                if ae > ne + 1 && ae < n && line[ae] == '>' {
                    let name = sub_chars(line, i + 1, ne);
                    let args = sub_chars(line, ne + 1, ae);
                    let name_s = string_of(&name);
                    let args_s = string_of(&args);
                    let mangled = mono.monomorphize(name_s.as_str(), args_s.as_str());
                    out.push('$');
                    let mv = chars_vec(mangled.as_str());
                    push_all(&mut out, &mv);
                    i = ae + 1;
                    advanced = true;
                }
            }
        }
        if !advanced {
            out.push(line[i]);
            i = i + 1;
        }
    }
    proof {
        let (t, m) = flatten_generics(s, i as int, mono.registry.concrete_schemas.map_of(), bps);
        assert(out@ + t =~= out@);
    }
    out
}

/// Matches a `@return` helper line, yielding the indent end, status,
/// schema, and description.
#[verifier::loop_isolation(false)]
fn return_match_exec(line: &Vec<char>) -> (r: Option<(usize, Vec<char>, Vec<char>, Vec<char>)>)
    ensures
        match r {
            Some((i0, st, sc, de)) => return_match(line@) == Some(
                (i0 as int, st@, sc@, de@),
            ),
            None => return_match(line@) is None,
        },
{
    let ghost s = line@;
    let n = line.len();
    let mut i0: usize = 0;
    while i0 < n && line[i0].is_whitespace()
        invariant
            i0 <= n,
            forall|j: int| 0 <= j < i0 ==> char_whitespace(#[trigger] s[j]),
        decreases n - i0,
    {
        i0 = i0 + 1;
    }
    proof {
        crate::preprocessor::lemma_ws_end_skip(s, 0, i0 as int);
        assert(ws_end(s, i0 as int) == i0 as int);
    }
    let kw = chars_vec("@return");
    proof {
        reveal_strlit("@return");
    }
    if !crate::text::check_match_at(line, &kw, i0) {
        return None;
    }
    let q = i0 + 7;
    let mut w: usize = q;
    while w < n && line[w].is_whitespace()
        invariant
            q <= w <= n,
            forall|j: int| q <= j < w ==> char_whitespace(#[trigger] s[j]),
        decreases n - w,
    {
        w = w + 1;
    }
    proof {
        crate::preprocessor::lemma_ws_end_skip(s, q as int, w as int);
        assert(ws_end(s, w as int) == w as int);
    }
    if !(w > q && n - w >= 3 && crate::text::digit_char(line[w]) && crate::text::digit_char(
        line[w + 1],
    ) && crate::text::digit_char(line[w + 2])) {
        return None;
    }
    let t = w + 3;
    let mut u: usize = t;
    while u < n && line[u].is_whitespace()
        invariant
            t <= u <= n,
            forall|j: int| t <= j < u ==> char_whitespace(#[trigger] s[j]),
        decreases n - u,
    {
        u = u + 1;
    }
    proof {
        crate::preprocessor::lemma_ws_end_skip(s, t as int, u as int);
        assert(ws_end(s, u as int) == u as int);
    }
    if !(u < n && line[u] == ':') {
        return None;
    }
    let mut v: usize = u + 1;
    while v < n && line[v].is_whitespace()
        invariant
            u + 1 <= v <= n,
            forall|j: int| u + 1 <= j < v ==> char_whitespace(#[trigger] s[j]),
        decreases n - v,
    {
        v = v + 1;
    }
    proof {
        crate::preprocessor::lemma_ws_end_skip(s, u + 1, v as int);
        assert(ws_end(s, v as int) == v as int);
    }
    let mut se: usize = v;
    while se < n && !line[se].is_whitespace() && line[se] != '"'
        invariant
            v <= se <= n,
            forall|j: int| v <= j < se ==> !char_whitespace(#[trigger] s[j]) && s[j] != '"',
        decreases n - se,
    {
        se = se + 1;
    }
    proof {
        lemma_tok_end_skip(s, v as int, se as int);
        assert(tok_end(s, se as int) == se as int);
    }
    if se <= v {
        return None;
    }
    let status = sub_chars(line, w, t);
    let schema = sub_chars(line, v, se);
    if se == n {
        let de = chars_vec("Success");
        return Some((i0, status, schema, de));
    }
    let mut d: usize = se;
    while d < n && line[d].is_whitespace()
        invariant
            se <= d <= n,
            forall|j: int| se <= j < d ==> char_whitespace(#[trigger] s[j]),
        decreases n - d,
    {
        d = d + 1;
    }
    proof {
        crate::preprocessor::lemma_ws_end_skip(s, se as int, d as int);
        assert(ws_end(s, d as int) == d as int);
    }
    if d > se && d < n && line[d] == '"' && line[n - 1] == '"' && n - 1 > d {
        let de = sub_chars(line, d + 1, n - 1);
        Some((i0, status, schema, de))
    } else {
        None
    }
}

/// Matches the parameterless `@insert` shorthand.
#[verifier::loop_isolation(false)]
fn insert_short_exec(line: &Vec<char>) -> (r: Option<(Vec<char>, Vec<char>)>)
    ensures
        match r {
            Some((ind, name)) => insert_short(line@) == Some((ind@, name@)),
            None => insert_short(line@) is None,
        },
{
    let ghost s = line@;
    let n = line.len();
    let mut i0: usize = 0;
    while i0 < n && line[i0].is_whitespace()
        invariant
            i0 <= n,
            forall|j: int| 0 <= j < i0 ==> char_whitespace(#[trigger] s[j]),
        decreases n - i0,
    {
        i0 = i0 + 1;
    }
    proof {
        crate::preprocessor::lemma_ws_end_skip(s, 0, i0 as int);
        assert(ws_end(s, i0 as int) == i0 as int);
    }
    let mut j: usize = i0;
    if i0 < n && line[i0] == '-' {
        j = i0 + 1;
        while j < n && line[j].is_whitespace()
            invariant
                i0 + 1 <= j <= n,
                forall|q: int| i0 + 1 <= q < j ==> char_whitespace(#[trigger] s[q]),
            decreases n - j,
        {
            j = j + 1;
        }
        proof {
            crate::preprocessor::lemma_ws_end_skip(s, i0 + 1, j as int);
            assert(ws_end(s, j as int) == j as int);
        }
    }
    let kw = chars_vec("@insert");
    proof {
        reveal_strlit("@insert");
    }
    if !crate::text::check_match_at(line, &kw, j) {
        return None;
    }
    let q = j + 7;
    let mut w: usize = q;
    while w < n && line[w].is_whitespace()
        invariant
            q <= w <= n,
            forall|p: int| q <= p < w ==> char_whitespace(#[trigger] s[p]),
        decreases n - w,
    {
        w = w + 1;
    }
    proof {
        crate::preprocessor::lemma_ws_end_skip(s, q as int, w as int);
        assert(ws_end(s, w as int) == w as int);
    }
    if w > q && w < n && crate::text::word_char(line[w]) {
        let mut ne: usize = w;
        while ne < n && crate::text::word_char(line[ne])
            invariant
                w <= ne <= n,
                forall|p: int| w <= p < ne ==> is_word_char(#[trigger] s[p]),
            decreases n - ne,
        {
            ne = ne + 1;
        }
        proof {
            crate::preprocessor::lemma_word_end_skip(s, w as int, ne as int);
            assert(word_end(s, ne as int) == ne as int);
        }
        if ne == n {
            let ind = sub_chars(line, 0, i0);
            let name = sub_chars(line, w, ne);
            Some((ind, name))
        } else {
            None
        }
    } else {
        None
    }
}

/// Matches the `@extend` shorthand line.
#[verifier::loop_isolation(false)]
fn extend_short_exec(line: &Vec<char>) -> (r: Option<(Vec<char>, Vec<char>)>)
    ensures
        match r {
            Some((ind, content)) => extend_short(line@) == Some((ind@, content@)),
            None => extend_short(line@) is None,
        },
{
    let ghost s = line@;
    let n = line.len();
    let mut i0: usize = 0;
    while i0 < n && line[i0].is_whitespace()
        invariant
            i0 <= n,
            forall|j: int| 0 <= j < i0 ==> char_whitespace(#[trigger] s[j]),
        decreases n - i0,
    {
        i0 = i0 + 1;
    }
    proof {
        crate::preprocessor::lemma_ws_end_skip(s, 0, i0 as int);
        assert(ws_end(s, i0 as int) == i0 as int);
    }
    let kw = chars_vec("@extend");
    proof {
        reveal_strlit("@extend");
    }
    if !crate::text::check_match_at(line, &kw, i0) {
        return None;
    }
    let q = i0 + 7;
    let mut w: usize = q;
    while w < n && line[w].is_whitespace()
        invariant
            q <= w <= n,
            forall|j: int| q <= j < w ==> char_whitespace(#[trigger] s[j]),
        decreases n - w,
    {
        w = w + 1;
    }
    proof {
        crate::preprocessor::lemma_ws_end_skip(s, q as int, w as int);
        assert(ws_end(s, w as int) == w as int);
    }
    if w == q {
        return None;
    }
    let ind = sub_chars(line, 0, i0);
    if w < n {
        let content = sub_chars(line, w, n);
        Some((ind, content))
    } else if n - q >= 2 {
        let content = sub_chars(line, n - 1, n);
        Some((ind, content))
    } else {
        None
    }
}


/// One expanded line through the per-line shorthand passes.
fn macro_subline_exec(line: &Vec<char>, mono: &mut crate::generics::Monomorphizer) -> (r: Vec<
    Vec<char>,
>)
    requires
        old(mono).registry.wf(),
    ensures
        final(mono).registry.wf(),
        ({
            let (ls, m) = macro_subline(
                line@,
                old(mono).registry.fragments.map_of(),
                old(mono).registry.concrete_schemas.map_of(),
                old(mono).registry.blueprints.map_of(),
            );
            seq_views(r@) == ls && final(mono).registry.concrete_schemas.map_of() == m
        }),
        final(mono).registry.blueprints == old(mono).registry.blueprints,
        final(mono).registry.fragments == old(mono).registry.fragments,
        final(mono).registry.schemas == old(mono).registry.schemas,
{
    let ghost frags = old(mono).registry.fragments.map_of();
    let v1 = vec_short_exec(line);
    let v2 = flatten_exec(&v1, mono);
    let mut out: Vec<Vec<char>> = Vec::new();
    let mut short_insert = false;
    match insert_short_exec(&v2) {
        Option::Some((ind, name)) => {
            let name_s = string_of(&name);
            if !mono.registry.fragments.contains_key(&name_s) {
                let mut piece = ind;
                let mid = chars_vec("- ");
                push_all(&mut piece, &mid);
                let head = chars_vec("$ref: \"#/components/parameters/");
                push_all(&mut piece, &head);
                push_all(&mut piece, &name);
                let tail = chars_vec("\"");
                push_all(&mut piece, &tail);
                out.push(piece);
                short_insert = true;
            }
        },
        Option::None => {},
    }
    if short_insert {
        proof {
            assert(seq_views(out@) =~= macro_subline(
                line@,
                frags,
                old(mono).registry.concrete_schemas.map_of(),
                old(mono).registry.blueprints.map_of(),
            ).0);
        }
        return out;
    }
    match extend_short_exec(&v2) {
        Option::Some((ind2, content)) => {
            let q1 = chars_vec("'");
            let q2 = chars_vec("''");
            let escaped = replace_all(&content, &q1, &q2);
            let mut piece = ind2;
            let head = chars_vec("x-openapi-extend: '");
            push_all(&mut piece, &head);
            push_all(&mut piece, &escaped);
            let tail = chars_vec("'");
            push_all(&mut piece, &tail);
            out.push(piece);
            proof {
                assert(seq_views(out@) =~= macro_subline(
                    line@,
                    frags,
                    old(mono).registry.concrete_schemas.map_of(),
                    old(mono).registry.blueprints.map_of(),
                ).0);
            }
            out
        },
        Option::None => {
            out.push(v2);
            proof {
                assert(seq_views(out@) =~= macro_subline(
                    line@,
                    frags,
                    old(mono).registry.concrete_schemas.map_of(),
                    old(mono).registry.blueprints.map_of(),
                ).0);
            }
            out
        },
    }
}

/// One input line through the macro pass, `@return` expansion first.
#[verifier::loop_isolation(false)]
fn macro_line_exec(line: &Vec<char>, mono: &mut crate::generics::Monomorphizer) -> (r: Vec<Vec<
    char,
>>)
    requires
        old(mono).registry.wf(),
    ensures
        final(mono).registry.wf(),
        ({
            let (ls, m) = macro_line(
                line@,
                old(mono).registry.fragments.map_of(),
                old(mono).registry.concrete_schemas.map_of(),
                old(mono).registry.blueprints.map_of(),
            );
            seq_views(r@) == ls && final(mono).registry.concrete_schemas.map_of() == m
        }),
        final(mono).registry.blueprints == old(mono).registry.blueprints,
        final(mono).registry.fragments == old(mono).registry.fragments,
        final(mono).registry.schemas == old(mono).registry.schemas,
{
    let ghost frags = old(mono).registry.fragments.map_of();
    let ghost cs0 = old(mono).registry.concrete_schemas.map_of();
    let ghost bps = old(mono).registry.blueprints.map_of();
    let mut sublines: Vec<Vec<char>> = Vec::new();
    let ghost sub_spec: Seq<Seq<char>>;
    match return_match_exec(line) {
        Option::Some((i0, status, schema, desc)) => {
            let indent = sub_chars(line, 0, i0);
            let vec_pat = chars_vec("$Vec");
            proof {
                reveal_strlit("$Vec");
            }
            let is_vec = crate::text::check_match_at(&schema, &vec_pat, 0);
            let mut l1 = sub_chars(&indent, 0, indent.len());
            let p1a = chars_vec("'");
            push_all(&mut l1, &p1a);
            push_all(&mut l1, &status);
            let p1b = chars_vec("':");
            push_all(&mut l1, &p1b);
            let mut l2 = sub_chars(&indent, 0, indent.len());
            let p2a = chars_vec("  description: \"");
            push_all(&mut l2, &p2a);
            push_all(&mut l2, &desc);
            let p2b = chars_vec("\"");
            push_all(&mut l2, &p2b);
            let mut l3 = sub_chars(&indent, 0, indent.len());
            let p3 = chars_vec("  content:");
            push_all(&mut l3, &p3);
            let mut l4 = sub_chars(&indent, 0, indent.len());
            let p4 = chars_vec("    application/json:");
            push_all(&mut l4, &p4);
            let mut l5 = sub_chars(&indent, 0, indent.len());
            let p5 = chars_vec("      schema:");
            push_all(&mut l5, &p5);
            let mut l6 = sub_chars(&indent, 0, indent.len());
            if is_vec {
                let p6 = chars_vec("        ");
                push_all(&mut l6, &p6);
                push_all(&mut l6, &schema);
            } else {
                let p6 = chars_vec("        $ref: ");
                push_all(&mut l6, &p6);
                push_all(&mut l6, &schema);
            }
            proof {
                sub_spec = return_lines(line@.subrange(0, i0 as int), status@, schema@, desc@);
            }
            sublines.push(l1);
            sublines.push(l2);
            sublines.push(l3);
            sublines.push(l4);
            sublines.push(l5);
            sublines.push(l6);
            proof {
                assert(seq_views(sublines@)[0] =~= sub_spec[0]);
                assert(seq_views(sublines@)[1] =~= sub_spec[1]);
                assert(seq_views(sublines@)[2] =~= sub_spec[2]);
                assert(seq_views(sublines@)[3] =~= sub_spec[3]);
                assert(seq_views(sublines@)[4] =~= sub_spec[4]);
                assert(seq_views(sublines@)[5] =~= sub_spec[5]);
                assert(seq_views(sublines@) =~~= sub_spec);
            }
        },
        Option::None => {
            let copy = sub_chars(line, 0, line.len());
            proof {
                assert(copy@ =~= line@);
            }
            sublines.push(copy);
            proof {
                sub_spec = seq![line@];
                assert(seq_views(sublines@) =~= sub_spec);
            }
        },
    }
    // Push every subline through the per-line passes.
    let mut out: Vec<Vec<char>> = Vec::new();
    let mut k: usize = 0;
    let total = sublines.len();
    proof {
        assert(sub_spec.len() == total);
        assert(seq_views(sublines@) =~= sub_spec.skip(0));
    }
    while sublines.len() > 0
        invariant
            k + sublines@.len() == sub_spec.len(),
            seq_views(sublines@) == sub_spec.skip(k as int),
            mono.registry.wf(),
            mono.registry.blueprints == old(mono).registry.blueprints,
            mono.registry.fragments == old(mono).registry.fragments,
            mono.registry.schemas == old(mono).registry.schemas,
            mono.registry.blueprints.map_of() == bps,
            mono.registry.fragments.map_of() == frags,
            macro_sublines(sub_spec, 0, frags, cs0, bps) == {
                let (rest, m) = macro_sublines(
                    sub_spec,
                    k as int,
                    frags,
                    mono.registry.concrete_schemas.map_of(),
                    bps,
                );
                (seq_views(out@) + rest, m)
            },
        decreases sublines@.len(),
    {
        let ghost sub_before = sublines@;
        let sl = sublines.remove(0);
        proof {
            assert(sublines@ =~= sub_before.skip(1));
            assert forall|p: int| 0 <= p < sublines@.len() implies #[trigger] seq_views(
                sublines@,
            )[p] == sub_spec.skip(k + 1)[p] by {
                assert(sublines@[p] == sub_before[p + 1]);
                assert(seq_views(sub_before)[p + 1] == sub_before[p + 1]@);
            }
            assert(seq_views(sublines@) =~= sub_spec.skip(k + 1));
            assert(seq_views(sub_before)[0] == sl@);
            assert(sl@ == sub_spec[k as int]);
        }
        let mut chunk = macro_subline_exec(&sl, mono);
        let ghost om = seq_views(out@);
        let ghost cm = seq_views(chunk@);
        let ghost chunk_view = chunk@;
        let ghost rest2 = macro_sublines(
            sub_spec,
            k + 1,
            frags,
            mono.registry.concrete_schemas.map_of(),
            bps,
        ).0;
        out.append(&mut chunk);
        k = k + 1;
        proof {
            assert forall|x: int| 0 <= x < out@.len() implies #[trigger] seq_views(out@)[x] == (om
                + cm)[x] by {
                if x < om.len() {
                } else {
                    assert(out@[x] == chunk_view[x - om.len()]);
                    assert(seq_views(chunk_view)[x - om.len()] == chunk_view[x - om.len()]@);
                }
            }
            assert(seq_views(out@) =~= om + cm);
            assert((om + cm) + rest2 =~= om + (cm + rest2));
        }
    }
    proof {
        assert(seq_views(out@) + macro_sublines(
            sub_spec,
            k as int,
            frags,
            mono.registry.concrete_schemas.map_of(),
            bps,
        ).0 =~= seq_views(out@));
    }
    out
}

/// Expands the developer shorthands of one snippet: `@return` helper
/// lines, the `$Vec<T>` array shorthand, inline generic invocations
/// (instantiated through the Monomorphizer), the parameterless
/// `@insert` of an unregistered fragment (turned into a parameter
/// reference), and the auto-quoted `@extend` marker.
#[verifier::loop_isolation(false)]
#[verifier::rlimit(50)]
pub fn preprocess_macros(snippet: &Snippet, registry: Registry) -> (r: (Snippet, Registry))
    requires
        registry.wf(),
    ensures
        r.1.wf(),
        ({
            let (ls, m) = macro_lines(
                split_lines_spec(snippet.content@),
                0,
                registry.fragments.map_of(),
                registry.concrete_schemas.map_of(),
                registry.blueprints.map_of(),
            );
            r.0.content@ == join_lines(ls) && r.1.concrete_schemas.map_of() == m
        }),
        r.0.file_path@ == snippet.file_path@,
        r.0.line_number == snippet.line_number,
        r.1.blueprints == registry.blueprints,
        r.1.fragments == registry.fragments,
        r.1.schemas == registry.schemas,
{
    let ghost frags = registry.fragments.map_of();
    let ghost cs0 = registry.concrete_schemas.map_of();
    let ghost bps = registry.blueprints.map_of();
    let mut mono = crate::generics::Monomorphizer::new(registry);
    let cv = chars_vec(snippet.content.as_str());
    let ghost ls_spec = split_lines_spec(snippet.content@);
    let mut lines = split_lines(&cv);
    let lcount = lines.len();
    proof {
        assert(ls_spec.len() == lcount);
    }
    let mut out: Vec<Vec<char>> = Vec::new();
    let mut k: usize = 0;
    while lines.len() > 0
        invariant
            k + lines@.len() == ls_spec.len(),
            seq_views(lines@) == ls_spec.skip(k as int),
            mono.registry.wf(),
            mono.registry.blueprints.map_of() == bps,
            mono.registry.fragments.map_of() == frags,
            mono.registry.blueprints == registry.blueprints,
            mono.registry.fragments == registry.fragments,
            mono.registry.schemas == registry.schemas,
            macro_lines(ls_spec, 0, frags, cs0, bps) == {
                let (rest, m) = macro_lines(
                    ls_spec,
                    k as int,
                    frags,
                    mono.registry.concrete_schemas.map_of(),
                    bps,
                );
                (seq_views(out@) + rest, m)
            },
        decreases lines@.len(),
    {
        let ghost lines_before = lines@;
        let line = lines.remove(0);
        proof {
            assert(lines@ =~= lines_before.skip(1));
            assert forall|p: int| 0 <= p < lines@.len() implies #[trigger] seq_views(lines@)[p]
                == ls_spec.skip(k + 1)[p] by {
                assert(lines@[p] == lines_before[p + 1]);
                assert(seq_views(lines_before)[p + 1] == lines_before[p + 1]@);
            }
            assert(seq_views(lines@) =~= ls_spec.skip(k + 1));
            assert(seq_views(lines_before)[0] == line@);
            assert(line@ == ls_spec[k as int]);
        }
        let mut chunk = macro_line_exec(&line, &mut mono);
        let ghost om = seq_views(out@);
        let ghost cm = seq_views(chunk@);
        let ghost chunk_view = chunk@;
        let ghost rest2 = macro_lines(
            ls_spec,
            k + 1,
            frags,
            mono.registry.concrete_schemas.map_of(),
            bps,
        ).0;
        out.append(&mut chunk);
        k = k + 1;
        proof {
            assert forall|x: int| 0 <= x < out@.len() implies #[trigger] seq_views(out@)[x] == (om
                + cm)[x] by {
                if x < om.len() {
                } else {
                    assert(out@[x] == chunk_view[x - om.len()]);
                    assert(seq_views(chunk_view)[x - om.len()] == chunk_view[x - om.len()]@);
                }
            }
            assert(seq_views(out@) =~= om + cm);
            assert((om + cm) + rest2 =~= om + (cm + rest2));
        }
    }
    proof {
        assert(seq_views(out@) + macro_lines(
            ls_spec,
            k as int,
            frags,
            mono.registry.concrete_schemas.map_of(),
            bps,
        ).0 =~= seq_views(out@));
    }
    let joined = join_with_nl(&out);
    let content = string_of(&joined);
    let file_path = snippet.file_path.clone();
    let line_number = snippet.line_number;
    let new_snippet = Snippet { content, file_path, line_number };
    (new_snippet, mono.into_registry())
}

// ----------------------------------------------------------------------
// Smart references and final substitution (the fifth pipeline pass).

/// Smart-reference substitution: a bare `$Name` whose name is a known
/// schema becomes a quoted schema pointer; the quotes are left off when
/// a double quote immediately precedes the dollar.  Anything else is
/// untouched.
pub open spec fn smart_sub(s: Seq<char>, names: Seq<Seq<char>>, i: int) -> Seq<char>
    decreases s.len() - i,
    via smart_sub_dec
{
    if i < 0 || i >= s.len() {
        Seq::empty()
    } else if s[i] == '$' && i + 1 < s.len() && (crate::text::char_alphabetic(s[i + 1]) || s[i + 1]
        == '_') {
        let j = crate::generics::ident_end(s, i + 1);
        let ident = s.subrange(i + 1, j);
        if names.contains(ident) {
            let ptr = "#/components/schemas/"@ + ident;
            let quoted = i > 0 && s[i - 1] == '"';
            (if quoted {
                ptr
            } else {
                "\""@ + ptr + "\""@
            }) + smart_sub(s, names, j)
        } else {
            seq![s[i]] + smart_sub(s, names, i + 1)
        }
    } else {
        seq![s[i]] + smart_sub(s, names, i + 1)
    }
}

#[via_fn]
proof fn smart_sub_dec(s: Seq<char>, names: Seq<Seq<char>>, i: int) {
    if 0 <= i < s.len() && s[i] == '$' && i + 1 < s.len() {
        crate::generics::lemma_ident_end_range(s, i + 1);
    }
}


/// With no known schema names at all, smart-reference substitution
/// leaves the text untouched.
pub proof fn lemma_smart_sub_no_names(s: Seq<char>, names: Seq<Seq<char>>, i: int)
    requires
        names.len() == 0,
        0 <= i <= s.len(),
    ensures
        smart_sub(s, names, i) == s.skip(i),
    decreases s.len() - i,
{
    if i < s.len() {
        if s[i] == '$' && i + 1 < s.len() && (crate::text::char_alphabetic(s[i + 1]) || s[i + 1]
            == '_') {
            let j = crate::generics::ident_end(s, i + 1);
            let ident = s.subrange(i + 1, j);
            if names.contains(ident) {
                let p = choose|p: int| 0 <= p < names.len() && names[p] == ident;
                assert(false);
            }
        }
        lemma_smart_sub_no_names(s, names, i + 1);
        assert(seq![s[i]] + s.skip(i + 1) =~= s.skip(i));
    } else {
        assert(s.skip(i) =~= Seq::<char>::empty());
    }
}

/// Replaces bare `$Name` tokens naming known schemas with quoted
/// schema pointers; a `$` followed by anything but a name, or a name
/// that is no known schema, is left untouched.
#[verifier::loop_isolation(false)]
pub fn substitute_smart_references(content: &str, schemas: &Vec<String>) -> (r: String)
    ensures
        r@ == smart_sub(content@, schemas.deep_view(), 0),
{
    let ghost s = content@;
    let ghost names = schemas.deep_view();
    proof {
        reveal_strlit("\"");
    }
    let cv = chars_vec(content);
    let n = cv.len();
    let mut out: Vec<char> = Vec::new();
    let mut i: usize = 0;
    while i < n
        invariant
            i <= n,
            smart_sub(s, names, 0) == out@ + smart_sub(s, names, i as int),
        decreases n - i,
    {
        let mut advanced = false;
        if cv[i] == '$' && i + 1 < n && (cv[i + 1].is_alphabetic() || cv[i + 1] == '_') {
            let mut j: usize = i + 1;
            while j < n && (cv[j].is_alphanumeric() || cv[j] == '_')
                invariant
                    i + 1 <= j <= n,
                    forall|p: int| i + 1 <= p < j ==> crate::generics::is_name_char(
                        #[trigger] s[p],
                    ),
                decreases n - j,
            {
                j = j + 1;
            }
            proof {
                crate::generics::lemma_ident_end_skip(s, i + 1, j as int);
                assert(crate::generics::ident_end(s, j as int) == j as int);
            }
            let ident = sub_chars(&cv, i + 1, j);
            // Is the name a known schema?
            let mut known = false;
            let mut q: usize = 0;
            let ident_s = string_of(&ident);
            while q < schemas.len()
                invariant
                    q <= schemas@.len(),
                    names.len() == schemas@.len(),
                    ident_s@ == ident@,
                    forall|p: int| 0 <= p < schemas@.len() ==> #[trigger] names[p] == schemas@[p]@,
                    known ==> names.contains(ident@),
                    !known ==> forall|p: int| 0 <= p < q ==> #[trigger] names[p] != ident@,
                decreases schemas@.len() - q + (if known {
                    0int
                } else {
                    1int
                }),
            {
                if schemas[q] == ident_s {
                    known = true;
                    proof {
                        assert(names[q as int] == ident@);
                    }
                    break ;
                }
                q = q + 1;
            }
            proof {
                if !known {
                    if names.contains(ident@) {
                        let p = choose|p: int| 0 <= p < names.len() && names[p] == ident@;
                        assert(false);
                    }
                }
            }
            if known {
                let quoted = i > 0 && cv[i - 1] == '"';
                if !quoted {
                    out.push('"');
                }
                let ptr = chars_vec("#/components/schemas/");
                push_all(&mut out, &ptr);
                push_all(&mut out, &ident);
                if !quoted {
                    out.push('"');
                }
                i = j;
                advanced = true;
                proof {
                    assert(smart_sub(s, names, 0) =~= out@ + smart_sub(s, names, i as int));
                }
            }
        }
        if !advanced {
            out.push(cv[i]);
            i = i + 1;
            proof {
                assert(smart_sub(s, names, 0) =~= out@ + smart_sub(s, names, i as int));
            }
        }
    }
    proof {
        assert(out@ + smart_sub(s, names, i as int) =~= out@);
    }
    string_of(&out)
}

/// Resolves literal-dollar escapes and the version placeholder.
pub fn finalize_substitution(content: &str, version: &str) -> (r: String)
    ensures
        r@ == crate::text::replace_spec(
            crate::text::replace_spec(content@, "\\$"@, "$"@),
            "{{CARGO_PKG_VERSION}}"@,
            version@,
        ),
{
    let cv = chars_vec(content);
    let p1 = chars_vec("\\$");
    let r1 = chars_vec("$");
    let step1 = replace_all(&cv, &p1, &r1);
    let p2 = chars_vec("{{CARGO_PKG_VERSION}}");
    let r2 = chars_vec(version);
    let step2 = replace_all(&step1, &p2, &r2);
    string_of(&step2)
}

/// Each line of a generated schema body indented six spaces.
pub open spec fn indent_body(s: Seq<char>) -> Seq<char> {
    join_lines(
        crate::preprocessor::indent_lines(split_lines_spec(s), "      "@, 0),
    )
}

/// Indents every line of a schema body six spaces.
#[verifier::loop_isolation(false)]
pub fn indent(s: &str) -> (r: String)
    ensures
        r@ == indent_body(s@),
{
    let cv = chars_vec(s);
    let ghost ls_spec = split_lines_spec(s@);
    let mut lines = split_lines(&cv);
    let lcount = lines.len();
    proof {
        assert(ls_spec.len() == lcount);
    }
    let pad = chars_vec("      ");
    let mut out: Vec<Vec<char>> = Vec::new();
    let mut k: usize = 0;
    while lines.len() > 0
        invariant
            k + lines@.len() == ls_spec.len(),
            seq_views(lines@) == ls_spec.skip(k as int),
            pad@ == "      "@,
            crate::preprocessor::indent_lines(ls_spec, "      "@, 0) == seq_views(out@)
                + crate::preprocessor::indent_lines(ls_spec, "      "@, k as int),
        decreases lines@.len(),
    {
        let ghost lines_before = lines@;
        let line = lines.remove(0);
        proof {
            assert(lines@ =~= lines_before.skip(1));
            assert forall|p: int| 0 <= p < lines@.len() implies #[trigger] seq_views(lines@)[p]
                == ls_spec.skip(k + 1)[p] by {
                assert(lines@[p] == lines_before[p + 1]);
                assert(seq_views(lines_before)[p + 1] == lines_before[p + 1]@);
            }
            assert(seq_views(lines@) =~= ls_spec.skip(k + 1));
            assert(seq_views(lines_before)[0] == line@);
            assert(line@ == ls_spec[k as int]);
        }
        let mut piece = sub_chars(&pad, 0, pad.len());
        push_all(&mut piece, &line);
        proof {
            assert(piece@ =~= "      "@ + ls_spec[k as int]);
        }
        let ghost om = seq_views(out@);
        let ghost pv = piece@;
        let ghost rest = crate::preprocessor::indent_lines(ls_spec, "      "@, k + 1);
        out.push(piece);
        k = k + 1;
        proof {
            assert forall|x: int| 0 <= x < out@.len() implies #[trigger] seq_views(out@)[x] == (om
                + seq![pv])[x] by {
                if x < om.len() {
                } else {
                    assert(out@[x]@ == pv);
                }
            }
            assert(seq_views(out@) =~= om + seq![pv]);
            assert((om + seq![pv]) + rest =~= om + (seq![pv] + rest));
        }
    }
    proof {
        assert(seq_views(out@) + crate::preprocessor::indent_lines(ls_spec, "      "@, k as int)
            =~= seq_views(out@));
    }
    let joined = join_with_nl(&out);
    string_of(&joined)
}


// ----------------------------------------------------------------------
// The pipeline passes of one generation run.

/// The registry tables and pending snippets during indexing.
pub struct IndexState {
    pub fragments: Map<Seq<char>, crate::index::TemplateModel>,
    pub blueprints: Map<Seq<char>, crate::index::TemplateModel>,
    pub schemas: Map<Seq<char>, Seq<char>>,
    pub snippets: Seq<SnippetModel>,
}

/// Indexing: fragments and blueprints populate the registry, schemas
/// are registered when named and queued as snippets either way.
pub open spec fn index_fold(
    items: Seq<crate::visitor::ItemModel>,
    k: int,
    st: IndexState,
    file: Seq<char>,
) -> IndexState
    decreases items.len() - k,
{
    if k < 0 || k >= items.len() {
        st
    } else {
        let st1 = match items[k] {
            crate::visitor::ItemModel::Schema { name, content, line } => IndexState {
                schemas: match name {
                    Option::Some(n) => st.schemas.insert(n, content),
                    Option::None => st.schemas,
                },
                snippets: st.snippets.push(
                    SnippetModel { content: content, file_path: file, line_number: line },
                ),
                ..st
            },
            crate::visitor::ItemModel::Fragment { name, params, content, line } => IndexState {
                fragments: st.fragments.insert(
                    name,
                    crate::index::TemplateModel { params: params, body: content },
                ),
                ..st
            },
            crate::visitor::ItemModel::Blueprint { name, params, content, line } => IndexState {
                blueprints: st.blueprints.insert(
                    name,
                    crate::index::TemplateModel { params: params, body: content },
                ),
                ..st
            },
        };
        index_fold(items, k + 1, st1, file)
    }
}

/// Indexes the items extracted from one file: fragments and blueprints
/// go into the registry; schema bodies are registered under their name
/// (when named) and appended to the snippet queue.
#[verifier::loop_isolation(false)]
pub fn index_items(
    registry: &mut Registry,
    snippets: &mut Vec<Snippet>,
    items: Vec<crate::visitor::ExtractedItem>,
    file_path: &str,
)
    requires
        old(registry).wf(),
    ensures
        final(registry).wf(),
        ({
            let st = index_fold(
                crate::visitor::items_model(items@),
                0,
                IndexState {
                    fragments: old(registry).fragments.map_of(),
                    blueprints: old(registry).blueprints.map_of(),
                    schemas: old(registry).schemas.map_of(),
                    snippets: snippets_model(old(snippets)@),
                },
                file_path@,
            );
            final(registry).fragments.map_of() == st.fragments
                && final(registry).blueprints.map_of() == st.blueprints
                && final(registry).schemas.map_of() == st.schemas
                && snippets_model(final(snippets)@) == st.snippets
        }),
        final(registry).concrete_schemas == old(registry).concrete_schemas,
{
    let ghost im = crate::visitor::items_model(items@);
    let ghost file_v = file_path@;
    let mut items = items;
    let total = items.len();
    let mut k: usize = 0;
    proof {
        assert(im.len() == total);
        assert(crate::visitor::items_model(items@) =~= im.skip(0));
    }
    while items.len() > 0
        invariant
            im.len() == total,
            k + items@.len() == im.len(),
            crate::visitor::items_model(items@) == im.skip(k as int),
            registry.wf(),
            registry.concrete_schemas == old(registry).concrete_schemas,
            index_fold(
                im,
                0,
                IndexState {
                    fragments: old(registry).fragments.map_of(),
                    blueprints: old(registry).blueprints.map_of(),
                    schemas: old(registry).schemas.map_of(),
                    snippets: snippets_model(old(snippets)@),
                },
                file_v,
            ) == index_fold(
                im,
                k as int,
                IndexState {
                    fragments: registry.fragments.map_of(),
                    blueprints: registry.blueprints.map_of(),
                    schemas: registry.schemas.map_of(),
                    snippets: snippets_model(snippets@),
                },
                file_v,
            ),
        decreases items@.len(),
    {
        let ghost items_before = items@;
        let item = items.remove(0);
        proof {
            assert(items@ =~= items_before.skip(1));
            assert forall|p: int| 0 <= p < items@.len() implies #[trigger] crate::visitor::items_model(
                items@,
            )[p] == im.skip(k + 1)[p] by {
                assert(items@[p] == items_before[p + 1]);
                assert(crate::visitor::items_model(items_before)[p + 1] == items_before[p
                    + 1].model());
            }
            assert(crate::visitor::items_model(items@) =~= im.skip(k + 1));
            assert(crate::visitor::items_model(items_before)[0] == item.model());
            assert(item.model() == im[k as int]);
        }
        match item {
            crate::visitor::ExtractedItem::Schema { name, content, line } => {
                let ghost sn_before = snippets_model(snippets@);
                match name {
                    Option::Some(n) => {
                        let body = content.clone();
                        registry.insert_schema(n, body);
                    },
                    Option::None => {},
                }
                let fp = string_of(&chars_vec(file_path));
                snippets.push(Snippet { content, file_path: fp, line_number: line });
                proof {
                    assert(snippets_model(snippets@) =~= sn_before.push(
                        snippets@[snippets@.len() - 1]@,
                    ));
                }
            },
            crate::visitor::ExtractedItem::Fragment { name, params, content, line } => {
                registry.insert_fragment(name, params, content);
            },
            crate::visitor::ExtractedItem::Blueprint { name, params, content, line } => {
                registry.insert_blueprint(name, params, content);
            },
        }
        k = k + 1;
    }
}

/// Whether `out` is a valid result of preprocessing `c` against the
/// fragments: the rewritten tree when the phase A text parses and the
/// renderer succeeds, the phase A text itself otherwise.
pub open spec fn pre_rel(
    c: Seq<char>,
    frags: crate::preprocessor::FragmentMap,
    out: Seq<char>,
) -> bool {
    let pa = crate::preprocessor::phase_a_spec(c, frags);
    match crate::value::yaml_doc_of(pa) {
        Option::None => out == pa,
        Option::Some(d) => out == crate::value::yaml_text_of(
            crate::preprocessor::process_value_spec(
                d,
                frags,
                crate::preprocessor::MAX_EXPAND_DEPTH as nat,
            ),
        ) || out == pa,
    }
}

/// Whether `out` is a valid result of the expansion pass over the
/// snippets from `k` on, ending with the concrete schemas `cs_out`.
pub open spec fn pass2_rel(
    sin: Seq<SnippetModel>,
    k: int,
    frags: crate::preprocessor::FragmentMap,
    cs: SchemaMap,
    bps: BlueprintMap,
    sout: Seq<SnippetModel>,
    cs_out: SchemaMap,
) -> bool
    decreases sin.len() - k,
{
    if k < 0 || k >= sin.len() {
        sout.len() == 0 && cs_out == cs
    } else {
        let mac = macro_lines(split_lines_spec(sin[k].content), 0, frags, cs, bps);
        sout.len() >= 1 && sout[0].file_path == sin[k].file_path && sout[0].line_number
            == sin[k].line_number && pre_rel(join_lines(mac.0), frags, sout[0].content)
            && pass2_rel(sin, k + 1, frags, mac.1, bps, sout.skip(1), cs_out)
    }
}

/// The expansion pass: each snippet's shorthand macros are expanded,
/// then its directives are preprocessed against the registry.
#[verifier::loop_isolation(false)]
pub fn expand_snippets(registry: Registry, snippets: Vec<Snippet>) -> (r: (Vec<Snippet>, Registry))
    requires
        registry.wf(),
    ensures
        r.1.wf(),
        pass2_rel(
            snippets_model(snippets@),
            0,
            registry.fragments.map_of(),
            registry.concrete_schemas.map_of(),
            registry.blueprints.map_of(),
            snippets_model(r.0@),
            r.1.concrete_schemas.map_of(),
        ),
        r.1.fragments == registry.fragments,
        r.1.blueprints == registry.blueprints,
        r.1.schemas == registry.schemas,
{
    let ghost sin = snippets_model(snippets@);
    let ghost frags = registry.fragments.map_of();
    let ghost bps = registry.blueprints.map_of();
    let ghost cs0 = registry.concrete_schemas.map_of();
    let mut reg = registry;
    let mut rest = snippets;
    let mut out: Vec<Snippet> = Vec::new();
    let total = rest.len();
    let mut k: usize = 0;
    proof {
        assert(sin.len() == total);
        assert(snippets_model(rest@) =~= sin.skip(0));
    }
    while rest.len() > 0
        invariant
            sin.len() == total,
            k + rest@.len() == sin.len(),
            snippets_model(rest@) == sin.skip(k as int),
            reg.wf(),
            reg.fragments == registry.fragments,
            reg.blueprints == registry.blueprints,
            reg.schemas == registry.schemas,
            reg.fragments.map_of() == frags,
            reg.blueprints.map_of() == bps,
            forall|s2: Seq<SnippetModel>, c2: SchemaMap|
                pass2_rel(sin, k as int, frags, reg.concrete_schemas.map_of(), bps, s2, c2)
                    ==> #[trigger] pass2_rel(
                    sin,
                    0,
                    frags,
                    cs0,
                    bps,
                    snippets_model(out@) + s2,
                    c2,
                ),
        decreases rest@.len(),
    {
        let ghost rest_before = rest@;
        let snippet = rest.remove(0);
        proof {
            assert(rest@ =~= rest_before.skip(1));
            assert forall|p: int| 0 <= p < rest@.len() implies #[trigger] snippets_model(rest@)[p]
                == sin.skip(k + 1)[p] by {
                assert(rest@[p] == rest_before[p + 1]);
                assert(snippets_model(rest_before)[p + 1] == rest_before[p + 1]@);
            }
            assert(snippets_model(rest@) =~= sin.skip(k + 1));
            assert(snippets_model(rest_before)[0] == snippet@);
            assert(snippet@ == sin[k as int]);
        }
        let ghost cs_here = reg.concrete_schemas.map_of();
        let (mac_snippet, reg2) = preprocess_macros(&snippet, reg);
        reg = reg2;
        let expanded = crate::preprocessor::preprocess(mac_snippet.content.as_str(), &reg);
        let ghost om = snippets_model(out@);
        out.push(
            Snippet {
                content: expanded,
                file_path: mac_snippet.file_path,
                line_number: mac_snippet.line_number,
            },
        );
        k = k + 1;
        proof {
            let newm = snippets_model(out@);
            assert(newm =~= om.push(out@[out@.len() - 1]@));
            assert forall|s2: Seq<SnippetModel>, c2: SchemaMap|
                pass2_rel(sin, k as int, frags, reg.concrete_schemas.map_of(), bps, s2, c2)
                    implies #[trigger] pass2_rel(
                    sin,
                    0,
                    frags,
                    cs0,
                    bps,
                    snippets_model(out@) + s2,
                    c2,
                ) by {
                let s3 = seq![out@[out@.len() - 1]@] + s2;
                assert(s3.skip(1) =~= s2);
                assert(s3[0] == out@[out@.len() - 1]@);
                assert(pass2_rel(sin, k - 1, frags, cs_here, bps, s3, c2));
                assert(om + s3 =~= snippets_model(out@) + s2);
            }
        }
    }
    proof {
        assert(pass2_rel(
            sin,
            k as int,
            frags,
            reg.concrete_schemas.map_of(),
            bps,
            Seq::<SnippetModel>::empty(),
            reg.concrete_schemas.map_of(),
        ));
        assert(snippets_model(out@) + Seq::<SnippetModel>::empty() =~= snippets_model(out@));
    }
    (out, reg)
}

/// The monomorphization pass as a function of the snippet list and the
/// registry state.
pub open spec fn pass3_fold(
    sin: Seq<SnippetModel>,
    k: int,
    cs: SchemaMap,
    bps: BlueprintMap,
) -> (Seq<SnippetModel>, SchemaMap)
    decreases sin.len() - k,
{
    if k < 0 || k >= sin.len() {
        (Seq::empty(), cs)
    } else {
        let (t, cs1) = crate::generics::resolve_text_spec(
            sin[k].content,
            0,
            cs,
            bps,
            crate::generics::MAX_RESOLVE_DEPTH as nat,
        );
        let (rest, cs2) = pass3_fold(sin, k + 1, cs1, bps);
        (
            seq![
                SnippetModel {
                    content: t,
                    file_path: sin[k].file_path,
                    line_number: sin[k].line_number,
                },
            ] + rest,
            cs2,
        )
    }
}

/// The monomorphization pass: every remaining generic invocation in
/// every snippet is resolved, accumulating concrete schemas.
#[verifier::loop_isolation(false)]
pub fn monomorphize_snippets(registry: Registry, snippets: Vec<Snippet>) -> (r: (
    Vec<Snippet>,
    Registry,
))
    requires
        registry.wf(),
    ensures
        r.1.wf(),
        ({
            let (souts, cs2) = pass3_fold(
                snippets_model(snippets@),
                0,
                registry.concrete_schemas.map_of(),
                registry.blueprints.map_of(),
            );
            snippets_model(r.0@) == souts && r.1.concrete_schemas.map_of() == cs2
        }),
        r.1.fragments == registry.fragments,
        r.1.blueprints == registry.blueprints,
        r.1.schemas == registry.schemas,
{
    let ghost sin = snippets_model(snippets@);
    let ghost bps = registry.blueprints.map_of();
    let ghost cs0 = registry.concrete_schemas.map_of();
    let mut mono = crate::generics::Monomorphizer::new(registry);
    let mut rest = snippets;
    let mut out: Vec<Snippet> = Vec::new();
    let total = rest.len();
    let mut k: usize = 0;
    proof {
        assert(sin.len() == total);
        assert(snippets_model(rest@) =~= sin.skip(0));
    }
    while rest.len() > 0
        invariant
            sin.len() == total,
            k + rest@.len() == sin.len(),
            snippets_model(rest@) == sin.skip(k as int),
            mono.registry.wf(),
            mono.registry.fragments == registry.fragments,
            mono.registry.blueprints == registry.blueprints,
            mono.registry.schemas == registry.schemas,
            mono.registry.blueprints.map_of() == bps,
            pass3_fold(sin, 0, cs0, bps) == {
                let (rest2, cs2) = pass3_fold(
                    sin,
                    k as int,
                    mono.registry.concrete_schemas.map_of(),
                    bps,
                );
                (snippets_model(out@) + rest2, cs2)
            },
        decreases rest@.len(),
    {
        let ghost rest_before = rest@;
        let snippet = rest.remove(0);
        proof {
            assert(rest@ =~= rest_before.skip(1));
            assert forall|p: int| 0 <= p < rest@.len() implies #[trigger] snippets_model(rest@)[p]
                == sin.skip(k + 1)[p] by {
                assert(rest@[p] == rest_before[p + 1]);
                assert(snippets_model(rest_before)[p + 1] == rest_before[p + 1]@);
            }
            assert(snippets_model(rest@) =~= sin.skip(k + 1));
            assert(snippets_model(rest_before)[0] == snippet@);
            assert(snippet@ == sin[k as int]);
        }
        let content = mono.process(snippet.content.as_str());
        let ghost om = snippets_model(out@);
        out.push(
            Snippet {
                content,
                file_path: snippet.file_path,
                line_number: snippet.line_number,
            },
        );
        k = k + 1;
        proof {
            assert(snippets_model(out@) =~= om.push(out@[out@.len() - 1]@));
            let (rest2, cs2) = pass3_fold(
                sin,
                k as int,
                mono.registry.concrete_schemas.map_of(),
                bps,
            );
            assert((om + (seq![out@[out@.len() - 1]@] + rest2)) =~= (snippets_model(out@)
                + rest2));
        }
    }
    proof {
        assert(snippets_model(out@) + Seq::<SnippetModel>::empty() =~= snippets_model(out@));
    }
    (out, mono.into_registry())
}

/// The generated-schema snippets, one per concrete schema, in
/// registration order.
pub open spec fn injected_snippets(kv: Seq<(Seq<char>, Seq<char>)>, k: int) -> Seq<SnippetModel>
    decreases kv.len() - k,
{
    if k < 0 || k >= kv.len() {
        Seq::empty()
    } else {
        seq![
            SnippetModel {
                content: "components:\n  schemas:\n    "@ + kv[k].0 + ":\n"@ + indent_body(
                    kv[k].1,
                ),
                file_path: "<generated>"@,
                line_number: 1,
            },
        ] + injected_snippets(kv, k + 1)
    }
}

/// The injection pass: every concrete schema is wrapped as a
/// standalone snippet declaring it under the schema container.
#[verifier::loop_isolation(false)]
pub fn inject_generated(registry: &Registry) -> (r: Vec<Snippet>)
    requires
        registry.wf(),
    ensures
        snippets_model(r@) == injected_snippets(registry.concrete_schemas.kv(), 0),
{
    let ghost kv = registry.concrete_schemas.kv();
    let n = registry.concrete_schemas.len();
    let mut out: Vec<Snippet> = Vec::new();
    let mut k: usize = 0;
    proof {
        assert(snippets_model(out@) =~= Seq::<SnippetModel>::empty());
    }
    while k < n
        invariant
            k <= n,
            n == kv.len(),
            injected_snippets(kv, 0) == snippets_model(out@) + injected_snippets(kv, k as int),
        decreases n - k,
    {
        let name = registry.concrete_schemas.key_at(k);
        let body = registry.concrete_schemas.value_at(k);
        let wrapped = crate::visitor::wrap_in_schema(name.as_str(), body.as_str());
        let ghost om = snippets_model(out@);
        let fp = string_of(&chars_vec("<generated>"));
        out.push(Snippet { content: wrapped, file_path: fp, line_number: 1 });
        k = k + 1;
        proof {
            assert(snippets_model(out@) =~= om.push(out@[out@.len() - 1]@));
            assert(out@[out@.len() - 1]@.content =~= "components:\n  schemas:\n    "@ + kv[k
                - 1].0 + ":\n"@ + indent_body(kv[k - 1].1));
            let rest2 = injected_snippets(kv, k as int);
            assert((om + (seq![out@[out@.len() - 1]@] + rest2)) =~= (snippets_model(out@)
                + rest2));
        }
    }
    proof {
        assert(snippets_model(out@) + Seq::<SnippetModel>::empty() =~= snippets_model(out@));
    }
    out
}

/// The substitution pass as a function of each snippet.
pub open spec fn pass4_map(
    sin: Seq<SnippetModel>,
    k: int,
    names: Seq<Seq<char>>,
    version: Seq<char>,
) -> Seq<SnippetModel>
    decreases sin.len() - k,
{
    if k < 0 || k >= sin.len() {
        Seq::empty()
    } else {
        seq![
            SnippetModel {
                content: crate::text::replace_spec(
                    crate::text::replace_spec(
                        smart_sub(sin[k].content, names, 0),
                        "\\$"@,
                        "$"@,
                    ),
                    "{{CARGO_PKG_VERSION}}"@,
                    version,
                ),
                file_path: sin[k].file_path,
                line_number: sin[k].line_number,
            },
        ] + pass4_map(sin, k + 1, names, version)
    }
}

/// The known schema names: extracted schemas first, then generated
/// concrete schemas, in registration order.
pub open spec fn known_names(reg: Registry) -> Seq<Seq<char>> {
    reg.schemas.key_seq() + reg.concrete_schemas.key_seq()
}

/// Collects the known schema names.
#[verifier::loop_isolation(false)]
pub fn collect_names(registry: &Registry) -> (r: Vec<String>)
    requires
        registry.wf(),
    ensures
        r.deep_view() == known_names(*registry),
{
    let mut out: Vec<String> = Vec::new();
    let n1 = registry.schemas.len();
    let mut i: usize = 0;
    proof {
        assert(out.deep_view() =~= registry.schemas.key_seq().take(0));
    }
    while i < n1
        invariant
            i <= n1,
            n1 == registry.schemas.kv().len(),
            out.deep_view() == registry.schemas.key_seq().take(i as int),
        decreases n1 - i,
    {
        let name = registry.schemas.key_at(i);
        let ghost ob = out.deep_view();
        out.push(name.clone());
        i = i + 1;
        proof {
            assert(out.deep_view() =~= ob.push(registry.schemas.kv()[i - 1].0));
            assert(registry.schemas.key_seq()[i - 1] == registry.schemas.kv()[i - 1].0);
            assert(out.deep_view() =~= registry.schemas.key_seq().take(i as int));
        }
    }
    proof {
        assert(out.deep_view() =~= registry.schemas.key_seq());
    }
    let n2 = registry.concrete_schemas.len();
    let mut j: usize = 0;
    proof {
        assert(out.deep_view() =~= registry.schemas.key_seq()
            + registry.concrete_schemas.key_seq().take(0));
    }
    while j < n2
        invariant
            j <= n2,
            n2 == registry.concrete_schemas.kv().len(),
            out.deep_view() == registry.schemas.key_seq()
                + registry.concrete_schemas.key_seq().take(j as int),
        decreases n2 - j,
    {
        let name = registry.concrete_schemas.key_at(j);
        let ghost ob = out.deep_view();
        out.push(name.clone());
        j = j + 1;
        proof {
            assert(out.deep_view() =~= ob.push(registry.concrete_schemas.kv()[j - 1].0));
            assert(registry.concrete_schemas.key_seq()[j - 1]
                == registry.concrete_schemas.kv()[j - 1].0);
            assert(out.deep_view() =~= registry.schemas.key_seq()
                + registry.concrete_schemas.key_seq().take(j as int));
        }
    }
    proof {
        assert(out.deep_view() =~= known_names(*registry));
    }
    out
}

/// The substitution pass: smart references are resolved against the
/// known names, then dollar escapes and the version placeholder.
#[verifier::loop_isolation(false)]
pub fn substitute_snippets(snippets: Vec<Snippet>, names: &Vec<String>, version: &str) -> (r: Vec<
    Snippet,
>)
    ensures
        snippets_model(r@) == pass4_map(
            snippets_model(snippets@),
            0,
            names.deep_view(),
            version@,
        ),
{
    let ghost sin = snippets_model(snippets@);
    let ghost nv = names.deep_view();
    let mut rest = snippets;
    let mut out: Vec<Snippet> = Vec::new();
    let total = rest.len();
    let mut k: usize = 0;
    proof {
        assert(sin.len() == total);
        assert(snippets_model(rest@) =~= sin.skip(0));
    }
    while rest.len() > 0
        invariant
            sin.len() == total,
            k + rest@.len() == sin.len(),
            snippets_model(rest@) == sin.skip(k as int),
            pass4_map(sin, 0, nv, version@) == snippets_model(out@) + pass4_map(
                sin,
                k as int,
                nv,
                version@,
            ),
        decreases rest@.len(),
    {
        let ghost rest_before = rest@;
        let snippet = rest.remove(0);
        proof {
            assert(rest@ =~= rest_before.skip(1));
            assert forall|p: int| 0 <= p < rest@.len() implies #[trigger] snippets_model(rest@)[p]
                == sin.skip(k + 1)[p] by {
                assert(rest@[p] == rest_before[p + 1]);
                assert(snippets_model(rest_before)[p + 1] == rest_before[p + 1]@);
            }
            assert(snippets_model(rest@) =~= sin.skip(k + 1));
            assert(snippets_model(rest_before)[0] == snippet@);
            assert(snippet@ == sin[k as int]);
        }
        let subbed = substitute_smart_references(snippet.content.as_str(), names);
        let finalized = finalize_substitution(subbed.as_str(), version);
        let ghost om = snippets_model(out@);
        out.push(
            Snippet {
                content: finalized,
                file_path: snippet.file_path,
                line_number: snippet.line_number,
            },
        );
        k = k + 1;
        proof {
            assert(snippets_model(out@) =~= om.push(out@[out@.len() - 1]@));
            let rest2 = pass4_map(sin, k as int, nv, version@);
            assert((om + (seq![out@[out@.len() - 1]@] + rest2)) =~= (snippets_model(out@)
                + rest2));
        }
    }
    proof {
        assert(snippets_model(out@) + Seq::<SnippetModel>::empty() =~= snippets_model(out@));
    }
    out
}


/// The full snippet pipeline after indexing: shorthand and directive
/// expansion, monomorphization, injection of the generated schemas,
/// and smart-reference plus final substitution.
pub fn process_snippets(registry: Registry, snippets: Vec<Snippet>, version: &str) -> (r: (
    Vec<Snippet>,
    Registry,
))
    requires
        registry.wf(),
    ensures
        r.1.wf(),
        exists|mid: Seq<SnippetModel>, cs1: SchemaMap|
            {
                &&& #[trigger] pass2_rel(
                    snippets_model(snippets@),
                    0,
                    registry.fragments.map_of(),
                    registry.concrete_schemas.map_of(),
                    registry.blueprints.map_of(),
                    mid,
                    cs1,
                )
                &&& pass3_fold(mid, 0, cs1, registry.blueprints.map_of()).1
                    == r.1.concrete_schemas.map_of()
                &&& snippets_model(r.0@) == pass4_map(
                    pass3_fold(mid, 0, cs1, registry.blueprints.map_of()).0 + injected_snippets(
                        r.1.concrete_schemas.kv(),
                        0,
                    ),
                    0,
                    known_names(r.1),
                    version@,
                )
            },
        r.1.fragments == registry.fragments,
        r.1.blueprints == registry.blueprints,
        r.1.schemas == registry.schemas,
{
    let ghost bps = registry.blueprints.map_of();
    let (expanded, reg1) = expand_snippets(registry, snippets);
    let ghost mid = snippets_model(expanded@);
    let ghost cs1 = reg1.concrete_schemas.map_of();
    let (monoed, reg2) = monomorphize_snippets(reg1, expanded);
    let mut all = monoed;
    let mut generated = inject_generated(&reg2);
    let ghost monoed_m = snippets_model(all@);
    let ghost gen_m = snippets_model(generated@);
    let ghost gen_view = generated@;
    all.append(&mut generated);
    proof {
        assert forall|p: int| 0 <= p < all@.len() implies #[trigger] snippets_model(all@)[p] == (
        monoed_m + gen_m)[p] by {
            if p < monoed_m.len() {
            } else {
                assert(all@[p] == gen_view[p - monoed_m.len()]);
                assert(snippets_model(gen_view)[p - monoed_m.len()] == gen_view[p
                    - monoed_m.len()]@);
            }
        }
        assert(snippets_model(all@) =~= monoed_m + gen_m);
    }
    let names = collect_names(&reg2);
    let finalized = substitute_snippets(all, &names, version);
    proof {
        assert(pass2_rel(
            snippets_model(snippets@),
            0,
            reg2.fragments.map_of(),
            registry.concrete_schemas.map_of(),
            bps,
            mid,
            cs1,
        ));
    }
    (finalized, reg2)
}

} // verus!
