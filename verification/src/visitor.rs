//! Annotation-block parsing: the items extracted from one documentation
//! block, and the visitor state that collects them.
use vstd::prelude::*;
use crate::scanner::indent_body;
use crate::text::{
    chars_vec, contains_sub, find_char_from, join_lines, join_with_nl, matches_at,
    push_all, seq_views, split_lines, split_lines_spec, string_of, sub_chars, trim_chars,
    trim_spec,
};
use crate::preprocessor::{rfind_char, split_plain};

verus! {

broadcast use vstd::std_specs::vec::group_vec_axioms;

/// One item extracted from an annotated documentation block.
#[derive(Debug)]
pub enum ExtractedItem {
    /// A concrete definition, optionally named.
    Schema { name: Option<String>, content: String, line: usize },
    /// A reusable text template with ordered parameters.
    Fragment { name: String, params: Vec<String>, content: String, line: usize },
    /// A generic schema template with ordered parameters.
    Blueprint { name: String, params: Vec<String>, content: String, line: usize },
}

/// The mathematical value of an extracted item.
pub enum ItemModel {
    Schema { name: Option<Seq<char>>, content: Seq<char>, line: int },
    Fragment { name: Seq<char>, params: Seq<Seq<char>>, content: Seq<char>, line: int },
    Blueprint { name: Seq<char>, params: Seq<Seq<char>>, content: Seq<char>, line: int },
}

impl ExtractedItem {
    /// The item's mathematical value.
    pub open spec fn model(self) -> ItemModel {
        match self {
            ExtractedItem::Schema { name, content, line } => ItemModel::Schema {
                name: match name {
                    Option::Some(n) => Some(n@),
                    Option::None => None,
                },
                content: content@,
                line: line as int,
            },
            ExtractedItem::Fragment { name, params, content, line } => ItemModel::Fragment {
                name: name@,
                params: params.deep_view(),
                content: content@,
                line: line as int,
            },
            ExtractedItem::Blueprint { name, params, content, line } => ItemModel::Blueprint {
                name: name@,
                params: params.deep_view(),
                content: content@,
                line: line as int,
            },
        }
    }
}

/// The models of a vector of items.
pub open spec fn items_model(v: Seq<ExtractedItem>) -> Seq<ItemModel> {
    Seq::new(v.len(), |i: int| v[i].model())
}

/// Collects the items of the documentation blocks it is fed, and the
/// tag names of the enclosing module, which are injected under path
/// verbs.
#[derive(Debug)]
pub struct OpenApiVisitor {
    pub items: Vec<ExtractedItem>,
    pub current_tags: Vec<String>,
}

impl OpenApiVisitor {
    /// A visitor with no items and no enclosing tags.
    pub fn new() -> (r: OpenApiVisitor)
        ensures
            r.items@.len() == 0,
            r.current_tags@.len() == 0,
    {
        OpenApiVisitor { items: Vec::new(), current_tags: Vec::new() }
    }
}

// ----------------------------------------------------------------------
// Wrapping a body under the schema container.

/// A body declared as a named schema under the schema container, its
/// lines indented six spaces.
pub open spec fn wrap_spec(name: Seq<char>, content: Seq<char>) -> Seq<char> {
    "components:\n  schemas:\n    "@ + name + ":\n"@ + indent_body(content)
}

/// Wraps a body as a named schema declaration under the schema
/// container.
pub fn wrap_in_schema(name: &str, content: &str) -> (r: String)
    ensures
        r@ == wrap_spec(name@, content@),
{
    let mut out = chars_vec("components:\n  schemas:\n    ");
    let nv = chars_vec(name);
    push_all(&mut out, &nv);
    let colon = chars_vec(":\n");
    push_all(&mut out, &colon);
    let ind = crate::scanner::indent(content);
    let iv = chars_vec(ind.as_str());
    push_all(&mut out, &iv);
    proof {
        assert(out@ =~= wrap_spec(name@, content@));
    }
    string_of(&out)
}

// ----------------------------------------------------------------------
// Unindenting a block.

/// The end of the run of plain spaces starting at `i`.
pub open spec fn spaces_end(s: Seq<char>, i: int) -> int
    decreases s.len() - i,
{
    if i < 0 || i >= s.len() {
        i
    } else if s[i] == ' ' {
        spaces_end(s, i + 1)
    } else {
        i
    }
}

proof fn lemma_spaces_end_skip(s: Seq<char>, i: int, upto: int)
    requires
        0 <= i <= upto <= s.len(),
        forall|j: int| i <= j < upto ==> #[trigger] s[j] == ' ',
    ensures
        spaces_end(s, i) == spaces_end(s, upto),
    decreases upto - i,
{
    if i < upto {
        lemma_spaces_end_skip(s, i + 1, upto);
    }
}

/// The least leading-space count over the non-blank lines from `k` on,
/// if any line is non-blank.
pub open spec fn min_indent_rec(ls: Seq<Seq<char>>, k: int) -> Option<int>
    decreases ls.len() - k,
{
    if k < 0 || k >= ls.len() {
        None
    } else {
        let rest = min_indent_rec(ls, k + 1);
        if trim_spec(ls[k]).len() == 0 {
            rest
        } else {
            let m = spaces_end(ls[k], 0);
            match rest {
                Option::None => Some(m),
                Option::Some(r) => Some(
                    if m <= r {
                        m
                    } else {
                        r
                    },
                ),
            }
        }
    }
}

/// Each line with its first `m` characters dropped, where long enough.
pub open spec fn unindent_lines(ls: Seq<Seq<char>>, m: int, k: int) -> Seq<Seq<char>>
    decreases ls.len() - k,
{
    if k < 0 || k >= ls.len() {
        Seq::empty()
    } else {
        seq![
            if ls[k].len() >= m {
                ls[k].skip(m)
            } else {
                ls[k]
            },
        ] + unindent_lines(ls, m, k + 1)
    }
}

// ----------------------------------------------------------------------
// Splitting a block into sections.

/// The sections of a block: each `@openapi...` header line starts one,
/// a brace outside any section starts an anonymous `@json` one, and
/// every other line extends the running body.
pub open spec fn sections_rec(
    ls: Seq<Seq<char>>,
    k: int,
    header: Seq<char>,
    body: Seq<Seq<char>>,
) -> Seq<(Seq<char>, Seq<char>)>
    decreases ls.len() - k,
{
    if k < 0 || k >= ls.len() {
        if header.len() != 0 || body.len() != 0 {
            seq![(header, join_lines(body))]
        } else {
            Seq::empty()
        }
    } else {
        let line = ls[k];
        let trimmed = trim_spec(line);
        if matches_at(trimmed, "@openapi"@, 0) {
            let flushed: Seq<(Seq<char>, Seq<char>)> = if header.len() != 0 || body.len() != 0 {
                seq![(header, join_lines(body))]
            } else {
                Seq::empty()
            };
            flushed + sections_rec(ls, k + 1, trimmed, Seq::empty())
        } else if trimmed.len() > 0 && trimmed[0] == '{' && header.len() == 0 {
            let flushed: Seq<(Seq<char>, Seq<char>)> = if body.len() != 0 {
                seq![(header, join_lines(body))]
            } else {
                Seq::empty()
            };
            flushed + sections_rec(ls, k + 1, "@json"@, seq![line])
        } else {
            sections_rec(ls, k + 1, header, body.push(line))
        }
    }
}

// ----------------------------------------------------------------------
// Tag injection and the auto-wrap heuristic.

/// Whether a trimmed line is exactly a path-verb key.
pub open spec fn is_verb(t: Seq<char>) -> bool {
    t == "get:"@ || t == "post:"@ || t == "put:"@ || t == "delete:"@ || t == "patch:"@ || t
        == "head:"@ || t == "options:"@ || t == "trace:"@
}

/// The tag list lines under one verb, at the child indentation.
pub open spec fn tag_lines(tags: Seq<Seq<char>>, child: Seq<char>, k: int) -> Seq<Seq<char>>
    decreases tags.len() - k,
{
    if k < 0 || k >= tags.len() {
        Seq::empty()
    } else {
        seq![child + "  "@ + "- "@ + tags[k]] + tag_lines(tags, child, k + 1)
    }
}

/// The block's lines with a tag list injected under each verb line,
/// unless the block already mentions tags; the flag says whether any
/// injection happened.
pub open spec fn inject_rec(
    ls: Seq<Seq<char>>,
    k: int,
    tags: Seq<Seq<char>>,
    already: bool,
) -> (Seq<Seq<char>>, bool)
    decreases ls.len() - k,
{
    if k < 0 || k >= ls.len() {
        (Seq::empty(), false)
    } else {
        let line = ls[k];
        let (rest, inj) = inject_rec(ls, k + 1, tags, already);
        if is_verb(trim_spec(line)) && !already {
            let child = line.subrange(0, spaces_end(line, 0)) + "  "@;
            (seq![line, child + "tags:"@] + tag_lines(tags, child, 0) + rest, true)
        } else {
            (seq![line] + rest, inj)
        }
    }
}

/// What the body becomes under tag injection: unchanged when there are
/// no tags, when the body already mentions tags, or when no verb line
/// exists.
pub open spec fn injected_body(body: Seq<char>, tags: Seq<Seq<char>>) -> Seq<char> {
    if tags.len() == 0 {
        body
    } else {
        let (nl, inj) = inject_rec(
            split_lines_spec(body),
            0,
            tags,
            contains_sub(body, "tags:"@),
        );
        if inj {
            join_lines(nl)
        } else {
            body
        }
    }
}

/// The key before the first colon of a trimmed line.
pub open spec fn first_colon_prefix(t: Seq<char>) -> Seq<char> {
    match find_char_from(t, ':', 0) {
        Option::Some(i) => t.subrange(0, i),
        Option::None => t,
    }
}

/// Whether a key is one of the document's top-level keys.
pub open spec fn is_top_key(k: Seq<char>) -> bool {
    let t = trim_spec(k);
    t == "openapi"@ || t == "info"@ || t == "paths"@ || t == "components"@ || t == "tags"@ || t
        == "servers"@ || t == "security"@
}

/// Whether a line declares a top-level key (comments never do).
pub open spec fn line_toplevel(line: Seq<char>) -> bool {
    let t = trim_spec(line);
    if t.len() > 0 && t[0] == '#' {
        false
    } else {
        is_top_key(first_colon_prefix(t))
    }
}

/// Whether any line of the block declares a top-level key.
pub open spec fn any_toplevel(ls: Seq<Seq<char>>, k: int) -> bool
    decreases ls.len() - k,
{
    if k < 0 || k >= ls.len() {
        false
    } else {
        line_toplevel(ls[k]) || any_toplevel(ls, k + 1)
    }
}

// ----------------------------------------------------------------------
// Turning a section into an item.

/// A comma-separated parameter list: pieces trimmed, blanks dropped.
pub open spec fn params_of(s: Seq<char>) -> Seq<Seq<char>> {
    nonblank_trimmed(split_plain(s, 0, 0), 0)
}

/// The trimmed non-blank pieces.
pub open spec fn nonblank_trimmed(parts: Seq<Seq<char>>, k: int) -> Seq<Seq<char>>
    decreases parts.len() - k,
{
    if k < 0 || k >= parts.len() {
        Seq::empty()
    } else {
        let t = trim_spec(parts[k]);
        (if t.len() > 0 {
            seq![t]
        } else {
            Seq::empty()
        }) + nonblank_trimmed(parts, k + 1)
    }
}

/// The items one section yields.
pub open spec fn section_item(
    header: Seq<char>,
    body: Seq<char>,
    ident: Option<Seq<char>>,
    line: int,
    tags: Seq<Seq<char>>,
) -> Seq<ItemModel> {
    let body_content = trim_spec(body);
    if matches_at(header, "@openapi-fragment"@, 0) {
        let rest = trim_spec(header.skip(17));
        let np: (Seq<char>, Seq<Seq<char>>) = match find_char_from(rest, '(', 0) {
            Option::Some(idx) => (
                trim_spec(rest.subrange(0, idx)),
                params_of(
                    crate::text::drop_trailing(
                        rest.skip(idx + 1),
                        crate::text::eq_char_pred(')'),
                    ),
                ),
            ),
            Option::None => (rest, Seq::empty()),
        };
        seq![
            ItemModel::Fragment { name: np.0, params: np.1, content: body_content, line: line },
        ]
    } else if matches_at(header, "@openapi-type"@, 0) {
        let name = trim_spec(header.skip(13));
        seq![
            ItemModel::Schema {
                name: Some(name),
                content: wrap_spec(name, body_content),
                line: line,
            },
        ]
    } else if matches_at(header, "@openapi"@, 0) && find_char_from(header, '<', 0) is Some {
        let a = find_char_from(header, '<', 0)->0;
        match rfind_char(header, '>', header.len() - 1) {
            Option::Some(b) => {
                if b > a {
                    let params = params_of(header.subrange(a + 1, b));
                    match ident {
                        Option::Some(id) => seq![
                            ItemModel::Blueprint {
                                name: id,
                                params: params,
                                content: body_content,
                                line: line,
                            },
                        ],
                        Option::None => Seq::empty(),
                    }
                } else {
                    Seq::empty()
                }
            },
            Option::None => Seq::empty(),
        }
    } else if matches_at(header, "@openapi"@, 0) || header == "@json"@ || header.len() == 0 {
        let body1 = injected_body(body_content, tags);
        let top = any_toplevel(split_lines_spec(body1), 0);
        let fin = if !top && trim_spec(body1).len() != 0 {
            match ident {
                Option::Some(n) => wrap_spec(n, body1),
                Option::None => body1,
            }
        } else {
            body1
        };
        seq![ItemModel::Schema { name: ident, content: fin, line: line }]
    } else {
        Seq::empty()
    }
}

/// The items of all sections, in order.
pub open spec fn items_of_sections(
    sects: Seq<(Seq<char>, Seq<char>)>,
    k: int,
    ident: Option<Seq<char>>,
    line: int,
    tags: Seq<Seq<char>>,
) -> Seq<ItemModel>
    decreases sects.len() - k,
{
    if k < 0 || k >= sects.len() {
        Seq::empty()
    } else {
        section_item(sects[k].0, sects[k].1, ident, line, tags) + items_of_sections(
            sects,
            k + 1,
            ident,
            line,
            tags,
        )
    }
}

/// What one documentation block contributes: the block is unindented by
/// its least leading-space count, split into sections, and each section
/// classified as a fragment, a blueprint or a schema.
pub open spec fn doc_block_items(
    doc: Seq<char>,
    ident: Option<Seq<char>>,
    line: int,
    tags: Seq<Seq<char>>,
) -> Seq<ItemModel> {
    let ls = split_lines_spec(doc);
    let m: int = match min_indent_rec(ls, 0) {
        Option::None => 0,
        Option::Some(v) => v,
    };
    let content = join_lines(unindent_lines(ls, m, 0));
    let sects = sections_rec(split_lines_spec(content), 0, Seq::empty(), Seq::empty());
    items_of_sections(sects, 0, ident, line, tags)
}


// ----------------------------------------------------------------------
// Executable block parsing.

/// The views of header/body pairs.
pub open spec fn pair_views(v: Seq<(Vec<char>, Vec<char>)>) -> Seq<(Seq<char>, Seq<char>)> {
    Seq::new(v.len(), |i: int| (v[i].0@, v[i].1@))
}

/// The view of an optional owned name.
pub open spec fn opt_view(o: Option<String>) -> Option<Seq<char>> {
    match o {
        Option::Some(s) => Some(s@),
        Option::None => None,
    }
}

/// Counts the leading plain spaces of a line.
fn count_spaces(line: &Vec<char>) -> (r: usize)
    ensures
        r == spaces_end(line@, 0),
        r <= line@.len(),
{
    let n = line.len();
    let mut a: usize = 0;
    while a < n && line[a] == ' '
        invariant
            a <= n,
            n == line@.len(),
            forall|j: int| 0 <= j < a ==> #[trigger] line@[j] == ' ',
        decreases n - a,
    {
        a = a + 1;
    }
    proof {
        lemma_spaces_end_skip(line@, 0, a as int);
        assert(spaces_end(line@, a as int) == a as int);
    }
    a
}

/// The least leading-space count over non-blank lines.
fn compute_min_indent(ls: &Vec<Vec<char>>) -> (r: Option<usize>)
    ensures
        match r {
            Some(m) => min_indent_rec(seq_views(ls@), 0) == Some(m as int),
            None => min_indent_rec(seq_views(ls@), 0) is None,
        },
{
    let ghost lv = seq_views(ls@);
    let n = ls.len();
    let mut i: usize = n;
    let mut running: Option<usize> = None;
    while i > 0
        invariant
            i <= n,
            n == ls@.len(),
            lv == seq_views(ls@),
            lv.len() == n,
            forall|j: int| 0 <= j < n ==> #[trigger] lv[j] == ls@[j]@,
            match running {
                Option::Some(m) => min_indent_rec(lv, i as int) == Some(m as int),
                Option::None => min_indent_rec(lv, i as int) is None,
            },
        decreases i,
    {
        i = i - 1;
        let t = trim_chars(&ls[i]);
        if t.len() > 0 {
            let m = count_spaces(&ls[i]);
            proof {
                assert(lv[i as int] == ls@[i as int]@);
            }
            running = match running {
                Option::Some(r) => Some(
                    if m <= r {
                        m
                    } else {
                        r
                    },
                ),
                Option::None => Some(m),
            };
        }
    }
    running
}

/// Drops the first `m` characters of each sufficiently long line.
fn unindent_exec(ls: Vec<Vec<char>>, m: usize) -> (r: Vec<Vec<char>>)
    ensures
        seq_views(r@) == unindent_lines(seq_views(ls@), m as int, 0),
{
    let ghost lv = seq_views(ls@);
    let mut rest = ls;
    let mut out: Vec<Vec<char>> = Vec::new();
    let mut k: usize = 0;
    let total = rest.len();
    proof {
        assert(lv.len() == total);
        assert(seq_views(rest@) =~= lv.skip(0));
    }
    while rest.len() > 0
        invariant
            lv.len() == total,
            k + rest@.len() == lv.len(),
            seq_views(rest@) == lv.skip(k as int),
            unindent_lines(lv, m as int, 0) == seq_views(out@) + unindent_lines(
                lv,
                m as int,
                k as int,
            ),
        decreases rest@.len(),
    {
        let ghost rest_before = rest@;
        let line = rest.remove(0);
        proof {
            assert(rest@ =~= rest_before.skip(1));
            assert forall|p: int| 0 <= p < rest@.len() implies #[trigger] seq_views(rest@)[p]
                == lv.skip(k + 1)[p] by {
                assert(rest@[p] == rest_before[p + 1]);
                assert(seq_views(rest_before)[p + 1] == rest_before[p + 1]@);
            }
            assert(seq_views(rest@) =~= lv.skip(k + 1));
            assert(seq_views(rest_before)[0] == line@);
            assert(line@ == lv[k as int]);
        }
        let piece = if line.len() >= m {
            sub_chars(&line, m, line.len())
        } else {
            line
        };
        proof {
            if lv[k as int].len() >= m {
                assert(piece@ =~= lv[k as int].skip(m as int));
            }
        }
        let ghost om = seq_views(out@);
        let ghost pv = piece@;
        let ghost rest2 = unindent_lines(lv, m as int, k + 1);
        out.push(piece);
        k = k + 1;
        proof {
            assert forall|x: int| 0 <= x < out@.len() implies #[trigger] seq_views(out@)[x] == (om
                + seq![pv])[x] by {
                if x < om.len() {
                } else {
                    assert(out@[x]@ == pv);
                }
            }
            assert(seq_views(out@) =~= om + seq![pv]);
            assert((om + seq![pv]) + rest2 =~= om + (seq![pv] + rest2));
        }
    }
    proof {
        assert(seq_views(out@) + unindent_lines(lv, m as int, k as int) =~= seq_views(out@));
    }
    out
}

/// Splits the unindented block into sections.
#[verifier::loop_isolation(false)]
fn split_sections(ls: Vec<Vec<char>>) -> (r: Vec<(Vec<char>, Vec<char>)>)
    ensures
        pair_views(r@) == sections_rec(seq_views(ls@), 0, Seq::empty(), Seq::empty()),
{
    let ghost lv = seq_views(ls@);
    let kw = chars_vec("@openapi");
    proof {
        reveal_strlit("@openapi");
        reveal_strlit("@json");
    }
    let mut rest = ls;
    let mut out: Vec<(Vec<char>, Vec<char>)> = Vec::new();
    let mut header: Vec<char> = Vec::new();
    let mut body: Vec<Vec<char>> = Vec::new();
    let mut k: usize = 0;
    let total = rest.len();
    proof {
        assert(lv.len() == total);
        assert(seq_views(rest@) =~= lv.skip(0));
        assert(header@ =~= Seq::<char>::empty());
        assert(seq_views(body@) =~= Seq::<Seq<char>>::empty());
        assert(pair_views(out@) =~= Seq::<(Seq<char>, Seq<char>)>::empty());
    }
    while rest.len() > 0
        invariant
            lv.len() == total,
            k + rest@.len() == lv.len(),
            seq_views(rest@) == lv.skip(k as int),
            sections_rec(lv, 0, Seq::empty(), Seq::empty()) == pair_views(out@) + sections_rec(
                lv,
                k as int,
                header@,
                seq_views(body@),
            ),
        decreases rest@.len(),
    {
        let ghost rest_before = rest@;
        let line = rest.remove(0);
        proof {
            assert(rest@ =~= rest_before.skip(1));
            assert forall|p: int| 0 <= p < rest@.len() implies #[trigger] seq_views(rest@)[p]
                == lv.skip(k + 1)[p] by {
                assert(rest@[p] == rest_before[p + 1]);
                assert(seq_views(rest_before)[p + 1] == rest_before[p + 1]@);
            }
            assert(seq_views(rest@) =~= lv.skip(k + 1));
            assert(seq_views(rest_before)[0] == line@);
            assert(line@ == lv[k as int]);
        }
        let trimmed = trim_chars(&line);
        let ghost om = pair_views(out@);
        let ghost hv = header@;
        let ghost bv = seq_views(body@);
        if crate::text::check_match_at(&trimmed, &kw, 0) {
            if header.len() != 0 || body.len() != 0 {
                let joined = join_with_nl(&body);
                out.push((header, joined));
                proof {
                    assert forall|x: int| 0 <= x < out@.len() implies #[trigger] pair_views(
                        out@,
                    )[x] == (om + seq![(hv, join_lines(bv))])[x] by {
                        if x < om.len() {
                        } else {
                            assert(out@[x].0@ == hv && out@[x].1@ == join_lines(bv));
                        }
                    }
                    assert(pair_views(out@) =~= om + seq![(hv, join_lines(bv))]);
                    assert((om + seq![(hv, join_lines(bv))]) + sections_rec(
                        lv,
                        k + 1,
                        trim_spec(lv[k as int]),
                        Seq::empty(),
                    ) =~= om + (seq![(hv, join_lines(bv))] + sections_rec(
                        lv,
                        k + 1,
                        trim_spec(lv[k as int]),
                        Seq::empty(),
                    )));
                }
            }
            header = trimmed;
            body = Vec::new();
            proof {
                assert(seq_views(body@) =~= Seq::<Seq<char>>::empty());
            }
        } else if trimmed.len() > 0 && trimmed[0] == '{' && header.len() == 0 {
            if body.len() != 0 {
                let joined = join_with_nl(&body);
                out.push((header, joined));
                proof {
                    assert forall|x: int| 0 <= x < out@.len() implies #[trigger] pair_views(
                        out@,
                    )[x] == (om + seq![(hv, join_lines(bv))])[x] by {
                        if x < om.len() {
                        } else {
                            assert(out@[x].0@ == hv && out@[x].1@ == join_lines(bv));
                        }
                    }
                    assert(pair_views(out@) =~= om + seq![(hv, join_lines(bv))]);
                    assert((om + seq![(hv, join_lines(bv))]) + sections_rec(
                        lv,
                        k + 1,
                        "@json"@,
                        seq![lv[k as int]],
                    ) =~= om + (seq![(hv, join_lines(bv))] + sections_rec(
                        lv,
                        k + 1,
                        "@json"@,
                        seq![lv[k as int]],
                    )));
                }
            } else {
                proof {
                    assert(header@ =~= Seq::<char>::empty());
                }
                header = Vec::new();
            }
            header = chars_vec("@json");
            body = Vec::new();
            body.push(line);
            proof {
                assert(seq_views(body@) =~= seq![lv[k as int]]);
            }
        } else {
            let ghost bv_old = seq_views(body@);
            body.push(line);
            proof {
                assert forall|x: int| 0 <= x < body@.len() implies #[trigger] seq_views(body@)[x]
                    == bv_old.push(lv[k as int])[x] by {
                    if x < bv_old.len() {
                    } else {
                        assert(body@[x]@ == lv[k as int]);
                    }
                }
                assert(seq_views(body@) =~= bv_old.push(lv[k as int]));
            }
        }
        k = k + 1;
    }
    if header.len() != 0 || body.len() != 0 {
        let ghost om = pair_views(out@);
        let ghost hv = header@;
        let ghost bv = seq_views(body@);
        let joined = join_with_nl(&body);
        out.push((header, joined));
        proof {
            assert forall|x: int| 0 <= x < out@.len() implies #[trigger] pair_views(out@)[x] == (om
                + seq![(hv, join_lines(bv))])[x] by {
                if x < om.len() {
                } else {
                    assert(out@[x].0@ == hv && out@[x].1@ == join_lines(bv));
                }
            }
            assert(pair_views(out@) =~= om + seq![(hv, join_lines(bv))]);
        }
    } else {
        proof {
            assert(pair_views(out@) + Seq::<(Seq<char>, Seq<char>)>::empty() =~= pair_views(out@));
        }
    }
    out
}


// ----------------------------------------------------------------------
// Executable tag injection, auto-wrap and parameter parsing.

/// Injects the tag list under each verb line of a body.
#[verifier::loop_isolation(false)]
fn inject_tags_exec(body: &Vec<char>, tags: &Vec<String>) -> (r: Vec<char>)
    ensures
        r@ == injected_body(body@, tags.deep_view()),
{
    let ghost tv = tags.deep_view();
    if tags.len() == 0 {
        let copy = sub_chars(body, 0, body.len());
        proof {
            assert(copy@ =~= body@);
        }
        return copy;
    }
    let tpat = chars_vec("tags:");
    proof {
        reveal_strlit("tags:");
    }
    let already = crate::text::has_sub(body, &tpat);
    let ghost lv = split_lines_spec(body@);
    let mut lines = split_lines(body);
    let total = lines.len();
    proof {
        assert(lv.len() == total);
        assert(seq_views(lines@) =~= lv.skip(0));
    }
    let mut out: Vec<Vec<char>> = Vec::new();
    let mut injected = false;
    let mut k: usize = 0;
    while lines.len() > 0
        invariant
            k + lines@.len() == lv.len(),
            seq_views(lines@) == lv.skip(k as int),
            ({
                let (full, inj) = inject_rec(lv, 0, tv, already);
                let (rest, inj_rest) = inject_rec(lv, k as int, tv, already);
                full == seq_views(out@) + rest && inj == (injected || inj_rest)
            }),
        decreases lines@.len(),
    {
        let ghost lines_before = lines@;
        let line = lines.remove(0);
        proof {
            assert(lines@ =~= lines_before.skip(1));
            assert forall|p: int| 0 <= p < lines@.len() implies #[trigger] seq_views(lines@)[p]
                == lv.skip(k + 1)[p] by {
                assert(lines@[p] == lines_before[p + 1]);
                assert(seq_views(lines_before)[p + 1] == lines_before[p + 1]@);
            }
            assert(seq_views(lines@) =~= lv.skip(k + 1));
            assert(seq_views(lines_before)[0] == line@);
            assert(line@ == lv[k as int]);
        }
        let trimmed = trim_chars(&line);
        let is_v = is_verb_exec(&trimmed);
        let ghost om = seq_views(out@);
        let ghost rest2 = inject_rec(lv, k + 1, tv, already).0;
        if is_v && !already {
            let ind = count_spaces(&line);
            let mut child = sub_chars(&line, 0, ind);
            let two = chars_vec("  ");
            push_all(&mut child, &two);
            proof {
                assert(child@ =~= lv[k as int].subrange(0, spaces_end(lv[k as int], 0)) + "  "@);
            }
            let ghost cv2 = child@;
            let mut tline = sub_chars(&child, 0, child.len());
            let tk = chars_vec("tags:");
            push_all(&mut tline, &tk);
            proof {
                assert(tline@ =~= cv2 + "tags:"@);
            }
            out.push(line);
            out.push(tline);
            // the tag list
            let mut q: usize = 0;
            let ghost om2 = seq_views(out@);
            proof {
                assert forall|x: int| 0 <= x < out@.len() implies #[trigger] seq_views(out@)[x]
                    == (om + seq![lv[k as int], cv2 + "tags:"@])[x] by {
                    if x < om.len() {
                    } else if x == om.len() {
                        assert(out@[x]@ == lv[k as int]);
                    } else {
                        assert(out@[x]@ == cv2 + "tags:"@);
                    }
                }
                assert(seq_views(out@) =~= om + seq![lv[k as int], cv2 + "tags:"@]);
                lemma_tag_lines_shape(tv, cv2, 0);
                assert(tag_lines(tv, cv2, 0).take(0) =~= Seq::<Seq<char>>::empty());
                assert(seq_views(out@) =~= om2 + tag_lines(tv, cv2, 0).take(0));
            }
            while q < tags.len()
                invariant
                    q <= tags@.len(),
                    tv.len() == tags@.len(),
                    seq_views(out@) == om2 + tag_lines(tv, cv2, 0).take(q as int),
                    tag_lines(tv, cv2, 0).len() == tv.len(),
                decreases tags@.len() - q,
            {
                let mut tl = sub_chars(&child, 0, child.len());
                let mid = chars_vec("  - ");
                push_all(&mut tl, &mid);
                let tn = chars_vec(tags[q].as_str());
                push_all(&mut tl, &tn);
                proof {
                    reveal_strlit("  - ");
                    reveal_strlit("  ");
                    reveal_strlit("- ");
                    lemma_tag_lines_index(tv, cv2, q as int);
                    assert(tl@ =~= cv2 + "  "@ + "- "@ + tv[q as int]);
                }
                let ghost om3 = seq_views(out@);
                let ghost plv = tl@;
                out.push(tl);
                q = q + 1;
                proof {
                    assert forall|x: int| 0 <= x < out@.len() implies #[trigger] seq_views(
                        out@,
                    )[x] == (om3 + seq![plv])[x] by {
                        if x < om3.len() {
                        } else {
                            assert(out@[x]@ == plv);
                        }
                    }
                    assert(seq_views(out@) =~= om3 + seq![plv]);
                    assert(seq_views(out@) =~= om2 + tag_lines(tv, cv2, 0).take(q as int));
                }
            }
            injected = true;
            proof {
                assert(tag_lines(tv, cv2, 0).take(q as int) =~= tag_lines(tv, cv2, 0));
                assert(seq_views(out@) =~= om + (seq![lv[k as int], cv2 + "tags:"@] + tag_lines(
                    tv,
                    cv2,
                    0,
                )));
                assert((om + (seq![lv[k as int], cv2 + "tags:"@] + tag_lines(tv, cv2, 0)))
                    + rest2 =~= om + ((seq![lv[k as int], cv2 + "tags:"@] + tag_lines(
                    tv,
                    cv2,
                    0,
                )) + rest2));
                assert(seq![lv[k as int], cv2 + "tags:"@] + tag_lines(tv, cv2, 0) + rest2
                    =~= seq![lv[k as int]] + seq![cv2 + "tags:"@] + tag_lines(tv, cv2, 0) + rest2);
            }
        } else {
            out.push(line);
            proof {
                assert forall|x: int| 0 <= x < out@.len() implies #[trigger] seq_views(out@)[x]
                    == (om + seq![lv[k as int]])[x] by {
                    if x < om.len() {
                    } else {
                        assert(out@[x]@ == lv[k as int]);
                    }
                }
                assert(seq_views(out@) =~= om + seq![lv[k as int]]);
                assert((om + seq![lv[k as int]]) + rest2 =~= om + (seq![lv[k as int]] + rest2));
            }
        }
        k = k + 1;
    }
    proof {
        assert(seq_views(out@) + inject_rec(lv, k as int, tv, already).0 =~= seq_views(out@));
    }
    if injected {
        let joined = join_with_nl(&out);
        joined
    } else {
        let copy = sub_chars(body, 0, body.len());
        proof {
            assert(copy@ =~= body@);
        }
        copy
    }
}

proof fn lemma_tag_lines_index(tags: Seq<Seq<char>>, child: Seq<char>, q: int)
    requires
        0 <= q < tags.len(),
    ensures
        tag_lines(tags, child, 0).len() == tags.len(),
        tag_lines(tags, child, 0).take(q + 1) =~= tag_lines(tags, child, 0).take(q).push(
            child + "  "@ + "- "@ + tags[q],
        ),
    decreases tags.len(),
{
    lemma_tag_lines_shape(tags, child, 0);
    assert(tag_lines(tags, child, 0).take(q + 1) =~= tag_lines(tags, child, 0).take(q).push(
        tag_lines(tags, child, 0)[q],
    ));
}

proof fn lemma_tag_lines_shape(tags: Seq<Seq<char>>, child: Seq<char>, k: int)
    requires
        0 <= k <= tags.len(),
    ensures
        tag_lines(tags, child, k).len() == tags.len() - k,
        forall|p: int|
            0 <= p < tags.len() - k ==> #[trigger] tag_lines(tags, child, k)[p] == child + "  "@
                + "- "@ + tags[k + p],
    decreases tags.len() - k,
{
    if k < tags.len() {
        lemma_tag_lines_shape(tags, child, k + 1);
    }
}

/// Whether a trimmed line is a path verb.
fn is_verb_exec(t: &Vec<char>) -> (r: bool)
    ensures
        r == is_verb(t@),
{
    proof {
        reveal_strlit("get:");
        reveal_strlit("post:");
        reveal_strlit("put:");
        reveal_strlit("delete:");
        reveal_strlit("patch:");
        reveal_strlit("head:");
        reveal_strlit("options:");
        reveal_strlit("trace:");
    }
    let c1 = chars_vec("get:");
    let c2 = chars_vec("post:");
    let c3 = chars_vec("put:");
    let c4 = chars_vec("delete:");
    let c5 = chars_vec("patch:");
    let c6 = chars_vec("head:");
    let c7 = chars_vec("options:");
    let c8 = chars_vec("trace:");
    crate::text::eq_chars(t, &c1) || crate::text::eq_chars(t, &c2) || crate::text::eq_chars(
        t,
        &c3,
    ) || crate::text::eq_chars(t, &c4) || crate::text::eq_chars(t, &c5) || crate::text::eq_chars(
        t,
        &c6,
    ) || crate::text::eq_chars(t, &c7) || crate::text::eq_chars(t, &c8)
}

/// Whether any line declares a top-level key.
#[verifier::loop_isolation(false)]
fn any_toplevel_exec(ls: &Vec<Vec<char>>) -> (r: bool)
    ensures
        r == any_toplevel(seq_views(ls@), 0),
{
    let ghost lv = seq_views(ls@);
    proof {
        reveal_strlit("openapi");
        reveal_strlit("info");
        reveal_strlit("paths");
        reveal_strlit("components");
        reveal_strlit("tags");
        reveal_strlit("servers");
        reveal_strlit("security");
    }
    let k1 = chars_vec("openapi");
    let k2 = chars_vec("info");
    let k3 = chars_vec("paths");
    let k4 = chars_vec("components");
    let k5 = chars_vec("tags");
    let k6 = chars_vec("servers");
    let k7 = chars_vec("security");
    let n = ls.len();
    let mut i: usize = 0;
    while i < n
        invariant
            i <= n,
            n == lv.len(),
            any_toplevel(lv, 0) == any_toplevel(lv, i as int),
        decreases n - i,
    {
        let t = trim_chars(&ls[i]);
        proof {
            assert(lv[i as int] == ls@[i as int]@);
        }
        let mut top = false;
        if !(t.len() > 0 && t[0] == '#') {
            let pre = match crate::text::find_char(&t, ':', 0) {
                Option::Some(p) => {
                    proof {
                        crate::text::lemma_find_char_in_range(t@, ':', p as int);
                    }
                    sub_chars(&t, 0, p)
                },
                Option::None => sub_chars(&t, 0, t.len()),
            };
            proof {
                assert(pre@ =~= first_colon_prefix(trim_spec(lv[i as int])));
            }
            let key = trim_chars(&pre);
            top = crate::text::eq_chars(&key, &k1) || crate::text::eq_chars(&key, &k2)
                || crate::text::eq_chars(&key, &k3) || crate::text::eq_chars(&key, &k4)
                || crate::text::eq_chars(&key, &k5) || crate::text::eq_chars(&key, &k6)
                || crate::text::eq_chars(&key, &k7);
        }
        if top {
            proof {
                assert(line_toplevel(lv[i as int]));
            }
            return true;
        }
        proof {
            assert(!line_toplevel(lv[i as int]));
        }
        i = i + 1;
    }
    false
}

proof fn lemma_nb_cons(h: Seq<char>, rest: Seq<Seq<char>>)
    ensures
        nonblank_trimmed(seq![h] + rest, 0) == (if trim_spec(h).len() > 0 {
            seq![trim_spec(h)]
        } else {
            Seq::<Seq<char>>::empty()
        }) + nonblank_trimmed(rest, 0),
{
    let whole = seq![h] + rest;
    assert(whole[0] == h);
    lemma_nb_shift(whole, rest, 1);
}

proof fn lemma_nb_shift(whole: Seq<Seq<char>>, rest: Seq<Seq<char>>, k: int)
    requires
        1 <= k <= whole.len(),
        whole.len() == rest.len() + 1,
        forall|j: int| 0 <= j < rest.len() ==> whole[j + 1] == #[trigger] rest[j],
    ensures
        nonblank_trimmed(whole, k) == nonblank_trimmed(rest, k - 1),
    decreases whole.len() - k,
{
    if k < whole.len() {
        assert(whole[k] == rest[k - 1]);
        lemma_nb_shift(whole, rest, k + 1);
    }
}

proof fn lemma_nb_single(h: Seq<char>)
    ensures
        nonblank_trimmed(seq![h], 0) == (if trim_spec(h).len() > 0 {
            seq![trim_spec(h)]
        } else {
            Seq::<Seq<char>>::empty()
        }),
{
    let whole = seq![h];
    assert(whole[0] == h);
    assert(nonblank_trimmed(whole, 1) =~= Seq::<Seq<char>>::empty());
    if trim_spec(h).len() > 0 {
        assert(seq![trim_spec(h)] + Seq::<Seq<char>>::empty() =~= seq![trim_spec(h)]);
    } else {
        assert(Seq::<Seq<char>>::empty() + Seq::<Seq<char>>::empty() =~= Seq::<
            Seq<char>,
        >::empty());
    }
}

/// Splits a parameter list on commas, trimming and dropping blanks.
#[verifier::loop_isolation(false)]
fn params_exec(a: &Vec<char>) -> (r: Vec<Vec<char>>)
    ensures
        seq_views(r@) == params_of(a@),
{
    let n = a.len();
    let mut out: Vec<Vec<char>> = Vec::new();
    let mut start: usize = 0;
    let mut i: usize = 0;
    while i < n
        invariant
            start <= i <= n,
            nonblank_trimmed(split_plain(a@, 0, 0), 0) == seq_views(out@) + nonblank_trimmed(
                split_plain(a@, start as int, i as int),
                0,
            ),
        decreases n - i,
    {
        if a[i] == ',' {
            let piece = sub_chars(a, start, i);
            let t = trim_chars(&piece);
            let ghost om = seq_views(out@);
            let ghost hpiece = a@.subrange(start as int, i as int);
            let ghost rest = nonblank_trimmed(split_plain(a@, i + 1, i + 1), 0);
            proof {
                assert(split_plain(a@, start as int, i as int) == seq![hpiece] + split_plain(
                    a@,
                    i + 1,
                    i + 1,
                ));
                lemma_nb_cons(hpiece, split_plain(a@, i + 1, i + 1));
            }
            if t.len() > 0 {
                let ghost pv = t@;
                out.push(t);
                proof {
                    assert forall|x: int| 0 <= x < out@.len() implies #[trigger] seq_views(
                        out@,
                    )[x] == (om + seq![pv])[x] by {
                        if x < om.len() {
                        } else {
                            assert(out@[x]@ == pv);
                        }
                    }
                    assert(seq_views(out@) =~= om + seq![pv]);
                    assert((om + seq![pv]) + rest =~= om + (seq![pv] + rest));
                }
            } else {
                proof {
                    assert(om + rest =~= om + (Seq::<Seq<char>>::empty() + rest));
                }
            }
            start = i + 1;
            i = i + 1;
        } else {
            i = i + 1;
        }
    }
    let piece = sub_chars(a, start, n);
    let t = trim_chars(&piece);
    let ghost om = seq_views(out@);
    let ghost hpiece = a@.subrange(start as int, n as int);
    proof {
        assert(split_plain(a@, start as int, n as int) == seq![hpiece]);
        lemma_nb_single(hpiece);
    }
    if t.len() > 0 {
        let ghost pv = t@;
        out.push(t);
        proof {
            assert forall|x: int| 0 <= x < out@.len() implies #[trigger] seq_views(out@)[x] == (om
                + seq![pv])[x] by {
                if x < om.len() {
                } else {
                    assert(out@[x]@ == pv);
                }
            }
            assert(seq_views(out@) =~= om + seq![pv]);
        }
    } else {
        proof {
            assert(om + Seq::<Seq<char>>::empty() =~= om);
        }
    }
    proof {
        assert(seq_views(out@) =~= params_of(a@));
    }
    out
}


// ----------------------------------------------------------------------
// From sections to items.

/// Copies the parameter pieces into owned strings.
fn pieces_to_strings(parts: Vec<Vec<char>>) -> (r: Vec<String>)
    ensures
        r.deep_view() == seq_views(parts@),
{
    let ghost parts0 = seq_views(parts@);
    let mut parts = parts;
    let mut out: Vec<String> = Vec::new();
    while parts.len() > 0
        invariant
            out.deep_view() + seq_views(parts@) == parts0,
        decreases parts@.len(),
    {
        let ghost out_before = out.deep_view();
        let ghost parts_before = parts@;
        let p = parts.remove(0);
        out.push(string_of(&p));
        proof {
            assert(parts@ =~= parts_before.skip(1));
            assert(seq_views(parts_before)[0] == p@);
            assert(out.deep_view() =~= out_before.push(p@));
            assert(out.deep_view() + seq_views(parts@) =~= parts0);
        }
    }
    proof {
        assert(out.deep_view() + seq_views(parts@) =~= out.deep_view());
    }
    out
}

/// The item one section yields, if any.
#[verifier::loop_isolation(false)]
fn section_item_exec(
    header: &Vec<char>,
    body: &Vec<char>,
    ident: &Option<String>,
    line: usize,
    tags: &Vec<String>,
) -> (r: Option<ExtractedItem>)
    ensures
        ({
            let spec_items = section_item(
                header@,
                body@,
                opt_view(*ident),
                line as int,
                tags.deep_view(),
            );
            match r {
                Some(it) => spec_items == seq![it.model()],
                None => spec_items == Seq::<ItemModel>::empty(),
            }
        }),
{
    proof {
        reveal_strlit("@openapi-fragment");
        reveal_strlit("@openapi-type");
        reveal_strlit("@openapi");
        reveal_strlit("@json");
    }
    let body_t = trim_chars(body);
    let kw_frag = chars_vec("@openapi-fragment");
    let kw_type = chars_vec("@openapi-type");
    let kw_open = chars_vec("@openapi");
    let kw_json = chars_vec("@json");
    if crate::text::check_match_at(header, &kw_frag, 0) {
        let rest0 = sub_chars(header, 17, header.len());
        proof {
            assert(rest0@ =~= header@.skip(17));
        }
        let rest = trim_chars(&rest0);
        let np: (Vec<char>, Vec<Vec<char>>) = match crate::text::find_char(&rest, '(', 0) {
            Option::Some(idx) => {
                proof {
                    crate::text::lemma_find_char_in_range(rest@, '(', idx as int);
                }
                let head = sub_chars(&rest, 0, idx);
                let name = trim_chars(&head);
                let tail = sub_chars(&rest, idx + 1, rest.len());
                proof {
                    assert(tail@ =~= rest@.skip(idx + 1));
                }
                let pstr = crate::preprocessor::trim_end_parens(&tail);
                let params = params_exec(&pstr);
                (name, params)
            },
            Option::None => {
                let name = sub_chars(&rest, 0, rest.len());
                proof {
                    assert(name@ =~= rest@);
                }
                (name, Vec::new())
            },
        };
        let params = pieces_to_strings(np.1);
        let it = ExtractedItem::Fragment {
            name: string_of(&np.0),
            params,
            content: string_of(&body_t),
            line,
        };
        proof {
            assert(seq_views(Seq::<Vec<char>>::empty()) =~= Seq::<Seq<char>>::empty());
        }
        Some(it)
    } else if crate::text::check_match_at(header, &kw_type, 0) {
        let rest0 = sub_chars(header, 13, header.len());
        proof {
            assert(rest0@ =~= header@.skip(13));
        }
        let name = trim_chars(&rest0);
        let name_s = string_of(&name);
        let body_s = string_of(&body_t);
        let wrapped = wrap_in_schema(name_s.as_str(), body_s.as_str());
        let it = ExtractedItem::Schema { name: Some(name_s), content: wrapped, line };
        Some(it)
    } else if crate::text::check_match_at(header, &kw_open, 0) && (match crate::text::find_char(
        header,
        '<',
        0,
    ) {
        Option::Some(_) => true,
        Option::None => false,
    }) {
        let a = match crate::text::find_char(header, '<', 0) {
            Option::Some(a) => a,
            Option::None => 0,
        };
        proof {
            crate::text::lemma_find_char_in_range(header@, '<', a as int);
        }
        // last '>' of the header
        let n = header.len();
        let mut h: usize = n;
        let mut b: Option<usize> = None;
        while h > 0
            invariant
                h <= n,
                n == header@.len(),
                b is None,
                forall|j: int| h <= j < n ==> #[trigger] header@[j] != '>',
            decreases h,
        {
            h = h - 1;
            if header[h] == '>' {
                proof {
                    crate::preprocessor::lemma_rfind_skip(header@, '>', h as int, n - 1);
                }
                b = Some(h);
                break ;
            }
        }
        proof {
            if b is None {
                crate::preprocessor::lemma_rfind_skip(header@, '>', -1, n - 1);
            }
        }
        match b {
            Option::Some(bv) => {
                if bv > a {
                    let pstr = sub_chars(header, a + 1, bv);
                    let params = params_exec(&pstr);
                    match ident {
                        Option::Some(id) => {
                            let it = ExtractedItem::Blueprint {
                                name: id.clone(),
                                params: pieces_to_strings(params),
                                content: string_of(&body_t),
                                line,
                            };
                            Some(it)
                        },
                        Option::None => None,
                    }
                } else {
                    None
                }
            },
            Option::None => None,
        }
    } else if crate::text::check_match_at(header, &kw_open, 0) || crate::text::eq_chars(
        header,
        &kw_json,
    ) || header.len() == 0 {
        let body1 = inject_tags_exec(&body_t, tags);
        let ls1 = split_lines(&body1);
        let top = any_toplevel_exec(&ls1);
        let t1 = trim_chars(&body1);
        let fin: Vec<char> = if !top && t1.len() != 0 {
            match ident {
                Option::Some(n2) => {
                    let b1s = string_of(&body1);
                    let w = wrap_in_schema(n2.as_str(), b1s.as_str());
                    chars_vec(w.as_str())
                },
                Option::None => body1,
            }
        } else {
            body1
        };
        let name_copy: Option<String> = match ident {
            Option::Some(s) => Some(s.clone()),
            Option::None => None,
        };
        let it = ExtractedItem::Schema { name: name_copy, content: string_of(&fin), line };
        Some(it)
    } else {
        None
    }
}

impl OpenApiVisitor {
    /// Parses one documentation block: unindents it, splits it into
    /// sections at `@openapi` headers, and appends the fragment,
    /// blueprint and schema items the sections declare, with the
    /// enclosing tags injected under path verbs.
    #[verifier::loop_isolation(false)]
    pub fn parse_doc_block(&mut self, doc: &str, item_ident: Option<String>, line: usize)
        ensures
            final(self).items@ == old(self).items@ + final(self).items@.skip(
                old(self).items@.len() as int,
            ),
            items_model(final(self).items@) == items_model(old(self).items@) + doc_block_items(
                doc@,
                opt_view(item_ident),
                line as int,
                old(self).current_tags.deep_view(),
            ),
            final(self).current_tags == old(self).current_tags,
    {
        let ghost tags_v = self.current_tags.deep_view();
        let ghost ident_v = opt_view(item_ident);
        let cv = chars_vec(doc);
        let ghost lsv = split_lines_spec(doc@);
        let ls = split_lines(&cv);
        let m: usize = match compute_min_indent(&ls) {
            Option::Some(v) => v,
            Option::None => 0,
        };
        proof {
            assert(m as int == (match min_indent_rec(lsv, 0) {
                Option::None => 0int,
                Option::Some(v) => v,
            }));
        }
        let un = unindent_exec(ls, m);
        let joined = join_with_nl(&un);
        let content_lines = split_lines(&joined);
        proof {
            assert(seq_views(content_lines@) == split_lines_spec(
                join_lines(unindent_lines(lsv, m as int, 0)),
            ));
        }
        let mut sects = split_sections(content_lines);
        let ghost sv = sections_rec(
            split_lines_spec(join_lines(unindent_lines(lsv, m as int, 0))),
            0,
            Seq::empty(),
            Seq::empty(),
        );
        proof {
            assert(pair_views(sects@) == sv);
        }
        let ghost items0 = self.items@;
        let total = sects.len();
        let mut k: usize = 0;
        while sects.len() > 0
            invariant
                sv.len() == total,
                k + sects@.len() == sv.len(),
                pair_views(sects@) == sv.skip(k as int),
                self.current_tags == old(self).current_tags,
                forall|j: int|
                    0 <= j < items0.len() ==> #[trigger] self.items@[j] == items0[j],
                self.items@.len() >= items0.len(),
                items_model(self.items@) == items_model(items0) + items_of_sections(
                    sv,
                    0,
                    ident_v,
                    line as int,
                    tags_v,
                ).take(items_model(self.items@).len() - items0.len()),
                items_of_sections(sv, 0, ident_v, line as int, tags_v) == items_model(
                    self.items@,
                ).skip(items0.len() as int) + items_of_sections(
                    sv,
                    k as int,
                    ident_v,
                    line as int,
                    tags_v,
                ),
            decreases sects@.len(),
        {
            let ghost sects_before = sects@;
            let sect = sects.remove(0);
            proof {
                assert(sects@ =~= sects_before.skip(1));
                assert forall|p: int| 0 <= p < sects@.len() implies #[trigger] pair_views(
                    sects@,
                )[p] == sv.skip(k + 1)[p] by {
                    assert(sects@[p] == sects_before[p + 1]);
                    assert(pair_views(sects_before)[p + 1] == (
                        sects_before[p + 1].0@,
                        sects_before[p + 1].1@,
                    ));
                }
                assert(pair_views(sects@) =~= sv.skip(k + 1));
                assert(pair_views(sects_before)[0] == (sect.0@, sect.1@));
                assert((sect.0@, sect.1@) == sv[k as int]);
            }
            let item = section_item_exec(&sect.0, &sect.1, &item_ident, line, &self.current_tags);
            let ghost before_items = self.items@;
            match item {
                Option::Some(it) => {
                    self.items.push(it);
                    proof {
                        assert forall|x: int|
                            0 <= x < self.items@.len() implies #[trigger] items_model(
                            self.items@,
                        )[x] == (items_model(before_items) + seq![
                            self.items@[self.items@.len() - 1].model(),
                        ])[x] by {
                            if x < before_items.len() {
                                assert(self.items@[x] == before_items[x]);
                            }
                        }
                        assert(items_model(self.items@) =~= items_model(before_items) + seq![
                            self.items@[self.items@.len() - 1].model(),
                        ]);
                    }
                },
                Option::None => {
                    proof {
                        assert(items_model(self.items@) =~= items_model(before_items)
                            + Seq::<ItemModel>::empty());
                    }
                },
            }
            k = k + 1;
            proof {
                let full = items_of_sections(sv, 0, ident_v, line as int, tags_v);
                let here = section_item(sv[k - 1].0, sv[k - 1].1, ident_v, line as int, tags_v);
                let restitems = items_of_sections(sv, k as int, ident_v, line as int, tags_v);
                assert(items_model(self.items@).skip(items0.len() as int) + restitems =~= (
                items_model(self.items@).skip(items0.len() as int) + restitems));
                assert((items_model(before_items).skip(items0.len() as int) + here) + restitems
                    =~= items_model(before_items).skip(items0.len() as int) + (here + restitems));
                assert(items_model(self.items@).skip(items0.len() as int) =~= items_model(
                    before_items,
                ).skip(items0.len() as int) + here);
                assert(full =~= full.take(full.len() as int));
                assert(items_model(self.items@) =~= items_model(items0) + full.take(
                    items_model(self.items@).len() - items0.len(),
                ));
            }
        }
        proof {
            assert(items_model(self.items@).skip(items0.len() as int) + Seq::<
                ItemModel,
            >::empty() =~= items_model(self.items@).skip(items0.len() as int));
            assert(items_model(self.items@) =~= items_model(items0) + items_of_sections(
                sv,
                0,
                ident_v,
                line as int,
                tags_v,
            ));
            assert(final(self).items@ =~= old(self).items@ + final(self).items@.skip(
                old(self).items@.len() as int,
            ));
        }
    }
}

} // verus!
