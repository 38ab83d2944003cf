//! The Monomorphizer: resolves `$Name<Args>` generic invocations against
//! registered Blueprints, producing concrete schema bodies under mangled
//! names, recursively and memoized.
use vstd::prelude::*;
use crate::index::{Registry, TemplateModel};
use crate::text::{
    char_alphabetic, char_alphanumeric, chars_vec, find_char, find_char_from, join_sep, seq_views,
    join_sep_from, string_of, sub_chars, push_all, copy_strings, replace_all, replace_spec,
    trim_chars, trim_spec, trim_start_matches_char, trim_start_matches_spec,
};

verus! {

/// The names of generated concrete schemas mapped to their bodies.
pub type SchemaMap = Map<Seq<char>, Seq<char>>;

/// The registered blueprints, by name.
pub type BlueprintMap = Map<Seq<char>, TemplateModel>;

/// How deep nested generic arguments are resolved before resolution
/// stops rewriting them; a guard against self-referential blueprints.
pub const MAX_RESOLVE_DEPTH: u32 = 64;

/// A character a generic identifier may continue with.
pub open spec fn is_name_char(c: char) -> bool {
    char_alphanumeric(c) || c == '_'
}

/// The end of the identifier starting at `i`: the first position at or
/// after `i` that does not continue an identifier.
pub open spec fn ident_end(s: Seq<char>, i: int) -> int
    decreases s.len() - i,
{
    if i < 0 || i >= s.len() {
        i
    } else if is_name_char(s[i]) {
        ident_end(s, i + 1)
    } else {
        i
    }
}

pub proof fn lemma_ident_end_range(s: Seq<char>, i: int)
    requires
        0 <= i <= s.len(),
    ensures
        i <= ident_end(s, i) <= s.len(),
    decreases s.len() - i,
{
    if i < s.len() && is_name_char(s[i]) {
        lemma_ident_end_range(s, i + 1);
    }
}

pub proof fn lemma_ident_end_skip(s: Seq<char>, i: int, upto: int)
    requires
        0 <= i <= upto <= s.len(),
        forall|j: int| i <= j < upto ==> is_name_char(#[trigger] s[j]),
    ensures
        ident_end(s, i) == ident_end(s, upto),
    decreases upto - i,
{
    if i < upto {
        lemma_ident_end_skip(s, i + 1, upto);
    }
}

/// The position just after the `>` that closes an angle-bracket run
/// starting with `depth` brackets already open at position `i`; `None`
/// when the text ends first.
pub open spec fn close_pos(s: Seq<char>, i: int, depth: int) -> Option<int>
    decreases s.len() - i,
{
    if depth <= 0 {
        Some(i)
    } else if i < 0 || i >= s.len() {
        None
    } else if s[i] == '<' {
        close_pos(s, i + 1, depth + 1)
    } else if s[i] == '>' {
        close_pos(s, i + 1, depth - 1)
    } else {
        close_pos(s, i + 1, depth)
    }
}

proof fn lemma_close_pos_range(s: Seq<char>, i: int, depth: int, j: int)
    requires
        0 <= i <= s.len(),
        close_pos(s, i, depth) == Some(j),
    ensures
        i <= j <= s.len(),
        depth >= 1 ==> i < j,
    decreases s.len() - i,
{
    if depth <= 0 {
    } else if i < s.len() {
        lemma_close_pos_range(s, i + 1, if s[i] == '<' {
            depth + 1
        } else if s[i] == '>' {
            depth - 1
        } else {
            depth
        }, j);
    }
}

/// Splitting an argument list on top-level commas: the scanning state is
/// the pending-argument start, the cursor and the bracket depth.
pub open spec fn split_args_rec(s: Seq<char>, start: int, i: int, depth: int) -> Seq<Seq<char>>
    decreases s.len() - i,
{
    if i < 0 || i >= s.len() {
        if start < s.len() {
            seq![trim_spec(s.subrange(start, s.len() as int))]
        } else {
            Seq::empty()
        }
    } else if s[i] == '<' {
        split_args_rec(s, start, i + 1, depth + 1)
    } else if s[i] == '>' {
        split_args_rec(s, start, i + 1, depth - 1)
    } else if s[i] == ',' && depth == 0 {
        seq![trim_spec(s.subrange(start, i))] + split_args_rec(s, i + 1, i + 1, depth)
    } else {
        split_args_rec(s, start, i + 1, depth)
    }
}

/// The comma-separated arguments of a generic invocation, trimmed, with
/// commas inside nested `<...>` not splitting; a blank list is empty.
pub open spec fn split_args_spec(s: Seq<char>) -> Seq<Seq<char>> {
    if trim_spec(s).len() == 0 {
        Seq::empty()
    } else {
        split_args_rec(s, 0, 0, 0)
    }
}

/// Splits an argument list on top-level commas.
pub fn split_args(s: &Vec<char>) -> (r: Vec<Vec<char>>)
    ensures
        seq_views(r@) == split_args_spec(s@),
{
    let t = trim_chars(s);
    let mut out: Vec<Vec<char>> = Vec::new();
    if t.len() == 0 {
        proof {
            assert(seq_views(out@) =~= split_args_spec(s@));
        }
        return out;
    }
    let n = s.len();
    let mut start: usize = 0;
    let mut i: usize = 0;
    let mut depth: i128 = 0;
    while i < n
        invariant
            start <= i <= n,
            n == s@.len(),
            -(i as int) <= depth as int <= i as int,
            split_args_rec(s@, 0, 0, 0) == seq_views(out@) + split_args_rec(
                s@,
                start as int,
                i as int,
                depth as int,
            ),
        decreases n - i,
    {
        let c = s[i];
        if c == '<' {
            depth = depth + 1;
            i = i + 1;
        } else if c == '>' {
            depth = depth - 1;
            i = i + 1;
        } else if c == ',' && depth == 0 {
            let piece = sub_chars(s, start, i);
            let trimmed = trim_chars(&piece);
            let ghost oldout = out@;
            let ghost om = seq_views(out@);
            let ghost t = seq![trim_spec(s@.subrange(start as int, i as int))];
            let ghost rest = split_args_rec(s@, i + 1, i + 1, 0);
            out.push(trimmed);
            proof {
                assert forall|j: int| 0 <= j < out@.len() implies #[trigger] seq_views(out@)[j]
                    == (om + t)[j] by {
                    if j < oldout.len() {
                        assert(out@[j] == oldout[j]);
                        assert(om[j] == seq_views(oldout)[j]);
                    } else {
                        assert(out@[j] == trimmed);
                        assert(seq_views(out@)[j] == trimmed@);
                        assert((om + t)[j] == t[0]);
                    }
                }
                assert(seq_views(out@) =~= om + t);
                assert((om + t) + rest =~= om + (t + rest));
            }
            start = i + 1;
            i = i + 1;
        } else {
            i = i + 1;
        }
    }
    if start < n {
        let piece = sub_chars(s, start, n);
        let trimmed = trim_chars(&piece);
        let ghost oldout = out@;
        let ghost om = seq_views(out@);
        let ghost t = seq![trim_spec(s@.subrange(start as int, n as int))];
        out.push(trimmed);
        proof {
            assert forall|j: int| 0 <= j < out@.len() implies #[trigger] seq_views(out@)[j] == (
            om + t)[j] by {
                if j < oldout.len() {
                    assert(out@[j] == oldout[j]);
                    
                } else {
                    assert(out@[j] == trimmed);
                }
            }
            assert(seq_views(out@) =~= om + t);
            assert(om + t =~= om + (t + Seq::<Seq<char>>::empty()));
            assert(t + Seq::<Seq<char>>::empty() =~= t);
        }
    } else {
        proof {
            assert(seq_views(out@) + Seq::<Seq<char>>::empty() =~= seq_views(out@));
        }
    }
    proof {
        assert(seq_views(out@) =~= split_args_spec(s@));
    }
    out
}

/// The mangled concrete-schema name: the blueprint name, an underscore,
/// and the resolved arguments joined by underscores; an empty argument
/// list yields the suffix `Generic`.
pub open spec fn mangled_name(name: Seq<char>, resolved: Seq<Seq<char>>) -> Seq<char> {
    name + "_"@ + if resolved.len() == 0 {
        "Generic"@
    } else {
        join_sep_from(resolved, "_"@, 0)
    }
}

/// Substituting `$Param` by `$Arg` in a blueprint body, parameter by
/// parameter in order; parameters beyond the argument count are left
/// alone.
pub open spec fn subst_params(
    body: Seq<char>,
    params: Seq<Seq<char>>,
    args: Seq<Seq<char>>,
    k: int,
) -> Seq<char>
    decreases params.len() - k,
{
    if k < 0 || k >= params.len() || k >= args.len() {
        body
    } else {
        subst_params(
            replace_spec(body, seq!['$'] + params[k], seq!['$'] + args[k]),
            params,
            args,
            k + 1,
        )
    }
}

/// Whether the text holds a `<`, marking an argument that itself needs
/// resolution.
pub open spec fn has_angle(s: Seq<char>) -> bool {
    find_char_from(s, '<', 0) is Some
}

/// Resolving generic invocations in text from position `i` on: the
/// rewritten remainder of the text, and the concrete schemas after all
/// instantiations the scan triggers.
pub open spec fn resolve_text_spec(
    s: Seq<char>,
    i: int,
    cs: SchemaMap,
    bps: BlueprintMap,
    depth: nat,
) -> (Seq<char>, SchemaMap)
    decreases depth, s.len() - i, 3int, 0int,
    via resolve_text_spec_dec
{
    if i < 0 || i >= s.len() {
        (Seq::empty(), cs)
    } else if s[i] == '$' && i + 1 < s.len() && char_alphabetic(s[i + 1]) {
        let ne = ident_end(s, i + 1);
        if ne < s.len() && s[ne] == '<' {
            match close_pos(s, ne + 1, 1) {
                Option::None => (s.skip(i), cs),
                Option::Some(j) => {
                    let name = s.subrange(i + 1, ne);
                    let args_str = s.subrange(ne + 1, j - 1);
                    let (mangled, cs1) = mono_spec(name, args_str, cs, bps, depth);
                    let (rest, cs2) = resolve_text_spec(s, j, cs1, bps, depth);
                    (seq!['$'] + mangled + rest, cs2)
                },
            }
        } else {
            let (rest, cs2) = resolve_text_spec(s, ne, cs, bps, depth);
            (s.subrange(i, ne) + rest, cs2)
        }
    } else {
        let (rest, cs2) = resolve_text_spec(s, i + 1, cs, bps, depth);
        (seq![s[i]] + rest, cs2)
    }
}

#[via_fn]
proof fn resolve_text_spec_dec(s: Seq<char>, i: int, cs: SchemaMap, bps: BlueprintMap, depth: nat) {
    if 0 <= i < s.len() {
        if s[i] == '$' && i + 1 < s.len() && char_alphabetic(s[i + 1]) {
            lemma_ident_end_range(s, i + 1);
            let ne = ident_end(s, i + 1);
            if ne < s.len() && s[ne] == '<' {
                match close_pos(s, ne + 1, 1) {
                    Option::None => {},
                    Option::Some(j) => {
                        lemma_close_pos_range(s, ne + 1, 1, j);
                    },
                }
            }
        }
    }
}

/// Monomorphizing one invocation: resolve the arguments (inner
/// invocations first), mangle the name, and instantiate the blueprint
/// unless the mangled name is already registered or the blueprint is
/// missing.  The mangled name is returned in every case.
pub open spec fn mono_spec(
    name: Seq<char>,
    args_str: Seq<char>,
    cs: SchemaMap,
    bps: BlueprintMap,
    depth: nat,
) -> (Seq<char>, SchemaMap)
    decreases depth, args_str.len(), 2int, 0int,
{
    let raw = split_args_spec(args_str);
    let (resolved, cs1) = resolve_args_spec(raw, 0, cs, bps, depth);
    let mangled = mangled_name(name, resolved);
    if cs1.contains_key(mangled) {
        (mangled, cs1)
    } else if bps.contains_key(name) {
        let bp = bps[name];
        (mangled, cs1.insert(mangled, subst_params(bp.body, bp.params, resolved, 0)))
    } else {
        (mangled, cs1)
    }
}

/// Resolving an argument list from index `k` on: arguments holding `<`
/// are rewritten first (one level deeper), and each is stripped of
/// leading dollars.
pub open spec fn resolve_args_spec(
    args: Seq<Seq<char>>,
    k: int,
    cs: SchemaMap,
    bps: BlueprintMap,
    depth: nat,
) -> (Seq<Seq<char>>, SchemaMap)
    decreases depth, 0int, 1int, args.len() - k,
{
    if k < 0 || k >= args.len() {
        (Seq::empty(), cs)
    } else {
        let a = args[k];
        if depth > 0 && has_angle(a) {
            let (t, cs1) = resolve_text_spec(a, 0, cs, bps, (depth - 1) as nat);
            let first = trim_start_matches_spec(t, '$');
            let (rest, cs2) = resolve_args_spec(args, k + 1, cs1, bps, depth);
            (seq![first] + rest, cs2)
        } else {
            let first = trim_start_matches_spec(a, '$');
            let (rest, cs2) = resolve_args_spec(args, k + 1, cs, bps, depth);
            (seq![first] + rest, cs2)
        }
    }
}

/// Resolves `$Name<Args>` invocations against a Registry it owns,
/// generating concrete schemas as it goes.
#[derive(Debug)]
pub struct Monomorphizer {
    pub registry: Registry,
}

impl Monomorphizer {
    /// Takes ownership of the registry to monomorphize against.
    pub fn new(registry: Registry) -> (r: Monomorphizer)
        ensures
            r.registry == registry,
    {
        Monomorphizer { registry }
    }

    /// Gives the registry back.
    pub fn into_registry(self) -> (r: Registry)
        ensures
            r == self.registry,
    {
        self.registry
    }

    /// Scans text for generic invocations such as `$Page<User>`,
    /// generates the concrete schemas they name, and returns the text
    /// with each invocation replaced by its mangled reference
    /// (`$Page_User`).
    pub fn process(&mut self, content: &str) -> (r: String)
        requires
            old(self).registry.wf(),
        ensures
            final(self).registry.wf(),
            ({
                let (t, m) = resolve_text_spec(
                    content@,
                    0,
                    old(self).registry.concrete_schemas.map_of(),
                    old(self).registry.blueprints.map_of(),
                    MAX_RESOLVE_DEPTH as nat,
                );
                r@ == t && final(self).registry.concrete_schemas.map_of() == m
            }),
            final(self).registry.blueprints == old(self).registry.blueprints,
            final(self).registry.fragments == old(self).registry.fragments,
            final(self).registry.schemas == old(self).registry.schemas,
    {
        let cv = chars_vec(content);
        let out = self.resolve_generics_in_text(&cv, MAX_RESOLVE_DEPTH);
        string_of(&out)
    }

    /// One scanning pass over the text at the given remaining depth.
    pub fn resolve_generics_in_text(&mut self, text: &Vec<char>, depth: u32) -> (r: Vec<char>)
        requires
            old(self).registry.wf(),
        ensures
            final(self).registry.wf(),
            ({
                let (t, m) = resolve_text_spec(
                    text@,
                    0,
                    old(self).registry.concrete_schemas.map_of(),
                    old(self).registry.blueprints.map_of(),
                    depth as nat,
                );
                r@ == t && final(self).registry.concrete_schemas.map_of() == m
            }),
            final(self).registry.blueprints == old(self).registry.blueprints,
            final(self).registry.fragments == old(self).registry.fragments,
            final(self).registry.schemas == old(self).registry.schemas,
        decreases depth, text@.len(), 4int, 0int,
    {
        let ghost s = text@;
        let ghost bps = old(self).registry.blueprints.map_of();
        let ghost cs0 = old(self).registry.concrete_schemas.map_of();
        let n = text.len();
        let mut out: Vec<char> = Vec::new();
        let mut i: usize = 0;
        while i < n
            invariant
                i <= n,
                n == s.len(),
                text@ == s,
                self.registry.wf(),
                self.registry.blueprints == old(self).registry.blueprints,
                self.registry.fragments == old(self).registry.fragments,
                self.registry.schemas == old(self).registry.schemas,
                self.registry.blueprints.map_of() == bps,
                resolve_text_spec(s, 0, cs0, bps, depth as nat) == {
                    let (t, m) = resolve_text_spec(
                        s,
                        i as int,
                        self.registry.concrete_schemas.map_of(),
                        bps,
                        depth as nat,
                    );
                    (out@ + t, m)
                },
            decreases depth, s.len() - i, 3int, 0int,
        {
            let c = text[i];
            if c == '$' && i + 1 < n && text[i + 1].is_alphabetic() {
                // Scan the identifier after the dollar.
                let mut ne: usize = i + 1;
                while ne < n && (text[ne].is_alphanumeric() || text[ne] == '_')
                    invariant
                        i + 1 <= ne <= n,
                        n == s.len(),
                        text@ == s,
                        forall|j: int| i + 1 <= j < ne ==> is_name_char(#[trigger] s[j]),
                    decreases n - ne,
                {
                    ne = ne + 1;
                }
                proof {
                    lemma_ident_end_skip(s, i + 1, ne as int);
                    assert(ident_end(s, ne as int) == ne as int);
                }
                if ne < n && text[ne] == '<' {
                    // Find the matching closing bracket.
                    let mut cur: usize = ne + 1;
                    let mut dep: u64 = 1;
                    while cur < n && dep > 0
                        invariant
                            ne + 1 <= cur <= n,
                            n == s.len(),
                            text@ == s,
                            dep <= cur,
                            close_pos(s, ne + 1 as int, 1) == close_pos(
                                s,
                                cur as int,
                                dep as int,
                            ),
                        decreases n - cur,
                    {
                        let cc = text[cur];
                        if cc == '<' {
                            dep = dep + 1;
                        } else if cc == '>' {
                            dep = dep - 1;
                        }
                        cur = cur + 1;
                    }
                    if dep > 0 {
                        // Malformed: no closing bracket; the invocation
                        // is left untouched and the scan is done.
                        proof {
                            assert(close_pos(s, ne + 1 as int, 1) is None);
                        }
                        let tail = sub_chars(text, i, n);
                        push_all(&mut out, &tail);
                        proof {
                            assert(tail@ =~= s.skip(i as int));
                            assert(out@ + Seq::<char>::empty() =~= out@);
                        }
                        i = n;
                    } else {
                        proof {
                            assert(close_pos(s, ne + 1 as int, 1) == Some(cur as int));
                            lemma_close_pos_range(s, ne + 1 as int, 1, cur as int);
                        }
                        let name = sub_chars(text, i + 1, ne);
                        let args_str = sub_chars(text, ne + 1, cur - 1);
                        let mangled = self.monomorphize_rec(&name, &args_str, depth);
                        out.push('$');
                        push_all(&mut out, &mangled);
                        i = cur;
                    }
                } else {
                    let piece = sub_chars(text, i, ne);
                    push_all(&mut out, &piece);
                    i = ne;
                }
            } else {
                out.push(c);
                i = i + 1;
            }
        }
        proof {
            let (t, m) = resolve_text_spec(
                s,
                i as int,
                self.registry.concrete_schemas.map_of(),
                bps,
                depth as nat,
            );
            assert(out@ + t =~= out@);
        }
        out
    }

    /// Monomorphizes one `name`/argument-list pair at the given
    /// remaining depth and returns the mangled name.
    fn monomorphize_rec(&mut self, name: &Vec<char>, args_str: &Vec<char>, depth: u32) -> (r: Vec<
        char,
    >)
        requires
            old(self).registry.wf(),
        ensures
            final(self).registry.wf(),
            ({
                let (t, m) = mono_spec(
                    name@,
                    args_str@,
                    old(self).registry.concrete_schemas.map_of(),
                    old(self).registry.blueprints.map_of(),
                    depth as nat,
                );
                r@ == t && final(self).registry.concrete_schemas.map_of() == m
            }),
            final(self).registry.blueprints == old(self).registry.blueprints,
            final(self).registry.fragments == old(self).registry.fragments,
            final(self).registry.schemas == old(self).registry.schemas,
        decreases depth, args_str@.len(), 2int, 0int,
    {
        let ghost bps = old(self).registry.blueprints.map_of();
        let ghost cs0 = old(self).registry.concrete_schemas.map_of();
        let raw = split_args(args_str);
        let ghost raw_views = seq_views(raw@);

        // Resolve each argument, inner invocations first.
        let mut resolved: Vec<Vec<char>> = Vec::new();
        let mut k: usize = 0;
        while k < raw.len()
            invariant
                k <= raw@.len(),
                seq_views(raw@) == raw_views,
                self.registry.wf(),
                self.registry.blueprints == old(self).registry.blueprints,
                self.registry.fragments == old(self).registry.fragments,
                self.registry.schemas == old(self).registry.schemas,
                self.registry.blueprints.map_of() == bps,
                resolve_args_spec(raw_views, 0, cs0, bps, depth as nat) == {
                    let (rest, m) = resolve_args_spec(
                        raw_views,
                        k as int,
                        self.registry.concrete_schemas.map_of(),
                        bps,
                        depth as nat,
                    );
                    (seq_views(resolved@) + rest, m)
                },
            decreases raw@.len() - k,
        {
            let arg = &raw[k];
            let has_lt = match find_char(arg, '<', 0) {
                Some(_) => true,
                None => false,
            };
            if depth > 0 && has_lt {
                let t = self.resolve_generics_in_text(arg, depth - 1);
                let first = trim_start_matches_char(&t, '$');
                resolved.push(first);
            } else {
                let first = trim_start_matches_char(arg, '$');
                resolved.push(first);
            }
            k = k + 1;
            proof {
                assert(seq_views(resolved@) =~= seq_views(resolved@).subrange(
                    0,
                    resolved@.len() - 1,
                ) + seq![seq_views(resolved@).last()]);
            }
        }
        proof {
            let (rest, m) = resolve_args_spec(
                raw_views,
                k as int,
                self.registry.concrete_schemas.map_of(),
                bps,
                depth as nat,
            );
            assert(seq_views(resolved@) + rest =~= seq_views(resolved@));
        }
        let ghost resolved_views = seq_views(resolved@);

        // Mangle the concrete name.
        let mut mangled: Vec<char> = Vec::new();
        push_all(&mut mangled, name);
        let us = chars_vec("_");
        push_all(&mut mangled, &us);
        if resolved.len() == 0 {
            let g = chars_vec("Generic");
            push_all(&mut mangled, &g);
        } else {
            let us2 = chars_vec("_");
            let joined = join_sep(&resolved, &us2);
            push_all(&mut mangled, &joined);
        }
        proof {
            assert(mangled@ =~= mangled_name(name@, resolved_views));
        }

        // Memoization: an existing concrete schema is reused.
        let mangled_string = string_of(&mangled);
        if self.registry.concrete_schemas.contains_key(&mangled_string) {
            return mangled;
        }
        // Instantiate the blueprint, if there is one; a dangling
        // reference still yields the mangled name.
        let name_string = string_of(name);
        let looked = self.registry.blueprints.get(&name_string);
        match looked {
            Option::None => mangled,
            Option::Some(bp) => {
                let params = copy_strings(&bp.params);
                let mut body = chars_vec(bp.body.as_str());
                let ghost bp_model = bps[name@];
                let ghost params_views = params.deep_view();
                proof {
                    assert(params_views == bp_model.params);
                    assert(body@ == bp_model.body);
                }
                let mut idx: usize = 0;
                while idx < params.len() && idx < resolved.len()
                    invariant
                        idx <= params@.len(),
                        params.deep_view() == params_views,
                        seq_views(resolved@) == resolved_views,
                        subst_params(bp_model.body, params_views, resolved_views, 0)
                            == subst_params(body@, params_views, resolved_views, idx as int),
                    decreases params@.len() - idx,
                {
                    let mut target: Vec<char> = Vec::new();
                    target.push('$');
                    let pv = chars_vec(params[idx].as_str());
                    push_all(&mut target, &pv);
                    let mut replacement: Vec<char> = Vec::new();
                    replacement.push('$');
                    push_all(&mut replacement, &resolved[idx]);
                    proof {
                        assert(target@ =~= seq!['$'] + params_views[idx as int]);
                        assert(replacement@ =~= seq!['$'] + resolved_views[idx as int]);
                    }
                    body = replace_all(&body, &target, &replacement);
                    idx = idx + 1;
                }
                proof {
                    assert(subst_params(body@, params_views, resolved_views, idx as int) == body@);
                }
                let body_string = string_of(&body);
                self.registry.concrete_schemas.insert(mangled_string, body_string);
                mangled
            },
        }
    }

    /// Monomorphizes one invocation given as name and raw argument text,
    /// and returns the mangled concrete name.
    pub fn monomorphize(&mut self, name: &str, args_str: &str) -> (r: String)
        requires
            old(self).registry.wf(),
        ensures
            final(self).registry.wf(),
            ({
                let (t, m) = mono_spec(
                    name@,
                    args_str@,
                    old(self).registry.concrete_schemas.map_of(),
                    old(self).registry.blueprints.map_of(),
                    MAX_RESOLVE_DEPTH as nat,
                );
                r@ == t && final(self).registry.concrete_schemas.map_of() == m
            }),
            final(self).registry.blueprints == old(self).registry.blueprints,
            final(self).registry.fragments == old(self).registry.fragments,
            final(self).registry.schemas == old(self).registry.schemas,
    {
        let nv = chars_vec(name);
        let av = chars_vec(args_str);
        let r = self.monomorphize_rec(&nv, &av, MAX_RESOLVE_DEPTH);
        string_of(&r)
    }
}


// ----------------------------------------------------------------------
// Laws of monomorphization.

/// Whether `b` holds every entry of `a`, unchanged.
pub open spec fn submap_of(a: SchemaMap, b: SchemaMap) -> bool {
    forall|k: Seq<char>| #[trigger] a.contains_key(k) ==> b.contains_key(k) && b[k] == a[k]
}

/// Whether every key of `a` is a key of `b`.
pub open spec fn dom_sub(a: SchemaMap, b: SchemaMap) -> bool {
    forall|k: Seq<char>| #[trigger] a.contains_key(k) ==> b.contains_key(k)
}

proof fn lemma_submap_trans(a: SchemaMap, b: SchemaMap, c: SchemaMap)
    requires
        submap_of(a, b),
        submap_of(b, c),
    ensures
        submap_of(a, c),
{
    assert forall|k: Seq<char>| a.contains_key(k) implies c.contains_key(k) && c[k] == a[k] by {
        assert(b.contains_key(k) && b[k] == a[k]);
    }
}

proof fn lemma_submap_dom_trans(a: SchemaMap, b: SchemaMap, c: SchemaMap)
    requires
        submap_of(a, b),
        dom_sub(b, c),
    ensures
        dom_sub(a, c),
{
    assert forall|k: Seq<char>| a.contains_key(k) implies c.contains_key(k) by {
        assert(b.contains_key(k));
    }
}

/// Resolution only adds concrete schemas: every schema registered
/// before a scan is still registered, with the same body, afterwards.
pub proof fn lemma_resolve_grows(s: Seq<char>, i: int, cs: SchemaMap, bps: BlueprintMap, depth: nat)
    ensures
        submap_of(cs, resolve_text_spec(s, i, cs, bps, depth).1),
    decreases depth, s.len() - i, 3int, 0int,
{
    if i < 0 || i >= s.len() {
    } else if s[i] == '$' && i + 1 < s.len() && char_alphabetic(s[i + 1]) {
        lemma_ident_end_range(s, i + 1);
        let ne = ident_end(s, i + 1);
        if ne < s.len() && s[ne] == '<' {
            match close_pos(s, ne + 1, 1) {
                Option::None => {},
                Option::Some(j) => {
                    lemma_close_pos_range(s, ne + 1, 1, j);
                    let name = s.subrange(i + 1, ne);
                    let args_str = s.subrange(ne + 1, j - 1);
                    lemma_mono_grows(name, args_str, cs, bps, depth);
                    let cs1 = mono_spec(name, args_str, cs, bps, depth).1;
                    lemma_resolve_grows(s, j, cs1, bps, depth);
                    lemma_submap_trans(cs, cs1, resolve_text_spec(s, j, cs1, bps, depth).1);
                },
            }
        } else {
            lemma_resolve_grows(s, ne, cs, bps, depth);
        }
    } else {
        lemma_resolve_grows(s, i + 1, cs, bps, depth);
    }
}

/// Monomorphization only adds concrete schemas.
pub proof fn lemma_mono_grows(
    name: Seq<char>,
    args_str: Seq<char>,
    cs: SchemaMap,
    bps: BlueprintMap,
    depth: nat,
)
    ensures
        submap_of(cs, mono_spec(name, args_str, cs, bps, depth).1),
    decreases depth, args_str.len(), 2int, 0int,
{
    let raw = split_args_spec(args_str);
    lemma_resolve_args_grows(raw, 0, cs, bps, depth);
    let (resolved, cs1) = resolve_args_spec(raw, 0, cs, bps, depth);
    let mangled = mangled_name(name, resolved);
    if !cs1.contains_key(mangled) && bps.contains_key(name) {
        assert forall|k: Seq<char>| cs.contains_key(k) implies mono_spec(
            name,
            args_str,
            cs,
            bps,
            depth,
        ).1.contains_key(k) && mono_spec(name, args_str, cs, bps, depth).1[k] == cs[k] by {
            assert(cs1.contains_key(k) && cs1[k] == cs[k]);
            assert(k != mangled);
        }
    }
}

/// Argument resolution only adds concrete schemas.
pub proof fn lemma_resolve_args_grows(
    args: Seq<Seq<char>>,
    k: int,
    cs: SchemaMap,
    bps: BlueprintMap,
    depth: nat,
)
    ensures
        submap_of(cs, resolve_args_spec(args, k, cs, bps, depth).1),
    decreases depth, 0int, 1int, args.len() - k,
{
    if k < 0 || k >= args.len() {
    } else {
        let a = args[k];
        if depth > 0 && has_angle(a) {
            lemma_resolve_grows(a, 0, cs, bps, (depth - 1) as nat);
            let cs1 = resolve_text_spec(a, 0, cs, bps, (depth - 1) as nat).1;
            lemma_resolve_args_grows(args, k + 1, cs1, bps, depth);
            lemma_submap_trans(cs, cs1, resolve_args_spec(args, k + 1, cs1, bps, depth).1);
        } else {
            lemma_resolve_args_grows(args, k + 1, cs, bps, depth);
        }
    }
}

/// A scan started from any map that already holds every schema the scan
/// would register yields the same text and changes nothing.
pub proof fn lemma_resolve_stable(
    s: Seq<char>,
    i: int,
    cs: SchemaMap,
    cs2: SchemaMap,
    bps: BlueprintMap,
    depth: nat,
)
    requires
        dom_sub(resolve_text_spec(s, i, cs, bps, depth).1, cs2),
    ensures
        resolve_text_spec(s, i, cs2, bps, depth) == (
            resolve_text_spec(s, i, cs, bps, depth).0,
            cs2,
        ),
    decreases depth, s.len() - i, 3int, 0int,
{
    if i < 0 || i >= s.len() {
    } else if s[i] == '$' && i + 1 < s.len() && char_alphabetic(s[i + 1]) {
        lemma_ident_end_range(s, i + 1);
        let ne = ident_end(s, i + 1);
        if ne < s.len() && s[ne] == '<' {
            match close_pos(s, ne + 1, 1) {
                Option::None => {},
                Option::Some(j) => {
                    lemma_close_pos_range(s, ne + 1, 1, j);
                    let name = s.subrange(i + 1, ne);
                    let args_str = s.subrange(ne + 1, j - 1);
                    let (mg, cs1) = mono_spec(name, args_str, cs, bps, depth);
                    lemma_resolve_grows(s, j, cs1, bps, depth);
                    lemma_submap_dom_trans(
                        cs1,
                        resolve_text_spec(s, j, cs1, bps, depth).1,
                        cs2,
                    );
                    lemma_mono_stable(name, args_str, cs, cs2, bps, depth);
                    lemma_resolve_stable(s, j, cs1, cs2, bps, depth);
                },
            }
        } else {
            lemma_resolve_stable(s, ne, cs, cs2, bps, depth);
        }
    } else {
        lemma_resolve_stable(s, i + 1, cs, cs2, bps, depth);
    }
}

/// One instantiation started from any map that already holds every
/// schema it would register yields the same mangled name and changes
/// nothing.
pub proof fn lemma_mono_stable(
    name: Seq<char>,
    args_str: Seq<char>,
    cs: SchemaMap,
    cs2: SchemaMap,
    bps: BlueprintMap,
    depth: nat,
)
    requires
        dom_sub(mono_spec(name, args_str, cs, bps, depth).1, cs2),
    ensures
        mono_spec(name, args_str, cs2, bps, depth) == (
            mono_spec(name, args_str, cs, bps, depth).0,
            cs2,
        ),
    decreases depth, args_str.len(), 2int, 0int,
{
    let raw = split_args_spec(args_str);
    let (resolved, cs1) = resolve_args_spec(raw, 0, cs, bps, depth);
    lemma_resolve_args_grows(raw, 0, cs, bps, depth);
    assert forall|k: Seq<char>| #[trigger] cs1.contains_key(k) implies cs2.contains_key(k) by {
        assert(mono_spec(name, args_str, cs, bps, depth).1.contains_key(k));
    }
    lemma_resolve_args_stable(raw, 0, cs, cs2, bps, depth);
    let mangled = mangled_name(name, resolved);
    if cs1.contains_key(mangled) {
        assert(mono_spec(name, args_str, cs, bps, depth).1 == cs1);
        assert(cs2.contains_key(mangled));
    } else if bps.contains_key(name) {
        assert(mono_spec(name, args_str, cs, bps, depth).1.contains_key(mangled));
        assert(cs2.contains_key(mangled));
    }
}

/// Argument-list resolution started from any map that already holds
/// every schema it would register yields the same arguments and changes
/// nothing.
pub proof fn lemma_resolve_args_stable(
    args: Seq<Seq<char>>,
    k: int,
    cs: SchemaMap,
    cs2: SchemaMap,
    bps: BlueprintMap,
    depth: nat,
)
    requires
        dom_sub(resolve_args_spec(args, k, cs, bps, depth).1, cs2),
    ensures
        resolve_args_spec(args, k, cs2, bps, depth) == (
            resolve_args_spec(args, k, cs, bps, depth).0,
            cs2,
        ),
    decreases depth, 0int, 1int, args.len() - k,
{
    if k < 0 || k >= args.len() {
    } else {
        let a = args[k];
        if depth > 0 && has_angle(a) {
            let (t, cs1) = resolve_text_spec(a, 0, cs, bps, (depth - 1) as nat);
            lemma_resolve_args_grows(args, k + 1, cs1, bps, depth);
            lemma_submap_dom_trans(
                cs1,
                resolve_args_spec(args, k + 1, cs1, bps, depth).1,
                cs2,
            );
            lemma_resolve_stable(a, 0, cs, cs2, bps, (depth - 1) as nat);
            lemma_resolve_args_stable(args, k + 1, cs1, cs2, bps, depth);
        } else {
            lemma_resolve_args_stable(args, k + 1, cs, cs2, bps, depth);
        }
    }
}

/// Monomorphizing the same blueprint/argument tuple twice registers its
/// concrete schema once: the second instantiation returns the same
/// mangled name and leaves the registry exactly as the first left it.
pub proof fn lemma_monomorphize_idempotent(
    name: Seq<char>,
    args_str: Seq<char>,
    cs: SchemaMap,
    bps: BlueprintMap,
    depth: nat,
)
    ensures
        ({
            let (n1, cs1) = mono_spec(name, args_str, cs, bps, depth);
            let (n2, cs2) = mono_spec(name, args_str, cs1, bps, depth);
            n2 == n1 && cs2 == cs1
        }),
{
    let (n1, cs1) = mono_spec(name, args_str, cs, bps, depth);
    lemma_mono_stable(name, args_str, cs, cs1, bps, depth);
}

} // verus!
