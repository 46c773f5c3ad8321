use vstd::prelude::*;

use crate::identifier::{
    all_identifiers, decode, encode, get_nodes_of_range, get_sum_values, incr_times, range_ok,
    sum_decoded,
};
use crate::text::{
    copy_bytes, count_leading_spaces, find_pair, find_pair_exec, is_space, leading_spaces,
    split_bytes, split_on, split_words, sub_bytes, trim, trim_bytes, trim_start, views, words,
    find_byte, find_byte_exec,
};

verus! {

/// Why a source was refused.
#[derive(Debug, Copy, Clone, PartialEq, Eq, Structural)]
pub enum CompileError {
    /// A section whose name is not one of the five known ones.
    UnknownSection,
    /// A section given twice.
    DuplicateSection,
    /// One of `inputs`, `outputs`, `def`, `links` is missing.
    MissingSection,
    /// A line that does not have the shape its section asks for.
    MalformedLine,
    /// A node declared twice.
    DuplicateNode,
    /// A link names a node that was never declared.
    UnknownNode,
    /// An expression names a variable that no loop binds.
    UnboundVariable,
    /// A sum over something that is not an identifier, or too large.
    BadIdentifier,
    /// A range whose end cannot be reached from its start.
    BadRange,
}

/// Variable bindings: names (with their `$`) and the identifiers bound.
pub type Env = Vec<(Vec<u8>, Vec<u8>)>;

/// The view of a list of byte-string pairs: bindings, or edges.
pub open spec fn pairs_view(env: Seq<(Vec<u8>, Vec<u8>)>) -> Seq<(Seq<u8>, Seq<u8>)> {
    Seq::new(env.len(), |i: int| (env[i].0@, env[i].1@))
}

/// Position of the binding of `name`, looking from the front.
pub open spec fn find_var(env: Seq<(Seq<u8>, Seq<u8>)>, name: Seq<u8>) -> Option<int>
    decreases env.len(),
{
    if env.len() == 0 {
        None
    } else if env[0].0 == name {
        Some(0)
    } else {
        match find_var(env.drop_first(), name) {
            Some(k) => Some(k + 1),
            None => None,
        }
    }
}

/// The value bound to `name`.
pub open spec fn lookup(env: Seq<(Seq<u8>, Seq<u8>)>, name: Seq<u8>) -> Option<Seq<u8>> {
    match find_var(env, name) {
        Some(k) => Some(env[k].1),
        None => None,
    }
}

/// `env` with `name` bound to `value`, in place of an earlier binding.
pub open spec fn bind(env: Seq<(Seq<u8>, Seq<u8>)>, name: Seq<u8>, value: Seq<u8>) -> Seq<(Seq<u8>, Seq<u8>)> {
    match find_var(env, name) {
        Some(k) => env.update(k, (name, value)),
        None => env.push((name, value)),
    }
}

fn find_var_exec(env: &Env, name: &[u8]) -> (r: Option<usize>)
    ensures
        r matches Some(k) ==> find_var(pairs_view(env@), name@) == Some(k as int) && k < env@.len(),
        r is None ==> find_var(pairs_view(env@), name@) is None,
{
    let ghost e = pairs_view(env@);
    let mut i: usize = 0;
    assert(e.subrange(0, e.len() as int) =~= e);
    while i < env.len()
        invariant
            i <= env@.len(),
            e == pairs_view(env@),
            find_var(e, name@) == match find_var(e.subrange(i as int, e.len() as int), name@) {
                Some(k) => Some(k + i),
                None => None,
            },
        decreases env@.len() - i,
    {
        let ghost rest = e.subrange(i as int, e.len() as int);
        assert(rest.drop_first() =~= e.subrange(i + 1, e.len() as int));
        if crate::text::bytes_eq(env[i].0.as_slice(), name) {
            return Some(i);
        }
        i = i + 1;
    }
    None
}

/// The value bound to `name`.
fn lookup_exec(env: &Env, name: &[u8]) -> (r: Option<Vec<u8>>)
    ensures
        r matches Some(v) ==> lookup(pairs_view(env@), name@) == Some(v@),
        r is None ==> lookup(pairs_view(env@), name@) is None,
{
    match find_var_exec(env, name) {
        Some(k) => Some(copy_bytes(env[k].1.as_slice())),
        None => None,
    }
}

/// Binds `name` to `value`, in place of an earlier binding.
fn bind_exec(env: &mut Env, name: &[u8], value: Vec<u8>)
    ensures
        pairs_view(final(env)@) == bind(pairs_view(old(env)@), name@, value@),
{
    let ghost e = pairs_view(env@);
    match find_var_exec(env, name) {
        Some(k) => {
            env.set(k, (copy_bytes(name), value));
            assert(pairs_view(env@) =~= e.update(k as int, (name@, value@)));
        },
        None => {
            env.push((copy_bytes(name), value));
            assert(pairs_view(env@) =~= e.push((name@, value@)));
        },
    }
}

/// What one term of a sum stands for: a bound variable's value, or the
/// identifier itself.
pub open spec fn term_value(t: Seq<u8>, env: Seq<(Seq<u8>, Seq<u8>)>) -> Result<Seq<u8>, CompileError> {
    if t.len() > 0 && t[0] == 36 {
        match lookup(env, t) {
            Some(v) => Ok(v),
            None => Err(CompileError::UnboundVariable),
        }
    } else {
        Ok(t)
    }
}

/// The values of the non-empty terms, each trimmed, in order.
pub open spec fn term_values(terms: Seq<Seq<u8>>, env: Seq<(Seq<u8>, Seq<u8>)>) -> Result<Seq<Seq<u8>>, CompileError>
    decreases terms.len(),
{
    if terms.len() == 0 {
        Ok(Seq::empty())
    } else {
        match term_values(terms.drop_last(), env) {
            Err(e) => Err(e),
            Ok(vs) => {
                let t = trim(terms.last());
                if t.len() == 0 {
                    Ok(vs)
                } else {
                    match term_value(t, env) {
                        Ok(v) => Ok(vs.push(v)),
                        Err(e) => Err(e),
                    }
                }
            },
        }
    }
}

proof fn lemma_term_values_err(terms: Seq<Seq<u8>>, env: Seq<(Seq<u8>, Seq<u8>)>, i: int)
    requires
        0 <= i <= terms.len(),
        term_values(terms.subrange(0, i), env) is Err,
    ensures
        term_values(terms, env) == term_values(terms.subrange(0, i), env),
    decreases terms.len() - i,
{
    if i == terms.len() {
        assert(terms.subrange(0, i) =~= terms);
    } else {
        assert(terms.subrange(0, i + 1).drop_last() =~= terms.subrange(0, i));
        lemma_term_values_err(terms, env, i + 1);
    }
}

/// What an expression stands for: `$( t1 + t2 + ... )` is the identifier of
/// the sum of its terms' numbers, `$name` a variable's value, anything else
/// itself.
pub open spec fn eval_expr(e: Seq<u8>, env: Seq<(Seq<u8>, Seq<u8>)>) -> Result<Seq<u8>, CompileError> {
    if e.len() >= 3 && e[0] == 36 && e[1] == 40 && e.last() == 41 {
        match term_values(split_on(e.subrange(2, e.len() - 1), 43), env) {
            Err(err) => Err(err),
            Ok(vs) => if all_identifiers(vs) && sum_decoded(vs) <= u64::MAX {
                Ok(encode(sum_decoded(vs) as nat))
            } else {
                Err(CompileError::BadIdentifier)
            },
        }
    } else if e.len() > 0 && e[0] == 36 {
        match lookup(env, e) {
            Some(v) => Ok(v),
            None => Err(CompileError::UnboundVariable),
        }
    } else {
        Ok(e)
    }
}

/// Evaluates the expression `node` under the bindings `variables`.
pub fn apply_variable(node: &[u8], variables: &Env) -> (r: Result<Vec<u8>, CompileError>)
    ensures
        match eval_expr(node@, pairs_view(variables@)) {
            Ok(v) => r matches Ok(x) && x@ == v,
            Err(e) => r == Err::<Vec<u8>, CompileError>(e),
        },
{
    let n = node.len();
    if n >= 3 && node[0] == 36 && node[1] == 40 && node[n - 1] == 41 {
        let inner = sub_bytes(node, 2, n - 1);
        let terms = split_bytes(inner.as_slice(), 43);
        let ghost ts = views(terms@);
        let mut values: Vec<Vec<u8>> = Vec::new();
        let mut i: usize = 0;
        assert(ts.subrange(0, 0) =~= Seq::<Seq<u8>>::empty());
        assert(views(values@) =~= Seq::<Seq<u8>>::empty());
        while i < terms.len()
            invariant
                i <= terms@.len(),
                n == node@.len(),
                n >= 3,
                node@[0] == 36 && node@[1] == 40 && node@[n - 1] == 41,
                ts == views(terms@),
                ts == split_on(node@.subrange(2, n - 1), 43),
                term_values(ts.subrange(0, i as int), pairs_view(variables@)) == Ok::<Seq<Seq<u8>>, CompileError>(views(values@)),
            decreases terms@.len() - i,
        {
            assert(ts.subrange(0, i + 1).drop_last() =~= ts.subrange(0, i as int));
            assert(ts[i as int] == terms@[i as int]@);
            let t = trim_bytes(terms[i].as_slice());
            if t.len() > 0 {
                let v = if t[0] == 36 {
                    match lookup_exec(variables, t.as_slice()) {
                        Some(v) => v,
                        None => {
                            proof {
                                assert(ts.subrange(0, i + 1).last() == ts[i as int]);
                                assert(term_value(t@, pairs_view(variables@)) is Err);
                                lemma_term_values_err(ts, pairs_view(variables@), i + 1);
                            }
                            return Err(CompileError::UnboundVariable);
                        },
                    }
                } else {
                    t
                };
                let ghost before = views(values@);
                values.push(v);
                assert(views(values@) =~= before.push(v@));
            }
            i = i + 1;
        }
        assert(ts.subrange(0, i as int) =~= ts);
        match get_sum_values(&values) {
            Some(s) => Ok(s),
            None => Err(CompileError::BadIdentifier),
        }
    } else if n > 0 && node[0] == 36 {
        match lookup_exec(variables, node) {
            Some(v) => Ok(v),
            None => Err(CompileError::UnboundVariable),
        }
    } else {
        Ok(copy_bytes(node))
    }
}

proof fn lemma_trim_start_len(s: Seq<u8>)
    ensures
        trim_start(s).len() <= s.len(),
    decreases s.len(),
{
    if s.len() > 0 && is_space(s[0]) {
        lemma_trim_start_len(s.drop_first());
    }
}

/// `c` is one of the two cases of `b`.
pub open spec fn is_letter_ci(c: u8, b: u8) -> bool {
    c == b || c == b - 32
}

/// Whether a condition holds: `not C` (any case, then a space or tab)
/// negates `C`; `A == B`
/// compares the identifiers the two expressions stand for.
pub open spec fn cond_holds(c: Seq<u8>, env: Seq<(Seq<u8>, Seq<u8>)>) -> Result<bool, CompileError>
    decreases c.len(),
    via cond_holds_decreases
{
    let t = trim_start(c);
    if t.len() >= 4 && is_letter_ci(t[0], 110) && is_letter_ci(t[1], 111) && is_letter_ci(t[2], 116) && (t[3]
        == 32 || t[3] == 9) {
        match cond_holds(t.subrange(3, t.len() as int), env) {
            Ok(b) => Ok(!b),
            Err(e) => Err(e),
        }
    } else {
        match find_pair(c, 61, 61) {
            None => Err(CompileError::MalformedLine),
            Some(i) => match eval_expr(trim(c.subrange(0, i)), env) {
                Err(e) => Err(e),
                Ok(a) => match eval_expr(trim(c.subrange(i + 2, c.len() as int)), env) {
                    Err(e) => Err(e),
                    Ok(b) => Ok(a == b),
                },
            },
        }
    }
}

#[via_fn]
proof fn cond_holds_decreases(c: Seq<u8>, env: Seq<(Seq<u8>, Seq<u8>)>) {
    lemma_trim_start_len(c);
}

/// Whether `condition` holds under the bindings `variables`.
pub fn is_valid_condition(condition: &[u8], variables: &Env) -> (r: Result<bool, CompileError>)
    ensures
        match cond_holds(condition@, pairs_view(variables@)) {
            Ok(b) => r == Ok::<bool, CompileError>(b),
            Err(e) => r == Err::<bool, CompileError>(e),
        },
    decreases condition@.len(),
{
    let n = condition.len();
    let mut a: usize = 0;
    while a < n && (condition[a] == 32 || condition[a] == 9 || condition[a] == 13)
        invariant
            a <= n == condition@.len(),
            forall|k: int| 0 <= k < a ==> is_space(#[trigger] condition@[k]),
        decreases n - a,
    {
        a = a + 1;
    }
    proof {
        crate::text::lemma_trim_start_at(condition@, a as int);
    }
    if n - a >= 4 && (condition[a] == 110 || condition[a] == 78) && (condition[a + 1] == 111
        || condition[a + 1] == 79) && (condition[a + 2] == 116 || condition[a + 2] == 84) && (condition[a + 3]
        == 32 || condition[a + 3] == 9) {
        let inner = sub_bytes(condition, a + 3, n);
        assert(inner@ =~= trim_start(condition@).subrange(3, trim_start(condition@).len() as int));
        return match is_valid_condition(inner.as_slice(), variables) {
            Ok(b) => Ok(!b),
            Err(e) => Err(e),
        };
    }
    match find_pair_exec(condition, 61, 61) {
        None => Err(CompileError::MalformedLine),
        Some(i) => {
            let left = trim_bytes(sub_bytes(condition, 0, i).as_slice());
            let right = trim_bytes(sub_bytes(condition, i + 2, n).as_slice());
            let a = apply_variable(left.as_slice(), variables)?;
            let b = apply_variable(right.as_slice(), variables)?;
            Ok(crate::text::bytes_eq(a.as_slice(), b.as_slice()))
        },
    }
}

/// `s` begins with the bytes of `p`.
pub open spec fn starts_with(s: Seq<u8>, p: Seq<u8>) -> bool {
    s.len() >= p.len() && s.subrange(0, p.len() as int) == p
}

/// The bytes `for`.
pub open spec fn kw_for() -> Seq<u8> {
    seq![102u8, 111u8, 114u8]
}

/// The bytes `if`.
pub open spec fn kw_if() -> Seq<u8> {
    seq![105u8, 102u8]
}

/// The identifiers from `a` to `b`, both included.
pub open spec fn range_values(a: Seq<u8>, b: Seq<u8>) -> Seq<Seq<u8>> {
    Seq::new((decode(b) - decode(a) + 1) as nat, |k: int| incr_times(a, k as nat))
}

/// The values of the comma-separated expressions, each trimmed.
pub open spec fn eval_list(parts: Seq<Seq<u8>>, env: Seq<(Seq<u8>, Seq<u8>)>) -> Result<Seq<Seq<u8>>, CompileError>
    decreases parts.len(),
{
    if parts.len() == 0 {
        Ok(Seq::empty())
    } else {
        match eval_list(parts.drop_last(), env) {
            Err(e) => Err(e),
            Ok(vs) => match eval_expr(trim(parts.last()), env) {
                Ok(v) => Ok(vs.push(v)),
                Err(e) => Err(e),
            },
        }
    }
}

/// Every pair of a source and a target, sources outermost.
pub open spec fn product(sources: Seq<Seq<u8>>, targets: Seq<Seq<u8>>) -> Seq<(Seq<u8>, Seq<u8>)>
    decreases sources.len(),
{
    if sources.len() == 0 {
        Seq::empty()
    } else {
        product(sources.drop_last(), targets) + Seq::new(targets.len(), |j: int| (sources.last(), targets[j]))
    }
}

/// The edges a declaration line `S1, S2 -> T1, T2` stands for.
pub open spec fn decl_edges(t: Seq<u8>, env: Seq<(Seq<u8>, Seq<u8>)>) -> Result<Seq<(Seq<u8>, Seq<u8>)>, CompileError> {
    match find_pair(t, 45, 62) {
        None => Err(CompileError::MalformedLine),
        Some(i) => match eval_list(split_on(t.subrange(0, i), 44), env) {
            Err(e) => Err(e),
            Ok(srcs) => match eval_list(split_on(t.subrange(i + 2, t.len() as int), 44), env) {
                Err(e) => Err(e),
                Ok(tgts) => Ok(product(srcs, tgts)),
            },
        },
    }
}

/// The indent that the block after a compound line at indent `ind` has.
pub open spec fn block_indent(body: Seq<Seq<u8>>, ind: nat) -> nat {
    if body.len() > 0 && leading_spaces(body[0]) > ind {
        leading_spaces(body[0])
    } else {
        ind + 1
    }
}

/// Edges of the lines `rest` that belong to the scope at indent `min`, and
/// the bindings after them. Lines indented deeper belong to an inner block;
/// a line indented less ends the scope.
pub open spec fn scan(rest: Seq<Seq<u8>>, env: Seq<(Seq<u8>, Seq<u8>)>, min: nat) -> Result<
    (Seq<(Seq<u8>, Seq<u8>)>, Seq<(Seq<u8>, Seq<u8>)>),
    CompileError,
>
    decreases rest.len(), 0nat, 0nat,
{
    if rest.len() == 0 {
        Ok((Seq::empty(), env))
    } else {
        let ind = leading_spaces(rest[0]);
        if ind < min {
            Ok((Seq::empty(), env))
        } else if ind > min {
            scan(rest.drop_first(), env, min)
        } else {
            match line_effect(rest[0], rest.drop_first(), env, ind) {
                Err(e) => Err(e),
                Ok((es, env2)) => match scan(rest.drop_first(), env2, min) {
                    Err(e) => Err(e),
                    Ok((es2, env3)) => Ok((es + es2, env3)),
                },
            }
        }
    }
}

/// Edges of one line at indent `ind` together with its block `body`.
pub open spec fn line_effect(line: Seq<u8>, body: Seq<Seq<u8>>, env: Seq<(Seq<u8>, Seq<u8>)>, ind: nat) -> Result<
    (Seq<(Seq<u8>, Seq<u8>)>, Seq<(Seq<u8>, Seq<u8>)>),
    CompileError,
>
    decreases body.len(), 2nat, 0nat,
{
    let t = trim(line);
    if starts_with(t, kw_for()) {
        let w = words(t);
        if w.len() != 4 || !(w[1].len() > 0 && w[1][0] == 36) {
            Err(CompileError::MalformedLine)
        } else if !range_ok(w[2], w[3]) {
            Err(CompileError::BadRange)
        } else {
            iterate(body, env, w[1], range_values(w[2], w[3]), block_indent(body, ind))
        }
    } else if starts_with(t, kw_if()) {
        match cond_holds(t.subrange(2, t.len() as int), env) {
            Err(e) => Err(e),
            Ok(false) => Ok((Seq::empty(), env)),
            Ok(true) => scan(body, env, block_indent(body, ind)),
        }
    } else {
        match decl_edges(t, env) {
            Err(e) => Err(e),
            Ok(es) => Ok((es, env)),
        }
    }
}

/// Edges of `body` at indent `inner` once for each of `values` bound to `var`.
pub open spec fn iterate(
    body: Seq<Seq<u8>>,
    env: Seq<(Seq<u8>, Seq<u8>)>,
    var: Seq<u8>,
    values: Seq<Seq<u8>>,
    inner: nat,
) -> Result<(Seq<(Seq<u8>, Seq<u8>)>, Seq<(Seq<u8>, Seq<u8>)>), CompileError>
    decreases body.len(), 1nat, values.len(),
{
    if values.len() == 0 {
        Ok((Seq::empty(), env))
    } else {
        match scan(body, bind(env, var, values[0]), inner) {
            Err(e) => Err(e),
            Ok((es, env2)) => match iterate(body, env2, var, values.drop_first(), inner) {
                Err(e) => Err(e),
                Ok((es2, env3)) => Ok((es + es2, env3)),
            },
        }
    }
}

/// Evaluates a comma-separated list of expressions.
fn eval_list_exec(text: &[u8], variables: &Env) -> (r: Result<Vec<Vec<u8>>, CompileError>)
    ensures
        match eval_list(split_on(text@, 44), pairs_view(variables@)) {
            Ok(vs) => r matches Ok(v) && views(v@) == vs,
            Err(e) => r == Err::<Vec<Vec<u8>>, CompileError>(e),
        },
{
    let parts = split_bytes(text, 44);
    let ghost ps = views(parts@);
    let mut values: Vec<Vec<u8>> = Vec::new();
    let mut i: usize = 0;
    assert(ps.subrange(0, 0) =~= Seq::<Seq<u8>>::empty());
    assert(views(values@) =~= Seq::<Seq<u8>>::empty());
    while i < parts.len()
        invariant
            i <= parts@.len(),
            ps == views(parts@),
            ps == split_on(text@, 44),
            eval_list(ps.subrange(0, i as int), pairs_view(variables@)) == Ok::<Seq<Seq<u8>>, CompileError>(views(values@)),
        decreases parts@.len() - i,
    {
        assert(ps.subrange(0, i + 1).drop_last() =~= ps.subrange(0, i as int));
        assert(ps[i as int] == parts@[i as int]@);
        let t = trim_bytes(parts[i].as_slice());
        match apply_variable(t.as_slice(), variables) {
            Ok(v) => {
                let ghost before = views(values@);
                values.push(v);
                assert(views(values@) =~= before.push(v@));
            },
            Err(e) => {
                proof {
                    lemma_eval_list_err(ps, pairs_view(variables@), i + 1);
                }
                return Err(e);
            },
        }
        i = i + 1;
    }
    assert(ps.subrange(0, i as int) =~= ps);
    Ok(values)
}

proof fn lemma_eval_list_err(parts: Seq<Seq<u8>>, env: Seq<(Seq<u8>, Seq<u8>)>, i: int)
    requires
        0 <= i <= parts.len(),
        eval_list(parts.subrange(0, i), env) is Err,
    ensures
        eval_list(parts, env) == eval_list(parts.subrange(0, i), env),
    decreases parts.len() - i,
{
    if i == parts.len() {
        assert(parts.subrange(0, i) =~= parts);
    } else {
        assert(parts.subrange(0, i + 1).drop_last() =~= parts.subrange(0, i));
        lemma_eval_list_err(parts, env, i + 1);
    }
}

/// The edges of a declaration line.
fn decl_edges_exec(t: &[u8], variables: &Env) -> (r: Result<Vec<(Vec<u8>, Vec<u8>)>, CompileError>)
    ensures
        match decl_edges(t@, pairs_view(variables@)) {
            Ok(es) => r matches Ok(v) && pairs_view(v@) == es,
            Err(e) => r == Err::<Vec<(Vec<u8>, Vec<u8>)>, CompileError>(e),
        },
{
    let i = match find_pair_exec(t, 45, 62) {
        Some(i) => i,
        None => {
            return Err(CompileError::MalformedLine);
        },
    };
    let n = t.len();
    assert(i + 1 < n);
    let after = i + 2;
    let sources = eval_list_exec(sub_bytes(t, 0, i).as_slice(), variables)?;
    let targets = eval_list_exec(sub_bytes(t, after, t.len()).as_slice(), variables)?;
    let ghost ss = views(sources@);
    let ghost ts = views(targets@);
    let mut edges: Vec<(Vec<u8>, Vec<u8>)> = Vec::new();
    let mut a: usize = 0;
    assert(ss.subrange(0, 0) =~= Seq::<Seq<u8>>::empty());
    assert(pairs_view(edges@) =~= Seq::<(Seq<u8>, Seq<u8>)>::empty());
    while a < sources.len()
        invariant
            a <= sources@.len(),
            ss == views(sources@),
            ts == views(targets@),
            pairs_view(edges@) == product(ss.subrange(0, a as int), ts),
        decreases sources@.len() - a,
    {
        let ghost before = pairs_view(edges@);
        let mut b: usize = 0;
        while b < targets.len()
            invariant
                b <= targets@.len(),
                a < sources@.len(),
                ss == views(sources@),
                ts == views(targets@),
                pairs_view(edges@) == before + Seq::new(b as nat, |j: int| (ss[a as int], ts[j])),
            decreases targets@.len() - b,
        {
            let ghost mid = pairs_view(edges@);
            assert(ss[a as int] == sources@[a as int]@);
            assert(ts[b as int] == targets@[b as int]@);
            let e0 = copy_bytes(sources[a].as_slice());
            let e1 = copy_bytes(targets[b].as_slice());
            edges.push((e0, e1));
            assert(pairs_view(edges@) =~= mid.push((ss[a as int], ts[b as int])));
            assert(pairs_view(edges@) =~= before + Seq::new((b + 1) as nat, |j: int| (ss[a as int], ts[j])));
            b = b + 1;
        }
        assert(ss.subrange(0, a + 1).drop_last() =~= ss.subrange(0, a as int));
        assert(Seq::new(b as nat, |j: int| (ss[a as int], ts[j])) =~= Seq::new(ts.len(), |j: int| (ss.subrange(0, a + 1).last(), ts[j])));
        a = a + 1;
    }
    assert(ss.subrange(0, a as int) =~= ss);
    Ok(edges)
}

/// `here` is what is left to compute and `whole` the full result, with
/// `acc` the edges gathered so far.
pub open spec fn continues(
    here: Result<(Seq<(Seq<u8>, Seq<u8>)>, Seq<(Seq<u8>, Seq<u8>)>), CompileError>,
    whole: Result<(Seq<(Seq<u8>, Seq<u8>)>, Seq<(Seq<u8>, Seq<u8>)>), CompileError>,
    acc: Seq<(Seq<u8>, Seq<u8>)>,
) -> bool {
    match here {
        Ok((es, env)) => whole == Ok::<(Seq<(Seq<u8>, Seq<u8>)>, Seq<(Seq<u8>, Seq<u8>)>), CompileError>((acc + es, env)),
        Err(e) => whole == Err::<(Seq<(Seq<u8>, Seq<u8>)>, Seq<(Seq<u8>, Seq<u8>)>), CompileError>(e),
    }
}

fn append_edges(acc: &mut Vec<(Vec<u8>, Vec<u8>)>, es: Vec<(Vec<u8>, Vec<u8>)>)
    ensures
        pairs_view(final(acc)@) == pairs_view(old(acc)@) + pairs_view(es@),
{
    let mut es = es;
    let ghost e0 = es@;
    acc.append(&mut es);
    assert(pairs_view(acc@) =~= pairs_view(old(acc)@) + pairs_view(e0));
}

/// What a trimmed links line is.
#[derive(Debug, Copy, Clone, PartialEq, Eq, Structural)]
pub enum LinkLineType {
    /// `S1, S2 -> T1, T2`
    LinkDeclaration,
    /// `if COND`
    Condition,
    /// `for $v ID1 ID2`
    Loop,
}

/// What a trimmed links line is, by its first letters.
pub open spec fn line_type(t: Seq<u8>) -> LinkLineType {
    if starts_with(t, kw_for()) {
        LinkLineType::Loop
    } else if starts_with(t, kw_if()) {
        LinkLineType::Condition
    } else {
        LinkLineType::LinkDeclaration
    }
}

/// What a trimmed links line is.
pub fn get_link_line_type(line: &[u8]) -> (r: LinkLineType)
    ensures
        r == line_type(line@),
{
    if starts_with_for(line) {
        return LinkLineType::Loop;
    }
    if starts_with_if(line) {
        return LinkLineType::Condition;
    }
    LinkLineType::LinkDeclaration
}

/// Whether `t` begins with `for`.
fn starts_with_for(t: &[u8]) -> (r: bool)
    ensures
        r == starts_with(t@, kw_for()),
{
    let r = t.len() >= 3 && t[0] == 102 && t[1] == 111 && t[2] == 114;
    proof {
        if t@.len() >= 3 {
            if r {
                assert(t@.subrange(0, 3) =~= kw_for());
            } else {
                assert(t@.subrange(0, 3)[0] == t@[0] && t@.subrange(0, 3)[1] == t@[1] && t@.subrange(0, 3)[2] == t@[2]);
                assert(kw_for()[0] == 102 && kw_for()[1] == 111 && kw_for()[2] == 114);
            }
        }
    }
    r
}

/// Whether `t` begins with `if`.
fn starts_with_if(t: &[u8]) -> (r: bool)
    ensures
        r == starts_with(t@, kw_if()),
{
    let r = t.len() >= 2 && t[0] == 105 && t[1] == 102;
    proof {
        if t@.len() >= 2 {
            if r {
                assert(t@.subrange(0, 2) =~= kw_if());
            } else {
                assert(t@.subrange(0, 2)[0] == t@[0] && t@.subrange(0, 2)[1] == t@[1]);
                assert(kw_if()[0] == 105 && kw_if()[1] == 102);
            }
        }
    }
    r
}

/// The edges of one line at indent `ind` with the lines after it, `body`.
fn line_effect_exec(line: &[u8], body: &[Vec<u8>], variables: &mut Env, ind: usize) -> (r: Result<
    Vec<(Vec<u8>, Vec<u8>)>,
    CompileError,
>)
    requires
        ind == leading_spaces(line@),
        forall|k: int| 0 <= k < ind ==> #[trigger] line@[k] == 32,
        ind <= line@.len(),
    ensures
        match line_effect(line@, views(body@), pairs_view(old(variables)@), ind as nat) {
            Ok((es, env2)) => r matches Ok(v) && pairs_view(v@) == es && pairs_view(final(variables)@) == env2,
            Err(e) => r == Err::<Vec<(Vec<u8>, Vec<u8>)>, CompileError>(e),
        },
    decreases body@.len(), 1nat,
{
    let t = trim_bytes(line);
    let ghost bv = views(body@);
    let kind = get_link_line_type(t.as_slice());
    let for_line = kind == LinkLineType::Loop;
    let if_line = kind == LinkLineType::Condition;
    if !for_line && !if_line {
        return decl_edges_exec(t.as_slice(), variables);
    }
    if ind == line.len() {
        proof {
            crate::text::lemma_blank_trim(line@);
        }
        assert(false);
        return Err(CompileError::MalformedLine);
    }
    let inner = if body.len() > 0 {
        let b0 = count_leading_spaces(body[0].as_slice());
        assert(bv[0] == body@[0]@);
        if b0 > ind {
            b0
        } else {
            ind + 1
        }
    } else {
        ind + 1
    };
    assert(inner == block_indent(bv, ind as nat));
    if for_line {
        let w = split_words(t.as_slice());
        let ghost wv = views(w@);
        if w.len() != 4 || !(w[1].len() > 0 && w[1][0] == 36) {
            proof {
                if w@.len() == 4 {
                    assert(wv[1] == w@[1]@);
                }
            }
            return Err(CompileError::MalformedLine);
        }
        assert(wv[1] == w@[1]@ && wv[2] == w@[2]@ && wv[3] == w@[3]@);
        let values = match get_nodes_of_range(w[2].as_slice(), w[3].as_slice()) {
            Some(v) => v,
            None => {
                return Err(CompileError::BadRange);
            },
        };
        let ghost vv = views(values@);
        assert(vv =~= range_values(wv[2], wv[3]));
        let ghost env_line = pairs_view(variables@);
        assert(line_effect(line@, bv, env_line, ind as nat) == iterate(bv, env_line, wv[1], vv, inner as nat));
        let mut links: Vec<(Vec<u8>, Vec<u8>)> = Vec::new();
        let mut k: usize = 0;
        assert(vv.subrange(0, vv.len() as int) =~= vv);
        assert(pairs_view(links@) + Seq::<(Seq<u8>, Seq<u8>)>::empty() =~= Seq::<(Seq<u8>, Seq<u8>)>::empty());
        proof {
            let it = iterate(bv, env_line, wv[1], vv, inner as nat);
            match it {
                Ok((es, env2)) => {
                    assert(pairs_view(links@) + es =~= es);
                },
                Err(_) => {},
            }
        }
        while k < values.len()
            invariant
                k <= values@.len(),
                vv == views(values@),
                bv == views(body@),
                wv.len() == 4,
                wv == views(w@),
                env_line == pairs_view(old(variables)@),
                line_effect(line@, bv, env_line, ind as nat) == iterate(bv, env_line, wv[1], vv, inner as nat),
                continues(
                    iterate(bv, pairs_view(variables@), wv[1], vv.subrange(k as int, vv.len() as int), inner as nat),
                    iterate(bv, env_line, wv[1], vv, inner as nat),
                    pairs_view(links@),
                ),
            decreases values@.len() - k,
        {
            let ghost vs = vv.subrange(k as int, vv.len() as int);
            assert(vs[0] == vv[k as int]);
            assert(vs.drop_first() =~= vv.subrange(k + 1, vv.len() as int));
            assert(vv[k as int] == values@[k as int]@);
            bind_exec(variables, w[1].as_slice(), copy_bytes(values[k].as_slice()));
            let es = analyse_links_part(body, variables, inner)?;
            let ghost acc = pairs_view(links@);
            append_edges(&mut links, es);
            proof {
                let here = iterate(bv, pairs_view(variables@), wv[1], vv.subrange(k + 1, vv.len() as int), inner as nat);
                match here {
                    Ok((es2, env3)) => {
                        assert(acc + (pairs_view(es@) + es2) =~= pairs_view(links@) + es2);
                    },
                    Err(_) => {},
                }
            }
            k = k + 1;
        }
        assert(vv.subrange(k as int, vv.len() as int) =~= Seq::<Seq<u8>>::empty());
        assert(pairs_view(links@) + Seq::<(Seq<u8>, Seq<u8>)>::empty() =~= pairs_view(links@));
        Ok(links)
    } else {
        let cond = sub_bytes(t.as_slice(), 2, t.len());
        match is_valid_condition(cond.as_slice(), variables) {
            Err(e) => Err(e),
            Ok(false) => {
                let none: Vec<(Vec<u8>, Vec<u8>)> = Vec::new();
                assert(pairs_view(none@) =~= Seq::<(Seq<u8>, Seq<u8>)>::empty());
                Ok(none)
            },
            Ok(true) => analyse_links_part(body, variables, inner),
        }
    }
}

/// The edges that the links lines at indent `nb_block_leading_spaces` and
/// their blocks stand for, under the bindings `variables`, which loops
/// update.
pub fn analyse_links_part(lines: &[Vec<u8>], variables: &mut Env, nb_block_leading_spaces: usize) -> (r: Result<
    Vec<(Vec<u8>, Vec<u8>)>,
    CompileError,
>)
    ensures
        match scan(views(lines@), pairs_view(old(variables)@), nb_block_leading_spaces as nat) {
            Ok((es, env2)) => r matches Ok(v) && pairs_view(v@) == es && pairs_view(final(variables)@) == env2,
            Err(e) => r == Err::<Vec<(Vec<u8>, Vec<u8>)>, CompileError>(e),
        },
    decreases lines@.len(), 0nat,
{
    let ghost lv = views(lines@);
    let ghost env0 = pairs_view(variables@);
    let ghost min = nb_block_leading_spaces as nat;
    let n = lines.len();
    let mut links: Vec<(Vec<u8>, Vec<u8>)> = Vec::new();
    let mut i: usize = 0;
    assert(lv.subrange(0, n as int) =~= lv);
    proof {
        match scan(lv, env0, min) {
            Ok((es, env2)) => {
                assert(pairs_view(links@) + es =~= es);
            },
            Err(_) => {},
        }
    }
    while i < n
        invariant
            i <= n == lines@.len(),
            lv == views(lines@),
            env0 == pairs_view(old(variables)@),
            min == nb_block_leading_spaces as nat,
            continues(scan(lv.subrange(i as int, n as int), pairs_view(variables@), min), scan(lv, env0, min), pairs_view(links@)),
        decreases n - i,
    {
        let ghost rest = lv.subrange(i as int, n as int);
        assert(rest[0] == lines@[i as int]@);
        assert(rest.drop_first() =~= lv.subrange(i + 1, n as int));
        let ind = count_leading_spaces(lines[i].as_slice());
        if ind < nb_block_leading_spaces {
            assert(pairs_view(links@) + Seq::<(Seq<u8>, Seq<u8>)>::empty() =~= pairs_view(links@));
            return Ok(links);
        }
        if ind == nb_block_leading_spaces {
            let body = &lines[i + 1..n];
            assert(views(body@) =~= lv.subrange(i + 1, n as int));
            let es = line_effect_exec(lines[i].as_slice(), body, variables, ind)?;
            let ghost acc = pairs_view(links@);
            append_edges(&mut links, es);
            proof {
                let here = scan(lv.subrange(i + 1, n as int), pairs_view(variables@), min);
                match here {
                    Ok((es2, env3)) => {
                        assert(acc + (pairs_view(es@) + es2) =~= pairs_view(links@) + es2);
                    },
                    Err(_) => {},
                }
            }
        }
        i = i + 1;
    }
    assert(lv.subrange(i as int, n as int) =~= Seq::<Seq<u8>>::empty());
    assert(pairs_view(links@) + Seq::<(Seq<u8>, Seq<u8>)>::empty() =~= pairs_view(links@));
    Ok(links)
}

/// A line that carries content: not blank, not a `#` comment.
pub open spec fn is_kept(l: Seq<u8>) -> bool {
    trim(l).len() > 0 && trim(l)[0] != 35
}

/// The bytes of a section name.
pub open spec fn section_name(k: int) -> Seq<u8> {
    if k == 0 {
        seq![105u8, 110u8, 112u8, 117u8, 116u8, 115u8]
    } else if k == 1 {
        seq![111u8, 117u8, 116u8, 112u8, 117u8, 116u8, 115u8]
    } else if k == 2 {
        seq![100u8, 101u8, 102u8]
    } else if k == 3 {
        seq![108u8, 105u8, 110u8, 107u8, 115u8]
    } else {
        seq![105u8, 109u8, 112u8, 111u8, 114u8, 116u8, 115u8]
    }
}

/// Which of `inputs`, `outputs`, `def`, `links`, `imports` a name is.
pub open spec fn section_index(name: Seq<u8>) -> Option<int> {
    if name == section_name(0) {
        Some(0)
    } else if name == section_name(1) {
        Some(1)
    } else if name == section_name(2) {
        Some(2)
    } else if name == section_name(3) {
        Some(3)
    } else if name == section_name(4) {
        Some(4)
    } else {
        None
    }
}

/// The state while splitting a source into sections: the bodies found so
/// far by section, the section being read (its index and body), and whether
/// the previous line was empty.
pub type SectionState = (Seq<Option<Seq<Seq<u8>>>>, Option<(int, Seq<Seq<u8>>)>, bool);

/// The state before the first line.
pub open spec fn section_start() -> SectionState {
    (Seq::new(5, |k: int| None::<Seq<Seq<u8>>>), None, false)
}

/// Stores the section being read, if any.
pub open spec fn close_section(st: SectionState) -> Seq<Option<Seq<Seq<u8>>>> {
    match st.1 {
        Some((k, body)) => st.0.update(k, Some(body)),
        None => st.0,
    }
}

/// One line of the source: two empty lines in a row end a section; the
/// first kept line of a section names it; later kept lines form its body.
pub open spec fn section_step(st: SectionState, l: Seq<u8>) -> Result<SectionState, CompileError> {
    if l.len() == 0 {
        if st.2 {
            Ok((close_section(st), None, false))
        } else {
            Ok((st.0, st.1, true))
        }
    } else if !is_kept(l) {
        Ok((st.0, st.1, false))
    } else {
        match st.1 {
            Some((k, body)) => Ok((st.0, Some((k, body.push(l))), false)),
            None => {
                let h = trim(l);
                if h.last() != 58 {
                    Err(CompileError::MalformedLine)
                } else {
                    match section_index(h.drop_last()) {
                        None => Err(CompileError::UnknownSection),
                        Some(k) => if st.0[k] is Some {
                            Err(CompileError::DuplicateSection)
                        } else {
                            Ok((st.0, Some((k, Seq::empty())), false))
                        },
                    }
                }
            },
        }
    }
}

/// The state after the lines `ls`, or the first error.
pub open spec fn section_fold(ls: Seq<Seq<u8>>) -> Result<SectionState, CompileError>
    decreases ls.len(),
{
    if ls.len() == 0 {
        Ok(section_start())
    } else {
        match section_fold(ls.drop_last()) {
            Err(e) => Err(e),
            Ok(st) => section_step(st, ls.last()),
        }
    }
}

/// The bodies of the five sections of `src`, by index; the first four must
/// be there.
pub open spec fn sections(src: Seq<u8>) -> Result<Seq<Seq<Seq<u8>>>, CompileError> {
    match section_fold(split_on(src, 10)) {
        Err(e) => Err(e),
        Ok(st) => {
            let secs = close_section(st);
            if secs[0] is None || secs[1] is None || secs[2] is None || secs[3] is None {
                Err(CompileError::MissingSection)
            } else {
                Ok(Seq::new(4, |k: int| secs[k]->Some_0))
            }
        },
    }
}

proof fn lemma_section_fold_err(ls: Seq<Seq<u8>>, i: int)
    requires
        0 <= i <= ls.len(),
        section_fold(ls.subrange(0, i)) is Err,
    ensures
        section_fold(ls) == section_fold(ls.subrange(0, i)),
    decreases ls.len() - i,
{
    if i == ls.len() {
        assert(ls.subrange(0, i) =~= ls);
    } else {
        assert(ls.subrange(0, i + 1).drop_last() =~= ls.subrange(0, i));
        lemma_section_fold_err(ls, i + 1);
    }
}

/// The view of the section bodies found so far.
pub open spec fn found_view(f: Seq<Option<Vec<Vec<u8>>>>) -> Seq<Option<Seq<Seq<u8>>>> {
    Seq::new(
        f.len(),
        |k: int|
            match f[k] {
                Some(b) => Some(views(b@)),
                None => None,
            },
    )
}

fn bytes_is(s: &[u8], k: usize) -> (r: bool)
    requires
        k < 5,
    ensures
        r == (s@ == section_name(k as int)),
{
    let name: Vec<u8> = if k == 0 {
        vec![105u8, 110u8, 112u8, 117u8, 116u8, 115u8]
    } else if k == 1 {
        vec![111u8, 117u8, 116u8, 112u8, 117u8, 116u8, 115u8]
    } else if k == 2 {
        vec![100u8, 101u8, 102u8]
    } else if k == 3 {
        vec![108u8, 105u8, 110u8, 107u8, 115u8]
    } else {
        vec![105u8, 109u8, 112u8, 111u8, 114u8, 116u8, 115u8]
    };
    assert(name@ =~= section_name(k as int));
    crate::text::bytes_eq(s, name.as_slice())
}

fn section_index_exec(name: &[u8]) -> (r: Option<usize>)
    ensures
        r matches Some(k) ==> section_index(name@) == Some(k as int) && k < 5,
        r is None ==> section_index(name@) is None,
{
    let mut k: usize = 0;
    while k < 5
        invariant
            k <= 5,
            forall|j: int| 0 <= j < k ==> name@ != section_name(j),
        decreases 5 - k,
    {
        if bytes_is(name, k) {
            return Some(k);
        }
        k = k + 1;
    }
    None
}

/// Splits a source into the bodies of its `inputs`, `outputs`, `def` and
/// `links` sections, in that order.
pub fn split_sections(src: &[u8]) -> (r: Result<Vec<Vec<Vec<u8>>>, CompileError>)
    ensures
        match sections(src@) {
            Ok(secs) => r matches Ok(v) && v@.len() == 4 && forall|k: int| 0 <= k < 4 ==> views(#[trigger] v@[k]@) == secs[k],
            Err(e) => r == Err::<Vec<Vec<Vec<u8>>>, CompileError>(e),
        },
{
    let lines = split_bytes(src, 10);
    let ghost lv = views(lines@);
    let mut found: Vec<Option<Vec<Vec<u8>>>> = Vec::new();
    let mut k: usize = 0;
    while k < 5
        invariant
            k <= 5,
            found@.len() == k,
            forall|j: int| 0 <= j < k ==> found@[j] is None,
        decreases 5 - k,
    {
        found.push(None);
        k = k + 1;
    }
    let mut current: Option<usize> = None;
    let mut body: Vec<Vec<u8>> = Vec::new();
    let mut prev_empty = false;
    let mut i: usize = 0;
    assert(lv.subrange(0, 0) =~= Seq::<Seq<u8>>::empty());
    assert(section_start().0 =~= found_view(found@));
    while i < lines.len()
        invariant
            i <= lines@.len(),
            lv == views(lines@),
            lv == split_on(src@, 10),
            found@.len() == 5,
            current matches Some(c) ==> c < 5,
            section_fold(lv.subrange(0, i as int)) == Ok::<SectionState, CompileError>((
                found_view(found@),
                match current {
                    Some(c) => Some((c as int, views(body@))),
                    None => None,
                },
                prev_empty,
            )),
        decreases lines@.len() - i,
    {
        assert(lv.subrange(0, i + 1).drop_last() =~= lv.subrange(0, i as int));
        assert(lv[i as int] == lines@[i as int]@);
        let l = &lines[i];
        if l.len() == 0 {
            if prev_empty {
                if let Some(c) = current {
                    let b = body;
                    let ghost bv = views(b@);
                    let ghost fv0 = found_view(found@);
                    found.set(c, Some(b));
                    body = Vec::new();
                    assert(found_view(found@) =~= fv0.update(c as int, Some(bv)));
                }
                current = None;
                prev_empty = false;
            } else {
                prev_empty = true;
            }
        } else {
            let t = trim_bytes(l.as_slice());
            if t.len() == 0 || t[0] == 35 {
                prev_empty = false;
            } else {
                prev_empty = false;
                match current {
                    Some(_) => {
                        let ghost before = views(body@);
                        body.push(copy_bytes(l.as_slice()));
                        assert(views(body@) =~= before.push(lv[i as int]));
                    },
                    None => {
                        let n = t.len();
                        if t[n - 1] != 58 {
                            proof {
                                lemma_section_fold_err(lv, i + 1);
                            }
                            return Err(CompileError::MalformedLine);
                        }
                        let name = sub_bytes(t.as_slice(), 0, n - 1);
                        assert(name@ =~= t@.drop_last());
                        match section_index_exec(name.as_slice()) {
                            None => {
                                proof {
                                    lemma_section_fold_err(lv, i + 1);
                                }
                                return Err(CompileError::UnknownSection);
                            },
                            Some(c) => {
                                if found[c].is_some() {
                                    proof {
                                        lemma_section_fold_err(lv, i + 1);
                                    }
                                    return Err(CompileError::DuplicateSection);
                                }
                                current = Some(c);
                                body = Vec::new();
                                assert(views(body@) =~= Seq::<Seq<u8>>::empty());
                            },
                        }
                    },
                }
            }
        }
        i = i + 1;
    }
    assert(lv.subrange(0, i as int) =~= lv);
    if let Some(c) = current {
        let ghost fv0 = found_view(found@);
        let ghost bv = views(body@);
        found.set(c, Some(body));
        assert(found_view(found@) =~= fv0.update(c as int, Some(bv)));
    }
    let ghost fv = found_view(found@);
    assert(fv == close_section(section_fold(lv)->Ok_0));
    let mut out: Vec<Vec<Vec<u8>>> = Vec::new();
    k = 0;
    while k < 4
        invariant
            k <= 4,
            found@.len() == 5 - k,
            lv == split_on(src@, 10),
            section_fold(lv) is Ok,
            fv == close_section(section_fold(lv)->Ok_0),
            fv.len() == 5,
            forall|j: int| 0 <= j < 5 - k ==> #[trigger] found_view(found@)[j] == fv[k + j],
            out@.len() == k,
            forall|j: int| 0 <= j < k ==> #[trigger] fv[j] is Some,
            Seq::new(k as nat, |j: int| views(out@[j]@)) == Seq::new(k as nat, |j: int| fv[j]->Some_0),
        decreases 4 - k,
    {
        let ghost f0 = found_view(found@);
        assert(f0[0] == fv[k as int]);
        match found.remove(0) {
            Some(b) => {
                let ghost o0 = out@;
                out.push(b);
                assert(views(out@[k as int]@) == fv[k as int]->Some_0);
                assert forall|j: int| 0 <= j < k implies views(out@[j]@) == fv[j]->Some_0 by {
                    assert(out@[j] == o0[j]);
                    assert(Seq::new(k as nat, |j: int| views(o0[j]@))[j] == views(o0[j]@));
                    assert(Seq::new(k as nat, |j: int| fv[j]->Some_0)[j] == fv[j]->Some_0);
                }
                assert(Seq::new((k + 1) as nat, |j: int| views(out@[j]@)) =~= Seq::new((k + 1) as nat, |j: int| fv[j]->Some_0));
                assert forall|j: int| 0 <= j < 5 - (k + 1) implies #[trigger] found_view(found@)[j] == fv[k + 1 + j] by {
                    assert(found_view(found@)[j] == f0[j + 1]);
                }
            },
            None => {
                return Err(CompileError::MissingSection);
            },
        }
        k = k + 1;
    }
    assert(sections(src@) == Ok::<Seq<Seq<Seq<u8>>>, CompileError>(Seq::new(4, |j: int| fv[j]->Some_0)));
    assert forall|j: int| 0 <= j < 4 implies views(#[trigger] out@[j]@) == fv[j]->Some_0 by {
        assert(Seq::new(4, |j: int| views(out@[j]@))[j] == views(out@[j]@));
        assert(Seq::new(4, |j: int| fv[j]->Some_0)[j] == fv[j]->Some_0);
    }
    Ok(out)
}

/// The mask whose bits are the listed positions, each a single digit from
/// 0 to 4.
pub open spec fn mask_of(pieces: Seq<Seq<u8>>) -> Result<u8, CompileError>
    decreases pieces.len(),
{
    if pieces.len() == 0 {
        Ok(0u8)
    } else {
        match mask_of(pieces.drop_last()) {
            Err(e) => Err(e),
            Ok(m) => {
                let d = trim(pieces.last());
                if d.len() == 1 && 48 <= d[0] <= 52 {
                    Ok(m | (1u8 << ((d[0] - 48) as u8)))
                } else {
                    Err(CompileError::MalformedLine)
                }
            },
        }
    }
}

/// The nodes `a` to `b`, each with mask `m`.
pub open spec fn declared_range(a: Seq<u8>, b: Seq<u8>, m: u8) -> Result<(Seq<Seq<u8>>, u8), CompileError> {
    if range_ok(a, b) {
        Ok((range_values(a, b), m))
    } else {
        Err(CompileError::BadRange)
    }
}

/// The nodes one line of `inputs`, `outputs` or `def` declares, and their
/// mask: `ID`, or `ID1 -> ID2 trailing` with the trailing list of bit
/// positions (ignored for inputs, whose mask is 0; required otherwise).
pub open spec fn decl_line(l: Seq<u8>, is_input: bool) -> Result<(Seq<Seq<u8>>, u8), CompileError> {
    let t = trim(l);
    match find_pair(t, 45, 62) {
        None => if is_input {
            declared_range(t, t, 0)
        } else {
            Err(CompileError::MalformedLine)
        },
        Some(i) => {
            let a = trim(t.subrange(0, i));
            let rhs = trim(t.subrange(i + 2, t.len() as int));
            match find_byte(rhs, 32) {
                None => if is_input {
                    declared_range(a, rhs, 0)
                } else {
                    Err(CompileError::MalformedLine)
                },
                Some(sp) => if is_input {
                    declared_range(a, rhs.subrange(0, sp), 0)
                } else {
                    match mask_of(split_on(rhs.subrange(sp + 1, rhs.len() as int), 44)) {
                        Err(e) => Err(e),
                        Ok(m) => declared_range(a, rhs.subrange(0, sp), m),
                    }
                },
            }
        },
    }
}

/// Position of `x` in `names`, looking from the front.
pub open spec fn index_of(names: Seq<Seq<u8>>, x: Seq<u8>) -> Option<int>
    decreases names.len(),
{
    if names.len() == 0 {
        None
    } else if names[0] == x {
        Some(0)
    } else {
        match index_of(names.drop_first(), x) {
            Some(k) => Some(k + 1),
            None => None,
        }
    }
}

/// The declared nodes and their masks, in declaration order.
pub type Decls = (Seq<Seq<u8>>, Seq<u8>);

/// Appends `ids` with mask `m`; refused when one is already declared.
pub open spec fn add_ids(st: Decls, ids: Seq<Seq<u8>>, m: u8) -> Result<Decls, CompileError>
    decreases ids.len(),
{
    if ids.len() == 0 {
        Ok(st)
    } else {
        match add_ids(st, ids.drop_last(), m) {
            Err(e) => Err(e),
            Ok((names, masks)) => if index_of(names, ids.last()) is Some {
                Err(CompileError::DuplicateNode)
            } else {
                Ok((names.push(ids.last()), masks.push(m)))
            },
        }
    }
}

/// Declares the nodes of `lines` after those of `st`.
pub open spec fn declare_fold(st: Decls, lines: Seq<Seq<u8>>, is_input: bool) -> Result<Decls, CompileError>
    decreases lines.len(),
{
    if lines.len() == 0 {
        Ok(st)
    } else {
        match declare_fold(st, lines.drop_last(), is_input) {
            Err(e) => Err(e),
            Ok(st2) => match decl_line(lines.last(), is_input) {
                Err(e) => Err(e),
                Ok((ids, m)) => add_ids(st2, ids, m),
            },
        }
    }
}

/// The nodes of the `inputs`, `outputs` and `def` bodies, in that order.
pub open spec fn declarations(secs: Seq<Seq<Seq<u8>>>) -> Result<Decls, CompileError> {
    match declare_fold((Seq::empty(), Seq::empty()), secs[0], true) {
        Err(e) => Err(e),
        Ok(st) => match declare_fold(st, secs[1], false) {
            Err(e) => Err(e),
            Ok(st2) => declare_fold(st2, secs[2], false),
        },
    }
}

/// A position found for `x` holds `x`.
pub proof fn lemma_index_of_bounds(names: Seq<Seq<u8>>, x: Seq<u8>)
    ensures
        index_of(names, x) matches Some(k) ==> 0 <= k < names.len() && names[k] == x,
    decreases names.len(),
{
    if names.len() > 0 && names[0] != x {
        lemma_index_of_bounds(names.drop_first(), x);
    }
}

fn index_of_exec(names: &Vec<Vec<u8>>, x: &[u8]) -> (r: Option<usize>)
    ensures
        r matches Some(k) ==> index_of(views(names@), x@) == Some(k as int) && k < names@.len(),
        r is None ==> index_of(views(names@), x@) is None,
{
    let ghost nv = views(names@);
    let mut i: usize = 0;
    assert(nv.subrange(0, nv.len() as int) =~= nv);
    while i < names.len()
        invariant
            i <= names@.len(),
            nv == views(names@),
            index_of(nv, x@) == match index_of(nv.subrange(i as int, nv.len() as int), x@) {
                Some(k) => Some(k + i),
                None => None,
            },
        decreases names@.len() - i,
    {
        let ghost rest = nv.subrange(i as int, nv.len() as int);
        assert(rest.drop_first() =~= nv.subrange(i + 1, nv.len() as int));
        assert(rest[0] == names@[i as int]@);
        if crate::text::bytes_eq(names[i].as_slice(), x) {
            return Some(i);
        }
        i = i + 1;
    }
    None
}

fn mask_of_exec(text: &[u8]) -> (r: Result<u8, CompileError>)
    ensures
        match mask_of(split_on(text@, 44)) {
            Ok(m) => r == Ok::<u8, CompileError>(m),
            Err(e) => r == Err::<u8, CompileError>(e),
        },
{
    let pieces = split_bytes(text, 44);
    let ghost ps = views(pieces@);
    let mut m: u8 = 0;
    let mut i: usize = 0;
    assert(ps.subrange(0, 0) =~= Seq::<Seq<u8>>::empty());
    while i < pieces.len()
        invariant
            i <= pieces@.len(),
            ps == views(pieces@),
            ps == split_on(text@, 44),
            mask_of(ps.subrange(0, i as int)) == Ok::<u8, CompileError>(m),
        decreases pieces@.len() - i,
    {
        assert(ps.subrange(0, i + 1).drop_last() =~= ps.subrange(0, i as int));
        assert(ps[i as int] == pieces@[i as int]@);
        let d = trim_bytes(pieces[i].as_slice());
        if d.len() == 1 && 48 <= d[0] && d[0] <= 52 {
            m = m | (1u8 << (d[0] - 48));
        } else {
            proof {
                lemma_mask_of_err(ps, i + 1);
            }
            return Err(CompileError::MalformedLine);
        }
        i = i + 1;
    }
    assert(ps.subrange(0, i as int) =~= ps);
    Ok(m)
}

proof fn lemma_mask_of_err(pieces: Seq<Seq<u8>>, i: int)
    requires
        0 <= i <= pieces.len(),
        mask_of(pieces.subrange(0, i)) is Err,
    ensures
        mask_of(pieces) == mask_of(pieces.subrange(0, i)),
    decreases pieces.len() - i,
{
    if i == pieces.len() {
        assert(pieces.subrange(0, i) =~= pieces);
    } else {
        assert(pieces.subrange(0, i + 1).drop_last() =~= pieces.subrange(0, i));
        lemma_mask_of_err(pieces, i + 1);
    }
}

fn declared_range_exec(a: &[u8], b: &[u8], m: u8) -> (r: Result<(Vec<Vec<u8>>, u8), CompileError>)
    ensures
        match declared_range(a@, b@, m) {
            Ok((ids, mm)) => r matches Ok((v, x)) && views(v@) == ids && x == mm,
            Err(e) => r == Err::<(Vec<Vec<u8>>, u8), CompileError>(e),
        },
{
    match get_nodes_of_range(a, b) {
        Some(v) => {
            assert(views(v@) =~= range_values(a@, b@));
            Ok((v, m))
        },
        None => Err(CompileError::BadRange),
    }
}

fn decl_line_exec(l: &[u8], is_input: bool) -> (r: Result<(Vec<Vec<u8>>, u8), CompileError>)
    ensures
        match decl_line(l@, is_input) {
            Ok((ids, m)) => r matches Ok((v, x)) && views(v@) == ids && x == m,
            Err(e) => r == Err::<(Vec<Vec<u8>>, u8), CompileError>(e),
        },
{
    let t = trim_bytes(l);
    let n = t.len();
    match find_pair_exec(t.as_slice(), 45, 62) {
        None => {
            if is_input {
                declared_range_exec(t.as_slice(), t.as_slice(), 0)
            } else {
                Err(CompileError::MalformedLine)
            }
        },
        Some(i) => {
            let a = trim_bytes(sub_bytes(t.as_slice(), 0, i).as_slice());
            let rhs = trim_bytes(sub_bytes(t.as_slice(), i + 2, n).as_slice());
            match find_byte_exec(rhs.as_slice(), 32) {
                None => {
                    if is_input {
                        declared_range_exec(a.as_slice(), rhs.as_slice(), 0)
                    } else {
                        Err(CompileError::MalformedLine)
                    }
                },
                Some(sp) => {
                    let end = sub_bytes(rhs.as_slice(), 0, sp);
                    if is_input {
                        declared_range_exec(a.as_slice(), end.as_slice(), 0)
                    } else {
                        let rn = rhs.len();
                        let trailing = sub_bytes(rhs.as_slice(), sp + 1, rn);
                        let m = mask_of_exec(trailing.as_slice())?;
                        declared_range_exec(a.as_slice(), end.as_slice(), m)
                    }
                },
            }
        },
    }
}

proof fn lemma_add_ids_err(st: Decls, ids: Seq<Seq<u8>>, m: u8, i: int)
    requires
        0 <= i <= ids.len(),
        add_ids(st, ids.subrange(0, i), m) is Err,
    ensures
        add_ids(st, ids, m) == add_ids(st, ids.subrange(0, i), m),
    decreases ids.len() - i,
{
    if i == ids.len() {
        assert(ids.subrange(0, i) =~= ids);
    } else {
        assert(ids.subrange(0, i + 1).drop_last() =~= ids.subrange(0, i));
        lemma_add_ids_err(st, ids, m, i + 1);
    }
}

proof fn lemma_declare_fold_err(st: Decls, lines: Seq<Seq<u8>>, is_input: bool, i: int)
    requires
        0 <= i <= lines.len(),
        declare_fold(st, lines.subrange(0, i), is_input) is Err,
    ensures
        declare_fold(st, lines, is_input) == declare_fold(st, lines.subrange(0, i), is_input),
    decreases lines.len() - i,
{
    if i == lines.len() {
        assert(lines.subrange(0, i) =~= lines);
    } else {
        assert(lines.subrange(0, i + 1).drop_last() =~= lines.subrange(0, i));
        lemma_declare_fold_err(st, lines, is_input, i + 1);
    }
}

fn add_ids_exec(names: &mut Vec<Vec<u8>>, masks: &mut Vec<u8>, ids: &Vec<Vec<u8>>, m: u8) -> (r: Result<(), CompileError>)
    ensures
        match add_ids((views(old(names)@), old(masks)@), views(ids@), m) {
            Ok((n2, m2)) => r is Ok && views(final(names)@) == n2 && final(masks)@ == m2,
            Err(e) => r == Err::<(), CompileError>(e),
        },
{
    let ghost st0 = (views(names@), masks@);
    let ghost iv = views(ids@);
    let mut k: usize = 0;
    assert(iv.subrange(0, 0) =~= Seq::<Seq<u8>>::empty());
    while k < ids.len()
        invariant
            k <= ids@.len(),
            iv == views(ids@),
            st0 == (views(old(names)@), old(masks)@),
            add_ids(st0, iv.subrange(0, k as int), m) == Ok::<Decls, CompileError>((views(names@), masks@)),
        decreases ids@.len() - k,
    {
        assert(iv.subrange(0, k + 1).drop_last() =~= iv.subrange(0, k as int));
        assert(iv[k as int] == ids@[k as int]@);
        if index_of_exec(names, ids[k].as_slice()).is_some() {
            proof {
                lemma_add_ids_err(st0, iv, m, k + 1);
            }
            return Err(CompileError::DuplicateNode);
        }
        let ghost before = views(names@);
        names.push(copy_bytes(ids[k].as_slice()));
        masks.push(m);
        assert(views(names@) =~= before.push(iv[k as int]));
        k = k + 1;
    }
    assert(iv.subrange(0, k as int) =~= iv);
    Ok(())
}

fn declare_section(names: &mut Vec<Vec<u8>>, masks: &mut Vec<u8>, lines: &Vec<Vec<u8>>, is_input: bool) -> (r: Result<(), CompileError>)
    ensures
        match declare_fold((views(old(names)@), old(masks)@), views(lines@), is_input) {
            Ok((n2, m2)) => r is Ok && views(final(names)@) == n2 && final(masks)@ == m2,
            Err(e) => r == Err::<(), CompileError>(e),
        },
{
    let ghost st0 = (views(names@), masks@);
    let ghost lv = views(lines@);
    let mut k: usize = 0;
    assert(lv.subrange(0, 0) =~= Seq::<Seq<u8>>::empty());
    while k < lines.len()
        invariant
            k <= lines@.len(),
            lv == views(lines@),
            st0 == (views(old(names)@), old(masks)@),
            declare_fold(st0, lv.subrange(0, k as int), is_input) == Ok::<Decls, CompileError>((views(names@), masks@)),
        decreases lines@.len() - k,
    {
        assert(lv.subrange(0, k + 1).drop_last() =~= lv.subrange(0, k as int));
        assert(lv[k as int] == lines@[k as int]@);
        let (ids, m) = match decl_line_exec(lines[k].as_slice(), is_input) {
            Ok(x) => x,
            Err(e) => {
                proof {
                    lemma_declare_fold_err(st0, lv, is_input, k + 1);
                }
                return Err(e);
            },
        };
        match add_ids_exec(names, masks, &ids, m) {
            Ok(()) => {},
            Err(e) => {
                proof {
                    lemma_declare_fold_err(st0, lv, is_input, k + 1);
                }
                return Err(e);
            },
        }
        k = k + 1;
    }
    assert(lv.subrange(0, k as int) =~= lv);
    Ok(())
}

/// The decimal digits of `n`.
pub open spec fn decimal(n: nat) -> Seq<u8>
    decreases n,
{
    if n < 10 {
        seq![(48 + n) as u8]
    } else {
        decimal(n / 10).push((48 + n % 10) as u8)
    }
}

/// The mask as five binary digits, most significant first.
pub open spec fn mask_text(m: u8) -> Seq<u8> {
    Seq::new(5, |k: int| if (m >> ((4 - k) as u8)) & 1u8 == 1u8 { 49u8 } else { 48u8 })
}

/// Both ends of every edge are declared.
pub open spec fn edges_resolve(names: Seq<Seq<u8>>, edges: Seq<(Seq<u8>, Seq<u8>)>) -> bool {
    forall|k: int| 0 <= k < edges.len() ==> index_of(names, (#[trigger] edges[k]).0) is Some
        && index_of(names, edges[k].1) is Some
}

/// The 1-based indices of the targets of the edges that leave node `i`, in
/// declaration order.
pub open spec fn children_of(names: Seq<Seq<u8>>, edges: Seq<(Seq<u8>, Seq<u8>)>, i: int) -> Seq<nat>
    decreases edges.len(),
{
    if edges.len() == 0 {
        Seq::empty()
    } else {
        let c = children_of(names, edges.drop_last(), i);
        if index_of(names, edges.last().0) == Some(i) {
            c.push((index_of(names, edges.last().1)->Some_0 + 1) as nat)
        } else {
            c
        }
    }
}

/// Each child index after a space.
pub open spec fn children_text(cs: Seq<nat>) -> Seq<u8>
    decreases cs.len(),
{
    if cs.len() == 0 {
        Seq::empty()
    } else {
        children_text(cs.drop_last()) + seq![32u8] + decimal(cs.last())
    }
}

/// The object-file line of node `i` (0-based).
pub open spec fn node_line(i: nat, m: u8, cs: Seq<nat>) -> Seq<u8> {
    decimal(i + 1) + seq![32u8] + mask_text(m) + children_text(cs) + seq![10u8]
}

/// The lines of the first `n` nodes.
pub open spec fn object_lines(names: Seq<Seq<u8>>, masks: Seq<u8>, edges: Seq<(Seq<u8>, Seq<u8>)>, n: nat) -> Seq<u8>
    decreases n,
{
    if n == 0 {
        Seq::empty()
    } else {
        object_lines(names, masks, edges, (n - 1) as nat) + node_line(
            (n - 1) as nat,
            masks[n - 1],
            children_of(names, edges, n - 1),
        )
    }
}

/// The object file of a source.
pub open spec fn compile_text(src: Seq<u8>) -> Result<Seq<u8>, CompileError> {
    match sections(src) {
        Err(e) => Err(e),
        Ok(secs) => match declarations(secs) {
            Err(e) => Err(e),
            Ok((names, masks)) => match scan(secs[3], Seq::empty(), 0) {
                Err(e) => Err(e),
                Ok((edges, _)) => if edges_resolve(names, edges) {
                    Ok(object_lines(names, masks, edges, names.len()))
                } else {
                    Err(CompileError::UnknownNode)
                },
            },
        },
    }
}

fn push_decimal(out: &mut Vec<u8>, n: usize)
    ensures
        final(out)@ == old(out)@ + decimal(n as nat),
    decreases n,
{
    if n >= 10 {
        push_decimal(out, n / 10);
    }
    out.push((48 + n % 10) as u8);
    proof {
        if n < 10 {
            assert(n % 10 == n);
        }
    }
    assert(out@ =~= old(out)@ + decimal(n as nat));
}

fn push_mask(out: &mut Vec<u8>, m: u8)
    ensures
        final(out)@ == old(out)@ + mask_text(m),
{
    let mut k: u8 = 0;
    while k < 5
        invariant
            k <= 5,
            out@ == old(out)@ + mask_text(m).subrange(0, k as int),
        decreases 5 - k,
    {
        let bit = (m >> (4 - k)) & 1;
        out.push(if bit == 1 { 49u8 } else { 48u8 });
        assert(mask_text(m).subrange(0, k + 1) =~= mask_text(m).subrange(0, k as int).push(mask_text(m)[k as int]));
        k = k + 1;
    }
    assert(mask_text(m).subrange(0, 5) =~= mask_text(m));
}

/// Writes the object file of the declared nodes and the edges between them.
fn emit(names: &Vec<Vec<u8>>, masks: &Vec<u8>, edges: &Vec<(Vec<u8>, Vec<u8>)>) -> (r: Result<Vec<u8>, CompileError>)
    requires
        names@.len() == masks@.len(),
    ensures
        edges_resolve(views(names@), pairs_view(edges@)) ==> (r matches Ok(v) && v@ == object_lines(
            views(names@),
            masks@,
            pairs_view(edges@),
            names@.len(),
        )),
        !edges_resolve(views(names@), pairs_view(edges@)) ==> r == Err::<Vec<u8>, CompileError>(CompileError::UnknownNode),
{
    let ghost nv = views(names@);
    let ghost ev = pairs_view(edges@);
    let mut resolved: Vec<(usize, usize)> = Vec::new();
    let mut k: usize = 0;
    while k < edges.len()
        invariant
            k <= edges@.len(),
            nv == views(names@),
            ev == pairs_view(edges@),
            resolved@.len() == k,
            forall|j: int| 0 <= j < k ==> index_of(nv, ev[j].0) == Some((#[trigger] resolved@[j]).0 as int)
                && index_of(nv, ev[j].1) == Some(resolved@[j].1 as int) && resolved@[j].0 < names@.len()
                && resolved@[j].1 < names@.len(),
        decreases edges@.len() - k,
    {
        assert(ev[k as int] == (edges@[k as int].0@, edges@[k as int].1@));
        let a = index_of_exec(names, edges[k].0.as_slice());
        let b = index_of_exec(names, edges[k].1.as_slice());
        if a.is_none() || b.is_none() {
            assert(!edges_resolve(nv, ev));
            return Err(CompileError::UnknownNode);
        }
        resolved.push((a.unwrap(), b.unwrap()));
        k = k + 1;
    }
    let mut out: Vec<u8> = Vec::new();
    let n = names.len();
    let mut i: usize = 0;
    while i < n
        invariant
            i <= n == names@.len() == masks@.len(),
            nv == views(names@),
            ev == pairs_view(edges@),
            resolved@.len() == edges@.len(),
            forall|j: int| 0 <= j < edges@.len() ==> index_of(nv, ev[j].0) == Some((#[trigger] resolved@[j]).0 as int)
                && index_of(nv, ev[j].1) == Some(resolved@[j].1 as int) && resolved@[j].0 < names@.len()
                && resolved@[j].1 < names@.len(),
            out@ == object_lines(nv, masks@, ev, i as nat),
        decreases n - i,
    {
        let ghost line_start = out@;
        push_decimal(&mut out, i + 1);
        out.push(32);
        push_mask(&mut out, masks[i]);
        let ghost head = out@;
        assert(ev.subrange(0, 0) =~= Seq::<(Seq<u8>, Seq<u8>)>::empty());
        let mut k: usize = 0;
        while k < resolved.len()
            invariant
                k <= resolved@.len() == edges@.len(),
                i < n == names@.len(),
                ev == pairs_view(edges@),
                forall|j: int| 0 <= j < edges@.len() ==> index_of(nv, ev[j].0) == Some((#[trigger] resolved@[j]).0 as int)
                    && index_of(nv, ev[j].1) == Some(resolved@[j].1 as int) && resolved@[j].0 < names@.len()
                    && resolved@[j].1 < names@.len(),
                out@ == head + children_text(children_of(nv, ev.subrange(0, k as int), i as int)),
            decreases resolved@.len() - k,
        {
            let ghost pre = ev.subrange(0, k as int);
            assert(ev.subrange(0, k + 1).drop_last() =~= pre);
            assert(ev.subrange(0, k + 1).last() == ev[k as int]);
            let (a, b) = resolved[k];
            if a == i {
                let ghost before = out@;
                out.push(32);
                push_decimal(&mut out, b + 1);
                let ghost cs = children_of(nv, pre, i as int);
                assert(children_of(nv, ev.subrange(0, k + 1), i as int) == cs.push((b + 1) as nat));
                assert(cs.push((b + 1) as nat).drop_last() =~= cs);
                assert(out@ =~= head + children_text(cs.push((b + 1) as nat)));
            }
            k = k + 1;
        }
        assert(ev.subrange(0, k as int) =~= ev);
        out.push(10);
        assert(out@ =~= line_start + node_line(i as nat, masks@[i as int], children_of(nv, ev, i as int)));
        i = i + 1;
    }
    assert forall|j: int| 0 <= j < ev.len() implies index_of(nv, (#[trigger] ev[j]).0) is Some
        && index_of(nv, ev[j].1) is Some by {
        let x = resolved@[j];
    }
    Ok(out)
}

/// Compiles a source into its object file: one line per declared node,
/// `INDEX MASK CHILDREN*`.
pub fn compile_source(src: &[u8]) -> (r: Result<Vec<u8>, CompileError>)
    ensures
        match compile_text(src@) {
            Ok(t) => r matches Ok(v) && v@ == t,
            Err(e) => r == Err::<Vec<u8>, CompileError>(e),
        },
{
    let secs = split_sections(src)?;
    let ghost sv = sections(src@)->Ok_0;
    let mut names: Vec<Vec<u8>> = Vec::new();
    let mut masks: Vec<u8> = Vec::new();
    assert(views(names@) =~= Seq::<Seq<u8>>::empty());
    declare_section(&mut names, &mut masks, &secs[0], true)?;
    declare_section(&mut names, &mut masks, &secs[1], false)?;
    declare_section(&mut names, &mut masks, &secs[2], false)?;
    let mut variables: Env = Vec::new();
    assert(pairs_view(variables@) =~= Seq::<(Seq<u8>, Seq<u8>)>::empty());
    let edges = analyse_links_part(secs[3].as_slice(), &mut variables, 0)?;
    proof {
        lemma_decls_lengths((Seq::empty(), Seq::empty()), sv);
    }
    emit(&names, &masks, &edges)
}

proof fn lemma_add_ids_lengths(st: Decls, ids: Seq<Seq<u8>>, m: u8)
    requires
        st.0.len() == st.1.len(),
    ensures
        add_ids(st, ids, m) matches Ok(d) ==> d.0.len() == d.1.len(),
    decreases ids.len(),
{
    if ids.len() > 0 {
        lemma_add_ids_lengths(st, ids.drop_last(), m);
    }
}

proof fn lemma_declare_fold_lengths(st: Decls, lines: Seq<Seq<u8>>, is_input: bool)
    requires
        st.0.len() == st.1.len(),
    ensures
        declare_fold(st, lines, is_input) matches Ok(d) ==> d.0.len() == d.1.len(),
    decreases lines.len(),
{
    if lines.len() > 0 {
        lemma_declare_fold_lengths(st, lines.drop_last(), is_input);
        match declare_fold(st, lines.drop_last(), is_input) {
            Ok(st2) => match decl_line(lines.last(), is_input) {
                Ok((ids, m)) => lemma_add_ids_lengths(st2, ids, m),
                Err(_) => {},
            },
            Err(_) => {},
        }
    }
}

/// Declarations pair each node with one mask.
pub proof fn lemma_decls_lengths(st: Decls, secs: Seq<Seq<Seq<u8>>>)
    requires
        st == (Seq::<Seq<u8>>::empty(), Seq::<u8>::empty()),
        secs.len() == 4,
    ensures
        declarations(secs) matches Ok(d) ==> d.0.len() == d.1.len(),
{
    lemma_declare_fold_lengths(st, secs[0], true);
    match declare_fold(st, secs[0], true) {
        Ok(st1) => {
            lemma_declare_fold_lengths(st1, secs[1], false);
            match declare_fold(st1, secs[1], false) {
                Ok(st2) => lemma_declare_fold_lengths(st2, secs[2], false),
                Err(_) => {},
            }
        },
        Err(_) => {},
    }
}

} // verus!
