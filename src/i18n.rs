//! Localized messages with named placeholders: `{name}` in a template is
//! replaced by the value given for `name`.
use vstd::prelude::*;
use vstd::string::*;

verus! {

/// Replaces, left to right, every non-overlapping occurrence of `pat` in
/// `s` by `rep`. An empty `pat` leaves `s` as it is.
pub open spec fn replace_all(s: Seq<char>, pat: Seq<char>, rep: Seq<char>) -> Seq<char>
    decreases s.len(),
{
    if pat.len() == 0 || s.len() < pat.len() {
        s
    } else if s.take(pat.len() as int) == pat {
        rep + replace_all(s.skip(pat.len() as int), pat, rep)
    } else {
        seq![s[0]] + replace_all(s.skip(1), pat, rep)
    }
}

/// The placeholder that stands for `name` in a template: `{name}`.
pub open spec fn placeholder(name: Seq<char>) -> Seq<char> {
    seq!['{'] + name + seq!['}']
}

/// Replaces the placeholder of each name by its value, one pair after the
/// other, in the order of `args`.
pub open spec fn substitute(s: Seq<char>, args: Seq<(Seq<char>, Seq<char>)>) -> Seq<char>
    decreases args.len(),
{
    if args.len() == 0 {
        s
    } else {
        let (name, value) = args.last();
        replace_all(substitute(s, args.drop_last()), placeholder(name), value)
    }
}

/// The name/value pairs of an argument list, as character sequences.
pub open spec fn args_view(args: Seq<(&str, &str)>) -> Seq<(Seq<char>, Seq<char>)> {
    args.map_values(|a: (&str, &str)| (a.0@, a.1@))
}

/// `p` occurs somewhere in `s`.
pub open spec fn occurs(s: Seq<char>, p: Seq<char>) -> bool {
    exists|i: int| 0 <= i && i + p.len() <= s.len() && #[trigger] s.subrange(i, i + p.len()) == p
}

proof fn lemma_replace_absent(s: Seq<char>, pat: Seq<char>, rep: Seq<char>)
    requires
        !occurs(s, pat),
    ensures
        replace_all(s, pat, rep) == s,
    decreases s.len(),
{
    if pat.len() > 0 && s.len() >= pat.len() {
        assert(s.take(pat.len() as int) != pat) by {
            let z: int = 0;
            assert(s.subrange(z, z + pat.len()) == s.take(pat.len() as int));
        }
        let t = s.skip(1);
        assert forall|i: int| 0 <= i && i + pat.len() <= t.len() implies #[trigger] t.subrange(
            i,
            i + pat.len(),
        ) != pat by {
            assert(t.subrange(i, i + pat.len()) == s.subrange(i + 1, i + 1 + pat.len()));
        }
        lemma_replace_absent(t, pat, rep);
        assert(seq![s[0]] + t == s);
    }
}

proof fn lemma_substitute_absent(s: Seq<char>, args: Seq<(Seq<char>, Seq<char>)>)
    requires
        forall|k: int| 0 <= k < args.len() ==> !occurs(s, placeholder(#[trigger] args[k].0)),
    ensures
        substitute(s, args) == s,
    decreases args.len(),
{
    if args.len() > 0 {
        let init = args.drop_last();
        assert forall|k: int| 0 <= k < init.len() implies !occurs(s, placeholder(#[trigger] init[k].0)) by {
            assert(init[k] == args[k]);
        }
        lemma_substitute_absent(s, init);
        lemma_replace_absent(s, placeholder(args.last().0), args.last().1);
    }
}

/// Substitution is idempotent where it leaves no placeholder of any of the
/// names behind: substituting the result again changes nothing.
pub proof fn lemma_substitute_idempotent(t: Seq<char>, args: Seq<(Seq<char>, Seq<char>)>)
    requires
        forall|k: int|
            0 <= k < args.len() ==> !occurs(substitute(t, args), placeholder(#[trigger] args[k].0)),
    ensures
        substitute(substitute(t, args), args) == substitute(t, args),
{
    lemma_substitute_absent(substitute(t, args), args);
}

/// An opening or closing brace.
pub open spec fn is_brace(c: char) -> bool {
    c == '{' || c == '}'
}

/// `s` holds no brace.
pub open spec fn brace_free(s: Seq<char>) -> bool {
    forall|i: int| 0 <= i < s.len() ==> !is_brace(s[i])
}

/// The number of characters before the first brace of `s`.
pub open spec fn brace_free_prefix(s: Seq<char>) -> nat
    decreases s.len(),
{
    if s.len() == 0 || is_brace(s[0]) {
        0
    } else {
        1 + brace_free_prefix(s.skip(1))
    }
}

/// Every brace of `s` belongs to a token `{name}` whose name is brace-free.
pub open spec fn braces_in_tokens(s: Seq<char>) -> bool
    decreases s.len(),
{
    if s.len() == 0 {
        true
    } else if !is_brace(s[0]) {
        braces_in_tokens(s.skip(1))
    } else if s[0] == '{' {
        let t = s.skip(1);
        let k = brace_free_prefix(t) as int;
        k < t.len() && t[k] == '}' && braces_in_tokens(t.skip(k + 1))
    } else {
        false
    }
}

proof fn lemma_brace_free_prefix(t: Seq<char>)
    ensures
        brace_free_prefix(t) <= t.len(),
        brace_free(t.take(brace_free_prefix(t) as int)),
        brace_free_prefix(t) < t.len() ==> is_brace(t[brace_free_prefix(t) as int]),
    decreases t.len(),
{
    if t.len() > 0 && !is_brace(t[0]) {
        lemma_brace_free_prefix(t.skip(1));
        let k = brace_free_prefix(t.skip(1)) as int;
        assert forall|i: int| 0 <= i < k + 1 implies !is_brace(#[trigger] t.take(k + 1)[i]) by {
            if i > 0 {
                assert(t.take(k + 1)[i] == t.skip(1).take(k)[i - 1]);
            }
        }
    }
}

proof fn lemma_occurs_suffix(s: Seq<char>, j: int, q: Seq<char>)
    requires
        0 <= j <= s.len(),
        occurs(s.skip(j), q),
    ensures
        occurs(s, q),
{
    let i = choose|i: int| 0 <= i && i + q.len() <= s.skip(j).len() && #[trigger] s.skip(j).subrange(i, i + q.len()) == q;
    assert(s.subrange(i + j, i + j + q.len()) == s.skip(j).subrange(i, i + q.len()));
}

/// No occurrence of `q`, which opens with `{`, in `u + r`: none starts
/// inside `u` but at its front, and there is none at the front or in `r`.
proof fn lemma_occurs_concat(u: Seq<char>, r: Seq<char>, q: Seq<char>)
    requires
        q.len() > 0,
        q[0] == '{',
        forall|i: int| 1 <= i < u.len() ==> u[i] != '{',
        u.len() > 0 && q.len() <= u.len() + r.len() ==> (u + r).subrange(0, q.len() as int) != q,
        !occurs(r, q),
    ensures
        !occurs(u + r, q),
{
    let s = u + r;
    assert forall|i: int| 0 <= i && i + q.len() <= s.len() implies #[trigger] s.subrange(i, i + q.len()) != q by {
        if i < u.len() {
            if i > 0 {
                assert(s.subrange(i, i + q.len())[0] == u[i]);
            }
        } else {
            let j = i - u.len();
            assert(s.subrange(i, i + q.len()) == r.subrange(j, j + q.len()));
        }
    }
}

/// A token `{n}` at the front is the placeholder of `b` only when `n == b`.
proof fn lemma_token_front(n: Seq<char>, b: Seq<char>, r: Seq<char>)
    requires
        brace_free(n),
        brace_free(b),
        placeholder(b).len() <= placeholder(n).len() + r.len(),
        (placeholder(n) + r).subrange(0, placeholder(b).len() as int) == placeholder(b),
    ensures
        n == b,
{
    let s = placeholder(n) + r;
    let q = placeholder(b);
    if b.len() < n.len() {
        assert(s.subrange(0, q.len() as int)[b.len() as int + 1] == n[b.len() as int]);
    } else if b.len() > n.len() {
        assert(s.subrange(0, q.len() as int)[n.len() as int + 1] == '}');
        assert(q[n.len() as int + 1] == b[n.len() as int]);
    } else {
        assert forall|i: int| 0 <= i < n.len() implies n[i] == b[i] by {
            assert(s.subrange(0, q.len() as int)[i + 1] == q[i + 1]);
        }
        assert(n == b);
    }
}

/// Text without `{` passes through a replacement of a placeholder as it is.
proof fn lemma_replace_open_free(u: Seq<char>, r: Seq<char>, a: Seq<char>, x: Seq<char>)
    requires
        forall|i: int| 0 <= i < u.len() ==> u[i] != '{',
    ensures
        replace_all(u + r, placeholder(a), x) == u + replace_all(r, placeholder(a), x),
    decreases u.len(),
{
    let p = placeholder(a);
    if u.len() > 0 {
        let s = u + r;
        if s.len() < p.len() {
            assert(replace_all(r, p, x) == r);
        } else {
            assert(s.take(p.len() as int)[0] != p[0]);
            assert(s.skip(1) == u.skip(1) + r);
            lemma_replace_open_free(u.skip(1), r, a, x);
            assert(seq![u[0]] + u.skip(1) == u);
            assert(seq![s[0]] + (u.skip(1) + replace_all(r, p, x)) == u + replace_all(r, p, x));
        }
    }
}

proof fn lemma_tokens_concat_free(u: Seq<char>, r: Seq<char>)
    requires
        brace_free(u),
        braces_in_tokens(r),
    ensures
        braces_in_tokens(u + r),
    decreases u.len(),
{
    if u.len() > 0 {
        lemma_tokens_concat_free(u.skip(1), r);
        assert((u + r).skip(1) == u.skip(1) + r);
    }
}

proof fn lemma_tokens_concat_token(n: Seq<char>, r: Seq<char>)
    requires
        brace_free(n),
        braces_in_tokens(r),
    ensures
        braces_in_tokens(placeholder(n) + r),
{
    let s = placeholder(n) + r;
    let t = s.skip(1);
    assert(t == n + (seq!['}'] + r));
    lemma_brace_free_prefix(t);
    let k = brace_free_prefix(t) as int;
    if k < n.len() {
        assert(t[k] == n[k]);
    } else if k > n.len() {
        assert(t.take(k)[n.len() as int] == '}');
    }
    assert(k == n.len());
    assert(t.skip(k + 1) == r);
}

proof fn lemma_replace_token_other(n: Seq<char>, rest: Seq<char>, a: Seq<char>, x: Seq<char>)
    requires
        brace_free(n),
        brace_free(a),
        n != a,
    ensures
        replace_all(placeholder(n) + rest, placeholder(a), x) == placeholder(n) + replace_all(
            rest,
            placeholder(a),
            x,
        ),
{
    let p = placeholder(a);
    let s = placeholder(n) + rest;
    let u = n + seq!['}'];
    assert(s.skip(1) == u + rest);
    assert(seq![s[0]] + u == placeholder(n));
    lemma_replace_open_free(u, rest, a, x);
    if s.len() < p.len() {
        assert(replace_all(rest, p, x) == rest);
    } else {
        assert(s.take(p.len() as int) != p) by {
            if s.take(p.len() as int) == p {
                assert(s.subrange(0, p.len() as int) == s.take(p.len() as int));
                lemma_token_front(n, a, rest);
            }
        }
    }
}

/// One replacement of the placeholder of a brace-free name by a brace-free
/// value keeps the braces in tokens, leaves no placeholder of that name,
/// and brings in no placeholder of another brace-free name.
proof fn lemma_replace_tokens(s: Seq<char>, a: Seq<char>, x: Seq<char>, b: Seq<char>)
    requires
        braces_in_tokens(s),
        brace_free(a),
        brace_free(x),
        brace_free(b),
        b == a || !occurs(s, placeholder(b)),
    ensures
        braces_in_tokens(replace_all(s, placeholder(a), x)),
        !occurs(replace_all(s, placeholder(a), x), placeholder(b)),
    decreases s.len(),
{
    let p = placeholder(a);
    let q = placeholder(b);
    let out = replace_all(s, p, x);
    if s.len() == 0 {
    } else if !is_brace(s[0]) {
        let t = s.skip(1);
        assert(seq![s[0]] + t == s);
        if b != a {
            assert(!occurs(t, q)) by {
                if occurs(t, q) {
                    lemma_occurs_suffix(s, 1, q);
                }
            }
        }
        lemma_replace_tokens(t, a, x, b);
        lemma_replace_open_free(seq![s[0]], t, a, x);
        lemma_tokens_concat_free(seq![s[0]], replace_all(t, p, x));
        let r1 = replace_all(t, p, x);
        if q.len() <= 1 + r1.len() {
            assert((seq![s[0]] + r1).subrange(0, q.len() as int)[0] == s[0]);
        }
        lemma_occurs_concat(seq![s[0]], r1, q);
    } else {
        let t = s.skip(1);
        lemma_brace_free_prefix(t);
        let k = brace_free_prefix(t) as int;
        let n = t.take(k);
        let rest = t.skip(k + 1);
        assert(s == placeholder(n) + rest);
        if b != a {
            assert(!occurs(rest, q)) by {
                if occurs(rest, q) {
                    assert(s.skip(k + 2) == rest);
                    lemma_occurs_suffix(s, k + 2, q);
                }
            }
        }
        lemma_replace_tokens(rest, a, x, b);
        let r2 = replace_all(rest, p, x);
        if n == a {
            assert(s.take(p.len() as int) == p);
            assert(s.skip(p.len() as int) == rest);
            assert(out == x + r2);
            lemma_tokens_concat_free(x, r2);
            assert forall|i: int| 1 <= i < x.len() implies x[i] != '{' by {}
            if x.len() > 0 && q.len() <= x.len() + r2.len() {
                assert((x + r2).subrange(0, q.len() as int)[0] == x[0]);
            }
            if x.len() == 0 {
                assert(x + r2 == r2);
            } else {
                lemma_occurs_concat(x, r2, q);
            }
        } else {
            lemma_replace_token_other(n, rest, a, x);
            assert(out == placeholder(n) + r2);
            lemma_tokens_concat_token(n, r2);
            assert forall|i: int| 1 <= i < placeholder(n).len() implies placeholder(n)[i] != '{' by {}
            if q.len() <= placeholder(n).len() + r2.len() {
                assert((placeholder(n) + r2).subrange(0, q.len() as int) != q) by {
                    if (placeholder(n) + r2).subrange(0, q.len() as int) == q {
                        lemma_token_front(n, b, r2);
                        let z: int = 0;
                        assert(s.subrange(z, z + q.len()) =~= placeholder(n));
                        assert(b != a ==> occurs(s, q));
                    }
                }
            }
            lemma_occurs_concat(placeholder(n), r2, q);
        }
    }
}

/// Every name and every value of `args` is brace-free.
pub open spec fn args_brace_free(args: Seq<(Seq<char>, Seq<char>)>) -> bool {
    forall|k: int| 0 <= k < args.len() ==> brace_free(#[trigger] args[k].0) && brace_free(args[k].1)
}

proof fn lemma_substitute_tokens(t: Seq<char>, args: Seq<(Seq<char>, Seq<char>)>)
    requires
        braces_in_tokens(t),
        args_brace_free(args),
    ensures
        braces_in_tokens(substitute(t, args)),
        forall|k: int|
            0 <= k < args.len() ==> !occurs(substitute(t, args), placeholder(#[trigger] args[k].0)),
    decreases args.len(),
{
    if args.len() > 0 {
        let init = args.drop_last();
        assert forall|k: int| 0 <= k < init.len() implies brace_free(#[trigger] init[k].0)
            && brace_free(init[k].1) by {
            assert(init[k] == args[k]);
        }
        lemma_substitute_tokens(t, init);
        let prev = substitute(t, init);
        let (a, x) = args.last();
        assert(brace_free(args[args.len() - 1].0) && brace_free(args[args.len() - 1].1));
        lemma_replace_tokens(prev, a, x, a);
        assert forall|k: int| 0 <= k < args.len() implies !occurs(
            substitute(t, args),
            placeholder(#[trigger] args[k].0),
        ) by {
            if k < init.len() {
                assert(init[k] == args[k]);
                lemma_replace_tokens(prev, a, x, args[k].0);
            }
        }
    }
}

/// Substitution is idempotent on a template whose braces all belong to
/// tokens `{name}` with brace-free names, when every name and value given
/// is brace-free: substituting the result again changes nothing.
pub proof fn lemma_substitute_idempotent_in_tokens(t: Seq<char>, args: Seq<(Seq<char>, Seq<char>)>)
    requires
        braces_in_tokens(t),
        args_brace_free(args),
    ensures
        substitute(substitute(t, args), args) == substitute(t, args),
{
    lemma_substitute_tokens(t, args);
    lemma_substitute_idempotent(t, args);
}

/// The value of the first pair of `args` named `n`, if any.
pub open spec fn first_value(args: Seq<(Seq<char>, Seq<char>)>, n: Seq<char>) -> Option<Seq<char>>
    decreases args.len(),
{
    if args.len() == 0 {
        None
    } else if args[0].0 == n {
        Some(args[0].1)
    } else {
        first_value(args.skip(1), n)
    }
}

/// Token by token: each `{n}` becomes the value of the first pair named `n`,
/// or stays when there is none; other characters stay.
pub open spec fn token_substitute(s: Seq<char>, args: Seq<(Seq<char>, Seq<char>)>) -> Seq<char>
    decreases s.len(),
{
    if s.len() == 0 {
        s
    } else if !is_brace(s[0]) {
        seq![s[0]] + token_substitute(s.skip(1), args)
    } else if s[0] == '{' {
        let t = s.skip(1);
        let k = brace_free_prefix(t) as int;
        if k < t.len() && t[k] == '}' {
            let n = t.take(k);
            let w = match first_value(args, n) {
                Some(v) => v,
                None => placeholder(n),
            };
            w + token_substitute(t.skip(k + 1), args)
        } else {
            s
        }
    } else {
        s
    }
}

proof fn lemma_first_value_push(args: Seq<(Seq<char>, Seq<char>)>, p: (Seq<char>, Seq<char>), n: Seq<char>)
    ensures
        first_value(args.push(p), n) == (if first_value(args, n) is Some {
            first_value(args, n)
        } else if p.0 == n {
            Some(p.1)
        } else {
            None
        }),
    decreases args.len(),
{
    if args.len() > 0 {
        assert(args.push(p)[0] == args[0]);
        assert(args.push(p).skip(1) == args.skip(1).push(p));
        lemma_first_value_push(args.skip(1), p, n);
    } else {
        assert(args.push(p)[0] == p);
        assert(args.push(p).skip(1) == Seq::<(Seq<char>, Seq<char>)>::empty());
        assert(first_value(Seq::<(Seq<char>, Seq<char>)>::empty(), n) is None);
    }
}

proof fn lemma_first_value_in(args: Seq<(Seq<char>, Seq<char>)>, n: Seq<char>)
    ensures
        first_value(args, n) is Some ==> args.contains((n, first_value(args, n)->Some_0)),
        first_value(args, n) is None ==> forall|k: int| 0 <= k < args.len() ==> (#[trigger] args[k]).0 != n,
    decreases args.len(),
{
    if args.len() > 0 {
        lemma_first_value_in(args.skip(1), n);
        if args[0].0 != n {
            if first_value(args, n) is Some {
                let k = choose|k: int| 0 <= k < args.skip(1).len() && args.skip(1)[k] == (n, first_value(args, n)->Some_0);
                assert(args[k + 1] == args.skip(1)[k]);
            }
            assert forall|k: int| 0 <= k < args.len() && first_value(args, n) is None implies (#[trigger] args[k]).0 != n by {
                if k > 0 {
                    assert(args[k] == args.skip(1)[k - 1]);
                }
            }
        } else {
            assert(args[0] == (n, args[0].1));
        }
    }
}

proof fn lemma_first_value_brace_free(args: Seq<(Seq<char>, Seq<char>)>, n: Seq<char>)
    requires
        args_brace_free(args),
    ensures
        first_value(args, n) is Some ==> brace_free(first_value(args, n)->Some_0),
{
    lemma_first_value_in(args, n);
    if first_value(args, n) is Some {
        let k = choose|k: int| 0 <= k < args.len() && args[k] == (n, first_value(args, n)->Some_0);
        assert(brace_free(args[k].0));
    }
}

/// Splits a template that opens with `{` into its first token and the rest.
proof fn lemma_token_split(s: Seq<char>)
    requires
        braces_in_tokens(s),
        s.len() > 0,
        s[0] == '{',
    ensures
        ({
            let t = s.skip(1);
            let k = brace_free_prefix(t) as int;
            &&& k < t.len() && t[k] == '}'
            &&& brace_free(t.take(k))
            &&& s == placeholder(t.take(k)) + t.skip(k + 1)
            &&& braces_in_tokens(t.skip(k + 1))
        }),
{
    let t = s.skip(1);
    lemma_brace_free_prefix(t);
    let k = brace_free_prefix(t) as int;
    assert(s == placeholder(t.take(k)) + t.skip(k + 1));
}

proof fn lemma_token_substitute_empty(s: Seq<char>)
    requires
        braces_in_tokens(s),
    ensures
        token_substitute(s, Seq::empty()) == s,
    decreases s.len(),
{
    if s.len() > 0 {
        if !is_brace(s[0]) {
            lemma_token_substitute_empty(s.skip(1));
            assert(seq![s[0]] + s.skip(1) == s);
        } else {
            lemma_token_split(s);
            let t = s.skip(1);
            let k = brace_free_prefix(t) as int;
            lemma_token_substitute_empty(t.skip(k + 1));
        }
    }
}

proof fn lemma_token_substitute_push(s: Seq<char>, init: Seq<(Seq<char>, Seq<char>)>, a: Seq<char>, x: Seq<char>)
    requires
        braces_in_tokens(s),
        args_brace_free(init),
        brace_free(a),
        brace_free(x),
    ensures
        replace_all(token_substitute(s, init), placeholder(a), x) == token_substitute(s, init.push((a, x))),
    decreases s.len(),
{
    let p = placeholder(a);
    let args = init.push((a, x));
    if s.len() == 0 {
    } else if !is_brace(s[0]) {
        lemma_token_substitute_push(s.skip(1), init, a, x);
        lemma_replace_open_free(seq![s[0]], token_substitute(s.skip(1), init), a, x);
    } else {
        lemma_token_split(s);
        let t = s.skip(1);
        let k = brace_free_prefix(t) as int;
        let n = t.take(k);
        let rest = t.skip(k + 1);
        lemma_token_substitute_push(rest, init, a, x);
        let r0 = token_substitute(rest, init);
        lemma_first_value_push(init, (a, x), n);
        lemma_first_value_brace_free(init, n);
        if first_value(init, n) is Some {
            let v = first_value(init, n)->Some_0;
            lemma_replace_open_free(v, r0, a, x);
        } else if n == a {
            let u = p + r0;
            assert(u.take(p.len() as int) == p);
            assert(u.skip(p.len() as int) == r0);
        } else {
            lemma_replace_token_other(n, r0, a, x);
        }
    }
}

proof fn lemma_substitute_is_token_substitute(s: Seq<char>, args: Seq<(Seq<char>, Seq<char>)>)
    requires
        braces_in_tokens(s),
        args_brace_free(args),
    ensures
        substitute(s, args) == token_substitute(s, args),
    decreases args.len(),
{
    if args.len() == 0 {
        lemma_token_substitute_empty(s);
        assert(args == Seq::<(Seq<char>, Seq<char>)>::empty());
    } else {
        let init = args.drop_last();
        assert forall|k: int| 0 <= k < init.len() implies brace_free(#[trigger] init[k].0)
            && brace_free(init[k].1) by {
            assert(init[k] == args[k]);
        }
        lemma_substitute_is_token_substitute(s, init);
        let (a, x) = args.last();
        assert(brace_free(args[args.len() - 1].0) && brace_free(args[args.len() - 1].1));
        lemma_token_substitute_push(s, init, a, x);
        assert(init.push((a, x)) == args);
        assert(substitute(s, args) == replace_all(substitute(s, init), placeholder(a), x));
    }
}

proof fn lemma_token_substitute_same_values(s: Seq<char>, args: Seq<(Seq<char>, Seq<char>)>, other: Seq<(Seq<char>, Seq<char>)>)
    requires
        forall|n: Seq<char>| #[trigger] first_value(args, n) == first_value(other, n),
    ensures
        token_substitute(s, args) == token_substitute(s, other),
    decreases s.len(),
{
    if s.len() > 0 {
        if !is_brace(s[0]) {
            lemma_token_substitute_same_values(s.skip(1), args, other);
        } else if s[0] == '{' {
            let t = s.skip(1);
            let k = brace_free_prefix(t) as int;
            if k < t.len() && t[k] == '}' {
                assert(first_value(args, t.take(k)) == first_value(other, t.take(k)));
                lemma_token_substitute_same_values(t.skip(k + 1), args, other);
            }
        }
    }
}

/// No two pairs of `args` share a name.
pub open spec fn names_distinct(args: Seq<(Seq<char>, Seq<char>)>) -> bool {
    forall|i: int, j: int| 0 <= i < j < args.len() ==> (#[trigger] args[i]).0 != (#[trigger] args[j]).0
}

/// On a template whose braces all belong to tokens `{name}` with brace-free
/// names, with brace-free names and values and no name given twice, the
/// result does not depend on the order of the pairs: any list holding the
/// same pairs gives the same text.
pub proof fn lemma_substitute_order_free(
    t: Seq<char>,
    args: Seq<(Seq<char>, Seq<char>)>,
    perm: Seq<(Seq<char>, Seq<char>)>,
)
    requires
        braces_in_tokens(t),
        args_brace_free(args),
        names_distinct(args),
        forall|p: (Seq<char>, Seq<char>)| args.contains(p) <==> perm.contains(p),
    ensures
        substitute(t, perm) == substitute(t, args),
{
    assert forall|k: int| 0 <= k < perm.len() implies brace_free(#[trigger] perm[k].0)
        && brace_free(perm[k].1) by {
        assert(perm.contains(perm[k]));
        let j = choose|j: int| 0 <= j < args.len() && args[j] == perm[k];
    }
    assert forall|n: Seq<char>| #[trigger] first_value(args, n) == first_value(perm, n) by {
        lemma_first_value_in(args, n);
        lemma_first_value_in(perm, n);
        if first_value(perm, n) is Some {
            let v = first_value(perm, n)->Some_0;
            assert(args.contains((n, v)));
            let j = choose|j: int| 0 <= j < args.len() && args[j] == (n, v);
            if first_value(args, n) is Some {
                let w = first_value(args, n)->Some_0;
                let i = choose|i: int| 0 <= i < args.len() && args[i] == (n, w);
                if i < j {
                    assert(args[i].0 != args[j].0);
                } else if j < i {
                    assert(args[j].0 != args[i].0);
                }
            } else {
                assert(args[j].0 != n);
            }
        } else if first_value(args, n) is Some {
            let w = first_value(args, n)->Some_0;
            assert(perm.contains((n, w)));
            let j = choose|j: int| 0 <= j < perm.len() && perm[j] == (n, w);
            assert(perm[j].0 != n);
        }
    }
    lemma_substitute_is_token_substitute(t, args);
    lemma_substitute_is_token_substitute(t, perm);
    lemma_token_substitute_same_values(t, args, perm);
}

/// Copies the characters of a string into a vector.
fn chars_of(s: &str) -> (r: Vec<char>)
    ensures
        r@ == s@,
{
    let n = s.unicode_len();
    let mut r: Vec<char> = Vec::new();
    let mut i: usize = 0;
    while i < n
        invariant
            n == s@.len(),
            0 <= i <= n,
            r@ == s@.take(i as int),
        decreases n - i,
    {
        r.push(s.get_char(i));
        i = i + 1;
        assert(r@ == s@.take(i as int));
    }
    assert(s@.take(n as int) == s@);
    r
}

/// Whether `p` occurs in `s` at position `i`.
fn occurs_at(s: &Vec<char>, i: usize, p: &Vec<char>) -> (r: bool)
    requires
        i + p@.len() <= s@.len(),
    ensures
        r == (s@.subrange(i as int, i + p@.len()) == p@),
{
    let n = s.len();
    let mut j: usize = 0;
    while j < p.len()
        invariant
            n == s@.len(),
            i + p@.len() <= s@.len(),
            0 <= j <= p@.len(),
            forall|k: int| 0 <= k < j ==> s@[i + k] == p@[k],
        decreases p@.len() - j,
    {
        if s[i + j] != p[j] {
            assert(s@.subrange(i as int, i + p@.len())[j as int] != p@[j as int]);
            return false;
        }
        j = j + 1;
    }
    assert(s@.subrange(i as int, i + p@.len()) == p@);
    true
}

proof fn lemma_replace_step(s: Seq<char>, i: int, pat: Seq<char>, rep: Seq<char>)
    requires
        pat.len() > 0,
        0 <= i,
        i + pat.len() <= s.len(),
    ensures
        s.subrange(i, i + pat.len()) == pat ==> replace_all(s.skip(i), pat, rep) == rep
            + replace_all(s.skip(i + pat.len()), pat, rep),
        s.subrange(i, i + pat.len()) != pat ==> replace_all(s.skip(i), pat, rep) == seq![s[i]]
            + replace_all(s.skip(i + 1), pat, rep),
{
    let t = s.skip(i);
    assert(t.take(pat.len() as int) == s.subrange(i, i + pat.len()));
    assert(t.skip(pat.len() as int) == s.skip(i + pat.len()));
    assert(t.skip(1) == s.skip(i + 1));
    assert(t[0] == s[i]);
}

/// Replaces every non-overlapping occurrence of `pat` in `s`, left to right.
pub fn replace_str(s: &str, pat: &str, rep: &str) -> (r: String)
    requires
        pat@.len() > 0,
    ensures
        r@ == replace_all(s@, pat@, rep@),
{
    let cs = chars_of(s);
    let ps = chars_of(pat);
    let n = cs.len();
    let m = ps.len();
    let mut out = String::new();
    let mut seg: usize = 0;
    let mut i: usize = 0;
    proof {
        assert(s@.skip(0) == s@);
        assert(out@ + s@.subrange(0, 0) == Seq::<char>::empty());
    }
    while m <= n && i <= n - m
        invariant
            cs@ == s@,
            ps@ == pat@,
            n == s@.len(),
            m == pat@.len(),
            m > 0,
            0 <= seg <= i <= n,
            out@ + s@.subrange(seg as int, i as int) + replace_all(s@.skip(i as int), pat@, rep@)
                == replace_all(s@, pat@, rep@),
        decreases n - i,
    {
        proof {
            lemma_replace_step(s@, i as int, pat@, rep@);
        }
        if occurs_at(&cs, i, &ps) {
            let piece = s.substring_char(seg, i);
            out.append(piece);
            out.append(rep);
            proof {
                assert(out@ + s@.subrange(i + m, i + m) + replace_all(s@.skip(i + m), pat@, rep@)
                    == replace_all(s@, pat@, rep@)) by {
                    assert(s@.subrange(i + m, i + m) == Seq::<char>::empty());
                    assert(out@ + s@.subrange(i + m, i + m) == out@);
                };
            }
            i = i + m;
            seg = i;
        } else {
            proof {
                assert(s@.subrange(seg as int, i + 1) == s@.subrange(seg as int, i as int).push(
                    s@[i as int],
                ));
                assert(s@.subrange(seg as int, i + 1) + replace_all(s@.skip(i + 1), pat@, rep@)
                    == s@.subrange(seg as int, i as int) + (seq![s@[i as int]] + replace_all(
                    s@.skip(i + 1),
                    pat@,
                    rep@,
                )));
            }
            i = i + 1;
        }
    }
    proof {
        let t = s@.skip(i as int);
        assert(replace_all(t, pat@, rep@) == t);
        assert(s@.subrange(seg as int, i as int) + t == s@.skip(seg as int));
    }
    let rest = s.substring_char(seg, n);
    proof {
        assert(rest@ == s@.skip(seg as int));
    }
    out.append(rest);
    out
}

/// Replaces each `{name}` in `s` by its value, one pair after the other.
pub fn freplace(s: String, args: &[(&str, &str)]) -> (r: String)
    ensures
        r@ == substitute(s@, args_view(args@)),
{
    let ghost start = s@;
    let mut s = s;
    let mut i: usize = 0;
    while i < args.len()
        invariant
            0 <= i <= args@.len(),
            s@ == substitute(start, args_view(args@.take(i as int))),
        decreases args@.len() - i,
    {
        let (k, v) = args[i];
        let key = String::from_str("{").concat(k).concat("}");
        proof {
            reveal_strlit("{");
            reveal_strlit("}");
            assert(key@ == placeholder(k@));
            let a = args_view(args@.take(i as int + 1));
            assert(a.drop_last() == args_view(args@.take(i as int)));
            assert(a.last() == (k@, v@));
        }
        s = replace_str(s.as_str(), key.as_str(), v);
        i = i + 1;
    }
    assert(args@.take(args@.len() as int) == args@);
    s
}

/// Relies on gettextrs::gettext: the translation of `msgid` in the active
/// catalog. Which catalog is active, if any, is the environment's matter, so
/// nothing is promised of the text. It panics on an interior NUL, and on a
/// translation that is not UTF-8: the host binds the text domain to the
/// UTF-8 codeset before any message is looked up.
#[verifier::external_body]
pub(crate) fn translate(msgid: &str) -> (r: String)
    requires
        !msgid@.contains('\0'),
{
    gettextrs::gettext(msgid)
}

/// Relies on gettextrs::ngettext: the form of `msgid` / `msgid_plural` that
/// the active catalog's plural rule picks for `n`. Nothing is promised of
/// the text. It panics on an interior NUL, and on a translation that is
/// not UTF-8, which the host rules out by binding the UTF-8 codeset.
#[verifier::external_body]
fn translate_plural(msgid: &str, msgid_plural: &str, n: u32) -> (r: String)
    requires
        !msgid@.contains('\0'),
        !msgid_plural@.contains('\0'),
{
    gettextrs::ngettext(msgid, msgid_plural, n)
}

/// Like `gettext`, but replaces named variables with the given dictionary.
///
/// The expected format to replace is `{name}`, where `name` is the first string
/// in the dictionary entry tuple.
pub fn gettext_f(msgid: &str, args: &[(&str, &str)]) -> (r: String)
    requires
        !msgid@.contains('\0'),
    ensures
        exists|t: Seq<char>| r@ == substitute(t, args_view(args@)),
{
    let s = translate(msgid);
    freplace(s, args)
}

/// Like `ngettext`, but replaces named variables with the given dictionary.
///
/// The expected format to replace is `{name}`, where `name` is the first string
/// in the dictionary entry tuple.
pub fn ngettext_f(msgid: &str, msgid_plural: &str, n: u32, args: &[(&str, &str)]) -> (r: String)
    requires
        !msgid@.contains('\0'),
        !msgid_plural@.contains('\0'),
    ensures
        exists|t: Seq<char>| r@ == substitute(t, args_view(args@)),
{
    let s = translate_plural(msgid, msgid_plural, n);
    freplace(s, args)
}

/// The decimal digit for `d`, which is below ten.
pub open spec fn digit_char(d: nat) -> char {
    if d == 0 { '0' } else if d == 1 { '1' } else if d == 2 { '2' } else if d == 3 { '3' }
    else if d == 4 { '4' } else if d == 5 { '5' } else if d == 6 { '6' } else if d == 7 { '7' }
    else if d == 8 { '8' } else { '9' }
}

/// The decimal notation of `n`, without leading zeros.
pub open spec fn decimal(n: nat) -> Seq<char>
    decreases n,
{
    if n < 10 {
        seq![digit_char(n)]
    } else {
        decimal(n / 10) + seq![digit_char(n % 10)]
    }
}

fn digit_str(d: usize) -> (r: &'static str)
    requires
        d < 10,
    ensures
        r@ == seq![digit_char(d as nat)],
{
    proof {
        reveal_strlit("0");
        reveal_strlit("1");
        reveal_strlit("2");
        reveal_strlit("3");
        reveal_strlit("4");
        reveal_strlit("5");
        reveal_strlit("6");
        reveal_strlit("7");
        reveal_strlit("8");
        reveal_strlit("9");
    }
    if d == 0 { "0" } else if d == 1 { "1" } else if d == 2 { "2" } else if d == 3 { "3" }
    else if d == 4 { "4" } else if d == 5 { "5" } else if d == 6 { "6" } else if d == 7 { "7" }
    else if d == 8 { "8" } else { "9" }
}

/// Writes `n` in decimal.
pub fn decimal_string(n: usize) -> (r: String)
    ensures
        r@ == decimal(n as nat),
    decreases n,
{
    if n < 10 {
        String::from_str(digit_str(n))
    } else {
        let mut s = decimal_string(n / 10);
        s.append(digit_str(n % 10));
        s
    }
}

/// The name of the count in the match-count message.
pub open spec fn count_name() -> Seq<char> {
    seq!['m', 'a', 't', 'c', 'h', 'e', 's']
}

/// Fills the count into a match-count template: each `{matches}` becomes
/// the decimal form of `count`.
pub fn format_count_with(template: &str, count: usize) -> (r: String)
    ensures
        r@ == replace_all(template@, placeholder(count_name()), decimal(count as nat)),
{
    let number = decimal_string(count);
    let args = [("matches", number.as_str())];
    let r = freplace(String::from_str(template), &args);
    proof {
        reveal_strlit("matches");
        let a = args_view(args@);
        assert(a.len() == 1);
        assert(a.drop_last() == Seq::<(Seq<char>, Seq<char>)>::empty());
        assert(a.last() == (count_name(), decimal(count as nat)));
        assert(substitute(template@, a.drop_last()) == template@);
        assert(r@ == replace_all(template@, placeholder(count_name()), decimal(count as nat)));
    }
    r
}

/// The match-count message for `count` matches, in the active locale's
/// plural form; counts past `u32::MAX` select the form of `u32::MAX`.
pub fn format_count(count: usize) -> (r: String)
    ensures
        exists|t: Seq<char>| r@ == replace_all(t, placeholder(count_name()), decimal(count as nat)),
{
    let n: u32 = if count > 0xffff_ffff { 0xffff_ffff } else { count as u32 };
    proof {
        reveal_strlit("{matches} match");
        reveal_strlit("{matches} matches");
    }
    let template = translate_plural("{matches} match", "{matches} matches", n);
    format_count_with(template.as_str(), count)
}

} // verus!
