//! The network that a circuit string denotes.
//!
//! Elements written next to each other are connected in series. A bracketed
//! group at an odd nesting depth connects its members in parallel, one at an
//! even depth connects them in series; the whole string is depth zero, so its
//! top level is a series connection. A group that is opened and never closed
//! is left out of the network, and a `)` with no open group before it makes
//! the string unusable.
use vstd::prelude::*;
use crate::syntax::{TokenAt, TokenModel};

verus! {

/// The abstract network: element occurrences, series and parallel groups.
/// The element at a leaf is the `index`-th element (counting from zero)
/// supplied for `key`: the number of earlier occurrences of `key` in the
/// circuit string, dropped groups included.
pub enum Shape {
    Element { key: Seq<char>, index: nat },
    Series { parts: Seq<Shape> },
    Parallel { parts: Seq<Shape> },
}

/// The group that a bracket pair at nesting depth `depth` forms.
pub open spec fn group_shape(depth: nat, parts: Seq<Shape>) -> Shape {
    if depth % 2 == 0 {
        Shape::Series { parts }
    } else {
        Shape::Parallel { parts }
    }
}

/// How many of the tokens in `t` are the element `key`.
pub open spec fn key_count(t: Seq<TokenAt>, key: Seq<char>) -> nat
    decreases t.len(),
{
    if t.len() == 0 {
        0
    } else {
        key_count(t.drop_last(), key) + if t.last().kind == TokenModel::Element(key) {
            1nat
        } else {
            0nat
        }
    }
}

/// The outcome of reading a list of members: the members read, the token
/// position where reading stopped, and whether it stopped at a `)` (else at
/// the end of the tokens).
pub struct Parsed {
    pub parts: Seq<Shape>,
    pub end: int,
    pub closed: bool,
}

/// Reads the members of a group at nesting depth `depth`, starting at token
/// `p`, up to the `)` that ends the group or the end of the tokens. A member
/// is an element, or a bracketed group at depth `depth + 1`; a group whose
/// `)` never comes is dropped, together with everything after it.
pub open spec fn parse_items(t: Seq<TokenAt>, p: int, depth: nat) -> Parsed
    decreases t.len() - p,
{
    if p < 0 || p >= t.len() {
        Parsed { parts: Seq::empty(), end: t.len() as int, closed: false }
    } else {
        match t[p].kind {
            TokenModel::Close => Parsed { parts: Seq::empty(), end: p, closed: true },
            TokenModel::Element(key) => {
                let rest = parse_items(t, p + 1, depth);
                Parsed {
                    parts: seq![Shape::Element { key, index: key_count(t.take(p), key) }]
                        + rest.parts,
                    end: rest.end,
                    closed: rest.closed,
                }
            },
            TokenModel::Open => {
                let inner = parse_items(t, p + 1, depth + 1);
                if !inner.closed {
                    Parsed { parts: Seq::empty(), end: inner.end, closed: false }
                } else if p < inner.end < t.len() {
                    let rest = parse_items(t, inner.end + 1, depth);
                    Parsed {
                        parts: seq![group_shape(depth + 1, inner.parts)] + rest.parts,
                        end: rest.end,
                        closed: rest.closed,
                    }
                } else {
                    Parsed { parts: Seq::empty(), end: t.len() as int, closed: false }
                }
            },
        }
    }
}

/// Whether the tokens hold a `)` that closes no group.
pub open spec fn has_stray_close(t: Seq<TokenAt>) -> bool {
    parse_items(t, 0, 0).closed
}

/// The network that the tokens of a circuit string denote: the series
/// connection of the top-level members.
pub open spec fn circuit_shape(t: Seq<TokenAt>) -> Shape {
    Shape::Series { parts: parse_items(t, 0, 0).parts }
}

/// Where reading stops, and that a `)` is what stops it when it is closed.
pub proof fn lemma_parse_items_end(t: Seq<TokenAt>, p: int, depth: nat)
    requires
        0 <= p <= t.len(),
    ensures
        p <= parse_items(t, p, depth).end <= t.len(),
        parse_items(t, p, depth).closed ==> parse_items(t, p, depth).end < t.len()
            && t[parse_items(t, p, depth).end].kind is Close,
        !parse_items(t, p, depth).closed ==> parse_items(t, p, depth).end == t.len(),
    decreases t.len() - p,
{
    if p < t.len() {
        match t[p].kind {
            TokenModel::Close => {},
            TokenModel::Element(key) => {
                lemma_parse_items_end(t, p + 1, depth);
            },
            TokenModel::Open => {
                lemma_parse_items_end(t, p + 1, depth + 1);
                let inner = parse_items(t, p + 1, depth + 1);
                if inner.closed {
                    lemma_parse_items_end(t, inner.end + 1, depth);
                }
            },
        }
    }
}

/// Reading the tokens from `p` on with a stack of open groups, as the
/// assembly loop does: an element joins the innermost open group, `(` opens a
/// group, `)` closes the innermost one into its parent, and at the end the
/// outermost level is the result; `)` with no open group gives `None`.
pub closed spec fn run_from(t: Seq<TokenAt>, p: int, stack: Seq<Seq<Shape>>) -> Option<Seq<Shape>>
    decreases t.len() - p,
{
    if p < 0 || p >= t.len() || stack.len() == 0 {
        if stack.len() == 0 {
            None
        } else {
            Some(stack[0])
        }
    } else {
        let d = stack.len() - 1;
        match t[p].kind {
            TokenModel::Open => run_from(t, p + 1, stack.push(Seq::empty())),
            TokenModel::Close => if d == 0 {
                None
            } else {
                run_from(t, p + 1, close_group(stack))
            },
            TokenModel::Element(key) => run_from(
                t,
                p + 1,
                stack.update(d, stack[d].push(Shape::Element { key, index: key_count(t.take(p), key) })),
            ),
        }
    }
}

/// The stack after the innermost open group is closed into its parent.
pub open spec fn close_group(stack: Seq<Seq<Shape>>) -> Seq<Seq<Shape>> {
    let d = stack.len() - 1;
    stack.drop_last().update(d - 1, stack[d - 1].push(group_shape(d as nat, stack[d])))
}

/// One step of `run_from`.
pub proof fn lemma_run_step(t: Seq<TokenAt>, p: int, stack: Seq<Seq<Shape>>)
    requires
        0 <= p < t.len(),
        stack.len() >= 1,
    ensures
        run_from(t, p, stack) == (match t[p].kind {
            TokenModel::Open => run_from(t, p + 1, stack.push(Seq::empty())),
            TokenModel::Close => if stack.len() == 1 {
                None
            } else {
                run_from(t, p + 1, close_group(stack))
            },
            TokenModel::Element(key) => run_from(
                t,
                p + 1,
                stack.update(
                    stack.len() - 1,
                    stack[stack.len() - 1].push(Shape::Element { key, index: key_count(t.take(p), key) }),
                ),
            ),
        }),
{
}

/// `run_from` at the end of the tokens.
pub proof fn lemma_run_end(t: Seq<TokenAt>, stack: Seq<Seq<Shape>>)
    requires
        stack.len() >= 1,
    ensures
        run_from(t, t.len() as int, stack) == Some(stack[0]),
{
}

/// The stack reading agrees with the grammar: reading the members of the
/// innermost open group from `p` on adds them to that group, and either stops
/// at the `)` that ends it, or reaches the end of the tokens.
proof fn lemma_run_parse(t: Seq<TokenAt>, p: int, stack: Seq<Seq<Shape>>)
    requires
        0 <= p <= t.len(),
        stack.len() >= 1,
    ensures
        ({
            let d = stack.len() - 1;
            let pr = parse_items(t, p, d as nat);
            run_from(t, p, stack) == if pr.closed {
                run_from(t, pr.end, stack.update(d, stack[d] + pr.parts))
            } else {
                Some(
                    if d == 0 {
                        stack[0] + pr.parts
                    } else {
                        stack[0]
                    },
                )
            }
        }),
    decreases t.len() - p,
{
    let d = stack.len() - 1;
    let pr = parse_items(t, p, d as nat);
    if p == t.len() {
        assert(stack[0] + pr.parts =~= stack[0]);
    } else {
        match t[p].kind {
            TokenModel::Close => {
                assert(stack.update(d, stack[d] + pr.parts) =~= stack);
            },
            TokenModel::Element(key) => {
                let leaf = Shape::Element { key, index: key_count(t.take(p), key) };
                let s1 = stack.update(d, stack[d].push(leaf));
                let rest = parse_items(t, p + 1, d as nat);
                lemma_run_parse(t, p + 1, s1);
                assert(pr.parts == seq![leaf] + rest.parts);
                assert(s1[d] + rest.parts =~= stack[d] + pr.parts);
                assert(s1.update(d, s1[d] + rest.parts) =~= stack.update(d, stack[d] + pr.parts));
                if d == 0 {
                    assert(s1[0] + rest.parts =~= stack[0] + pr.parts);
                }
            },
            TokenModel::Open => {
                let s2 = stack.push(Seq::<Shape>::empty());
                let inner = parse_items(t, p + 1, (d + 1) as nat);
                lemma_run_parse(t, p + 1, s2);
                lemma_parse_items_end(t, p + 1, (d + 1) as nat);
                if inner.closed {
                    let e1 = inner.end;
                    let s3 = s2.update(d + 1, s2[d + 1] + inner.parts);
                    lemma_run_step(t, e1, s3);
                    let g = group_shape((d + 1) as nat, inner.parts);
                    let s4 = stack.update(d, stack[d].push(g));
                    assert(s2[d + 1] + inner.parts =~= inner.parts);
                    assert(close_group(s3) =~= s4);
                    let rest = parse_items(t, e1 + 1, d as nat);
                    lemma_run_parse(t, e1 + 1, s4);
                    assert(pr.parts == seq![g] + rest.parts);
                    assert(s4[d] + rest.parts =~= stack[d] + pr.parts);
                    assert(s4.update(d, s4[d] + rest.parts) =~= stack.update(d, stack[d] + pr.parts));
                    if d == 0 {
                        assert(s4[0] + rest.parts =~= stack[0] + pr.parts);
                    }
                } else {
                    assert(stack[0] + pr.parts =~= stack[0]);
                }
            },
        }
    }
}

/// Reading a whole token sequence with the stack gives the top-level members
/// of the grammar, or `None` exactly when there is a stray `)`.
pub proof fn lemma_run_whole(t: Seq<TokenAt>)
    ensures
        run_from(t, 0, seq![Seq::<Shape>::empty()]) == if has_stray_close(t) {
            None
        } else {
            Some(parse_items(t, 0, 0).parts)
        },
{
    let s0 = seq![Seq::<Shape>::empty()];
    let pr = parse_items(t, 0, 0);
    lemma_run_parse(t, 0, s0);
    lemma_parse_items_end(t, 0, 0);
    if pr.closed {
        lemma_run_step(t, pr.end, s0.update(0, s0[0] + pr.parts));
    } else {
        assert(s0[0] + pr.parts =~= pr.parts);
    }
}

/// Every group directly inside a series connection is a parallel connection,
/// and every group directly inside a parallel connection is a series one.
pub open spec fn alternating(sh: Shape) -> bool
    decreases sh,
{
    match sh {
        Shape::Element { .. } => true,
        Shape::Series { parts } => forall|i: int|
            0 <= i < parts.len() ==> !(parts[i] is Series) && #[trigger] alternating(parts[i]),
        Shape::Parallel { parts } => forall|i: int|
            0 <= i < parts.len() ==> !(parts[i] is Parallel) && #[trigger] alternating(parts[i]),
    }
}

/// The members read at depth `depth` are alternating, and none of them has
/// the kind of a group at that depth.
proof fn lemma_parse_items_alternating(t: Seq<TokenAt>, p: int, depth: nat)
    requires
        0 <= p <= t.len(),
    ensures
        forall|i: int|
            0 <= i < parse_items(t, p, depth).parts.len() ==> {
                let m = #[trigger] parse_items(t, p, depth).parts[i];
                &&& alternating(m)
                &&& depth % 2 == 0 ==> !(m is Series)
                &&& depth % 2 == 1 ==> !(m is Parallel)
            },
    decreases t.len() - p,
{
    if p < t.len() {
        match t[p].kind {
            TokenModel::Close => {},
            TokenModel::Element(key) => {
                lemma_parse_items_alternating(t, p + 1, depth);
                let rest = parse_items(t, p + 1, depth);
                let parts = parse_items(t, p, depth).parts;
                assert forall|i: int| 1 <= i < parts.len() implies parts[i] == rest.parts[i - 1] by {}
            },
            TokenModel::Open => {
                lemma_parse_items_alternating(t, p + 1, depth + 1);
                lemma_parse_items_end(t, p + 1, depth + 1);
                let inner = parse_items(t, p + 1, depth + 1);
                if inner.closed {
                    lemma_parse_items_alternating(t, inner.end + 1, depth);
                    let rest = parse_items(t, inner.end + 1, depth);
                    let parts = parse_items(t, p, depth).parts;
                    let g = group_shape(depth + 1, inner.parts);
                    assert(alternating(g));
                    assert forall|i: int| 1 <= i < parts.len() implies parts[i] == rest.parts[i
                        - 1] by {}
                }
            },
        }
    }
}

/// Bracketing alternates: in the network of any circuit string, the groups
/// directly inside a series connection are parallel connections, and those
/// directly inside a parallel connection are series connections.
pub proof fn lemma_circuit_shape_alternating(t: Seq<TokenAt>)
    ensures
        alternating(circuit_shape(t)),
{
    lemma_parse_items_alternating(t, 0, 0);
}

/// Two occurrences of the same element name are given different elements:
/// the earlier occurrence the earlier element.
pub proof fn lemma_occurrences_distinct(t: Seq<TokenAt>, j1: int, j2: int, key: Seq<char>)
    requires
        0 <= j1 < j2 <= t.len(),
        t[j1].kind == TokenModel::Element(key),
    ensures
        key_count(t.take(j1), key) < key_count(t.take(j2), key),
    decreases j2 - j1,
{
    assert(t.take(j2).drop_last() =~= t.take(j2 - 1));
    if j2 - 1 > j1 {
        lemma_occurrences_distinct(t, j1, j2 - 1, key);
    } else {
        assert(t.take(j2).last() == t[j1]);
    }
}

/// The element leaf for the token at `j`, which must be an element.
pub open spec fn leaf_at(t: Seq<TokenAt>, j: int) -> Shape {
    Shape::Element { key: t[j].kind->Element_0, index: key_count(t.take(j), t[j].kind->Element_0) }
}

proof fn lemma_parse_items_flat(t: Seq<TokenAt>, p: int, depth: nat)
    requires
        0 <= p <= t.len(),
        forall|j: int| 0 <= j < t.len() ==> (#[trigger] t[j].kind is Element),
    ensures
        !parse_items(t, p, depth).closed,
        parse_items(t, p, depth).parts == Seq::new((t.len() - p) as nat, |j: int| leaf_at(t, p + j)),
    decreases t.len() - p,
{
    if p < t.len() {
        assert(t[p].kind is Element);
        lemma_parse_items_flat(t, p + 1, depth);
        assert(parse_items(t, p, depth).parts =~= Seq::new(
            (t.len() - p) as nat,
            |j: int| leaf_at(t, p + j),
        ));
    } else {
        assert(parse_items(t, p, depth).parts =~= Seq::new(
            (t.len() - p) as nat,
            |j: int| leaf_at(t, p + j),
        ));
    }
}

/// A circuit string without brackets is the series connection of its
/// elements, in the order written.
pub proof fn lemma_no_brackets_series(t: Seq<TokenAt>)
    requires
        forall|j: int| 0 <= j < t.len() ==> (#[trigger] t[j].kind is Element),
    ensures
        !has_stray_close(t),
        circuit_shape(t) == (Shape::Series { parts: Seq::new(t.len(), |j: int| leaf_at(t, j)) }),
{
    lemma_parse_items_flat(t, 0, 0);
    assert(Seq::new((t.len() - 0) as nat, |j: int| leaf_at(t, 0 + j)) =~= Seq::new(
        t.len(),
        |j: int| leaf_at(t, j),
    ));
}

/// Reading the members from `p` on at depth `depth` meets no group that is
/// left open: every `(` read is matched by a `)`.
pub open spec fn groups_closed(t: Seq<TokenAt>, p: int, depth: nat) -> bool
    decreases t.len() - p,
{
    if p < 0 || p >= t.len() {
        true
    } else {
        match t[p].kind {
            TokenModel::Close => true,
            TokenModel::Element(_) => groups_closed(t, p + 1, depth),
            TokenModel::Open => {
                let inner = parse_items(t, p + 1, depth + 1);
                &&& inner.closed
                &&& groups_closed(t, p + 1, depth + 1)
                &&& (p < inner.end < t.len() ==> groups_closed(t, inner.end + 1, depth))
            },
        }
    }
}

/// Reading a token sequence that closes every group it opens is not
/// changed by what follows it: either it stops at a `)` inside it, or it
/// reads all of it and then goes on into what follows.
proof fn lemma_parse_items_prefix(a: Seq<TokenAt>, r: Seq<TokenAt>, p: int, depth: nat)
    requires
        0 <= p <= a.len(),
        groups_closed(a, p, depth),
    ensures
        ({
            let pa = parse_items(a, p, depth);
            let pt = parse_items(a + r, p, depth);
            let after = parse_items(a + r, a.len() as int, depth);
            if pa.closed {
                pt == pa
            } else {
                pt == Parsed { parts: pa.parts + after.parts, end: after.end, closed: after.closed }
            }
        }),
    decreases a.len() - p,
{
    let t = a + r;
    let pa = parse_items(a, p, depth);
    let after = parse_items(t, a.len() as int, depth);
    if p == a.len() {
        assert(pa.parts + after.parts =~= after.parts);
    } else {
        assert(t[p] == a[p]);
        assert(t.take(p) =~= a.take(p));
        match a[p].kind {
            TokenModel::Close => {},
            TokenModel::Element(key) => {
                lemma_parse_items_prefix(a, r, p + 1, depth);
                let ra = parse_items(a, p + 1, depth);
                if !ra.closed {
                    assert(pa.parts + after.parts =~= seq![Shape::Element { key, index: key_count(a.take(p), key) }] + (ra.parts + after.parts));
                }
            },
            TokenModel::Open => {
                lemma_parse_items_prefix(a, r, p + 1, depth + 1);
                lemma_parse_items_end(a, p + 1, depth + 1);
                lemma_parse_items_end(t, p + 1, depth + 1);
                let inner = parse_items(a, p + 1, depth + 1);
                let e1 = inner.end;
                lemma_parse_items_prefix(a, r, e1 + 1, depth);
                lemma_parse_items_end(a, e1 + 1, depth);
                let ra = parse_items(a, e1 + 1, depth);
                if !ra.closed {
                    let g = group_shape(depth + 1, inner.parts);
                    assert(pa.parts + after.parts =~= seq![g] + (ra.parts + after.parts));
                }
            },
        }
    }
}

/// A group that is opened and never closed is left out: when `a` closes
/// every group it opens and has no stray `)`, appending a `(` whose group
/// is never closed, and anything after it, leaves the network of `a` as it
/// is.
pub proof fn lemma_unclosed_group_ignored(a: Seq<TokenAt>, o: TokenAt, b: Seq<TokenAt>)
    requires
        groups_closed(a, 0, 0),
        !has_stray_close(a),
        (o.kind is Open),
        !parse_items(a + seq![o] + b, a.len() + 1int, 1).closed,
    ensures
        !has_stray_close(a + seq![o] + b),
        circuit_shape(a + seq![o] + b) == circuit_shape(a),
{
    let r = seq![o] + b;
    let t = a + r;
    assert(a + seq![o] + b =~= t);
    lemma_parse_items_prefix(a, r, 0, 0);
    assert(t[a.len() as int] == o);
    let after = parse_items(t, a.len() as int, 0);
    assert(after.parts =~= Seq::<Shape>::empty());
    assert(parse_items(a, 0, 0).parts + after.parts =~= parse_items(a, 0, 0).parts);
}

/// How many more groups have been opened than closed in `t`.
pub open spec fn bracket_balance(t: Seq<TokenAt>) -> int
    decreases t.len(),
{
    if t.len() == 0 {
        0
    } else {
        bracket_balance(t.drop_last()) + match t.last().kind {
            TokenModel::Open => 1int,
            TokenModel::Close => -1int,
            TokenModel::Element(_) => 0int,
        }
    }
}

/// The balance of the tokens from `p` up to `q`.
pub open spec fn balance_between(t: Seq<TokenAt>, p: int, q: int) -> int {
    bracket_balance(t.subrange(p, q))
}

/// The token kinds of `t`, in order.
pub open spec fn kinds(t: Seq<TokenAt>) -> Seq<TokenModel> {
    t.map_values(|x: TokenAt| x.kind)
}

/// A circuit string's tokens are balanced: no `)` ever closes more groups
/// than have been opened, and in the end every group is closed.
pub open spec fn balanced(t: Seq<TokenAt>) -> bool {
    &&& bracket_balance(t) == 0
    &&& forall|j: int| 0 <= j <= t.len() ==> bracket_balance(#[trigger] t.take(j)) >= 0
}

/// A network written out as a circuit string: an element as its name, a
/// group as its members in brackets.
pub open spec fn written(sh: Shape) -> Seq<TokenModel>
    decreases sh,
{
    match sh {
        Shape::Element { key, .. } => seq![TokenModel::Element(key)],
        Shape::Series { parts } => seq![TokenModel::Open] + written_all(parts) + seq![TokenModel::Close],
        Shape::Parallel { parts } => seq![TokenModel::Open] + written_all(parts) + seq![
            TokenModel::Close,
        ],
    }
}

/// Networks written out one after the other.
pub open spec fn written_all(parts: Seq<Shape>) -> Seq<TokenModel>
    decreases parts,
{
    if parts.len() == 0 {
        Seq::empty()
    } else {
        written(parts[0]) + written_all(parts.drop_first())
    }
}

/// The element leaves of a network, left to right.
pub open spec fn leaves(sh: Shape) -> Seq<Shape>
    decreases sh,
{
    match sh {
        Shape::Element { .. } => seq![sh],
        Shape::Series { parts } => leaves_all(parts),
        Shape::Parallel { parts } => leaves_all(parts),
    }
}

/// The element leaves of networks one after the other.
pub open spec fn leaves_all(parts: Seq<Shape>) -> Seq<Shape>
    decreases parts,
{
    if parts.len() == 0 {
        Seq::empty()
    } else {
        leaves(parts[0]) + leaves_all(parts.drop_first())
    }
}

/// The element tokens from `p` up to `q`, each as the `n`-th element of its
/// name, `n` being the number of earlier tokens of that name.
pub open spec fn leaves_between(t: Seq<TokenAt>, p: int, q: int) -> Seq<Shape>
    decreases q - p,
{
    if p >= q {
        Seq::empty()
    } else {
        (match t[p].kind {
            TokenModel::Element(key) => seq![Shape::Element { key, index: key_count(t.take(p), key) }],
            _ => Seq::empty(),
        }) + leaves_between(t, p + 1, q)
    }
}

/// `key_count` counts: none in the empty sequence, one per matching token,
/// and the counts of two pieces add up.
pub proof fn lemma_key_count_counts(s1: Seq<TokenAt>, s2: Seq<TokenAt>, x: TokenAt, key: Seq<char>)
    ensures
        key_count(Seq::empty(), key) == 0,
        key_count(seq![x], key) == if x.kind == TokenModel::Element(key) {
            1nat
        } else {
            0nat
        },
        key_count(s1 + s2, key) == key_count(s1, key) + key_count(s2, key),
    decreases s2.len(),
{
    assert(seq![x].drop_last() =~= Seq::<TokenAt>::empty());
    if s2.len() == 0 {
        assert(s1 + s2 =~= s1);
    } else {
        lemma_key_count_counts(s1, s2.drop_last(), x, key);
        assert((s1 + s2).drop_last() =~= s1 + s2.drop_last());
    }
}

proof fn lemma_balance_concat(s1: Seq<TokenAt>, s2: Seq<TokenAt>)
    ensures
        bracket_balance(s1 + s2) == bracket_balance(s1) + bracket_balance(s2),
    decreases s2.len(),
{
    if s2.len() == 0 {
        assert(s1 + s2 =~= s1);
    } else {
        lemma_balance_concat(s1, s2.drop_last());
        assert((s1 + s2).drop_last() =~= s1 + s2.drop_last());
    }
}

proof fn lemma_balance_split(t: Seq<TokenAt>, p: int, m: int, q: int)
    requires
        0 <= p <= m <= q <= t.len(),
    ensures
        balance_between(t, p, q) == balance_between(t, p, m) + balance_between(t, m, q),
{
    assert(t.subrange(p, q) =~= t.subrange(p, m) + t.subrange(m, q));
    lemma_balance_concat(t.subrange(p, m), t.subrange(m, q));
}

proof fn lemma_balance_one(t: Seq<TokenAt>, p: int)
    requires
        0 <= p < t.len(),
    ensures
        balance_between(t, p, p + 1) == match t[p].kind {
            TokenModel::Open => 1int,
            TokenModel::Close => -1int,
            TokenModel::Element(_) => 0int,
        },
{
    let s1 = t.subrange(p, p + 1);
    assert(s1.drop_last() =~= Seq::<TokenAt>::empty());
    assert(bracket_balance(s1.drop_last()) == 0);
    assert(s1.last() == t[p]);
}

proof fn lemma_leaves_split(t: Seq<TokenAt>, p: int, m: int, q: int)
    requires
        p <= m <= q,
    ensures
        leaves_between(t, p, q) == leaves_between(t, p, m) + leaves_between(t, m, q),
    decreases m - p,
{
    if p < m {
        lemma_leaves_split(t, p + 1, m, q);
        let first = leaves_between(t, p, p + 1);
        assert(leaves_between(t, p + 1, p + 1) =~= Seq::<Shape>::empty());
    } else {
        assert(leaves_between(t, p, m) =~= Seq::<Shape>::empty());
        assert(leaves_between(t, p, q) =~= leaves_between(t, p, m) + leaves_between(t, m, q));
    }
}

proof fn lemma_all_cons(x: Shape, rest: Seq<Shape>)
    ensures
        written_all(seq![x] + rest) == written(x) + written_all(rest),
        leaves_all(seq![x] + rest) == leaves(x) + leaves_all(rest),
        written_all(Seq::empty()) == Seq::<TokenModel>::empty(),
        leaves_all(Seq::empty()) == Seq::<Shape>::empty(),
{
    assert((seq![x] + rest).drop_first() =~= rest);
}

/// What reading members from `p` gives, in terms of brackets alone: when it
/// stops at a `)`, the members read, written out, are the tokens up to that
/// `)`, which balance; when it reaches the end, either the same holds of all
/// the remaining tokens, or more groups were opened than closed.
proof fn lemma_parse_items_written(t: Seq<TokenAt>, p: int, depth: nat)
    requires
        0 <= p <= t.len(),
    ensures
        ({
            let pr = parse_items(t, p, depth);
            let whole = pr.closed || balance_between(t, p, t.len() as int) == 0;
            &&& !pr.closed ==> balance_between(t, p, t.len() as int) >= 0
            &&& forall|q: int| p <= q <= pr.end ==> #[trigger] balance_between(t, p, q) >= 0
            &&& whole ==> {
                &&& groups_closed(t, p, depth)
                &&& balance_between(t, p, pr.end) == 0
                &&& written_all(pr.parts) == kinds(t.subrange(p, pr.end))
                &&& leaves_all(pr.parts) == leaves_between(t, p, pr.end)
            }
        }),
    decreases t.len() - p,
{
    let pr = parse_items(t, p, depth);
    let len = t.len() as int;
    lemma_parse_items_end(t, p, depth);
    lemma_all_cons(Shape::Series { parts: Seq::empty() }, Seq::empty());
    if p == len {
        assert(t.subrange(p, p) =~= Seq::<TokenAt>::empty());
        assert(kinds(t.subrange(p, p)) =~= Seq::<TokenModel>::empty());
        assert(balance_between(t, p, p) == 0);
    } else {
        lemma_balance_one(t, p);
        match t[p].kind {
            TokenModel::Close => {
                assert(t.subrange(p, p) =~= Seq::<TokenAt>::empty());
                assert(kinds(t.subrange(p, p)) =~= Seq::<TokenModel>::empty());
                assert(balance_between(t, p, p) == 0);
            },
            TokenModel::Element(key) => {
                let leaf = Shape::Element { key, index: key_count(t.take(p), key) };
                let rest = parse_items(t, p + 1, depth);
                lemma_parse_items_written(t, p + 1, depth);
                lemma_parse_items_end(t, p + 1, depth);
                lemma_balance_split(t, p, p + 1, len);
                lemma_balance_split(t, p, p + 1, rest.end);
                lemma_all_cons(leaf, rest.parts);
                lemma_leaves_split(t, p, p + 1, rest.end);
                assert(leaves_between(t, p + 1, p + 1) =~= Seq::<Shape>::empty());
                assert(kinds(t.subrange(p, rest.end)) =~= seq![TokenModel::Element(key)] + kinds(
                    t.subrange(p + 1, rest.end),
                ));
                assert forall|q: int| p <= q <= pr.end implies #[trigger] balance_between(t, p, q)
                    >= 0 by {
                    if q == p {
                        assert(t.subrange(p, p) =~= Seq::<TokenAt>::empty());
                    } else {
                        lemma_balance_split(t, p, p + 1, q);
                        assert(balance_between(t, p + 1, q) >= 0);
                    }
                }
            },
            TokenModel::Open => {
                let inner = parse_items(t, p + 1, depth + 1);
                lemma_parse_items_written(t, p + 1, depth + 1);
                lemma_parse_items_end(t, p + 1, depth + 1);
                lemma_balance_split(t, p, p + 1, len);
                if inner.closed {
                    let e1 = inner.end;
                    let rest = parse_items(t, e1 + 1, depth);
                    lemma_parse_items_written(t, e1 + 1, depth);
                    lemma_parse_items_end(t, e1 + 1, depth);
                    lemma_balance_one(t, e1);
                    lemma_balance_split(t, p + 1, e1, len);
                    lemma_balance_split(t, e1, e1 + 1, len);
                    lemma_balance_split(t, p, p + 1, rest.end);
                    lemma_balance_split(t, p + 1, e1, rest.end);
                    lemma_balance_split(t, e1, e1 + 1, rest.end);
                    let g = group_shape(depth + 1, inner.parts);
                    lemma_all_cons(g, rest.parts);
                    assert(written(g) == seq![TokenModel::Open] + written_all(inner.parts) + seq![
                        TokenModel::Close,
                    ]);
                    assert(leaves(g) == leaves_all(inner.parts));
                    lemma_leaves_split(t, p, p + 1, rest.end);
                    lemma_leaves_split(t, p + 1, e1, rest.end);
                    lemma_leaves_split(t, e1, e1 + 1, rest.end);
                    assert(leaves_between(t, p + 1, p + 1) =~= Seq::<Shape>::empty());
                    assert(leaves_between(t, e1 + 1, e1 + 1) =~= Seq::<Shape>::empty());
                    assert(leaves_between(t, p, p + 1) =~= Seq::<Shape>::empty());
                    assert(leaves_between(t, e1, e1 + 1) =~= Seq::<Shape>::empty());
                    assert(kinds(t.subrange(p, rest.end)) =~= seq![TokenModel::Open] + kinds(
                        t.subrange(p + 1, e1),
                    ) + seq![TokenModel::Close] + kinds(t.subrange(e1 + 1, rest.end)));
                    assert(written_all(pr.parts) =~= seq![TokenModel::Open] + written_all(
                        inner.parts,
                    ) + seq![TokenModel::Close] + written_all(rest.parts));
                    assert(leaves_all(pr.parts) =~= leaves_all(inner.parts) + leaves_all(
                        rest.parts,
                    ));
                    assert forall|q: int| p <= q <= pr.end implies #[trigger] balance_between(
                        t,
                        p,
                        q,
                    ) >= 0 by {
                        if q == p {
                            assert(t.subrange(p, p) =~= Seq::<TokenAt>::empty());
                        } else if q <= e1 {
                            lemma_balance_split(t, p, p + 1, q);
                            assert(balance_between(t, p + 1, q) >= 0);
                        } else {
                            lemma_balance_split(t, p, p + 1, q);
                            lemma_balance_split(t, p + 1, e1, q);
                            lemma_balance_split(t, e1, e1 + 1, q);
                            assert(balance_between(t, e1 + 1, q) >= 0);
                        }
                    }
                } else {
                    lemma_balance_split(t, p, p + 1, len);
                    assert forall|q: int| p <= q <= pr.end implies #[trigger] balance_between(
                        t,
                        p,
                        q,
                    ) >= 0 by {
                        if q == p {
                            assert(t.subrange(p, p) =~= Seq::<TokenAt>::empty());
                        } else {
                            lemma_balance_split(t, p, p + 1, q);
                            assert(balance_between(t, p + 1, q) >= 0);
                        }
                    }
                }
            },
        }
    }
}

/// A balanced circuit string denotes the network that, written out again,
/// is the string itself in brackets: each group holds exactly the elements
/// and groups that its bracket pair directly encloses, in order. Its leaves
/// are the element tokens left to right, each the `n`-th element of its name
/// where `n` is the number of earlier tokens of that name; the outermost
/// connection is a series one.
pub proof fn lemma_balanced_network(t: Seq<TokenAt>)
    requires
        balanced(t),
    ensures
        !has_stray_close(t),
        circuit_shape(t) is Series,
        written(circuit_shape(t)) == seq![TokenModel::Open] + kinds(t) + seq![TokenModel::Close],
        leaves(circuit_shape(t)) == leaves_between(t, 0, t.len() as int),
{
    let pr = parse_items(t, 0, 0);
    lemma_parse_items_written(t, 0, 0);
    lemma_parse_items_end(t, 0, 0);
    assert(t.subrange(0, t.len() as int) =~= t);
    if pr.closed {
        let e = pr.end;
        assert(t.subrange(0, e) =~= t.take(e));
        assert(t.take(e + 1) =~= t.take(e) + t.subrange(e, e + 1));
        lemma_balance_concat(t.take(e), t.subrange(e, e + 1));
        lemma_balance_one(t, e);
        assert(bracket_balance(t.take(e + 1)) >= 0);
    }
}

/// The token at `j` is a `)` with no group open before it.
pub open spec fn closes_nothing(t: Seq<TokenAt>, j: int) -> bool {
    t[j].kind is Close && bracket_balance(t.take(j)) == 0
}

/// A circuit string has a stray `)` exactly when some `)` in it comes where
/// every group opened before it has already been closed.
pub proof fn lemma_stray_close_by_balance(t: Seq<TokenAt>)
    ensures
        has_stray_close(t) <==> exists|j: int| 0 <= j < t.len() && #[trigger] closes_nothing(t, j),
{
    let pr = parse_items(t, 0, 0);
    lemma_parse_items_written(t, 0, 0);
    lemma_parse_items_end(t, 0, 0);
    if pr.closed {
        assert(t.subrange(0, pr.end) =~= t.take(pr.end));
        assert(closes_nothing(t, pr.end));
    } else {
        assert forall|j: int| 0 <= j < t.len() implies !#[trigger] closes_nothing(t, j) by {
            if closes_nothing(t, j) {
                assert(t.subrange(0, j) =~= t.take(j));
                lemma_balance_split(t, 0, j, j + 1);
                lemma_balance_one(t, j);
                assert(balance_between(t, 0, j + 1) >= 0);
            }
        }
    }
}

/// A group that is opened and never closed is left out: appending to a
/// balanced circuit string a `(` and then tokens that never close it leaves
/// the network as it is.
pub proof fn lemma_unclosed_group_ignored_balanced(a: Seq<TokenAt>, o: TokenAt, b: Seq<TokenAt>)
    requires
        balanced(a),
        (o.kind is Open),
        forall|j: int| 0 <= j <= b.len() ==> bracket_balance(#[trigger] b.take(j)) >= 0,
    ensures
        !has_stray_close(a + seq![o] + b),
        circuit_shape(a + seq![o] + b) == circuit_shape(a),
{
    let t = a + seq![o] + b;
    let s: int = a.len() + 1int;
    lemma_balanced_network(a);
    lemma_parse_items_written(a, 0, 0);
    let inner = parse_items(t, s, 1);
    lemma_parse_items_written(t, s, 1);
    lemma_parse_items_end(t, s, 1);
    if inner.closed {
        let e = inner.end;
        let k = e - s;
        assert(t.subrange(s, e) =~= b.take(k));
        assert(t.subrange(s, e + 1) =~= b.take(k + 1));
        lemma_balance_split(t, s, e, e + 1);
        lemma_balance_one(t, e);
        assert(bracket_balance(b.take(k + 1)) >= 0);
    }
    assert(a.subrange(0, a.len() as int) =~= a);
    lemma_unclosed_group_ignored(a, o, b);
}

/// An executable network of elements of type `E`.
#[derive(Debug)]
pub enum Network<E> {
    Element(E),
    Series(Vec<Network<E>>),
    Parallel(Vec<Network<E>>),
}

/// `n` is the network `sh`, with the element at each leaf taken from
/// `supply`: the `index`-th element supplied for the leaf's key.
pub open spec fn realizes<E>(n: Network<E>, sh: Shape, supply: Map<Seq<char>, Seq<E>>) -> bool
    decreases sh,
{
    match sh {
        Shape::Element { key, index } => n matches Network::Element(e) && supply.dom().contains(
            key,
        ) && index < supply[key].len() && e == supply[key][index as int],
        Shape::Series { parts } => n matches Network::Series(v) && v@.len() == parts.len()
            && forall|i: int| 0 <= i < parts.len() ==> realizes(#[trigger] v@[i], parts[i], supply),
        Shape::Parallel { parts } => n matches Network::Parallel(v) && v@.len() == parts.len()
            && forall|i: int| 0 <= i < parts.len() ==> realizes(#[trigger] v@[i], parts[i], supply),
    }
}

/// Each network of `v` realizes the shape at the same place of `parts`.
pub open spec fn realizes_all<E>(
    v: Seq<Network<E>>,
    parts: Seq<Shape>,
    supply: Map<Seq<char>, Seq<E>>,
) -> bool {
    v.len() == parts.len() && forall|i: int|
        0 <= i < parts.len() ==> realizes(#[trigger] v[i], parts[i], supply)
}

} // verus!
