//! A circuit model: a circuit string and the elements it draws on. Assembling
//! the model takes, for each element of the string in order, the next
//! element supplied for its name, and builds the network the string denotes.
use vstd::prelude::*;
use vstd::string::*;
use vstd::utf8::is_ascii_chars;
use crate::syntax::{Token, TokenAt, TokenKind, TokenModel, tokens, token_models, tokenize};
use crate::network::{
    Network,
    Shape,
    bracket_balance,
    circuit_shape,
    closes_nothing,
    close_group,
    group_shape,
    has_stray_close,
    key_count,
    lemma_run_end,
    lemma_run_step,
    lemma_run_whole,
    parse_items,
    realizes,
    realizes_all,
    run_from,
};
use crate::element_map::{ElementMap, supply_len};

verus! {

/// Whether the element token at `j` (if it is one) can be given an element:
/// fewer of its name occur before it than `supply` holds.
pub open spec fn element_supplied<E>(
    t: Seq<TokenAt>,
    j: int,
    supply: Map<Seq<char>, Seq<E>>,
) -> bool {
    match t[j].kind {
        TokenModel::Element(key) => key_count(t.take(j), key) < supply_len(supply, key),
        _ => true,
    }
}

/// Every element token of `t` can be given an element from `supply`.
pub open spec fn all_supplied<E>(t: Seq<TokenAt>, supply: Map<Seq<char>, Seq<E>>) -> bool {
    forall|j: int| 0 <= j < t.len() ==> #[trigger] element_supplied(t, j, supply)
}

/// `j` is the first element token of `t` that `supply` cannot serve.
pub open spec fn first_unsupplied<E>(
    t: Seq<TokenAt>,
    j: int,
    supply: Map<Seq<char>, Seq<E>>,
) -> bool {
    &&& 0 <= j < t.len()
    &&& !element_supplied(t, j, supply)
    &&& forall|i: int| 0 <= i < j ==> #[trigger] element_supplied(t, i, supply)
}

/// What is left of `supply` once every element token of `t` has taken the
/// next element of its name.
pub open spec fn consumed<E>(supply: Map<Seq<char>, Seq<E>>, t: Seq<TokenAt>) -> Map<
    Seq<char>,
    Seq<E>,
> {
    Map::new(|k: Seq<char>| supply.dom().contains(k), |k: Seq<char>| supply[k].skip(key_count(t, k) as int))
}

/// When every element token can be served, no name occurs more often than
/// `supply` holds elements for it.
proof fn lemma_all_supplied_count<E>(t: Seq<TokenAt>, supply: Map<Seq<char>, Seq<E>>, k: Seq<char>)
    requires
        all_supplied(t, supply),
    ensures
        key_count(t, k) <= supply_len(supply, k),
    decreases t.len(),
{
    if t.len() > 0 {
        let u = t.drop_last();
        assert forall|j: int| 0 <= j < u.len() implies #[trigger] element_supplied(u, j, supply) by {
            assert(u.take(j) =~= t.take(j));
            assert(element_supplied(t, j, supply));
        }
        lemma_all_supplied_count(u, supply, k);
        if t.last().kind == TokenModel::Element(k) {
            assert(element_supplied(t, t.len() - 1, supply));
            assert(t.take(t.len() - 1) =~= u);
        }
    }
}

/// Assembling uses up, for each name, exactly as many elements as the
/// circuit string names it: what a name holds afterwards is what it held
/// before, less its number of occurrences.
pub proof fn lemma_consumed_len<E>(t: Seq<TokenAt>, supply: Map<Seq<char>, Seq<E>>, k: Seq<char>)
    requires
        all_supplied(t, supply),
    ensures
        supply_len(consumed(supply, t), k) + key_count(t, k) == supply_len(supply, k),
{
    lemma_all_supplied_count(t, supply, k);
}

/// `j` is the first `)` of `t` that closes no group.
pub open spec fn first_stray_close(t: Seq<TokenAt>, j: int) -> bool {
    &&& 0 <= j < t.len()
    &&& closes_nothing(t, j)
    &&& forall|i: int| 0 <= i < j ==> !#[trigger] closes_nothing(t, i)
}

/// Why a circuit model cannot be assembled.
#[derive(Debug, Clone, PartialEq, Eq)]
pub enum CircuitError {
    /// The circuit string holds a character outside ASCII.
    NotAscii,
    /// The `)` at character `position` closes no group (the first such).
    UnmatchedClose { position: usize },
    /// The element `name` at character `position` has no element left to
    /// take.
    MissingElement { name: String, position: usize },
}

/// A circuit string together with the elements it draws on.
pub struct CircuitModel<E> {
    circuit: String,
    elements: ElementMap<E>,
}

/// `key_count` grows by one token at a time.
proof fn lemma_key_count_step(t: Seq<TokenAt>, p: int, k: Seq<char>)
    requires
        0 <= p < t.len(),
    ensures
        key_count(t.take(p + 1), k) == key_count(t.take(p), k) + if t[p].kind
            == TokenModel::Element(k) {
            1nat
        } else {
            0nat
        },
{
    assert(t.take(p + 1).drop_last() =~= t.take(p));
}

impl<E> CircuitModel<E> {
    /// The circuit string.
    pub closed spec fn circuit(&self) -> Seq<char> {
        self.circuit@
    }

    /// The elements still held, by name.
    pub closed spec fn supply(&self) -> Map<Seq<char>, Seq<E>> {
        self.elements.contents()
    }

    /// The element map is well formed.
    pub closed spec fn wf(&self) -> bool {
        self.elements.wf()
    }

    /// Whether assembling succeeds: the string is ASCII, has no `)` that
    /// closes no group, and every element in it has an element to take.
    pub open spec fn assemblable(&self) -> bool {
        &&& is_ascii_chars(self.circuit())
        &&& !has_stray_close(tokens(self.circuit()))
        &&& all_supplied(tokens(self.circuit()), self.supply())
    }

    /// A model of the circuit string `circuit` drawing on `elements`.
    pub fn new(circuit: String, elements: ElementMap<E>) -> (m: Self)
        requires
            elements.wf(),
        ensures
            m.wf(),
            m.circuit() == circuit@,
            m.supply() == elements.contents(),
    {
        CircuitModel { circuit, elements }
    }

    /// The elements the model still holds, taking the model apart.
    pub fn into_elements(self) -> (m: ElementMap<E>)
        requires
            self.wf(),
        ensures
            m.wf(),
            m.contents() == self.supply(),
    {
        self.elements
    }

    /// Whether assembling would succeed, and if not, why.
    pub fn check(&self) -> (r: Result<(), CircuitError>)
        requires
            self.wf(),
        ensures
            r is Ok <==> self.assemblable(),
            r matches Err(CircuitError::NotAscii) <==> !is_ascii_chars(self.circuit()),
            r matches Err(CircuitError::UnmatchedClose { .. }) <==> is_ascii_chars(self.circuit())
                && has_stray_close(tokens(self.circuit())),
            r matches Err(CircuitError::UnmatchedClose { position }) ==> exists|j: int|
                #![trigger tokens(self.circuit())[j]]
                first_stray_close(tokens(self.circuit()), j) && tokens(self.circuit())[j].start
                    == position,
            r matches Err(CircuitError::MissingElement { name, position }) ==> {
                &&& is_ascii_chars(self.circuit())
                &&& !has_stray_close(tokens(self.circuit()))
                &&& exists|j: int|
                    #![trigger tokens(self.circuit())[j]]
                    first_unsupplied(tokens(self.circuit()), j, self.supply())
                        && tokens(self.circuit())[j].kind == TokenModel::Element(name@)
                        && tokens(self.circuit())[j].start == position
            },
    {
        if !self.circuit.is_ascii() {
            return Err(CircuitError::NotAscii);
        }
        let text = self.circuit.as_str();
        let toks = tokenize(text);
        let ghost t = tokens(self.circuit@);
        match Self::find_unmatched_close(&toks) {
            Some(j) => {
                return Err(CircuitError::UnmatchedClose { position: toks[j].start });
            },
            None => {},
        }
        let n = toks.len();
        let mut j: usize = 0;
        while j < n
            invariant
                self.wf(),
                is_ascii_chars(self.circuit()),
                !has_stray_close(t),
                t == tokens(self.circuit()),
                n == toks@.len(),
                token_models(toks@) == t,
                t.len() == n,
                j <= n,
                forall|i: int| 0 <= i < j ==> #[trigger] element_supplied(t, i, self.supply()),
            decreases n - j,
        {
            assert(t[j as int] == toks@[j as int]@);
            match &toks[j].kind {
                TokenKind::Element(name) => {
                    let before = Self::count_before(&toks, j, name);
                    let have = self.elements.remaining(name);
                    if before >= have {
                        assert(first_unsupplied(t, j as int, self.supply()));
                        return Err(
                            CircuitError::MissingElement { name: name.clone(), position: toks[j].start },
                        );
                    }
                },
                _ => {},
            }
            j = j + 1;
        }
        Ok(())
    }

    /// How many of the first `j` tokens are the element `key`.
    fn count_before(toks: &Vec<Token>, j: usize, key: &String) -> (c: usize)
        requires
            j <= toks@.len(),
        ensures
            c == key_count(token_models(toks@).take(j as int), key@),
    {
        let ghost t = token_models(toks@);
        let mut c: usize = 0;
        let mut i: usize = 0;
        assert(t.take(0) =~= Seq::<TokenAt>::empty());
        while i < j
            invariant
                j <= toks@.len(),
                t == token_models(toks@),
                i <= j,
                c == key_count(t.take(i as int), key@),
                c <= i,
            decreases j - i,
        {
            proof {
                lemma_key_count_step(t, i as int, key@);
            }
            match &toks[i].kind {
                TokenKind::Element(name) => {
                    if *name == *key {
                        c = c + 1;
                    }
                },
                _ => {},
            }
            i = i + 1;
        }
        c
    }

    /// The first `)` of the tokens that closes no group, if any.
    fn find_unmatched_close(toks: &Vec<Token>) -> (r: Option<usize>)
        ensures
            r is Some <==> has_stray_close(token_models(toks@)),
            r matches Some(j) ==> first_stray_close(token_models(toks@), j as int),
    {
        let ghost t = token_models(toks@);
        let ghost s0 = seq![Seq::<Shape>::empty()];
        let ghost mut gs = s0;
        let n = toks.len();
        let mut depth: usize = 0;
        let mut p: usize = 0;
        proof {
            lemma_run_whole(t);
            assert(t.take(0) =~= Seq::<TokenAt>::empty());
        }
        while p < n
            invariant
                t == token_models(toks@),
                n == t.len(),
                p <= n,
                gs.len() == depth + 1,
                depth <= p,
                depth == bracket_balance(t.take(p as int)),
                forall|i: int| 0 <= i < p ==> !#[trigger] closes_nothing(t, i),
                run_from(t, 0, s0) == run_from(t, p as int, gs),
                run_from(t, 0, s0) == if has_stray_close(t) {
                    None
                } else {
                    Some(parse_items(t, 0, 0).parts)
                },
            decreases n - p,
        {
            proof {
                lemma_run_step(t, p as int, gs);
                assert(t.take(p + 1).drop_last() =~= t.take(p as int));
            }
            assert(t[p as int] == toks@[p as int]@);
            match &toks[p].kind {
                TokenKind::Open => {
                    depth = depth + 1;
                    proof {
                        gs = gs.push(Seq::empty());
                    }
                },
                TokenKind::Close => {
                    if depth == 0 {
                        assert(closes_nothing(t, p as int));
                        return Some(p);
                    }
                    depth = depth - 1;
                    proof {
                        gs = close_group(gs);
                    }
                },
                TokenKind::Element(name) => {
                    proof {
                        let d = gs.len() - 1;
                        gs = gs.update(
                            d,
                            gs[d].push(
                                Shape::Element { key: name@, index: key_count(t.take(p as int), name@) },
                            ),
                        );
                    }
                },
            }
            p = p + 1;
        }
        proof {
            lemma_run_end(t, gs);
        }
        None
    }

    /// Assembles the network that the circuit string denotes, taking for
    /// each element of the string, left to right, the next element supplied
    /// for its name (elements of groups that are never closed are taken too,
    /// though they are not part of the network).
    pub fn assemble(&mut self) -> (net: Network<E>)
        requires
            old(self).wf(),
            old(self).assemblable(),
        ensures
            final(self).wf(),
            final(self).circuit() == old(self).circuit(),
            final(self).supply() == consumed(old(self).supply(), tokens(old(self).circuit())),
            realizes(net, circuit_shape(tokens(old(self).circuit())), old(self).supply()),
    {
        let ghost sup = self.supply();
        let text = self.circuit.as_str();
        let toks = tokenize(text);
        let ghost t = tokens(self.circuit@);
        let ghost s0 = seq![Seq::<Shape>::empty()];
        let ghost mut gs = s0;
        let mut layers: Vec<Vec<Network<E>>> = Vec::new();
        layers.push(Vec::new());
        let n = toks.len();
        let mut p: usize = 0;
        proof {
            lemma_run_whole(t);
            assert(t.take(0) =~= Seq::<TokenAt>::empty());
        }
        while p < n
            invariant
                self.wf(),
                self.circuit() == old(self).circuit(),
                sup == old(self).supply(),
                t == tokens(self.circuit()),
                all_supplied(t, sup),
                token_models(toks@) == t,
                n == t.len(),
                p <= n,
                run_from(t, 0, s0) == run_from(t, p as int, gs),
                run_from(t, 0, s0) == Some(parse_items(t, 0, 0).parts),
                layers@.len() == gs.len(),
                gs.len() >= 1,
                forall|i: int| 0 <= i < gs.len() ==> realizes_all(#[trigger] layers@[i]@, gs[i], sup),
                self.supply().dom() == sup.dom(),
                forall|k: Seq<char>| #[trigger] sup.dom().contains(k) ==> self.supply()[k] == sup[k].skip(
                    key_count(t.take(p as int), k) as int,
                ),
            decreases n - p,
        {
            proof {
                lemma_run_step(t, p as int, gs);
            }
            assert(t[p as int] == toks@[p as int]@);
            match &toks[p].kind {
                TokenKind::Open => {
                    layers.push(Vec::new());
                    proof {
                        gs = gs.push(Seq::empty());
                        assert(realizes_all(layers@[gs.len() - 1]@, gs[gs.len() - 1], sup));
                    }
                },
                TokenKind::Close => {
                    let ghost gs_before = gs;
                    let ghost lb = layers@;
                    let top = layers.pop().unwrap();
                    let d = layers.len();
                    let group = if d % 2 == 0 {
                        Network::Series(top)
                    } else {
                        Network::Parallel(top)
                    };
                    proof {
                        assert(realizes(group, group_shape(d as nat, gs[d as int]), sup));
                    }
                    layers[d - 1].push(group);
                    proof {
                        gs = close_group(gs);
                        assert forall|i: int| 0 <= i < gs.len() implies realizes_all(
                            #[trigger] layers@[i]@,
                            gs[i],
                            sup,
                        ) by {
                            if i != d - 1 {
                                assert(realizes_all(layers@[i]@, gs_before[i], sup));
                            } else {
                                let v = layers@[i]@;
                                let sh = gs[i];
                                assert(v == lb[i]@.push(group));
                                assert(sh == gs_before[i].push(group_shape(d as nat, gs_before[d as int])));
                                assert(realizes_all(lb[i]@, gs_before[i], sup));
                                assert forall|j: int| 0 <= j < sh.len() implies realizes(
                                    #[trigger] v[j],
                                    sh[j],
                                    sup,
                                ) by {
                                    if j < sh.len() - 1 {
                                        assert(v[j] == lb[i]@[j]);
                                    }
                                }
                            }
                        }
                    }
                },
                TokenKind::Element(name) => {
                    let ghost c = key_count(t.take(p as int), name@);
                    assert(element_supplied(t, p as int, sup));
                    let e = self.elements.take_next(name);
                    let last = layers.len() - 1;
                    layers[last].push(Network::Element(e));
                    proof {
                        let leaf = Shape::Element { key: name@, index: c };
                        assert(realizes(Network::Element(e), leaf, sup));
                        gs = gs.update(last as int, gs[last as int].push(leaf));
                    }
                },
            }
            proof {
                assert forall|k: Seq<char>| #[trigger] sup.dom().contains(k) implies self.supply()[k]
                    == sup[k].skip(key_count(t.take(p + 1), k) as int) by {
                    lemma_key_count_step(t, p as int, k);
                }
            }
            p = p + 1;
        }
        proof {
            lemma_run_end(t, gs);
            assert(t.take(n as int) =~= t);
            assert(self.supply() =~= consumed(sup, t));
            assert(gs[0] == parse_items(t, 0, 0).parts);
            assert(realizes_all(layers@[0]@, gs[0], sup));
        }
        // Groups still open at the end are dropped: the network is the top level.
        let top = layers.swap_remove(0);
        let net = Network::Series(top);
        assert(realizes(net, circuit_shape(t), sup));
        net
    }
}

} // verus!
