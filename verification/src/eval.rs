//! The expression tree: a recursive-descent parser over the token
//! sequence building nodes in an append-only arena, and a post-order
//! evaluator producing one fixed-point value or a typed error.

use vstd::prelude::*;

use crate::big_dec;
use crate::big_dec::spec_add;
use crate::big_dec::spec_div;
use crate::big_dec::spec_div_mod;
use crate::big_dec::spec_fact;
use crate::big_dec::spec_mul;
use crate::big_dec::spec_sub;
use crate::big_dec::BigDec;
use crate::funcs;
use crate::token;
use crate::token::model_text;
use crate::token::num_text;
use crate::token::spec_tokenize;
use crate::token::token_models;
use crate::token::Token;
use crate::token::TokenModel;

verus! {

/// One node of the expression tree: a token and up to two children,
/// referenced by arena index.
pub struct Node {
    pub token: Token,
    pub left_id: Option<usize>,
    pub right_id: Option<usize>,
}

/// The append-only store of tree nodes; children always point at
/// earlier-appended nodes.
pub struct TreeArena {
    pub nodes: Vec<Node>,
}

/// The spec-level shape of one node.
pub ghost struct NodeModel {
    pub tok: TokenModel,
    pub left: Option<int>,
    pub right: Option<int>,
}

/// The spec-level shape of one exec node.
pub open spec fn node_model(n: Node) -> NodeModel {
    NodeModel {
        tok: n.token.model(),
        left: match n.left_id {
            Some(l) => Some(l as int),
            None => None,
        },
        right: match n.right_id {
            Some(r) => Some(r as int),
            None => None,
        },
    }
}

/// The spec-level shape of a node sequence.
pub open spec fn arena_model(ns: Seq<Node>) -> Seq<NodeModel> {
    Seq::new(ns.len(), |i: int| node_model(ns[i]))
}

/// Appending a node appends its model.
pub proof fn lemma_arena_model_push(ns: Seq<Node>, n: Node)
    ensures
        arena_model(ns.push(n)) == arena_model(ns).push(node_model(n)),
{
    assert(arena_model(ns.push(n)) =~= arena_model(ns).push(node_model(n)));
}

/// Appending a node whose children lie inside the old arena keeps the
/// arena acyclic.
pub proof fn lemma_wf_arena_push(ms: Seq<NodeModel>, m: NodeModel)
    requires
        wf_arena(ms),
        match m.left {
            Some(l) => 0 <= l < ms.len(),
            None => true,
        },
        match m.right {
            Some(r) => 0 <= r < ms.len(),
            None => true,
        },
    ensures
        wf_arena(ms.push(m)),
{
    let ms2 = ms.push(m);
    assert forall|j: int| 0 <= j < ms2.len() implies {
        &&& match (#[trigger] ms2[j]).left {
            Some(l) => 0 <= l < j,
            None => true,
        }
        &&& match ms2[j].right {
            Some(r) => 0 <= r < j,
            None => true,
        }
    } by {
        if j < ms.len() {
            assert(ms2[j] == ms[j]);
        } else {
            assert(ms2[j] == m);
        }
    }
}

/// Children only ever point at earlier-appended nodes, so the tree has no
/// cycles.
pub open spec fn wf_arena(ns: Seq<NodeModel>) -> bool {
    forall|j: int|
        0 <= j < ns.len() ==> {
            &&& match (#[trigger] ns[j]).left {
                Some(l) => 0 <= l < j,
                None => true,
            }
            &&& match ns[j].right {
                Some(r) => 0 <= r < j,
                None => true,
            }
        }
}

/// All tokens held by the nodes are well formed.
pub open spec fn nodes_wf(ns: Seq<Node>) -> bool {
    forall|i: int| 0 <= i < ns.len() ==> (#[trigger] ns[i]).token.wf()
}

impl TreeArena {
    /// A fresh arena; the size is only a capacity hint.
    pub fn new_with_size(_size: usize) -> (r: TreeArena)
        ensures
            r.nodes@ == Seq::<Node>::empty(),
    {
        TreeArena { nodes: Vec::new() }
    }

    /// Appends a node with the given children and returns its index.
    pub fn alloc_node(&mut self, token: Token, left_id: Option<usize>, right_id: Option<usize>)
        -> (id: usize)
        ensures
            final(self).nodes@ == old(self).nodes@.push(
                Node { token, left_id: left_id, right_id: right_id },
            ),
            id == old(self).nodes@.len(),
    {
        self.nodes.push(Node { token, left_id, right_id });
        self.nodes.len() - 1
    }

    /// Appends a leaf node and returns its index.
    pub fn alloc_leaf(&mut self, token: Token) -> (id: usize)
        ensures
            final(self).nodes@ == old(self).nodes@.push(
                Node { token, left_id: None, right_id: None },
            ),
            id == old(self).nodes@.len(),
    {
        self.nodes.push(Node { token, left_id: None, right_id: None });
        self.nodes.len() - 1
    }
}

/// What evaluation can report instead of a value.
pub enum EvalError {
    /// The underlying arithmetic failed.
    Bd(big_dec::Error),
    /// A function call failed.
    Fn(funcs::Error),
}

impl EvalError {
    /// The display text of each evaluation error.
    pub open spec fn message(self) -> Seq<char> {
        match self {
            EvalError::Bd(e) => e.message(),
            EvalError::Fn(e) => e.message(),
        }
    }

    pub fn to_string(&self) -> (r: String)
        ensures
            r@ == self.message(),
    {
        match *self {
            EvalError::Bd(ref nv_error) => nv_error.to_string(),
            EvalError::Fn(ref fn_error) => fn_error.to_string(),
        }
    }
}

/// Lifts an arithmetic outcome into an evaluation outcome.
pub open spec fn lift_bd(r: Result<int, big_dec::Error>) -> Result<int, EvalError> {
    match r {
        Ok(v) => Ok(v),
        Err(e) => Err(EvalError::Bd(e)),
    }
}

/// Lifts a function-call outcome into an evaluation outcome.
pub open spec fn lift_fn(r: Result<int, funcs::Error>) -> Result<int, EvalError> {
    match r {
        Ok(v) => Ok(v),
        Err(e) => Err(EvalError::Fn(e)),
    }
}

/// What the post-order walk of a node yields: leaves give their literal
/// value or zero, unary nodes apply factorial or the named function to
/// the left child, binary nodes apply the operator to both children.
pub open spec fn spec_eval_node(ns: Seq<NodeModel>, id: int) -> Result<int, EvalError>
    decreases id,
{
    if !(0 <= id < ns.len()) {
        Ok(0)
    } else {
        let n = ns[id];
        let lv: Result<int, EvalError> = match n.left {
            Some(l) => if 0 <= l < id {
                spec_eval_node(ns, l)
            } else {
                Ok(0)
            },
            None => Ok(0),
        };
        let rv: Result<int, EvalError> = match n.right {
            Some(r) => if 0 <= r < id {
                spec_eval_node(ns, r)
            } else {
                Ok(0)
            },
            None => Ok(0),
        };
        if lv is Err {
            lv
        } else if rv is Err {
            rv
        } else {
            let a = lv->Ok_0;
            let b = rv->Ok_0;
            match n.tok {
                TokenModel::Nothing => Ok(0),
                TokenModel::Number(v) => Ok(v),
                TokenModel::ParOpen => Ok(0),
                TokenModel::ParClose => Ok(0),
                TokenModel::Add => lift_bd(spec_add(a, b)),
                TokenModel::Sub => lift_bd(spec_sub(a, b)),
                TokenModel::Mul => lift_bd(spec_mul(a, b)),
                TokenModel::Div => lift_bd(spec_div(a, b)),
                TokenModel::Mod => lift_bd(spec_div_mod(a, b)),
                TokenModel::Fact => lift_bd(spec_fact(a)),
                TokenModel::Func(name) => lift_fn(funcs::spec_eval_func(name, a)),
            }
        }
    }
}

/// An expression tree: the arena and the index of its root.
pub struct Tree {
    pub arena: TreeArena,
    pub root_id: usize,
}

impl Tree {
    /// The arena is acyclic, its tokens are well formed and the root is
    /// in bounds.
    pub open spec fn wf(self) -> bool {
        &&& wf_arena(arena_model(self.arena.nodes@))
        &&& nodes_wf(self.arena.nodes@)
        &&& self.root_id < self.arena.nodes@.len()
    }

    /// The node at an index.
    pub fn get_node(&self, id: usize) -> (r: &Node)
        requires
            id < self.arena.nodes@.len(),
        ensures
            *r == self.arena.nodes@[id as int],
    {
        &self.arena.nodes[id]
    }

    /// Evaluates the subtree rooted at node_id, post-order.
    #[verifier::rlimit(100)]
    pub fn eval_node(&self, node_id: usize) -> (r: Result<BigDec, EvalError>)
        requires
            self.wf(),
            node_id < self.arena.nodes@.len(),
        ensures
            match r {
                Ok(v) => v.wf() && spec_eval_node(arena_model(self.arena.nodes@), node_id as int)
                    == Ok::<int, EvalError>(v.val()),
                Err(e) => spec_eval_node(arena_model(self.arena.nodes@), node_id as int) == Err::<
                    int,
                    EvalError,
                >(e),
            },
        decreases node_id,
    {
        let node = self.get_node(node_id);
        let tok = node.token;
        let left_id = node.left_id;
        let right_id = node.right_id;
        proof {
            assert(arena_model(self.arena.nodes@)[node_id as int].tok == tok.model());
        }
        let val_left = match left_id {
            Some(lid) => {
                proof {
                    assert(wf_arena(arena_model(self.arena.nodes@)));
                    assert(arena_model(self.arena.nodes@)[node_id as int].left == Some(lid as int));
                }
                match self.eval_node(lid) {
                    Ok(v) => v,
                    Err(e) => {
                        return Err(e);
                    },
                }
            },
            None => BigDec::zero(),
        };
        let val_right = match right_id {
            Some(rid) => {
                proof {
                    assert(arena_model(self.arena.nodes@)[node_id as int].right == Some(
                        rid as int,
                    ));
                }
                match self.eval_node(rid) {
                    Ok(v) => v,
                    Err(e) => {
                        return Err(e);
                    },
                }
            },
            None => BigDec::zero(),
        };
        match tok {
            Token::Nothing => Ok(BigDec::zero()),
            Token::Number(nv) => {
                proof {
                    assert(self.arena.nodes@[node_id as int].token.wf());
                }
                Ok(nv)
            },
            Token::ParOpen => Ok(BigDec::zero()),
            Token::ParClose => Ok(BigDec::zero()),
            Token::Add => match BigDec::add(val_left, val_right) {
                Ok(val) => Ok(val),
                Err(err) => Err(EvalError::Bd(err)),
            },
            Token::Sub => match BigDec::sub(val_left, val_right) {
                Ok(val) => Ok(val),
                Err(err) => Err(EvalError::Bd(err)),
            },
            Token::Mul => match BigDec::mul(val_left, val_right) {
                Ok(val) => Ok(val),
                Err(err) => Err(EvalError::Bd(err)),
            },
            Token::Div => match BigDec::div(val_left, val_right) {
                Ok(val) => Ok(val),
                Err(err) => Err(EvalError::Bd(err)),
            },
            Token::Mod => match BigDec::div_mod(val_left, val_right) {
                Ok(val) => Ok(val),
                Err(err) => Err(EvalError::Bd(err)),
            },
            Token::Fact => match BigDec::fact(val_left) {
                Ok(val) => Ok(val),
                Err(err) => Err(EvalError::Bd(err)),
            },
            Token::Func(name) => {
                proof {
                    assert(self.arena.nodes@[node_id as int].token.wf());
                }
                match funcs::eval_func(name, val_left) {
                    Ok(val) => Ok(val),
                    Err(err) => Err(EvalError::Fn(err)),
                }
            },
        }
    }

    /// Evaluates the whole tree.
    pub fn eval(&self) -> (r: Result<BigDec, EvalError>)
        requires
            self.wf(),
        ensures
            match r {
                Ok(v) => v.wf() && spec_eval_node(
                    arena_model(self.arena.nodes@),
                    self.root_id as int,
                ) == Ok::<int, EvalError>(v.val()),
                Err(e) => spec_eval_node(arena_model(self.arena.nodes@), self.root_id as int)
                    == Err::<int, EvalError>(e),
            },
    {
        self.eval_node(self.root_id)
    }
}

/// A cursor over the token sequence.
pub struct TokenGetter {
    pub index: usize,
}

impl TokenGetter {
    /// The token under the cursor, if any, without advancing.
    pub fn peek(&self, tokens: &Vec<Token>) -> (r: Option<Token>)
        ensures
            r == if self.index < tokens@.len() {
                Some(tokens@[self.index as int])
            } else {
                None::<Token>
            },
    {
        if self.index < tokens.len() {
            Some(tokens[self.index])
        } else {
            None
        }
    }

    /// The token under the cursor, advancing past it.
    pub fn next(&mut self, tokens: &Vec<Token>) -> (r: Option<Token>)
        ensures
            old(self).index < tokens@.len() ==> r == Some(tokens@[old(self).index as int])
                && final(self).index == old(self).index + 1,
            old(self).index >= tokens@.len() ==> r == None::<Token> && final(self).index == old(
                self,
            ).index,
    {
        if self.index < tokens.len() {
            let t = tokens[self.index];
            self.index = self.index + 1;
            Some(t)
        } else {
            None
        }
    }
}

/// How one parsing production ends.
pub enum ParseResult {
    /// No production started here; nothing was consumed.
    NoneFound,
    /// A syntax error, with its display text.
    Fail(String),
    /// The index of the built subtree's root.
    Found(usize),
}

/// The spec-level shape of a production's outcome.
pub ghost enum PRes {
    NoneFound,
    Fail(Seq<char>),
    Found(int),
}

/// A production's outcome, the position after it, and the arena it built.
pub ghost struct PStep {
    pub res: PRes,
    pub next: int,
    pub ar: Seq<NodeModel>,
}

/// The spec-level shape of an exec outcome.
pub open spec fn res_model(r: ParseResult) -> PRes {
    match r {
        ParseResult::NoneFound => PRes::NoneFound,
        ParseResult::Fail(s) => PRes::Fail(s@),
        ParseResult::Found(id) => PRes::Found(id as int),
    }
}

/// The rest of a parenthesized subexpression, after the opening
/// parenthesis: an expression, then the expected closing parenthesis.
pub open spec fn spec_subfactor_paren(toks: Seq<TokenModel>, i: int, ar: Seq<NodeModel>) -> PStep
    decreases toks.len() - i, 7int,
{
    let e = spec_expression(toks, i, ar);
    if !(0 <= i <= toks.len() && i <= e.next < toks.len()) {
        PStep { res: PRes::Fail("missing ')'"@), next: e.next, ar: e.ar }
    } else if toks[e.next] is ParClose {
        PStep { res: e.res, next: e.next + 1, ar: e.ar }
    } else {
        PStep {
            res: PRes::Fail("expected ')', found: "@ + model_text(toks[e.next])),
            next: e.next + 1,
            ar: e.ar,
        }
    }
}

/// The rest of a function call, after the name: the argument expression,
/// then the expected closing parenthesis, then the call node.
pub open spec fn spec_subfactor_func(
    toks: Seq<TokenModel>,
    i: int,
    ar: Seq<NodeModel>,
    name: Seq<char>,
) -> PStep
    decreases toks.len() - i, 7int,
{
    let e = spec_expression(toks, i, ar);
    match e.res {
        PRes::NoneFound => PStep {
            res: PRes::Fail("missing function argument"@),
            next: e.next,
            ar: e.ar,
        },
        PRes::Fail(msg) => PStep { res: PRes::Fail(msg), next: e.next, ar: e.ar },
        PRes::Found(inside_id) => {
            if !(0 <= i <= toks.len() && i <= e.next < toks.len()) {
                PStep { res: PRes::Fail("missing ')'"@), next: e.next, ar: e.ar }
            } else if toks[e.next] is ParClose {
                PStep {
                    res: PRes::Found(e.ar.len() as int),
                    next: e.next + 1,
                    ar: e.ar.push(
                        NodeModel {
                            tok: TokenModel::Func(name),
                            left: Some(inside_id),
                            right: None,
                        },
                    ),
                }
            } else {
                PStep {
                    res: PRes::Fail("expected ')', found: "@ + model_text(toks[e.next])),
                    next: e.next + 1,
                    ar: e.ar,
                }
            }
        },
    }
}

/// Subfactor: an optionally negated number literal, a parenthesized
/// expression, or a function call.
pub open spec fn spec_subfactor(toks: Seq<TokenModel>, i: int, ar: Seq<NodeModel>) -> PStep
    decreases toks.len() - i, 1int,
{
    if !(0 <= i < toks.len()) {
        PStep { res: PRes::NoneFound, next: i, ar }
    } else {
        match toks[i] {
            TokenModel::Sub => {
                if !(i + 1 < toks.len()) {
                    PStep { res: PRes::Fail("missing number"@), next: i + 1, ar }
                } else {
                    match toks[i + 1] {
                        TokenModel::Number(v) => PStep {
                            res: PRes::Found(ar.len() as int),
                            next: i + 2,
                            ar: ar.push(
                                NodeModel { tok: TokenModel::Number(-v), left: None, right: None },
                            ),
                        },
                        _ => PStep {
                            res: PRes::Fail(
                                "expected number instead of "@ + model_text(toks[i + 1]),
                            ),
                            next: i + 2,
                            ar,
                        },
                    }
                }
            },
            TokenModel::Number(v) => PStep {
                res: PRes::Found(ar.len() as int),
                next: i + 1,
                ar: ar.push(NodeModel { tok: TokenModel::Number(v), left: None, right: None }),
            },
            TokenModel::ParOpen => spec_subfactor_paren(toks, i + 1, ar),
            TokenModel::Func(name) => spec_subfactor_func(toks, i + 1, ar, name),
            _ => PStep {
                res: PRes::Fail("unexpected "@ + model_text(toks[i])),
                next: i + 1,
                ar,
            },
        }
    }
}

/// Factor: a subfactor with an optional postfix factorial.
pub open spec fn spec_factor(toks: Seq<TokenModel>, i: int, ar: Seq<NodeModel>) -> PStep
    decreases toks.len() - i, 2int,
{
    let sf = spec_subfactor(toks, i, ar);
    match sf.res {
        PRes::NoneFound => sf,
        PRes::Fail(msg) => sf,
        PRes::Found(id) => {
            if 0 <= sf.next < toks.len() && toks[sf.next] is Fact {
                PStep {
                    res: PRes::Found(sf.ar.len() as int),
                    next: sf.next + 1,
                    ar: sf.ar.push(
                        NodeModel { tok: TokenModel::Fact, left: Some(id), right: None },
                    ),
                }
            } else {
                sf
            }
        },
    }
}

/// The iterated right side of a term: zero or more times, an operator
/// among * / % and another factor, folded left-associatively.
pub open spec fn spec_term_right(toks: Seq<TokenModel>, i: int, ar: Seq<NodeModel>, root: int)
    -> PStep
    decreases toks.len() - i, 4int,
{
    if !(0 <= i < toks.len() && (toks[i] is Mul || toks[i] is Div || toks[i] is Mod)) {
        PStep { res: PRes::Found(root), next: i, ar }
    } else {
        let f = spec_factor(toks, i + 1, ar);
        match f.res {
            PRes::NoneFound => PStep { res: PRes::Fail("missing factor"@), next: f.next, ar: f.ar },
            PRes::Fail(msg) => PStep { res: PRes::Fail(msg), next: f.next, ar: f.ar },
            PRes::Found(right_id) => {
                if i < f.next <= toks.len() {
                    spec_term_right(
                        toks,
                        f.next,
                        f.ar.push(
                            NodeModel { tok: toks[i], left: Some(root), right: Some(right_id) },
                        ),
                        f.ar.len() as int,
                    )
                } else {
                    PStep { res: PRes::Fail("missing factor"@), next: f.next, ar: f.ar }
                }
            },
        }
    }
}

/// Term: a factor followed by its iterated right side.
pub open spec fn spec_term(toks: Seq<TokenModel>, i: int, ar: Seq<NodeModel>) -> PStep
    decreases toks.len() - i, 3int,
{
    let f = spec_factor(toks, i, ar);
    match f.res {
        PRes::NoneFound => f,
        PRes::Fail(msg) => f,
        PRes::Found(root) => {
            if i < f.next <= toks.len() {
                let tr = spec_term_right(toks, f.next, f.ar, root);
                match tr.res {
                    PRes::NoneFound => PStep { res: PRes::Found(root), next: tr.next, ar: tr.ar },
                    _ => tr,
                }
            } else {
                f
            }
        },
    }
}

/// The iterated right side of an expression: zero or more times, + or -
/// and another term, folded left-associatively.
pub open spec fn spec_expression_right(toks: Seq<TokenModel>, i: int, ar: Seq<NodeModel>, root: int)
    -> PStep
    decreases toks.len() - i, 6int,
{
    if !(0 <= i < toks.len() && (toks[i] is Add || toks[i] is Sub)) {
        PStep { res: PRes::Found(root), next: i, ar }
    } else {
        let t = spec_term(toks, i + 1, ar);
        match t.res {
            PRes::NoneFound => PStep { res: PRes::Fail("missing term"@), next: t.next, ar: t.ar },
            PRes::Fail(msg) => PStep { res: PRes::Fail(msg), next: t.next, ar: t.ar },
            PRes::Found(right_id) => {
                if i < t.next <= toks.len() {
                    spec_expression_right(
                        toks,
                        t.next,
                        t.ar.push(
                            NodeModel { tok: toks[i], left: Some(root), right: Some(right_id) },
                        ),
                        t.ar.len() as int,
                    )
                } else {
                    PStep { res: PRes::Fail("missing term"@), next: t.next, ar: t.ar }
                }
            },
        }
    }
}

/// Expression: a term followed by its iterated right side.
pub open spec fn spec_expression(toks: Seq<TokenModel>, i: int, ar: Seq<NodeModel>) -> PStep
    decreases toks.len() - i, 5int,
{
    let t = spec_term(toks, i, ar);
    match t.res {
        PRes::NoneFound => t,
        PRes::Fail(msg) => t,
        PRes::Found(root) => {
            if i < t.next <= toks.len() {
                let er = spec_expression_right(toks, t.next, t.ar, root);
                match er.res {
                    PRes::NoneFound => PStep { res: PRes::Found(root), next: er.next, ar: er.ar },
                    _ => er,
                }
            } else {
                t
            }
        },
    }
}

/// Parses the rest of a parenthesized subexpression, the opening
/// parenthesis already consumed.
#[verifier::rlimit(100)]
fn parse_subfactor_parenthesis(tokens: &Vec<Token>, tg: &mut TokenGetter, arena: &mut TreeArena)
    -> (r: ParseResult)
    requires
        old(tg).index <= tokens@.len(),
        forall|i: int| 0 <= i < tokens@.len() ==> (#[trigger] tokens@[i]).wf(),
        wf_arena(arena_model(old(arena).nodes@)),
        nodes_wf(old(arena).nodes@),
    ensures
        old(tg).index <= final(tg).index <= tokens@.len(),
        old(arena).nodes@.len() <= final(arena).nodes@.len(),
        wf_arena(arena_model(final(arena).nodes@)),
        nodes_wf(final(arena).nodes@),
        spec_subfactor_paren(
            token_models(tokens@),
            old(tg).index as int,
            arena_model(old(arena).nodes@),
        ) == (PStep {
            res: res_model(r),
            next: final(tg).index as int,
            ar: arena_model(final(arena).nodes@),
        }),
        r is Found ==> r->Found_0 < final(arena).nodes@.len(),
    decreases tokens@.len() - tg.index, 8int,
{
    let ghost toks = token_models(tokens@);
    let ghost i0 = tg.index as int;
    let inside = parse_expression(tokens, tg, arena);
    let op2 = match tg.next(tokens) {
        Some(op2) => op2,
        None => {
            return ParseResult::Fail(String::from_str("missing ')'"));
        },
    };
    match op2 {
        Token::ParClose => inside,
        _ => {
            let mut msg = String::from_str("expected ')', found: ");
            let ts = op2.to_string();
            msg.append(ts.as_str());
            proof {
                assert(msg@ =~= "expected ')', found: "@ + model_text(op2.model()));
            }
            ParseResult::Fail(msg)
        },
    }
}

/// Parses the rest of a function call, the name already consumed.
#[verifier::rlimit(100)]
fn parse_subfactor_function(
    tokens: &Vec<Token>,
    tg: &mut TokenGetter,
    arena: &mut TreeArena,
    name: token::Name,
) -> (r: ParseResult)
    requires
        old(tg).index <= tokens@.len(),
        name.wf(),
        forall|i: int| 0 <= i < tokens@.len() ==> (#[trigger] tokens@[i]).wf(),
        wf_arena(arena_model(old(arena).nodes@)),
        nodes_wf(old(arena).nodes@),
    ensures
        old(tg).index <= final(tg).index <= tokens@.len(),
        old(arena).nodes@.len() <= final(arena).nodes@.len(),
        wf_arena(arena_model(final(arena).nodes@)),
        nodes_wf(final(arena).nodes@),
        spec_subfactor_func(
            token_models(tokens@),
            old(tg).index as int,
            arena_model(old(arena).nodes@),
            name.chars(),
        ) == (PStep {
            res: res_model(r),
            next: final(tg).index as int,
            ar: arena_model(final(arena).nodes@),
        }),
        r is Found ==> r->Found_0 < final(arena).nodes@.len(),
    decreases tokens@.len() - tg.index, 8int,
{
    let ghost toks = token_models(tokens@);
    let inside_id_res = parse_expression(tokens, tg, arena);
    let inside_id = match inside_id_res {
        ParseResult::NoneFound => {
            return ParseResult::Fail(String::from_str("missing function argument"));
        },
        ParseResult::Fail(err) => {
            return ParseResult::Fail(err);
        },
        ParseResult::Found(inside_id) => inside_id,
    };
    let op2 = match tg.next(tokens) {
        Some(op2) => op2,
        None => {
            return ParseResult::Fail(String::from_str("missing ')'"));
        },
    };
    match op2 {
        Token::ParClose => {
            let ghost before = arena.nodes@;
            let node_id = arena.alloc_node(Token::Func(name), Some(inside_id), None);
            proof {
                lemma_arena_model_push(
                    before,
                    Node { token: Token::Func(name), left_id: Some(inside_id), right_id: None },
                );
                lemma_wf_arena_push(
                    arena_model(before),
                    node_model(
                        Node { token: Token::Func(name), left_id: Some(inside_id), right_id: None },
                    ),
                );
            }
            ParseResult::Found(node_id)
        },
        _ => {
            let mut msg = String::from_str("expected ')', found: ");
            let ts = op2.to_string();
            msg.append(ts.as_str());
            proof {
                assert(msg@ =~= "expected ')', found: "@ + model_text(op2.model()));
            }
            ParseResult::Fail(msg)
        },
    }
}

/// Subfactor: an optionally negated number, a parenthesized expression,
/// or a function call.
#[verifier::rlimit(100)]
fn parse_subfactor(tokens: &Vec<Token>, tg: &mut TokenGetter, arena: &mut TreeArena) -> (r:
    ParseResult)
    requires
        old(tg).index <= tokens@.len(),
        forall|i: int| 0 <= i < tokens@.len() ==> (#[trigger] tokens@[i]).wf(),
        wf_arena(arena_model(old(arena).nodes@)),
        nodes_wf(old(arena).nodes@),
    ensures
        old(tg).index <= final(tg).index <= tokens@.len(),
        old(arena).nodes@.len() <= final(arena).nodes@.len(),
        wf_arena(arena_model(final(arena).nodes@)),
        nodes_wf(final(arena).nodes@),
        spec_subfactor(token_models(tokens@), old(tg).index as int, arena_model(old(arena).nodes@))
            == (PStep {
            res: res_model(r),
            next: final(tg).index as int,
            ar: arena_model(final(arena).nodes@),
        }),
        r is Found ==> r->Found_0 < final(arena).nodes@.len() && final(tg).index > old(tg).index,
    decreases tokens@.len() - tg.index, 1int,
{
    let ghost toks = token_models(tokens@);
    let ghost i0 = tg.index as int;
    let op = match tg.next(tokens) {
        Some(op) => op,
        None => {
            return ParseResult::NoneFound;
        },
    };
    match op {
        Token::Sub => {
            let op_next = match tg.next(tokens) {
                Some(op_next) => op_next,
                None => {
                    return ParseResult::Fail(String::from_str("missing number"));
                },
            };
            match op_next {
                Token::Number(nv) => {
                    let neg = nv.negate();
                    let ghost before = arena.nodes@;
                    let node_id = arena.alloc_leaf(Token::Number(neg));
                    proof {
                        lemma_arena_model_push(
                            before,
                            Node { token: Token::Number(neg), left_id: None, right_id: None },
                        );
                        lemma_wf_arena_push(
                            arena_model(before),
                            node_model(
                                Node { token: Token::Number(neg), left_id: None, right_id: None },
                            ),
                        );
                    }
                    ParseResult::Found(node_id)
                },
                _ => {
                    let mut msg = String::from_str("expected number instead of ");
                    let ts = op_next.to_string();
                    msg.append(ts.as_str());
                    proof {
                        assert(msg@ =~= "expected number instead of "@ + model_text(
                            op_next.model(),
                        ));
                    }
                    ParseResult::Fail(msg)
                },
            }
        },
        Token::Number(nv) => {
            let ghost before = arena.nodes@;
            let node_id = arena.alloc_leaf(Token::Number(nv));
            proof {
                lemma_arena_model_push(
                    before,
                    Node { token: Token::Number(nv), left_id: None, right_id: None },
                );
                lemma_wf_arena_push(
                    arena_model(before),
                    node_model(Node { token: Token::Number(nv), left_id: None, right_id: None }),
                );
            }
            ParseResult::Found(node_id)
        },
        Token::ParOpen => parse_subfactor_parenthesis(tokens, tg, arena),
        Token::Func(name) => parse_subfactor_function(tokens, tg, arena, name),
        _ => {
            let mut msg = String::from_str("unexpected ");
            let ts = op.to_string();
            msg.append(ts.as_str());
            proof {
                assert(msg@ =~= "unexpected "@ + model_text(op.model()));
            }
            ParseResult::Fail(msg)
        },
    }
}

/// Factor: a subfactor with an optional postfix factorial.
#[verifier::rlimit(100)]
fn parse_factor(tokens: &Vec<Token>, tg: &mut TokenGetter, arena: &mut TreeArena) -> (r:
    ParseResult)
    requires
        old(tg).index <= tokens@.len(),
        forall|i: int| 0 <= i < tokens@.len() ==> (#[trigger] tokens@[i]).wf(),
        wf_arena(arena_model(old(arena).nodes@)),
        nodes_wf(old(arena).nodes@),
    ensures
        old(tg).index <= final(tg).index <= tokens@.len(),
        old(arena).nodes@.len() <= final(arena).nodes@.len(),
        wf_arena(arena_model(final(arena).nodes@)),
        nodes_wf(final(arena).nodes@),
        spec_factor(token_models(tokens@), old(tg).index as int, arena_model(old(arena).nodes@))
            == (PStep {
            res: res_model(r),
            next: final(tg).index as int,
            ar: arena_model(final(arena).nodes@),
        }),
        r is Found ==> r->Found_0 < final(arena).nodes@.len() && final(tg).index > old(tg).index,
    decreases tokens@.len() - tg.index, 2int,
{
    let sf_id = match parse_subfactor(tokens, tg, arena) {
        ParseResult::NoneFound => {
            return ParseResult::NoneFound;
        },
        ParseResult::Fail(err_str) => {
            return ParseResult::Fail(err_str);
        },
        ParseResult::Found(id) => id,
    };
    let op = match tg.peek(tokens) {
        Some(op) => op,
        None => {
            return ParseResult::Found(sf_id);
        },
    };
    match op {
        Token::Fact => {
            tg.next(tokens);
        },
        _ => {
            return ParseResult::Found(sf_id);
        },
    }
    let ghost before = arena.nodes@;
    let node_id = arena.alloc_node(Token::Fact, Some(sf_id), None);
    proof {
        lemma_arena_model_push(
            before,
            Node { token: Token::Fact, left_id: Some(sf_id), right_id: None },
        );
        lemma_wf_arena_push(
            arena_model(before),
            node_model(Node { token: Token::Fact, left_id: Some(sf_id), right_id: None }),
        );
    }
    ParseResult::Found(node_id)
}

/// The iterated right side of a term: * / % operators folded
/// left-associatively onto the running root.
#[verifier::rlimit(100)]
fn parse_term_right(
    tokens: &Vec<Token>,
    tg: &mut TokenGetter,
    arena: &mut TreeArena,
    root_id: usize,
) -> (r: ParseResult)
    requires
        old(tg).index <= tokens@.len(),
        root_id < old(arena).nodes@.len(),
        forall|i: int| 0 <= i < tokens@.len() ==> (#[trigger] tokens@[i]).wf(),
        wf_arena(arena_model(old(arena).nodes@)),
        nodes_wf(old(arena).nodes@),
    ensures
        old(tg).index <= final(tg).index <= tokens@.len(),
        old(arena).nodes@.len() <= final(arena).nodes@.len(),
        wf_arena(arena_model(final(arena).nodes@)),
        nodes_wf(final(arena).nodes@),
        spec_term_right(
            token_models(tokens@),
            old(tg).index as int,
            arena_model(old(arena).nodes@),
            root_id as int,
        ) == (PStep {
            res: res_model(r),
            next: final(tg).index as int,
            ar: arena_model(final(arena).nodes@),
        }),
        r is Found ==> r->Found_0 < final(arena).nodes@.len(),
    decreases tokens@.len() - tg.index, 4int,
{
    let ghost toks = token_models(tokens@);
    let mut cur_root = root_id;
    loop
        invariant
            tg.index <= tokens@.len(),
            cur_root < arena.nodes@.len(),
            forall|i: int| 0 <= i < tokens@.len() ==> (#[trigger] tokens@[i]).wf(),
            wf_arena(arena_model(arena.nodes@)),
            nodes_wf(arena.nodes@),
            toks == token_models(tokens@),
            old(tg).index <= tg.index,
            old(arena).nodes@.len() <= arena.nodes@.len(),
            spec_term_right(toks, old(tg).index as int, arena_model(old(arena).nodes@), root_id as int)
                == spec_term_right(
                toks,
                tg.index as int,
                arena_model(arena.nodes@),
                cur_root as int,
            ),
        decreases tokens@.len() - tg.index,
    {
        let ghost p0 = tg.index as int;
        let ghost ar_now = arena_model(arena.nodes@);
        let op = match tg.peek(tokens) {
            Some(op) => op,
            None => {
                proof {
                    assert(spec_term_right(toks, p0, ar_now, cur_root as int) == (PStep {
                        res: PRes::Found(cur_root as int),
                        next: p0,
                        ar: ar_now,
                    }));
                }
                return ParseResult::Found(cur_root);
            },
        };
        match op {
            Token::Mul => {
            },
            Token::Div => {
            },
            Token::Mod => {
            },
            _ => {
                proof {
                    assert(spec_term_right(toks, p0, ar_now, cur_root as int) == (PStep {
                        res: PRes::Found(cur_root as int),
                        next: p0,
                        ar: ar_now,
                    }));
                }
                return ParseResult::Found(cur_root);
            },
        }
        tg.next(tokens);
        let right_id = match parse_factor(tokens, tg, arena) {
            ParseResult::NoneFound => {
                proof {
                    assert(spec_term_right(toks, p0, ar_now, cur_root as int) == (PStep {
                        res: PRes::Fail("missing factor"@),
                        next: tg.index as int,
                        ar: arena_model(arena.nodes@),
                    }));
                }
                return ParseResult::Fail(String::from_str("missing factor"));
            },
            ParseResult::Fail(err) => {
                proof {
                    assert(spec_term_right(toks, p0, ar_now, cur_root as int) == (PStep {
                        res: PRes::Fail(err@),
                        next: tg.index as int,
                        ar: arena_model(arena.nodes@),
                    }));
                }
                return ParseResult::Fail(err);
            },
            ParseResult::Found(right_id) => right_id,
        };
        let ghost before = arena.nodes@;
        let node_id = arena.alloc_node(op, Some(cur_root), Some(right_id));
        proof {
            lemma_arena_model_push(
                before,
                Node { token: op, left_id: Some(cur_root), right_id: Some(right_id) },
            );
            lemma_wf_arena_push(
                arena_model(before),
                node_model(Node { token: op, left_id: Some(cur_root), right_id: Some(right_id) }),
            );
            assert(spec_term_right(toks, p0, ar_now, cur_root as int) == spec_term_right(
                toks,
                tg.index as int,
                arena_model(arena.nodes@),
                node_id as int,
            ));
        }
        cur_root = node_id;
    }
}

/// Term: a factor and its iterated right side.
#[verifier::rlimit(100)]
fn parse_term(tokens: &Vec<Token>, tg: &mut TokenGetter, arena: &mut TreeArena) -> (r: ParseResult)
    requires
        old(tg).index <= tokens@.len(),
        forall|i: int| 0 <= i < tokens@.len() ==> (#[trigger] tokens@[i]).wf(),
        wf_arena(arena_model(old(arena).nodes@)),
        nodes_wf(old(arena).nodes@),
    ensures
        old(tg).index <= final(tg).index <= tokens@.len(),
        old(arena).nodes@.len() <= final(arena).nodes@.len(),
        wf_arena(arena_model(final(arena).nodes@)),
        nodes_wf(final(arena).nodes@),
        spec_term(token_models(tokens@), old(tg).index as int, arena_model(old(arena).nodes@))
            == (PStep {
            res: res_model(r),
            next: final(tg).index as int,
            ar: arena_model(final(arena).nodes@),
        }),
        r is Found ==> r->Found_0 < final(arena).nodes@.len() && final(tg).index > old(tg).index,
    decreases tokens@.len() - tg.index, 3int,
{
    let root_id = match parse_factor(tokens, tg, arena) {
        ParseResult::NoneFound => {
            return ParseResult::NoneFound;
        },
        ParseResult::Fail(err) => {
            return ParseResult::Fail(err);
        },
        ParseResult::Found(root_id) => root_id,
    };
    match parse_term_right(tokens, tg, arena, root_id) {
        ParseResult::NoneFound => ParseResult::Found(root_id),
        ParseResult::Fail(err) => ParseResult::Fail(err),
        ParseResult::Found(new_root) => ParseResult::Found(new_root),
    }
}

/// The iterated right side of an expression: + and - operators folded
/// left-associatively onto the running root.
#[verifier::rlimit(100)]
fn parse_expression_right(
    tokens: &Vec<Token>,
    tg: &mut TokenGetter,
    arena: &mut TreeArena,
    root_id: usize,
) -> (r: ParseResult)
    requires
        old(tg).index <= tokens@.len(),
        root_id < old(arena).nodes@.len(),
        forall|i: int| 0 <= i < tokens@.len() ==> (#[trigger] tokens@[i]).wf(),
        wf_arena(arena_model(old(arena).nodes@)),
        nodes_wf(old(arena).nodes@),
    ensures
        old(tg).index <= final(tg).index <= tokens@.len(),
        old(arena).nodes@.len() <= final(arena).nodes@.len(),
        wf_arena(arena_model(final(arena).nodes@)),
        nodes_wf(final(arena).nodes@),
        spec_expression_right(
            token_models(tokens@),
            old(tg).index as int,
            arena_model(old(arena).nodes@),
            root_id as int,
        ) == (PStep {
            res: res_model(r),
            next: final(tg).index as int,
            ar: arena_model(final(arena).nodes@),
        }),
        r is Found ==> r->Found_0 < final(arena).nodes@.len(),
    decreases tokens@.len() - tg.index, 6int,
{
    let ghost toks = token_models(tokens@);
    let mut cur_root = root_id;
    loop
        invariant
            tg.index <= tokens@.len(),
            cur_root < arena.nodes@.len(),
            forall|i: int| 0 <= i < tokens@.len() ==> (#[trigger] tokens@[i]).wf(),
            wf_arena(arena_model(arena.nodes@)),
            nodes_wf(arena.nodes@),
            toks == token_models(tokens@),
            old(tg).index <= tg.index,
            old(arena).nodes@.len() <= arena.nodes@.len(),
            spec_expression_right(
                toks,
                old(tg).index as int,
                arena_model(old(arena).nodes@),
                root_id as int,
            ) == spec_expression_right(
                toks,
                tg.index as int,
                arena_model(arena.nodes@),
                cur_root as int,
            ),
        decreases tokens@.len() - tg.index,
    {
        let ghost p0 = tg.index as int;
        let ghost ar_now = arena_model(arena.nodes@);
        let op = match tg.peek(tokens) {
            Some(op) => op,
            None => {
                proof {
                    assert(spec_expression_right(toks, p0, ar_now, cur_root as int) == (PStep {
                        res: PRes::Found(cur_root as int),
                        next: p0,
                        ar: ar_now,
                    }));
                }
                return ParseResult::Found(cur_root);
            },
        };
        match op {
            Token::Add => {
            },
            Token::Sub => {
            },
            _ => {
                proof {
                    assert(spec_expression_right(toks, p0, ar_now, cur_root as int) == (PStep {
                        res: PRes::Found(cur_root as int),
                        next: p0,
                        ar: ar_now,
                    }));
                }
                return ParseResult::Found(cur_root);
            },
        }
        tg.next(tokens);
        let right_id = match parse_term(tokens, tg, arena) {
            ParseResult::NoneFound => {
                proof {
                    assert(spec_expression_right(toks, p0, ar_now, cur_root as int) == (PStep {
                        res: PRes::Fail("missing term"@),
                        next: tg.index as int,
                        ar: arena_model(arena.nodes@),
                    }));
                }
                return ParseResult::Fail(String::from_str("missing term"));
            },
            ParseResult::Fail(err) => {
                proof {
                    assert(spec_expression_right(toks, p0, ar_now, cur_root as int) == (PStep {
                        res: PRes::Fail(err@),
                        next: tg.index as int,
                        ar: arena_model(arena.nodes@),
                    }));
                }
                return ParseResult::Fail(err);
            },
            ParseResult::Found(right_id) => right_id,
        };
        let ghost before = arena.nodes@;
        let node_id = arena.alloc_node(op, Some(cur_root), Some(right_id));
        proof {
            lemma_arena_model_push(
                before,
                Node { token: op, left_id: Some(cur_root), right_id: Some(right_id) },
            );
            lemma_wf_arena_push(
                arena_model(before),
                node_model(Node { token: op, left_id: Some(cur_root), right_id: Some(right_id) }),
            );
            assert(spec_expression_right(toks, p0, ar_now, cur_root as int) == spec_expression_right(
                toks,
                tg.index as int,
                arena_model(arena.nodes@),
                node_id as int,
            ));
        }
        cur_root = node_id;
    }
}

/// Expression: a term and its iterated right side.
#[verifier::rlimit(100)]
fn parse_expression(tokens: &Vec<Token>, tg: &mut TokenGetter, arena: &mut TreeArena) -> (r:
    ParseResult)
    requires
        old(tg).index <= tokens@.len(),
        forall|i: int| 0 <= i < tokens@.len() ==> (#[trigger] tokens@[i]).wf(),
        wf_arena(arena_model(old(arena).nodes@)),
        nodes_wf(old(arena).nodes@),
    ensures
        old(tg).index <= final(tg).index <= tokens@.len(),
        old(arena).nodes@.len() <= final(arena).nodes@.len(),
        wf_arena(arena_model(final(arena).nodes@)),
        nodes_wf(final(arena).nodes@),
        spec_expression(
            token_models(tokens@),
            old(tg).index as int,
            arena_model(old(arena).nodes@),
        ) == (PStep {
            res: res_model(r),
            next: final(tg).index as int,
            ar: arena_model(final(arena).nodes@),
        }),
        r is Found ==> r->Found_0 < final(arena).nodes@.len() && final(tg).index > old(tg).index,
    decreases tokens@.len() - tg.index, 5int,
{
    let root_id = match parse_term(tokens, tg, arena) {
        ParseResult::NoneFound => {
            return ParseResult::NoneFound;
        },
        ParseResult::Fail(err) => {
            return ParseResult::Fail(err);
        },
        ParseResult::Found(root_id) => root_id,
    };
    match parse_expression_right(tokens, tg, arena, root_id) {
        ParseResult::NoneFound => ParseResult::Found(root_id),
        ParseResult::Fail(err) => ParseResult::Fail(err),
        ParseResult::Found(new_root) => ParseResult::Found(new_root),
    }
}

/// What building a tree from the token shapes yields: the arena and root
/// of the parsed expression, a lone Nothing leaf for empty input, or the
/// first syntax error's text.
pub open spec fn spec_make_tree(toks: Seq<TokenModel>) -> Result<(Seq<NodeModel>, int), Seq<char>> {
    let e = spec_expression(toks, 0, Seq::empty());
    match e.res {
        PRes::NoneFound => Ok(
            (
                e.ar.push(NodeModel { tok: TokenModel::Nothing, left: None, right: None }),
                e.ar.len() as int,
            ),
        ),
        PRes::Found(root) => Ok((e.ar, root)),
        PRes::Fail(msg) => Err(msg),
    }
}

/// Builds the expression tree from the token sequence.
pub fn make_tree(tokens: &Vec<Token>) -> (r: Result<Tree, String>)
    requires
        forall|i: int| 0 <= i < tokens@.len() ==> (#[trigger] tokens@[i]).wf(),
    ensures
        match r {
            Ok(tree) => tree.wf() && spec_make_tree(token_models(tokens@)) == Ok::<
                (Seq<NodeModel>, int),
                Seq<char>,
            >((arena_model(tree.arena.nodes@), tree.root_id as int)),
            Err(e) => spec_make_tree(token_models(tokens@)) == Err::<
                (Seq<NodeModel>, int),
                Seq<char>,
            >(e@),
        },
{
    let mut arena = TreeArena::new_with_size(tokens.len());
    let mut tg = TokenGetter { index: 0 };
    proof {
        assert(arena_model(arena.nodes@) =~= Seq::<NodeModel>::empty());
    }
    let root_id = match parse_expression(tokens, &mut tg, &mut arena) {
        ParseResult::NoneFound => {
            let ghost before = arena.nodes@;
            let id = arena.alloc_leaf(Token::Nothing);
            proof {
                lemma_arena_model_push(
                    before,
                    Node { token: Token::Nothing, left_id: None, right_id: None },
                );
                lemma_wf_arena_push(
                    arena_model(before),
                    node_model(Node { token: Token::Nothing, left_id: None, right_id: None }),
                );
            }
            id
        },
        ParseResult::Found(root_id) => root_id,
        ParseResult::Fail(err) => {
            return Err(err);
        },
    };
    Ok(Tree { arena, root_id })
}

/// What one whole evaluation request yields, as display text: the decimal
/// rendering of the result, or the first error's text.
pub open spec fn spec_eval_input(input: Seq<char>) -> Seq<char> {
    match spec_tokenize(input, 0) {
        Err(e) => e.message(),
        Ok(toks) => match spec_make_tree(toks) {
            Err(msg) => msg,
            Ok((ns, root)) => match spec_eval_node(ns, root) {
                Ok(v) => num_text(v),
                Err(e) => e.message(),
            },
        },
    }
}

/// Parses and evaluates one expression, rendering the result or the
/// first error in decimal display text.
pub fn eval_input(input: &str) -> (r: String)
    ensures
        r@ == spec_eval_input(input@),
{
    let tokens = match token::tokenize(input) {
        Ok(tokens) => tokens,
        Err(err) => {
            return err.to_string();
        },
    };
    match make_tree(&tokens) {
        Ok(tree) => {
            match tree.eval() {
                Ok(nv) => {
                    proof {
                        crate::digits::lemma_digits_canonical(nv.digits@);
                    }
                    nv.to_string()
                },
                Err(err) => err.to_string(),
            }
        },
        Err(err) => err,
    }
}

impl Tree {
    /// Draws the subtree rooted at node_id onto the canvas.  This is the
    /// diagnostic display only: the drawing truncates silently at the
    /// grid's edges, so only grid well-formedness is stated.
    pub fn draw_node(&self, node_id: usize, pad: usize, canvas: &mut crate::text_canvas::TextCanvas)
        requires
            self.wf(),
            node_id < self.arena.nodes@.len(),
            old(canvas).wf(),
            old(canvas).width < usize::MAX,
        ensures
            final(canvas).wf(),
            final(canvas).width == old(canvas).width,
            final(canvas).height == old(canvas).height,
        decreases node_id,
    {
        let node_token = self.arena.nodes[node_id].token;
        let left_id = self.arena.nodes[node_id].left_id;
        let right_id = self.arena.nodes[node_id].right_id;
        proof {
            assert(self.arena.nodes@[node_id as int].token.wf());
            assert(arena_model(self.arena.nodes@)[node_id as int].left == match left_id {
                Some(l) => Some(l as int),
                None => None,
            });
            assert(arena_model(self.arena.nodes@)[node_id as int].right == match right_id {
                Some(r) => Some(r as int),
                None => None,
            });
        }
        let ts = node_token.to_string();
        canvas.do_str_fix(ts.as_str());
        canvas.down();
        match left_id {
            Some(lid) => {
                let state0 = canvas.get_state();
                canvas.do_str("\u{2534}");
                canvas.left(pad / 2 + 2);
                let state1 = canvas.get_state();
                canvas.do_str("\u{250c}");
                canvas.do_str_n("\u{2500}", pad / 2);
                canvas.right(1);
                canvas.set_state(state1);
                canvas.down();
                let child_pad: usize = if pad >= 2 {
                    pad / 2 - 1
                } else {
                    0
                };
                self.draw_node(lid, child_pad, canvas);
                canvas.set_state(state0);
            },
            None => {
            },
        }
        match right_id {
            Some(rid) => {
                let state0 = canvas.get_state();
                canvas.do_str("\u{2534}");
                canvas.do_str_n("\u{2500}", pad / 2);
                canvas.do_str_fix("\u{2510}");
                canvas.down();
                self.draw_node(rid, pad / 2, canvas);
                canvas.set_state(state0);
            },
            None => {
            },
        }
    }

    /// Renders the whole tree into a fixed 64 by 64 character grid, for
    /// diagnostic display only.
    pub fn to_string(&self) -> (r: String)
        requires
            self.wf(),
    {
        let mut canvas = crate::text_canvas::TextCanvas::new(64, 64);
        let pad: usize = 16;
        canvas.right(pad);
        self.draw_node(self.root_id, pad, &mut canvas);
        canvas.to_string()
    }
}

/// One evaluation request's full display: the error line, the decimal
/// rendering and the hexadecimal rendering.
pub struct DetailedEval {
    pub state_str: String,
    pub result_dec: String,
    pub result_hex: String,
}

/// The error line of a request: empty on success.
pub open spec fn spec_detail_state(input: Seq<char>) -> Seq<char> {
    match spec_tokenize(input, 0) {
        Err(e) => e.message(),
        Ok(toks) => match spec_make_tree(toks) {
            Err(msg) => msg,
            Ok((ns, root)) => match spec_eval_node(ns, root) {
                Ok(_) => ""@,
                Err(e) => e.message(),
            },
        },
    }
}

/// The decimal result line of a request: a placeholder on failure.
pub open spec fn spec_detail_dec(input: Seq<char>) -> Seq<char> {
    match spec_tokenize(input, 0) {
        Err(_) => "--"@,
        Ok(toks) => match spec_make_tree(toks) {
            Err(_) => "--"@,
            Ok((ns, root)) => match spec_eval_node(ns, root) {
                Ok(v) => num_text(v),
                Err(_) => "--"@,
            },
        },
    }
}

/// The hexadecimal result line of a request: a placeholder on failure.
pub open spec fn spec_detail_hex(input: Seq<char>) -> Seq<char> {
    match spec_tokenize(input, 0) {
        Err(_) => "--"@,
        Ok(toks) => match spec_make_tree(toks) {
            Err(_) => "--"@,
            Ok((ns, root)) => match spec_eval_node(ns, root) {
                Ok(v) => crate::big_dec::hex_display_of_mag(crate::big_dec::hex_mag_of_val(v)),
                Err(_) => "--"@,
            },
        },
    }
}

/// Parses and evaluates one expression and renders the result in decimal
/// and hexadecimal, or reports the first error; results are placeholders
/// on failure.
pub fn eval_input_detailed(input: &str) -> (de: DetailedEval)
    ensures
        de.state_str@ == spec_detail_state(input@),
        de.result_dec@ == spec_detail_dec(input@),
        de.result_hex@ == spec_detail_hex(input@),
{
    let mut ret = DetailedEval {
        state_str: String::from_str(""),
        result_dec: String::from_str("--"),
        result_hex: String::from_str("--"),
    };
    let tokens = match token::tokenize(input) {
        Ok(tokens) => tokens,
        Err(err) => {
            ret.state_str = err.to_string();
            return ret;
        },
    };
    match make_tree(&tokens) {
        Ok(tree) => {
            match tree.eval() {
                Ok(nv) => {
                    proof {
                        crate::digits::lemma_digits_canonical(nv.digits@);
                        crate::big_dec::lemma_hex_mag_val(nv);
                    }
                    ret.result_dec = nv.to_string();
                    ret.result_hex = nv.to_string_hex(8);
                    ret
                },
                Err(err) => {
                    ret.state_str = err.to_string();
                    ret
                },
            }
        },
        Err(err) => {
            ret.state_str = err;
            ret
        },
    }
}

/// The diagnostic drawing of an expression's tree, or an empty string
/// when the input does not parse.
pub fn render_tree(input: &str) -> (r: String) {
    let tokens = match token::tokenize(input) {
        Ok(tokens) => tokens,
        Err(_) => {
            return String::from_str("");
        },
    };
    match make_tree(&tokens) {
        Ok(tree) => tree.to_string(),
        Err(_) => String::from_str(""),
    }
}

} // verus!
