//! Recursive-descent parser: consumes the Lexer's token sequence through a
//! position cursor and builds a tree of expression nodes.

use vstd::prelude::*;

use crate::lexer::{
    eq_str, id_clos_paren, id_end, id_item, id_number_lit, id_open_paren, id_string_lit,
    id_symb_comma, lemma_id_views, lex_spec, strip_spec, tok, toks_of, Lexer, Source, Token,
    TokenV,
};

verus! {

// ---------------------------------------------------------------------------
// Node payload
// ---------------------------------------------------------------------------

/// Model of a tagged value: a semantic tag and a textual value.
#[verifier::ext_equal]
pub ghost struct DataV {
    pub data_type: Seq<char>,
    pub value: Seq<char>,
}

pub open spec fn dv(data_type: Seq<char>, value: Seq<char>) -> DataV {
    DataV { data_type, value }
}

/// A tagged value: the payload carried by AST nodes.
#[derive(Clone)]
pub struct Data {
    pub data_type: String,
    pub value: String,
}

impl View for Data {
    type V = DataV;

    open spec fn view(&self) -> DataV {
        DataV { data_type: self.data_type@, value: self.value@ }
    }
}

impl Data {
    pub fn new(data_type: &str, value: &str) -> (d: Data)
        ensures
            d@ == dv(data_type@, value@),
    {
        Data { data_type: data_type.to_owned(), value: value.to_owned() }
    }
}

// ---------------------------------------------------------------------------
// AST nodes
// ---------------------------------------------------------------------------

/// Model of an AST node: a terminal leaf, a binary construct, or an ordered
/// list of children.
#[verifier::ext_equal]
pub ghost enum NodeV {
    Unary { name: Seq<char>, value: DataV },
    Binary { value: DataV, left: Box<NodeV>, right: Box<NodeV> },
    ListN { name: Seq<char>, items: Seq<NodeV>, index: nat },
}

/// A terminal node: an item, a literal, or the end marker.
pub struct UnaryNode {
    pub value: Data,
    pub name: String,
}

/// A two-child node: a function-call form or a binary-operator form.
pub struct BinaryNode {
    pub value: Data,
    pub left: Box<Node>,
    pub right: Box<Node>,
}

/// An ordered list of children: a function call's argument list. The cursor
/// index serves single-element retrieval and is never advanced by the parser.
pub struct ListNode {
    pub value: Vec<Node>,
    pub name: String,
    pub index: usize,
}

/// An AST node: one of the three shapes above. Every node exclusively owns
/// its children, so the tree is strict, with no sharing and no cycles.
pub enum Node {
    Unary(UnaryNode),
    Binary(BinaryNode),
    List(ListNode),
}

impl Node {
    /// The mathematical tree this node represents.
    pub open spec fn deep(self) -> NodeV
        decreases self, 1int,
    {
        match self {
            Node::Unary(u) => NodeV::Unary { name: u.name@, value: u.value@ },
            Node::Binary(b) => NodeV::Binary {
                value: b.value@,
                left: Box::new((*b.left).deep()),
                right: Box::new((*b.right).deep()),
            },
            Node::List(l) => NodeV::ListN {
                name: l.name@,
                items: deep_seq(l.value@),
                index: l.index as nat,
            },
        }
    }
}

pub open spec fn deep_seq(s: Seq<Node>) -> Seq<NodeV>
    decreases s, 0int,
{
    if s.len() <= 0 {
        Seq::empty()
    } else {
        seq![s[0].deep()] + deep_seq(s.subrange(1, s.len() as int))
    }
}

pub proof fn lemma_deep_seq(s: Seq<Node>)
    ensures
        deep_seq(s).len() == s.len(),
        forall|i: int| 0 <= i < s.len() ==> #[trigger] deep_seq(s)[i] == s[i].deep(),
    decreases s.len(),
{
    if s.len() > 0 {
        lemma_deep_seq(s.subrange(1, s.len() as int));
        assert forall|i: int| 0 <= i < s.len() implies #[trigger] deep_seq(s)[i]
            == s[i].deep() by {
            if i > 0 {
                assert(s.subrange(1, s.len() as int)[i - 1] == s[i]);
            }
        }
    }
}

/// The tagged value a node carries: a leaf's or binary node's own value, and
/// for a list the value of the child at the cursor index, or an empty value
/// when the index is out of range.
pub open spec fn value_of(n: NodeV) -> DataV
    decreases n,
{
    match n {
        NodeV::Unary { value, .. } => value,
        NodeV::Binary { value, .. } => value,
        NodeV::ListN { items, index, .. } => if index < items.len() {
            value_of(items[index as int])
        } else {
            dv(Seq::empty(), Seq::empty())
        },
    }
}

impl Node {
    /// The tagged value this node carries.
    pub fn get_value(&self) -> (d: Data)
        ensures
            d@ == value_of(self.deep()),
        decreases *self,
    {
        match self {
            Node::Unary(u) => Data::new(u.value.data_type.as_str(), u.value.value.as_str()),
            Node::Binary(b) => Data::new(b.value.data_type.as_str(), b.value.value.as_str()),
            Node::List(l) => {
                proof {
                    lemma_deep_seq(l.value@);
                }
                if l.index < l.value.len() {
                    l.value[l.index].get_value()
                } else {
                    let d = Data::new("", "");
                    proof {
                        reveal_strlit("");
                        assert(""@ =~= Seq::<char>::empty());
                    }
                    d
                }
            },
        }
    }

    /// A short discriminator for the node's shape.
    pub fn get_type(&self) -> (r: &'static str)
        ensures
            self is Unary ==> r@ == "unary"@,
            self is Binary ==> r@ == "binary"@,
            self is List ==> r@ == "list"@,
    {
        match self {
            Node::Unary(..) => "unary",
            Node::Binary(..) => "binary",
            Node::List(..) => "list",
        }
    }
}

impl UnaryNode {
    pub fn new(name: &str, value: Data) -> (n: UnaryNode)
        ensures
            n.name@ == name@,
            n.value == value,
    {
        UnaryNode { value, name: name.to_owned() }
    }
}

impl BinaryNode {
    pub fn new(value: Data, left: Box<Node>, right: Box<Node>) -> (n: BinaryNode)
        ensures
            n.value == value,
            n.left == left,
            n.right == right,
    {
        BinaryNode { left, right, value }
    }
}

// ---------------------------------------------------------------------------
// Cursor access
// ---------------------------------------------------------------------------

/// The synthetic end-of-stream token handed out beyond either end of the
/// sequence.
pub open spec fn end_tok() -> TokenV {
    tok(id_end(), id_end())
}

pub open spec fn cur_at(ts: Seq<TokenV>, p: nat) -> TokenV {
    if p < ts.len() {
        ts[p as int]
    } else {
        end_tok()
    }
}

pub open spec fn prv_at(ts: Seq<TokenV>, p: nat) -> TokenV {
    if 1 <= p && p <= ts.len() {
        ts[p - 1]
    } else {
        end_tok()
    }
}

/// Operator categories share the `OPER_` prefix.
pub open spec fn is_oper_id(id: Seq<char>) -> bool {
    id.len() >= 5 && id.subrange(0, 5) == seq!['O', 'P', 'E', 'R', '_']
}

fn is_oper_prefix(s: &str) -> (r: bool)
    ensures
        r == is_oper_id(s@),
{
    let n: usize = s.unicode_len();
    if n < 5 {
        return false;
    }
    let r = s.get_char(0) == 'O' && s.get_char(1) == 'P' && s.get_char(2) == 'E' && s.get_char(3)
        == 'R' && s.get_char(4) == '_';
    proof {
        assert(s@.subrange(0, 5)[0] == s@[0]);
        assert(s@.subrange(0, 5)[1] == s@[1]);
        assert(s@.subrange(0, 5)[2] == s@[2]);
        assert(s@.subrange(0, 5)[3] == s@[3]);
        assert(s@.subrange(0, 5)[4] == s@[4]);
        if r {
            assert(s@.subrange(0, 5) =~= seq!['O', 'P', 'E', 'R', '_']);
        }
    }
    r
}

// ---------------------------------------------------------------------------
// The grammar
// ---------------------------------------------------------------------------

/// Outcome of parsing one expression: the node built and the cursor position
/// after it, or the fatal failure carrying the unexpected token's text.
#[verifier::ext_equal]
pub ghost enum ExprOut {
    Done { node: NodeV, next: nat },
    Abort { found: Seq<char> },
}

/// Outcome of parsing an argument list.
#[verifier::ext_equal]
pub ghost enum ArgsOut {
    DoneA { items: Seq<NodeV>, after: nat },
    AbortA { text: Seq<char> },
}

/// One expression, parsed at position `p`:
/// - an item followed by an open-group is a function call: a `FUNC`-tagged
///   binary node whose left leaf is the item and whose right child is the
///   argument list; the close-group is consumed, end-of-stream is accepted in
///   its place, and any other token aborts the parse;
/// - an item followed by an operator is an `ITEM`-tagged binary node whose
///   right subtree is the rest of the expression (right-associative, no
///   precedence);
/// - a bare item is a leaf;
/// - an open-group wraps the inner expression transparently, consuming the
///   expected close-group;
/// - a literal behaves like an item, except that a following operator tags
///   the binary node with the operator's own category;
/// - anything else ends parsing with an `END` leaf.
///
/// The cursor never runs past the end of the sequence: every position beyond
/// it reads as the end-of-stream token, so the blind consumption of an
/// expected close-group saturates at the end.
pub open spec fn parse_expr_spec(ts: Seq<TokenV>, p: nat) -> ExprOut
    decreases ts.len() - p, 0int,
{
    let c = cur_at(ts, p);
    if c.id == id_item() {
        let nx = cur_at(ts, (p + 1) as nat);
        if nx.id == id_open_paren() {
            match parse_args_spec(ts, (p + 2) as nat) {
                ArgsOut::AbortA { text } => ExprOut::Abort { found: text },
                ArgsOut::DoneA { items, after } => {
                    let fnode = NodeV::Binary {
                        value: dv("FUNC"@, "FUNC"@),
                        left: Box::new(
                            NodeV::Unary { name: id_item(), value: dv(""@, c.value) },
                        ),
                        right: Box::new(
                            NodeV::ListN { name: "PARAMS_LIST"@, items, index: 0 },
                        ),
                    };
                    let t2 = cur_at(ts, after);
                    if t2.id == id_clos_paren() {
                        ExprOut::Done {
                            node: fnode,
                            next: if after < ts.len() {
                                (after + 1) as nat
                            } else {
                                after
                            },
                        }
                    } else if t2.id == id_end() {
                        ExprOut::Done { node: fnode, next: after }
                    } else {
                        ExprOut::Abort { found: t2.value }
                    }
                },
            }
        } else if is_oper_id(nx.id) {
            match parse_expr_spec(ts, (p + 2) as nat) {
                ExprOut::Abort { found } => ExprOut::Abort { found },
                ExprOut::Done { node, next } => ExprOut::Done {
                    node: NodeV::Binary {
                        value: dv(id_item(), id_item()),
                        left: Box::new(
                            NodeV::Unary { name: id_item(), value: dv(""@, c.value) },
                        ),
                        right: Box::new(node),
                    },
                    next,
                },
            }
        } else {
            ExprOut::Done {
                node: NodeV::Unary { name: id_item(), value: dv(""@, c.value) },
                next: (p + 1) as nat,
            }
        }
    } else if c.id == id_open_paren() {
        match parse_expr_spec(ts, (p + 1) as nat) {
            ExprOut::Abort { found } => ExprOut::Abort { found },
            ExprOut::Done { node, next } => ExprOut::Done {
                node,
                next: if next < ts.len() {
                    (next + 1) as nat
                } else {
                    next
                },
            },
        }
    } else if c.id == id_number_lit() || c.id == id_string_lit() {
        let nx = cur_at(ts, (p + 1) as nat);
        if is_oper_id(nx.id) {
            match parse_expr_spec(ts, (p + 2) as nat) {
                ExprOut::Abort { found } => ExprOut::Abort { found },
                ExprOut::Done { node, next } => ExprOut::Done {
                    node: NodeV::Binary {
                        value: dv(nx.id, nx.id),
                        left: Box::new(NodeV::Unary { name: c.id, value: dv(""@, c.value) }),
                        right: Box::new(node),
                    },
                    next,
                },
            }
        } else {
            ExprOut::Done {
                node: NodeV::Unary { name: c.id, value: dv(""@, c.value) },
                next: (p + 1) as nat,
            }
        }
    } else {
        ExprOut::Done {
            node: NodeV::Unary { name: id_end(), value: dv(id_end(), id_end()) },
            next: p,
        }
    }
}

/// An argument list at position `p`: expressions separated by the list
/// separator, ended by a close-group or by end-of-stream (possibly empty).
pub open spec fn parse_args_spec(ts: Seq<TokenV>, p: nat) -> ArgsOut
    decreases ts.len() - p, 1int,
{
    let c = cur_at(ts, p);
    if c.id == id_clos_paren() || c.id == id_end() {
        ArgsOut::DoneA { items: Seq::empty(), after: p }
    } else {
        match parse_expr_spec(ts, p) {
            ExprOut::Abort { found } => ArgsOut::AbortA { text: found },
            ExprOut::Done { node, next } => {
                let np = if next < p {
                    p
                } else {
                    next
                };
                if cur_at(ts, np).id == id_symb_comma() {
                    match parse_args_spec(ts, (np + 1) as nat) {
                        ArgsOut::AbortA { text } => ArgsOut::AbortA { text },
                        ArgsOut::DoneA { items, after } => ArgsOut::DoneA {
                            items: seq![node] + items,
                            after,
                        },
                    }
                } else {
                    ArgsOut::DoneA { items: seq![node], after: np }
                }
            },
        }
    }
}

// ---------------------------------------------------------------------------
// The Parser
// ---------------------------------------------------------------------------

/// A position whose token has any category but the synthetic end one lies
/// inside the sequence.
proof fn lemma_real_token(ts: Seq<TokenV>, p: nat)
    requires
        cur_at(ts, p).id != id_end(),
    ensures
        p < ts.len(),
{
}

/// The categories the parser dispatches on are distinct from the synthetic
/// end category.
proof fn lemma_ids_distinct()
    ensures
        id_item() != id_end(),
        id_open_paren() != id_end(),
        id_number_lit() != id_end(),
        id_string_lit() != id_end(),
        id_symb_comma() != id_end(),
        id_clos_paren() != id_end(),
        !is_oper_id(id_end()),
{
    assert(id_end().len() == 3);
    assert(id_item().len() == 4);
    assert(id_open_paren().len() == 10);
    assert(id_number_lit().len() == 10);
    assert(id_string_lit().len() == 10);
    assert(id_symb_comma().len() == 10);
    assert(id_clos_paren().len() == 10);
}

/// The fatal failure: a function call closed neither by a close-group nor by
/// end-of-stream. Carries the unexpected token's literal text.
#[derive(Debug)]
pub struct ParseError {
    pub found: String,
}

/// Owns a Lexer and a cursor into its token sequence. Construction lexes the
/// source text eagerly; parsing then consumes the tokens positionally.
pub struct Parser {
    lx: Lexer,
    pos: usize,
}

impl Parser {
    pub closed spec fn toks(self) -> Seq<TokenV> {
        self.lx.toks()
    }

    pub closed spec fn cursor(self) -> nat {
        self.pos as nat
    }

    pub fn new(source_contents: &str) -> (p: Parser)
        ensures
            p.toks() == lex_spec(strip_spec(source_contents@)),
            p.cursor() == 0,
    {
        let mut lx = Lexer::new(Source::new(source_contents));
        lx.lex();
        Parser { lx, pos: 0 }
    }

    /// The token before the cursor, or the end token at the left edge.
    pub fn get_prev_token(&self) -> (t: Token)
        ensures
            t@ == prv_at(self.toks(), self.cursor()),
    {
        let ts: &Vec<Token> = self.lx.get_tokens();
        if self.pos > 0 && self.pos - 1 < ts.len() {
            let tr: &Token = &ts[self.pos - 1];
            let t = Token::new(tr.id.as_str(), tr.value.as_str());
            proof {
                assert(toks_of(ts@)[self.pos - 1] == ts@[self.pos - 1]@);
            }
            t
        } else {
            proof {
                lemma_id_views();
            }
            Token::new("END", "END")
        }
    }

    /// The token under the cursor, or the end token past the stream.
    pub fn get_curr_token(&self) -> (t: Token)
        ensures
            t@ == cur_at(self.toks(), self.cursor()),
    {
        let ts: &Vec<Token> = self.lx.get_tokens();
        if self.pos < ts.len() {
            let tr: &Token = &ts[self.pos];
            let t = Token::new(tr.id.as_str(), tr.value.as_str());
            proof {
                assert(toks_of(ts@)[self.pos as int] == ts@[self.pos as int]@);
            }
            t
        } else {
            proof {
                lemma_id_views();
            }
            Token::new("END", "END")
        }
    }

    /// The token after the cursor, or the end token past the stream.
    pub fn get_next_token(&self) -> (t: Token)
        ensures
            t@ == cur_at(self.toks(), self.cursor() + 1),
    {
        let ts: &Vec<Token> = self.lx.get_tokens();
        if self.pos < ts.len() && self.pos + 1 < ts.len() {
            let tr: &Token = &ts[self.pos + 1];
            let t = Token::new(tr.id.as_str(), tr.value.as_str());
            proof {
                assert(toks_of(ts@)[self.pos + 1] == ts@[self.pos + 1]@);
            }
            t
        } else {
            proof {
                lemma_id_views();
            }
            Token::new("END", "END")
        }
    }

    /// Parses one top-level expression. One call yields exactly one node, or
    /// the fatal failure.
    pub fn parse(&mut self) -> (r: Result<Vec<Node>, ParseError>)
        requires
            old(self).cursor() <= old(self).toks().len(),
        ensures
            final(self).toks() == old(self).toks(),
            old(self).cursor() <= final(self).cursor() <= final(self).toks().len(),
            (match parse_expr_spec(old(self).toks(), old(self).cursor()) {
                ExprOut::Done { node, next } => r matches Ok(v) && v@.len() == 1 && v@[0].deep()
                    == node,
                ExprOut::Abort { found } => r matches Err(e) && e.found@ == found,
            }),
    {
        match self.parse_expr() {
            Err(e) => Err(e),
            Ok(n) => {
                let mut v: Vec<Node> = Vec::new();
                v.push(n);
                Ok(v)
            },
        }
    }

    fn parse_expr(&mut self) -> (r: Result<Node, ParseError>)
        requires
            old(self).cursor() <= old(self).toks().len(),
        ensures
            final(self).toks() == old(self).toks(),
            old(self).cursor() <= final(self).cursor() <= final(self).toks().len(),
            (match parse_expr_spec(old(self).toks(), old(self).cursor()) {
                ExprOut::Done { node, next } => r matches Ok(n) && n.deep() == node
                    && final(self).cursor() == next,
                ExprOut::Abort { found } => r matches Err(e) && e.found@ == found,
            }),
        decreases self.toks().len() - self.cursor(), 0int,
    {
        proof {
            lemma_id_views();
        }
        let n_toks: usize = self.lx.get_tokens().len();
        proof {
            assert(self.toks().len() == n_toks);
        }
        let c: Token = self.get_curr_token();
        if eq_str(c.id.as_str(), "ITEM") {
            let nx: Token = self.get_next_token();
            if eq_str(nx.id.as_str(), "OPEN_PAREN") {
                proof {
                    lemma_ids_distinct();
                    lemma_real_token(self.toks(), self.cursor());
                    lemma_real_token(self.toks(), self.cursor() + 1);
                }
                self.pos = self.pos + 2;
                match self.parse_func_args() {
                    Err(e) => Err(e),
                    Ok(items) => {
                        let left_node: Node = Node::Unary(
                            UnaryNode::new("ITEM", Data::new("", c.value.as_str())),
                        );
                        let list_node: Node = Node::List(
                            ListNode { value: items, name: "PARAMS_LIST".to_owned(), index: 0 },
                        );
                        let ghost lv = left_node.deep();
                        let ghost rv = list_node.deep();
                        let n: Node = Node::Binary(
                            BinaryNode::new(
                                Data::new("FUNC", "FUNC"),
                                Box::new(left_node),
                                Box::new(list_node),
                            ),
                        );
                        proof {
                            assert(n.deep() == NodeV::Binary {
                                value: dv("FUNC"@, "FUNC"@),
                                left: Box::new(lv),
                                right: Box::new(rv),
                            });
                        }
                        let t2: Token = self.get_curr_token();
                        if eq_str(t2.id.as_str(), "CLOS_PAREN") {
                            let len: usize = self.lx.get_tokens().len();
                            if self.pos < len {
                                self.pos = self.pos + 1;
                            }
                            Ok(n)
                        } else if eq_str(t2.id.as_str(), "END") {
                            Ok(n)
                        } else {
                            Err(ParseError { found: t2.value })
                        }
                    },
                }
            } else if is_oper_prefix(nx.id.as_str()) {
                proof {
                    lemma_ids_distinct();
                    lemma_real_token(self.toks(), self.cursor());
                    lemma_real_token(self.toks(), self.cursor() + 1);
                }
                self.pos = self.pos + 2;
                match self.parse_expr() {
                    Err(e) => Err(e),
                    Ok(rn) => {
                        let left_node: Node = Node::Unary(
                            UnaryNode::new("ITEM", Data::new("", c.value.as_str())),
                        );
                        let ghost lv = left_node.deep();
                        let ghost rv = rn.deep();
                        let n: Node = Node::Binary(
                            BinaryNode::new(
                                Data::new("ITEM", "ITEM"),
                                Box::new(left_node),
                                Box::new(rn),
                            ),
                        );
                        proof {
                            assert(n.deep() == NodeV::Binary {
                                value: dv("ITEM"@, "ITEM"@),
                                left: Box::new(lv),
                                right: Box::new(rv),
                            });
                        }
                        Ok(n)
                    },
                }
            } else {
                proof {
                    lemma_ids_distinct();
                    lemma_real_token(self.toks(), self.cursor());
                }
                self.pos = self.pos + 1;
                let pv: Token = self.get_prev_token();
                Ok(Node::Unary(UnaryNode::new("ITEM", Data::new("", pv.value.as_str()))))
            }
        } else if eq_str(c.id.as_str(), "OPEN_PAREN") {
            proof {
                lemma_ids_distinct();
                lemma_real_token(self.toks(), self.cursor());
            }
            self.pos = self.pos + 1;
            match self.parse_expr() {
                Err(e) => Err(e),
                Ok(n) => {
                    let len: usize = self.lx.get_tokens().len();
                    if self.pos < len {
                        self.pos = self.pos + 1;
                    }
                    Ok(n)
                },
            }
        } else if eq_str(c.id.as_str(), "NUMBER_LIT") || eq_str(c.id.as_str(), "STRING_LIT") {
            let nx: Token = self.get_next_token();
            if is_oper_prefix(nx.id.as_str()) {
                proof {
                    lemma_ids_distinct();
                    lemma_real_token(self.toks(), self.cursor());
                    lemma_real_token(self.toks(), self.cursor() + 1);
                }
                self.pos = self.pos + 2;
                match self.parse_expr() {
                    Err(e) => Err(e),
                    Ok(rn) => {
                        let left_node: Node = Node::Unary(
                            UnaryNode::new(c.id.as_str(), Data::new("", c.value.as_str())),
                        );
                        let ghost lv = left_node.deep();
                        let ghost rv = rn.deep();
                        let n: Node = Node::Binary(
                            BinaryNode::new(
                                Data::new(nx.id.as_str(), nx.id.as_str()),
                                Box::new(left_node),
                                Box::new(rn),
                            ),
                        );
                        proof {
                            assert(n.deep() == NodeV::Binary {
                                value: dv(nx.id@, nx.id@),
                                left: Box::new(lv),
                                right: Box::new(rv),
                            });
                        }
                        Ok(n)
                    },
                }
            } else {
                proof {
                    lemma_ids_distinct();
                    lemma_real_token(self.toks(), self.cursor());
                }
                self.pos = self.pos + 1;
                let pv: Token = self.get_prev_token();
                Ok(
                    Node::Unary(
                        UnaryNode::new(pv.id.as_str(), Data::new("", pv.value.as_str())),
                    ),
                )
            }
        } else {
            Ok(Node::Unary(UnaryNode::new("END", Data::new("END", "END"))))
        }
    }

    /// An argument list: expressions separated by the list separator, ended
    /// by a close-group or by end-of-stream. Returns the children in order.
    fn parse_func_args(&mut self) -> (r: Result<Vec<Node>, ParseError>)
        requires
            old(self).cursor() <= old(self).toks().len(),
        ensures
            final(self).toks() == old(self).toks(),
            old(self).cursor() <= final(self).cursor() <= final(self).toks().len(),
            (match parse_args_spec(old(self).toks(), old(self).cursor()) {
                ArgsOut::DoneA { items, after } => r matches Ok(v) && deep_seq(v@) == items
                    && final(self).cursor() == after,
                ArgsOut::AbortA { text } => r matches Err(e) && e.found@ == text,
            }),
        decreases self.toks().len() - self.cursor(), 1int,
    {
        proof {
            lemma_id_views();
        }
        let n_toks: usize = self.lx.get_tokens().len();
        proof {
            assert(self.toks().len() == n_toks);
        }
        let c: Token = self.get_curr_token();
        if eq_str(c.id.as_str(), "CLOS_PAREN") || eq_str(c.id.as_str(), "END") {
            let v: Vec<Node> = Vec::new();
            proof {
                assert(deep_seq(v@) =~= Seq::<NodeV>::empty());
            }
            return Ok(v);
        }
        match self.parse_expr() {
            Err(e) => Err(e),
            Ok(node) => {
                let c2: Token = self.get_curr_token();
                if eq_str(c2.id.as_str(), "SYMB_COMMA") {
                    proof {
                        lemma_ids_distinct();
                        lemma_real_token(self.toks(), self.cursor());
                    }
                    self.pos = self.pos + 1;
                    match self.parse_func_args() {
                        Err(e) => Err(e),
                        Ok(mut items) => {
                            let ghost tail = items@;
                            items.insert(0, node);
                            proof {
                                assert(items@[0] == node);
                                assert(items@.subrange(1, items@.len() as int) =~= tail);
                                assert(deep_seq(items@) =~= seq![node.deep()] + deep_seq(tail));
                            }
                            Ok(items)
                        },
                    }
                } else {
                    let mut v: Vec<Node> = Vec::new();
                    v.push(node);
                    proof {
                        assert(v@[0] == node);
                        assert(v@.subrange(1, 1) =~= Seq::<Node>::empty());
                        assert(deep_seq(v@.subrange(1, 1)) =~= Seq::<NodeV>::empty());
                        assert(deep_seq(v@) =~= seq![node.deep()]);
                    }
                    Ok(v)
                }
            },
        }
    }
}

// ---------------------------------------------------------------------------
// Laws
// ---------------------------------------------------------------------------

/// Grouping is transparent: when an expression stands at a position holding
/// an open-group symbol, the tree built is exactly the tree of the inner
/// expression; the group contributes no node of its own.
/// Parsing is a function of the source text alone: two parsers constructed
/// independently from equal text build equal trees; no state is shared
/// between runs. Together with the contracts of `Parser::new` and
/// `Parser::parse`, which pin each run to this same function of the text,
/// this makes repeated parses structurally equal.
pub proof fn lemma_parse_deterministic(a: Seq<char>, b: Seq<char>)
    requires
        a == b,
    ensures
        parse_expr_spec(lex_spec(strip_spec(a)), 0) == parse_expr_spec(
            lex_spec(strip_spec(b)),
            0,
        ),
{
}

pub proof fn lemma_group_transparent(ts: Seq<TokenV>, p: nat)
    requires
        cur_at(ts, p).id == id_open_paren(),
        parse_expr_spec(ts, (p + 1) as nat) is Done,
    ensures
        parse_expr_spec(ts, p) is Done,
        parse_expr_spec(ts, p)->node == parse_expr_spec(ts, (p + 1) as nat)->node,
{
    lemma_id_views();
    assert(id_open_paren() != id_item());
}

} // verus!
