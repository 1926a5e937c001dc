//! From tokens to an instruction tree.

use crate::inst::{lemma_ast_view, nodes_of, Ast, AstCode, Node};
use crate::token::{Token, TokenType};
use vstd::prelude::*;

verus! {

/// A fault in the source text.
#[derive(Debug, PartialEq, Eq, Clone, Copy, Structural)]
pub enum ParseError {
    /// A `[` without its `]`, or a `]` without its `[`.
    IncompleteLoop,
}

/// The kinds of a sequence of tokens.
pub open spec fn kinds(tokens: Seq<Token>) -> Seq<TokenType> {
    Seq::new(tokens.len(), |i: int| tokens[i].token_type)
}

/// The tokens that a node is written with. Only the nodes that a source
/// text can hold are written with any.
pub open spec fn written_node(node: Node) -> Seq<TokenType>
    decreases node,
{
    match node {
        Node::InclementPointer(_) => seq![TokenType::RightAngle],
        Node::DecrementPointer(_) => seq![TokenType::LeftAngle],
        Node::InclementValue(_) => seq![TokenType::Plus],
        Node::DecrementValue(_) => seq![TokenType::Minus],
        Node::Output => seq![TokenType::Dot],
        Node::Input => seq![TokenType::Comma],
        Node::Loop(body) => seq![TokenType::LeftBracket] + written(body) + seq![
            TokenType::RightBracket,
        ],
        _ => Seq::empty(),
    }
}

/// The tokens that a tree is written with.
pub open spec fn written(tree: Seq<Node>) -> Seq<TokenType>
    decreases tree,
{
    if tree.len() == 0 {
        Seq::empty()
    } else {
        written(tree.drop_last()) + written_node(tree.last())
    }
}

/// A node as a source text holds it: a move or an adjustment by one, an
/// input, an output, or a loop of such nodes.
pub open spec fn plain_node(node: Node) -> bool
    decreases node,
{
    match node {
        Node::InclementPointer(count) => count == 1,
        Node::DecrementPointer(count) => count == 1,
        Node::InclementValue(count) => count == 1,
        Node::DecrementValue(count) => count == 1,
        Node::Output => true,
        Node::Input => true,
        Node::Loop(body) => plain(body),
        _ => false,
    }
}

/// A tree as a source text holds it.
pub open spec fn plain(tree: Seq<Node>) -> bool
    decreases tree,
{
    tree.len() == 0 || (plain(tree.drop_last()) && plain_node(tree.last()))
}

/// The loops that are open after the first `i` tokens, a `]` that closes
/// none counting for nothing.
pub open spec fn open_loops(kinds: Seq<TokenType>, i: int) -> int
    decreases i,
{
    if i <= 0 {
        0
    } else {
        let before = open_loops(kinds, i - 1);
        match kinds[i - 1] {
            TokenType::LeftBracket => before + 1,
            TokenType::RightBracket => if before > 0 {
                before - 1
            } else {
                0
            },
            _ => before,
        }
    }
}

/// How many of the first `i` tokens are a `]` that closes no loop.
pub open spec fn stray_ends(kinds: Seq<TokenType>, i: int) -> int
    decreases i,
{
    if i <= 0 {
        0
    } else {
        stray_ends(kinds, i - 1) + if kinds[i - 1] == TokenType::RightBracket && open_loops(
            kinds,
            i - 1,
        ) == 0 {
            1int
        } else {
            0int
        }
    }
}

/// The number of faults in a source text: one for each `]` that closes no
/// loop, and one if a loop is left open at the end.
pub open spec fn faults(kinds: Seq<TokenType>) -> int {
    stray_ends(kinds, kinds.len() as int) + if open_loops(kinds, kinds.len() as int) > 0 {
        1int
    } else {
        0int
    }
}

/// The nesting after the first `i` tokens: each `[` counts one up and each
/// `]` one down.
pub open spec fn level(kinds: Seq<TokenType>, i: int) -> int
    decreases i,
{
    if i <= 0 {
        0
    } else {
        level(kinds, i - 1) + match kinds[i - 1] {
            TokenType::LeftBracket => 1int,
            TokenType::RightBracket => -1int,
            _ => 0int,
        }
    }
}

/// From `from` to `to` the nesting never falls below what it is at `from`.
pub open spec fn holds_level(kinds: Seq<TokenType>, from: int, to: int) -> bool {
    forall|j: int| from <= j <= to ==> #[trigger] level(kinds, j) >= level(kinds, from)
}

/// From the `[` at `from` to the end the nesting stays above what it is
/// before that `[`: the loop is never closed.
pub open spec fn stays_open(kinds: Seq<TokenType>, from: int) -> bool {
    forall|j: int| from < j <= kinds.len() ==> #[trigger] level(kinds, j) > level(kinds, from)
}

proof fn lemma_level_concat(a: Seq<TokenType>, b: Seq<TokenType>, j: int)
    requires
        0 <= j <= a.len() + b.len(),
    ensures
        level(a + b, j) == if j <= a.len() {
            level(a, j)
        } else {
            level(a, a.len() as int) + level(b, j - a.len())
        },
    decreases j,
{
    if j > 0 {
        lemma_level_concat(a, b, j - 1);
        if j <= a.len() {
            assert((a + b)[j - 1] == a[j - 1]);
        } else {
            assert((a + b)[j - 1] == b[j - 1 - a.len()]);
            if j - 1 == a.len() {
                assert(level(b, 0) == 0);
            }
        }
    }
}

/// The tokens of a tree keep the nesting at zero or above, and end at zero.
proof fn lemma_written_level(tree: Seq<Node>)
    ensures
        level(written(tree), written(tree).len() as int) == 0,
        forall|j: int| 0 <= j <= written(tree).len() ==> #[trigger] level(written(tree), j) >= 0,
    decreases tree,
{
    if tree.len() > 0 {
        let a = written(tree.drop_last());
        let b = written_node(tree.last());
        lemma_written_level(tree.drop_last());
        lemma_written_node_level(tree.last());
        lemma_level_concat(a, b, (a + b).len() as int);
        assert forall|j: int| 0 <= j <= (a + b).len() implies #[trigger] level(a + b, j) >= 0 by {
            lemma_level_concat(a, b, j);
            if j <= a.len() {
                assert(level(a, j) >= 0);
            } else {
                assert(level(b, j - a.len()) >= 0);
            }
        }
    }
}

/// See [`lemma_written_level`].
proof fn lemma_written_node_level(node: Node)
    ensures
        level(written_node(node), written_node(node).len() as int) == 0,
        forall|j: int|
            0 <= j <= written_node(node).len() ==> #[trigger] level(written_node(node), j) >= 0,
    decreases node,
{
    let w = written_node(node);
    match node {
        Node::Loop(body) => {
            let head = seq![TokenType::LeftBracket];
            let inner = written(body);
            let tail = seq![TokenType::RightBracket];
            lemma_written_level(body);
            assert(level(head, 1) == 1) by {
                assert(level(head, 0) == 0);
            }
            assert(level(tail, 1) == -1) by {
                assert(level(tail, 0) == 0);
            }
            assert forall|j: int| 0 <= j <= w.len() implies #[trigger] level(w, j) >= 0 by {
                lemma_level_concat(head + inner, tail, j);
                if j <= 1 + inner.len() {
                    lemma_level_concat(head, inner, j);
                    if j == 0 {
                        assert(level(head, 0) == 0);
                    } else if j > 1 {
                        assert(level(inner, j - 1) >= 0);
                    }
                } else {
                    lemma_level_concat(head, inner, (1 + inner.len()) as int);
                }
            }
            lemma_level_concat(head + inner, tail, w.len() as int);
            lemma_level_concat(head, inner, (1 + inner.len()) as int);
        },
        _ => {
            if w.len() == 1 {
                assert(level(w, 0) == 0);
                assert(level(w, 1) == 0);
                assert forall|j: int| 0 <= j <= w.len() implies #[trigger] level(w, j) >= 0 by {
                    assert(level(w, 0) == 0);
                }
            }
        },
    }
}

/// A tree of one node is written as that node is.
proof fn lemma_written_single(node: Node)
    ensures
        written(seq![node]) == written_node(node),
{
    let tree = seq![node];
    assert(tree.drop_last() =~= Seq::<Node>::empty());
    assert(written(tree.drop_last()) =~= Seq::<TokenType>::empty());
    assert(tree.last() == node);
    assert(written(tree) =~= written_node(node));
}

/// The nesting inside a piece of the tokens is the nesting of the piece,
/// counted from where the piece begins.
proof fn lemma_level_piece(kinds: Seq<TokenType>, from: int, to: int, j: int)
    requires
        0 <= from <= j <= to <= kinds.len(),
    ensures
        level(kinds, j) == level(kinds, from) + level(kinds.subrange(from, to), j - from),
    decreases j - from,
{
    if j > from {
        lemma_level_piece(kinds, from, to, j - 1);
    }
}

/// Where the tokens from `from` to `to` are a tree, the nesting at `to` is
/// what it is at `from`, and does not fall below it in between.
proof fn lemma_tree_holds_level(kinds: Seq<TokenType>, from: int, to: int, tree: Seq<Node>)
    requires
        0 <= from <= to <= kinds.len(),
        kinds.subrange(from, to) == written(tree),
    ensures
        level(kinds, to) == level(kinds, from),
        holds_level(kinds, from, to),
{
    lemma_written_level(tree);
    lemma_level_piece(kinds, from, to, to);
    assert forall|j: int| from <= j <= to implies #[trigger] level(kinds, j) >= level(
        kinds,
        from,
    ) by {
        lemma_level_piece(kinds, from, to, j);
        assert(level(written(tree), j - from) >= 0);
    }
}

/// Where the nesting does not fall below what it is at `from`, no `]` up to
/// `to` is stray, and the loops open at `to` are those open at `from` and
/// those opened since.
proof fn lemma_holds_level(kinds: Seq<TokenType>, from: int, to: int)
    requires
        0 <= from <= to <= kinds.len(),
        holds_level(kinds, from, to),
        open_loops(kinds, from) >= 0,
    ensures
        stray_ends(kinds, to) == stray_ends(kinds, from),
        open_loops(kinds, to) == open_loops(kinds, from) + level(kinds, to) - level(kinds, from),
    decreases to - from,
{
    if to > from {
        assert(holds_level(kinds, from, to - 1)) by {
            assert forall|j: int| from <= j <= to - 1 implies #[trigger] level(kinds, j) >= level(
                kinds,
                from,
            ) by {}
        }
        lemma_holds_level(kinds, from, to - 1);
        assert(level(kinds, to - 1) >= level(kinds, from));
        assert(level(kinds, to) >= level(kinds, from));
    }
}

proof fn lemma_open_loops_nonnegative(kinds: Seq<TokenType>, i: int)
    ensures
        open_loops(kinds, i) >= 0,
        stray_ends(kinds, i) >= 0,
    decreases i,
{
    if i > 0 {
        lemma_open_loops_nonnegative(kinds, i - 1);
    }
}

/// A node of a source text is written with one token at least.
proof fn lemma_written_node_len(node: Node)
    requires
        plain_node(node),
    ensures
        written_node(node).len() >= 1,
{
}

/// Inside the tokens of a loop the nesting is one at least: the loop is
/// closed by its last token and by none before.
proof fn lemma_loop_level(body: Seq<Node>, j: int)
    requires
        0 < j < written_node(Node::Loop(body)).len(),
    ensures
        level(written_node(Node::Loop(body)), j) >= 1,
{
    let head = seq![TokenType::LeftBracket];
    let inner = written(body);
    let tail = seq![TokenType::RightBracket];
    lemma_written_level(body);
    assert(level(head, 1) == 1) by {
        assert(level(head, 0) == 0);
    }
    lemma_level_concat(head + inner, tail, j);
    lemma_level_concat(head, inner, j);
    if j > 1 {
        assert(level(inner, j - 1) >= 0);
    }
}

/// Two loops of a source text whose tokens end the same tokens are written
/// with equally many tokens.
proof fn lemma_loops_end_alike(
    tokens: Seq<TokenType>,
    front_x: Seq<TokenType>,
    x: Seq<Node>,
    front_y: Seq<TokenType>,
    y: Seq<Node>,
)
    requires
        tokens == front_x + written_node(Node::Loop(x)),
        tokens == front_y + written_node(Node::Loop(y)),
    ensures
        written_node(Node::Loop(x)).len() >= written_node(Node::Loop(y)).len(),
{
    let wx = written_node(Node::Loop(x));
    let wy = written_node(Node::Loop(y));
    if wx.len() < wy.len() {
        // the tokens of x begin inside the tokens of y, where y is still open
        let q = wy.len() - wx.len();
        assert(front_x.len() == front_y.len() + q) by {
            assert(tokens.len() == front_x.len() + wx.len());
            assert(tokens.len() == front_y.len() + wy.len());
        }
        assert(wy.subrange(q, wy.len() as int) =~= wx) by {
            assert forall|i: int| 0 <= i < wx.len() implies wy[q + i] == wx[i] by {
                assert(tokens[front_y.len() + q + i] == wy[q + i]);
                assert(tokens[front_x.len() + i] == wx[i]);
            }
        }
        lemma_level_piece(wy, q, wy.len() as int, wy.len() as int);
        lemma_written_node_level(Node::Loop(x));
        lemma_written_node_level(Node::Loop(y));
        lemma_loop_level(y, q);
    }
}

/// A source text is written by one tree only.
pub proof fn lemma_written_unique(a: Seq<Node>, b: Seq<Node>)
    requires
        plain(a),
        plain(b),
        written(a) == written(b),
    ensures
        a == b,
    decreases a,
{
    if a.len() == 0 {
        if b.len() > 0 {
            lemma_written_node_len(b.last());
        }
        assert(a =~= b);
    } else {
        lemma_written_node_len(a.last());
        if b.len() == 0 {
            assert(written(a).len() >= 1);
        } else {
            lemma_written_node_len(b.last());
            let tokens = written(a);
            let front_a = written(a.drop_last());
            let front_b = written(b.drop_last());
            let x = a.last();
            let y = b.last();
            let wx = written_node(x);
            let wy = written_node(y);
            assert(plain_node(x) && plain_node(y));
            assert(tokens.last() == wx.last());
            assert(tokens.last() == wy.last());
            assert(x is Loop <==> wx.last() == TokenType::RightBracket);
            assert(y is Loop <==> wy.last() == TokenType::RightBracket);
            if x is Loop && y is Loop {
                lemma_loops_end_alike(tokens, front_a, x->Loop_0, front_b, y->Loop_0);
                lemma_loops_end_alike(tokens, front_b, y->Loop_0, front_a, x->Loop_0);
            }
            assert(wx.len() == wy.len());
            assert(front_a =~= front_b) by {
                assert forall|i: int| 0 <= i < front_a.len() implies front_a[i] == front_b[i] by {
                    assert(tokens[i] == front_a[i]);
                    assert(tokens[i] == front_b[i]);
                }
            }
            assert(wx =~= wy) by {
                assert forall|i: int| 0 <= i < wx.len() implies wx[i] == wy[i] by {
                    assert(tokens[front_a.len() + i] == wx[i]);
                    assert(tokens[front_b.len() + i] == wy[i]);
                }
            }
            lemma_written_unique(a.drop_last(), b.drop_last());
            if x is Loop {
                let bx = x->Loop_0;
                let by = y->Loop_0;
                assert(written(bx) =~= written(by)) by {
                    assert(written(bx) =~= wx.subrange(1, wx.len() - 1));
                    assert(written(by) =~= wy.subrange(1, wy.len() - 1));
                }
                lemma_written_unique(bx, by);
            } else {
                assert(wx[0] == wy[0]);
            }
            assert(x == y);
            assert(a =~= a.drop_last().push(x));
            assert(b =~= b.drop_last().push(y));
        }
    }
}

/// The tokens that a tree is written with hold no fault.
pub proof fn lemma_written_has_no_fault(tree: Seq<Node>)
    ensures
        faults(written(tree)) == 0,
{
    let k = written(tree);
    assert(k.subrange(0, k.len() as int) =~= k);
    lemma_tree_holds_level(k, 0, k.len() as int, tree);
    lemma_holds_level(k, 0, k.len() as int);
}

/// The tree that a source text is written by, if it is written by one.
pub open spec fn parsed(kinds: Seq<TokenType>) -> Seq<Node> {
    choose|tree: Seq<Node>| plain(tree) && written(tree) == kinds
}

/// Turns tokens into an instruction tree.
pub struct Parser {
    /// The tokens of the source text.
    tokens: Vec<Token>,
    /// The index of the next token.
    current: usize,
}

impl Parser {
    /// The kinds of the tokens that this parser reads.
    pub closed spec fn kinds(&self) -> Seq<TokenType> {
        kinds(self.tokens@)
    }

    /// The index of the next token.
    pub closed spec fn position(&self) -> int {
        self.current as int
    }

    pub fn new(tokens: Vec<Token>) -> (parser: Self)
        ensures
            parser.kinds() == kinds(tokens@),
            parser.position() == 0,
    {
        Self { tokens, current: 0 }
    }

    /// Parses the tokens that are left. The result is the tree that is
    /// written with them, if they hold no fault; and else a list with one
    /// entry for each fault.
    pub fn parse_tokens(self) -> (result: Result<AstCode, Vec<ParseError>>)
        requires
            self.position() == 0,
        ensures
            match result {
                Ok(tree) => faults(self.kinds()) == 0 && plain(tree@) && written(tree@)
                    == self.kinds() && tree@ == parsed(self.kinds()),
                Err(errors) => faults(self.kinds()) > 0 && errors@.len() == faults(self.kinds()),
            },
    {
        let mut parser = self;
        let ghost k = parser.kinds();
        let mut errors: Vec<ParseError> = Vec::new();
        let mut result: Vec<Ast> = Vec::new();
        proof {
            assert(k.subrange(0, 0) =~= written(nodes_of(result@)));
        }
        while !parser.is_at_end()
            invariant
                parser.kinds() == k,
                k == self.kinds(),
                0 <= parser.position() <= k.len(),
                parser.position() < k.len() ==> open_loops(k, parser.position()) == 0,
                errors@.len() == stray_ends(k, parser.position()) + if open_loops(
                    k,
                    parser.position(),
                ) > 0 {
                    1int
                } else {
                    0int
                },
                errors@.len() == 0 ==> plain(nodes_of(result@)) && written(nodes_of(result@))
                    == k.subrange(0, parser.position()),
            decreases k.len() - parser.position(),
        {
            let ghost p = parser.position();
            let ghost nodes = nodes_of(result@);
            proof {
                lemma_open_loops_nonnegative(k, p);
            }
            match parser.parse_instruction() {
                Ok(op) => {
                    proof {
                        let q = parser.position();
                        lemma_written_single(op@);
                        lemma_tree_holds_level(k, p, q, seq![op@]);
                        lemma_holds_level(k, p, q);
                        assert(nodes_of(result@.push(op)) =~= nodes.push(op@));
                        assert(nodes.push(op@).drop_last() =~= nodes);
                        assert(k.subrange(0, p) + k.subrange(p, q) =~= k.subrange(0, q));
                    }
                    result.push(op);
                },
                Err(e) => {
                    proof {
                        let q = parser.position();
                        if q == p + 1 && k[p] == TokenType::RightBracket {
                            assert(stray_ends(k, q) == stray_ends(k, p) + 1);
                            assert(open_loops(k, q) == 0);
                        } else {
                            assert(stays_open(k, p));
                            assert(holds_level(k, p, q));
                            lemma_holds_level(k, p, q);
                            assert(level(k, q) > level(k, p));
                        }
                    }
                    errors.push(e);
                },
            }
        }
        if errors.is_empty() {
            proof {
                assert(k.subrange(0, k.len() as int) =~= k);
                lemma_written_unique(nodes_of(result@), parsed(k));
            }
            Ok(AstCode::new(result))
        } else {
            Err(errors)
        }
    }

    /// Parses one instruction, a loop with all of its body.
    fn parse_instruction(&mut self) -> (result: Result<Ast, ParseError>)
        requires
            0 <= old(self).position() < old(self).kinds().len(),
        ensures
            final(self).kinds() == old(self).kinds(),
            old(self).position() < final(self).position() <= old(self).kinds().len(),
            match result {
                Ok(node) => plain_node(node@) && old(self).kinds().subrange(
                    old(self).position(),
                    final(self).position(),
                ) == written(seq![node@]),
                Err(_) => {
                    ||| old(self).kinds()[old(self).position()] == TokenType::RightBracket
                        && final(self).position() == old(self).position() + 1
                    ||| final(self).position() == old(self).kinds().len() && stays_open(
                        old(self).kinds(),
                        old(self).position(),
                    )
                },
            },
        decreases old(self).kinds().len() - old(self).position(), 0nat,
    {
        broadcast use lemma_ast_view;

        let ghost k = self.kinds();
        let ghost p = self.position();
        let token = self.advance();
        let op = match token.token_type {
            TokenType::Plus => Ast::InclementValue(1),
            TokenType::Minus => Ast::DecrementValue(1),
            TokenType::RightAngle => Ast::InclementPointer(1),
            TokenType::LeftAngle => Ast::DecrementPointer(1),
            TokenType::Comma => Ast::Input,
            TokenType::Dot => Ast::Output,
            TokenType::LeftBracket => {
                match self.parse_loop() {
                    Ok(body) => {
                        proof {
                            let q = self.position();
                            let node = Node::Loop(body@);
                            lemma_written_single(node);
                            assert(k.subrange(p, q) =~= seq![TokenType::LeftBracket] + k.subrange(
                                p + 1,
                                q - 1,
                            ) + seq![TokenType::RightBracket]);
                        }
                        Ast::Loop(body)
                    },
                    Err(e) => {
                        proof {
                            assert forall|j: int| p < j <= k.len() implies #[trigger] level(k, j)
                                > level(k, p) by {
                                assert(level(k, j) >= level(k, p + 1));
                                assert(level(k, p + 1) == level(k, p) + 1);
                            }
                        }
                        return Err(e);
                    },
                }
            },
            TokenType::RightBracket => {
                return Err(ParseError::IncompleteLoop);
            },
        };
        proof {
            lemma_written_single(op@);
            assert(k.subrange(p, p + 1) =~= seq![k[p]]);
        }
        Ok(op)
    }

    /// Parses the body of a loop, up to and with the `]` that closes it.
    fn parse_loop(&mut self) -> (result: Result<AstCode, ParseError>)
        requires
            0 <= old(self).position() <= old(self).kinds().len(),
        ensures
            final(self).kinds() == old(self).kinds(),
            old(self).position() <= final(self).position() <= old(self).kinds().len(),
            match result {
                Ok(body) => {
                    &&& plain(body@)
                    &&& old(self).position() < final(self).position()
                    &&& old(self).kinds()[final(self).position() - 1] == TokenType::RightBracket
                    &&& old(self).kinds().subrange(
                        old(self).position(),
                        final(self).position() - 1,
                    ) == written(body@)
                },
                Err(_) => final(self).position() == old(self).kinds().len() && holds_level(
                    old(self).kinds(),
                    old(self).position(),
                    old(self).kinds().len() as int,
                ),
            },
        decreases old(self).kinds().len() - old(self).position(), 1nat,
    {
        let ghost k = self.kinds();
        let ghost p = self.position();
        let mut result: Vec<Ast> = Vec::new();
        proof {
            assert(k.subrange(p, p) =~= written(nodes_of(result@)));
        }
        loop
            invariant
                self.kinds() == k,
                p <= self.position() <= k.len(),
                plain(nodes_of(result@)),
                written(nodes_of(result@)) == k.subrange(p, self.position()),
                k == old(self).kinds(),
                p == old(self).position(),
            ensures
                self.position() < k.len(),
                k[self.position()] == TokenType::RightBracket,
            decreases k.len() - self.position(),
        {
            let ghost c = self.position();
            let ghost nodes = nodes_of(result@);
            if self.is_at_end() {
                proof {
                    lemma_tree_holds_level(k, p, c, nodes);
                }
                return Err(ParseError::IncompleteLoop);
            }
            if self.peek().token_type == TokenType::RightBracket {
                break ;
            }
            match self.parse_instruction() {
                Ok(op) => {
                    proof {
                        let q = self.position();
                        assert(nodes_of(result@.push(op)) =~= nodes.push(op@));
                        assert(nodes.push(op@).drop_last() =~= nodes);
                        lemma_written_single(op@);
                        assert(k.subrange(p, c) + k.subrange(c, q) =~= k.subrange(p, q));
                    }
                    result.push(op);
                },
                Err(e) => {
                    proof {
                        lemma_tree_holds_level(k, p, c, nodes);
                        assert forall|j: int| p <= j <= k.len() implies #[trigger] level(k, j)
                            >= level(k, p) by {
                            if j > c {
                                assert(level(k, j) > level(k, c));
                            }
                        }
                    }
                    return Err(e);
                },
            }
        }
        self.advance();
        Ok(AstCode::new(result))
    }

    /// Reads the next token.
    fn advance(&mut self) -> (token: Token)
        requires
            0 <= old(self).position() < old(self).kinds().len(),
        ensures
            final(self).kinds() == old(self).kinds(),
            final(self).position() == old(self).position() + 1,
            token.token_type == old(self).kinds()[old(self).position()],
    {
        assert(self.current < self.tokens.len());
        let token = self.tokens[self.current];
        self.current += 1;
        token
    }

    /// The next token.
    fn peek(&self) -> (token: &Token)
        requires
            0 <= self.position() < self.kinds().len(),
        ensures
            token.token_type == self.kinds()[self.position()],
    {
        &self.tokens[self.current]
    }

    fn is_at_end(&self) -> (at_end: bool)
        ensures
            at_end == (self.position() >= self.kinds().len()),
    {
        self.current >= self.tokens.len()
    }
}

} // verus!
