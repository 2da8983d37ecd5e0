use vstd::prelude::*;

use crate::errors::{Fault, FormatterError};
use crate::tokenizer::{get_start_index, lexeme_start, view_tokens, Lexeme, Token};

verus! {

/// A node of the syntax tree. Containers own their children.
#[derive(Debug, PartialEq)]
pub enum Node {
    Object { pairs: Vec<Box<Node>> },
    Array { items: Vec<Box<Node>> },
    Pair { key: Box<Node>, value: Box<Node> },
    Literal { literal: String },
    Number { literal: String },
    True,
    False,
    Null,
}

/// The mathematical value of a `Node`: text as character sequences.
pub enum Json {
    Object(Seq<Json>),
    Array(Seq<Json>),
    Pair(Box<Json>, Box<Json>),
    Literal(Seq<char>),
    Number(Seq<char>),
    True,
    False,
    Null,
}

/// The value of a node.
pub open spec fn node_view(n: Node) -> Json
    decreases n,
{
    match n {
        Node::Object { pairs } => Json::Object(nodes_view(pairs@)),
        Node::Array { items } => Json::Array(nodes_view(items@)),
        Node::Pair { key, value } => Json::Pair(
            Box::new(node_view(*key)),
            Box::new(node_view(*value)),
        ),
        Node::Literal { literal } => Json::Literal(literal@),
        Node::Number { literal } => Json::Number(literal@),
        Node::True => Json::True,
        Node::False => Json::False,
        Node::Null => Json::Null,
    }
}

/// The values of a sequence of children, in order.
pub open spec fn nodes_view(ns: Seq<Box<Node>>) -> Seq<Json>
    decreases ns,
{
    if ns.len() == 0 {
        Seq::empty()
    } else {
        nodes_view(ns.subrange(0, ns.len() - 1)).push(node_view(*ns[ns.len() - 1]))
    }
}

/// The views of the children, one for one.
pub proof fn lemma_nodes_view(ns: Seq<Box<Node>>)
    ensures
        nodes_view(ns).len() == ns.len(),
        forall|i: int| 0 <= i < ns.len() ==> nodes_view(ns)[i] == node_view(*#[trigger] ns[i]),
    decreases ns.len(),
{
    if ns.len() > 0 {
        let front = ns.subrange(0, ns.len() - 1);
        lemma_nodes_view(front);
        assert forall|i: int| 0 <= i < ns.len() implies nodes_view(ns)[i] == node_view(
            *#[trigger] ns[i],
        ) by {
            if i < ns.len() - 1 {
                assert(front[i] == ns[i]);
            }
        }
    }
}

impl View for Node {
    type V = Json;

    open spec fn view(&self) -> Json {
        node_view(*self)
    }
}

/// A parsed document.
#[derive(Debug, PartialEq)]
pub struct AST {
    pub root: Node,
}

/// The tokens that the parser reads: all but whitespace.
pub open spec fn strip(ts: Seq<Lexeme>) -> Seq<Lexeme>
    decreases ts.len(),
{
    if ts.len() == 0 {
        ts
    } else {
        let rest = strip(ts.subrange(0, ts.len() - 1));
        if ts.last() is WhiteSpace {
            rest
        } else {
            rest.push(ts.last())
        }
    }
}

/// The keys of `ks` as character sequences.
pub open spec fn view_keys(ks: Seq<String>) -> Seq<Seq<char>> {
    ks.map_values(|k: String| k@)
}

/// The node that starts at token `pos`, and the number of tokens it takes. Past the last
/// token this is `ExpectedMoreTokens`; a token that cannot start a node (a comma, a colon
/// or a closing bracket) is reported as `ExpectedMoreCharacters` at that token's offset.
pub open spec fn parse_value(ts: Seq<Lexeme>, pos: nat) -> Result<(nat, Json), Fault>
    decreases ts.len() - pos, 0nat,
{
    if pos >= ts.len() {
        Err(Fault::ExpectedMoreTokens)
    } else {
        match ts[pos as int] {
            Lexeme::OpenBrace(_) => parse_members(ts, pos + 1, pos + 1, false, Seq::empty(), Seq::empty()),
            Lexeme::OpenSquareBraket(_) => parse_items(ts, pos + 1, pos + 1, false, Seq::empty()),
            Lexeme::True(_, _) => Ok((1, Json::True)),
            Lexeme::False(_, _) => Ok((1, Json::False)),
            Lexeme::Null(_, _) => Ok((1, Json::Null)),
            Lexeme::StringLiteral(_, text) => Ok((1, Json::Literal(text))),
            Lexeme::Number(_, text) => Ok((1, Json::Number(text))),
            _ => Err(Fault::ExpectedMoreCharacters(lexeme_start(ts[pos as int]))),
        }
    }
}

/// The rest of an array whose items start at token `start`, from token `j` on, with
/// `items` read so far; `after_comma` tells whether token `j - 1` was a separating comma.
/// The count returned takes in both brackets.
pub open spec fn parse_items(
    ts: Seq<Lexeme>,
    start: nat,
    j: nat,
    after_comma: bool,
    items: Seq<Json>,
) -> Result<(nat, Json), Fault>
    decreases ts.len() - j, 1nat,
{
    if j >= ts.len() {
        Err(Fault::ExpectedMoreTokens)
    } else if ts[j as int] is CloseSquareBraket && !after_comma {
        Ok(((j + 2 - start) as nat, Json::Array(items)))
    } else if ts[j as int] is Comma && !after_comma {
        parse_items(ts, start, j + 1, true, items)
    } else {
        match parse_value(ts, j) {
            Ok((m, v)) => if 0 < m && j + m <= ts.len() {
                parse_items(ts, start, j + m, false, items.push(v))
            } else {
                Err(Fault::ExpectedMoreTokens)
            },
            Err(f) => Err(f),
        }
    }
}

/// The rest of an object whose pairs start at token `start`, from token `j` on, with
/// `pairs` read so far and `keys` their keys; `after_comma` as for arrays.
pub open spec fn parse_members(
    ts: Seq<Lexeme>,
    start: nat,
    j: nat,
    after_comma: bool,
    pairs: Seq<Json>,
    keys: Seq<Seq<char>>,
) -> Result<(nat, Json), Fault>
    decreases ts.len() - j, 1nat,
{
    if j >= ts.len() {
        Err(Fault::ExpectedMoreTokens)
    } else if ts[j as int] is CloseBrace && !after_comma {
        Ok(((j + 2 - start) as nat, Json::Object(pairs)))
    } else if ts[j as int] is Comma && !after_comma {
        parse_members(ts, start, j + 1, true, pairs, keys)
    } else if !(ts[j as int] is StringLiteral) {
        Err(Fault::ExpectedStringLiteral(j))
    } else if j + 1 < ts.len() && !(ts[(j + 1) as int] is Colon) {
        Err(Fault::ExpectedColonInKeyValuePair)
    } else {
        let key = ts[j as int]->StringLiteral_1;
        let v_pos = if j + 1 < ts.len() {
            j + 2
        } else {
            j + 1
        };
        match parse_value(ts, v_pos) {
            Ok((m, v)) => if keys.contains(key) {
                Err(Fault::DuplicateKeyEntry(key))
            } else if 0 < m && v_pos + m <= ts.len() {
                parse_members(
                    ts,
                    start,
                    v_pos + m,
                    false,
                    pairs.push(Json::Pair(Box::new(Json::Literal(key)), Box::new(v))),
                    keys.push(key),
                )
            } else {
                Err(Fault::ExpectedMoreTokens)
            },
            Err(f) => Err(f),
        }
    }
}

/// The document that the tokens `ts` hold: the node at the first token that is not
/// whitespace.
pub open spec fn parse_document(ts: Seq<Lexeme>) -> Result<Json, Fault> {
    match parse_value(strip(ts), 0) {
        Ok((_, v)) => Ok(v),
        Err(f) => Err(f),
    }
}

/// Whether an exec result is the spec result `m`.
pub open spec fn node_result_matches(
    r: Result<(usize, Node), FormatterError>,
    m: Result<(nat, Json), Fault>,
) -> bool {
    match r {
        Ok((k, n)) => m == Ok::<(nat, Json), Fault>((k as nat, n@)),
        Err(e) => m == Err::<(nat, Json), Fault>(e@),
    }
}

proof fn lemma_nodes_view_push(ns: Seq<Box<Node>>, n: Box<Node>)
    ensures
        nodes_view(ns.push(n)) == nodes_view(ns).push(node_view(*n)),
{
    assert(ns.push(n).subrange(0, ns.len() as int) == ns);
}

/// The tokens of `tokens` that are not whitespace, in order.
pub fn remove_whitespace(tokens: Vec<Token>) -> (r: Vec<Token>)
    ensures
        view_tokens(r@) == strip(view_tokens(tokens@)),
{
    let ghost all = tokens@;
    let mut r: Vec<Token> = Vec::new();
    for token in it: tokens.into_iter()
        invariant
            it.seq() == all,
            view_tokens(r@) == strip(view_tokens(all.take(it.index() as int))),
    {
        let ghost i = it.index();
        let ghost before = view_tokens(r@);
        proof {
            assert(all.take(i + 1) == all.take(i as int).push(all[i as int]));
            assert(view_tokens(all.take(i + 1)) == view_tokens(all.take(i as int)).push(
                all[i as int]@,
            ));
            assert(view_tokens(all.take(i + 1)).subrange(0, i as int) == view_tokens(
                all.take(i as int),
            ));
        }
        let keep = !matches!(token, Token::WhiteSpace(_, _));
        assert(token == all[i as int]);
        if keep {
            r.push(token);
            assert(view_tokens(r@) == before.push(all[i as int]@));
        }
    }
    assert(all.take(all.len() as int) == all);
    r
}

/// Whether `key` is among `keys`.
fn contains_key(keys: &Vec<String>, key: &String) -> (r: bool)
    ensures
        r == view_keys(keys@).contains(key@),
{
    let mut i: usize = 0;
    while i < keys.len()
        invariant
            i <= keys@.len(),
            forall|k: int| 0 <= k < i ==> view_keys(keys@)[k] != key@,
        decreases keys@.len() - i,
    {
        if keys[i] == *key {
            assert(view_keys(keys@)[i as int] == key@);
            return true;
        }
        i = i + 1;
    }
    false
}

/// Reads the key of a pair: a string literal at token `position`.
pub fn parse_literal(tokens: &Vec<Token>, position: usize) -> (r: Result<
    (usize, Node),
    FormatterError,
>)
    ensures
        node_result_matches(
            r,
            if position >= tokens@.len() {
                Err(Fault::ExpectedMoreTokens)
            } else {
                match tokens@[position as int]@ {
                    Lexeme::StringLiteral(_, text) => Ok((1, Json::Literal(text))),
                    _ => Err(Fault::ExpectedStringLiteral(position as nat)),
                }
            },
        ),
{
    if position >= tokens.len() {
        return Err(FormatterError::ExpectedMoreTokens());
    }
    match &tokens[position] {
        Token::StringLiteral(_, literal) => Ok((1, Node::Literal { literal: literal.clone() })),
        _ => Err(FormatterError::ExpectedStringLiteral(position)),
    }
}

/// Reads the node that starts at token `position`; hands back the number of tokens it
/// takes and the node.
pub fn parse_node(tokens: &Vec<Token>, position: usize) -> (r: Result<(usize, Node), FormatterError>)
    ensures
        node_result_matches(r, parse_value(view_tokens(tokens@), position as nat)),
        r is Ok ==> 0 < r->Ok_0.0 && position + r->Ok_0.0 <= tokens@.len(),
    decreases tokens@.len() - position, 0nat,
{
    let ghost ts = view_tokens(tokens@);
    if position >= tokens.len() {
        return Err(FormatterError::ExpectedMoreTokens());
    }
    assert(ts[position as int] == tokens@[position as int]@);
    match &tokens[position] {
        Token::OpenBrace(_) => parse_object(tokens, position + 1),
        Token::OpenSquareBraket(_) => parse_array(tokens, position + 1),
        Token::True(_, _) => Ok((1, Node::True)),
        Token::False(_, _) => Ok((1, Node::False)),
        Token::Null(_, _) => Ok((1, Node::Null)),
        Token::StringLiteral(_, literal) => Ok((1, Node::Literal { literal: literal.clone() })),
        Token::Number(_, literal) => Ok((1, Node::Number { literal: literal.clone() })),
        _ => Err(FormatterError::ExpectedMoreCharacters(get_start_index(&tokens[position]))),
    }
}

/// Reads the items of an array from token `position`, just past its `[`, to its `]`.
/// The count handed back takes in both brackets.
pub fn parse_array(tokens: &Vec<Token>, position: usize) -> (r: Result<
    (usize, Node),
    FormatterError,
>)
    requires
        1 <= position,
    ensures
        node_result_matches(
            r,
            parse_items(view_tokens(tokens@), position as nat, position as nat, false, Seq::empty()),
        ),
        r is Ok ==> 0 < r->Ok_0.0 && position + r->Ok_0.0 <= tokens@.len() + 1,
    decreases tokens@.len() - position, 1nat,
{
    let ghost ts = view_tokens(tokens@);
    if position >= tokens.len() {
        return Err(FormatterError::ExpectedMoreTokens());
    }
    let mut items: Vec<Box<Node>> = Vec::new();
    let mut jump = position;
    let mut after_comma = false;
    assert(nodes_view(items@) == Seq::<Json>::empty());
    loop
        invariant
            ts == view_tokens(tokens@),
            1 <= position <= jump <= tokens@.len(),
            parse_items(ts, position as nat, position as nat, false, Seq::empty()) == parse_items(
                ts,
                position as nat,
                jump as nat,
                after_comma,
                nodes_view(items@),
            ),
        decreases tokens@.len() - jump,
    {
        if jump >= tokens.len() {
            return Err(FormatterError::ExpectedMoreTokens());
        }
        assert(ts[jump as int] == tokens@[jump as int]@);
        if matches!(tokens[jump], Token::CloseSquareBraket(_)) && !after_comma {
            return Ok((jump - position + 2, Node::Array { items }));
        } else if matches!(tokens[jump], Token::Comma(_)) && !after_comma {
            jump = jump + 1;
            after_comma = true;
        } else {
            match parse_node(tokens, jump) {
                Ok((movement, node)) => {
                    let b = Box::new(node);
                    proof {
                        lemma_nodes_view_push(items@, b);
                    }
                    items.push(b);
                    jump = jump + movement;
                    after_comma = false;
                },
                Err(e) => {
                    return Err(e);
                },
            }
        }
    }
}

/// Reads the pairs of an object from token `position`, just past its `{`, to its `}`.
/// Each key must be a string literal followed by a colon, and no key may come twice.
/// The count handed back takes in both braces.
pub fn parse_object(tokens: &Vec<Token>, position: usize) -> (r: Result<
    (usize, Node),
    FormatterError,
>)
    requires
        1 <= position,
    ensures
        node_result_matches(
            r,
            parse_members(
                view_tokens(tokens@),
                position as nat,
                position as nat,
                false,
                Seq::empty(),
                Seq::empty(),
            ),
        ),
        r is Ok ==> 0 < r->Ok_0.0 && position + r->Ok_0.0 <= tokens@.len() + 1,
    decreases tokens@.len() - position, 1nat,
{
    let ghost ts = view_tokens(tokens@);
    if position >= tokens.len() {
        return Err(FormatterError::ExpectedMoreTokens());
    }
    let mut keys: Vec<String> = Vec::new();
    let mut pairs: Vec<Box<Node>> = Vec::new();
    let mut jump = position;
    let mut after_comma = false;
    assert(nodes_view(pairs@) == Seq::<Json>::empty());
    assert(view_keys(keys@) == Seq::<Seq<char>>::empty());
    loop
        invariant
            ts == view_tokens(tokens@),
            1 <= position <= jump <= tokens@.len(),
            parse_members(ts, position as nat, position as nat, false, Seq::empty(), Seq::empty())
                == parse_members(
                ts,
                position as nat,
                jump as nat,
                after_comma,
                nodes_view(pairs@),
                view_keys(keys@),
            ),
        decreases tokens@.len() - jump,
    {
        if jump >= tokens.len() {
            return Err(FormatterError::ExpectedMoreTokens());
        }
        assert(ts[jump as int] == tokens@[jump as int]@);
        if matches!(tokens[jump], Token::CloseBrace(_)) && !after_comma {
            return Ok((jump - position + 2, Node::Object { pairs }));
        } else if matches!(tokens[jump], Token::Comma(_)) && !after_comma {
            jump = jump + 1;
            after_comma = true;
        } else {
            let key = match parse_literal(tokens, jump) {
                Ok((_, Node::Literal { literal })) => literal,
                Ok(_) => {
                    // parse_literal hands back literals only
                    proof {
                        assert(false);
                    }
                    return Err(FormatterError::ExpectedMoreTokens());
                },
                Err(e) => {
                    return Err(e);
                },
            };
            let ghost key_at = jump;
            jump = jump + 1;
            if jump < tokens.len() {
                assert(ts[jump as int] == tokens@[jump as int]@);
                if !matches!(tokens[jump], Token::Colon(_)) {
                    return Err(FormatterError::ExpectedColonInKeyValuePair());
                }
                jump = jump + 1;
            }
            match parse_node(tokens, jump) {
                Ok((movement, value)) => {
                    if contains_key(&keys, &key) {
                        return Err(FormatterError::DuplicateKeyEntry(key));
                    }
                    let ghost old_keys = keys@;
                    keys.push(key.clone());
                    assert(view_keys(keys@) == view_keys(old_keys).push(key@));
                    let b = Box::new(
                        Node::Pair { key: Box::new(Node::Literal { literal: key }), value: Box::new(value) },
                    );
                    proof {
                        lemma_nodes_view_push(pairs@, b);
                    }
                    pairs.push(b);
                    jump = jump + movement;
                    after_comma = false;
                },
                Err(e) => {
                    return Err(e);
                },
            }
        }
    }
}

/// Parses a token sequence, whitespace included, into a syntax tree.
pub fn parse(tokens: Vec<Token>) -> (r: Result<AST, FormatterError>)
    ensures
        match r {
            Ok(ast) => parse_document(view_tokens(tokens@)) == Ok::<Json, Fault>(ast.root@),
            Err(e) => parse_document(view_tokens(tokens@)) == Err::<Json, Fault>(e@),
        },
{
    let tokens = remove_whitespace(tokens);
    match parse_node(&tokens, 0) {
        Ok((_, node)) => Ok(AST { root: node }),
        Err(e) => Err(e),
    }
}

} // verus!
