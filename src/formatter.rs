use vstd::prelude::*;

use crate::parser::{lemma_nodes_view, node_view, nodes_view, Json, Node, AST};
use crate::text::{chars_of, push_all, push_str, string_from};

verus! {

/// How many spaces make one level of indentation.
#[derive(Clone, Copy, Debug, PartialEq, Eq)]
pub enum DelimiterCount {
    Four,
    Two,
}

/// The unit of indentation.
#[derive(Clone, Copy, Debug, PartialEq, Eq)]
pub enum Delimiter {
    Spaces(DelimiterCount),
    Tabs,
}

/// The formatting choices: only the unit of indentation.
#[derive(Clone, Copy, Debug, PartialEq, Eq)]
pub struct FormatConfig {
    pub delimiter: Delimiter,
}

/// The characters of one level of indentation.
pub open spec fn unit_of(d: Delimiter) -> Seq<char> {
    match d {
        Delimiter::Spaces(DelimiterCount::Two) => seq![' ', ' '],
        Delimiter::Spaces(DelimiterCount::Four) => seq![' ', ' ', ' ', ' '],
        Delimiter::Tabs => seq!['\t'],
    }
}

/// The unit used when no configuration is given: four spaces.
pub open spec fn default_unit() -> Seq<char> {
    unit_of(Delimiter::Spaces(DelimiterCount::Four))
}

impl FormatConfig {
    /// A configuration with the indentation unit `delimiter`.
    pub fn new(delimiter: Delimiter) -> (r: FormatConfig)
        ensures
            r.delimiter == delimiter,
    {
        FormatConfig { delimiter }
    }
}

/// The text of a string literal between its quotes: each `"` and `\` gets a backslash.
pub open spec fn escape(t: Seq<char>) -> Seq<char>
    decreases t.len(),
{
    if t.len() == 0 {
        t
    } else {
        let c = t.last();
        escape(t.subrange(0, t.len() - 1)) + if c == '"' || c == '\\' {
            seq!['\\', c]
        } else {
            seq![c]
        }
    }
}

/// `v` printed with the indentation unit `unit`, where `indent` is the indentation of the
/// line that `v` starts on (empty at the root). Children of a container stand one level
/// deeper, one per line, separated by commas; an empty container prints as `{}` or `[]`.
/// Only an object at the root is followed by a newline. A number prints as its literal
/// text; a string is quoted, with `"` and `\` escaped by a backslash.
pub open spec fn print(v: Json, unit: Seq<char>, indent: Seq<char>) -> Seq<char>
    decreases v,
{
    match v {
        Json::Object(ps) => {
            let end = if indent.len() == 0 {
                seq!['\n']
            } else {
                Seq::empty()
            };
            if ps.len() == 0 {
                seq!['{', '}'] + end
            } else {
                seq!['{', '\n'] + (indent + unit) + print_list(ps, unit, indent + unit) + seq!['\n']
                    + indent + seq!['}'] + end
            }
        },
        Json::Array(items) => {
            if items.len() == 0 {
                seq!['[', ']']
            } else {
                seq!['[', '\n'] + (indent + unit) + print_list(items, unit, indent + unit) + seq![
                    '\n',
                ] + indent + seq![']']
            }
        },
        Json::Pair(k, x) => print(*k, unit, indent) + seq![':', ' '] + print(*x, unit, indent),
        Json::Literal(t) => seq!['"'] + escape(t) + seq!['"'],
        Json::Number(t) => t,
        Json::True => "true"@,
        Json::False => "false"@,
        Json::Null => "null"@,
    }
}

/// The children `vs` printed at indentation `indent`, joined by a comma, a newline and
/// `indent`.
pub open spec fn print_list(vs: Seq<Json>, unit: Seq<char>, indent: Seq<char>) -> Seq<char>
    decreases vs,
{
    if vs.len() == 0 {
        Seq::empty()
    } else if vs.len() == 1 {
        print(vs[0], unit, indent)
    } else {
        print_list(vs.subrange(0, vs.len() - 1), unit, indent) + seq![','] + seq!['\n'] + indent
            + print(vs[vs.len() - 1], unit, indent)
    }
}

/// A whole document printed with the unit `unit`.
pub open spec fn print_document(v: Json, unit: Seq<char>) -> Seq<char> {
    print(v, unit, Seq::empty())
}

/// The characters of one level of indentation for `config`.
fn derive(config: &FormatConfig) -> (r: Vec<char>)
    ensures
        r@ == unit_of(config.delimiter),
{
    match config.delimiter {
        Delimiter::Spaces(DelimiterCount::Two) => vec![' ', ' '],
        Delimiter::Spaces(DelimiterCount::Four) => vec![' ', ' ', ' ', ' '],
        Delimiter::Tabs => vec!['\t'],
    }
}

/// Appends the quoted, escaped form of `literal` to `out`.
fn print_literal(literal: &String, out: &mut Vec<char>)
    ensures
        final(out)@ == old(out)@ + seq!['"'] + escape(literal@) + seq!['"'],
{
    let text = chars_of(literal.as_str());
    out.push('"');
    let ghost start = out@;
    let mut i: usize = 0;
    while i < text.len()
        invariant
            text@ == literal@,
            i <= text@.len(),
            out@ == start + escape(text@.take(i as int)),
        decreases text@.len() - i,
    {
        let c = text[i];
        if c == '"' || c == '\\' {
            out.push('\\');
        }
        out.push(c);
        i = i + 1;
        assert(text@.take(i as int).subrange(0, i - 1) == text@.take(i - 1));
    }
    assert(text@.take(i as int) == text@);
    out.push('"');
}

/// Appends `node` printed at indentation `indent` to `out`.
fn print_node(node: &Node, unit: &Vec<char>, indent: &Vec<char>, out: &mut Vec<char>)
    ensures
        final(out)@ == old(out)@ + print(node@, unit@, indent@),
    decreases node,
{
    let ghost start = out@;
    match node {
        Node::Object { pairs } => {
            proof {
                lemma_nodes_view(pairs@);
            }
            if pairs.len() == 0 {
                out.push('{');
                out.push('}');
                if indent.len() == 0 {
                    out.push('\n');
                }
            } else {
                let mut inner: Vec<char> = Vec::new();
                push_all(&mut inner, indent);
                push_all(&mut inner, unit);
                out.push('{');
                out.push('\n');
                push_all(out, &inner);
                print_children(pairs, unit, &inner, out);
                out.push('\n');
                push_all(out, indent);
                out.push('}');
                if indent.len() == 0 {
                    out.push('\n');
                }
            }
        },
        Node::Array { items } => {
            proof {
                lemma_nodes_view(items@);
            }
            if items.len() == 0 {
                out.push('[');
                out.push(']');
            } else {
                let mut inner: Vec<char> = Vec::new();
                push_all(&mut inner, indent);
                push_all(&mut inner, unit);
                out.push('[');
                out.push('\n');
                push_all(out, &inner);
                print_children(items, unit, &inner, out);
                out.push('\n');
                push_all(out, indent);
                out.push(']');
            }
        },
        Node::Pair { key, value } => {
            print_node(key, unit, indent, out);
            out.push(':');
            out.push(' ');
            print_node(value, unit, indent, out);
        },
        Node::Literal { literal } => {
            print_literal(literal, out);
        },
        Node::Number { literal } => {
            push_str(out, literal.as_str());
        },
        Node::True => {
            push_str(out, "true");
        },
        Node::False => {
            push_str(out, "false");
        },
        Node::Null => {
            push_str(out, "null");
        },
    }
}

/// Appends the children `children`, each at indentation `indent`, separated by a comma,
/// a newline and `indent`.
fn print_children(
    children: &Vec<Box<Node>>,
    unit: &Vec<char>,
    indent: &Vec<char>,
    out: &mut Vec<char>,
)
    ensures
        final(out)@ == old(out)@ + print_list(nodes_view(children@), unit@, indent@),
    decreases children,
{
    let ghost start = out@;
    let ghost vs = nodes_view(children@);
    proof {
        lemma_nodes_view(children@);
    }
    let mut i: usize = 0;
    while i < children.len()
        invariant
            vs == nodes_view(children@),
            vs.len() == children@.len(),
            forall|k: int| 0 <= k < children@.len() ==> vs[k] == node_view(*#[trigger] children@[k]),
            i <= children@.len(),
            out@ == start + print_list(vs.take(i as int), unit@, indent@),
        decreases children@.len() - i,
    {
        if i > 0 {
            out.push(',');
            out.push('\n');
            push_all(out, indent);
        }
        print_node(&children[i], unit, indent, out);
        i = i + 1;
        assert(vs.take(i as int).subrange(0, i - 1) == vs.take(i - 1));
    }
    assert(vs.take(i as int) == vs);
}

/// Prints a document with four spaces of indentation.
pub fn format(ast: AST) -> (r: String)
    ensures
        r@ == print_document(ast.root@, default_unit()),
{
    format_with_config(ast, &FormatConfig { delimiter: Delimiter::Spaces(DelimiterCount::Four) })
}

/// Prints a document with the indentation unit of `config`.
pub fn format_with_config(ast: AST, config: &FormatConfig) -> (r: String)
    ensures
        r@ == print_document(ast.root@, unit_of(config.delimiter)),
{
    let unit = derive(config);
    let indent: Vec<char> = Vec::new();
    let mut out: Vec<char> = Vec::new();
    print_node(&ast.root, &unit, &indent, &mut out);
    assert(out@ == print(ast.root@, unit@, indent@));
    string_from(&out)
}

} // verus!
