use vstd::prelude::*;

use crate::errors::Fault;
use crate::laws::{
    is_key_pair, key_of, keys_distinct, number_prefix_ok, sound_tokens, unique_keys,
    valid_number,
};
use crate::formatter::{escape, print, print_list};
use crate::parser::{parse_items, parse_members, parse_value, strip, Json};
use crate::tokenizer::{
    ends_number, is_digit, is_number_char, keyword_fault, lemma_scan_number_bounds, lex, lex_token, scan_number,
    scan_string, Lexeme,
};

verus! {

proof fn lemma_scan_number_valid(s: Seq<char>, start: nat, i: nat, dot: bool, e: bool)
    requires
        start <= i <= s.len(),
        number_prefix_ok(s, start, i),
        dot == (exists|k: int| start <= k < i && s[k] == '.'),
        e == (exists|k: int| start <= k < i && s[k] == 'e'),
    ensures
        scan_number(s, start, i, dot, e) is Ok ==> ({
            let j = scan_number(s, start, i, dot, e)->Ok_0;
            &&& i <= j <= s.len()
            &&& number_prefix_ok(s, start, j)
            &&& (j > start ==> s[j - 1] != 'e')
        }),
    decreases s.len() - i,
{
    if i < s.len() && !ends_number(s[i as int]) && is_number_char(s[i as int]) {
        let c = s[i as int];
        if !(c == '-' && i > start) && !(c == '.' && dot) && !(c == 'e' && e) {
            let dot2 = dot || c == '.';
            let e2 = e || c == 'e';
            assert(dot2 == (exists|k: int| start <= k < i + 1 && s[k] == '.')) by {
                if dot2 && !dot {
                    assert(start <= i < i + 1 && s[i as int] == '.');
                }
            }
            assert(e2 == (exists|k: int| start <= k < i + 1 && s[k] == 'e')) by {
                if e2 && !e {
                    assert(start <= i < i + 1 && s[i as int] == 'e');
                }
            }
            assert forall|a: int, b: int|
                start <= a < b < i + 1 implies !(#[trigger] s[a] == '.' && #[trigger] s[b] == '.') by {
                if b == i && s[a] == '.' && s[b] == '.' {
                    assert(dot);
                }
            }
            assert forall|a: int, b: int|
                start <= a < b < i + 1 implies !(#[trigger] s[a] == 'e' && #[trigger] s[b] == 'e') by {
                if b == i && s[a] == 'e' && s[b] == 'e' {
                    assert(e);
                }
            }
            lemma_scan_number_valid(s, start, i + 1, dot2, e2);
        }
    }
}

proof fn lemma_prefix_shift(s: Seq<char>, start: nat, j: nat)
    requires
        start <= j <= s.len(),
        number_prefix_ok(s, start, j),
    ensures
        number_prefix_ok(s.subrange(start as int, j as int), 0, (j - start) as nat),
{
    let t = s.subrange(start as int, j as int);
    assert forall|k: int| 0 <= k < j - start implies #[trigger] t[k] == s[start + k] by {}
    assert forall|a: int, b: int|
        0 <= a < b < j - start implies !(#[trigger] t[a] == '.' && #[trigger] t[b] == '.') by {
        assert(t[a] == s[start + a] && t[b] == s[start + b]);
    }
    assert forall|a: int, b: int|
        0 <= a < b < j - start implies !(#[trigger] t[a] == 'e' && #[trigger] t[b] == 'e') by {
        assert(t[a] == s[start + a] && t[b] == s[start + b]);
    }
    assert forall|k: int| 0 <= k < j - start implies is_number_char(#[trigger] t[k]) by {
        assert(t[k] == s[start + k]);
    }
    assert forall|k: int| 0 < k < j - start implies #[trigger] t[k] != '-' by {
        assert(t[k] == s[start + k]);
    }
}

/// A number token read by the tokenizer is valid.
proof fn lemma_lex_token_sound(s: Seq<char>, i: nat)
    requires
        i < s.len(),
    ensures
        lex_token(s, i) is Ok ==> sound_tokens(seq![lex_token(s, i)->Ok_0.0]),
{
    let c = s[i as int];
    if is_digit(c) || c == '-' {
        lemma_scan_number_valid(s, i, i, false, false);
        match scan_number(s, i, i, false, false) {
            Ok(j) => {
                if c == '"' || c == '{' || c == '}' || c == '[' || c == ']' || c == ':' || c == ','
                    || c == 'f' || c == 't' || c == 'n' || c == ' ' || c == '\n' || c == '\t' {
                } else {
                    // the first character is a number character, so the number takes it
                    assert(!ends_number(c) && is_number_char(c));
                    lemma_scan_number_bounds(s, i, i + 1, c == '.', c == 'e');
                    assert(j > i);
                    lemma_prefix_shift(s, i, j);
                    let t = s.subrange(i as int, j as int);
                    assert(t[0] == c);
                    assert(t.last() == s[j - 1]);
                    assert(valid_number(t));
                }
            },
            Err(_) => {},
        }
    }
}

/// Every token of a successful lex is sound.
pub proof fn lemma_lex_sound(s: Seq<char>, i: nat)
    ensures
        lex(s, i) is Ok ==> sound_tokens(lex(s, i)->Ok_0),
    decreases s.len() - i,
{
    if i < s.len() {
        lemma_lex_token_sound(s, i);
        match lex_token(s, i) {
            Ok((t, j)) => {
                if i < j && j <= s.len() {
                    lemma_lex_sound(s, j);
                    if lex(s, j) is Ok {
                        let rest = lex(s, j)->Ok_0;
                        let all = seq![t] + rest;
                        assert forall|k: int| 0 <= k < all.len() implies (#[trigger] all[k] is Number ==> valid_number(all[k]->Number_1)) by {
                            if k == 0 {
                                assert(all[k] == seq![t][0]);
                            } else {
                                assert(all[k] == rest[k - 1]);
                            }
                        }
                    }
                }
            },
            Err(_) => {},
        }
    }
}

/// Dropping whitespace keeps tokens sound.
pub proof fn lemma_strip_sound(ts: Seq<Lexeme>)
    requires
        sound_tokens(ts),
    ensures
        sound_tokens(strip(ts)),
    decreases ts.len(),
{
    if ts.len() > 0 {
        let front = ts.subrange(0, ts.len() - 1);
        assert forall|k: int| 0 <= k < front.len() implies (#[trigger] front[k] is Number ==> valid_number(front[k]->Number_1)) by {
            assert(front[k] == ts[k]);
        }
        lemma_strip_sound(front);
        let r = strip(front);
        if !(ts.last() is WhiteSpace) {
            let all = r.push(ts.last());
            assert forall|k: int| 0 <= k < all.len() implies (#[trigger] all[k] is Number ==> valid_number(all[k]->Number_1)) by {
                if k < r.len() {
                    assert(all[k] == r[k]);
                } else {
                    assert(all[k] == ts[ts.len() - 1]);
                }
            }
        }
    }
}

/// A token with its position dropped.
pub open spec fn erase(t: Lexeme) -> Lexeme {
    match t {
        Lexeme::CloseBrace(_) => Lexeme::CloseBrace(0),
        Lexeme::CloseSquareBraket(_) => Lexeme::CloseSquareBraket(0),
        Lexeme::Colon(_) => Lexeme::Colon(0),
        Lexeme::Comma(_) => Lexeme::Comma(0),
        Lexeme::OpenBrace(_) => Lexeme::OpenBrace(0),
        Lexeme::OpenSquareBraket(_) => Lexeme::OpenSquareBraket(0),
        Lexeme::WhiteSpace(_, c) => Lexeme::WhiteSpace(0, c),
        Lexeme::Null(_, t) => Lexeme::Null(0, t),
        Lexeme::True(_, t) => Lexeme::True(0, t),
        Lexeme::False(_, t) => Lexeme::False(0, t),
        Lexeme::Number(_, t) => Lexeme::Number(0, t),
        Lexeme::StringLiteral(_, t) => Lexeme::StringLiteral(0, t),
    }
}

/// The tokens, without whitespace and positions, that stand for `v`.
pub open spec fn toks(v: Json) -> Seq<Lexeme>
    decreases v,
{
    match v {
        Json::Object(ps) => seq![Lexeme::OpenBrace(0)] + toks_join(ps) + seq![Lexeme::CloseBrace(0)],
        Json::Array(xs) => seq![Lexeme::OpenSquareBraket(0)] + toks_join(xs) + seq![
            Lexeme::CloseSquareBraket(0),
        ],
        Json::Pair(k, x) => toks(*k) + seq![Lexeme::Colon(0)] + toks(*x),
        Json::Literal(t) => seq![Lexeme::StringLiteral(0, t)],
        Json::Number(t) => seq![Lexeme::Number(0, t)],
        Json::True => seq![Lexeme::True(0, "true"@)],
        Json::False => seq![Lexeme::False(0, "false"@)],
        Json::Null => seq![Lexeme::Null(0, "null"@)],
    }
}

/// The tokens of `vs`, separated by commas.
pub open spec fn toks_join(vs: Seq<Json>) -> Seq<Lexeme>
    decreases vs,
{
    if vs.len() == 0 {
        Seq::empty()
    } else if vs.len() == 1 {
        toks(vs[0])
    } else {
        toks(vs[0]) + seq![Lexeme::Comma(0)] + toks_join(vs.subrange(1, vs.len() as int))
    }
}

/// From `pos` on, `ts` holds the tokens `want`, positions aside.
pub open spec fn at_tokens(ts: Seq<Lexeme>, pos: nat, want: Seq<Lexeme>) -> bool {
    &&& pos + want.len() <= ts.len()
    &&& forall|k: int| 0 <= k < want.len() ==> erase(#[trigger] ts[pos + k]) == want[k]
}

proof fn lemma_at_split(ts: Seq<Lexeme>, pos: nat, a: Seq<Lexeme>, b: Seq<Lexeme>)
    requires
        at_tokens(ts, pos, a + b),
    ensures
        at_tokens(ts, pos, a),
        at_tokens(ts, pos + a.len(), b),
{
    assert forall|k: int| 0 <= k < a.len() implies erase(#[trigger] ts[pos + k]) == a[k] by {
        assert((a + b)[k] == a[k]);
    }
    assert forall|k: int| 0 <= k < b.len() implies erase(#[trigger] ts[pos + a.len() + k]) == b[k] by {
        assert((a + b)[a.len() + k] == b[k]);
        assert(ts[pos + (a.len() + k)] == ts[pos + a.len() + k]);
    }
}

/// The tokens of a value or member are never empty, and the first is one that starts a
/// value: never a comma, a colon or a closing bracket.
proof fn lemma_toks_first(v: Json)
    ensures
        toks(v).len() > 0,
        !(v is Pair) ==> toks(v)[0] == erase(toks(v)[0]) && (toks(v)[0] is OpenBrace
            || toks(v)[0] is OpenSquareBraket || toks(v)[0] is True || toks(v)[0] is False
            || toks(v)[0] is Null || toks(v)[0] is StringLiteral || toks(v)[0] is Number),
        is_key_pair(v) ==> toks(v)[0] == Lexeme::StringLiteral(0, key_of(v)) && toks(v).len() >= 3
            && toks(v)[1] == Lexeme::Colon(0),
    decreases v,
{
    if is_key_pair(v) {
        let k = *v->Pair_0;
        let x = *v->Pair_1;
        lemma_toks_first(x);
        assert(toks(k) == seq![Lexeme::StringLiteral(0, key_of(v))]);
        assert(toks(v) == toks(k) + seq![Lexeme::Colon(0)] + toks(x));
    }
}

proof fn lemma_join_split(xs: Seq<Json>)
    requires
        xs.len() >= 2,
    ensures
        toks_join(xs) == toks(xs[0]) + seq![Lexeme::Comma(0)] + toks_join(xs.subrange(1, xs.len() as int)),
{
}

/// Parsing the tokens of `v` gives `v` back, and takes all of them.
pub proof fn lemma_parse_toks(ts: Seq<Lexeme>, pos: nat, v: Json)
    requires
        unique_keys(v),
        at_tokens(ts, pos, toks(v)),
    ensures
        parse_value(ts, pos) == Ok::<(nat, Json), Fault>((toks(v).len(), v)),
    decreases v, 0nat,
{
    lemma_toks_first(v);
    assert(erase(ts[pos + 0int]) == toks(v)[0]);
    assert(ts[pos as int] == ts[pos + 0int]);
    match v {
        Json::Object(ps) => {
            let inner = toks_join(ps) + seq![Lexeme::CloseBrace(0)];
            assert(toks(v) == seq![Lexeme::OpenBrace(0)] + inner);
            lemma_at_split(ts, pos, seq![Lexeme::OpenBrace(0)], inner);
            assert forall|i: int| 0 <= i < ps.len() implies !Seq::<Seq<char>>::empty().contains(
                key_of(#[trigger] ps[i]),
            ) by {}
            lemma_parse_members_toks(ts, pos + 1, pos + 1, false, Seq::empty(), Seq::empty(), ps);
            assert(Seq::<Json>::empty() + ps == ps);
        },
        Json::Array(xs) => {
            let inner = toks_join(xs) + seq![Lexeme::CloseSquareBraket(0)];
            assert(toks(v) == seq![Lexeme::OpenSquareBraket(0)] + inner);
            lemma_at_split(ts, pos, seq![Lexeme::OpenSquareBraket(0)], inner);
            lemma_parse_items_toks(ts, pos + 1, pos + 1, false, Seq::empty(), xs);
            assert(Seq::<Json>::empty() + xs == xs);
        },
        _ => {},
    }
}

proof fn lemma_parse_items_toks(
    ts: Seq<Lexeme>,
    start: nat,
    j: nat,
    after_comma: bool,
    acc: Seq<Json>,
    xs: Seq<Json>,
)
    requires
        start <= j,
        xs.len() > 0 || !after_comma,
        forall|i: int| 0 <= i < xs.len() ==> unique_keys(#[trigger] xs[i]),
        at_tokens(ts, j, toks_join(xs) + seq![Lexeme::CloseSquareBraket(0)]),
    ensures
        parse_items(ts, start, j, after_comma, acc) == Ok::<(nat, Json), Fault>(
            ((j + toks_join(xs).len() + 2 - start) as nat, Json::Array(acc + xs)),
        ),
    decreases xs, 1nat,
{
    let tail = seq![Lexeme::CloseSquareBraket(0)];
    lemma_at_split(ts, j, toks_join(xs), tail);
    assert(erase(ts[j + toks_join(xs).len() + 0int]) == tail[0]);
    if xs.len() == 0 {
        assert(ts[j as int] == ts[j + 0int]);
        assert(ts[j as int] is CloseSquareBraket);
        assert(acc + xs == acc);
    } else {
        let x0 = xs[0];
        assert(unique_keys(x0));
        lemma_toks_first(x0);
        let rest = xs.subrange(1, xs.len() as int);
        let after = if xs.len() == 1 {
            Seq::<Lexeme>::empty()
        } else {
            seq![Lexeme::Comma(0)] + toks_join(rest)
        };
        if xs.len() >= 2 {
            lemma_join_split(xs);
        }
        assert(toks_join(xs) == toks(x0) + after);
        lemma_at_split(ts, j, toks(x0), after);
        assert(erase(ts[j + 0int]) == toks(x0)[0]);
        assert(ts[j as int] == ts[j + 0int]);
        lemma_parse_toks(ts, j, x0);
        let n0 = toks(x0).len();
        if xs.len() == 1 {
            assert(toks_join(xs) == toks(x0));
            assert(rest.len() == 0);
            assert(toks_join(rest) == Seq::<Lexeme>::empty());
            assert(toks(x0) + tail == toks_join(xs) + tail);
            lemma_at_split(ts, j, toks(x0), tail);
            lemma_parse_items_toks(ts, start, j + n0, false, acc.push(x0), rest);
            assert(acc.push(x0) + rest == acc + xs);
            assert(parse_items(ts, start, j, after_comma, acc) == parse_items(
                ts,
                start,
                j + n0,
                false,
                acc.push(x0),
            ));
        } else {
            lemma_at_split(ts, j + n0, seq![Lexeme::Comma(0)], toks_join(rest));
            assert(erase(ts[j + n0 + 0int]) == Lexeme::Comma(0));
            assert(ts[(j + n0) as int] == ts[j + n0 + 0int]);
            assert forall|k: int| 0 <= k < (toks_join(rest) + tail).len() implies erase(
                #[trigger] ts[j + n0 + 1 + k],
            ) == (toks_join(rest) + tail)[k] by {
                assert((toks_join(rest) + tail)[k] == (toks_join(xs) + tail)[n0 + 1 + k]);
                assert(ts[j + (n0 + 1 + k)] == ts[j + n0 + 1 + k]);
            }
            assert forall|i: int| 0 <= i < rest.len() implies unique_keys(#[trigger] rest[i]) by {
                assert(rest[i] == xs[i + 1int]);
            }
            lemma_parse_items_toks(ts, start, j + n0 + 1, true, acc.push(x0), rest);
            assert(acc.push(x0) + rest == acc + xs);
            assert(parse_items(ts, start, j + n0, false, acc.push(x0)) == parse_items(
                ts,
                start,
                j + n0 + 1,
                true,
                acc.push(x0),
            ));
            assert(parse_items(ts, start, j, after_comma, acc) == parse_items(
                ts,
                start,
                j + n0,
                false,
                acc.push(x0),
            ));
        }
    }
}

#[verifier::rlimit(40)]
proof fn lemma_parse_members_toks(
    ts: Seq<Lexeme>,
    start: nat,
    j: nat,
    after_comma: bool,
    acc: Seq<Json>,
    keys: Seq<Seq<char>>,
    ps: Seq<Json>,
)
    requires
        start <= j,
        ps.len() > 0 || !after_comma,
        forall|i: int|
            0 <= i < ps.len() ==> is_key_pair(#[trigger] ps[i]) && unique_keys(*ps[i]->Pair_1),
        keys_distinct(ps),
        forall|i: int| 0 <= i < ps.len() ==> !keys.contains(key_of(#[trigger] ps[i])),
        at_tokens(ts, j, toks_join(ps) + seq![Lexeme::CloseBrace(0)]),
    ensures
        parse_members(ts, start, j, after_comma, acc, keys) == Ok::<(nat, Json), Fault>(
            ((j + toks_join(ps).len() + 2 - start) as nat, Json::Object(acc + ps)),
        ),
    decreases ps, 1nat,
{
    let tail = seq![Lexeme::CloseBrace(0)];
    lemma_at_split(ts, j, toks_join(ps), tail);
    assert(erase(ts[j + toks_join(ps).len() + 0int]) == tail[0]);
    if ps.len() == 0 {
        assert(ts[j as int] == ts[j + 0int]);
        assert(ts[j as int] is CloseBrace);
        assert(acc + ps == acc);
    } else {
        let head = ps[0];
        assert(is_key_pair(head));
        lemma_toks_first(head);
        let k = key_of(head);
        let x = *head->Pair_1;
        let rest = ps.subrange(1, ps.len() as int);
        let after = if ps.len() == 1 {
            Seq::<Lexeme>::empty()
        } else {
            seq![Lexeme::Comma(0)] + toks_join(rest)
        };
        if ps.len() >= 2 {
            lemma_join_split(ps);
        }
        assert(toks_join(ps) == toks(head) + after);
        lemma_at_split(ts, j, toks(head), after);
        let key_toks = seq![Lexeme::StringLiteral(0, k), Lexeme::Colon(0)];
        assert(toks(*head->Pair_0) == seq![Lexeme::StringLiteral(0, k)]);
        assert(toks(head) == key_toks + toks(x));
        lemma_at_split(ts, j, key_toks, toks(x));
        assert(erase(ts[j + 0int]) == key_toks[0]);
        assert(ts[j as int] == ts[j + 0int]);
        assert(erase(ts[j + 1int]) == key_toks[1]);
        assert(ts[j as int]->StringLiteral_1 == k);
        lemma_parse_toks(ts, j + 2, x);
        let nx = toks(x).len();
        let member = Json::Pair(Box::new(Json::Literal(k)), Box::new(x));
        assert(member == head);
        let n0 = toks(head).len();
        assert(n0 == nx + 2);
        assert forall|i: int| 0 <= i < rest.len() implies !keys.push(k).contains(
            key_of(#[trigger] rest[i]),
        ) by {
            assert(rest[i] == ps[i + 1int]);
            assert(key_of(ps[0]) != key_of(ps[i + 1int]));
            if keys.push(k).contains(key_of(rest[i])) {
                let w = choose|w: int| 0 <= w < keys.push(k).len() && keys.push(k)[w] == key_of(rest[i]);
                if w < keys.len() {
                    assert(keys.contains(key_of(ps[i + 1int])));
                }
            }
        }
        assert forall|i: int|
            0 <= i < rest.len() implies is_key_pair(#[trigger] rest[i]) && unique_keys(*rest[i]->Pair_1) by {
            assert(rest[i] == ps[i + 1int]);
        }
        assert forall|a: int, b: int| 0 <= a < b < rest.len() implies key_of(rest[a]) != key_of(rest[b]) by {
            assert(rest[a] == ps[a + 1]);
            assert(rest[b] == ps[b + 1]);
        }
        if ps.len() == 1 {
            assert(toks_join(ps) == toks(head));
            assert(rest.len() == 0);
            assert(toks_join(rest) == Seq::<Lexeme>::empty());
            assert(toks(head) + tail == toks_join(ps) + tail);
            lemma_at_split(ts, j, toks(head), tail);
            lemma_parse_members_toks(ts, start, j + n0, false, acc.push(head), keys.push(k), rest);
            assert(acc.push(head) + rest == acc + ps);
            assert(parse_members(ts, start, j, after_comma, acc, keys) == parse_members(
                ts,
                start,
                j + n0,
                false,
                acc.push(head),
                keys.push(k),
            ));
        } else {
            lemma_at_split(ts, j + n0, seq![Lexeme::Comma(0)], toks_join(rest));
            assert(erase(ts[j + n0 + 0int]) == Lexeme::Comma(0));
            assert(ts[(j + n0) as int] == ts[j + n0 + 0int]);
            assert forall|q: int| 0 <= q < (toks_join(rest) + tail).len() implies erase(
                #[trigger] ts[j + n0 + 1 + q],
            ) == (toks_join(rest) + tail)[q] by {
                assert((toks_join(rest) + tail)[q] == (toks_join(ps) + tail)[n0 + 1 + q]);
                assert(ts[j + (n0 + 1 + q)] == ts[j + n0 + 1 + q]);
            }
            lemma_parse_members_toks(ts, start, j + n0 + 1, true, acc.push(head), keys.push(k), rest);
            assert(acc.push(head) + rest == acc + ps);
            assert(parse_members(ts, start, j + n0, false, acc.push(head), keys.push(k))
                == parse_members(ts, start, j + n0 + 1, true, acc.push(head), keys.push(k)));
            assert(parse_members(ts, start, j, after_comma, acc, keys) == parse_members(
                ts,
                start,
                j + n0,
                false,
                acc.push(head),
                keys.push(k),
            ));
        }
    }
}

/// The tokens with positions dropped.
pub open spec fn erase_all(ts: Seq<Lexeme>) -> Seq<Lexeme> {
    ts.map_values(|t: Lexeme| erase(t))
}

/// From offset `a` on, `out` holds the characters `p`.
pub open spec fn at_chars(out: Seq<char>, a: nat, p: Seq<char>) -> bool {
    &&& a + p.len() <= out.len()
    &&& forall|k: int| 0 <= k < p.len() ==> #[trigger] out[a + k] == p[k]
}

/// Whitespace that the tokenizer takes as such.
pub open spec fn blank(w: Seq<char>) -> bool {
    forall|k: int| 0 <= k < w.len() ==> #[trigger] w[k] == ' ' || w[k] == '\n' || w[k] == '\t'
}

/// Offset `b` of `out` may follow a number: the end, or a character that ends numbers.
pub open spec fn follows_number(out: Seq<char>, b: nat) -> bool {
    b == out.len() || (b < out.len() && ends_number(out[b as int]))
}

/// Lexing `out` from `a` gives, apart from whitespace and positions, the tokens `t` and
/// then whatever lexing from `b` gives, whenever lexing from `b` succeeds.
pub open spec fn lexes_as(out: Seq<char>, a: nat, b: nat, t: Seq<Lexeme>) -> bool {
    &&& a <= b <= out.len()
    &&& lex(out, b) is Ok ==> lex(out, a) is Ok && erase_all(strip(lex(out, a)->Ok_0)) == t
        + erase_all(strip(lex(out, b)->Ok_0))
}

proof fn lemma_chars_split(out: Seq<char>, a: nat, x: Seq<char>, y: Seq<char>)
    requires
        at_chars(out, a, x + y),
    ensures
        at_chars(out, a, x),
        at_chars(out, a + x.len(), y),
{
    assert forall|k: int| 0 <= k < x.len() implies #[trigger] out[a + k] == x[k] by {
        assert((x + y)[k] == x[k]);
    }
    assert forall|k: int| 0 <= k < y.len() implies #[trigger] out[a + x.len() + k] == y[k] by {
        assert((x + y)[x.len() + k] == y[k]);
        assert(out[a + (x.len() + k)] == out[a + x.len() + k]);
    }
}

proof fn lemma_strip_concat(x: Seq<Lexeme>, y: Seq<Lexeme>)
    ensures
        strip(x + y) == strip(x) + strip(y),
    decreases y.len(),
{
    if y.len() == 0 {
        assert(x + y == x);
        assert(strip(x) + strip(y) == strip(x));
    } else {
        let front = y.subrange(0, y.len() - 1);
        lemma_strip_concat(x, front);
        assert((x + y).subrange(0, (x + y).len() - 1) == x + front);
        assert((x + y).last() == y.last());
    }
}

proof fn lemma_erase_concat(x: Seq<Lexeme>, y: Seq<Lexeme>)
    ensures
        erase_all(x + y) == erase_all(x) + erase_all(y),
{
    assert(erase_all(x + y) == erase_all(x) + erase_all(y));
}

proof fn lemma_lexes_trans(out: Seq<char>, a: nat, b: nat, c: nat, t1: Seq<Lexeme>, t2: Seq<Lexeme>)
    requires
        lexes_as(out, a, b, t1),
        lexes_as(out, b, c, t2),
    ensures
        lexes_as(out, a, c, t1 + t2),
{
    if lex(out, c) is Ok {
        assert(t1 + (t2 + erase_all(strip(lex(out, c)->Ok_0))) == (t1 + t2) + erase_all(
            strip(lex(out, c)->Ok_0),
        ));
    }
}

proof fn lemma_lexes_refl(out: Seq<char>, a: nat)
    requires
        a <= out.len(),
    ensures
        lexes_as(out, a, a, Seq::empty()),
{
    if lex(out, a) is Ok {
        assert(Seq::<Lexeme>::empty() + erase_all(strip(lex(out, a)->Ok_0)) == erase_all(
            strip(lex(out, a)->Ok_0),
        ));
    }
}

/// One token read at `a`.
proof fn lemma_lexes_one(out: Seq<char>, a: nat)
    requires
        a < out.len(),
        lex_token(out, a) is Ok,
    ensures
        ({
            let (t, b) = lex_token(out, a)->Ok_0;
            lexes_as(
                out,
                a,
                b,
                if t is WhiteSpace {
                    Seq::<Lexeme>::empty()
                } else {
                    seq![erase(t)]
                },
            )
        }),
{
    crate::tokenizer::lemma_lex_token_advances(out, a);
    let (t, b) = lex_token(out, a)->Ok_0;
    if lex(out, b) is Ok {
        let rest = lex(out, b)->Ok_0;
        assert(lex(out, a) == Ok::<Seq<Lexeme>, Fault>(seq![t] + rest));
        lemma_strip_concat(seq![t], rest);
        assert(seq![t].subrange(0, 0) == Seq::<Lexeme>::empty());
        assert(strip(Seq::<Lexeme>::empty()) == Seq::<Lexeme>::empty());
        if t is WhiteSpace {
            assert(strip(seq![t]) == Seq::<Lexeme>::empty());
            assert(Seq::<Lexeme>::empty() + strip(rest) == strip(rest));
            assert(Seq::<Lexeme>::empty() + erase_all(strip(rest)) == erase_all(strip(rest)));
        } else {
            assert(strip(seq![t]) == seq![t]);
            lemma_erase_concat(seq![t], strip(rest));
            assert(erase_all(seq![t]) == seq![erase(t)]);
        }
    }
}

/// A run of whitespace yields no tokens.
proof fn lemma_lexes_blank(out: Seq<char>, a: nat, w: Seq<char>)
    requires
        at_chars(out, a, w),
        blank(w),
    ensures
        lexes_as(out, a, a + w.len(), Seq::empty()),
    decreases w.len(),
{
    if w.len() == 0 {
        lemma_lexes_refl(out, a);
    } else {
        assert(out[a + 0int] == w[0]);
        assert(out[a as int] == out[a + 0int]);
        assert(w[0] == ' ' || w[0] == '\n' || w[0] == '\t');
        lemma_lexes_one(out, a);
        let rest = w.subrange(1, w.len() as int);
        assert(w == seq![w[0]] + rest);
        lemma_chars_split(out, a, seq![w[0]], rest);
        assert forall|k: int| 0 <= k < rest.len() implies #[trigger] rest[k] == ' ' || rest[k]
            == '\n' || rest[k] == '\t' by {
            assert(rest[k] == w[k + 1]);
        }
        lemma_lexes_blank(out, a + 1, rest);
        lemma_lexes_trans(out, a, a + 1, a + w.len(), Seq::empty(), Seq::empty());
        assert(Seq::<Lexeme>::empty() + Seq::<Lexeme>::empty() == Seq::<Lexeme>::empty());
    }
}

proof fn lemma_keyword_present(out: Seq<char>, a: nat, w: Seq<char>, k: nat)
    requires
        at_chars(out, a, w),
        k <= w.len(),
    ensures
        keyword_fault(out, a, w, k) is None,
    decreases w.len() - k,
{
    if k < w.len() {
        assert(out[a + (k as int)] == w[k as int]);
        lemma_keyword_present(out, a, w, k + 1);
    }
}

proof fn lemma_lexes_keyword(out: Seq<char>, a: nat, v: Json)
    requires
        v is True || v is False || v is Null,
        at_chars(out, a, print(v, Seq::empty(), Seq::empty())),
    ensures
        lexes_as(out, a, a + print(v, Seq::empty(), Seq::empty()).len(), toks(v)),
{
    reveal_strlit("true");
    reveal_strlit("false");
    reveal_strlit("null");
    let w = print(v, Seq::empty(), Seq::empty());
    assert(out[a + 0int] == w[0]);
    assert(out[a as int] == out[a + 0int]);
    lemma_keyword_present(out, a, w, 0);
    lemma_lexes_one(out, a);
}

proof fn lemma_escape_concat(x: Seq<char>, y: Seq<char>)
    ensures
        escape(x + y) == escape(x) + escape(y),
    decreases y.len(),
{
    if y.len() == 0 {
        assert(x + y == x);
        assert(escape(x) + escape(y) == escape(x));
    } else {
        let front = y.subrange(0, y.len() - 1);
        lemma_escape_concat(x, front);
        assert((x + y).subrange(0, (x + y).len() - 1) == x + front);
        assert((x + y).last() == y.last());
    }
}

proof fn lemma_scan_escaped(out: Seq<char>, k: nat, t: Seq<char>, acc: Seq<char>)
    requires
        at_chars(out, k, escape(t) + seq!['"']),
    ensures
        scan_string(out, k, acc) == Ok::<(Seq<char>, nat), Fault>(
            (acc + t, k + escape(t).len() + 1),
        ),
    decreases t.len(),
{
    let e = escape(t);
    if t.len() == 0 {
        assert(e.len() == 0);
        assert((e + seq!['"'])[0] == '"');
        assert(out[k + 0int] == '"');
        assert(out[k as int] == out[k + 0int]);
        assert(acc + t == acc);
    } else {
        let c = t[0];
        let rest = t.subrange(1, t.len() as int);
        assert(t == seq![c] + rest);
        lemma_escape_concat(seq![c], rest);
        assert(seq![c].subrange(0, 0) == Seq::<char>::empty());
        assert(escape(Seq::<char>::empty()) == Seq::<char>::empty());
        if c == '"' || c == '\\' {
            assert(escape(seq![c]) == seq!['\\', c]);
            let tail = escape(rest) + seq!['"'];
            assert(e + seq!['"'] == seq!['\\', c] + tail);
            lemma_chars_split(out, k, seq!['\\', c], tail);
            assert(out[k + 0int] == '\\');
            assert(out[k + 1int] == c);
            assert(out[k as int] == out[k + 0int]);
            assert(out[(k + 1) as int] == out[k + 1int]);
            lemma_scan_escaped(out, k + 2, rest, acc.push(c));
            assert(acc.push(c) + rest == acc + t);
        } else {
            assert(escape(seq![c]) == seq![c]);
            let tail = escape(rest) + seq!['"'];
            assert(e + seq!['"'] == seq![c] + tail);
            lemma_chars_split(out, k, seq![c], tail);
            assert(out[k + 0int] == c);
            assert(out[k as int] == out[k + 0int]);
            lemma_scan_escaped(out, k + 1, rest, acc.push(c));
            assert(acc.push(c) + rest == acc + t);
        }
    }
}

proof fn lemma_lexes_literal(out: Seq<char>, a: nat, t: Seq<char>)
    requires
        at_chars(out, a, seq!['"'] + escape(t) + seq!['"']),
    ensures
        lexes_as(out, a, a + escape(t).len() + 2, seq![Lexeme::StringLiteral(0, t)]),
{
    assert(seq!['"'] + escape(t) + seq!['"'] == seq!['"'] + (escape(t) + seq!['"']));
    lemma_chars_split(out, a, seq!['"'], escape(t) + seq!['"']);
    assert(out[a + 0int] == '"');
    assert(out[a as int] == out[a + 0int]);
    lemma_scan_escaped(out, a + 1, t, Seq::empty());
    assert(Seq::<char>::empty() + t == t);
    lemma_lexes_one(out, a);
}

proof fn lemma_scan_valid(out: Seq<char>, a: nat, i: nat, t: Seq<char>, dot: bool, e: bool)
    requires
        at_chars(out, a, t),
        valid_number(t),
        follows_number(out, a + t.len()),
        a <= i <= a + t.len(),
        dot == (exists|k: int| a <= k < i && out[k] == '.'),
        e == (exists|k: int| a <= k < i && out[k] == 'e'),
    ensures
        scan_number(out, a, i, dot, e) == Ok::<nat, Fault>(a + t.len()),
    decreases a + t.len() - i,
{
    if i == a + t.len() {
        assert(out[i - 1] == out[a + (t.len() - 1)]);
        assert(out[a + (t.len() - 1)] == t[t.len() - 1]);
    } else {
        let c = out[i as int];
        assert(c == out[a + (i - a)]);
        assert(c == t[i - a]);
        assert(is_number_char(t[i - a]));
        if i > a {
            assert(t[i - a] != '-');
        }
        if c == '.' && dot {
            let k = choose|k: int| a <= k < i && out[k] == '.';
            assert(out[k] == out[a + (k - a)]);
            assert(!(t[k - a] == '.' && t[i - a] == '.'));
        }
        if c == 'e' && e {
            let k = choose|k: int| a <= k < i && out[k] == 'e';
            assert(out[k] == out[a + (k - a)]);
            assert(!(t[k - a] == 'e' && t[i - a] == 'e'));
        }
        let dot2 = dot || c == '.';
        let e2 = e || c == 'e';
        assert(dot2 == (exists|k: int| a <= k < i + 1 && out[k] == '.')) by {
            if dot2 && !dot {
                assert(a <= i < i + 1 && out[i as int] == '.');
            }
        }
        assert(e2 == (exists|k: int| a <= k < i + 1 && out[k] == 'e')) by {
            if e2 && !e {
                assert(a <= i < i + 1 && out[i as int] == 'e');
            }
        }
        lemma_scan_valid(out, a, i + 1, t, dot2, e2);
    }
}

proof fn lemma_lexes_number(out: Seq<char>, a: nat, t: Seq<char>)
    requires
        at_chars(out, a, t),
        valid_number(t),
        follows_number(out, a + t.len()),
    ensures
        lexes_as(out, a, a + t.len(), seq![Lexeme::Number(0, t)]),
{
    assert(out[a + 0int] == t[0]);
    assert(out[a as int] == out[a + 0int]);
    lemma_scan_valid(out, a, a, t, false, false);
    assert(out.subrange(a as int, (a + t.len()) as int) == t) by {
        assert forall|k: int| 0 <= k < t.len() implies #[trigger] out.subrange(a as int, (a + t.len()) as int)[k] == t[k] by {
            assert(out[a + k] == t[k]);
        }
    }
    lemma_lexes_one(out, a);
}

proof fn lemma_print_list_front(vs: Seq<Json>, unit: Seq<char>, ind: Seq<char>)
    requires
        vs.len() >= 2,
    ensures
        print_list(vs, unit, ind) == print(vs[0], unit, ind) + seq![','] + seq!['\n'] + ind
            + print_list(vs.subrange(1, vs.len() as int), unit, ind),
    decreases vs.len(),
{
    let n = vs.len();
    let front = vs.subrange(0, n - 1);
    let rest = vs.subrange(1, n as int);
    let sep = seq![','] + seq!['\n'] + ind;
    assert(print_list(vs, unit, ind) == print_list(front, unit, ind) + seq![','] + seq!['\n'] + ind
        + print(vs[n - 1], unit, ind));
    if n == 2 {
        assert(front.len() == 1 && front[0] == vs[0]);
        assert(rest.len() == 1 && rest[0] == vs[1]);
        assert(print_list(front, unit, ind) == print(vs[0], unit, ind));
        assert(print_list(rest, unit, ind) == print(vs[1], unit, ind));
    } else {
        lemma_print_list_front(front, unit, ind);
        let mid = front.subrange(1, front.len() as int);
        assert(front[0] == vs[0]);
        assert(mid == rest.subrange(0, rest.len() - 1));
        assert(rest[rest.len() - 1] == vs[n - 1]);
        assert(print_list(rest, unit, ind) == print_list(mid, unit, ind) + seq![','] + seq!['\n']
            + ind + print(vs[n - 1], unit, ind));
    }
}

/// Lexing a container printed as `o`, newline, `ind2`, the children, newline, `ind`, `c`,
/// `end`: its brackets and its children's tokens.
proof fn lemma_lexes_container(
    out: Seq<char>,
    a: nat,
    o: char,
    c: char,
    vs: Seq<Json>,
    unit: Seq<char>,
    ind: Seq<char>,
    end: Seq<char>,
)
    requires
        (o == '{' && c == '}') || (o == '[' && c == ']'),
        vs.len() >= 1,
        forall|i: int|
            0 <= i < vs.len() ==> crate::laws::sound(#[trigger] vs[i]) && (unique_keys(vs[i]) || (
            is_key_pair(vs[i]) && unique_keys(*vs[i]->Pair_1))),
        blank(unit),
        blank(ind),
        blank(end),
        at_chars(
            out,
            a,
            seq![o, '\n'] + (ind + unit) + print_list(vs, unit, ind + unit) + seq!['\n'] + ind
                + seq![c] + end,
        ),
    ensures
        ({
            let p = seq![o, '\n'] + (ind + unit) + print_list(vs, unit, ind + unit) + seq!['\n']
                + ind + seq![c] + end;
            let open = if o == '{' {
                Lexeme::OpenBrace(0)
            } else {
                Lexeme::OpenSquareBraket(0)
            };
            let close = if o == '{' {
                Lexeme::CloseBrace(0)
            } else {
                Lexeme::CloseSquareBraket(0)
            };
            lexes_as(out, a, a + p.len(), seq![open] + toks_join(vs) + seq![close])
        }),
    decreases vs, 1nat,
{
    let ind2 = ind + unit;
    assert(blank(ind2)) by {
        assert forall|k: int| 0 <= k < ind2.len() implies #[trigger] ind2[k] == ' ' || ind2[k]
            == '\n' || ind2[k] == '\t' by {
            if k < ind.len() {
                assert(ind2[k] == ind[k]);
            } else {
                assert(ind2[k] == unit[k - ind.len()]);
            }
        }
    }
    assert(blank(seq!['\n']));
    let l = print_list(vs, unit, ind2);
    let pre1 = seq![o, '\n'];
    let pre2 = pre1 + ind2;
    let pre3 = pre2 + l;
    let pre4 = pre3 + seq!['\n'];
    let pre5 = pre4 + ind;
    let pre6 = pre5 + seq![c];
    let p = pre6 + end;
    lemma_chars_split(out, a, pre6, end);
    lemma_chars_split(out, a, pre5, seq![c]);
    lemma_chars_split(out, a, pre4, ind);
    lemma_chars_split(out, a, pre3, seq!['\n']);
    lemma_chars_split(out, a, pre2, l);
    lemma_chars_split(out, a, pre1, ind2);
    lemma_chars_split(out, a, seq![o], seq!['\n']);
    assert(out[a + 0int] == o && out[a as int] == out[a + 0int]);
    assert(out[a + pre5.len() + 0int] == c && out[(a + pre5.len()) as int] == out[a + pre5.len() + 0int]);
    assert(out[a + pre3.len() + 0int] == '\n' && out[(a + pre3.len()) as int] == out[a + pre3.len() + 0int]);
    lemma_lexes_one(out, a);
    lemma_lexes_blank(out, a + 1, seq!['\n']);
    lemma_lexes_blank(out, a + 2, ind2);
    lemma_lexes_list(out, a + pre2.len(), vs, unit, ind2);
    lemma_lexes_blank(out, a + pre3.len(), seq!['\n']);
    lemma_lexes_blank(out, a + pre4.len(), ind);
    lemma_lexes_one(out, a + pre5.len());
    lemma_lexes_blank(out, a + pre6.len(), end);
    let open = if o == '{' {
        Lexeme::OpenBrace(0)
    } else {
        Lexeme::OpenSquareBraket(0)
    };
    let close = if o == '{' {
        Lexeme::CloseBrace(0)
    } else {
        Lexeme::CloseSquareBraket(0)
    };
    let t0 = seq![open];
    let e = Seq::<Lexeme>::empty();
    lemma_lexes_trans(out, a, a + 1, a + 2, t0, e);
    lemma_lexes_trans(out, a, a + 2, a + pre2.len(), t0 + e, e);
    lemma_lexes_trans(out, a, a + pre2.len(), a + pre3.len(), t0 + e + e, toks_join(vs));
    lemma_lexes_trans(out, a, a + pre3.len(), a + pre4.len(), t0 + e + e + toks_join(vs), e);
    lemma_lexes_trans(out, a, a + pre4.len(), a + pre5.len(), t0 + e + e + toks_join(vs) + e, e);
    lemma_lexes_trans(out, a, a + pre5.len(), a + pre6.len(), t0 + e + e + toks_join(vs) + e + e, seq![close]);
    lemma_lexes_trans(out, a, a + pre6.len(), a + p.len(), t0 + e + e + toks_join(vs) + e + e + seq![close], e);
    assert(seq![open] + toks_join(vs) + seq![close] == t0 + e + e + toks_join(vs) + e + e + seq![close] + e);
}

/// Tokens of a value printed at indentation `ind`: what `print` writes lexes back to `toks`.
pub proof fn lemma_lexes_print(out: Seq<char>, a: nat, v: Json, unit: Seq<char>, ind: Seq<char>)
    requires
        crate::laws::sound(v),
        unique_keys(v) || (is_key_pair(v) && unique_keys(*v->Pair_1)),
        blank(unit),
        blank(ind),
        at_chars(out, a, print(v, unit, ind)),
        follows_number(out, a + print(v, unit, ind).len()),
    ensures
        lexes_as(out, a, a + print(v, unit, ind).len(), toks(v)),
    decreases v, 2nat,
{
    let p = print(v, unit, ind);
    let end = if ind.len() == 0 {
        seq!['\n']
    } else {
        Seq::<char>::empty()
    };
    assert(blank(end));
    match v {
        Json::Object(ps) => {
            if ps.len() == 0 {
                assert(p == seq!['{', '}'] + end);
                assert(toks_join(ps) == Seq::<Lexeme>::empty());
                assert(toks(v) == seq![Lexeme::OpenBrace(0), Lexeme::CloseBrace(0)]);
                lemma_lexes_empty(out, a, '{', '}', end);
                assert(lexes_as(out, a, a + p.len(), toks(v)));
            } else {
                assert forall|i: int| 0 <= i < ps.len() implies crate::laws::sound(#[trigger] ps[i]) && (
                unique_keys(ps[i]) || (is_key_pair(ps[i]) && unique_keys(*ps[i]->Pair_1))) by {}
                assert(p == seq!['{', '\n'] + (ind + unit) + print_list(ps, unit, ind + unit) + seq!['\n']
                    + ind + seq!['}'] + end);
                lemma_lexes_container(out, a, '{', '}', ps, unit, ind, end);
                assert(toks(v) == seq![Lexeme::OpenBrace(0)] + toks_join(ps) + seq![Lexeme::CloseBrace(0)]);
                assert(lexes_as(out, a, a + p.len(), toks(v)));
            }
        },
        Json::Array(xs) => {
            if xs.len() == 0 {
                assert(p == seq!['[', ']'] + Seq::<char>::empty());
                lemma_lexes_empty(out, a, '[', ']', Seq::empty());
                assert(toks_join(xs) == Seq::<Lexeme>::empty());
                assert(toks(v) == seq![Lexeme::OpenSquareBraket(0), Lexeme::CloseSquareBraket(0)]);
            } else {
                assert forall|i: int| 0 <= i < xs.len() implies crate::laws::sound(#[trigger] xs[i]) && (
                unique_keys(xs[i]) || (is_key_pair(xs[i]) && unique_keys(*xs[i]->Pair_1))) by {}
                assert(p == seq!['[', '\n'] + (ind + unit) + print_list(xs, unit, ind + unit) + seq!['\n']
                    + ind + seq![']'] + Seq::<char>::empty());
                lemma_lexes_container(out, a, '[', ']', xs, unit, ind, Seq::empty());
                assert(toks(v) == seq![Lexeme::OpenSquareBraket(0)] + toks_join(xs) + seq![
                    Lexeme::CloseSquareBraket(0),
                ]);
            }
        },
        Json::Pair(k, x) => {
            lemma_lexes_pair(out, a, v, unit, ind);
        },
        Json::Literal(t) => {
            lemma_lexes_literal(out, a, t);
        },
        Json::Number(t) => {
            lemma_lexes_number(out, a, t);
        },
        _ => {
            assert(p == print(v, Seq::empty(), Seq::empty()));
            lemma_lexes_keyword(out, a, v);
        },
    }
}

proof fn lemma_lexes_empty(out: Seq<char>, a: nat, o: char, c: char, end: Seq<char>)
    requires
        (o == '{' && c == '}') || (o == '[' && c == ']'),
        blank(end),
        at_chars(out, a, seq![o, c] + end),
    ensures
        ({
            let open = if o == '{' {
                Lexeme::OpenBrace(0)
            } else {
                Lexeme::OpenSquareBraket(0)
            };
            let close = if o == '{' {
                Lexeme::CloseBrace(0)
            } else {
                Lexeme::CloseSquareBraket(0)
            };
            lexes_as(out, a, a + 2 + end.len(), seq![open, close])
        }),
{
    lemma_chars_split(out, a, seq![o, c], end);
    lemma_chars_split(out, a, seq![o], seq![c]);
    assert(out[a + 0int] == o && out[a as int] == out[a + 0int]);
    assert(out[a + 1 + 0int] == c && out[(a + 1) as int] == out[a + 1 + 0int]);
    lemma_lexes_one(out, a);
    lemma_lexes_one(out, a + 1);
    lemma_lexes_blank(out, a + 2, end);
    let open = if o == '{' {
        Lexeme::OpenBrace(0)
    } else {
        Lexeme::OpenSquareBraket(0)
    };
    let close = if o == '{' {
        Lexeme::CloseBrace(0)
    } else {
        Lexeme::CloseSquareBraket(0)
    };
    lemma_lexes_trans(out, a, a + 1, a + 2, seq![open], seq![close]);
    lemma_lexes_trans(out, a, a + 2, a + 2 + end.len(), seq![open] + seq![close], Seq::empty());
    assert(seq![open, close] == seq![open] + seq![close] + Seq::<Lexeme>::empty());
}

proof fn lemma_lexes_pair(out: Seq<char>, a: nat, v: Json, unit: Seq<char>, ind: Seq<char>)
    requires
        v is Pair,
        crate::laws::sound(v),
        is_key_pair(v) && unique_keys(*v->Pair_1),
        blank(unit),
        blank(ind),
        at_chars(out, a, print(v, unit, ind)),
        follows_number(out, a + print(v, unit, ind).len()),
    ensures
        lexes_as(out, a, a + print(v, unit, ind).len(), toks(v)),
    decreases v, 1nat,
{
    let k = *v->Pair_0;
    let x = *v->Pair_1;
    let t = k->Literal_0;
    assert(k is Literal);
    assert(v == Json::Pair(Box::new(k), Box::new(x)));
    assert(toks(k) == seq![Lexeme::StringLiteral(0, t)]);
    assert(toks(v) == toks(k) + seq![Lexeme::Colon(0)] + toks(x));
    let p = print(v, unit, ind);
    let pk = print(k, unit, ind);
    let px = print(x, unit, ind);
    assert(pk == seq!['"'] + escape(t) + seq!['"']);
    let q1 = pk + seq![':', ' '];
    assert(p == q1 + px);
    lemma_chars_split(out, a, q1, px);
    lemma_chars_split(out, a, pk, seq![':', ' ']);
    lemma_chars_split(out, a + pk.len(), seq![':'], seq![' ']);
    assert(out[a + pk.len() + 0int] == ':' && out[(a + pk.len()) as int] == out[a + pk.len() + 0int]);
    assert(blank(seq![' ']));
    lemma_lexes_literal(out, a, t);
    lemma_lexes_one(out, a + pk.len());
    lemma_lexes_blank(out, a + pk.len() + 1, seq![' ']);
    lemma_lexes_print(out, a + q1.len(), x, unit, ind);
    let e = Seq::<Lexeme>::empty();
    let t0 = seq![Lexeme::StringLiteral(0, t)];
    lemma_lexes_trans(out, a, a + pk.len(), a + pk.len() + 1, t0, seq![Lexeme::Colon(0)]);
    lemma_lexes_trans(out, a, a + pk.len() + 1, a + q1.len(), t0 + seq![Lexeme::Colon(0)], e);
    lemma_lexes_trans(out, a, a + q1.len(), a + p.len(), t0 + seq![Lexeme::Colon(0)] + e, toks(x));
    assert(toks(v) == t0 + seq![Lexeme::Colon(0)] + e + toks(x));
}

proof fn lemma_lexes_list(out: Seq<char>, a: nat, vs: Seq<Json>, unit: Seq<char>, ind: Seq<char>)
    requires
        vs.len() >= 1,
        forall|i: int|
            0 <= i < vs.len() ==> crate::laws::sound(#[trigger] vs[i]) && (unique_keys(vs[i]) || (
            is_key_pair(vs[i]) && unique_keys(*vs[i]->Pair_1))),
        blank(unit),
        blank(ind),
        at_chars(out, a, print_list(vs, unit, ind)),
        follows_number(out, a + print_list(vs, unit, ind).len()),
    ensures
        lexes_as(out, a, a + print_list(vs, unit, ind).len(), toks_join(vs)),
    decreases vs, 0nat,
{
    let pl = print_list(vs, unit, ind);
    if vs.len() == 1 {
        lemma_lexes_print(out, a, vs[0], unit, ind);
    } else {
        let rest = vs.subrange(1, vs.len() as int);
        lemma_print_list_front(vs, unit, ind);
        let head = print(vs[0], unit, ind);
        let pr = print_list(rest, unit, ind);
        let q1 = head + seq![','];
        let q2 = q1 + seq!['\n'];
        let q3 = q2 + ind;
        assert(pl == q3 + pr);
        lemma_chars_split(out, a, q3, pr);
        lemma_chars_split(out, a, q2, ind);
        lemma_chars_split(out, a, q1, seq!['\n']);
        lemma_chars_split(out, a, head, seq![',']);
        assert(out[a + head.len() + 0int] == ',' && out[(a + head.len()) as int] == out[a + head.len() + 0int]);
        assert(blank(seq!['\n']));
        lemma_lexes_print(out, a, vs[0], unit, ind);
        lemma_lexes_one(out, a + head.len());
        lemma_lexes_blank(out, a + q1.len(), seq!['\n']);
        lemma_lexes_blank(out, a + q2.len(), ind);
        assert forall|i: int| 0 <= i < rest.len() implies crate::laws::sound(#[trigger] rest[i]) && (
        unique_keys(rest[i]) || (is_key_pair(rest[i]) && unique_keys(*rest[i]->Pair_1))) by {
            assert(rest[i] == vs[i + 1int]);
        }
        lemma_lexes_list(out, a + q3.len(), rest, unit, ind);
        let e = Seq::<Lexeme>::empty();
        let c = seq![Lexeme::Comma(0)];
        lemma_lexes_trans(out, a, a + head.len(), a + q1.len(), toks(vs[0]), c);
        lemma_lexes_trans(out, a, a + q1.len(), a + q2.len(), toks(vs[0]) + c, e);
        lemma_lexes_trans(out, a, a + q2.len(), a + q3.len(), toks(vs[0]) + c + e, e);
        lemma_lexes_trans(out, a, a + q3.len(), a + pl.len(), toks(vs[0]) + c + e + e, toks_join(rest));
        assert(toks_join(vs) == toks(vs[0]) + c + e + e + toks_join(rest));
    }
}

} // verus!
