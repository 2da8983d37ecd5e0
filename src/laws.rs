use vstd::prelude::*;

use crate::errors::Fault;
use crate::formatter::print;
use crate::parser::{parse_document, parse_items, parse_members, parse_value, strip, Json};
use crate::tokenizer::{
    ends_number, is_digit, is_number_char, keyword_fault, lex, lex_token, scan_number, scan_string,
    Lexeme,
};
use crate::formatter::{print_document, Delimiter, DelimiterCount};
use crate::roundtrip::{
    at_chars, at_tokens, blank, erase_all, follows_number, lemma_lex_sound, lemma_lexes_print,
    lemma_parse_toks, lemma_strip_sound, toks,
};
use crate::{config_unit, format_text, FormatConfig};

verus! {

/// The characters of `s` from `start` up to `p` could all stand in one number: each is a
/// number character, a `-` comes only first, and no `.` or `e` comes twice.
pub open spec fn number_prefix_ok(s: Seq<char>, start: nat, p: nat) -> bool {
    &&& forall|k: int| start <= k < p ==> is_number_char(#[trigger] s[k])
    &&& forall|k: int| start < k < p ==> #[trigger] s[k] != '-'
    &&& forall|a: int, b: int|
        start <= a < b < p ==> !(#[trigger] s[a] == '.' && #[trigger] s[b] == '.')
    &&& forall|a: int, b: int|
        start <= a < b < p ==> !(#[trigger] s[a] == 'e' && #[trigger] s[b] == 'e')
}

proof fn lemma_scan_to_bad_char(s: Seq<char>, start: nat, i: nat, p: nat, dot: bool, e: bool)
    requires
        start <= i <= p < s.len(),
        number_prefix_ok(s, start, p),
        dot == (exists|k: int| start <= k < i && s[k] == '.'),
        e == (exists|k: int| start <= k < i && s[k] == 'e'),
        !is_number_char(s[p as int]),
        !ends_number(s[p as int]),
    ensures
        scan_number(s, start, i, dot, e) == Err::<nat, Fault>(
            Fault::InvalidNumberCharacter(p, s[p as int]),
        ),
    decreases p - i,
{
    if i < p {
        let c = s[i as int];
        assert(is_number_char(c));
        assert(!ends_number(c));
        if c == '.' && dot {
            let k = choose|k: int| start <= k < i && s[k] == '.';
            assert(!(s[k] == '.' && s[i as int] == '.'));
        }
        if c == 'e' && e {
            let k = choose|k: int| start <= k < i && s[k] == 'e';
            assert(!(s[k] == 'e' && s[i as int] == 'e'));
        }
        let dot2 = dot || c == '.';
        let e2 = e || c == 'e';
        assert(dot2 == (exists|k: int| start <= k < i + 1 && s[k] == '.')) by {
            if dot2 && !dot {
                assert(start <= i < i + 1 && s[i as int] == '.');
            }
        }
        assert(e2 == (exists|k: int| start <= k < i + 1 && s[k] == 'e')) by {
            if e2 && !e {
                assert(start <= i < i + 1 && s[i as int] == 'e');
            }
        }
        lemma_scan_to_bad_char(s, start, i + 1, p, dot2, e2);
    }
}

/// Inside a number, the first character that no number may hold is reported at its own
/// offset: a token that starts at `start` with a digit or `-` fails with
/// `InvalidNumberCharacter(p, s[p])`, where `p` is the first offset whose character is
/// neither a number character nor one that ends a number.
pub proof fn lemma_number_fault_position(s: Seq<char>, start: nat, p: nat)
    requires
        start <= p < s.len(),
        is_digit(s[start as int]) || s[start as int] == '-',
        number_prefix_ok(s, start, p),
        !is_number_char(s[p as int]),
        !ends_number(s[p as int]),
    ensures
        lex_token(s, start) == Err::<(crate::tokenizer::Lexeme, nat), Fault>(
            Fault::InvalidNumberCharacter(p, s[p as int]),
        ),
{
    lemma_scan_to_bad_char(s, start, start, p, false, false);
}

/// Tokenizing from offset `i` reads whole tokens without fault and stops exactly at
/// offset `start`, which is inside the input.
pub open spec fn lexes_up_to(s: Seq<char>, i: nat, start: nat) -> bool
    decreases s.len() - i,
{
    if i == start {
        start < s.len()
    } else if i < start && start < s.len() {
        match lex_token(s, i) {
            Ok((_, j)) => i < j && j <= start && lexes_up_to(s, j, start),
            Err(_) => false,
        }
    } else {
        false
    }
}

proof fn lemma_lex_number_fault(s: Seq<char>, i: nat, start: nat, p: nat)
    requires
        lexes_up_to(s, i, start),
        start <= p < s.len(),
        is_digit(s[start as int]) || s[start as int] == '-',
        number_prefix_ok(s, start, p),
        !is_number_char(s[p as int]),
        !ends_number(s[p as int]),
    ensures
        lex(s, i) == Err::<Seq<Lexeme>, Fault>(Fault::InvalidNumberCharacter(p, s[p as int])),
    decreases s.len() - i,
{
    if i == start {
        lemma_number_fault_position(s, start, p);
    } else {
        let j = lex_token(s, i)->Ok_0.1;
        lemma_lex_number_fault(s, j, start, p);
    }
}

/// The position of a bad number character holds for a whole input: when the text before
/// `start` tokenizes without fault and a number starts at `start`, formatting fails with
/// `InvalidNumberCharacter(p, s[p])`, where `p` is the absolute offset of the first
/// character that no number may hold and that does not end a number.
pub proof fn lemma_format_number_fault_position(s: Seq<char>, start: nat, p: nat, unit: Seq<char>)
    requires
        lexes_up_to(s, 0, start),
        start <= p < s.len(),
        is_digit(s[start as int]) || s[start as int] == '-',
        number_prefix_ok(s, start, p),
        !is_number_char(s[p as int]),
        !ends_number(s[p as int]),
    ensures
        format_text(s, unit) == Err::<Seq<char>, Fault>(Fault::InvalidNumberCharacter(p, s[p as int])),
{
    lemma_lex_number_fault(s, 0, start, p);
}

/// A number text that the tokenizer accepts as a whole.
pub open spec fn valid_number(t: Seq<char>) -> bool {
    &&& t.len() > 0
    &&& is_digit(t[0]) || t[0] == '-'
    &&& number_prefix_ok(t, 0, t.len())
    &&& t.last() != 'e'
}

/// Every number token of `ts` is one the tokenizer accepts.
pub open spec fn sound_tokens(ts: Seq<Lexeme>) -> bool {
    forall|k: int| 0 <= k < ts.len() ==> (#[trigger] ts[k] is Number ==> valid_number(ts[k]->Number_1))
}

/// Every number in `v` is one the tokenizer accepts.
pub open spec fn sound(v: Json) -> bool
    decreases v,
{
    match v {
        Json::Object(ps) => forall|i: int| 0 <= i < ps.len() ==> sound(#[trigger] ps[i]),
        Json::Array(items) => forall|i: int| 0 <= i < items.len() ==> sound(#[trigger] items[i]),
        Json::Pair(k, x) => sound(*k) && sound(*x),
        Json::Number(t) => valid_number(t),
        _ => true,
    }
}

/// A member of an object as the parser builds it: a pair whose key is a string.
pub open spec fn is_key_pair(v: Json) -> bool {
    v is Pair && *v->Pair_0 is Literal
}

/// The key text of a member.
pub open spec fn key_of(v: Json) -> Seq<char> {
    v->Pair_0->Literal_0
}

/// No two members of `ps` have the same key.
pub open spec fn keys_distinct(ps: Seq<Json>) -> bool {
    forall|a: int, b: int| 0 <= a < b < ps.len() ==> key_of(ps[a]) != key_of(ps[b])
}

/// Every object in `v` holds members only, with pairwise distinct keys; arrays hold no
/// bare pairs; and `v` is no bare pair.
pub open spec fn unique_keys(v: Json) -> bool
    decreases v,
{
    match v {
        Json::Object(ps) => keys_distinct(ps) && forall|i: int|
            0 <= i < ps.len() ==> is_key_pair(#[trigger] ps[i]) && unique_keys(*ps[i]->Pair_1),
        Json::Array(items) => forall|i: int|
            0 <= i < items.len() ==> !(#[trigger] items[i] is Pair) && unique_keys(items[i]),
        Json::Pair(_, _) => false,
        _ => true,
    }
}

proof fn lemma_value_unique(ts: Seq<Lexeme>, pos: nat)
    ensures
        parse_value(ts, pos) is Ok ==> unique_keys(parse_value(ts, pos)->Ok_0.1),
        parse_value(ts, pos) is Ok && sound_tokens(ts) ==> sound(parse_value(ts, pos)->Ok_0.1),
    decreases ts.len() - pos, 0nat,
{
    if pos < ts.len() {
        match ts[pos as int] {
            Lexeme::OpenBrace(_) => {
                lemma_members_unique(ts, pos + 1, pos + 1, false, Seq::empty(), Seq::empty());
            },
            Lexeme::OpenSquareBraket(_) => {
                lemma_items_unique(ts, pos + 1, pos + 1, false, Seq::empty());
            },
            _ => {},
        }
    }
}

proof fn lemma_items_unique(
    ts: Seq<Lexeme>,
    start: nat,
    j: nat,
    after_comma: bool,
    items: Seq<Json>,
)
    requires
        forall|i: int| 0 <= i < items.len() ==> !(#[trigger] items[i] is Pair) && unique_keys(items[i]),
        sound_tokens(ts) ==> forall|i: int| 0 <= i < items.len() ==> sound(#[trigger] items[i]),
    ensures
        parse_items(ts, start, j, after_comma, items) is Ok ==> unique_keys(
            parse_items(ts, start, j, after_comma, items)->Ok_0.1,
        ),
        parse_items(ts, start, j, after_comma, items) is Ok && sound_tokens(ts) ==> sound(
            parse_items(ts, start, j, after_comma, items)->Ok_0.1,
        ),
    decreases ts.len() - j, 1nat,
{
    if j < ts.len() {
        if ts[j as int] is CloseSquareBraket && !after_comma {
        } else if ts[j as int] is Comma && !after_comma {
            lemma_items_unique(ts, start, j + 1, true, items);
        } else {
            lemma_value_unique(ts, j);
            lemma_value_not_pair(ts, j);
            match parse_value(ts, j) {
                Ok((m, v)) => {
                    if 0 < m && j + m <= ts.len() {
                        let next = items.push(v);
                        assert forall|i: int| 0 <= i < next.len() implies !(
                        #[trigger] next[i] is Pair) && unique_keys(next[i]) by {
                            if i < items.len() {
                                assert(next[i] == items[i]);
                            }
                        }
                        assert(sound_tokens(ts) ==> forall|i: int|
                            0 <= i < next.len() ==> sound(#[trigger] next[i])) by {
                            if sound_tokens(ts) {
                                assert forall|i: int| 0 <= i < next.len() implies sound(
                                    #[trigger] next[i],
                                ) by {
                                    if i < items.len() {
                                        assert(next[i] == items[i]);
                                    }
                                }
                            }
                        }
                        lemma_items_unique(ts, start, j + m, false, next);
                    }
                },
                Err(_) => {},
            }
        }
    }
}

proof fn lemma_value_not_pair(ts: Seq<Lexeme>, pos: nat)
    ensures
        parse_value(ts, pos) is Ok ==> !(parse_value(ts, pos)->Ok_0.1 is Pair),
    decreases ts.len() - pos, 0nat,
{
    if pos < ts.len() {
        match ts[pos as int] {
            Lexeme::OpenBrace(_) => {
                lemma_members_shape(ts, pos + 1, pos + 1, false, Seq::empty(), Seq::empty());
            },
            Lexeme::OpenSquareBraket(_) => {
                lemma_items_shape(ts, pos + 1, pos + 1, false, Seq::empty());
            },
            _ => {},
        }
    }
}

proof fn lemma_items_shape(ts: Seq<Lexeme>, start: nat, j: nat, after_comma: bool, items: Seq<Json>)
    ensures
        parse_items(ts, start, j, after_comma, items) is Ok ==> parse_items(
            ts,
            start,
            j,
            after_comma,
            items,
        )->Ok_0.1 is Array,
    decreases ts.len() - j,
{
    if j < ts.len() {
        if ts[j as int] is CloseSquareBraket && !after_comma {
        } else if ts[j as int] is Comma && !after_comma {
            lemma_items_shape(ts, start, j + 1, true, items);
        } else {
            match parse_value(ts, j) {
                Ok((m, v)) => {
                    if 0 < m && j + m <= ts.len() {
                        lemma_items_shape(ts, start, j + m, false, items.push(v));
                    }
                },
                Err(_) => {},
            }
        }
    }
}

proof fn lemma_members_shape(
    ts: Seq<Lexeme>,
    start: nat,
    j: nat,
    after_comma: bool,
    pairs: Seq<Json>,
    keys: Seq<Seq<char>>,
)
    ensures
        parse_members(ts, start, j, after_comma, pairs, keys) is Ok ==> parse_members(
            ts,
            start,
            j,
            after_comma,
            pairs,
            keys,
        )->Ok_0.1 is Object,
    decreases ts.len() - j,
{
    if j < ts.len() {
        if ts[j as int] is CloseBrace && !after_comma {
        } else if ts[j as int] is Comma && !after_comma {
            lemma_members_shape(ts, start, j + 1, true, pairs, keys);
        } else if !(ts[j as int] is StringLiteral) {
        } else if j + 1 < ts.len() && !(ts[(j + 1) as int] is Colon) {
        } else {
            let key = ts[j as int]->StringLiteral_1;
            let v_pos = if j + 1 < ts.len() {
                j + 2
            } else {
                j + 1
            };
            match parse_value(ts, v_pos) {
                Ok((m, v)) => {
                    if !keys.contains(key) && 0 < m && v_pos + m <= ts.len() {
                        lemma_members_shape(
                            ts,
                            start,
                            v_pos + m,
                            false,
                            pairs.push(Json::Pair(Box::new(Json::Literal(key)), Box::new(v))),
                            keys.push(key),
                        );
                    }
                },
                Err(_) => {},
            }
        }
    }
}

proof fn lemma_members_unique(
    ts: Seq<Lexeme>,
    start: nat,
    j: nat,
    after_comma: bool,
    pairs: Seq<Json>,
    keys: Seq<Seq<char>>,
)
    requires
        keys.len() == pairs.len(),
        forall|i: int| 0 <= i < pairs.len() ==> key_of(#[trigger] pairs[i]) == keys[i],
        keys_distinct(pairs),
        forall|i: int|
            0 <= i < pairs.len() ==> is_key_pair(#[trigger] pairs[i]) && unique_keys(
                *pairs[i]->Pair_1,
            ),
        sound_tokens(ts) ==> forall|i: int| 0 <= i < pairs.len() ==> sound(#[trigger] pairs[i]),
    ensures
        parse_members(ts, start, j, after_comma, pairs, keys) is Ok ==> unique_keys(
            parse_members(ts, start, j, after_comma, pairs, keys)->Ok_0.1,
        ),
        parse_members(ts, start, j, after_comma, pairs, keys) is Ok && sound_tokens(ts) ==> sound(
            parse_members(ts, start, j, after_comma, pairs, keys)->Ok_0.1,
        ),
    decreases ts.len() - j, 1nat,
{
    if j < ts.len() {
        if ts[j as int] is CloseBrace && !after_comma {
        } else if ts[j as int] is Comma && !after_comma {
            lemma_members_unique(ts, start, j + 1, true, pairs, keys);
        } else if !(ts[j as int] is StringLiteral) {
        } else if j + 1 < ts.len() && !(ts[(j + 1) as int] is Colon) {
        } else {
            let key = ts[j as int]->StringLiteral_1;
            let v_pos = if j + 1 < ts.len() {
                j + 2
            } else {
                j + 1
            };
            lemma_value_unique(ts, v_pos);
            match parse_value(ts, v_pos) {
                Ok((m, v)) => {
                    if !keys.contains(key) && 0 < m && v_pos + m <= ts.len() {
                        let member = Json::Pair(Box::new(Json::Literal(key)), Box::new(v));
                        let next = pairs.push(member);
                        let next_keys = keys.push(key);
                        assert forall|i: int| 0 <= i < next.len() implies key_of(
                            #[trigger] next[i],
                        ) == next_keys[i] by {
                            if i < pairs.len() {
                                assert(next[i] == pairs[i]);
                            }
                        }
                        assert forall|a: int, b: int| 0 <= a < b < next.len() implies key_of(
                            next[a],
                        ) != key_of(next[b]) by {
                            if b < pairs.len() {
                                assert(next[a] == pairs[a]);
                                assert(next[b] == pairs[b]);
                            } else {
                                assert(next[a] == pairs[a]);
                                assert(key_of(next[a]) == keys[a]);
                                assert(key_of(next[b]) == key);
                            }
                        }
                        assert forall|i: int| 0 <= i < next.len() implies is_key_pair(
                            #[trigger] next[i],
                        ) && unique_keys(*next[i]->Pair_1) by {
                            if i < pairs.len() {
                                assert(next[i] == pairs[i]);
                            }
                        }
                        assert(sound_tokens(ts) ==> forall|i: int|
                            0 <= i < next.len() ==> sound(#[trigger] next[i])) by {
                            if sound_tokens(ts) {
                                assert(sound(Json::Literal(key)));
                                assert(sound(v));
                                assert(sound(member));
                                assert forall|i: int| 0 <= i < next.len() implies sound(
                                    #[trigger] next[i],
                                ) by {
                                    if i < pairs.len() {
                                        assert(next[i] == pairs[i]);
                                    }
                                }
                            }
                        }
                        lemma_members_unique(ts, start, v_pos + m, false, next, next_keys);
                    }
                },
                Err(_) => {},
            }
        }
    }
}

/// A document that formats without error has no object with a repeated key, at any depth:
/// an input in which one object holds two members with the same key text does not format.
pub proof fn lemma_formatted_keys_unique(s: Seq<char>, unit: Seq<char>)
    ensures
        format_text(s, unit) is Ok ==> lex(s, 0) is Ok && parse_document(lex(s, 0)->Ok_0) is Ok
            && unique_keys(parse_document(lex(s, 0)->Ok_0)->Ok_0),
{
    if lex(s, 0) is Ok {
        lemma_value_unique(strip(lex(s, 0)->Ok_0), 0);
    }
}

/// Formatting is idempotent: formatting the output of a successful format, with the same
/// configuration, succeeds and gives that output again.
pub proof fn lemma_format_idempotent(s: Seq<char>, config: Option<FormatConfig>)
    requires
        format_text(s, config_unit(config)) is Ok,
    ensures
        format_text(format_text(s, config_unit(config))->Ok_0, config_unit(config)) == format_text(
            s,
            config_unit(config),
        ),
{
    let unit = config_unit(config);
    assert(blank(unit)) by {
        match config {
            None => {},
            Some(c) => match c.delimiter {
                Delimiter::Spaces(DelimiterCount::Two) => {},
                Delimiter::Spaces(DelimiterCount::Four) => {},
                Delimiter::Tabs => {},
            },
        }
    }
    let ts = lex(s, 0)->Ok_0;
    let v = parse_document(ts)->Ok_0;
    lemma_lex_sound(s, 0);
    lemma_strip_sound(ts);
    lemma_value_unique(strip(ts), 0);
    let out = print_document(v, unit);
    let none = Seq::<char>::empty();
    assert(blank(none));
    assert(out == print(v, unit, none));
    assert(at_chars(out, 0, out)) by {
        assert forall|k: int| 0 <= k < out.len() implies #[trigger] out[0 + k] == out[k] by {}
    }
    assert(follows_number(out, 0 + out.len()));
    lemma_lexes_print(out, 0, v, unit, none);
    assert(lex(out, out.len()) == Ok::<Seq<Lexeme>, Fault>(Seq::empty()));
    assert(strip(Seq::<Lexeme>::empty()) == Seq::<Lexeme>::empty());
    assert(erase_all(Seq::<Lexeme>::empty()) == Seq::<Lexeme>::empty());
    let l = lex(out, 0)->Ok_0;
    let st = strip(l);
    assert(erase_all(st) == toks(v) + Seq::<Lexeme>::empty());
    assert(erase_all(st) == toks(v));
    assert(at_tokens(st, 0, toks(v))) by {
        assert forall|k: int| 0 <= k < toks(v).len() implies crate::roundtrip::erase(
            #[trigger] st[0 + k],
        ) == toks(v)[k] by {
            assert(erase_all(st)[k] == crate::roundtrip::erase(st[k]));
        }
    }
    lemma_parse_toks(st, 0, v);
}

/// Two string tokens of `ts` carry the text `k`.
pub open spec fn repeated_key(ts: Seq<Lexeme>, k: Seq<char>) -> bool {
    exists|a: int, b: int|
        0 <= a < b < ts.len() && #[trigger] ts[a] == Lexeme::StringLiteral(
            ts[a]->StringLiteral_0,
            k,
        ) && #[trigger] ts[b] == Lexeme::StringLiteral(ts[b]->StringLiteral_0, k)
}

proof fn lemma_keyword_fault_kind(s: Seq<char>, start: nat, word: Seq<char>, k: nat)
    ensures
        keyword_fault(s, start, word, k) is Some ==> !(keyword_fault(
            s,
            start,
            word,
            k,
        )->Some_0 is DuplicateKeyEntry),
    decreases word.len() - k,
{
    if k < word.len() && start + k < s.len() && s[(start + k) as int] == word[k as int] {
        lemma_keyword_fault_kind(s, start, word, k + 1);
    }
}

proof fn lemma_scan_string_fault_kind(s: Seq<char>, i: nat, text: Seq<char>)
    ensures
        scan_string(s, i, text) is Err ==> !(scan_string(s, i, text)->Err_0 is DuplicateKeyEntry),
    decreases s.len() - i,
{
    if i < s.len() && s[i as int] != '"' {
        if s[i as int] == '\\' {
            if i + 1 < s.len() {
                lemma_scan_string_fault_kind(s, i + 2, text.push(s[i + 1int]));
            }
        } else {
            lemma_scan_string_fault_kind(s, i + 1, text.push(s[i as int]));
        }
    }
}

proof fn lemma_scan_number_fault_kind(s: Seq<char>, start: nat, i: nat, dot: bool, e: bool)
    ensures
        scan_number(s, start, i, dot, e) is Err ==> !(scan_number(
            s,
            start,
            i,
            dot,
            e,
        )->Err_0 is DuplicateKeyEntry),
    decreases s.len() - i,
{
    if i < s.len() && !ends_number(s[i as int]) && is_number_char(s[i as int]) {
        let c = s[i as int];
        lemma_scan_number_fault_kind(s, start, i + 1, dot || c == '.', e || c == 'e');
    }
}

/// Lexing never fails on a key.
proof fn lemma_lex_fault_kind(s: Seq<char>, i: nat)
    ensures
        lex(s, i) is Err ==> !(lex(s, i)->Err_0 is DuplicateKeyEntry),
    decreases s.len() - i,
{
    if i < s.len() {
        lemma_scan_string_fault_kind(s, i + 1, Seq::empty());
        lemma_keyword_fault_kind(s, i, "false"@, 0);
        lemma_keyword_fault_kind(s, i, "true"@, 0);
        lemma_keyword_fault_kind(s, i, "null"@, 0);
        lemma_scan_number_fault_kind(s, i, i, false, false);
        match lex_token(s, i) {
            Ok((t, j)) => {
                if i < j && j <= s.len() {
                    lemma_lex_fault_kind(s, j);
                }
            },
            Err(_) => {},
        }
    }
}

proof fn lemma_value_dup(ts: Seq<Lexeme>, pos: nat, k: Seq<char>)
    ensures
        parse_value(ts, pos) == Err::<(nat, Json), Fault>(Fault::DuplicateKeyEntry(k))
            ==> repeated_key(ts, k),
    decreases ts.len() - pos, 0nat,
{
    if pos < ts.len() {
        match ts[pos as int] {
            Lexeme::OpenBrace(_) => {
                lemma_members_dup(ts, pos + 1, pos + 1, false, Seq::empty(), Seq::empty(), k);
            },
            Lexeme::OpenSquareBraket(_) => {
                lemma_items_dup(ts, pos + 1, pos + 1, false, Seq::empty(), k);
            },
            _ => {},
        }
    }
}

proof fn lemma_items_dup(
    ts: Seq<Lexeme>,
    start: nat,
    j: nat,
    after_comma: bool,
    items: Seq<Json>,
    k: Seq<char>,
)
    ensures
        parse_items(ts, start, j, after_comma, items) == Err::<(nat, Json), Fault>(
            Fault::DuplicateKeyEntry(k),
        ) ==> repeated_key(ts, k),
    decreases ts.len() - j, 1nat,
{
    if j < ts.len() {
        if ts[j as int] is CloseSquareBraket && !after_comma {
        } else if ts[j as int] is Comma && !after_comma {
            lemma_items_dup(ts, start, j + 1, true, items, k);
        } else {
            lemma_value_dup(ts, j, k);
            match parse_value(ts, j) {
                Ok((m, v)) => {
                    if 0 < m && j + m <= ts.len() {
                        lemma_items_dup(ts, start, j + m, false, items.push(v), k);
                    }
                },
                Err(_) => {},
            }
        }
    }
}

proof fn lemma_members_dup(
    ts: Seq<Lexeme>,
    start: nat,
    j: nat,
    after_comma: bool,
    pairs: Seq<Json>,
    keys: Seq<Seq<char>>,
    k: Seq<char>,
)
    requires
        forall|i: int|
            0 <= i < keys.len() ==> exists|a: int|
                0 <= a < j && #[trigger] ts[a] == Lexeme::StringLiteral(
                    ts[a]->StringLiteral_0,
                    #[trigger] keys[i],
                ),
    ensures
        parse_members(ts, start, j, after_comma, pairs, keys) == Err::<(nat, Json), Fault>(
            Fault::DuplicateKeyEntry(k),
        ) ==> repeated_key(ts, k),
    decreases ts.len() - j, 1nat,
{
    if j < ts.len() {
        if ts[j as int] is CloseBrace && !after_comma {
        } else if ts[j as int] is Comma && !after_comma {
            lemma_members_dup(ts, start, j + 1, true, pairs, keys, k);
        } else if !(ts[j as int] is StringLiteral) {
        } else if j + 1 < ts.len() && !(ts[(j + 1) as int] is Colon) {
        } else {
            let key = ts[j as int]->StringLiteral_1;
            let v_pos = if j + 1 < ts.len() {
                j + 2
            } else {
                j + 1
            };
            lemma_value_dup(ts, v_pos, k);
            match parse_value(ts, v_pos) {
                Ok((m, v)) => {
                    if keys.contains(key) {
                        if key == k {
                            let i = choose|i: int| 0 <= i < keys.len() && keys[i] == key;
                            let a = choose|a: int|
                                0 <= a < j && #[trigger] ts[a] == Lexeme::StringLiteral(
                                    ts[a]->StringLiteral_0,
                                    keys[i],
                                );
                            assert(ts[j as int] == Lexeme::StringLiteral(
                                ts[j as int]->StringLiteral_0,
                                k,
                            ));
                            assert(0 <= a < j < ts.len());
                        }
                    } else if 0 < m && v_pos + m <= ts.len() {
                        let next_keys = keys.push(key);
                        assert forall|i: int| 0 <= i < next_keys.len() implies exists|a: int|
                            0 <= a < v_pos + m && #[trigger] ts[a] == Lexeme::StringLiteral(
                                ts[a]->StringLiteral_0,
                                #[trigger] next_keys[i],
                            ) by {
                            if i < keys.len() {
                                assert(next_keys[i] == keys[i]);
                                let a = choose|a: int|
                                    0 <= a < j && #[trigger] ts[a] == Lexeme::StringLiteral(
                                        ts[a]->StringLiteral_0,
                                        keys[i],
                                    );
                                assert(0 <= a < v_pos + m);
                            } else {
                                assert(next_keys[i] == key);
                                assert(ts[j as int] == Lexeme::StringLiteral(
                                    ts[j as int]->StringLiteral_0,
                                    key,
                                ));
                            }
                        }
                        lemma_members_dup(
                            ts,
                            start,
                            v_pos + m,
                            false,
                            pairs.push(Json::Pair(Box::new(Json::Literal(key)), Box::new(v))),
                            next_keys,
                            k,
                        );
                    }
                },
                Err(_) => {},
            }
        }
    }
}

/// A duplicate key is reported only for a key that is there twice: when formatting fails
/// with `DuplicateKeyEntry(k)`, two string tokens of the input carry the text `k`.
pub proof fn lemma_duplicate_key_is_repeated(s: Seq<char>, unit: Seq<char>, k: Seq<char>)
    ensures
        format_text(s, unit) == Err::<Seq<char>, Fault>(Fault::DuplicateKeyEntry(k)) ==> lex(
            s,
            0,
        ) is Ok && repeated_key(strip(lex(s, 0)->Ok_0), k),
{
    lemma_lex_fault_kind(s, 0);
    if lex(s, 0) is Ok {
        lemma_value_dup(strip(lex(s, 0)->Ok_0), 0, k);
    }
}

/// The grammar alone: what `parse_value` reads, without the rule that an object may not
/// repeat a key.
pub open spec fn grammar_value(ts: Seq<Lexeme>, pos: nat) -> Result<(nat, Json), Fault>
    decreases ts.len() - pos, 0nat,
{
    if pos >= ts.len() {
        Err(Fault::ExpectedMoreTokens)
    } else {
        match ts[pos as int] {
            Lexeme::OpenBrace(_) => grammar_members(ts, pos + 1, pos + 1, false, Seq::empty()),
            Lexeme::OpenSquareBraket(_) => grammar_items(ts, pos + 1, pos + 1, false, Seq::empty()),
            _ => parse_value(ts, pos),
        }
    }
}

/// `parse_items` under the grammar alone.
pub open spec fn grammar_items(
    ts: Seq<Lexeme>,
    start: nat,
    j: nat,
    after_comma: bool,
    items: Seq<Json>,
) -> Result<(nat, Json), Fault>
    decreases ts.len() - j, 1nat,
{
    if j >= ts.len() {
        Err(Fault::ExpectedMoreTokens)
    } else if ts[j as int] is CloseSquareBraket && !after_comma {
        Ok(((j + 2 - start) as nat, Json::Array(items)))
    } else if ts[j as int] is Comma && !after_comma {
        grammar_items(ts, start, j + 1, true, items)
    } else {
        match grammar_value(ts, j) {
            Ok((m, v)) => if 0 < m && j + m <= ts.len() {
                grammar_items(ts, start, j + m, false, items.push(v))
            } else {
                Err(Fault::ExpectedMoreTokens)
            },
            Err(f) => Err(f),
        }
    }
}

/// `parse_members` under the grammar alone: keys are not compared.
pub open spec fn grammar_members(
    ts: Seq<Lexeme>,
    start: nat,
    j: nat,
    after_comma: bool,
    pairs: Seq<Json>,
) -> Result<(nat, Json), Fault>
    decreases ts.len() - j, 1nat,
{
    if j >= ts.len() {
        Err(Fault::ExpectedMoreTokens)
    } else if ts[j as int] is CloseBrace && !after_comma {
        Ok(((j + 2 - start) as nat, Json::Object(pairs)))
    } else if ts[j as int] is Comma && !after_comma {
        grammar_members(ts, start, j + 1, true, pairs)
    } else if !(ts[j as int] is StringLiteral) {
        Err(Fault::ExpectedStringLiteral(j))
    } else if j + 1 < ts.len() && !(ts[(j + 1) as int] is Colon) {
        Err(Fault::ExpectedColonInKeyValuePair)
    } else {
        let key = ts[j as int]->StringLiteral_1;
        let v_pos = if j + 1 < ts.len() {
            j + 2
        } else {
            j + 1
        };
        match grammar_value(ts, v_pos) {
            Ok((m, v)) => if 0 < m && v_pos + m <= ts.len() {
                grammar_members(
                    ts,
                    start,
                    v_pos + m,
                    false,
                    pairs.push(Json::Pair(Box::new(Json::Literal(key)), Box::new(v))),
                )
            } else {
                Err(Fault::ExpectedMoreTokens)
            },
            Err(f) => Err(f),
        }
    }
}

/// Some object in `v` holds two members whose key is `k`.
pub open spec fn has_repeated_key(v: Json, k: Seq<char>) -> bool
    decreases v,
{
    match v {
        Json::Object(ps) => (exists|a: int, b: int|
            0 <= a < b < ps.len() && key_of(#[trigger] ps[a]) == k && key_of(#[trigger] ps[b])
                == k) || (exists|i: int|
            0 <= i < ps.len() && #[trigger] ps[i] is Pair && has_repeated_key(*ps[i]->Pair_1, k)),
        Json::Array(xs) => exists|i: int| 0 <= i < xs.len() && has_repeated_key(#[trigger] xs[i], k),
        _ => false,
    }
}

/// The strict result agrees with the grammar's, except that it may fail on a key that the
/// grammar's tree repeats.
pub open spec fn agrees(strict: Result<(nat, Json), Fault>, lenient: Result<(nat, Json), Fault>) -> bool {
    lenient is Ok ==> (strict == lenient || (strict is Err && strict->Err_0 is DuplicateKeyEntry
        && has_repeated_key(lenient->Ok_0.1, strict->Err_0->DuplicateKeyEntry_0)))
}

proof fn lemma_grammar_items_prefix(
    ts: Seq<Lexeme>,
    start: nat,
    j: nat,
    after_comma: bool,
    items: Seq<Json>,
)
    ensures
        grammar_items(ts, start, j, after_comma, items) is Ok ==> ({
            let w = grammar_items(ts, start, j, after_comma, items)->Ok_0.1;
            w is Array && items.len() <= w->Array_0.len() && forall|i: int|
                0 <= i < items.len() ==> w->Array_0[i] == items[i]
        }),
    decreases ts.len() - j,
{
    if j < ts.len() {
        if ts[j as int] is CloseSquareBraket && !after_comma {
        } else if ts[j as int] is Comma && !after_comma {
            lemma_grammar_items_prefix(ts, start, j + 1, true, items);
        } else {
            match grammar_value(ts, j) {
                Ok((m, v)) => {
                    if 0 < m && j + m <= ts.len() {
                        lemma_grammar_items_prefix(ts, start, j + m, false, items.push(v));
                        if grammar_items(ts, start, j, after_comma, items) is Ok {
                            let w = grammar_items(ts, start, j, after_comma, items)->Ok_0.1;
                            assert forall|i: int| 0 <= i < items.len() implies w->Array_0[i]
                                == items[i] by {
                                assert(items.push(v)[i] == items[i]);
                            }
                        }
                    }
                },
                Err(_) => {},
            }
        }
    }
}

proof fn lemma_grammar_members_prefix(
    ts: Seq<Lexeme>,
    start: nat,
    j: nat,
    after_comma: bool,
    pairs: Seq<Json>,
)
    ensures
        grammar_members(ts, start, j, after_comma, pairs) is Ok ==> ({
            let w = grammar_members(ts, start, j, after_comma, pairs)->Ok_0.1;
            w is Object && pairs.len() <= w->Object_0.len() && forall|i: int|
                0 <= i < pairs.len() ==> w->Object_0[i] == pairs[i]
        }),
    decreases ts.len() - j,
{
    if j < ts.len() {
        if ts[j as int] is CloseBrace && !after_comma {
        } else if ts[j as int] is Comma && !after_comma {
            lemma_grammar_members_prefix(ts, start, j + 1, true, pairs);
        } else if !(ts[j as int] is StringLiteral) {
        } else if j + 1 < ts.len() && !(ts[(j + 1) as int] is Colon) {
        } else {
            let key = ts[j as int]->StringLiteral_1;
            let v_pos = if j + 1 < ts.len() {
                j + 2
            } else {
                j + 1
            };
            match grammar_value(ts, v_pos) {
                Ok((m, v)) => {
                    if 0 < m && v_pos + m <= ts.len() {
                        let member = Json::Pair(Box::new(Json::Literal(key)), Box::new(v));
                        lemma_grammar_members_prefix(ts, start, v_pos + m, false, pairs.push(member));
                        if grammar_members(ts, start, j, after_comma, pairs) is Ok {
                            let w = grammar_members(ts, start, j, after_comma, pairs)->Ok_0.1;
                            assert forall|i: int| 0 <= i < pairs.len() implies w->Object_0[i]
                                == pairs[i] by {
                                assert(pairs.push(member)[i] == pairs[i]);
                            }
                        }
                    }
                },
                Err(_) => {},
            }
        }
    }
}

proof fn lemma_value_agrees(ts: Seq<Lexeme>, pos: nat)
    ensures
        agrees(parse_value(ts, pos), grammar_value(ts, pos)),
    decreases ts.len() - pos, 0nat,
{
    if pos < ts.len() {
        match ts[pos as int] {
            Lexeme::OpenBrace(_) => {
                lemma_members_agree(ts, pos + 1, pos + 1, false, Seq::empty(), Seq::empty());
            },
            Lexeme::OpenSquareBraket(_) => {
                lemma_items_agree(ts, pos + 1, pos + 1, false, Seq::empty());
            },
            _ => {},
        }
    }
}

proof fn lemma_items_agree(ts: Seq<Lexeme>, start: nat, j: nat, after_comma: bool, items: Seq<Json>)
    ensures
        agrees(
            parse_items(ts, start, j, after_comma, items),
            grammar_items(ts, start, j, after_comma, items),
        ),
    decreases ts.len() - j, 1nat,
{
    if j < ts.len() {
        if ts[j as int] is CloseSquareBraket && !after_comma {
        } else if ts[j as int] is Comma && !after_comma {
            lemma_items_agree(ts, start, j + 1, true, items);
        } else {
            lemma_value_agrees(ts, j);
            match grammar_value(ts, j) {
                Ok((m, v)) => {
                    if 0 < m && j + m <= ts.len() {
                        let next = items.push(v);
                        if parse_value(ts, j) == grammar_value(ts, j) {
                            lemma_items_agree(ts, start, j + m, false, next);
                        } else {
                            lemma_grammar_items_prefix(ts, start, j + m, false, next);
                            let lenient = grammar_items(ts, start, j, after_comma, items);
                            if lenient is Ok {
                                let xs = lenient->Ok_0.1->Array_0;
                                let k = parse_value(ts, j)->Err_0->DuplicateKeyEntry_0;
                                assert(next[items.len() as int] == v);
                                assert(xs[items.len() as int] == v);
                                assert(has_repeated_key(xs[items.len() as int], k));
                            }
                        }
                    }
                },
                Err(_) => {},
            }
        }
    }
}

proof fn lemma_members_agree(
    ts: Seq<Lexeme>,
    start: nat,
    j: nat,
    after_comma: bool,
    pairs: Seq<Json>,
    keys: Seq<Seq<char>>,
)
    requires
        keys.len() == pairs.len(),
        forall|i: int| 0 <= i < pairs.len() ==> key_of(#[trigger] pairs[i]) == keys[i],
    ensures
        agrees(
            parse_members(ts, start, j, after_comma, pairs, keys),
            grammar_members(ts, start, j, after_comma, pairs),
        ),
    decreases ts.len() - j, 1nat,
{
    if j < ts.len() {
        if ts[j as int] is CloseBrace && !after_comma {
        } else if ts[j as int] is Comma && !after_comma {
            lemma_members_agree(ts, start, j + 1, true, pairs, keys);
        } else if !(ts[j as int] is StringLiteral) {
        } else if j + 1 < ts.len() && !(ts[(j + 1) as int] is Colon) {
        } else {
            let key = ts[j as int]->StringLiteral_1;
            let v_pos = if j + 1 < ts.len() {
                j + 2
            } else {
                j + 1
            };
            lemma_value_agrees(ts, v_pos);
            match grammar_value(ts, v_pos) {
                Ok((m, v)) => {
                    if 0 < m && v_pos + m <= ts.len() {
                        let member = Json::Pair(Box::new(Json::Literal(key)), Box::new(v));
                        let next = pairs.push(member);
                        lemma_grammar_members_prefix(ts, start, v_pos + m, false, next);
                        let lenient = grammar_members(ts, start, j, after_comma, pairs);
                        assert(lenient == grammar_members(ts, start, v_pos + m, false, next));
                        assert(next[pairs.len() as int] == member);
                        if parse_value(ts, v_pos) == grammar_value(ts, v_pos) {
                            if keys.contains(key) {
                                if lenient is Ok {
                                    let ps = lenient->Ok_0.1->Object_0;
                                    let a = choose|a: int| 0 <= a < keys.len() && keys[a] == key;
                                    let b = pairs.len() as int;
                                    assert(next[a] == pairs[a]);
                                    assert(ps[a] == pairs[a]);
                                    assert(ps[b] == member);
                                    assert(key_of(ps[a]) == key && key_of(ps[b]) == key);
                                }
                            } else {
                                let next_keys = keys.push(key);
                                assert forall|i: int| 0 <= i < next.len() implies key_of(
                                    #[trigger] next[i],
                                ) == next_keys[i] by {
                                    if i < pairs.len() {
                                        assert(next[i] == pairs[i]);
                                    }
                                }
                                lemma_members_agree(ts, start, v_pos + m, false, next, next_keys);
                            }
                        } else {
                            if lenient is Ok {
                                let ps = lenient->Ok_0.1->Object_0;
                                let k = parse_value(ts, v_pos)->Err_0->DuplicateKeyEntry_0;
                                let b = pairs.len() as int;
                                assert(ps[b] == member);
                                assert(ps[b] is Pair && has_repeated_key(*ps[b]->Pair_1, k));
                            }
                        }
                    }
                },
                Err(_) => {},
            }
        }
    }
}

proof fn lemma_unique_not_repeated(v: Json, k: Seq<char>)
    requires
        unique_keys(v),
    ensures
        !has_repeated_key(v, k),
    decreases v,
{
    match v {
        Json::Object(ps) => {
            assert forall|i: int| 0 <= i < ps.len() && #[trigger] ps[i] is Pair implies !has_repeated_key(
                *ps[i]->Pair_1,
                k,
            ) by {
                lemma_unique_not_repeated(*ps[i]->Pair_1, k);
            }
        },
        Json::Array(xs) => {
            assert forall|i: int| 0 <= i < xs.len() implies !has_repeated_key(#[trigger] xs[i], k) by {
                lemma_unique_not_repeated(xs[i], k);
            }
        },
        _ => {},
    }
}

/// An input that tokenizes and follows the grammar, but in which some object holds two
/// members with the key text `k`, does not format: it fails with `DuplicateKeyEntry`,
/// naming a key that some object of the input repeats.
pub proof fn lemma_repeated_key_fails(s: Seq<char>, unit: Seq<char>, k: Seq<char>)
    requires
        lex(s, 0) is Ok,
        grammar_value(strip(lex(s, 0)->Ok_0), 0) is Ok,
        has_repeated_key(grammar_value(strip(lex(s, 0)->Ok_0), 0)->Ok_0.1, k),
    ensures
        format_text(s, unit) is Err,
        format_text(s, unit)->Err_0 is DuplicateKeyEntry,
        has_repeated_key(
            grammar_value(strip(lex(s, 0)->Ok_0), 0)->Ok_0.1,
            format_text(s, unit)->Err_0->DuplicateKeyEntry_0,
        ),
{
    let ts = strip(lex(s, 0)->Ok_0);
    lemma_value_agrees(ts, 0);
    lemma_value_unique(ts, 0);
    if parse_value(ts, 0) == grammar_value(ts, 0) {
        lemma_unique_not_repeated(grammar_value(ts, 0)->Ok_0.1, k);
    }
}

} // verus!
