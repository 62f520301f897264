// Grammar of a stock line:
//
// Stock   := Symbol '-' [ Name '-' ]? Num ['-' Tags]?
// Symbol  := /[A-Z.]*/
// Name    := StringWithSpaces
// Num     := A decimal number (no exponent)
// Tags    := Tag*
// Tag     := /[@#][^ ]*/
//
// Components are separated by " - ". White space around a component is ignored.
use vstd::prelude::*;

use super::{ParseError, Stock};
use crate::text::{is_white_space, trim_spec, trim_str, white_space};

verus! {

/// A tag: `s` trimmed, which must begin with '@' or '#' and hold no white space.
pub open spec fn tag_spec(s: Seq<char>) -> Result<Seq<char>, ParseError> {
    let t = trim_spec(s);
    if t.len() == 0 || (t[0] != '@' && t[0] != '#') {
        Err(ParseError::BadTag)
    } else if exists|i: int| 0 <= i < t.len() && white_space(#[trigger] t[i]) {
        Err(ParseError::TagWhiteSpace)
    } else {
        Ok(t)
    }
}

/// The white-space separated words of `s` from position `i` on, where the word being
/// read began at `start`, if any.
pub open spec fn words_from(s: Seq<char>, start: Option<int>, i: int) -> Seq<Seq<char>>
    decreases s.len() - i,
{
    if i >= s.len() {
        match start {
            Some(st) => seq![s.subrange(st, s.len() as int)],
            None => seq![],
        }
    } else if white_space(s[i]) {
        match start {
            Some(st) => seq![s.subrange(st, i)] + words_from(s, None, i + 1),
            None => words_from(s, None, i + 1),
        }
    } else {
        match start {
            Some(st) => words_from(s, Some(st), i + 1),
            None => words_from(s, Some(i), i + 1),
        }
    }
}

/// The white-space separated words of `s`, in order.
pub open spec fn words(s: Seq<char>) -> Seq<Seq<char>> {
    words_from(s, None, 0)
}

/// Each word read as a tag; the first refusal, if any.
pub open spec fn collect_tags(ws: Seq<Seq<char>>) -> Result<Seq<Seq<char>>, ParseError>
    decreases ws.len(),
{
    if ws.len() == 0 {
        Ok(seq![])
    } else {
        match collect_tags(ws.drop_last()) {
            Err(e) => Err(e),
            Ok(acc) => match tag_spec(ws.last()) {
                Err(e) => Err(e),
                Ok(t) => Ok(acc.push(t)),
            },
        }
    }
}

/// The tags of a tags component.
pub open spec fn tags_spec(s: Seq<char>) -> Result<Seq<Seq<char>>, ParseError> {
    collect_tags(words(s))
}

/// A symbol: `s` trimmed, made of 'A' to 'Z' and '.' only.
pub open spec fn symbol_spec(s: Seq<char>) -> Result<Seq<char>, ParseError> {
    let t = trim_spec(s);
    if forall|i: int| 0 <= i < t.len() ==> ('A' <= #[trigger] t[i] <= 'Z' || t[i] == '.') {
        Ok(t)
    } else {
        Err(ParseError::BadSymbol)
    }
}

/// A decimal number: an optional sign, then digits with at most one '.', at least one
/// of them a digit.
pub open spec fn is_decimal(t: Seq<char>) -> bool {
    let b = unsigned_part(t);
    &&& forall|i: int| 0 <= i < b.len() ==> is_digit(#[trigger] b[i]) || b[i] == '.'
    &&& forall|i: int, j: int| 0 <= i < j < b.len() && #[trigger] b[i] == '.' ==> #[trigger] b[j] != '.'
    &&& exists|i: int| 0 <= i < b.len() && is_digit(#[trigger] b[i])
}

/// `t` without its sign, if it has one.
pub open spec fn unsigned_part(t: Seq<char>) -> Seq<char> {
    if t.len() > 0 && (t[0] == '-' || t[0] == '+') {
        t.drop_first()
    } else {
        t
    }
}

pub open spec fn is_digit(c: char) -> bool {
    '0' <= c <= '9'
}

/// A quantity: `s` trimmed, which must be a decimal number.
pub open spec fn num_spec(s: Seq<char>) -> Result<Seq<char>, ParseError> {
    let t = trim_spec(s);
    if is_decimal(t) {
        Ok(t)
    } else {
        Err(ParseError::BadNumber)
    }
}

/// The components of `s` from position `i` on, where the component being read began at
/// `start`; components are separated by " - ", found from the left.
pub open spec fn pieces_from(s: Seq<char>, start: int, i: int) -> Seq<Seq<char>>
    decreases s.len() - i,
{
    if i + 3 > s.len() {
        seq![s.subrange(start, s.len() as int)]
    } else if s[i] == ' ' && s[i + 1] == '-' && s[i + 2] == ' ' {
        seq![s.subrange(start, i)] + pieces_from(s, i + 3, i + 3)
    } else {
        pieces_from(s, start, i + 1)
    }
}

/// The " - " separated components of `s`.
pub open spec fn pieces(s: Seq<char>) -> Seq<Seq<char>> {
    pieces_from(s, 0, 0)
}

/// A stock as the contracts see it: symbol, name, quantity text and tags.
pub type StockFields = (Seq<char>, Option<Seq<char>>, Seq<char>, Seq<Seq<char>>);

/// What a stock line reads as. Four components are symbol, name, quantity and tags. Of
/// three, the last is the quantity where it reads as one (symbol, name, quantity);
/// otherwise they are symbol, quantity and tags. Two are symbol and quantity.
pub open spec fn stock_spec(s: Seq<char>) -> Result<StockFields, ParseError> {
    let p = pieces(s);
    if p.len() > 4 {
        Err(ParseError::ExtraComponents)
    } else if p.len() < 2 {
        Err(ParseError::MissingComponents)
    } else {
        match symbol_spec(p[0]) {
            Err(e) => Err(e),
            Ok(symbol) => if p.len() == 4 {
                match num_spec(p[2]) {
                    Err(e) => Err(e),
                    Ok(num) => match tags_spec(p[3]) {
                        Err(e) => Err(e),
                        Ok(tags) => Ok((symbol, Some(trim_spec(p[1])), num, tags)),
                    },
                }
            } else if p.len() == 3 {
                match num_spec(p[2]) {
                    Ok(num) => Ok((symbol, Some(trim_spec(p[1])), num, seq![])),
                    Err(_) => match num_spec(p[1]) {
                        Err(e) => Err(e),
                        Ok(num) => match tags_spec(p[2]) {
                            Err(e) => Err(e),
                            Ok(tags) => Ok((symbol, None, num, tags)),
                        },
                    },
                }
            } else {
                match num_spec(p[1]) {
                    Err(e) => Err(e),
                    Ok(num) => Ok((symbol, None, num, seq![])),
                }
            },
        }
    }
}

/// The views of a list of strings.
pub open spec fn views(v: Seq<String>) -> Seq<Seq<char>> {
    v.map_values(|s: String| s@)
}

/// A stock's fields as the contracts see them.
pub open spec fn fields_of(st: Stock) -> StockFields {
    (
        st.symbol@,
        match st.name {
            Some(n) => Some(n@),
            None => None,
        },
        st.num@,
        views(st.tags@),
    )
}

fn contains_white_space(t: &str) -> (r: bool)
    ensures
        r == exists|i: int| 0 <= i < t@.len() && white_space(#[trigger] t@[i]),
{
    let len = t.unicode_len();
    let mut i: usize = 0;
    while i < len
        invariant
            len == t@.len(),
            i <= len,
            forall|j: int| 0 <= j < i ==> !white_space(#[trigger] t@[j]),
        decreases len - i,
    {
        if is_white_space(t.get_char(i)) {
            return true;
        }
        i += 1;
    }
    false
}

/// Reads a tag: trimmed, it must begin with '@' or '#' and hold no white space.
pub fn parse_tag(s: &str) -> (r: Result<&str, ParseError>)
    ensures
        match r {
            Ok(t) => tag_spec(s@) == Ok::<Seq<char>, ParseError>(t@),
            Err(e) => tag_spec(s@) == Err::<Seq<char>, ParseError>(e),
        },
{
    let result = trim_str(s);
    let len = result.unicode_len();
    if len == 0 {
        return Err(ParseError::BadTag);
    }
    let c = result.get_char(0);
    if c != '@' && c != '#' {
        return Err(ParseError::BadTag);
    }
    if contains_white_space(result) {
        return Err(ParseError::TagWhiteSpace);
    }
    Ok(result)
}

/// The white-space separated words of `s`, in order.
pub fn split_words(s: &str) -> (r: Vec<&str>)
    ensures
        r@.map_values(|w: &str| w@) == words(s@),
{
    let len = s.unicode_len();
    let mut out: Vec<&str> = Vec::new();
    let mut start: Option<usize> = None;
    let mut i: usize = 0;
    while i < len
        invariant
            len == s@.len(),
            i <= len,
            start matches Some(st) ==> st < i,
            out@.map_values(|w: &str| w@) + words_from(
                s@,
                match start {
                    Some(st) => Some(st as int),
                    None => None,
                },
                i as int,
            ) == words(s@),
        decreases len - i,
    {
        let ghost before = out@;
        if is_white_space(s.get_char(i)) {
            if let Some(st) = start {
                let w = s.substring_char(st, i);
                out.push(w);
                proof {
                    assert(out@.map_values(|w: &str| w@) =~= before.map_values(|w: &str| w@).push(
                        s@.subrange(st as int, i as int),
                    ));
                    assert(seq![s@.subrange(st as int, i as int)] + words_from(s@, None, i + 1)
                        == words_from(s@, Some(st as int), i as int));
                    assert(before.map_values(|w: &str| w@) + words_from(
                        s@,
                        Some(st as int),
                        i as int,
                    ) =~= out@.map_values(|w: &str| w@) + words_from(s@, None, i + 1));
                }
            }
            start = None;
        } else {
            if start.is_none() {
                start = Some(i);
            }
        }
        i += 1;
    }
    if let Some(st) = start {
        let ghost before = out@;
        let w = s.substring_char(st, len);
        out.push(w);
        proof {
            assert(out@.map_values(|w: &str| w@) =~= before.map_values(|w: &str| w@).push(
                s@.subrange(st as int, len as int),
            ));
            assert(before.map_values(|w: &str| w@) + seq![s@.subrange(st as int, len as int)]
                =~= out@.map_values(|w: &str| w@));
        }
    } else {
        proof {
            assert(out@.map_values(|w: &str| w@) + Seq::<Seq<char>>::empty() =~= out@.map_values(
                |w: &str| w@,
            ));
        }
    }
    out
}

/// Reads the tags of a tags component: each white-space separated word must be a tag.
pub fn parse_tags(s: &str) -> (r: Result<Vec<String>, ParseError>)
    ensures
        match r {
            Ok(v) => tags_spec(s@) == Ok::<Seq<Seq<char>>, ParseError>(views(v@)),
            Err(e) => tags_spec(s@) == Err::<Seq<Seq<char>>, ParseError>(e),
        },
{
    let ws = split_words(s);
    let ghost wv = ws@.map_values(|w: &str| w@);
    let mut result: Vec<String> = Vec::new();
    proof {
        assert(wv.take(0) =~= Seq::<Seq<char>>::empty());
        assert(views(result@) =~= Seq::<Seq<char>>::empty());
    }
    let mut i: usize = 0;
    while i < ws.len()
        invariant
            i <= ws@.len(),
            wv == ws@.map_values(|w: &str| w@),
            wv == words(s@),
            collect_tags(wv.take(i as int)) == Ok::<Seq<Seq<char>>, ParseError>(views(result@)),
        decreases ws.len() - i,
    {
        proof {
            assert(wv.take(i + 1).drop_last() =~= wv.take(i as int));
            assert(wv.take(i + 1).last() == ws@[i as int]@);
        }
        match parse_tag(ws[i]) {
            Ok(t) => {
                let ghost before = result@;
                result.push(String::from_str(t));
                proof {
                    assert(views(result@) =~= views(before).push(t@));
                }
            },
            Err(e) => {
                proof {
                    lemma_collect_tags_err(wv, (i + 1) as int);
                }
                return Err(e);
            },
        }
        i += 1;
    }
    proof {
        assert(wv.take(ws.len() as int) =~= wv);
    }
    Ok(result)
}

/// A refusal among the first `k` words is the refusal of all of them.
proof fn lemma_collect_tags_err(ws: Seq<Seq<char>>, k: int)
    requires
        0 <= k <= ws.len(),
        collect_tags(ws.take(k)) is Err,
    ensures
        collect_tags(ws) == collect_tags(ws.take(k)),
    decreases ws.len() - k,
{
    if k < ws.len() {
        assert(ws.take(k + 1).drop_last() =~= ws.take(k));
        lemma_collect_tags_err(ws, k + 1);
    } else {
        assert(ws.take(k) =~= ws);
    }
}

/// Reads a quantity: trimmed, it must be a decimal number.
pub fn parse_num(s: &str) -> (r: Result<&str, ParseError>)
    ensures
        match r {
            Ok(t) => num_spec(s@) == Ok::<Seq<char>, ParseError>(t@),
            Err(e) => num_spec(s@) == Err::<Seq<char>, ParseError>(e),
        },
{
    let t = trim_str(s);
    let len = t.unicode_len();
    let off: usize = if len > 0 && (t.get_char(0) == '-' || t.get_char(0) == '+') {
        1
    } else {
        0
    };
    let ghost b = unsigned_part(t@);
    proof {
        if t@.len() > 0 && (t@[0] == '-' || t@[0] == '+') {
            assert(b =~= t@.skip(off as int));
        } else {
            assert(b =~= t@.skip(off as int));
        }
    }
    let mut seen_dot = false;
    let mut seen_digit = false;
    let mut i: usize = off;
    while i < len
        invariant
            len == t@.len(),
            off <= i <= len,
            off <= 1,
            b == t@.skip(off as int),
            b == unsigned_part(t@),
            t@ == trim_spec(s@),
            forall|k: int| 0 <= k < i - off ==> is_digit(#[trigger] b[k]) || b[k] == '.',
            seen_dot ==> exists|k: int| 0 <= k < i - off && #[trigger] b[k] == '.',
            !seen_dot ==> forall|k: int| 0 <= k < i - off ==> #[trigger] b[k] != '.',
            forall|k: int, j: int| 0 <= k < j < i - off && #[trigger] b[k] == '.' ==> #[trigger] b[j] != '.',
            seen_digit ==> exists|k: int| 0 <= k < i - off && is_digit(#[trigger] b[k]),
            !seen_digit ==> forall|k: int| 0 <= k < i - off ==> !is_digit(#[trigger] b[k]),
        decreases len - i,
    {
        let c = t.get_char(i);
        proof {
            assert(b[i - off] == c);
        }
        if c == '.' {
            if seen_dot {
                proof {
                    let k = choose|k: int| 0 <= k < i - off && #[trigger] b[k] == '.';
                    let m: int = i - off;
                    assert(b[k] == '.' && b[m] == '.' && k < m && m < b.len());
                    if is_decimal(t@) {
                        assert(b == unsigned_part(t@));
                        assert(b[k] == '.' ==> b[m] != '.');
                    }
                }
                return Err(ParseError::BadNumber);
            }
            seen_dot = true;
        } else if '0' <= c && c <= '9' {
            seen_digit = true;
        } else {
            proof {
                let m: int = i - off;
                assert(0 <= m < b.len());
                assert(!(is_digit(b[m]) || b[m] == '.'));
                if is_decimal(t@) {
                    assert(b == unsigned_part(t@));
                    assert(is_digit(b[m]) || b[m] == '.');
                }
            }
            return Err(ParseError::BadNumber);
        }
        i += 1;
    }
    proof {
        assert(b.len() == i - off);
    }
    if !seen_digit {
        proof {
            assert(!is_decimal(t@));
        }
        return Err(ParseError::BadNumber);
    }
    proof {
        assert(is_decimal(t@));
    }
    Ok(t)
}

/// Reads a name: the component trimmed.
pub fn parse_name(s: &str) -> (r: Result<&str, ParseError>)
    ensures
        r matches Ok(t) && t@ == trim_spec(s@),
{
    Ok(trim_str(s))
}

/// Reads a symbol: trimmed, it must be made of 'A' to 'Z' and '.' only.
pub fn parse_symbol(s: &str) -> (r: Result<&str, ParseError>)
    ensures
        match r {
            Ok(t) => symbol_spec(s@) == Ok::<Seq<char>, ParseError>(t@),
            Err(e) => symbol_spec(s@) == Err::<Seq<char>, ParseError>(e),
        },
{
    let result = trim_str(s);
    let len = result.unicode_len();
    let mut i: usize = 0;
    while i < len
        invariant
            len == result@.len(),
            result@ == trim_spec(s@),
            i <= len,
            forall|k: int| 0 <= k < i ==> ('A' <= #[trigger] result@[k] <= 'Z' || result@[k] == '.'),
        decreases len - i,
    {
        let c = result.get_char(i);
        if !('A' <= c && c <= 'Z') && c != '.' {
            return Err(ParseError::BadSymbol);
        }
        i += 1;
    }
    Ok(result)
}

/// The " - " separated components of `s`.
pub fn split_pieces(s: &str) -> (r: Vec<&str>)
    ensures
        r@.map_values(|w: &str| w@) == pieces(s@),
{
    let len = s.unicode_len();
    let mut out: Vec<&str> = Vec::new();
    let mut start: usize = 0;
    let mut i: usize = 0;
    while len >= 3 && i <= len - 3
        invariant
            len == s@.len(),
            start <= i,
            i <= len,
            out@.map_values(|w: &str| w@) + pieces_from(s@, start as int, i as int) == pieces(s@),
        decreases len - i,
    {
        if s.get_char(i) == ' ' && s.get_char(i + 1) == '-' && s.get_char(i + 2) == ' ' {
            let ghost before = out@;
            let w = s.substring_char(start, i);
            out.push(w);
            proof {
                assert(out@.map_values(|w: &str| w@) =~= before.map_values(|w: &str| w@).push(
                    s@.subrange(start as int, i as int),
                ));
                assert(before.map_values(|w: &str| w@) + pieces_from(s@, start as int, i as int)
                    =~= out@.map_values(|w: &str| w@) + pieces_from(s@, i + 3, i + 3));
            }
            start = i + 3;
            i = i + 3;
        } else {
            i += 1;
        }
    }
    let ghost before = out@;
    let w = s.substring_char(start, len);
    out.push(w);
    proof {
        assert(out@.map_values(|w: &str| w@) =~= before.map_values(|w: &str| w@).push(
            s@.subrange(start as int, len as int),
        ));
        assert(before.map_values(|w: &str| w@) + pieces_from(s@, start as int, i as int)
            =~= out@.map_values(|w: &str| w@));
    }
    out
}

/// Reads a stock line `Symbol - [Name -] Num [- Tags]`.
pub fn parse_stock(s: &str) -> (r: Result<Stock, ParseError>)
    ensures
        match r {
            Ok(st) => stock_spec(s@) == Ok::<StockFields, ParseError>(fields_of(st)) && st.lots@.len() == 0,
            Err(e) => stock_spec(s@) == Err::<StockFields, ParseError>(e),
        },
{
    let pieces = split_pieces(s);
    let ghost pv = pieces@.map_values(|w: &str| w@);
    proof {
        assert(pieces@.len() > 0 ==> pv[0] == pieces@[0]@);
        assert(pieces@.len() > 1 ==> pv[1] == pieces@[1]@);
        assert(pieces@.len() > 2 ==> pv[2] == pieces@[2]@);
        assert(pieces@.len() > 3 ==> pv[3] == pieces@[3]@);
    }
    let n = pieces.len();
    if n > 4 {
        return Err(ParseError::ExtraComponents);
    }
    if n < 2 {
        return Err(ParseError::MissingComponents);
    }
    let symbol = match parse_symbol(pieces[0]) {
        Ok(t) => String::from_str(t),
        Err(e) => {
            return Err(e);
        },
    };
    let (name, num, tags) = if n == 4 {
        let name = match parse_name(pieces[1]) {
            Ok(t) => String::from_str(t),
            Err(e) => {
                return Err(e);
            },
        };
        let num = match parse_num(pieces[2]) {
            Ok(t) => String::from_str(t),
            Err(e) => {
                return Err(e);
            },
        };
        let tags = match parse_tags(pieces[3]) {
            Ok(v) => v,
            Err(e) => {
                return Err(e);
            },
        };
        (Some(name), num, tags)
    } else if n == 3 {
        // Either symbol/name/num or symbol/num/tags: tell them apart by the last one.
        match parse_num(pieces[2]) {
            Ok(t) => {
                let name = match parse_name(pieces[1]) {
                    Ok(nm) => String::from_str(nm),
                    Err(e) => {
                        return Err(e);
                    },
                };
                (Some(name), String::from_str(t), Vec::new())
            },
            Err(_) => {
                let num = match parse_num(pieces[1]) {
                    Ok(t) => String::from_str(t),
                    Err(e) => {
                        return Err(e);
                    },
                };
                let tags = match parse_tags(pieces[2]) {
                    Ok(v) => v,
                    Err(e) => {
                        return Err(e);
                    },
                };
                (None, num, tags)
            },
        }
    } else {
        let num = match parse_num(pieces[1]) {
            Ok(t) => String::from_str(t),
            Err(e) => {
                return Err(e);
            },
        };
        (None, num, Vec::new())
    };
    let st = Stock { symbol, name, num, tags, lots: Vec::new() };
    proof {
        assert(views(Seq::<String>::empty()) =~= Seq::<Seq<char>>::empty());
    }
    Ok(st)
}

} // verus!
