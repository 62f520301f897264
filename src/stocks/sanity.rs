use vstd::prelude::*;

use super::Stock;
use super::parser::views;
use crate::text::starts_with_str;

verus! {

/// Tags that name a brokerage.
pub open spec fn brokerage_tags() -> Seq<Seq<char>> {
    seq!["@etrade"@, "@ally"@]
}

/// Tags that name a portfolio.
pub open spec fn portfolio_tags() -> Seq<Seq<char>> {
    seq!["@ally"@, "@longshort"@, "@marijuana"@, "@misc"@]
}

/// Tags that mark a short position.
pub open spec fn short_tags() -> Seq<Seq<char>> {
    seq!["@short"@]
}

/// No tag of `tags` is in `set`.
pub open spec fn disjoint(tags: Seq<Seq<char>>, set: Seq<Seq<char>>) -> bool {
    forall|i: int| 0 <= i < tags.len() ==> !set.contains(#[trigger] tags[i])
}

/// The quantity text holds a digit other than '0'.
pub open spec fn nonzero(t: Seq<char>) -> bool {
    exists|i: int| 0 <= i < t.len() && '1' <= #[trigger] t[i] <= '9'
}

/// A quantity text below zero.
pub open spec fn negative(t: Seq<char>) -> bool {
    t.len() > 0 && t[0] == '-' && nonzero(t)
}

/// A quantity text above zero.
pub open spec fn positive(t: Seq<char>) -> bool {
    !(t.len() > 0 && t[0] == '-') && nonzero(t)
}

pub open spec fn note(b: bool, m: Seq<char>) -> Seq<Seq<char>> {
    if b {
        seq![m]
    } else {
        seq![]
    }
}

/// The complaints about a stock, in the order the checks are made.
pub open spec fn insanities(st: Stock) -> Seq<Seq<char>> {
    let tags = views(st.tags@);
    note(st.name is None, "missing name."@) + note(
        disjoint(tags, brokerage_tags()),
        "has no brokerage tag"@,
    ) + note(negative(st.num@) && disjoint(tags, short_tags()), "has no @short tag"@) + note(
        positive(st.num@) && !disjoint(tags, short_tags()),
        "shouldn't have @short tag"@,
    ) + note(disjoint(tags, portfolio_tags()), "has no portfolio tag"@)
}

fn same_text(a: &str, b: &str) -> (r: bool)
    ensures
        r == (a@ == b@),
{
    if a.unicode_len() != b.unicode_len() {
        return false;
    }
    let r = starts_with_str(a, b);
    proof {
        if r {
            assert(a@ =~= a@.take(b@.len() as int));
        } else if a@ == b@ {
            assert(a@.take(b@.len() as int) =~= a@);
        }
    }
    r
}

/// Whether no tag of `tags` is in `set`.
fn disjoint_from(tags: &Vec<String>, set: &Vec<&str>) -> (r: bool)
    ensures
        r == disjoint(views(tags@), set@.map_values(|s: &str| s@)),
{
    let ghost sv = set@.map_values(|s: &str| s@);
    let mut i: usize = 0;
    while i < tags.len()
        invariant
            i <= tags@.len(),
            sv == set@.map_values(|s: &str| s@),
            forall|k: int| 0 <= k < i ==> !sv.contains(#[trigger] views(tags@)[k]),
        decreases tags.len() - i,
    {
        let mut j: usize = 0;
        while j < set.len()
            invariant
                i < tags@.len(),
                j <= set@.len(),
                sv == set@.map_values(|s: &str| s@),
                forall|k: int| 0 <= k < j ==> sv[k] != tags@[i as int]@,
            decreases set.len() - j,
        {
            if same_text(tags[i].as_str(), set[j]) {
                proof {
                    assert(sv[j as int] == views(tags@)[i as int]);
                }
                return false;
            }
            j += 1;
        }
        proof {
            assert(views(tags@)[i as int] == tags@[i as int]@);
            if sv.contains(views(tags@)[i as int]) {
                let k = choose|k: int| 0 <= k < sv.len() && sv[k] == views(tags@)[i as int];
                assert(sv[k] != tags@[i as int]@);
            }
        }
        i += 1;
    }
    true
}

fn is_nonzero(t: &str) -> (r: bool)
    ensures
        r == nonzero(t@),
{
    let len = t.unicode_len();
    let mut i: usize = 0;
    while i < len
        invariant
            len == t@.len(),
            i <= len,
            forall|k: int| 0 <= k < i ==> !('1' <= #[trigger] t@[k] <= '9'),
        decreases len - i,
    {
        let c = t.get_char(i);
        if '1' <= c && c <= '9' {
            return true;
        }
        i += 1;
    }
    false
}

fn is_negative(t: &str) -> (r: bool)
    ensures
        r == negative(t@),
{
    t.unicode_len() > 0 && t.get_char(0) == '-' && is_nonzero(t)
}

fn is_positive(t: &str) -> (r: bool)
    ensures
        r == positive(t@),
{
    !(t.unicode_len() > 0 && t.get_char(0) == '-') && is_nonzero(t)
}

/// A stock needs a name.
pub fn has_name(stock: &Stock) -> (r: Option<String>)
    ensures
        r is Some <==> stock.name is None,
        r matches Some(m) ==> m@ == "missing name."@,
{
    if stock.name.is_none() {
        Some(String::from_str("missing name."))
    } else {
        None
    }
}

/// A stock needs a brokerage tag.
pub fn has_brokerage_tag(stock: &Stock) -> (r: Option<String>)
    ensures
        r is Some <==> disjoint(views(stock.tags@), brokerage_tags()),
        r matches Some(m) ==> m@ == "has no brokerage tag"@,
{
    let set = vec!["@etrade", "@ally"];
    proof {
        assert(set@.map_values(|s: &str| s@) =~= brokerage_tags());
    }
    if disjoint_from(&stock.tags, &set) {
        Some(String::from_str("has no brokerage tag"))
    } else {
        None
    }
}

/// A stock held short needs the short tag.
pub fn has_short_tag_if_needed(stock: &Stock) -> (r: Option<String>)
    ensures
        r is Some <==> negative(stock.num@) && disjoint(views(stock.tags@), short_tags()),
        r matches Some(m) ==> m@ == "has no @short tag"@,
{
    let set = vec!["@short"];
    proof {
        assert(set@.map_values(|s: &str| s@) =~= short_tags());
    }
    if is_negative(stock.num.as_str()) && disjoint_from(&stock.tags, &set) {
        Some(String::from_str("has no @short tag"))
    } else {
        None
    }
}

/// A stock held long must not have the short tag.
pub fn no_short_if_not_needed(stock: &Stock) -> (r: Option<String>)
    ensures
        r is Some <==> positive(stock.num@) && !disjoint(views(stock.tags@), short_tags()),
        r matches Some(m) ==> m@ == "shouldn't have @short tag"@,
{
    let set = vec!["@short"];
    proof {
        assert(set@.map_values(|s: &str| s@) =~= short_tags());
    }
    if is_positive(stock.num.as_str()) && !disjoint_from(&stock.tags, &set) {
        Some(String::from_str("shouldn't have @short tag"))
    } else {
        None
    }
}

/// A stock needs a portfolio tag.
pub fn has_portfolio_tag(stock: &Stock) -> (r: Option<String>)
    ensures
        r is Some <==> disjoint(views(stock.tags@), portfolio_tags()),
        r matches Some(m) ==> m@ == "has no portfolio tag"@,
{
    let set = vec!["@ally", "@longshort", "@marijuana", "@misc"];
    proof {
        assert(set@.map_values(|s: &str| s@) =~= portfolio_tags());
    }
    if disjoint_from(&stock.tags, &set) {
        Some(String::from_str("has no portfolio tag"))
    } else {
        None
    }
}

fn push_note(out: &mut Vec<String>, n: Option<String>)
    ensures
        views(final(out)@) == views(old(out)@) + match n {
            Some(m) => seq![m@],
            None => Seq::<Seq<char>>::empty(),
        },
{
    let ghost before = out@;
    match n {
        Some(m) => {
            out.push(m);
            proof {
                assert(views(out@) =~= views(before) + seq![m@]);
            }
        },
        None => {
            proof {
                assert(views(out@) =~= views(before) + Seq::<Seq<char>>::empty());
            }
        },
    }
}

/// Every complaint about `stock`, in the order the checks are made.
pub fn sanity_check(stock: &Stock) -> (r: Vec<String>)
    ensures
        views(r@) == insanities(*stock),
{
    let mut out: Vec<String> = Vec::new();
    proof {
        assert(views(out@) =~= Seq::<Seq<char>>::empty());
    }
    push_note(&mut out, has_name(stock));
    push_note(&mut out, has_brokerage_tag(stock));
    push_note(&mut out, has_short_tag_if_needed(stock));
    push_note(&mut out, no_short_if_not_needed(stock));
    push_note(&mut out, has_portfolio_tag(stock));
    proof {
        assert(views(out@) =~= insanities(*stock));
    }
    out
}

} // verus!
