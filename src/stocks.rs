use vstd::prelude::*;

pub mod parser;
pub mod sanity;

pub use self::parser::parse_stock;
pub use self::sanity::sanity_check;

use self::parser::{fields_of, stock_spec, views};
use self::sanity::insanities;
use crate::text::{starts_with_str, trim_spec, trim_str};
use crate::tree::{ArenaIndex, NTree, TreeError};

pub use self::parser::StockFields;

verus! {

/// Why a stock line was refused.
#[derive(Clone, Copy, Debug, PartialEq, Eq, Structural)]
pub enum ParseError {
    /// A tag that does not begin with '@' or '#'.
    BadTag,
    /// A tag with white space inside.
    TagWhiteSpace,
    /// A symbol with a character other than 'A' to 'Z' and '.'.
    BadSymbol,
    /// A quantity that is not a decimal number.
    BadNumber,
    /// More than four components.
    ExtraComponents,
    /// Fewer than two components.
    MissingComponents,
}

/// A holding's lot; it carries no data yet.
#[derive(Clone, Copy, Debug, PartialEq, Eq, Structural)]
pub struct Lot {}

/// One stock line of the outline: `Symbol - [Name -] Num [- Tags]`. The quantity is
/// kept as the decimal text that was read.
#[derive(Debug, PartialEq)]
pub struct Stock {
    pub symbol: String,
    pub name: Option<String>,
    pub num: String,
    pub tags: Vec<String>,
    pub lots: Vec<Lot>,
}

/// Why the stocks could not be read from an outline tree.
#[derive(Clone, Copy, Debug, PartialEq, Eq, Structural)]
pub enum StocksError {
    /// No node titled "Finance".
    NoFinance,
    /// No node titled "Stocks" under the "Finance" node.
    NoStocks,
    /// A stock line that does not parse.
    Parse(ParseError),
    /// A node index that names no node.
    Tree(TreeError),
}

/// Node `i` of `tree` holds `title`, white space around it aside.
pub open spec fn titled(tree: NTree<String>, i: ArenaIndex, title: Seq<char>) -> bool {
    trim_spec(tree.values()[i.0 as int]@) == title
}

/// `i` is the first node of `order` that holds `title`.
pub open spec fn first_titled(
    tree: NTree<String>,
    order: Seq<ArenaIndex>,
    title: Seq<char>,
    i: ArenaIndex,
) -> bool {
    exists|k: int|
        0 <= k < order.len() && order[k] == i && titled(tree, i, title) && forall|j: int|
            0 <= j < k ==> !titled(tree, #[trigger] order[j], title)
}

/// No node of `order` holds `title`.
pub open spec fn none_titled(tree: NTree<String>, order: Seq<ArenaIndex>, title: Seq<char>) -> bool {
    forall|j: int| 0 <= j < order.len() ==> !titled(tree, #[trigger] order[j], title)
}

/// Whether `s`, white space around it aside, is `title`.
pub fn has_title(s: &str, title: &str) -> (r: bool)
    ensures
        r == (trim_spec(s@) == title@),
{
    let t = trim_str(s);
    if t.unicode_len() != title.unicode_len() {
        return false;
    }
    let r = starts_with_str(t, title);
    proof {
        if r {
            assert(t@ =~= t@.take(title@.len() as int));
        } else if t@ == title@ {
            assert(t@.take(title@.len() as int) =~= t@);
        }
    }
    r
}

/// `s` is the first node titled "Stocks" breadth first from the first node titled
/// "Finance".
pub open spec fn stocks_node(tree: NTree<String>, s: ArenaIndex) -> bool {
    exists|f: ArenaIndex|
        first_titled(tree, tree.bfs_from(ArenaIndex(0)), "Finance"@, f) && first_titled(
            tree,
            tree.bfs_from(f),
            "Stocks"@,
            s,
        ) && s.0 < tree.size()
}

fn is_finance(pair: (ArenaIndex, &String)) -> (b: bool)
    ensures
        b == (trim_spec(pair.1@) == "Finance"@),
{
    has_title(pair.1.as_str(), "Finance")
}

fn is_stocks(pair: (ArenaIndex, &String)) -> (b: bool)
    ensures
        b == (trim_spec(pair.1@) == "Stocks"@),
{
    has_title(pair.1.as_str(), "Stocks")
}

/// The node titled "Stocks": the first one breadth first from the first node titled
/// "Finance", which is looked for breadth first from the root.
pub fn find_stocks_node(tree: &NTree<String>) -> (r: Result<ArenaIndex, StocksError>)
    requires
        tree.wf(),
    ensures
        match r {
            Ok(s) => stocks_node(*tree, s),
            Err(e) => (e == StocksError::NoFinance && none_titled(
                *tree,
                tree.bfs_from(ArenaIndex(0)),
                "Finance"@,
            )) || (e == StocksError::NoStocks && exists|f: ArenaIndex|
                first_titled(*tree, tree.bfs_from(ArenaIndex(0)), "Finance"@, f) && none_titled(
                    *tree,
                    tree.bfs_from(f),
                    "Stocks"@,
                )),
        },
{
    let root = tree.root_index();
    let finance = tree.find_node(root, is_finance);
    let finance_idx = match finance {
        Some(i) => i,
        None => {
            return Err(StocksError::NoFinance);
        },
    };
    proof {
        lemma_bfs_in_range(tree, root);
                let o1 = tree.bfs_from(ArenaIndex(0));
                let k1 = choose|k: int|
                    0 <= k < o1.len() && o1[k] == finance_idx && is_finance.ensures(
                        ((finance_idx, &tree.values()[finance_idx.0 as int]),),
                        true,
                    ) && forall|j: int|
                        0 <= j < k ==> is_finance.ensures(
                            ((o1[j], &tree.values()[o1[j].0 as int]),),
                            false,
                        );
                assert forall|j: int| 0 <= j < k1 implies !titled(*tree, #[trigger] o1[j], "Finance"@) by {
                    assert(is_finance.ensures(((o1[j], &tree.values()[o1[j].0 as int]),), false));
                }
                assert(first_titled(*tree, o1, "Finance"@, finance_idx));
    }
    let stocks = tree.find_node(finance_idx, is_stocks);
    match stocks {
        Some(i) => {
            proof {
                lemma_bfs_in_range(tree, finance_idx);
                let o2 = tree.bfs_from(finance_idx);
                let k2 = choose|k: int|
                    0 <= k < o2.len() && o2[k] == i && is_stocks.ensures(
                        ((i, &tree.values()[i.0 as int]),),
                        true,
                    ) && forall|j: int|
                        0 <= j < k ==> is_stocks.ensures(
                            ((o2[j], &tree.values()[o2[j].0 as int]),),
                            false,
                        );
                assert forall|j: int| 0 <= j < k2 implies !titled(*tree, #[trigger] o2[j], "Stocks"@) by {
                    assert(is_stocks.ensures(((o2[j], &tree.values()[o2[j].0 as int]),), false));
                }
                assert(first_titled(*tree, o2, "Stocks"@, i));
                assert(o2[k2].0 < tree.size());
                assert(stocks_node(*tree, i));
            }
            Ok(i)
        },
        None => Err(StocksError::NoStocks),
    }
}

/// The stocks read from the nodes `nodes` of `tree`, in order; the first refusal, if any.
pub open spec fn collect_stocks(tree: NTree<String>, nodes: Seq<ArenaIndex>) -> Result<
    Seq<StockFields>,
    ParseError,
>
    decreases nodes.len(),
{
    if nodes.len() == 0 {
        Ok(seq![])
    } else {
        match collect_stocks(tree, nodes.drop_last()) {
            Err(e) => Err(e),
            Ok(acc) => match stock_spec(tree.values()[nodes.last().0 as int]@) {
                Err(e) => Err(e),
                Ok(st) => Ok(acc.push(st)),
            },
        }
    }
}

proof fn lemma_collect_stocks_err(tree: NTree<String>, nodes: Seq<ArenaIndex>, k: int)
    requires
        0 <= k <= nodes.len(),
        collect_stocks(tree, nodes.take(k)) is Err,
    ensures
        collect_stocks(tree, nodes) == collect_stocks(tree, nodes.take(k)),
    decreases nodes.len() - k,
{
    if k < nodes.len() {
        assert(nodes.take(k + 1).drop_last() =~= nodes.take(k));
        lemma_collect_stocks_err(tree, nodes, k + 1);
    } else {
        assert(nodes.take(k) =~= nodes);
    }
}

/// The stocks read from an outline, in the order of their lines.
pub struct Stocks {
    pub stocks: Vec<Stock>,
}

impl Stocks {
    /// The stocks of an outline: one per child of the "Stocks" node (see
    /// [`find_stocks_node`]), in order.
    pub fn load_from_tree(tree: &NTree<String>) -> (r: Result<Stocks, StocksError>)
        requires
            tree.wf(),
        ensures
            match r {
                Ok(v) => exists|s: ArenaIndex|
                    stocks_node(*tree, s) && collect_stocks(*tree, tree.kids()[s.0 as int]) == Ok::<
                        Seq<StockFields>,
                        ParseError,
                    >(v.stocks@.map_values(|st: Stock| fields_of(st))),
                Err(StocksError::Parse(e)) => exists|s: ArenaIndex|
                    stocks_node(*tree, s) && collect_stocks(*tree, tree.kids()[s.0 as int]) == Err::<
                        Seq<StockFields>,
                        ParseError,
                    >(e),
                Err(StocksError::NoFinance) => none_titled(*tree, tree.bfs_from(ArenaIndex(0)), "Finance"@),
                Err(StocksError::NoStocks) => exists|f: ArenaIndex|
                    first_titled(*tree, tree.bfs_from(ArenaIndex(0)), "Finance"@, f) && none_titled(
                        *tree,
                        tree.bfs_from(f),
                        "Stocks"@,
                    ),
                Err(StocksError::Tree(_)) => false,
            },
    {
        let stocks_index = match find_stocks_node(tree) {
            Ok(i) => i,
            Err(e) => {
                return Err(e);
            },
        };
        let children = match tree.children(stocks_index) {
            Ok(c) => c,
            Err(e) => {
                return Err(StocksError::Tree(e));
            },
        };
        proof {
            tree.lemma_kids_in_range();
        }
        let ghost nodes = tree.kids()[stocks_index.0 as int];
        let mut stocks: Vec<Stock> = Vec::new();
        let mut i: usize = 0;
        proof {
            assert(nodes.take(0) =~= Seq::<ArenaIndex>::empty());
            assert(stocks@.map_values(|st: Stock| fields_of(st)) =~= Seq::<StockFields>::empty());
        }
        while i < children.len()
            invariant
                tree.wf(),
                children@ == nodes,
                nodes == tree.kids()[stocks_index.0 as int],
                stocks_index.0 < tree.size(),
                stocks_node(*tree, stocks_index),
                i <= children@.len(),
                forall|j: int| 0 <= j < nodes.len() ==> (#[trigger] nodes[j]).0 < tree.size(),
                collect_stocks(*tree, nodes.take(i as int)) == Ok::<Seq<StockFields>, ParseError>(
                    stocks@.map_values(|st: Stock| fields_of(st)),
                ),
            decreases children.len() - i,
        {
            let idx = children[i];
            proof {
                assert(nodes.take(i + 1).drop_last() =~= nodes.take(i as int));
                assert(nodes.take(i + 1).last() == idx);
            }
            let text = match tree.value(idx) {
                Ok(t) => t,
                Err(e) => {
                    return Err(StocksError::Tree(e));
                },
            };
            match parse_stock(text.as_str()) {
                Ok(st) => {
                    let ghost before = stocks@;
                    stocks.push(st);
                    proof {
                        assert(stocks@.map_values(|st: Stock| fields_of(st)) =~= before.map_values(
                            |st: Stock| fields_of(st),
                        ).push(fields_of(st)));
                    }
                },
                Err(e) => {
                    proof {
                        lemma_collect_stocks_err(*tree, nodes, (i + 1) as int);
                        assert(stocks_node(*tree, stocks_index) && collect_stocks(*tree, nodes) == Err::<
                            Seq<StockFields>,
                            ParseError,
                        >(e));
                    }
                    return Err(StocksError::Parse(e));
                },
            }
            i += 1;
        }
        proof {
            assert(nodes.take(children@.len() as int) =~= nodes);
            assert(stocks_node(*tree, stocks_index));
        }
        Ok(Stocks { stocks })
    }

    /// The complaints about each stock that has any, with its symbol, in order.
    pub fn sanity_check(&self) -> (r: Vec<(String, Vec<String>)>)
        ensures
            r@.map_values(|e: (String, Vec<String>)| (e.0@, views(e.1@))) == complaints(self.stocks@),
    {
        let mut out: Vec<(String, Vec<String>)> = Vec::new();
        let mut i: usize = 0;
        proof {
            assert(self.stocks@.take(0) =~= Seq::<Stock>::empty());
            assert(out@.map_values(|e: (String, Vec<String>)| (e.0@, views(e.1@))) =~= Seq::<
                (Seq<char>, Seq<Seq<char>>),
            >::empty());
        }
        while i < self.stocks.len()
            invariant
                i <= self.stocks@.len(),
                out@.map_values(|e: (String, Vec<String>)| (e.0@, views(e.1@))) == complaints(
                    self.stocks@.take(i as int),
                ),
            decreases self.stocks.len() - i,
        {
            let stock = &self.stocks[i];
            let sanity = sanity_check(stock);
            proof {
                assert(self.stocks@.take(i + 1).drop_last() =~= self.stocks@.take(i as int));
                assert(self.stocks@.take(i + 1).last() == *stock);
            }
            if sanity.len() > 0 {
                let ghost before = out@;
                let symbol = String::from_str(stock.symbol.as_str());
                out.push((symbol, sanity));
                proof {
                    assert(out@.map_values(|e: (String, Vec<String>)| (e.0@, views(e.1@))) =~= before.map_values(
                        |e: (String, Vec<String>)| (e.0@, views(e.1@)),
                    ).push((stock.symbol@, insanities(*stock))));
                }
            }
            i += 1;
        }
        proof {
            assert(self.stocks@.take(self.stocks@.len() as int) =~= self.stocks@);
        }
        out
    }
}

/// Each stock of `list` that draws complaints, with its symbol and the complaints.
pub open spec fn complaints(list: Seq<Stock>) -> Seq<(Seq<char>, Seq<Seq<char>>)>
    decreases list.len(),
{
    if list.len() == 0 {
        seq![]
    } else {
        let rest = complaints(list.drop_last());
        let st = list.last();
        if insanities(st).len() > 0 {
            rest.push((st.symbol@, insanities(st)))
        } else {
            rest
        }
    }
}

/// Every node reached breadth first names a node of the tree.
proof fn lemma_bfs_in_range(tree: &NTree<String>, start: ArenaIndex)
    requires
        tree.wf(),
        start.0 < tree.size(),
    ensures
        forall|j: int|
            0 <= j < tree.bfs_from(start).len() ==> (#[trigger] tree.bfs_from(start)[j]).0 < tree.size(),
{
    tree.lemma_bfs_in_range(seq![start], tree.size());
}

} // verus!
