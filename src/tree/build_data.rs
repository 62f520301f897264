use vstd::prelude::*;
use vstd::utf8::encode_utf8;

use super::arena::ArenaIndex;
use super::ntree::NTree;
use super::TreeError;
use crate::text::{
    byte_len, lemma_encode_concat, lemma_leading_bound, leading_ws, starts_with_str, trim_start_spec, trim_start_str,
};

verus! {

/// The width of a line's indent: the number of bytes of its leading white space.
pub open spec fn indent_of(s: Seq<char>) -> nat {
    encode_utf8(s.take(leading_ws(s) as int)).len()
}

/// `s` with `prefix` and the white space after it taken off its front, where `s` begins
/// with `prefix`; otherwise `s` itself.
pub open spec fn strip_prefix(s: Seq<char>, prefix: Option<Seq<char>>) -> Seq<char> {
    match prefix {
        Some(p) => if p.len() <= s.len() && s.take(p.len() as int) == p {
            trim_start_spec(s.skip(p.len() as int))
        } else {
            s
        },
        None => s,
    }
}

/// The text that an outline line contributes: without its indent and without the
/// bullet prefix.
pub open spec fn line_text(s: Seq<char>, prefix: Option<Seq<char>>) -> Seq<char> {
    strip_prefix(trim_start_spec(s), prefix)
}

/// The first level of `stack` whose indent is `indent`, or the stack's height.
pub open spec fn first_level(stack: Seq<(usize, ArenaIndex)>, indent: usize) -> nat
    decreases stack.len(),
{
    if stack.len() == 0 || stack[0].0 == indent {
        0
    } else {
        1 + first_level(stack.drop_first(), indent)
    }
}

/// The level at which a line with `indent` goes: the level with that indent, else a new
/// level below the deepest; `None` where the indent is smaller than the deepest one and
/// matches no level.
pub open spec fn level_for(stack: Seq<(usize, ArenaIndex)>, indent: usize) -> Option<int> {
    let k = first_level(stack, indent);
    if k < stack.len() {
        Some(k as int)
    } else if stack.len() > 0 && indent < stack.last().0 {
        None
    } else {
        Some(stack.len() as int)
    }
}

proof fn lemma_first_level(stack: Seq<(usize, ArenaIndex)>, indent: usize, i: int)
    requires
        0 <= i <= stack.len(),
        forall|j: int| 0 <= j < i ==> (#[trigger] stack[j]).0 != indent,
        i == stack.len() || stack[i].0 == indent,
    ensures
        first_level(stack, indent) == i,
    decreases i,
{
    if i > 0 {
        let t = stack.drop_first();
        assert forall|j: int| 0 <= j < i - 1 implies (#[trigger] t[j]).0 != indent by {
            assert(t[j] == stack[j + 1]);
        }
        assert(stack[0].0 != indent);
        lemma_first_level(t, indent, i - 1);
    }
}

/// A line split into its text after the leading white space and the byte width of that
/// white space.
pub fn trim_with_length(s: &str) -> (r: (&str, usize))
    ensures
        r.0@ == trim_start_spec(s@),
        r.1 == indent_of(s@),
{
    let trimmed = trim_start_str(s);
    let total = byte_len(s);
    let rest = byte_len(trimmed);
    proof {
        let k = leading_ws(s@) as int;
        lemma_leading_bound(s@);
        assert(s@ =~= s@.take(k) + s@.skip(k));
        lemma_encode_concat(s@.take(k), s@.skip(k));
    }
    (trimmed, total - rest)
}

/// `s` with `prefix` and the white space after it taken off, where `s` begins with
/// `prefix`; otherwise `s` unchanged.
pub fn trim_prefix<'a>(s: &'a str, prefix: &Option<String>) -> (r: &'a str)
    ensures
        r@ == strip_prefix(
            s@,
            match prefix {
                Some(p) => Some(p@),
                None => None,
            },
        ),
{
    if let Some(p) = prefix {
        if starts_with_str(s, p.as_str()) {
            let len = s.unicode_len();
            let plen = p.as_str().unicode_len();
            let rest = s.substring_char(plen, len);
            proof {
                assert(rest@ =~= s@.skip(plen as int));
            }
            return trim_start_str(rest);
        }
    }
    s
}

/// An outline being read: the text of each node by index, the children of each node,
/// and the open levels.
pub struct OutlineModel {
    pub values: Seq<Seq<char>>,
    pub kids: Seq<Seq<ArenaIndex>>,
    pub levels: Seq<(usize, ArenaIndex)>,
}

/// An outline with nothing read yet: a root holding the empty text.
pub open spec fn empty_outline() -> OutlineModel {
    OutlineModel {
        values: seq![Seq::<char>::empty()],
        kids: seq![Seq::<ArenaIndex>::empty()],
        levels: seq![],
    }
}

/// What reading the line `s` does to the outline `m` (see [`BuildData::add`]).
pub open spec fn add_line(m: OutlineModel, s: Seq<char>, prefix: Option<Seq<char>>) -> Result<
    OutlineModel,
    TreeError,
> {
    let indent = indent_of(s) as usize;
    let n = ArenaIndex(m.values.len() as usize);
    match level_for(m.levels, indent) {
        None => Err(TreeError::NoSibling(indent)),
        Some(k) => {
            let parent = if k == 0 {
                ArenaIndex(0)
            } else {
                m.levels[k - 1].1
            };
            Ok(
                OutlineModel {
                    values: m.values.push(line_text(s, prefix)),
                    kids: m.kids.push(Seq::<ArenaIndex>::empty()).update(
                        parent.0 as int,
                        m.kids[parent.0 as int].push(n),
                    ),
                    levels: m.levels.take(k).push((indent, n)),
                },
            )
        },
    }
}

/// The outline read from `lines`, or the refusal of the first line refused.
pub open spec fn outline(lines: Seq<Seq<char>>, prefix: Option<Seq<char>>) -> Result<
    OutlineModel,
    TreeError,
>
    decreases lines.len(),
{
    if lines.len() == 0 {
        Ok(empty_outline())
    } else {
        match outline(lines.drop_last(), prefix) {
            Err(e) => Err(e),
            Ok(m) => add_line(m, lines.last(), prefix),
        }
    }
}

proof fn lemma_outline_err(lines: Seq<Seq<char>>, prefix: Option<Seq<char>>, k: int)
    requires
        0 <= k <= lines.len(),
        outline(lines.take(k), prefix) is Err,
    ensures
        outline(lines, prefix) == outline(lines.take(k), prefix),
    decreases lines.len() - k,
{
    if k < lines.len() {
        assert(lines.take(k + 1).drop_last() =~= lines.take(k));
        lemma_outline_err(lines, prefix, k + 1);
    } else {
        assert(lines.take(k) =~= lines);
    }
}

/// The texts of a tree's nodes and their children.
pub open spec fn tree_model(t: NTree<String>) -> (Seq<Seq<char>>, Seq<Seq<ArenaIndex>>) {
    (t.values().map_values(|v: String| v@), t.kids())
}

/// Builds a tree from the lines of an outline, one line at a time. The root holds the
/// empty string; each line becomes a node under the last line with a smaller indent.
pub struct BuildData {
    pub tree: NTree<String>,
    stack: Vec<(usize, ArenaIndex)>,
    prefix_pattern: Option<String>,
}

impl BuildData {
    /// The tree built so far.
    pub closed spec fn built(&self) -> NTree<String> {
        self.tree
    }

    /// The outline read so far.
    pub open spec fn model(&self) -> OutlineModel {
        OutlineModel {
            values: self.built().values().map_values(|v: String| v@),
            kids: self.built().kids(),
            levels: self.levels(),
        }
    }

    /// The open levels, outermost first: each line's indent and node.
    pub closed spec fn levels(&self) -> Seq<(usize, ArenaIndex)> {
        self.stack@
    }

    /// The bullet prefix taken off each line, if any.
    pub closed spec fn prefix(&self) -> Option<Seq<char>> {
        match self.prefix_pattern {
            Some(p) => Some(p@),
            None => None,
        }
    }

    /// The tree is well formed and each level names one of its nodes.
    pub closed spec fn wf(&self) -> bool {
        &&& self.tree.wf()
        &&& forall|i: int| 0 <= i < self.stack@.len() ==> (#[trigger] self.stack@[i]).1.0 < self.tree.size()
    }

    pub fn new(prefix_pattern: Option<&str>) -> (r: BuildData)
        ensures
            r.wf(),
            r.built().values().len() == 1,
            r.built().values()[0]@ == Seq::<char>::empty(),
            r.built().kids() == seq![Seq::<ArenaIndex>::empty()],
            r.levels() == Seq::<(usize, ArenaIndex)>::empty(),
            r.model() == empty_outline(),
            r.prefix() == match prefix_pattern {
                Some(p) => Some(p@),
                None => None::<Seq<char>>,
            },
    {
        let prefix = match prefix_pattern {
            Some(p) => Some(String::from_str(p)),
            None => None,
        };
        let root = String::new();
        let r = BuildData { tree: NTree::new(root), stack: Vec::new(), prefix_pattern: prefix };
        proof {
            assert(r.model().values =~= empty_outline().values);
        }
        r
    }

    /// Adds one outline line. The line goes at the level whose indent equals its own,
    /// or at a new level below the deepest; its parent is the node of the level above,
    /// or the root. A line whose indent is smaller than the deepest and matches no level
    /// is refused.
    pub fn add(&mut self, s: &str) -> (r: Result<(), TreeError>)
        requires
            old(self).wf(),
            old(self).built().size() < usize::MAX,
        ensures
            final(self).wf(),
            final(self).prefix() == old(self).prefix(),
            match add_line(old(self).model(), s@, old(self).prefix()) {
                Ok(m) => r == Ok::<(), TreeError>(()) && final(self).model() == m,
                Err(e) => r == Err::<(), TreeError>(e) && final(self).model() == old(self).model(),
            },
            ({
                let indent = indent_of(s@) as usize;
                let n = ArenaIndex(old(self).built().size() as usize);
                match level_for(old(self).levels(), indent) {
                    None => {
                        &&& r == Err::<(), TreeError>(TreeError::NoSibling(indent))
                        &&& final(self).built() == old(self).built()
                        &&& final(self).levels() == old(self).levels()
                    },
                    Some(k) => {
                        let parent = if k == 0 {
                            ArenaIndex(0)
                        } else {
                            old(self).levels()[k - 1].1
                        };
                        &&& r == Ok::<(), TreeError>(())
                        &&& final(self).built().values().len() == old(self).built().values().len() + 1
                        &&& forall|i: int|
                            0 <= i < old(self).built().values().len() ==> #[trigger] final(self).built().values()[i]
                                == old(self).built().values()[i]
                        &&& final(self).built().values().last()@ == line_text(s@, old(self).prefix())
                        &&& final(self).built().kids() == old(self).built().kids().push(
                            Seq::<ArenaIndex>::empty(),
                        ).update(parent.0 as int, old(self).built().kids()[parent.0 as int].push(n))
                        &&& final(self).levels() == old(self).levels().take(k).push((indent, n))
                    },
                }
            }),
    {
        let (trimmed_start, line_indent) = trim_with_length(s);
        let trimmed = trim_prefix(trimmed_start, &self.prefix_pattern);

        // See if the indent level matches an existing level.
        let mut level: usize = 0;
        while level < self.stack.len() && self.stack[level].0 != line_indent
            invariant
                level <= self.stack@.len(),
                forall|j: int| 0 <= j < level ==> (#[trigger] self.stack@[j]).0 != line_indent,
            decreases self.stack.len() - level,
        {
            level += 1;
        }
        proof {
            lemma_first_level(self.stack@, line_indent, level as int);
        }
        if level == self.stack.len() && self.stack.len() > 0 {
            let deepest_indent = self.stack[self.stack.len() - 1].0;
            if line_indent < deepest_indent {
                // The indent is smaller than the current one but matches no enclosing level.
                return Err(TreeError::NoSibling(line_indent));
            }
        }
        let matched_level = level;

        let parent_index = if matched_level == 0 {
            self.tree.root_index()
        } else {
            self.stack[matched_level - 1].1
        };

        let text = String::from_str(trimmed);
        let new_index = match self.tree.add_child(parent_index, text) {
            Ok(i) => i,
            Err(e) => {
                return Err(e);
            },
        };

        let ghost old_stack = self.stack@;
        if matched_level == self.stack.len() {
            // A new, deeper level.
            self.stack.push((line_indent, new_index));
        } else {
            // Replace the matched level and close the levels below it.
            self.stack.set(matched_level, (line_indent, new_index));
            self.stack.truncate(matched_level + 1);
        }
        proof {
            assert(self.model().values =~= old(self).model().values.push(line_text(s@, old(self).prefix())));
            assert(self.stack@ =~= old_stack.take(matched_level as int).push((line_indent, new_index)));
            assert forall|i: int| 0 <= i < self.stack@.len() implies (
            #[trigger] self.stack@[i]).1.0 < self.tree.size() by {
                if i < matched_level {
                    assert(self.stack@[i] == old_stack[i]);
                }
            }
        }
        Ok(())
    }
}

/// The views of a list of lines.
pub open spec fn line_views(lines: Seq<String>) -> Seq<Seq<char>> {
    lines.map_values(|l: String| l@)
}

/// Builds the tree of an outline from its lines. `prefix_pattern` is a bullet taken off
/// the front of each line. The first line that [`BuildData::add`] refuses ends the
/// reading with its error.
pub fn read_tree(lines: &Vec<String>, prefix_pattern: Option<&str>) -> (r: Result<NTree<String>, TreeError>)
    requires
        lines@.len() < usize::MAX,
    ensures
        ({
            let prefix = match prefix_pattern {
                Some(p) => Some(p@),
                None => None::<Seq<char>>,
            };
            match outline(line_views(lines@), prefix) {
                Ok(m) => r matches Ok(t) && t.wf() && tree_model(t) == (m.values, m.kids),
                Err(e) => r == Err::<NTree<String>, TreeError>(e),
            }
        }),
{
    let ghost prefix = match prefix_pattern {
        Some(p) => Some(p@),
        None => None::<Seq<char>>,
    };
    let ghost lv = line_views(lines@);
    let mut build_data = BuildData::new(prefix_pattern);
    let mut i: usize = 0;
    proof {
        assert(lv.take(0) =~= Seq::<Seq<char>>::empty());
    }
    while i < lines.len()
        invariant
            i <= lines@.len(),
            lines@.len() < usize::MAX,
            lv == line_views(lines@),
            build_data.wf(),
            build_data.prefix() == prefix,
            prefix == match prefix_pattern {
                Some(p) => Some(p@),
                None => None::<Seq<char>>,
            },
            build_data.built().size() == i + 1,
            outline(lv.take(i as int), prefix) == Ok::<OutlineModel, TreeError>(build_data.model()),
        decreases lines.len() - i,
    {
        proof {
            assert(lv.take(i + 1).drop_last() =~= lv.take(i as int));
            assert(lv.take(i + 1).last() == lines@[i as int]@);
        }
        match build_data.add(lines[i].as_str()) {
            Ok(()) => {},
            Err(e) => {
                proof {
                    assert(outline(lv.take(i + 1), prefix) == Err::<OutlineModel, TreeError>(e));
                    lemma_outline_err(lv, prefix, (i + 1) as int);
                }
                return Err(e);
            },
        }
        i += 1;
    }
    proof {
        assert(lv.take(lines@.len() as int) =~= lv);
    }
    Ok(build_data.tree)
}

} // verus!
