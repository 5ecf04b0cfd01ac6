//! The path trie: children kept in increasing order of name, and its
//! depth-first rendering into box-drawing rows.
use vstd::prelude::*;
use vstd::string::StrSliceExecFns;
use vstd::string::StringExecFns;
use crate::path::{join, under, path_under};

verus! {

broadcast use vstd::string::group_string_axioms, vstd::std_specs::vec::axiom_vec_index_decreases;

/// A trie node: each child is a segment name and the node below it.
/// A node with children stands for a directory.
pub struct Node {
    pub children: Vec<(String, Node)>,
}

/// Lexicographic order on character sequences, by code point (the order of
/// their UTF-8 bytes).
pub open spec fn seq_lt(a: Seq<char>, b: Seq<char>) -> bool
    decreases a.len(),
{
    if a.len() == 0 {
        b.len() > 0
    } else if b.len() == 0 {
        false
    } else if a[0] != b[0] {
        (a[0] as u32) < (b[0] as u32)
    } else {
        seq_lt(a.drop_first(), b.drop_first())
    }
}

/// `c` is a non-empty leading part of `s`.
pub open spec fn is_chain_prefix(c: Seq<Seq<char>>, s: Seq<Seq<char>>) -> bool {
    0 < c.len() <= s.len() && c == s.take(c.len() as int)
}

/// The views of a sequence of rows: (display line, full path).
pub open spec fn rows_view(s: Seq<(String, String)>) -> Seq<(Seq<char>, Seq<char>)> {
    s.map_values(|r: (String, String)| (r.0@, r.1@))
}

/// The connector before a child's name: the last child closes its branch.
pub open spec fn connector(last: bool) -> Seq<char> {
    if last { seq!['└', '─', '─', ' '] } else { seq!['├', '─', '─', ' '] }
}

/// What a child adds to the line prefix of its own children.
pub open spec fn indent(last: bool) -> Seq<char> {
    if last { seq![' ', ' ', ' ', ' '] } else { seq!['│', ' ', ' ', ' '] }
}

/// A name as displayed: with a trailing `/` for a directory.
pub open spec fn display_name(name: Seq<char>, dir: bool) -> Seq<char> {
    if dir { name + seq!['/'] } else { name }
}

fn connector_str(last: bool) -> (r: &'static str)
    ensures
        r@ == connector(last),
{
    if last {
        proof {
            reveal_strlit("└── ");
        }
        assert("└── "@ =~= connector(last));
        "└── "
    } else {
        proof {
            reveal_strlit("├── ");
        }
        assert("├── "@ =~= connector(last));
        "├── "
    }
}

fn indent_str(last: bool) -> (r: &'static str)
    ensures
        r@ == indent(last),
{
    if last {
        proof {
            reveal_strlit("    ");
        }
        assert("    "@ =~= indent(last));
        "    "
    } else {
        proof {
            reveal_strlit("│   ");
        }
        assert("│   "@ =~= indent(last));
        "│   "
    }
}

impl Node {
    /// Names of the children, in order.
    pub open spec fn keys(self) -> Seq<Seq<char>> {
        self.children@.map_values(|ch: (String, Node)| ch.0@)
    }

    /// Names strictly increase along the children, at every level.
    pub open spec fn wf(self) -> bool
        decreases self,
    {
        &&& forall|j: int|
            0 <= j < self.children.len() - 1 ==> seq_lt(
                #[trigger] self.children[j].0@,
                self.children[j + 1].0@,
            )
        &&& forall|j: int| 0 <= j < self.children.len() ==> (#[trigger] self.children[j]).1.wf()
    }

    /// The segment chain `c` leads from this node to a node of the trie.
    pub open spec fn has_chain(self, c: Seq<Seq<char>>) -> bool
        decreases c.len(),
    {
        &&& c.len() > 0
        &&& exists|j: int|
            0 <= j < self.children.len() && (#[trigger] self.children[j]).0@ == c[0] && (c.len()
                == 1 || self.children[j].1.has_chain(c.drop_first()))
    }

    /// The rows of children `i..` of this node, each followed by its own
    /// subtree, under line prefix `prefix` and parent path `path`.
    pub open spec fn render_from(self, prefix: Seq<char>, path: Seq<char>, i: int) -> Seq<
        (Seq<char>, Seq<char>),
    >
        decreases self, self.children.len() - i,
    {
        if 0 <= i < self.children.len() {
            let name = self.children[i].0@;
            let child = self.children[i].1;
            let last = i == self.children.len() - 1;
            let full = join(path, name);
            seq![(prefix + connector(last) + display_name(name, child.children.len() > 0), full)]
                + child.render_from(prefix + indent(last), full, 0) + self.render_from(
                prefix,
                path,
                i + 1,
            )
        } else {
            seq![]
        }
    }

    /// The rows of this node's subtree.
    pub open spec fn render(self, prefix: Seq<char>, path: Seq<char>) -> Seq<
        (Seq<char>, Seq<char>),
    > {
        self.render_from(prefix, path, 0)
    }

    /// A node with no children.
    pub fn new() -> (r: Node)
        ensures
            r.children@.len() == 0,
            r.wf(),
    {
        Node { children: Vec::new() }
    }
}


proof fn lemma_seq_lt_skip(a: Seq<char>, b: Seq<char>, i: int)
    requires
        0 <= i < a.len(),
        i < b.len(),
        a[i] == b[i],
    ensures
        seq_lt(a.skip(i), b.skip(i)) == seq_lt(a.skip(i + 1), b.skip(i + 1)),
{
    assert(a.skip(i).drop_first() =~= a.skip(i + 1));
    assert(b.skip(i).drop_first() =~= b.skip(i + 1));
}

proof fn lemma_char_code_injective(x: char, y: char)
    requires
        x != y,
    ensures
        (x as u32) != (y as u32),
{
}

/// Of two distinct sequences, one is below the other.
proof fn lemma_seq_lt_total(a: Seq<char>, b: Seq<char>)
    requires
        a != b,
        !seq_lt(a, b),
    ensures
        seq_lt(b, a),
    decreases a.len(),
{
    if a.len() > 0 && b.len() > 0 && a[0] == b[0] {
        if a.drop_first() == b.drop_first() {
            assert(a =~= seq![a[0]] + a.drop_first());
            assert(b =~= seq![b[0]] + b.drop_first());
        }
        lemma_seq_lt_total(a.drop_first(), b.drop_first());
    } else if a.len() > 0 && b.len() > 0 {
        lemma_char_code_injective(a[0], b[0]);
    } else if a.len() == 0 && b.len() == 0 {
        assert(a =~= b);
    }
}

/// Whether `a` comes before `b` in code point order.
fn str_lt(a: &str, b: &str) -> (r: bool)
    ensures
        r == seq_lt(a@, b@),
{
    let n = a.unicode_len();
    let m = b.unicode_len();
    let mut i: usize = 0;
    assert(a@.skip(0) =~= a@);
    assert(b@.skip(0) =~= b@);
    while i < n && i < m
        invariant
            n == a@.len(),
            m == b@.len(),
            i <= n,
            i <= m,
            seq_lt(a@.skip(i as int), b@.skip(i as int)) == seq_lt(a@, b@),
        decreases n - i,
    {
        let x = a.get_char(i);
        let y = b.get_char(i);
        if x != y {
            assert(a@.skip(i as int)[0] == x);
            assert(b@.skip(i as int)[0] == y);
            return (x as u32) < (y as u32);
        }
        proof {
            lemma_seq_lt_skip(a@, b@, i as int);
        }
        i = i + 1;
    }
    i == n && i < m
}

proof fn lemma_chain_prefix_step(c: Seq<Seq<char>>, s: Seq<Seq<char>>)
    requires
        c.len() > 0,
        s.len() > 0,
        c[0] == s[0],
        c.len() == 1 || is_chain_prefix(c.drop_first(), s.drop_first()),
    ensures
        is_chain_prefix(c, s),
{
    if c.len() > 1 {
        assert(c =~= seq![c[0]] + c.drop_first());
        assert(s.take(c.len() as int) =~= seq![s[0]] + s.drop_first().take(c.len() - 1));
    } else {
        assert(c =~= s.take(1));
    }
}

proof fn lemma_chain_prefix_tail(c: Seq<Seq<char>>, s: Seq<Seq<char>>)
    requires
        is_chain_prefix(c, s),
    ensures
        c[0] == s[0],
        c.len() > 1 ==> is_chain_prefix(c.drop_first(), s.drop_first()),
{
    assert(c[0] == s.take(c.len() as int)[0]);
    if c.len() > 1 {
        assert(c.drop_first() =~= s.drop_first().take(c.len() - 1));
    }
}

/// Replacing child `i` by one that gained the chain `s.drop_first()` makes the
/// node gain the chain `s`.
#[verifier::rlimit(40)]
proof fn lemma_chains_after_update(old_n: Node, new_n: Node, i: int, s: Seq<Seq<char>>)
    requires
        0 <= i < old_n.children.len(),
        s.len() > 0,
        old_n.children[i].0@ == s[0],
        new_n.children@ == old_n.children@.update(i, (old_n.children[i].0, new_n.children[i].1)),
        forall|d: Seq<Seq<char>>|
            #[trigger] new_n.children[i].1.has_chain(d) == (old_n.children[i].1.has_chain(d)
                || is_chain_prefix(d, s.drop_first())),
    ensures
        forall|c: Seq<Seq<char>>|
            #[trigger] new_n.has_chain(c) == (old_n.has_chain(c) || is_chain_prefix(c, s)),
{
    assert forall|c: Seq<Seq<char>>|
        #[trigger] new_n.has_chain(c) == (old_n.has_chain(c) || is_chain_prefix(c, s)) by {
        if is_chain_prefix(c, s) {
            lemma_chain_prefix_tail(c, s);
            assert(new_n.children[i].0@ == c[0]);
            if c.len() > 1 {
                assert(new_n.children[i].1.has_chain(c.drop_first()));
            }
        }
        if old_n.has_chain(c) {
            let j = choose|j: int|
                0 <= j < old_n.children.len() && (#[trigger] old_n.children[j]).0@ == c[0] && (
                c.len() == 1 || old_n.children[j].1.has_chain(c.drop_first()));
            if j == i {
                if c.len() > 1 {
                    assert(new_n.children[i].1.has_chain(c.drop_first()));
                }
                assert(new_n.children[j].0@ == c[0]);
            } else {
                assert(new_n.children[j] == old_n.children[j]);
            }
        }
        if new_n.has_chain(c) {
            let j = choose|j: int|
                0 <= j < new_n.children.len() && (#[trigger] new_n.children[j]).0@ == c[0] && (
                c.len() == 1 || new_n.children[j].1.has_chain(c.drop_first()));
            if j == i {
                assert(old_n.children[j].0@ == c[0]);
                if c.len() > 1 {
                    assert(new_n.children[i].1.has_chain(c.drop_first()));
                    if !old_n.children[j].1.has_chain(c.drop_first()) {
                        lemma_chain_prefix_step(c, s);
                    }
                }
            } else {
                assert(old_n.children[j] == new_n.children[j]);
            }
        }
    }
}

/// Adding at position `i` a child whose chains are exactly the leading parts
/// of `s.drop_first()` makes the node gain the chain `s`.
#[verifier::rlimit(40)]
proof fn lemma_chains_after_insert(old_n: Node, new_n: Node, i: int, s: Seq<Seq<char>>)
    requires
        0 <= i <= old_n.children.len(),
        s.len() > 0,
        new_n.children@ == old_n.children@.insert(i, new_n.children[i]),
        new_n.children[i].0@ == s[0],
        forall|d: Seq<Seq<char>>|
            #[trigger] new_n.children[i].1.has_chain(d) == is_chain_prefix(d, s.drop_first()),
    ensures
        forall|c: Seq<Seq<char>>|
            #[trigger] new_n.has_chain(c) == (old_n.has_chain(c) || is_chain_prefix(c, s)),
{
    assert forall|c: Seq<Seq<char>>|
        #[trigger] new_n.has_chain(c) == (old_n.has_chain(c) || is_chain_prefix(c, s)) by {
        if is_chain_prefix(c, s) {
            lemma_chain_prefix_tail(c, s);
            assert(new_n.children[i].0@ == c[0]);
            if c.len() > 1 {
                assert(new_n.children[i].1.has_chain(c.drop_first()));
            }
        }
        if old_n.has_chain(c) {
            let j = choose|j: int|
                0 <= j < old_n.children.len() && (#[trigger] old_n.children[j]).0@ == c[0] && (
                c.len() == 1 || old_n.children[j].1.has_chain(c.drop_first()));
            if j < i {
                assert(new_n.children[j] == old_n.children[j]);
            } else {
                assert(new_n.children[j + 1] == old_n.children[j]);
            }
        }
        if new_n.has_chain(c) {
            let j = choose|j: int|
                0 <= j < new_n.children.len() && (#[trigger] new_n.children[j]).0@ == c[0] && (
                c.len() == 1 || new_n.children[j].1.has_chain(c.drop_first()));
            if j == i {
                if c.len() > 1 {
                    assert(new_n.children[i].1.has_chain(c.drop_first()));
                }
                lemma_chain_prefix_step(c, s);
            } else if j < i {
                assert(old_n.children[j] == new_n.children[j]);
            } else {
                assert(old_n.children[j - 1] == new_n.children[j]);
            }
        }
    }
}

impl Node {
    /// Adds the chain `parts[k..]` below this node.
    fn insert_from(&mut self, parts: &[&str], k: usize)
        requires
            old(self).wf(),
            k <= parts@.len(),
        ensures
            final(self).wf(),
            forall|c: Seq<Seq<char>>|
                #[trigger] final(self).has_chain(c) == (old(self).has_chain(c) || is_chain_prefix(
                    c,
                    parts@.map_values(|x: &str| x@).skip(k as int),
                )),
        decreases parts@.len() - k,
    {
        let ghost pv = parts@.map_values(|x: &str| x@);
        if k >= parts.len() {
            return;
        }
        let key = String::from_str(parts[k]);
        let len = self.children.len();
        let mut i: usize = 0;
        while i < len && str_lt(self.children[i].0.as_str(), key.as_str())
            invariant
                len == self.children.len(),
                i <= len,
                forall|j: int| 0 <= j < i ==> seq_lt(#[trigger] self.children[j].0@, key@),
            decreases len - i,
        {
            i = i + 1;
        }
        let ghost old_children = self.children@;
        if i < len && self.children[i].0 == key {
            let (name, mut child) = self.children.remove(i);
            child.insert_from(parts, k + 1);
            self.children.insert(i, (name, child));
            assert(self.children@ =~= old_children.update(i as int, (name, child)));
            assert(pv.skip(k + 1) =~= pv.skip(k as int).drop_first());
            proof {
                lemma_chains_after_update(*old(self), *self, i as int, pv.skip(k as int));
            }
        } else {
            if i < len {
                proof {
                    lemma_seq_lt_total(self.children[i as int].0@, key@);
                }
            }
            let mut child = Node::new();
            child.insert_from(parts, k + 1);
            self.children.insert(i, (key, child));
            assert(pv.skip(k + 1) =~= pv.skip(k as int).drop_first());
            proof {
                lemma_chains_after_insert(*old(self), *self, i as int, pv.skip(k as int));
            }
        }
    }

    /// Adds the chain of segments `parts` below this node, merging with the
    /// children already there. Nothing changes for an empty `parts`.
    pub fn insert(&mut self, parts: &[&str])
        requires
            old(self).wf(),
        ensures
            final(self).wf(),
            forall|c: Seq<Seq<char>>|
                #[trigger] final(self).has_chain(c) == (old(self).has_chain(c) || is_chain_prefix(
                    c,
                    parts@.map_values(|x: &str| x@),
                )),
    {
        assert(parts@.map_values(|x: &str| x@).skip(0) =~= parts@.map_values(|x: &str| x@));
        self.insert_from(parts, 0);
    }

    /// Appends to `rows` one row per node below this one, depth first, children
    /// in increasing order of name: the line is `prefix`, a connector (`└── `
    /// for the last child, `├── ` otherwise) and the name, with `/` after a
    /// name that has children; the path is `current_path` joined with the name.
    pub fn generate_tree_data(
        &self,
        prefix: &str,
        current_path: &str,
        rows: &mut Vec<(String, String)>,
    )
        ensures
            rows_view(final(rows)@) == rows_view(old(rows)@) + self.render(prefix@, current_path@),
        decreases self,
    {
        let count = self.children.len();
        let mut i: usize = 0;
        proof {
            reveal_strlit("/");
        }
        while i < count
            invariant
                count == self.children.len(),
                i <= count,
                rows_view(rows@) + self.render_from(prefix@, current_path@, i as int) == rows_view(
                    old(rows)@,
                ) + self.render_from(prefix@, current_path@, 0),
            decreases count - i,
        {
            let name = &self.children[i].0;
            let node = &self.children[i].1;
            let is_last = i == count - 1;
            let is_dir = node.children.len() > 0;
            let full_path = if current_path.unicode_len() == 0 {
                name.clone()
            } else {
                path_under(current_path, name.as_str())
            };
            let mut line = String::from_str(prefix);
            line.append(connector_str(is_last));
            line.append(name.as_str());
            proof {
                reveal_strlit("/");
                assert("/"@ =~= seq!['/']);
            }
            if is_dir {
                line.append("/");
            }
            let mut new_prefix = String::from_str(prefix);
            new_prefix.append(indent_str(is_last));
            let ghost before = rows@;
            proof {
                assert(line@ =~= prefix@ + connector(is_last) + display_name(name@, is_dir));
                assert(new_prefix@ =~= prefix@ + indent(is_last));
            }
            rows.push((line, full_path.clone()));
            assert(rows_view(rows@) =~= rows_view(before) + seq![(line@, full_path@)]);
            let ghost mid = rows@;
            node.generate_tree_data(new_prefix.as_str(), full_path.as_str(), rows);
            assert(rows_view(rows@) + self.render_from(prefix@, current_path@, i + 1)
                =~= rows_view(before) + self.render_from(prefix@, current_path@, i as int));
            i = i + 1;
        }
        assert(self.render_from(prefix@, current_path@, count as int) =~= seq![]);
        assert(rows_view(rows@) =~= rows_view(rows@) + self.render_from(prefix@, current_path@, count as int));
    }
}

proof fn lemma_seq_lt_irrefl(a: Seq<char>)
    ensures
        !seq_lt(a, a),
    decreases a.len(),
{
    if a.len() > 0 {
        lemma_seq_lt_irrefl(a.drop_first());
    }
}

proof fn lemma_seq_lt_trans(a: Seq<char>, b: Seq<char>, c: Seq<char>)
    requires
        seq_lt(a, b),
        seq_lt(b, c),
    ensures
        seq_lt(a, c),
    decreases a.len(),
{
    if a.len() > 0 && b.len() > 0 && c.len() > 0 {
        if a[0] == b[0] && b[0] == c[0] {
            lemma_seq_lt_trans(a.drop_first(), b.drop_first(), c.drop_first());
        } else if a[0] == b[0] {
            lemma_char_code_injective(b[0], c[0]);
        } else if b[0] == c[0] {
            lemma_char_code_injective(a[0], b[0]);
        } else {
            lemma_char_code_injective(a[0], b[0]);
            lemma_char_code_injective(b[0], c[0]);
            if a[0] == c[0] {
                assert((a[0] as u32) < (b[0] as u32));
            }
        }
    }
}

/// A sequence strictly increasing at every pair of positions.
pub open spec fn strictly_sorted(a: Seq<Seq<char>>) -> bool {
    forall|i: int, j: int| 0 <= i < j < a.len() ==> seq_lt(#[trigger] a[i], #[trigger] a[j])
}

/// Two strictly sorted sequences with the same elements are equal.
proof fn lemma_sorted_unique(a: Seq<Seq<char>>, b: Seq<Seq<char>>)
    requires
        strictly_sorted(a),
        strictly_sorted(b),
        forall|x: Seq<char>| a.contains(x) == b.contains(x),
    ensures
        a == b,
    decreases a.len() + b.len(),
{
    if a.len() == 0 && b.len() > 0 {
        assert(b.contains(b[0]));
    } else if b.len() == 0 && a.len() > 0 {
        assert(a.contains(a[0]));
    } else if a.len() > 0 && b.len() > 0 {
        assert(a.contains(a[0]));
        assert(b.contains(b[0]));
        let j = choose|j: int| 0 <= j < b.len() && b[j] == a[0];
        let i = choose|i: int| 0 <= i < a.len() && a[i] == b[0];
        if j > 0 {
            assert(seq_lt(b[0], b[j]));
            if i > 0 {
                assert(seq_lt(a[0], a[i]));
                lemma_seq_lt_trans(a[0], a[i], a[0]);
            }
            lemma_seq_lt_irrefl(a[0]);
        }
        let a1 = a.drop_first();
        let b1 = b.drop_first();
        assert forall|x: Seq<char>| a1.contains(x) == b1.contains(x) by {
            if a1.contains(x) {
                let k = choose|k: int| 0 <= k < a1.len() && a1[k] == x;
                assert(a.contains(x) && a[k + 1] == x);
                assert(seq_lt(a[0], a[k + 1]));
                lemma_seq_lt_irrefl(x);
                let m = choose|m: int| 0 <= m < b.len() && b[m] == x;
                assert(m != 0);
                assert(b1[m - 1] == x);
            }
            if b1.contains(x) {
                let k = choose|k: int| 0 <= k < b1.len() && b1[k] == x;
                assert(b.contains(x) && b[k + 1] == x);
                assert(seq_lt(b[0], b[k + 1]));
                lemma_seq_lt_irrefl(x);
                let m = choose|m: int| 0 <= m < a.len() && a[m] == x;
                assert(m != 0);
                assert(a1[m - 1] == x);
            }
        }
        lemma_sorted_unique(a1, b1);
        assert(a =~= seq![a[0]] + a1);
        assert(b =~= seq![b[0]] + b1);
    }
}

impl Node {
    proof fn lemma_keys_sorted(self)
        requires
            self.wf(),
        ensures
            strictly_sorted(self.keys()),
    {
        assert forall|i: int, j: int| 0 <= i < j < self.keys().len() implies seq_lt(
            #[trigger] self.keys()[i],
            #[trigger] self.keys()[j],
        ) by {
            self.lemma_keys_sorted_at(i, j);
        }
    }

    proof fn lemma_keys_sorted_at(self, i: int, j: int)
        requires
            self.wf(),
            0 <= i < j < self.children.len(),
        ensures
            seq_lt(self.children[i].0@, self.children[j].0@),
        decreases j - i,
    {
        if j > i + 1 {
            self.lemma_keys_sorted_at(i, j - 1);
            lemma_seq_lt_trans(self.children[i].0@, self.children[j - 1].0@, self.children[j].0@);
        }
    }

    /// Two well-formed tries with the same chains have the same names at the
    /// top, and below each name the same chains.
    proof fn lemma_same_chains_same_top(self, other: Node)
        requires
            self.wf(),
            other.wf(),
            forall|c: Seq<Seq<char>>| #[trigger] self.has_chain(c) == other.has_chain(c),
        ensures
            self.children.len() == other.children.len(),
            forall|i: int|
                0 <= i < self.children.len() ==> #[trigger] self.children[i].0@
                    == other.children[i].0@,
            forall|i: int, d: Seq<Seq<char>>|
                0 <= i < self.children.len() ==> #[trigger] self.children[i].1.has_chain(d)
                    == other.children[i].1.has_chain(d),
    {
        self.lemma_keys_sorted();
        other.lemma_keys_sorted();
        assert forall|x: Seq<char>| self.keys().contains(x) == other.keys().contains(x) by {
            self.lemma_top_chain(x);
            other.lemma_top_chain(x);
        }
        lemma_sorted_unique(self.keys(), other.keys());
        assert(self.keys().len() == other.keys().len());
        assert forall|i: int|
            0 <= i < self.children.len() implies #[trigger] self.children[i].0@
                == other.children[i].0@ by {
            assert(self.keys()[i] == other.keys()[i]);
        }
        assert forall|i: int, d: Seq<Seq<char>>|
            0 <= i < self.children.len() implies #[trigger] self.children[i].1.has_chain(d)
                == other.children[i].1.has_chain(d) by {
            if d.len() > 0 {
                let c = seq![self.children[i].0@] + d;
                assert(c.drop_first() =~= d);
                self.lemma_child_chain(i, d);
                other.lemma_child_chain(i, d);
                assert(self.has_chain(c) == other.has_chain(c));
            }
        }
    }

    proof fn lemma_top_chain(self, x: Seq<char>)
        ensures
            self.has_chain(seq![x]) == self.keys().contains(x),
    {
        let c = seq![x];
        if self.keys().contains(x) {
            let k = choose|k: int| 0 <= k < self.keys().len() && self.keys()[k] == x;
            assert(self.children[k].0@ == c[0]);
        }
        if self.has_chain(c) {
            let j = choose|j: int|
                0 <= j < self.children.len() && (#[trigger] self.children[j]).0@ == c[0] && (c.len()
                    == 1 || self.children[j].1.has_chain(c.drop_first()));
            assert(self.keys()[j] == x);
        }
    }

    /// Below the child at `i`, the chains are those of this node that start
    /// with its name.
    proof fn lemma_child_chain(self, i: int, d: Seq<Seq<char>>)
        requires
            self.wf(),
            0 <= i < self.children.len(),
            d.len() > 0,
        ensures
            self.children[i].1.has_chain(d) == self.has_chain(seq![self.children[i].0@] + d),
    {
        let c = seq![self.children[i].0@] + d;
        assert(c.drop_first() =~= d);
        assert(c[0] == self.children[i].0@);
        if self.has_chain(c) {
            let j = choose|j: int|
                0 <= j < self.children.len() && (#[trigger] self.children[j]).0@ == c[0] && (c.len()
                    == 1 || self.children[j].1.has_chain(c.drop_first()));
            if j < i {
                self.lemma_keys_sorted_at(j, i);
                lemma_seq_lt_irrefl(c[0]);
            } else if j > i {
                self.lemma_keys_sorted_at(i, j);
                lemma_seq_lt_irrefl(c[0]);
            }
        }
    }

    /// Two well-formed tries with the same chains render the same rows.
    pub proof fn lemma_same_chains_same_rows(
        self,
        other: Node,
        prefix: Seq<char>,
        path: Seq<char>,
        i: int,
    )
        requires
            self.wf(),
            other.wf(),
            forall|c: Seq<Seq<char>>| #[trigger] self.has_chain(c) == other.has_chain(c),
        ensures
            self.render_from(prefix, path, i) == other.render_from(prefix, path, i),
        decreases self, self.children.len() - i,
    {
        self.lemma_same_chains_same_top(other);
        if 0 <= i < self.children.len() {
            let a = self.children[i].1;
            let b = other.children[i].1;
            assert(a.wf() && b.wf());
            assert forall|c: Seq<Seq<char>>| #[trigger] a.has_chain(c) == b.has_chain(c) by {
                assert(self.children[i].1.has_chain(c) == other.children[i].1.has_chain(c));
            }
            if a.children.len() > 0 {
                assert(a.has_chain(seq![a.children[0].0@]));
                assert(b.has_chain(seq![a.children[0].0@]));
            }
            if b.children.len() > 0 {
                assert(b.has_chain(seq![b.children[0].0@]));
                assert(a.has_chain(seq![b.children[0].0@]));
            }
            let last = i == self.children.len() - 1;
            let full = join(path, self.children[i].0@);
            a.lemma_same_chains_same_rows(b, prefix + indent(last), full, 0);
            self.lemma_same_chains_same_rows(other, prefix, path, i + 1);
        }
    }
}

} // verus!
