//! Text for showing the directory tree.
use vstd::prelude::*;
use crate::header::{Header, HeaderView, Node, NodeView};

verus! {

/// The repetition of `s`, `n` times.
pub open spec fn repeat(s: Seq<char>, n: nat) -> Seq<char>
    decreases n,
{
    if n == 0 {
        Seq::empty()
    } else {
        repeat(s, (n - 1) as nat) + s
    }
}

/// The indentation of a tree line at depth `level`: nothing for the root,
/// "|-" for its children, and "|-", then "--" for each level past the
/// second, then "> " below that.
pub open spec fn indent(level: nat) -> Seq<char> {
    if level == 0 {
        Seq::empty()
    } else if level == 1 {
        "|-"@
    } else {
        "|-"@ + repeat("--"@, (level - 2) as nat) + "> "@
    }
}

pub fn tab(level: u32) -> (res: String)
    ensures
        res@ == indent(level as nat),
{
    if level == 0 {
        return String::new();
    }
    let mut res = "|-".to_owned();
    let mut i: u32 = 1;
    while i < level - 1
        invariant
            level >= 1,
            1 <= i <= (if level >= 2 { level - 1 } else { 1 }),
            res@ == "|-"@ + repeat("--"@, (i - 1) as nat),
        decreases level - i,
    {
        res = res.concat("--");
        i = i + 1;
    }
    if level != 1 {
        res = res.concat("> ");
    }
    proof {
        if level == 1 {
            assert(repeat("--"@, 0) =~= Seq::<char>::empty());
            assert(res@ =~= "|-"@);
        }
    }
    res
}

/// Every child that a directory lists is a later node of the list, so that
/// walking down the lists of children ends.
pub open spec fn children_forward(h: HeaderView) -> bool {
    forall|i: int, j: int|
        #![trigger h.nodes[i]->Directory_0.children[j]]
        0 <= i < h.nodes.len() && h.nodes[i] is Directory && 0 <= j < h.nodes[i]->Directory_0.children.len()
            ==> i < h.nodes[i]->Directory_0.children[j] < h.nodes.len()
}

/// The lines of the tree shown from node `id` at depth `level`, as pairs of
/// a node id and its depth: the node, then, for a directory, the lines of
/// each of its children in the order it lists them, one level deeper.
pub open spec fn tree_lines(h: HeaderView, id: int, level: int) -> Seq<(u32, u32)>
    decreases h.nodes.len() - id, 1int, 0int,
{
    if 0 <= id < h.nodes.len() {
        seq![(id as u32, level as u32)] + match h.nodes[id] {
            NodeView::Directory(d) => child_lines(h, d.children, id, level + 1, d.children.len()),
            NodeView::File(_) => Seq::empty(),
        }
    } else {
        Seq::empty()
    }
}

/// The lines of the first `k` children `cs` of node `parent`, in order.
pub open spec fn child_lines(h: HeaderView, cs: Seq<u32>, parent: int, level: int, k: nat) -> Seq<(u32, u32)>
    decreases h.nodes.len() - parent, 0int, k,
{
    if k == 0 || k > cs.len() || !(0 <= parent < h.nodes.len()) {
        Seq::empty()
    } else {
        child_lines(h, cs, parent, level, (k - 1) as nat) + if parent < cs[k - 1] < h.nodes.len() {
            tree_lines(h, cs[k - 1] as int, level)
        } else {
            Seq::empty()
        }
    }
}

/// The lines of the first `k` children hold exactly the lines of the trees
/// below each of them.
proof fn lemma_child_lines_members(h: HeaderView, cs: Seq<u32>, parent: int, level: int, k: nat, e: (u32, u32))
    requires
        0 <= parent < h.nodes.len(),
        k <= cs.len(),
    ensures
        child_lines(h, cs, parent, level, k).contains(e) <==> exists|j: int|
            0 <= j < k && parent < cs[j] < h.nodes.len() && #[trigger] tree_lines(h, cs[j] as int, level).contains(e),
    decreases k,
{
    if k > 0 {
        lemma_child_lines_members(h, cs, parent, level, (k - 1) as nat, e);
        let a = child_lines(h, cs, parent, level, (k - 1) as nat);
        let b = if parent < cs[k - 1] < h.nodes.len() {
            tree_lines(h, cs[k - 1] as int, level)
        } else {
            Seq::empty()
        };
        assert(child_lines(h, cs, parent, level, k) == a + b);
        if (a + b).contains(e) {
            let i = choose|i: int| 0 <= i < (a + b).len() && (a + b)[i] == e;
            if i < a.len() {
                assert(a[i] == e);
                assert(a.contains(e));
                let j = choose|j: int|
                    0 <= j < k - 1 && parent < cs[j] < h.nodes.len() && #[trigger] tree_lines(h, cs[j] as int, level).contains(e);
                assert(tree_lines(h, cs[j] as int, level).contains(e));
            } else {
                assert(b[i - a.len()] == e);
                assert(parent < cs[k - 1] < h.nodes.len());
                assert(tree_lines(h, cs[k - 1] as int, level).contains(e));
            }
        }
        if exists|j: int|
            0 <= j < k && parent < cs[j] < h.nodes.len() && #[trigger] tree_lines(h, cs[j] as int, level).contains(e) {
            let j = choose|j: int|
                0 <= j < k && parent < cs[j] < h.nodes.len() && #[trigger] tree_lines(h, cs[j] as int, level).contains(e);
            if j < k - 1 {
                assert(tree_lines(h, cs[j] as int, level).contains(e));
                assert(a.contains(e));
                let i = choose|i: int| 0 <= i < a.len() && a[i] == e;
                assert((a + b)[i] == e);
            } else {
                assert(b == tree_lines(h, cs[j] as int, level));
                let i = choose|i: int| 0 <= i < b.len() && b[i] == e;
                assert((a + b)[a.len() + i] == e);
            }
            assert((a + b).contains(e));
        }
    } else {
        assert(child_lines(h, cs, parent, level, k) =~= Seq::<(u32, u32)>::empty());
    }
}

/// The lines shown from a node of the list start with that node at the
/// depth asked for, whatever the node: a file, an empty directory, or one
/// with children.
pub proof fn lemma_tree_lines_start(h: HeaderView, id: int, level: int)
    requires
        0 <= id < h.nodes.len(),
    ensures
        tree_lines(h, id, level).len() >= 1,
        tree_lines(h, id, level)[0] == (id as u32, level as u32),
{
}

/// Every node that a shown directory lists as a child is shown too, one
/// level deeper than the directory, where the lists of children point
/// forward: no directory reached is left out, empty or not.
pub proof fn lemma_tree_lines_show_children(h: HeaderView, id: int, level: int, x: u32, l: u32, j: int)
    requires
        children_forward(h),
        0 <= id < h.nodes.len(),
        0 <= level,
        h.nodes.len() <= u32::MAX,
        level + (h.nodes.len() - id) <= u32::MAX,
        tree_lines(h, id, level).contains((x, l)),
        x < h.nodes.len(),
        h.nodes[x as int] is Directory,
        0 <= j < h.nodes[x as int]->Directory_0.children.len(),
        l + 1 <= u32::MAX,
    ensures
        tree_lines(h, id, level).contains((h.nodes[x as int]->Directory_0.children[j], (l + 1) as u32)),
    decreases h.nodes.len() - id,
{
    let lines = tree_lines(h, id, level);
    let c = h.nodes[x as int]->Directory_0.children[j];
    let want = (c, (l + 1) as u32);
    assert(x < c < h.nodes.len());
    match h.nodes[id] {
        NodeView::Directory(d) => {
            let rest = child_lines(h, d.children, id, level + 1, d.children.len());
            assert(lines == seq![(id as u32, level as u32)] + rest);
            let i = choose|i: int| 0 <= i < lines.len() && lines[i] == (x, l);
            if i == 0 {
                // The directory shown is `id` itself: its child `c` starts a block of lines.
                assert(x == id as u32);
                assert(x as int == id);
                lemma_tree_lines_start(h, c as int, level + 1);
                assert(l as int == level);
                assert((level + 1) as u32 == (l + 1) as u32);
                assert(tree_lines(h, c as int, level + 1)[0] == want);
                assert(tree_lines(h, c as int, level + 1).contains(want));
                assert(d.children[j] == c);
                lemma_child_lines_members(h, d.children, id, level + 1, d.children.len(), want);
            } else {
                assert(rest[i - 1] == (x, l));
                assert(rest.contains((x, l)));
                lemma_child_lines_members(h, d.children, id, level + 1, d.children.len(), (x, l));
                let k = choose|k: int|
                    0 <= k < d.children.len() && id < d.children[k] < h.nodes.len()
                        && #[trigger] tree_lines(h, d.children[k] as int, level + 1).contains((x, l));
                lemma_tree_lines_show_children(h, d.children[k] as int, level + 1, x, l, j);
                lemma_child_lines_members(h, d.children, id, level + 1, d.children.len(), want);
            }
            let r = choose|r: int| 0 <= r < rest.len() && rest[r] == want;
            assert(lines[r + 1] == want);
        },
        NodeView::File(_) => {
            assert(lines == seq![(id as u32, level as u32)]);
            assert(lines[0] == (x, l));
            assert(h.nodes[x as int] is File);
        },
    }
}

/// The node id and depth of each line of the tree shown from `node_id` at
/// depth `level`, in the order the lines are shown.
pub fn tree_entries(header: &Header, node_id: u32, level: u32) -> (res: Vec<(u32, u32)>)
    requires
        children_forward(header@),
        node_id < header@.nodes.len(),
        level + (header@.nodes.len() - node_id) <= u32::MAX,
    ensures
        res@ == tree_lines(header@, node_id as int, level as int),
{
    let mut out: Vec<(u32, u32)> = Vec::new();
    push_tree_entries(header, node_id, level, &mut out);
    assert(out@ =~= tree_lines(header@, node_id as int, level as int));
    out
}

fn push_tree_entries(header: &Header, node_id: u32, level: u32, out: &mut Vec<(u32, u32)>)
    requires
        children_forward(header@),
        node_id < header@.nodes.len(),
        level + (header@.nodes.len() - node_id) <= u32::MAX,
    ensures
        final(out)@ == old(out)@ + tree_lines(header@, node_id as int, level as int),
    decreases header@.nodes.len() - node_id,
{
    let ghost h = header@;
    let ghost start = out@;
    out.push((node_id, level));
    assert(header.node_buffer@[node_id as int]@ == h.nodes[node_id as int]);
    match &header.node_buffer[node_id as usize] {
        Node::Directory(dir) => {
            let ghost cs = dir.children@;
            assert(h.nodes[node_id as int] == NodeView::Directory(dir@));
            let mut j: usize = 0;
            while j < dir.children.len()
                invariant
                    h == header@,
                    children_forward(h),
                    node_id < h.nodes.len(),
                    level + (h.nodes.len() - node_id) <= u32::MAX,
                    h.nodes[node_id as int] == NodeView::Directory(dir@),
                    cs == dir.children@,
                    j <= cs.len(),
                    out@ == start.push((node_id, level)) + child_lines(h, cs, node_id as int, level + 1, j as nat),
                decreases cs.len() - j,
            {
                let c = dir.children[j];
                assert(node_id < h.nodes[node_id as int]->Directory_0.children[j as int] < h.nodes.len());
                let ghost before = out@;
                push_tree_entries(header, c, level + 1, out);
                j = j + 1;
                assert(out@ =~= start.push((node_id, level)) + child_lines(h, cs, node_id as int, level + 1, j as nat));
            }
            assert(out@ =~= start + tree_lines(h, node_id as int, level as int));
        },
        Node::File(_) => {
            assert(out@ =~= start + tree_lines(h, node_id as int, level as int));
        },
    }
}

/// Whether every child that a directory lists is a later node of the list.
pub fn children_point_forward(header: &Header) -> (res: bool)
    ensures
        res == children_forward(header@),
{
    let ghost h = header@;
    let n = header.node_buffer.len();
    let mut i: usize = 0;
    while i < n
        invariant
            h == header@,
            n == h.nodes.len(),
            i <= n,
            forall|a: int, j: int|
                #![trigger h.nodes[a]->Directory_0.children[j]]
                0 <= a < i && h.nodes[a] is Directory && 0 <= j < h.nodes[a]->Directory_0.children.len()
                    ==> a < h.nodes[a]->Directory_0.children[j] < h.nodes.len(),
        decreases n - i,
    {
        assert(header.node_buffer@[i as int]@ == h.nodes[i as int]);
        if let Node::Directory(dir) = &header.node_buffer[i] {
            let mut j: usize = 0;
            while j < dir.children.len()
                invariant
                    h == header@,
                    n == h.nodes.len(),
                    i < n,
                    h.nodes[i as int] == NodeView::Directory(dir@),
                    j <= dir.children@.len(),
                    forall|a: int, k: int|
                        #![trigger h.nodes[a]->Directory_0.children[k]]
                        0 <= a < i && h.nodes[a] is Directory && 0 <= k < h.nodes[a]->Directory_0.children.len()
                            ==> a < h.nodes[a]->Directory_0.children[k] < h.nodes.len(),
                    forall|k: int| 0 <= k < j ==> i < #[trigger] dir.children@[k] < n,
                decreases dir.children@.len() - j,
            {
                let c = dir.children[j];
                if c as usize <= i || c as usize >= n {
                    assert(h.nodes[i as int]->Directory_0.children[j as int] == c);
                    return false;
                }
                j = j + 1;
            }
            assert forall|a: int, k: int|
                #![trigger h.nodes[a]->Directory_0.children[k]]
                0 <= a < i + 1 && h.nodes[a] is Directory && 0 <= k < h.nodes[a]->Directory_0.children.len()
                    implies a < h.nodes[a]->Directory_0.children[k] < h.nodes.len() by {
                if a == i {
                    assert(h.nodes[a]->Directory_0.children[k] == dir.children@[k]);
                }
            }
        }
        i = i + 1;
    }
    true
}

} // verus!
