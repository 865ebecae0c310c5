//! Cave paths: counting routes from start to end where small caves are
//! visited at most once (one of them twice, when allowed).

use vstd::prelude::*;
use crate::text::{chars_of, split_on, split_by, string_of_chars, str_eq};

verus! {

/// Why cave text was rejected.
#[derive(Clone, Copy, Debug, PartialEq, Eq, Structural)]
pub enum CaveError {
    InvalidLine,
    NoStart,
}

/// One cave and its tunnels, by node index.
#[derive(Debug, PartialEq, Eq)]
pub struct Node {
    pub name: String,
    pub big: bool,
    pub adj: Vec<usize>,
}

/// The cave system, with the index of the start cave.
#[derive(Debug, PartialEq, Eq)]
pub struct Graph {
    pub nodes: Vec<Node>,
    pub start: usize,
}

/// The caves of a path, as character sequences.
pub open spec fn path_views(p: Seq<String>) -> Seq<Seq<char>> {
    Seq::new(p.len(), |i: int| p[i]@)
}

/// Whether the path already holds a cave of that name.
pub open spec fn path_has(path: Seq<Seq<char>>, n: Seq<char>) -> bool {
    exists|k: int| 0 <= k < path.len() && #[trigger] path[k] == n
}

/// How many small caves the path has not visited yet.
pub open spec fn unused_small(nodes: Seq<Node>, path: Seq<Seq<char>>) -> int
    decreases nodes.len(),
{
    if nodes.len() == 0 {
        0
    } else {
        unused_small(nodes.drop_last(), path) + if !nodes.last().big && !path_has(
            path,
            nodes.last().name@,
        ) {
            1int
        } else {
            0int
        }
    }
}

impl Graph {
    /// Indices in range, distinct cave names, a valid start cave.
    pub open spec fn wf_basic(&self) -> bool {
        &&& self.start < self.nodes@.len()
        &&& forall|i: int, j: int|
            0 <= i < j < self.nodes@.len() ==> (#[trigger] self.nodes@[i]).name@ != (
            #[trigger] self.nodes@[j]).name@
        &&& forall|i: int, k: int|
            0 <= i < self.nodes@.len() && 0 <= k < self.nodes@[i].adj@.len()
                ==> #[trigger] self.nodes@[i].adj@[k] < self.nodes@.len()
    }

    /// No tunnel joins two big caves; without this the path search would
    /// never terminate.
    pub open spec fn no_big_pair(&self) -> bool {
        forall|i: int, k: int|
            0 <= i < self.nodes@.len() && 0 <= k < self.nodes@[i].adj@.len() && self.nodes@[i].big
                ==> !self.nodes@[#[trigger] self.nodes@[i].adj@[k] as int].big
    }
}

proof fn lemma_path_has_push(path: Seq<Seq<char>>, s: Seq<char>, n: Seq<char>)
    ensures
        path_has(path.push(s), n) == (path_has(path, n) || s == n),
{
    if path_has(path.push(s), n) {
        let k = choose|k: int| 0 <= k < path.push(s).len() && #[trigger] path.push(s)[k] == n;
        if k < path.len() {
            assert(path[k] == n);
        }
    }
    if path_has(path, n) {
        let k = choose|k: int| 0 <= k < path.len() && #[trigger] path[k] == n;
        assert(path.push(s)[k] == n);
    }
    if s == n {
        assert(path.push(s)[path.len() as int] == n);
    }
}

/// Pushing a cave's name onto the path uses up that cave if it was a small
/// unvisited one, and nothing else.
proof fn lemma_unused_push(nodes: Seq<Node>, path: Seq<Seq<char>>, vi: int)
    requires
        0 <= vi < nodes.len(),
        forall|i: int, j: int|
            0 <= i < j < nodes.len() ==> (#[trigger] nodes[i]).name@ != (#[trigger] nodes[j]).name@,
    ensures
        unused_small(nodes, path.push(nodes[vi].name@)) == unused_small(nodes, path) - (
        if !nodes[vi].big && !path_has(path, nodes[vi].name@) {
            1int
        } else {
            0int
        }),
    decreases nodes.len(),
{
    let s = nodes[vi].name@;
    lemma_path_has_push(path, s, nodes.last().name@);
    if vi == nodes.len() - 1 {
        lemma_unused_push_absent(nodes.drop_last(), path, s);
    } else {
        lemma_unused_push(nodes.drop_last(), path, vi);
        assert(nodes.last().name@ != nodes[vi].name@);
    }
}

proof fn lemma_unused_push_absent(nodes: Seq<Node>, path: Seq<Seq<char>>, s: Seq<char>)
    requires
        forall|i: int| 0 <= i < nodes.len() ==> (#[trigger] nodes[i]).name@ != s,
    ensures
        unused_small(nodes, path.push(s)) == unused_small(nodes, path),
    decreases nodes.len(),
{
    if nodes.len() > 0 {
        lemma_unused_push_absent(nodes.drop_last(), path, s);
        lemma_path_has_push(path, s, nodes.last().name@);
    }
}

proof fn lemma_unused_nonneg(nodes: Seq<Node>, path: Seq<Seq<char>>)
    ensures
        unused_small(nodes, path) >= 0,
    decreases nodes.len(),
{
    if nodes.len() > 0 {
        lemma_unused_nonneg(nodes.drop_last(), path);
    }
}

impl Node {
    /// A fresh cave: big when its name starts with an upper-case letter.
    pub fn new(name: &str) -> (r: Node)
        requires
            name@.len() > 0,
        ensures
            r.name@ == name@,
            r.big == ('A' <= name@[0] && name@[0] <= 'Z'),
            r.adj@.len() == 0,
    {
        let chars = chars_of(name);
        let first = chars[0];
        let big = 'A' <= first && first <= 'Z';
        Node { name: string_of_chars(&chars), big, adj: Vec::new() }
    }
}

/// Whether a tunnel line is usable: exactly two non-empty names around one
/// dash.
pub open spec fn cave_line_ok(line: Seq<char>) -> bool {
    let parts = split_by(line, seq!['-']);
    parts.len() == 2 && parts[0].len() > 0 && parts[1].len() > 0
}

/// Whether some tunnel line names the given cave.
pub open spec fn lines_name(lines: Seq<Seq<char>>, upto: int, n: Seq<char>) -> bool {
    exists|k: int, p: int|
        0 <= k < upto && 0 <= p < 2 && #[trigger] split_by(lines[k], seq!['-'])[p] == n
}

impl Graph {
    /// Joins two caves with a tunnel in both directions.
    pub fn connect(&mut self, a: usize, b: usize)
        requires
            a < old(self).nodes@.len(),
            b < old(self).nodes@.len(),
        ensures
            final(self).nodes@.len() == old(self).nodes@.len(),
            final(self).start == old(self).start,
            forall|i: int|
                0 <= i < old(self).nodes@.len() && i != a && i != b ==> final(self).nodes@[i]
                    == old(self).nodes@[i],
            a != b ==> final(self).nodes@[a as int].adj@ == old(self).nodes@[a as int].adj@.push(b)
                && final(self).nodes@[b as int].adj@ == old(self).nodes@[b as int].adj@.push(a),
            a == b ==> final(self).nodes@[a as int].adj@ == old(self).nodes@[a as int].adj@.push(
                b,
            ).push(a),
            forall|i: int|
                0 <= i < old(self).nodes@.len() ==> (#[trigger] final(self).nodes@[i]).name@ == old(self).nodes@[i].name@ && final(self).nodes@[i].big == old(self).nodes@[i].big,
    {
        let node_a = &mut self.nodes[a];
        node_a.adj.push(b);
        let node_b = &mut self.nodes[b];
        node_b.adj.push(a);
    }

    /// Index of the cave with the given name, if present.
    fn find_name(&self, name: &Vec<char>) -> (r: Option<usize>)
        ensures
            match r {
                Option::Some(i) => i < self.nodes@.len() && self.nodes@[i as int].name@ == name@,
                Option::None => forall|i: int|
                    0 <= i < self.nodes@.len() ==> (#[trigger] self.nodes@[i]).name@ != name@,
            },
    {
        let s = string_of_chars(name);
        let mut i: usize = 0;
        while i < self.nodes.len()
            invariant
                s@ == name@,
                i <= self.nodes@.len(),
                forall|k: int| 0 <= k < i ==> (#[trigger] self.nodes@[k]).name@ != name@,
            decreases self.nodes@.len() - i,
        {
            if str_eq(self.nodes[i].name.as_str(), s.as_str()) {
                return Some(i);
            }
            i = i + 1;
        }
        None
    }

    /// Parses `a-b` tunnel lines into a cave system rooted at the cave named
    /// `start`.
    #[verifier::rlimit(100)]
    #[verifier::spinoff_prover]
    pub fn parse(lines: &Vec<String>) -> (r: Result<Graph, CaveError>)
        ensures
            ({
                let views = crate::navigation::line_views(lines@);
                match r {
                    Result::Ok(g) => g.wf_basic() && g.nodes@[g.start as int].name@ == "start"@
                        && (forall|k: int|
                        0 <= k < lines@.len() ==> cave_line_ok(#[trigger] views[k])) && lines_name(
                        views,
                        views.len() as int,
                        "start"@,
                    ),
                    Result::Err(CaveError::InvalidLine) => exists|k: int|
                        0 <= k < lines@.len() && !cave_line_ok(#[trigger] views[k]),
                    Result::Err(CaveError::NoStart) => (forall|k: int|
                        0 <= k < lines@.len() ==> cave_line_ok(#[trigger] views[k]))
                        && !lines_name(views, views.len() as int, "start"@),
                }
            }),
    {
        let ghost views = crate::navigation::line_views(lines@);
        let mut g = Graph { nodes: Vec::new(), start: 0 };
        let mut li: usize = 0;
        while li < lines.len()
            invariant
                views == crate::navigation::line_views(lines@),
                views.len() == lines@.len(),
                li <= lines@.len(),
                forall|i: int, j: int|
                    0 <= i < j < g.nodes@.len() ==> (#[trigger] g.nodes@[i]).name@ != (
                    #[trigger] g.nodes@[j]).name@,
                forall|i: int, k: int|
                    0 <= i < g.nodes@.len() && 0 <= k < g.nodes@[i].adj@.len()
                        ==> #[trigger] g.nodes@[i].adj@[k] < g.nodes@.len(),
                forall|i: int| 0 <= i < g.nodes@.len() ==> (#[trigger] g.nodes@[i]).name@.len() > 0,
                forall|k: int| 0 <= k < li ==> cave_line_ok(#[trigger] views[k]),
                forall|i: int|
                    0 <= i < g.nodes@.len() ==> lines_name(
                        views,
                        li as int,
                        (#[trigger] g.nodes@[i]).name@,
                    ),
                forall|k: int, p: int|
                    0 <= k < li && 0 <= p < 2 ==> exists|i: int|
                        0 <= i < g.nodes@.len() && (#[trigger] g.nodes@[i]).name@ == #[trigger] split_by(
                            views[k],
                            seq!['-'],
                        )[p],
            decreases lines@.len() - li,
        {
            proof {
                assert(views[li as int] == lines@[li as int]@);
            }
            let chars = chars_of(lines[li].as_str());
            let mut sep: Vec<char> = Vec::new();
            sep.push('-');
            proof {
                assert(sep@ =~= seq!['-']);
            }
            let parts = split_on(&chars, &sep);
            if parts.len() != 2 {
                return Err(CaveError::InvalidLine);
            }
            proof {
                assert(parts.deep_view()[0] == parts@[0]@);
                assert(parts.deep_view()[1] == parts@[1]@);
            }
            if parts[0].len() == 0 || parts[1].len() == 0 {
                return Err(CaveError::InvalidLine);
            }
            let ghost before_nodes = g.nodes@;
            let ia = g.ensure_node(&parts[0]);
            let ib = g.ensure_node(&parts[1]);
            g.connect(ia, ib);
            proof {
                assert(g.nodes@[ia as int].name@ == split_by(views[li as int], seq!['-'])[0]);
                assert(g.nodes@[ib as int].name@ == split_by(views[li as int], seq!['-'])[1]);
                assert forall|i: int|
                    0 <= i < g.nodes@.len() implies lines_name(
                    views,
                    li + 1,
                    (#[trigger] g.nodes@[i]).name@,
                ) by {
                    if i < before_nodes.len() {
                        assert(g.nodes@[i].name@ == before_nodes[i].name@);
                        let (k, pp) = choose|k: int, p: int|
                            0 <= k < li && 0 <= p < 2 && #[trigger] split_by(views[k], seq!['-'])[p]
                                == before_nodes[i].name@;
                        assert(split_by(views[k], seq!['-'])[pp] == g.nodes@[i].name@);
                    } else if g.nodes@[i].name@ == split_by(views[li as int], seq!['-'])[0] {
                        assert(split_by(views[li as int], seq!['-'])[0] == g.nodes@[i].name@);
                    } else {
                        assert(g.nodes@[i].name@ == split_by(views[li as int], seq!['-'])[1]);
                    }
                }
                assert forall|k: int, p: int|
                    0 <= k < li + 1 && 0 <= p < 2 implies exists|i: int|
                        0 <= i < g.nodes@.len() && (#[trigger] g.nodes@[i]).name@ == #[trigger] split_by(
                        views[k],
                        seq!['-'],
                    )[p] by {
                    if k < li {
                        let i = choose|i: int|
                            0 <= i < before_nodes.len() && (#[trigger] before_nodes[i]).name@
                                == split_by(views[k], seq!['-'])[p];
                        assert(g.nodes@[i].name@ == split_by(views[k], seq!['-'])[p]);
                    } else if p == 0 {
                        assert(g.nodes@[ia as int].name@ == split_by(views[k], seq!['-'])[p]);
                    } else {
                        assert(g.nodes@[ib as int].name@ == split_by(views[k], seq!['-'])[p]);
                    }
                }
            }
            li = li + 1;
        }
        let start_name = chars_of("start");
        match g.find_name(&start_name) {
            Some(i) => {
                g.start = i;
                proof {
                    let (k, pp) = choose|k: int, p: int|
                        0 <= k < lines@.len() && 0 <= p < 2 && #[trigger] split_by(
                            views[k],
                            seq!['-'],
                        )[p] == g.nodes@[i as int].name@;
                    assert(split_by(views[k], seq!['-'])[pp] == "start"@);
                }
                Ok(g)
            },
            None => {
                proof {
                    if lines_name(views, views.len() as int, "start"@) {
                        let (k, pp) = choose|k: int, p: int|
                            0 <= k < views.len() && 0 <= p < 2 && #[trigger] split_by(
                                views[k],
                                seq!['-'],
                            )[p] == "start"@;
                        let i = choose|i: int|
                            0 <= i < g.nodes@.len() && (#[trigger] g.nodes@[i]).name@ == split_by(
                                views[k],
                                seq!['-'],
                            )[pp];
                    }
                }
                Err(CaveError::NoStart)
            },
        }
    }

    /// Index of the cave with the given name, inserting it first if new.
    fn ensure_node(&mut self, name: &Vec<char>) -> (r: usize)
        requires
            name@.len() > 0,
            forall|i: int, j: int|
                0 <= i < j < old(self).nodes@.len() ==> (#[trigger] old(self).nodes@[i]).name@ != (
                #[trigger] old(self).nodes@[j]).name@,
            forall|i: int, k: int|
                0 <= i < old(self).nodes@.len() && 0 <= k < old(self).nodes@[i].adj@.len()
                    ==> #[trigger] old(self).nodes@[i].adj@[k] < old(self).nodes@.len(),
            forall|i: int|
                0 <= i < old(self).nodes@.len() ==> (#[trigger] old(self).nodes@[i]).name@.len()
                    > 0,
        ensures
            r < final(self).nodes@.len(),
            final(self).nodes@[r as int].name@ == name@,
            final(self).start == old(self).start,
            old(self).nodes@.len() <= final(self).nodes@.len() <= old(self).nodes@.len() + 1,
            forall|i: int|
                old(self).nodes@.len() <= i < final(self).nodes@.len()
                    ==> (#[trigger] final(self).nodes@[i]).name@ == name@,
            forall|i: int|
                0 <= i < old(self).nodes@.len() ==> final(self).nodes@[i] == old(self).nodes@[i],
            forall|i: int, j: int|
                0 <= i < j < final(self).nodes@.len() ==> (#[trigger] final(self).nodes@[i]).name@
                    != (#[trigger] final(self).nodes@[j]).name@,
            forall|i: int, k: int|
                0 <= i < final(self).nodes@.len() && 0 <= k < final(self).nodes@[i].adj@.len()
                    ==> #[trigger] final(self).nodes@[i].adj@[k] < final(self).nodes@.len(),
            forall|i: int|
                0 <= i < final(self).nodes@.len() ==> (#[trigger] final(self).nodes@[i]).name@.len()
                    > 0,
    {
        match self.find_name(name) {
            Some(i) => i,
            None => {
                let s = string_of_chars(name);
                let node = Node::new(s.as_str());
                let idx = self.nodes.len();
                self.nodes.push(node);
                idx
            },
        }
    }
}

/// A complete route: it ends at the cave named `end`.
pub open spec fn ends_at_end(p: Seq<String>) -> bool {
    p.len() > 0 && p.last()@ == "end"@
}

/// Copies a path.
fn clone_path(v: &Vec<String>) -> (r: Vec<String>)
    ensures
        path_views(r@) == path_views(v@),
        r@.len() == v@.len(),
{
    let mut r: Vec<String> = Vec::new();
    let mut i: usize = 0;
    while i < v.len()
        invariant
            i <= v@.len(),
            r@.len() == i,
            forall|k: int| 0 <= k < i ==> (#[trigger] r@[k])@ == v@[k]@,
        decreases v@.len() - i,
    {
        r.push(v[i].clone());
        i = i + 1;
    }
    proof {
        assert(path_views(r@) =~= path_views(v@));
    }
    r
}

/// Whether the path visits a cave of the given name.
fn path_contains(v: &Vec<String>, name: &String) -> (r: bool)
    ensures
        r == path_has(path_views(v@), name@),
{
    let mut i: usize = 0;
    while i < v.len()
        invariant
            i <= v@.len(),
            forall|k: int| 0 <= k < i ==> #[trigger] path_views(v@)[k] != name@,
        decreases v@.len() - i,
    {
        if str_eq(v[i].as_str(), name.as_str()) {
            proof {
                assert(path_views(v@)[i as int] == name@);
            }
            return true;
        }
        proof {
            assert(path_views(v@)[i as int] == v@[i as int]@);
        }
        i = i + 1;
    }
    false
}

impl Graph {
    /// Explores every route from `node` to the cave named `end`, never
    /// revisiting a small cave on the current route (allowing one small cave
    /// twice when `allow_once_twice`), and never re-entering `start`; every
    /// route found is appended to `paths`.
    fn find_end(
        &self,
        node: usize,
        paths: &mut Vec<Vec<String>>,
        allow_once_twice: bool,
        current_path: Vec<String>,
    )
        requires
            self.wf_basic(),
            self.no_big_pair(),
            node < self.nodes@.len(),
        ensures
            final(paths)@.len() >= old(paths)@.len(),
            forall|k: int|
                0 <= k < old(paths)@.len() ==> final(paths)@[k] == old(paths)@[k],
            forall|k: int|
                old(paths)@.len() <= k < final(paths)@.len() ==> ends_at_end(
                    (#[trigger] final(paths)@[k])@,
                ),
        decreases
                2 * unused_small(
                    self.nodes@,
                    path_views(current_path@).push(self.nodes@[node as int].name@),
                ) + (if allow_once_twice {
                    2int
                } else {
                    0int
                }) + (if self.nodes@[node as int].big {
                    0int
                } else {
                    1int
                }),
    {
        proof {
            lemma_unused_nonneg(
                self.nodes@,
                path_views(current_path@).push(self.nodes@[node as int].name@),
            );
        }
        let name = self.nodes[node].name.clone();
        if str_eq(name.as_str(), "end") {
            let mut path = clone_path(&current_path);
            let end_name = name;
            path.push(end_name);
            paths.push(path);
            proof {
                assert(final(paths)@.last()@.last()@ == "end"@);
            }
            return ;
        }
        let mut walked = clone_path(&current_path);
        walked.push(name);
        let ghost pv2 = path_views(current_path@).push(self.nodes@[node as int].name@);
        proof {
            assert(path_views(walked@) =~= pv2);
        }
        let ghost entry_len = paths@.len();
        let adj_len = self.nodes[node].adj.len();
        let mut k: usize = 0;
        while k < adj_len
            invariant
                self.wf_basic(),
                self.no_big_pair(),
                node < self.nodes@.len(),
                adj_len == self.nodes@[node as int].adj@.len(),
                k <= adj_len,
                pv2 == path_views(current_path@).push(self.nodes@[node as int].name@),
                path_views(walked@) == pv2,
                paths@.len() >= entry_len,
                forall|x: int| 0 <= x < entry_len ==> paths@[x] == old(paths)@[x],
                entry_len == old(paths)@.len(),
                forall|x: int|
                    entry_len <= x < paths@.len() ==> ends_at_end((#[trigger] paths@[x])@),
            decreases adj_len - k,
        {
            let nb = self.nodes[node].adj[k];
            proof {
                assert(self.nodes@[node as int].adj@[k as int] < self.nodes@.len());
            }
            let nb_name = &self.nodes[nb].name;
            let skip_start = str_eq(nb_name.as_str(), "start");
            if !skip_start {
                let is_big = self.nodes[nb].big;
                let visited = path_contains(&walked, nb_name);
                if is_big || !visited {
                    proof {
                        lemma_unused_push(self.nodes@, pv2, nb as int);
                        lemma_unused_nonneg(self.nodes@, pv2.push(self.nodes@[nb as int].name@));
                        if is_big {
                            assert(!self.nodes@[node as int].big);
                        }
                    }
                    self.find_end(nb, paths, allow_once_twice, clone_path(&walked));
                } else if allow_once_twice {
                    proof {
                        lemma_unused_push(self.nodes@, pv2, nb as int);
                        lemma_unused_nonneg(self.nodes@, pv2.push(self.nodes@[nb as int].name@));
                    }
                    self.find_end(nb, paths, false, clone_path(&walked));
                }
            }
            k = k + 1;
        }
    }

    /// Every route from the start cave to the cave named `end` under the
    /// small-cave rule; each returned route ends at `end`.
    pub fn get_paths(&self, allow_once_twice: bool) -> (r: Vec<Vec<String>>)
        requires
            self.wf_basic(),
            self.no_big_pair(),
        ensures
            forall|k: int| 0 <= k < r@.len() ==> ends_at_end((#[trigger] r@[k])@),
    {
        let mut paths: Vec<Vec<String>> = Vec::new();
        let empty: Vec<String> = Vec::new();
        self.find_end(self.start, &mut paths, allow_once_twice, empty);
        paths
    }
}

} // verus!
