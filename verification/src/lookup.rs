//! Path-to-identifier lookup trie.
//!
//! A rooted tree keyed at each edge by one path component. A node optionally
//! stores a [`FileID`]; a file terminates at a node exactly when that node's
//! identifier is set. Directories are implicit: any node with children.
//! Insertion disambiguates colliding terminal names deterministically by
//! appending `"(site N)"`, where `N` is the authoring site.

use vstd::prelude::*;

verus! {

use crate::FileID;
use crate::text::{u32_digits, u32_to_string};
use vstd::string::*;

/// One trie node: an optional terminal identifier plus named children.
pub struct LookupNode {
    pub id: Option<FileID>,
    pub children: Vec<(String, LookupNode)>,
}

/// The lookup trie: a map from component paths to file identifiers.
pub struct IDLookup {
    pub head: LookupNode,
}

/// First child of `s` whose name reads `name`, if any.
pub open spec fn child_get(s: Seq<(String, LookupNode)>, name: Seq<char>) -> Option<LookupNode>
    decreases s.len(),
{
    if s.len() == 0 {
        None
    } else if s[0].0@ == name {
        Some(s[0].1)
    } else {
        child_get(s.drop_first(), name)
    }
}

impl LookupNode {
    /// Child names are distinct at every node.
    pub open spec fn wf(self) -> bool
        decreases self,
    {
        &&& forall|i: int, j: int|
            0 <= i < j < self.children@.len() ==> #[trigger] self.children@[i].0@ != #[trigger] self.children@[j].0@
        &&& forall|i: int|
            #![trigger self.children@[i]]
            0 <= i < self.children@.len() ==> self.children@[i].1.wf()
    }

    /// The identifier stored at the end of `path`, descending one component
    /// per edge; `None` when the path leads nowhere or ends at a node with no
    /// identifier.
    pub open spec fn lookup(self, path: Seq<Seq<char>>) -> Option<FileID>
        decreases path.len(),
    {
        if path.len() == 0 {
            self.id
        } else {
            match child_get(self.children@, path[0]) {
                Some(c) => c.lookup(path.drop_first()),
                None => None,
            }
        }
    }
}

/// The disambiguation suffix appended for the authoring site.
pub open spec fn site_suffix(site_id: u32) -> Seq<char> {
    "(site "@ + u32_digits(site_id) + ")"@
}

/// The `k`-th terminal name tried for a colliding insertion: the original
/// name followed by `k` copies of the site suffix.
pub open spec fn rename_candidate(base: Seq<char>, site_id: u32, k: nat) -> Seq<char>
    decreases k,
{
    if k == 0 {
        base
    } else {
        rename_candidate(base, site_id, (k - 1) as nat) + site_suffix(site_id)
    }
}

/// `name` is the terminal component an insertion of `base` under `parent`
/// settles on: the first rename candidate whose slot carries no identifier.
pub open spec fn chosen_printed(
    n: LookupNode,
    parent: Seq<Seq<char>>,
    base: Seq<char>,
    site_id: u32,
    name: Seq<char>,
) -> bool {
    exists|k: nat|
        name == rename_candidate(base, site_id, k) && n.lookup(parent.push(name)) is None
            && forall|j: nat|
            j < k ==> #[trigger] n.lookup(parent.push(rename_candidate(base, site_id, j))) is Some
}

/// The exec suffix string.
fn site_suffix_string(site_id: u32) -> (s: String)
    ensures
        s@ == site_suffix(site_id),
{
    let mut s = String::from_str("(site ");
    let digits = u32_to_string(site_id);
    s.append(digits.as_str());
    s.append(")");
    s
}

proof fn lemma_site_suffix_len(site_id: u32)
    ensures
        site_suffix(site_id).len() >= 8,
{
    reveal_strlit("(site ");
    reveal_strlit(")");
    crate::text::lemma_u32_digits_len(site_id);
}

proof fn lemma_rename_candidate_len(base: Seq<char>, site_id: u32, k: nat)
    ensures
        rename_candidate(base, site_id, k).len() == base.len() + k * site_suffix(site_id).len(),
    decreases k,
{
    let s = site_suffix(site_id).len();
    if k > 0 {
        lemma_rename_candidate_len(base, site_id, (k - 1) as nat);
        assert((k - 1) * s + s == k * s) by (nonlinear_arith)
            requires
                k >= 1,
        ;
    } else {
        assert(k * s == 0) by (nonlinear_arith)
            requires
                k == 0,
        ;
    }
}

/// Distinct candidate indices give names of distinct lengths, hence distinct
/// names.
proof fn lemma_rename_candidate_distinct(base: Seq<char>, site_id: u32, j: nat, k: nat)
    requires
        j < k,
    ensures
        rename_candidate(base, site_id, j).len() < rename_candidate(base, site_id, k).len(),
{
    lemma_rename_candidate_len(base, site_id, j);
    lemma_rename_candidate_len(base, site_id, k);
    lemma_site_suffix_len(site_id);
    assert(j * site_suffix(site_id).len() < k * site_suffix(site_id).len()) by (nonlinear_arith)
        requires
            j < k,
            site_suffix(site_id).len() >= 1,
    ;
}

/// First index in `s` whose name reads `name`, scanning forward.
fn find_child(node: &LookupNode, name: &String) -> (r: Option<usize>)
    ensures
        match r {
            Some(j) => j < node.children@.len() && node.children@[j as int].0@ == name@ && forall|
                k: int,
            |
                0 <= k < j ==> #[trigger] node.children@[k].0@ != name@,
            None => forall|k: int|
                0 <= k < node.children@.len() ==> #[trigger] node.children@[k].0@ != name@,
        },
{
    let mut j: usize = 0;
    while j < node.children.len()
        invariant
            j <= node.children@.len(),
            forall|k: int| 0 <= k < j ==> #[trigger] node.children@[k].0@ != name@,
        decreases node.children@.len() - j,
    {
        if node.children[j].0 == *name {
            return Some(j);
        }
        j += 1;
    }
    None
}

/// `child_get` returns the entry at the first matching index.
proof fn lemma_child_get_at(s: Seq<(String, LookupNode)>, name: Seq<char>, j: int)
    requires
        0 <= j < s.len(),
        s[j].0@ == name,
        forall|k: int| 0 <= k < j ==> #[trigger] s[k].0@ != name,
    ensures
        child_get(s, name) == Some(s[j].1),
    decreases s.len(),
{
    if j > 0 {
        lemma_child_get_at(s.drop_first(), name, j - 1);
    }
}

/// `child_get` misses exactly when no entry bears the name.
proof fn lemma_child_get_none(s: Seq<(String, LookupNode)>, name: Seq<char>)
    requires
        forall|k: int| 0 <= k < s.len() ==> #[trigger] s[k].0@ != name,
    ensures
        child_get(s, name) is None,
    decreases s.len(),
{
    if s.len() > 0 {
        lemma_child_get_none(s.drop_first(), name);
    }
}

impl IDLookup {
    /// The identifier the trie maps `path` to, if any.
    pub open spec fn spec_get(self, path: Seq<Seq<char>>) -> Option<FileID> {
        self.head.lookup(path)
    }

    pub open spec fn wf(self) -> bool {
        self.head.wf()
    }

    /// An empty trie: no path maps to an identifier.
    pub fn new() -> (r: IDLookup)
        ensures
            r.wf(),
            forall|p: Seq<Seq<char>>| r.spec_get(p) is None,
    {
        let r = IDLookup { head: LookupNode { id: None, children: Vec::new() } };
        proof {
            assert forall|p: Seq<Seq<char>>| r.spec_get(p) is None by {
                lemma_empty_node_lookup(r.head, p);
            }
        }
        r
    }
}

/// Exact-match descent below `node` along `path[i..]`.
fn lookup_at(node: &LookupNode, path: &Vec<String>, i: usize) -> (r: Option<FileID>)
    requires
        i <= path@.len(),
    ensures
        r == node.lookup(path.deep_view().skip(i as int)),
    decreases path@.len() - i,
{
    let ghost sub = path.deep_view().skip(i as int);
    if i == path.len() {
        proof {
            assert(sub =~= Seq::<Seq<char>>::empty());
        }
        node.id
    } else {
        proof {
            assert(sub[0] == path@[i as int]@);
            assert(sub.drop_first() =~= path.deep_view().skip(i as int + 1));
        }
        match find_child(node, &path[i]) {
            Some(j) => {
                proof {
                    lemma_child_get_at(node.children@, path@[i as int]@, j as int);
                }
                lookup_at(&node.children[j].1, path, i + 1)
            },
            None => {
                proof {
                    lemma_child_get_none(node.children@, path@[i as int]@);
                }
                None
            },
        }
    }
}

/// Replacing the entry at a matching index changes `child_get` only for that
/// entry's name.
proof fn lemma_child_get_update(
    s: Seq<(String, LookupNode)>,
    j: int,
    e: (String, LookupNode),
    name: Seq<char>,
)
    requires
        0 <= j < s.len(),
        e.0@ == s[j].0@,
        forall|a: int, b: int| 0 <= a < b < s.len() ==> #[trigger] s[a].0@ != #[trigger] s[b].0@,
    ensures
        child_get(s.update(j, e), name) == if name == s[j].0@ {
            Some(e.1)
        } else {
            child_get(s, name)
        },
    decreases s.len(),
{
    if j == 0 {
        if name == s[0].0@ {
        } else {
            assert(s.update(0, e).drop_first() =~= s.drop_first());
        }
    } else {
        assert(s.update(j, e).drop_first() =~= s.drop_first().update(j - 1, e));
        lemma_child_get_update(s.drop_first(), j - 1, e, name);
    }
}

/// Appending an entry with a fresh name changes `child_get` only for that
/// name.
proof fn lemma_child_get_push(s: Seq<(String, LookupNode)>, e: (String, LookupNode), name: Seq<char>)
    requires
        forall|k: int| 0 <= k < s.len() ==> #[trigger] s[k].0@ != e.0@,
    ensures
        child_get(s.push(e), name) == if name == e.0@ {
            Some(e.1)
        } else {
            child_get(s, name)
        },
    decreases s.len(),
{
    if s.len() == 0 {
        assert(s.push(e)[0] == e);
        assert(s.push(e).drop_first() =~= s);
    } else {
        assert(s.push(e).drop_first() =~= s.drop_first().push(e));
        lemma_child_get_push(s.drop_first(), e, name);
    }
}

/// A one-component path below `n` reads the identifier of the matching child.
proof fn lemma_lookup_cons(n: LookupNode, name: Seq<char>, rest: Seq<Seq<char>>)
    ensures
        n.lookup(seq![name] + rest) == match child_get(n.children@, name) {
            Some(c) => c.lookup(rest),
            None => None::<FileID>,
        },
{
    assert((seq![name] + rest)[0] == name);
    assert((seq![name] + rest).drop_first() =~= rest);
}

/// Longest child name at one node.
pub open spec fn max_name_len(s: Seq<(String, LookupNode)>) -> nat
    decreases s.len(),
{
    if s.len() == 0 {
        0
    } else {
        let m = max_name_len(s.drop_first());
        if s[0].0@.len() >= m {
            s[0].0@.len()
        } else {
            m
        }
    }
}

proof fn lemma_max_name_len(s: Seq<(String, LookupNode)>, k: int)
    requires
        0 <= k < s.len(),
    ensures
        s[k].0@.len() <= max_name_len(s),
    decreases s.len(),
{
    if k > 0 {
        lemma_max_name_len(s.drop_first(), k - 1);
    }
}

/// Probe metric for the collision loop: how far the current candidate's
/// length still is from exceeding every child name.
pub open spec fn probe_measure(
    s: Seq<(String, LookupNode)>,
    base: Seq<char>,
    site_id: u32,
    k: nat,
) -> int {
    let cl = rename_candidate(base, site_id, k).len();
    let m = max_name_len(s);
    if cl <= m {
        m + 1 - cl
    } else {
        0
    }
}

/// After appending a child with a fresh name, only the path to that child's
/// identifier changes.
proof fn lemma_install_push(orig: LookupNode, fin: LookupNode, pushed: (String, LookupNode))
    requires
        orig.wf(),
        fin.id == orig.id,
        fin.children@ == orig.children@.push(pushed),
        forall|k: int|
            0 <= k < orig.children@.len() ==> #[trigger] orig.children@[k].0@ != pushed.0@,
        pushed.1.children@.len() == 0,
    ensures
        fin.wf(),
        forall|q: Seq<Seq<char>>|
            #[trigger] fin.lookup(q) == if q == seq![pushed.0@] {
                pushed.1.id
            } else {
                orig.lookup(q)
            },
{
    assert(pushed.1.wf());
    assert forall|a: int, b: int|
        0 <= a < b < fin.children@.len() implies #[trigger] fin.children@[a].0@
        != #[trigger] fin.children@[b].0@ by {
        if b < orig.children@.len() {
            assert(orig.children@[a].0@ != orig.children@[b].0@);
        }
    }
    assert forall|q: Seq<Seq<char>>|
        #[trigger] fin.lookup(q) == if q == seq![pushed.0@] {
            pushed.1.id
        } else {
            orig.lookup(q)
        } by {
        if q.len() == 0 {
            assert(seq![pushed.0@].len() == 1);
            assert(q != seq![pushed.0@]);
            assert(fin.lookup(q) == fin.id);
            assert(orig.lookup(q) == orig.id);
        } else {
            lemma_child_get_push(orig.children@, pushed, q[0]);
            assert(seq![q[0]] + q.drop_first() =~= q);
            lemma_lookup_cons(fin, q[0], q.drop_first());
            lemma_lookup_cons(orig, q[0], q.drop_first());
            assert(fin.lookup(q) == match child_get(fin.children@, q[0]) {
                Some(c) => c.lookup(q.drop_first()),
                None => None::<FileID>,
            });
            assert(orig.lookup(q) == match child_get(orig.children@, q[0]) {
                Some(c) => c.lookup(q.drop_first()),
                None => None::<FileID>,
            });
            if q[0] == pushed.0@ {
                assert(child_get(fin.children@, q[0]) == Some(pushed.1));
                if q.drop_first().len() == 0 {
                    assert(q =~= seq![pushed.0@]);
                    assert(fin.lookup(q) == pushed.1.id);
                } else {
                    assert(seq![pushed.0@].len() == 1);
                    assert(q != seq![pushed.0@]);
                    lemma_empty_children_lookup(pushed.1, q.drop_first());
                    assert(fin.lookup(q) is None);
                    lemma_child_get_none(orig.children@, q[0]);
                    assert(orig.lookup(q) is None);
                }
            } else {
                assert(q != seq![pushed.0@]);
                assert(child_get(fin.children@, q[0]) == child_get(orig.children@, q[0]));
            }
        }
    }
}

/// After replacing one child's identifier (children kept), only the path to
/// that child's identifier changes.
proof fn lemma_install_update(orig: LookupNode, fin: LookupNode, j: int, entry: (String, LookupNode))
    requires
        orig.wf(),
        0 <= j < orig.children@.len(),
        fin.id == orig.id,
        fin.children@ == orig.children@.update(j, entry),
        entry.0 == orig.children@[j].0,
        entry.1.children == orig.children@[j].1.children,
    ensures
        fin.wf(),
        forall|q: Seq<Seq<char>>|
            #[trigger] fin.lookup(q) == if q == seq![entry.0@] {
                entry.1.id
            } else {
                orig.lookup(q)
            },
{
    let c = orig.children@[j].1;
    assert(orig.children@[j].1.wf());
    assert(c.wf());
    assert(entry.1.wf());
    assert forall|a: int, b: int|
        0 <= a < b < fin.children@.len() implies #[trigger] fin.children@[a].0@
        != #[trigger] fin.children@[b].0@ by {
        assert(orig.children@[a].0@ != orig.children@[b].0@);
    }
    assert forall|i: int| 0 <= i < fin.children@.len() implies #[trigger] fin.children@[i].1.wf() by {
        if i != j {
            assert(fin.children@[i].1 == orig.children@[i].1);
            assert(orig.children@[i].1.wf());
        }
    }
    assert forall|q: Seq<Seq<char>>|
        #[trigger] fin.lookup(q) == if q == seq![entry.0@] {
            entry.1.id
        } else {
            orig.lookup(q)
        } by {
        if q.len() == 0 {
            assert(seq![entry.0@].len() == 1);
            assert(q != seq![entry.0@]);
            assert(fin.lookup(q) == fin.id);
            assert(orig.lookup(q) == orig.id);
        } else {
            lemma_child_get_update(orig.children@, j, entry, q[0]);
            assert(seq![q[0]] + q.drop_first() =~= q);
            lemma_lookup_cons(fin, q[0], q.drop_first());
            lemma_lookup_cons(orig, q[0], q.drop_first());
            assert(fin.lookup(q) == match child_get(fin.children@, q[0]) {
                Some(cc) => cc.lookup(q.drop_first()),
                None => None::<FileID>,
            });
            assert(orig.lookup(q) == match child_get(orig.children@, q[0]) {
                Some(cc) => cc.lookup(q.drop_first()),
                None => None::<FileID>,
            });
            if q[0] == entry.0@ {
                assert(child_get(fin.children@, q[0]) == Some(entry.1));
                lemma_child_get_at(orig.children@, q[0], j);
                assert(child_get(orig.children@, q[0]) == Some(c));
                if q.drop_first().len() == 0 {
                    assert(q =~= seq![entry.0@]);
                    assert(fin.lookup(q) == entry.1.id);
                } else {
                    assert(seq![entry.0@].len() == 1);
                    assert(q != seq![entry.0@]);
                    lemma_lookup_same_children(entry.1, c, q.drop_first());
                    assert(fin.lookup(q) == orig.lookup(q));
                }
            } else {
                assert(q != seq![entry.0@]);
                assert(child_get(fin.children@, q[0]) == child_get(orig.children@, q[0]));
            }
        }
    }
}

/// The loop's probe facts amount to `chosen_printed` with an empty parent.
proof fn lemma_chosen_here(orig: LookupNode, base: Seq<char>, site_id: u32, k: nat, name: Seq<char>)
    requires
        name == rename_candidate(base, site_id, k),
        orig.lookup(seq![name]) is None,
        forall|j: nat|
            j < k ==> #[trigger] orig.lookup(seq![rename_candidate(base, site_id, j)]) is Some,
    ensures
        chosen_printed(orig, Seq::empty(), base, site_id, name),
{
    assert(Seq::empty().push(name) =~= seq![name]);
    assert forall|j: nat| j < k implies #[trigger] orig.lookup(
        Seq::empty().push(rename_candidate(base, site_id, j)),
    ) is Some by {
        assert(Seq::empty().push(rename_candidate(base, site_id, j)) =~= seq![
            rename_candidate(base, site_id, j),
        ]);
    }
}

/// Installs `id` under the first free rename candidate of `base` directly
/// below `node`, and returns the terminal name used.
fn install_at(node: &mut LookupNode, base: &String, id: FileID, site_id: u32) -> (printed: String)
    requires
        old(node).wf(),
    ensures
        final(node).wf(),
        final(node).id == old(node).id,
        chosen_printed(*old(node), Seq::empty(), base@, site_id, printed@),
        forall|q: Seq<Seq<char>>|
            #[trigger] final(node).lookup(q) == if q == seq![printed@] {
                Some(id)
            } else {
                old(node).lookup(q)
            },
{
    let suffix = site_suffix_string(site_id);
    let mut name: String = base.clone();
    let ghost mut k: nat = 0;
    let ghost orig = *node;
    loop
        invariant
            *node == orig,
            orig == *old(node),
            orig.wf(),
            suffix@ == site_suffix(site_id),
            name@ == rename_candidate(base@, site_id, k),
            forall|j: nat|
                j < k ==> #[trigger] orig.lookup(seq![rename_candidate(base@, site_id, j)]) is Some,
        decreases probe_measure(orig.children@, base@, site_id, k),
    {
        match find_child(node, &name) {
            None => {
                proof {
                    lemma_child_get_none(orig.children@, name@);
                    lemma_lookup_cons(orig, name@, Seq::empty());
                    assert(seq![name@] + Seq::<Seq<char>>::empty() =~= seq![name@]);
                    assert(orig.lookup(seq![name@]) is None);
                }
                let mut child = LookupNode::new();
                child.id = Some(id);
                let new_entry = (name.clone(), child);
                let ghost pushed = new_entry;
                node.children.push(new_entry);
                proof {
                    lemma_install_push(orig, *node, pushed);
                    lemma_chosen_here(orig, base@, site_id, k, name@);
                }
                return name;
            },
            Some(j) => {
                proof {
                    lemma_child_get_at(orig.children@, name@, j as int);
                    lemma_lookup_cons(orig, name@, Seq::empty());
                    assert(seq![name@] + Seq::<Seq<char>>::empty() =~= seq![name@]);
                }
                if node.children[j].1.id.is_none() {
                    proof {
                        assert(orig.lookup(seq![name@]) is None);
                    }
                    let mut entry = node.children.remove(j);
                    entry.1.id = Some(id);
                    let ghost entry_g = entry;
                    node.children.insert(j, entry);
                    proof {
                        assert((*node).children@ =~= orig.children@.update(j as int, entry_g));
                        lemma_install_update(orig, *node, j as int, entry_g);
                        lemma_chosen_here(orig, base@, site_id, k, name@);
                    }
                    return name;
                } else {
                    proof {
                        assert(orig.lookup(seq![name@]) is Some);
                        lemma_max_name_len(orig.children@, j as int);
                        lemma_rename_candidate_distinct(base@, site_id, k, k + 1);
                        k = k + 1;
                    }
                    name.append(suffix.as_str());
                }
            },
        }
    }
}


/// A node with no children answers one-or-more-component paths with `None`.
proof fn lemma_empty_children_lookup(n: LookupNode, p: Seq<Seq<char>>)
    requires
        n.children@.len() == 0,
        p.len() > 0,
    ensures
        n.lookup(p) is None,
{
}

/// Paths of one or more components never read a node's own identifier.
proof fn lemma_lookup_same_children(a: LookupNode, b: LookupNode, p: Seq<Seq<char>>)
    requires
        a.children == b.children,
        p.len() > 0,
    ensures
        a.lookup(p) == b.lookup(p),
{
}

impl IDLookup {
    /// Exact-match descent; `None` when any intermediate node is missing or
    /// the leaf carries no identifier.
    pub fn get_id_for(&self, path: &Vec<String>) -> (r: Option<FileID>)
        ensures
            r == self.spec_get(path.deep_view()),
    {
        let r = lookup_at(&self.head, path, 0);
        proof {
            assert(path.deep_view().skip(0) =~= path.deep_view());
        }
        r
    }
}

proof fn lemma_empty_node_lookup(n: LookupNode, p: Seq<Seq<char>>)
    requires
        n.id is None,
        n.children@.len() == 0,
    ensures
        n.lookup(p) is None,
{
}

impl LookupNode {
    /// A fresh node with no identifier and no children.
    pub fn new() -> (r: LookupNode)
        ensures
            r.id is None,
            r.children@.len() == 0,
            r.wf(),
    {
        LookupNode { id: None, children: Vec::new() }
    }
}

/// Lifts a child's path-update to its parent: only paths through that child
/// change, at the child's name prepended to the child-relative target.
proof fn lemma_descend_update(
    mid: LookupNode,
    fin: LookupNode,
    j: int,
    cfin: LookupNode,
    target1: Seq<Seq<char>>,
    id: FileID,
)
    requires
        mid.wf(),
        0 <= j < mid.children@.len(),
        fin.id == mid.id,
        fin.children@ == mid.children@.update(j, (mid.children@[j].0, cfin)),
        cfin.wf(),
        forall|q1: Seq<Seq<char>>|
            #[trigger] cfin.lookup(q1) == if q1 == target1 {
                Some(id)
            } else {
                mid.children@[j].1.lookup(q1)
            },
    ensures
        fin.wf(),
        forall|q: Seq<Seq<char>>|
            #[trigger] fin.lookup(q) == if q == seq![mid.children@[j].0@] + target1 {
                Some(id)
            } else {
                mid.lookup(q)
            },
{
    let c = mid.children@[j].1;
    let name = mid.children@[j].0@;
    let entry = (mid.children@[j].0, cfin);
    let target = seq![name] + target1;
    assert(target[0] == name);
    assert(target.drop_first() =~= target1);
    assert forall|a: int, b: int|
        0 <= a < b < fin.children@.len() implies #[trigger] fin.children@[a].0@
        != #[trigger] fin.children@[b].0@ by {
        assert(mid.children@[a].0@ != mid.children@[b].0@);
    }
    assert forall|i: int|
        #![trigger fin.children@[i]]
        0 <= i < fin.children@.len() implies fin.children@[i].1.wf() by {
        if i != j {
            assert(fin.children@[i] == mid.children@[i]);
        }
    }
    assert forall|q: Seq<Seq<char>>|
        #[trigger] fin.lookup(q) == if q == target {
            Some(id)
        } else {
            mid.lookup(q)
        } by {
        if q.len() == 0 {
            assert(q != target);
            assert(fin.lookup(q) == fin.id);
            assert(mid.lookup(q) == mid.id);
        } else {
            lemma_child_get_update(mid.children@, j, entry, q[0]);
            assert(seq![q[0]] + q.drop_first() =~= q);
            lemma_lookup_cons(fin, q[0], q.drop_first());
            lemma_lookup_cons(mid, q[0], q.drop_first());
            assert(fin.lookup(q) == match child_get(fin.children@, q[0]) {
                Some(cc) => cc.lookup(q.drop_first()),
                None => None::<FileID>,
            });
            assert(mid.lookup(q) == match child_get(mid.children@, q[0]) {
                Some(cc) => cc.lookup(q.drop_first()),
                None => None::<FileID>,
            });
            if q[0] == name {
                assert(child_get(fin.children@, q[0]) == Some(cfin));
                lemma_child_get_at(mid.children@, q[0], j);
                assert(child_get(mid.children@, q[0]) == Some(c));
                if q.drop_first() == target1 {
                    assert(q =~= target);
                    assert(fin.lookup(q) == Some(id));
                } else {
                    assert(q != target);
                    assert(fin.lookup(q) == c.lookup(q.drop_first()));
                }
            } else {
                assert(q != target);
                assert(child_get(fin.children@, q[0]) == child_get(mid.children@, q[0]));
            }
        }
    }
}

/// Two nodes whose lookups agree everywhere settle on the same printed name.
proof fn lemma_chosen_transfer(
    a: LookupNode,
    b: LookupNode,
    parent: Seq<Seq<char>>,
    base: Seq<char>,
    site_id: u32,
    printed: Seq<char>,
)
    requires
        forall|q: Seq<Seq<char>>| #[trigger] a.lookup(q) == b.lookup(q),
        chosen_printed(a, parent, base, site_id, printed),
    ensures
        chosen_printed(b, parent, base, site_id, printed),
{
    let k = choose|k: nat|
        printed == rename_candidate(base, site_id, k) && a.lookup(parent.push(printed)) is None
            && forall|j: nat|
            j < k ==> #[trigger] a.lookup(parent.push(rename_candidate(base, site_id, j))) is Some;
    assert(b.lookup(parent.push(printed)) is None);
    assert forall|j: nat| j < k implies #[trigger] b.lookup(
        parent.push(rename_candidate(base, site_id, j)),
    ) is Some by {
        assert(a.lookup(parent.push(rename_candidate(base, site_id, j))) is Some);
    }
}

/// Lifts a choice of printed name from a child to its parent.
proof fn lemma_chosen_lift(
    mid: LookupNode,
    c: LookupNode,
    name: Seq<char>,
    parent: Seq<Seq<char>>,
    base: Seq<char>,
    site_id: u32,
    printed: Seq<char>,
)
    requires
        chosen_printed(c, parent, base, site_id, printed),
        child_get(mid.children@, name) == Some(c),
    ensures
        chosen_printed(mid, seq![name] + parent, base, site_id, printed),
{
    let k = choose|k: nat|
        printed == rename_candidate(base, site_id, k) && c.lookup(parent.push(printed)) is None
            && forall|j: nat|
            j < k ==> #[trigger] c.lookup(parent.push(rename_candidate(base, site_id, j))) is Some;
    lemma_lookup_cons(mid, name, parent.push(printed));
    assert((seq![name] + parent).push(printed) =~= seq![name] + parent.push(printed));
    assert(mid.lookup((seq![name] + parent).push(printed)) is None);
    assert forall|j: nat| j < k implies #[trigger] mid.lookup(
        (seq![name] + parent).push(rename_candidate(base, site_id, j)),
    ) is Some by {
        let cand = rename_candidate(base, site_id, j);
        lemma_lookup_cons(mid, name, parent.push(cand));
        assert((seq![name] + parent).push(cand) =~= seq![name] + parent.push(cand));
        assert(c.lookup(parent.push(cand)) is Some);
    }
}

/// Descends below `node` along `path[i..]`, creating intermediate nodes, and
/// installs `id` at the first free rename candidate of the terminal name.
fn add_at(node: &mut LookupNode, path: &Vec<String>, i: usize, id: FileID, site_id: u32) -> (printed:
    String)
    requires
        old(node).wf(),
        i < path@.len(),
    ensures
        final(node).wf(),
        final(node).id == old(node).id,
        chosen_printed(
            *old(node),
            path.deep_view().skip(i as int).drop_last(),
            path.deep_view().last(),
            site_id,
            printed@,
        ),
        forall|q: Seq<Seq<char>>|
            #[trigger] final(node).lookup(q) == if q == path.deep_view().skip(
                i as int,
            ).drop_last().push(printed@) {
                Some(id)
            } else {
                old(node).lookup(q)
            },
    decreases path@.len() - i,
{
    let ghost dv = path.deep_view();
    let ghost sub = dv.skip(i as int);
    proof {
        assert(dv[path@.len() - 1] == path@[path@.len() - 1]@);
        assert(dv[i as int] == path@[i as int]@);
    }
    let n = path.len();
    if i == n - 1 {
        let printed = install_at(node, &path[i], id, site_id);
        proof {
            assert(sub.drop_last() =~= Seq::<Seq<char>>::empty());
            assert(dv.last() == path@[i as int]@);
            assert(Seq::<Seq<char>>::empty().push(printed@) =~= seq![printed@]);
        }
        printed
    } else {
        let ghost orig = *node;
        let j: usize;
        match find_child(node, &path[i]) {
            Some(jj) => {
                j = jj;
                proof {
                    lemma_child_get_at(orig.children@, path@[i as int]@, j as int);
                }
            },
            None => {
                let new_entry = (path[i].clone(), LookupNode::new());
                let ghost pushed = new_entry;
                node.children.push(new_entry);
                j = node.children.len() - 1;
                proof {
                    lemma_child_get_none(orig.children@, path@[i as int]@);
                    lemma_install_push(orig, *node, pushed);
                    assert forall|q: Seq<Seq<char>>| #[trigger] (*node).lookup(q) == orig.lookup(
                        q,
                    ) by {
                        if q == seq![pushed.0@] {
                            lemma_lookup_cons(orig, pushed.0@, Seq::empty());
                            assert(seq![pushed.0@] + Seq::<Seq<char>>::empty() =~= seq![
                                pushed.0@,
                            ]);
                        }
                    }
                }
            },
        }
        let ghost mid = *node;
        proof {
            assert(mid.children@[j as int].0@ == path@[i as int]@);
            assert(mid.children@[j as int].1.wf());
        }
        let mut entry = node.children.remove(j);
        let printed = add_at(&mut entry.1, path, i + 1, id, site_id);
        let ghost centry = entry;
        node.children.insert(j, entry);
        proof {
            let c = mid.children@[j as int].1;
            let name = path@[i as int]@;
            let target1 = dv.skip(i as int + 1).drop_last().push(printed@);
            assert((*node).children@ =~= mid.children@.update(
                j as int,
                (mid.children@[j as int].0, centry.1),
            ));
            lemma_descend_update(mid, *node, j as int, centry.1, target1, id);
            // the frame's target is the child's target behind this component
            assert(sub =~= seq![name] + dv.skip(i as int + 1));
            assert(dv.skip(i as int + 1).len() >= 1);
            assert(sub.drop_last() =~= seq![name] + dv.skip(i as int + 1).drop_last());
            assert(sub.drop_last().push(printed@) =~= seq![name] + target1);
            // printed is chosen against the original node
            lemma_child_get_at(mid.children@, name, j as int);
            lemma_chosen_lift(
                mid,
                c,
                name,
                dv.skip(i as int + 1).drop_last(),
                dv.last(),
                site_id,
                printed@,
            );
            assert(seq![name] + dv.skip(i as int + 1).drop_last() =~= sub.drop_last());
            lemma_chosen_transfer(mid, orig, sub.drop_last(), dv.last(), site_id, printed@);
            assert forall|q: Seq<Seq<char>>|
                #[trigger] (*node).lookup(q) == if q == sub.drop_last().push(printed@) {
                    Some(id)
                } else {
                    orig.lookup(q)
                } by {
                assert((*node).lookup(q) == if q == seq![name] + target1 {
                    Some(id)
                } else {
                    mid.lookup(q)
                });
            }
        }
        printed
    }
}

impl IDLookup {
    /// Descends along `path`, creating intermediate nodes, and installs `id`
    /// at the first free rename candidate of the terminal component, derived
    /// by appending `"(site N)"` for the authoring site. Returns the terminal
    /// name actually used. Parent components are never renamed.
    pub fn add_file(&mut self, path: &Vec<String>, id: FileID, site_id: u32) -> (printed: String)
        requires
            old(self).wf(),
            path@.len() > 0,
        ensures
            final(self).wf(),
            chosen_printed(
                old(self).head,
                path.deep_view().drop_last(),
                path.deep_view().last(),
                site_id,
                printed@,
            ),
            old(self).spec_get(path.deep_view().drop_last().push(printed@)) is None,
            forall|q: Seq<Seq<char>>|
                #[trigger] final(self).spec_get(q) == if q == path.deep_view().drop_last().push(
                    printed@,
                ) {
                    Some(id)
                } else {
                    old(self).spec_get(q)
                },
    {
        let printed = add_at(&mut self.head, path, 0, id, site_id);
        proof {
            assert(path.deep_view().skip(0) =~= path.deep_view());
            let k = choose|k: nat|
                printed@ == rename_candidate(path.deep_view().last(), site_id, k) && old(
                    self,
                ).head.lookup(path.deep_view().drop_last().push(printed@)) is None;
        }
        printed
    }
}

/// Dropping the entry at a matching index changes `child_get` only for that
/// entry's name, which then misses.
proof fn lemma_child_get_remove(s: Seq<(String, LookupNode)>, j: int, name: Seq<char>)
    requires
        0 <= j < s.len(),
        forall|a: int, b: int| 0 <= a < b < s.len() ==> #[trigger] s[a].0@ != #[trigger] s[b].0@,
    ensures
        child_get(s.remove(j), name) == if name == s[j].0@ {
            None
        } else {
            child_get(s, name)
        },
    decreases s.len(),
{
    if j == 0 {
        assert(s.remove(0) =~= s.drop_first());
        if name == s[0].0@ {
            assert forall|k: int|
                0 <= k < s.drop_first().len() implies #[trigger] s.drop_first()[k].0@ != name by {
                assert(s.drop_first()[k] == s[k + 1]);
            }
            lemma_child_get_none(s.drop_first(), name);
        }
    } else {
        assert(s.remove(j).drop_first() =~= s.drop_first().remove(j - 1));
        lemma_child_get_remove(s.drop_first(), j - 1, name);
    }
}

/// Dropping one child keeps the remaining children distinct and well-formed.
proof fn lemma_wf_remove_child(a: LookupNode, b: LookupNode, j: int)
    requires
        a.wf(),
        0 <= j < a.children@.len(),
        b.id == a.id,
        b.children@ == a.children@.remove(j),
    ensures
        b.wf(),
{
    assert forall|x: int, y: int|
        0 <= x < y < b.children@.len() implies #[trigger] b.children@[x].0@
        != #[trigger] b.children@[y].0@ by {
        let x0 = if x < j { x } else { x + 1 };
        let y0 = if y < j { y } else { y + 1 };
        assert(b.children@[x] == a.children@[x0]);
        assert(b.children@[y] == a.children@[y0]);
        assert(a.children@[x0].0@ != a.children@[y0].0@);
    }
    assert forall|i: int|
        #![trigger b.children@[i]]
        0 <= i < b.children@.len() implies b.children@[i].1.wf() by {
        let i0 = if i < j { i } else { i + 1 };
        assert(b.children@[i] == a.children@[i0]);
        assert(a.children@[i0].1.wf());
    }
}

/// Lifts a child's cleared path to its parent when the child stays in place.
proof fn lemma_clear_update(
    mid: LookupNode,
    fin: LookupNode,
    j: int,
    cfin: LookupNode,
    target1: Seq<Seq<char>>,
)
    requires
        mid.wf(),
        0 <= j < mid.children@.len(),
        fin.id == mid.id,
        fin.children@ == mid.children@.update(j, (mid.children@[j].0, cfin)),
        cfin.wf(),
        forall|q1: Seq<Seq<char>>|
            #[trigger] cfin.lookup(q1) == if q1 == target1 {
                None
            } else {
                mid.children@[j].1.lookup(q1)
            },
    ensures
        fin.wf(),
        forall|q: Seq<Seq<char>>|
            #[trigger] fin.lookup(q) == if q == seq![mid.children@[j].0@] + target1 {
                None
            } else {
                mid.lookup(q)
            },
{
    let c = mid.children@[j].1;
    let name = mid.children@[j].0@;
    let entry = (mid.children@[j].0, cfin);
    let target = seq![name] + target1;
    assert(target[0] == name);
    assert(target.drop_first() =~= target1);
    assert forall|a: int, b: int|
        0 <= a < b < fin.children@.len() implies #[trigger] fin.children@[a].0@
        != #[trigger] fin.children@[b].0@ by {
        assert(mid.children@[a].0@ != mid.children@[b].0@);
    }
    assert forall|i: int|
        #![trigger fin.children@[i]]
        0 <= i < fin.children@.len() implies fin.children@[i].1.wf() by {
        if i != j {
            assert(fin.children@[i] == mid.children@[i]);
        }
    }
    assert forall|q: Seq<Seq<char>>|
        #[trigger] fin.lookup(q) == if q == target {
            None
        } else {
            mid.lookup(q)
        } by {
        if q.len() == 0 {
            assert(q != target);
            assert(fin.lookup(q) == fin.id);
            assert(mid.lookup(q) == mid.id);
        } else {
            lemma_child_get_update(mid.children@, j, entry, q[0]);
            assert(seq![q[0]] + q.drop_first() =~= q);
            lemma_lookup_cons(fin, q[0], q.drop_first());
            lemma_lookup_cons(mid, q[0], q.drop_first());
            if q[0] == name {
                assert(child_get(fin.children@, q[0]) == Some(cfin));
                lemma_child_get_at(mid.children@, q[0], j);
                if q.drop_first() == target1 {
                    assert(q =~= target);
                } else {
                    assert(q != target);
                    assert(cfin.lookup(q.drop_first()) == c.lookup(q.drop_first()));
                }
            } else {
                assert(q != target);
                assert(child_get(fin.children@, q[0]) == child_get(mid.children@, q[0]));
            }
        }
    }
}

/// Lifts a child's cleared path to its parent when the now-empty child is
/// pruned away.
proof fn lemma_clear_prune(
    mid: LookupNode,
    fin: LookupNode,
    j: int,
    cfin: LookupNode,
    target1: Seq<Seq<char>>,
)
    requires
        mid.wf(),
        0 <= j < mid.children@.len(),
        fin.id == mid.id,
        fin.children@ == mid.children@.remove(j),
        cfin.id is None,
        cfin.children@.len() == 0,
        forall|q1: Seq<Seq<char>>|
            #[trigger] cfin.lookup(q1) == if q1 == target1 {
                None
            } else {
                mid.children@[j].1.lookup(q1)
            },
    ensures
        fin.wf(),
        forall|q: Seq<Seq<char>>|
            #[trigger] fin.lookup(q) == if q == seq![mid.children@[j].0@] + target1 {
                None
            } else {
                mid.lookup(q)
            },
{
    let c = mid.children@[j].1;
    let name = mid.children@[j].0@;
    let target = seq![name] + target1;
    assert(target[0] == name);
    assert(target.drop_first() =~= target1);
    lemma_wf_remove_child(mid, fin, j);
    assert forall|q: Seq<Seq<char>>|
        #[trigger] fin.lookup(q) == if q == target {
            None
        } else {
            mid.lookup(q)
        } by {
        if q.len() == 0 {
            assert(q != target);
            assert(fin.lookup(q) == fin.id);
            assert(mid.lookup(q) == mid.id);
        } else {
            lemma_child_get_remove(mid.children@, j, q[0]);
            assert(seq![q[0]] + q.drop_first() =~= q);
            lemma_lookup_cons(fin, q[0], q.drop_first());
            lemma_lookup_cons(mid, q[0], q.drop_first());
            if q[0] == name {
                assert(child_get(fin.children@, q[0]) is None);
                lemma_child_get_at(mid.children@, q[0], j);
                assert(fin.lookup(q) is None);
                assert(mid.lookup(q) == c.lookup(q.drop_first()));
                if q.drop_first() == target1 {
                    assert(q =~= target);
                } else {
                    assert(q != target);
                    assert(c.lookup(q.drop_first()) == cfin.lookup(q.drop_first()));
                    lemma_empty_node_lookup(cfin, q.drop_first());
                }
            } else {
                assert(q != target);
                assert(child_get(fin.children@, q[0]) == child_get(mid.children@, q[0]));
            }
        }
    }
}

/// Clears the identifier at the end of `path[i..]` below `node`, pruning
/// nodes left with no identifier and no children.
fn remove_at(node: &mut LookupNode, path: &Vec<String>, i: usize) -> (r: Option<FileID>)
    requires
        old(node).wf(),
        i <= path@.len(),
    ensures
        final(node).wf(),
        final(node).id == if i == path@.len() {
            None::<FileID>
        } else {
            old(node).id
        },
        r == old(node).lookup(path.deep_view().skip(i as int)),
        forall|q: Seq<Seq<char>>|
            #[trigger] final(node).lookup(q) == if q == path.deep_view().skip(i as int) {
                None
            } else {
                old(node).lookup(q)
            },
    decreases path@.len() - i,
{
    let ghost dv = path.deep_view();
    let ghost sub = dv.skip(i as int);
    let ghost orig = *node;
    if i == path.len() {
        let r = node.id;
        node.id = None;
        proof {
            assert(sub =~= Seq::<Seq<char>>::empty());
            assert forall|q: Seq<Seq<char>>|
                #[trigger] (*node).lookup(q) == if q == sub {
                    None
                } else {
                    orig.lookup(q)
                } by {
                if q.len() > 0 {
                    assert(q != sub);
                    lemma_lookup_same_children(*node, orig, q);
                } else {
                    assert(q =~= sub);
                    assert((*node).lookup(q) == (*node).id);
                }
            }
        }
        r
    } else {
        proof {
            assert(dv[i as int] == path@[i as int]@);
            assert(sub[0] == dv[i as int]);
            assert(sub.drop_first() =~= dv.skip(i as int + 1));
        }
        match find_child(node, &path[i]) {
            None => {
                proof {
                    lemma_child_get_none(orig.children@, path@[i as int]@);
                    lemma_lookup_cons(orig, sub[0], sub.drop_first());
                    assert(seq![sub[0]] + sub.drop_first() =~= sub);
                    assert(orig.lookup(sub) is None);
                }
                None
            },
            Some(j) => {
                proof {
                    lemma_child_get_at(orig.children@, path@[i as int]@, j as int);
                    assert(orig.children@[j as int].1.wf());
                }
                let mut entry = node.children.remove(j);
                let r = remove_at(&mut entry.1, path, i + 1);
                let ghost cfin = entry.1;
                let ghost name = path@[i as int]@;
                let ghost target1 = dv.skip(i as int + 1);
                proof {
                    lemma_lookup_cons(orig, sub[0], sub.drop_first());
                    assert(seq![sub[0]] + sub.drop_first() =~= sub);
                    assert(orig.lookup(sub) == orig.children@[j as int].1.lookup(target1));
                    assert(sub =~= seq![name] + target1);
                }
                if r.is_some() && entry.1.id.is_none() && entry.1.children.len() == 0 {
                    proof {
                        assert((*node).children@ =~= orig.children@.remove(j as int));
                        lemma_clear_prune(orig, *node, j as int, cfin, target1);
                    }
                } else {
                    node.children.insert(j, entry);
                    proof {
                        assert((*node).children@ =~= orig.children@.update(
                            j as int,
                            (orig.children@[j as int].0, cfin),
                        ));
                        lemma_clear_update(orig, *node, j as int, cfin, target1);
                    }
                }
                r
            },
        }
    }
}

impl IDLookup {
    /// Clears the identifier at `path` and prunes nodes left with no
    /// identifier and no children; returns the removed identifier. A missing
    /// path returns `None` and leaves every lookup unchanged.
    pub fn remove_file(&mut self, path: &Vec<String>) -> (r: Option<FileID>)
        requires
            old(self).wf(),
        ensures
            final(self).wf(),
            r == old(self).spec_get(path.deep_view()),
            forall|q: Seq<Seq<char>>|
                #[trigger] final(self).spec_get(q) == if q == path.deep_view() {
                    None
                } else {
                    old(self).spec_get(q)
                },
    {
        let r = remove_at(&mut self.head, path, 0);
        proof {
            assert(path.deep_view().skip(0) =~= path.deep_view());
        }
        r
    }
}

/// The node reached from `n` by exact descent along `path`.
pub open spec fn node_at(n: LookupNode, path: Seq<Seq<char>>) -> Option<LookupNode>
    decreases path.len(),
{
    if path.len() == 0 {
        Some(n)
    } else {
        match child_get(n.children@, path[0]) {
            Some(c) => node_at(c, path.drop_first()),
            None => None,
        }
    }
}

/// Every identifier at or under `n`, in depth-first order.
pub open spec fn dfs_ids(n: LookupNode) -> Seq<FileID>
    decreases n, 0int,
{
    (match n.id {
        Some(id) => seq![id],
        None => Seq::empty(),
    }) + dfs_list_from(n.children@, 0)
}

/// Every identifier at or under the children of one node from index `j` on.
pub open spec fn dfs_list_from(s: Seq<(String, LookupNode)>, j: int) -> Seq<FileID>
    decreases s, s.len() - j,
{
    if 0 <= j < s.len() {
        dfs_ids(s[j].1) + dfs_list_from(s, j + 1)
    } else {
        Seq::empty()
    }
}

/// The identifiers collected when `node_at` misses, or from the subtree hit.
pub open spec fn ids_under(n: LookupNode, path: Seq<Seq<char>>) -> Seq<FileID> {
    match node_at(n, path) {
        Some(t) => dfs_ids(t),
        None => Seq::empty(),
    }
}

/// Appends the identifiers of children `j..` of `node` in depth-first order.
fn collect_from(node: &LookupNode, j: usize, out: &mut Vec<FileID>)
    requires
        j <= node.children@.len(),
    ensures
        final(out)@ == old(out)@ + dfs_list_from(node.children@, j as int),
    decreases *node, node.children@.len() - j,
{
    if j < node.children.len() {
        collect_ids(&node.children[j].1, out);
        collect_from(node, j + 1, out);
        proof {
            assert(final(out)@ =~= old(out)@ + dfs_list_from(node.children@, j as int));
        }
    } else {
        proof {
            assert(final(out)@ =~= old(out)@ + dfs_list_from(node.children@, j as int));
        }
    }
}

/// Appends every identifier at or under `node` in depth-first order.
fn collect_ids(node: &LookupNode, out: &mut Vec<FileID>)
    ensures
        final(out)@ == old(out)@ + dfs_ids(*node),
    decreases *node, node.children@.len() + 1,
{
    if let Some(id) = node.id {
        out.push(id);
    }
    collect_from(node, 0, out);
    proof {
        assert(final(out)@ =~= old(out)@ + dfs_ids(*node));
    }
}

/// A one-component-longer prefix, element-wise.
proof fn lemma_cons_prefix(name: Seq<char>, t1: Seq<Seq<char>>, q: Seq<Seq<char>>)
    ensures
        (seq![name] + t1).is_prefix_of(q) <==> (q.len() > t1.len() && q[0] == name
            && t1.is_prefix_of(q.drop_first())),
{
    let t = seq![name] + t1;
    if t.is_prefix_of(q) {
        assert(q[0] == q.subrange(0, t.len() as int)[0]);
        assert(t1 =~= q.drop_first().subrange(0, t1.len() as int)) by {
            assert forall|x: int| 0 <= x < t1.len() implies t1[x] == q.drop_first()[x] by {
                assert(t1[x] == t[x + 1]);
                assert(t[x + 1] == q.subrange(0, t.len() as int)[x + 1]);
            }
        }
    }
    if q.len() > t1.len() && q[0] == name && t1.is_prefix_of(q.drop_first()) {
        assert(t =~= q.subrange(0, t.len() as int)) by {
            assert forall|x: int| 0 <= x < t.len() implies t[x] == q[x] by {
                if x > 0 {
                    assert(t[x] == t1[x - 1]);
                    assert(t1[x - 1] == q.drop_first().subrange(0, t1.len() as int)[x - 1]);
                }
            }
        }
    }
}

/// Lifts a child's cleared subtree to its parent when the child stays.
proof fn lemma_subtree_update(
    mid: LookupNode,
    fin: LookupNode,
    j: int,
    cfin: LookupNode,
    t1: Seq<Seq<char>>,
)
    requires
        mid.wf(),
        0 <= j < mid.children@.len(),
        fin.id == mid.id,
        fin.children@ == mid.children@.update(j, (mid.children@[j].0, cfin)),
        cfin.wf(),
        forall|q1: Seq<Seq<char>>|
            #[trigger] cfin.lookup(q1) == if t1.is_prefix_of(q1) {
                None
            } else {
                mid.children@[j].1.lookup(q1)
            },
    ensures
        fin.wf(),
        forall|q: Seq<Seq<char>>|
            #[trigger] fin.lookup(q) == if (seq![mid.children@[j].0@] + t1).is_prefix_of(q) {
                None
            } else {
                mid.lookup(q)
            },
{
    let c = mid.children@[j].1;
    let name = mid.children@[j].0@;
    let entry = (mid.children@[j].0, cfin);
    let t = seq![name] + t1;
    assert forall|a: int, b: int|
        0 <= a < b < fin.children@.len() implies #[trigger] fin.children@[a].0@
        != #[trigger] fin.children@[b].0@ by {
        assert(mid.children@[a].0@ != mid.children@[b].0@);
    }
    assert forall|i: int|
        #![trigger fin.children@[i]]
        0 <= i < fin.children@.len() implies fin.children@[i].1.wf() by {
        if i != j {
            assert(fin.children@[i] == mid.children@[i]);
        }
    }
    assert forall|q: Seq<Seq<char>>|
        #[trigger] fin.lookup(q) == if t.is_prefix_of(q) {
            None
        } else {
            mid.lookup(q)
        } by {
        lemma_cons_prefix(name, t1, q);
        if q.len() == 0 {
            assert(!t.is_prefix_of(q));
            assert(fin.lookup(q) == fin.id);
            assert(mid.lookup(q) == mid.id);
        } else {
            lemma_child_get_update(mid.children@, j, entry, q[0]);
            assert(seq![q[0]] + q.drop_first() =~= q);
            lemma_lookup_cons(fin, q[0], q.drop_first());
            lemma_lookup_cons(mid, q[0], q.drop_first());
            if q[0] == name {
                assert(child_get(fin.children@, q[0]) == Some(cfin));
                lemma_child_get_at(mid.children@, q[0], j);
                if t1.is_prefix_of(q.drop_first()) {
                    assert(t.is_prefix_of(q));
                } else {
                    assert(!t.is_prefix_of(q));
                    assert(cfin.lookup(q.drop_first()) == c.lookup(q.drop_first()));
                }
            } else {
                assert(!t.is_prefix_of(q));
                assert(child_get(fin.children@, q[0]) == child_get(mid.children@, q[0]));
            }
        }
    }
}

/// Lifts a child's cleared subtree to its parent when the now-empty child is
/// pruned away.
proof fn lemma_subtree_prune(
    mid: LookupNode,
    fin: LookupNode,
    j: int,
    cfin: LookupNode,
    t1: Seq<Seq<char>>,
)
    requires
        mid.wf(),
        0 <= j < mid.children@.len(),
        fin.id == mid.id,
        fin.children@ == mid.children@.remove(j),
        cfin.id is None,
        cfin.children@.len() == 0,
        forall|q1: Seq<Seq<char>>|
            #[trigger] cfin.lookup(q1) == if t1.is_prefix_of(q1) {
                None
            } else {
                mid.children@[j].1.lookup(q1)
            },
    ensures
        fin.wf(),
        forall|q: Seq<Seq<char>>|
            #[trigger] fin.lookup(q) == if (seq![mid.children@[j].0@] + t1).is_prefix_of(q) {
                None
            } else {
                mid.lookup(q)
            },
{
    let c = mid.children@[j].1;
    let name = mid.children@[j].0@;
    let t = seq![name] + t1;
    lemma_wf_remove_child(mid, fin, j);
    assert forall|q: Seq<Seq<char>>|
        #[trigger] fin.lookup(q) == if t.is_prefix_of(q) {
            None
        } else {
            mid.lookup(q)
        } by {
        lemma_cons_prefix(name, t1, q);
        if q.len() == 0 {
            assert(!t.is_prefix_of(q));
            assert(fin.lookup(q) == fin.id);
            assert(mid.lookup(q) == mid.id);
        } else {
            lemma_child_get_remove(mid.children@, j, q[0]);
            assert(seq![q[0]] + q.drop_first() =~= q);
            lemma_lookup_cons(fin, q[0], q.drop_first());
            lemma_lookup_cons(mid, q[0], q.drop_first());
            if q[0] == name {
                assert(child_get(fin.children@, q[0]) is None);
                lemma_child_get_at(mid.children@, q[0], j);
                assert(fin.lookup(q) is None);
                if t1.is_prefix_of(q.drop_first()) {
                    assert(t.is_prefix_of(q));
                } else {
                    assert(!t.is_prefix_of(q));
                    assert(c.lookup(q.drop_first()) == cfin.lookup(q.drop_first()));
                    lemma_empty_node_lookup(cfin, q.drop_first());
                }
            } else {
                assert(!t.is_prefix_of(q));
                assert(child_get(fin.children@, q[0]) == child_get(mid.children@, q[0]));
            }
        }
    }
}

/// Detaches the subtree at `path[i..]` below `node`, collecting every
/// identifier in it, and prunes ancestors left with no identifier and no
/// children. Returns whether the subtree existed.
fn remove_folder_at(node: &mut LookupNode, path: &Vec<String>, i: usize) -> (r: (bool, Vec<
    FileID,
>))
    requires
        old(node).wf(),
        i < path@.len(),
    ensures
        final(node).wf(),
        final(node).id == old(node).id,
        r.0 == node_at(*old(node), path.deep_view().skip(i as int)) is Some,
        r.1@ == ids_under(*old(node), path.deep_view().skip(i as int)),
        forall|q: Seq<Seq<char>>|
            #[trigger] final(node).lookup(q) == if path.deep_view().skip(
                i as int,
            ).is_prefix_of(q) {
                None
            } else {
                old(node).lookup(q)
            },
    decreases path@.len() - i,
{
    let ghost dv = path.deep_view();
    let ghost sub = dv.skip(i as int);
    let ghost orig = *node;
    let n = path.len();
    proof {
        assert(dv[i as int] == path@[i as int]@);
        assert(sub[0] == dv[i as int]);
        assert(sub.drop_first() =~= dv.skip(i as int + 1));
        assert(sub =~= seq![sub[0]] + sub.drop_first());
    }
    match find_child(node, &path[i]) {
        None => {
            proof {
                lemma_child_get_none(orig.children@, path@[i as int]@);
                assert(node_at(orig, sub) is None);
                assert forall|q: Seq<Seq<char>>|
                    #[trigger] orig.lookup(q) == if sub.is_prefix_of(q) {
                        None
                    } else {
                        orig.lookup(q)
                    } by {
                    if sub.is_prefix_of(q) {
                        lemma_cons_prefix(sub[0], sub.drop_first(), q);
                        assert(seq![q[0]] + q.drop_first() =~= q);
                        lemma_lookup_cons(orig, q[0], q.drop_first());
                    }
                }
            }
            (false, Vec::new())
        },
        Some(j) => {
            proof {
                lemma_child_get_at(orig.children@, path@[i as int]@, j as int);
                assert(orig.children@[j as int].1.wf());
            }
            if i == n - 1 {
                let entry = node.children.remove(j);
                let mut out = Vec::new();
                collect_ids(&entry.1, &mut out);
                proof {
                    let c = orig.children@[j as int].1;
                    assert(sub.len() == 1);
                    assert(sub.drop_first().len() == 0);
                    assert(node_at(c, sub.drop_first()) == Some(c));
                    assert(node_at(orig, sub) == Some(c));
                    assert(ids_under(orig, sub) == dfs_ids(c));
                    lemma_wf_remove_child(orig, *node, j as int);
                    assert forall|q: Seq<Seq<char>>|
                        #[trigger] (*node).lookup(q) == if sub.is_prefix_of(q) {
                            None
                        } else {
                            orig.lookup(q)
                        } by {
                        lemma_cons_prefix(sub[0], sub.drop_first(), q);
                        if q.len() == 0 {
                            assert(!sub.is_prefix_of(q));
                        } else {
                            lemma_child_get_remove(orig.children@, j as int, q[0]);
                            assert(seq![q[0]] + q.drop_first() =~= q);
                            lemma_lookup_cons(*node, q[0], q.drop_first());
                            lemma_lookup_cons(orig, q[0], q.drop_first());
                            if q[0] == sub[0] {
                                assert(sub.drop_first().is_prefix_of(q.drop_first()));
                                assert(sub.is_prefix_of(q));
                                assert((*node).lookup(q) is None);
                            } else {
                                assert(!sub.is_prefix_of(q));
                            }
                        }
                    }
                }
                (true, out)
            } else {
                let mut entry = node.children.remove(j);
                let r = remove_folder_at(&mut entry.1, path, i + 1);
                let ghost cfin = entry.1;
                let found = r.0;
                let out = r.1;
                proof {
                    let c = orig.children@[j as int].1;
                    assert(node_at(orig, sub) == node_at(c, sub.drop_first()));
                    assert(ids_under(orig, sub) == ids_under(c, sub.drop_first()));
                }
                if found && entry.1.id.is_none() && entry.1.children.len() == 0 {
                    proof {
                        assert((*node).children@ =~= orig.children@.remove(j as int));
                        lemma_subtree_prune(orig, *node, j as int, cfin, dv.skip(i as int + 1));
                    }
                } else {
                    node.children.insert(j, entry);
                    proof {
                        assert((*node).children@ =~= orig.children@.update(
                            j as int,
                            (orig.children@[j as int].0, cfin),
                        ));
                        lemma_subtree_update(orig, *node, j as int, cfin, dv.skip(i as int + 1));
                    }
                }
                (found, out)
            }
        },
    }
}

impl IDLookup {
    /// Detaches the subtree at `path`: collects every identifier at or under
    /// that node in depth-first order, removes the node from its parent, and
    /// prunes ancestors left with no identifier and no children. A missing
    /// path returns an empty list and leaves every lookup unchanged.
    pub fn remove_folder(&mut self, path: &Vec<String>) -> (r: Vec<FileID>)
        requires
            old(self).wf(),
            path@.len() > 0,
        ensures
            final(self).wf(),
            r@ == ids_under(old(self).head, path.deep_view()),
            forall|q: Seq<Seq<char>>|
                #[trigger] final(self).spec_get(q) == if path.deep_view().is_prefix_of(q) {
                    None
                } else {
                    old(self).spec_get(q)
                },
    {
        let r = remove_folder_at(&mut self.head, path, 0);
        proof {
            assert(path.deep_view().skip(0) =~= path.deep_view());
        }
        r.1
    }
}


/// `chosen_printed` against an abstract lookup function rather than a node.
pub open spec fn chosen_printed_map(
    g: spec_fn(Seq<Seq<char>>) -> Option<FileID>,
    parent: Seq<Seq<char>>,
    base: Seq<char>,
    site_id: u32,
    name: Seq<char>,
) -> bool {
    exists|k: nat|
        name == rename_candidate(base, site_id, k) && g(parent.push(name)) is None && forall|
            j: nat,
        |
            j < k ==> #[trigger] g(parent.push(rename_candidate(base, site_id, j))) is Some
}

/// A choice made against a node is a choice against any pointwise-equal
/// lookup function.
pub proof fn lemma_chosen_to_map(
    n: LookupNode,
    g: spec_fn(Seq<Seq<char>>) -> Option<FileID>,
    parent: Seq<Seq<char>>,
    base: Seq<char>,
    site_id: u32,
    name: Seq<char>,
)
    requires
        chosen_printed(n, parent, base, site_id, name),
        forall|q: Seq<Seq<char>>| #[trigger] n.lookup(q) == g(q),
    ensures
        chosen_printed_map(g, parent, base, site_id, name),
{
    let k = choose|k: nat|
        name == rename_candidate(base, site_id, k) && n.lookup(parent.push(name)) is None
            && forall|j: nat|
            j < k ==> #[trigger] n.lookup(parent.push(rename_candidate(base, site_id, j))) is Some;
    assert(g(parent.push(name)) is None);
    assert forall|j: nat| j < k implies #[trigger] g(
        parent.push(rename_candidate(base, site_id, j)),
    ) is Some by {
        assert(n.lookup(parent.push(rename_candidate(base, site_id, j))) is Some);
    }
}

/// Collision naming is deterministic: two replicas whose lookups agree on
/// every path settle a colliding insertion on the same printed name.
pub proof fn lemma_printed_name_deterministic(
    g1: spec_fn(Seq<Seq<char>>) -> Option<FileID>,
    g2: spec_fn(Seq<Seq<char>>) -> Option<FileID>,
    parent: Seq<Seq<char>>,
    base: Seq<char>,
    site_id: u32,
    n1: Seq<char>,
    n2: Seq<char>,
)
    requires
        forall|q: Seq<Seq<char>>| #[trigger] g1(q) == g2(q),
        chosen_printed_map(g1, parent, base, site_id, n1),
        chosen_printed_map(g2, parent, base, site_id, n2),
    ensures
        n1 == n2,
{
    let k1 = choose|k: nat|
        n1 == rename_candidate(base, site_id, k) && g1(parent.push(n1)) is None && forall|j: nat|
            j < k ==> #[trigger] g1(parent.push(rename_candidate(base, site_id, j))) is Some;
    let k2 = choose|k: nat|
        n2 == rename_candidate(base, site_id, k) && g2(parent.push(n2)) is None && forall|j: nat|
            j < k ==> #[trigger] g2(parent.push(rename_candidate(base, site_id, j))) is Some;
    if k1 < k2 {
        assert(g2(parent.push(rename_candidate(base, site_id, k1))) is Some);
        assert(g1(parent.push(n1)) == g2(parent.push(n1)));
        assert(false);
    } else if k2 < k1 {
        assert(g1(parent.push(rename_candidate(base, site_id, k2))) is Some);
        assert(g2(parent.push(n2)) == g1(parent.push(n2)));
        assert(false);
    }
}


/// Membership in a concatenation.
proof fn lemma_concat_contains<T>(a: Seq<T>, b: Seq<T>, x: T)
    ensures
        (a + b).contains(x) <==> a.contains(x) || b.contains(x),
{
    if a.contains(x) {
        let i = choose|i: int| 0 <= i < a.len() && a[i] == x;
        assert((a + b)[i] == x);
    }
    if b.contains(x) {
        let i = choose|i: int| 0 <= i < b.len() && b[i] == x;
        assert((a + b)[a.len() + i] == x);
    }
    if (a + b).contains(x) {
        let i = choose|i: int| 0 <= i < (a + b).len() && (a + b)[i] == x;
        if i < a.len() {
            assert(a[i] == x);
        } else {
            assert(b[i - a.len()] == x);
        }
    }
}

/// A hit by `child_get` is an entry of the list.
proof fn lemma_child_get_some_index(s: Seq<(String, LookupNode)>, name: Seq<char>)
    requires
        child_get(s, name) is Some,
    ensures
        exists|k: int|
            0 <= k < s.len() && (#[trigger] s[k]).0@ == name && s[k].1 == child_get(s, name)->0,
    decreases s.len(),
{
    if s.len() > 0 && s[0].0@ != name {
        lemma_child_get_some_index(s.drop_first(), name);
        let k = choose|k: int|
            0 <= k < s.drop_first().len() && (#[trigger] s.drop_first()[k]).0@ == name
                && s.drop_first()[k].1 == child_get(s.drop_first(), name)->0;
        assert(s[k + 1] == s.drop_first()[k]);
    }
}

/// Some identifier lives at or under a node.
pub open spec fn subtree_has(t: LookupNode, id: FileID) -> bool {
    exists|q: Seq<Seq<char>>| #[trigger] t.lookup(q) == Some(id)
}

/// The depth-first identifier list of a well-formed node collects exactly the
/// identifiers reachable by lookup below it.
proof fn lemma_dfs_node(t: LookupNode, id: FileID)
    requires
        t.wf(),
    ensures
        dfs_ids(t).contains(id) <==> subtree_has(t, id),
    decreases t, t.children@.len() + 1,
{
    let own: Seq<FileID> = match t.id {
        Some(i0) => seq![i0],
        None => Seq::empty(),
    };
    lemma_concat_contains(own, dfs_list_from(t.children@, 0), id);
    lemma_dfs_list(t, 0, id);
    if dfs_ids(t).contains(id) {
        if own.contains(id) {
            assert(t.lookup(Seq::empty()) == Some(id));
        } else {
            let k = choose|k: int|
                0 <= k < t.children@.len() && subtree_has(#[trigger] t.children@[k].1, id);
            let rest = choose|q: Seq<Seq<char>>|
                #[trigger] t.children@[k].1.lookup(q) == Some(id);
            lemma_child_get_at(t.children@, t.children@[k].0@, k);
            lemma_lookup_cons(t, t.children@[k].0@, rest);
            assert(t.lookup(seq![t.children@[k].0@] + rest) == Some(id));
        }
    }
    if subtree_has(t, id) {
        let q = choose|q: Seq<Seq<char>>| #[trigger] t.lookup(q) == Some(id);
        if q.len() == 0 {
            assert(own.contains(id)) by {
                assert(own[0] == id);
            }
        } else {
            assert(seq![q[0]] + q.drop_first() =~= q);
            lemma_lookup_cons(t, q[0], q.drop_first());
            lemma_child_get_some_index(t.children@, q[0]);
            let k = choose|k: int|
                0 <= k < t.children@.len() && (#[trigger] t.children@[k]).0@ == q[0]
                    && t.children@[k].1 == child_get(t.children@, q[0])->0;
            assert(t.children@[k].1.lookup(q.drop_first()) == Some(id));
            assert(subtree_has(t.children@[k].1, id));
        }
    }
}

/// As above, for the tail of a node's child list.
proof fn lemma_dfs_list(t: LookupNode, j: int, id: FileID)
    requires
        t.wf(),
        0 <= j,
    ensures
        dfs_list_from(t.children@, j).contains(id) <==> exists|k: int|
            j <= k < t.children@.len() && subtree_has(#[trigger] t.children@[k].1, id),
    decreases t, t.children@.len() - j,
{
    let s = t.children@;
    if j < s.len() {
        assert(s[j].1.wf());
        lemma_dfs_node(s[j].1, id);
        lemma_dfs_list(t, j + 1, id);
        lemma_concat_contains(dfs_ids(s[j].1), dfs_list_from(s, j + 1), id);
        if dfs_list_from(s, j).contains(id) {
            if dfs_ids(s[j].1).contains(id) {
                assert(subtree_has(s[j].1, id));
            }
        }
        if exists|k: int| j <= k < s.len() && subtree_has(#[trigger] s[k].1, id) {
            let k = choose|k: int| j <= k < s.len() && subtree_has(#[trigger] s[k].1, id);
            if k == j {
                assert(dfs_ids(s[j].1).contains(id));
            } else {
                assert(exists|k2: int| j + 1 <= k2 < s.len() && subtree_has(#[trigger] s[k2].1, id));
            }
        }
    }
}

/// The identifiers a folder removal collects are exactly those the trie
/// reaches at or under that path.
pub proof fn lemma_ids_under(h: LookupNode, p: Seq<Seq<char>>, id: FileID)
    requires
        h.wf(),
    ensures
        ids_under(h, p).contains(id) <==> exists|q: Seq<Seq<char>>|
            p.is_prefix_of(q) && #[trigger] h.lookup(q) == Some(id),
    decreases p.len(),
{
    if p.len() == 0 {
        lemma_dfs_node(h, id);
        if subtree_has(h, id) {
            let q = choose|q: Seq<Seq<char>>| #[trigger] h.lookup(q) == Some(id);
            assert(p.is_prefix_of(q)) by {
                assert(p =~= q.subrange(0, 0));
            }
        }
        if exists|q: Seq<Seq<char>>| p.is_prefix_of(q) && #[trigger] h.lookup(q) == Some(id) {
            assert(subtree_has(h, id));
        }
    } else {
        let p0 = p[0];
        let p1 = p.drop_first();
        assert(seq![p0] + p1 =~= p);
        match child_get(h.children@, p0) {
            None => {
                assert(node_at(h, p) is None);
                if exists|q: Seq<Seq<char>>|
                    p.is_prefix_of(q) && #[trigger] h.lookup(q) == Some(id) {
                    let q = choose|q: Seq<Seq<char>>|
                        p.is_prefix_of(q) && #[trigger] h.lookup(q) == Some(id);
                    lemma_cons_prefix(p0, p1, q);
                    assert(seq![q[0]] + q.drop_first() =~= q);
                    lemma_lookup_cons(h, q[0], q.drop_first());
                    assert(false);
                }
            },
            Some(c) => {
                lemma_child_get_some_index(h.children@, p0);
                let k = choose|k: int|
                    0 <= k < h.children@.len() && (#[trigger] h.children@[k]).0@ == p0
                        && h.children@[k].1 == child_get(h.children@, p0)->0;
                assert(c.wf());
                lemma_ids_under(c, p1, id);
                assert(node_at(h, p) == node_at(c, p1));
                assert(ids_under(h, p) == ids_under(c, p1));
                if ids_under(h, p).contains(id) {
                    let q1 = choose|q1: Seq<Seq<char>>|
                        p1.is_prefix_of(q1) && #[trigger] c.lookup(q1) == Some(id);
                    let q = seq![p0] + q1;
                    lemma_lookup_cons(h, p0, q1);
                    lemma_cons_prefix(p0, p1, q);
                    assert(q[0] == p0);
                    assert(q.drop_first() =~= q1);
                    assert(h.lookup(q) == Some(id));
                    assert(p.is_prefix_of(q));
                }
                if exists|q: Seq<Seq<char>>|
                    p.is_prefix_of(q) && #[trigger] h.lookup(q) == Some(id) {
                    let q = choose|q: Seq<Seq<char>>|
                        p.is_prefix_of(q) && #[trigger] h.lookup(q) == Some(id);
                    lemma_cons_prefix(p0, p1, q);
                    assert(seq![q[0]] + q.drop_first() =~= q);
                    lemma_lookup_cons(h, q[0], q.drop_first());
                    assert(c.lookup(q.drop_first()) == Some(id));
                    assert(p1.is_prefix_of(q.drop_first()));
                }
            },
        }
    }
}


/// When the base name's slot is already free, no rename fires: the chosen
/// printed name is the base itself.
pub proof fn lemma_chosen_base(
    n: LookupNode,
    parent: Seq<Seq<char>>,
    base: Seq<char>,
    site_id: u32,
    name: Seq<char>,
)
    requires
        chosen_printed(n, parent, base, site_id, name),
        n.lookup(parent.push(base)) is None,
    ensures
        name == base,
{
    let k = choose|k: nat|
        name == rename_candidate(base, site_id, k) && n.lookup(parent.push(name)) is None
            && forall|j: nat|
            j < k ==> #[trigger] n.lookup(parent.push(rename_candidate(base, site_id, j))) is Some;
    if k > 0 {
        assert(n.lookup(parent.push(rename_candidate(base, site_id, 0))) is Some);
        assert(rename_candidate(base, site_id, 0) == base);
        assert(false);
    }
}

} // verus!

