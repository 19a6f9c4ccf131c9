//! Clusters in a computer network.
//!
//! Computers have two-letter names and are connected pairwise. The first
//! question counts the triangles that contain a computer whose name starts
//! with `t`; the second builds, for every computer, the greedy clique over
//! its neighbour list, and forms a password from the largest one by
//! sorting its names and joining them with commas.

use vstd::prelude::*;

verus! {

/// A computer name: two lowercase letters.
pub type Node = (u8, u8);

/// One computer and its neighbours.
#[derive(Debug)]
pub struct Entry {
    pub node: Node,
    pub peers: Vec<Node>,
}

/// Every computer appears once.
pub open spec fn net_wf(net: Seq<Entry>) -> bool {
    forall|i: int, j: int|
        0 <= i < j < net.len() ==> (#[trigger] net[i]).node != (#[trigger] net[j]).node
}

/// `u` lists `v` among its neighbours.
pub open spec fn spec_connected(net: Seq<Entry>, u: Node, v: Node) -> bool {
    exists|t: int| 0 <= t < net.len() && (#[trigger] net[t]).node == u && net[t].peers@.contains(v)
}

/// The three computers at indices `i < j < k` are pairwise connected and
/// one of them is named `t`-something.
pub open spec fn is_t_triangle(net: Seq<Entry>, i: int, j: int, k: int) -> bool {
    &&& spec_connected(net, net[i].node, net[j].node)
    &&& spec_connected(net, net[i].node, net[k].node)
    &&& spec_connected(net, net[j].node, net[k].node)
    &&& (net[i].node.0 == 116 || net[j].node.0 == 116 || net[k].node.0 == 116)
}

/// How many triangles with a `t` computer have their largest index below
/// `k`, middle index `j`, smallest `i`, counting over `k`.
pub open spec fn tri_count_k(net: Seq<Entry>, i: int, j: int, k: int) -> nat
    decreases k,
{
    if i < 0 || j <= i || k <= j + 1 {
        0
    } else {
        tri_count_k(net, i, j, k - 1) + if is_t_triangle(net, i, j, k - 1) {
            1nat
        } else {
            0nat
        }
    }
}

/// As above, also summed over the middle index below `j`.
pub open spec fn tri_count_j(net: Seq<Entry>, i: int, j: int) -> nat
    decreases j,
{
    if i < 0 || j <= i + 1 {
        0
    } else {
        tri_count_j(net, i, j - 1) + tri_count_k(net, i, j - 1, net.len() as int)
    }
}

/// All triangles with a `t` computer whose smallest index is below `i`.
pub open spec fn tri_count(net: Seq<Entry>, i: int) -> nat
    decreases i,
{
    if i <= 0 {
        0
    } else {
        tri_count(net, i - 1) + tri_count_j(net, i - 1, net.len() as int)
    }
}

/// Does `u` list `v` as a neighbour?
pub fn connected(net: &Vec<Entry>, u: (u8, u8), v: (u8, u8)) -> (r: bool)
    requires
        net_wf(net@),
    ensures
        r == spec_connected(net@, u, v),
{
    let mut t: usize = 0;
    while t < net.len()
        invariant
            net_wf(net@),
            0 <= t <= net@.len(),
            forall|s: int|
                0 <= s < t ==> !((#[trigger] net@[s]).node == u && net@[s].peers@.contains(v)),
        decreases net@.len() - t,
    {
        if net[t].node.0 == u.0 && net[t].node.1 == u.1 {
            proof {
                assert(net@[t as int].node == u);
            }
            let peers = &net[t].peers;
            let mut p: usize = 0;
            while p < peers.len()
                invariant
                    0 <= p <= peers@.len(),
                    t < net@.len(),
                    net@[t as int].node == u,
                    peers@ == net@[t as int].peers@,
                    forall|s: int| 0 <= s < p ==> peers@[s] != v,
                decreases peers@.len() - p,
            {
                if peers[p].0 == v.0 && peers[p].1 == v.1 {
                    proof {
                        assert(net@[t as int].peers@[p as int] == v);
                        assert(net@[t as int].node == u);
                        assert(net@[t as int].peers@.contains(v));
                    }
                    return true;
                }
                p = p + 1;
            }
            proof {
                assert(net@[t as int].node == u);
                assert forall|s: int|
                    0 <= s < net@.len() implies !((#[trigger] net@[s]).node == u
                    && net@[s].peers@.contains(v)) by {
                    if s == t {
                        if net@[s].peers@.contains(v) {
                            let idx = choose|idx: int|
                                0 <= idx < net@[s].peers@.len() && net@[s].peers@[idx] == v;
                            assert(false);
                        }
                    } else if s < t {
                        assert(net@[s].node != net@[t as int].node);
                    } else {
                        assert(net@[t as int].node != net@[s].node);
                    }
                }
            }
            return false;
        }
        t = t + 1;
    }
    false
}

/// Counts the triangles of pairwise connected computers that contain at
/// least one computer whose name starts with `t`.
pub fn group_three(net: &Vec<Entry>) -> (r: usize)
    requires
        net_wf(net@),
        net@.len() <= 1600,
    ensures
        r == tri_count(net@, net@.len() as int),
{
    let n = net.len();
    let mut res: usize = 0;
    let mut i: usize = 0;
    while i < n
        invariant
            net_wf(net@),
            n == net@.len() <= 1600,
            0 <= i <= n,
            res == tri_count(net@, i as int),
            res <= (i * n) * n,
        decreases n - i,
    {
        let mut j: usize = i + 1;
        proof {
            let nn = n as int;
            assert((i * nn) * nn <= (i * nn + (i + 1)) * nn) by (nonlinear_arith)
                requires
                    0 <= i && 0 <= nn,
            ;
        }
        while j < n
            invariant
                net_wf(net@),
                n == net@.len() <= 1600,
                0 <= i < n && i < j <= n,
                res == tri_count(net@, i as int) + tri_count_j(net@, i as int, j as int),
                res <= (i * n + j) * n,
            decreases n - j,
        {
            let mut k: usize = j + 1;
            while k < n
                invariant
                    net_wf(net@),
                    n == net@.len() <= 1600,
                    0 <= i < n && i < j < n && j < k <= n,
                    res == tri_count(net@, i as int) + tri_count_j(net@, i as int, j as int)
                        + tri_count_k(net@, i as int, j as int, k as int),
                    res <= (i * n + j) * n + k,
                decreases n - k,
            {
                let ta = net[i].node;
                let tb = net[j].node;
                let tc = net[k].node;
                proof {
                    let nn = n as int;
                    assert((i * nn + j) * nn + k + 1 <= 1600 * 1600 * 1600 + 1601)
                        by (nonlinear_arith)
                        requires
                            0 <= i < nn && 0 <= j <= nn && 0 <= k <= nn && nn <= 1600,
                    ;
                }
                if (ta.0 == 116 || tb.0 == 116 || tc.0 == 116) && connected(net, ta, tb)
                    && connected(net, ta, tc) && connected(net, tb, tc) {
                    res = res + 1;
                }
                k = k + 1;
            }
            proof {
                let nn = n as int;
                assert((i * nn + j) * nn + nn == (i * nn + j + 1) * nn) by (nonlinear_arith);
            }
            j = j + 1;
        }
        proof {
            let nn = n as int;
            assert((i * nn + nn) * nn == ((i + 1) * nn) * nn) by (nonlinear_arith);
            assert((i * nn) * nn <= (i * nn + (i + 1)) * nn) by (nonlinear_arith)
                requires
                    0 <= i && 0 <= nn,
            ;
        }
        i = i + 1;
    }
    res
}

/// The greedy clique extension: walk the neighbour list in order and take
/// every neighbour that is connected to everything taken so far.
pub open spec fn greedy_ext(net: Seq<Entry>, group: Seq<Node>, peers: Seq<Node>, p: int) -> Seq<
    Node,
>
    decreases peers.len() - p,
{
    if p < 0 || p >= peers.len() {
        group
    } else {
        greedy_ext(
            net,
            if all_connected(net, group, peers[p]) {
                group.push(peers[p])
            } else {
                group
            },
            peers,
            p + 1,
        )
    }
}

/// `v` lists every member of `group` among its neighbours.
pub open spec fn all_connected(net: Seq<Entry>, group: Seq<Node>, v: Node) -> bool {
    forall|g: int| 0 <= g < group.len() ==> spec_connected(net, v, #[trigger] group[g])
}

/// The greedy clique grown from the computer at index `s`.
pub open spec fn greedy_group(net: Seq<Entry>, s: int) -> Seq<Node> {
    greedy_ext(net, seq![net[s].node], net[s].peers@, 0)
}

/// The largest greedy clique over the first `i` computers; earlier
/// computers win ties.
pub open spec fn best_group(net: Seq<Entry>, i: int) -> Seq<Node>
    decreases i,
{
    if i <= 0 {
        Seq::empty()
    } else {
        let prev = best_group(net, i - 1);
        let g = greedy_group(net, i - 1);
        if g.len() > prev.len() {
            g
        } else {
            prev
        }
    }
}

/// The `c`-th two-lowercase-letter name, in alphabetical order.
pub open spec fn name_of(c: int) -> Node {
    ((97 + c / 26) as u8, (97 + c % 26) as u8)
}

/// The password text for a group: every two-letter name the group holds,
/// in alphabetical order, comma separated. `c` is the next name to try and
/// `first` says whether nothing has been written yet.
pub open spec fn pw_bytes(group: Seq<Node>, c: int, first: bool) -> Seq<u8>
    decreases 676 - c,
{
    if c < 0 || c >= 676 {
        Seq::empty()
    } else if group.contains(name_of(c)) {
        (if first {
            seq![name_of(c).0, name_of(c).1]
        } else {
            seq![44u8, name_of(c).0, name_of(c).1]
        }) + pw_bytes(group, c + 1, false)
    } else {
        pw_bytes(group, c + 1, first)
    }
}

/// Does the group hold this name?
fn group_contains(group: &Vec<(u8, u8)>, v: (u8, u8)) -> (r: bool)
    ensures
        r == group@.contains(v),
{
    let mut g: usize = 0;
    while g < group.len()
        invariant
            0 <= g <= group@.len(),
            forall|s: int| 0 <= s < g ==> group@[s] != v,
        decreases group@.len() - g,
    {
        if group[g].0 == v.0 && group[g].1 == v.1 {
            proof {
                assert(group@[g as int] == v);
            }
            return true;
        }
        g = g + 1;
    }
    false
}

/// Is this computer connected to every member of the group?
fn connected_to_all(net: &Vec<Entry>, group: &Vec<(u8, u8)>, v: (u8, u8)) -> (r: bool)
    requires
        net_wf(net@),
    ensures
        r == all_connected(net@, group@, v),
{
    let mut g: usize = 0;
    while g < group.len()
        invariant
            net_wf(net@),
            0 <= g <= group@.len(),
            forall|s: int| 0 <= s < g ==> spec_connected(net@, v, #[trigger] group@[s]),
        decreases group@.len() - g,
    {
        if !connected(net, v, group[g]) {
            return false;
        }
        g = g + 1;
    }
    true
}

/// The greedy clique grown from the computer at index `s`.
fn greedy_for(net: &Vec<Entry>, s: usize) -> (r: Vec<(u8, u8)>)
    requires
        net_wf(net@),
        s < net@.len(),
    ensures
        r@ == greedy_group(net@, s as int),
{
    let mut group: Vec<(u8, u8)> = Vec::new();
    group.push(net[s].node);
    proof {
        assert(group@ =~= seq![net@[s as int].node]);
    }
    let ghost full = greedy_group(net@, s as int);
    let peers = &net[s].peers;
    let mut p: usize = 0;
    while p < peers.len()
        invariant
            net_wf(net@),
            s < net@.len(),
            peers@ == net@[s as int].peers@,
            0 <= p <= peers@.len(),
            full == greedy_group(net@, s as int),
            full == greedy_ext(net@, group@, peers@, p as int),
        decreases peers@.len() - p,
    {
        if connected_to_all(net, &group, peers[p]) {
            group.push(peers[p]);
        }
        p = p + 1;
    }
    group
}

/// The password of the largest greedy clique: its names in alphabetical
/// order, comma separated, as bytes.
pub fn passwd(net: &Vec<Entry>) -> (r: Vec<u8>)
    requires
        net_wf(net@),
    ensures
        r@ == pw_bytes(best_group(net@, net@.len() as int), 0, true),
{
    let mut longest: Vec<(u8, u8)> = Vec::new();
    let mut i: usize = 0;
    while i < net.len()
        invariant
            net_wf(net@),
            0 <= i <= net@.len(),
            longest@ == best_group(net@, i as int),
        decreases net@.len() - i,
    {
        let group = greedy_for(net, i);
        if group.len() > longest.len() {
            longest = group;
        }
        i = i + 1;
    }
    let mut r: Vec<u8> = Vec::new();
    let mut first = true;
    let mut c: usize = 0;
    let ghost full = pw_bytes(longest@, 0, true);
    while c < 676
        invariant
            0 <= c <= 676,
            full == pw_bytes(longest@, 0, true),
            full =~= r@ + pw_bytes(longest@, c as int, first),
            longest@ == best_group(net@, net@.len() as int),
        decreases 676 - c,
    {
        let name = ((97 + c / 26) as u8, (97 + c % 26) as u8);
        proof {
            assert(name == name_of(c as int));
        }
        if group_contains(&longest, name) {
            if !first {
                r.push(44);
            }
            r.push(name.0);
            r.push(name.1);
            first = false;
        }
        proof {
            assert(full =~= r@ + pw_bytes(longest@, c + 1, first));
        }
        c = c + 1;
    }
    proof {
        assert(full =~= r@);
    }
    r
}

} // verus!
