//! How the chains of the node part change when a key is placed: the three ways a new key
//! goes in, each shown to keep the chains well formed.
use vstd::prelude::*;

use super::store::{chains_ok, lemma_walk_none, lemma_walk_rank, lemma_walk_same, lemma_walk_short, nodes_ok, used, walk, Node};
use crate::value::Value;

verus! {

/// A walk that stays on the chain of `h` never steps on a node outside it.
proof fn lemma_walk_stays(nodes: Seq<Node>, free: int, log: nat, homes: Seq<int>, ranks: Seq<nat>, h: int, t: nat)
    requires
        chains_ok(nodes, free, log, homes, ranks),
        0 <= h < nodes.len(),
        used(nodes, h),
        homes[h] == h,
    ensures
        walk(nodes, h, t) matches Some(x) ==> 0 <= x < nodes.len() && used(nodes, x) && homes[x] == h && ranks[x] == t,
{
    if walk(nodes, h, t) is Some {
        lemma_walk_rank(nodes, free, log, homes, ranks, h, t);
    }
}

/// The new key goes into its home, which was free.
pub proof fn lemma_fill_home(nodes: Seq<Node>, free: int, log: nat, homes: Seq<int>, ranks: Seq<nat>, m: int, node: Node)
    requires
        nodes_ok(nodes, free, log, homes, ranks),
        0 <= m < nodes.len(),
        !used(nodes, m),
        node.key != Value::Nil,
        node.next is None,
    ensures
        nodes_ok(nodes.update(m, node), free, log, homes.update(m, m), ranks.update(m, 0)),
{
    let n = nodes.len() as int;
    let nodes2 = nodes.update(m, node);
    let homes2 = homes.update(m, m);
    let ranks2 = ranks.update(m, 0);
    assert forall|j: int| n - free <= j < n implies used(nodes2, j) by {
        if j == m {
            assert(nodes2[j] == node);
        } else {
            assert(nodes2[j] == nodes[j]);
            assert(used(nodes, j));
        }
    }
    assert forall|j: int| 0 <= j < n && !used(nodes2, j) implies #[trigger] nodes2[j].value == Value::Nil && nodes2[j].next is None by {
        assert(j != m);
        assert(nodes2[j] == nodes[j]);
        assert(nodes[j].value == Value::Nil);
    }
    assert forall|j: int| 0 <= j < n && used(nodes2, j) implies {
        let h = #[trigger] homes2[j];
        &&& 0 <= h < n
        &&& used(nodes2, h)
        &&& homes2[h] == h
        &&& (ranks2[j] == 0 <==> h == j)
        &&& walk(nodes2, h, ranks2[j]) == Some(j)
        &&& match nodes2[j].next {
            Some(x) => 0 <= x < n && used(nodes2, x as int) && homes2[x as int] == h && ranks2[x as int] == ranks2[j] + 1,
            None => true,
        }
    } by {
        if j != m {
            assert(used(nodes, j));
            let h = homes[j];
            assert(homes2[j] == h);
            assert(h != m);
            assert forall|t: nat| t < ranks[j] && walk(nodes, h, t) is Some implies {
                let x = walk(nodes, h, t)->0;
                0 <= x < nodes.len() ==> nodes.update(m, node)[x].next == nodes[x].next
            } by {
                lemma_walk_stays(nodes, free, log, homes, ranks, h, t);
            }
            lemma_walk_same(nodes, nodes2, h, ranks[j]);
            if let Some(x) = nodes[j].next {
                assert(used(nodes, x as int));
                assert(x != m);
            }
        }
    }
    assert forall|j: int| 0 <= j < n && used(nodes2, j) implies #[trigger] ranks2[j] < n by {
        if j != m {
            assert(used(nodes, j));
        }
    }
}

/// The chain of `m` after a new node `f` is linked in right behind its head: the walk reaches
/// `f` first, then everything it reached before, one step later.
proof fn lemma_walk_after_head(
    nodes: Seq<Node>,
    free: int,
    log: nat,
    homes: Seq<int>,
    ranks: Seq<nat>,
    m: int,
    f: int,
    nodes2: Seq<Node>,
    t: nat,
)
    requires
        chains_ok(nodes, free, log, homes, ranks),
        0 <= m < nodes.len(),
        0 <= f < nodes.len(),
        used(nodes, m),
        homes[m] == m,
        !used(nodes, f),
        nodes2.len() == nodes.len(),
        nodes2[m].next == Some(f as u32),
        nodes2[f].next == nodes[m].next,
        forall|x: int| 0 <= x < nodes.len() && x != m && x != f ==> #[trigger] nodes2[x] == nodes[x],
        t >= 1,
        nodes.len() <= 0x8000_0000,
    ensures
        walk(nodes2, m, t + 1) == walk(nodes, m, t),
    decreases t,
{
    if t == 1 {
        assert(walk(nodes2, m, 0) == Some(m));
        assert(walk(nodes, m, 0) == Some(m));
        assert(walk(nodes2, m, 1) == Some(f));
        assert(walk(nodes, m, 1) == match nodes[m].next {
            Some(y) => Some(y as int),
            None => None,
        });
    } else {
        lemma_walk_after_head(nodes, free, log, homes, ranks, m, f, nodes2, (t - 1) as nat);
        lemma_walk_stays(nodes, free, log, homes, ranks, m, (t - 1) as nat);
        if let Some(x) = walk(nodes, m, (t - 1) as nat) {
            assert(x != m);
            assert(x != f);
            assert(nodes2[x] == nodes[x]);
        }
    }
}

/// The new key goes into a free node linked right behind its home, which heads its chain.
pub proof fn lemma_link_after_head(
    nodes: Seq<Node>,
    free: int,
    free2: int,
    log: nat,
    homes: Seq<int>,
    ranks: Seq<nat>,
    m: int,
    f: int,
    key: Value,
    value: Value,
)
    requires
        nodes_ok(nodes, free, log, homes, ranks),
        0 <= m < nodes.len(),
        0 <= f < nodes.len(),
        used(nodes, m),
        homes[m] == m,
        !used(nodes, f),
        key != Value::Nil,
        free <= free2 <= nodes.len(),
        f == nodes.len() - free2,
        forall|x: int| f < x < nodes.len() ==> used(nodes, x),
    ensures
        ({
            let nodes2 = nodes.update(f, Node { key, value, next: nodes[m].next }).update(
                m,
                Node { next: Some(f as u32), ..nodes[m] },
            );
            let homes2 = homes.update(f, m);
            let ranks2 = Seq::new(
                nodes.len(),
                |x: int|
                    if x == f {
                        1nat
                    } else if used(nodes, x) && homes[x] == m && x != m {
                        ranks[x] + 1
                    } else {
                        ranks[x]
                    },
            );
            nodes_ok(nodes2, free2, log, homes2, ranks2)
        }),
{
    let n = nodes.len() as int;
    let nodes2 = nodes.update(f, Node { key, value, next: nodes[m].next }).update(m, Node { next: Some(f as u32), ..nodes[m] });
    let homes2 = homes.update(f, m);
    let ranks2 = Seq::new(
        nodes.len(),
        |x: int|
            if x == f {
                1nat
            } else if used(nodes, x) && homes[x] == m && x != m {
                ranks[x] + 1
            } else {
                ranks[x]
            },
    );
    assert(f != m);
    assert(n <= 0x8000_0000);
    assert forall|x: int| 0 <= x < n && x != m && x != f implies #[trigger] nodes2[x] == nodes[x] by {}
    assert(nodes2[m].next == Some(f as u32));
    assert(nodes2[f].next == nodes[m].next);
    assert forall|j: int| n - free2 <= j < n implies used(nodes2, j) by {
        if j != f && j != m {
            assert(used(nodes, j));
        }
    }
    assert forall|j: int| 0 <= j < n && !used(nodes2, j) implies #[trigger] nodes2[j].value == Value::Nil && nodes2[j].next is None by {
        assert(j != f && j != m);
        assert(nodes[j].value == Value::Nil);
    }
    assert forall|j: int| 0 <= j < n && used(nodes2, j) implies {
        let h = #[trigger] homes2[j];
        &&& 0 <= h < n
        &&& used(nodes2, h)
        &&& homes2[h] == h
        &&& (ranks2[j] == 0 <==> h == j)
        &&& walk(nodes2, h, ranks2[j]) == Some(j)
        &&& match nodes2[j].next {
            Some(x) => 0 <= x < n && used(nodes2, x as int) && homes2[x as int] == h && ranks2[x as int] == ranks2[j] + 1,
            None => true,
        }
    } by {
        if j == f {
            assert(walk(nodes2, m, 0) == Some(m));
            assert(walk(nodes2, m, 1) == Some(f));
            if let Some(y) = nodes[m].next {
                assert(used(nodes, y as int) && homes[y as int] == m && ranks[y as int] == 1);
                assert(y != f);
            }
        } else if j == m {
            assert(ranks[m] == 0);
        } else {
            assert(used(nodes, j));
            let h = homes[j];
            if h == m {
                assert(ranks[j] >= 1);
                lemma_walk_after_head(nodes, free, log, homes, ranks, m, f, nodes2, ranks[j]);
                if let Some(y) = nodes[j].next {
                    assert(used(nodes, y as int) && homes[y as int] == m);
                    assert(y != f);
                    assert(y as int != m);
                }
            } else {
                assert forall|t: nat| t < ranks[j] && walk(nodes, h, t) is Some implies {
                    let x = walk(nodes, h, t)->0;
                    0 <= x < nodes.len() ==> nodes2[x].next == nodes[x].next
                } by {
                    lemma_walk_stays(nodes, free, log, homes, ranks, h, t);
                    let x = walk(nodes, h, t)->0;
                    assert(x != m && x != f);
                }
                lemma_walk_same(nodes, nodes2, h, ranks[j]);
                assert(h != f);
                if let Some(y) = nodes[j].next {
                    assert(used(nodes, y as int) && homes[y as int] == h);
                    assert(y != f);
                    assert(y as int != m);
                }
            }
        }
    }
    assert(chains_ok(nodes2, free2, log, homes2, ranks2));
    assert forall|j: int| 0 <= j < n && used(nodes2, j) implies #[trigger] ranks2[j] < n by {
        if homes2[j] == m {
            lemma_walk_short(nodes2, free2, log, homes2, ranks2, m, ranks2[j]);
        } else {
            assert(j != f && j != m);
            assert(used(nodes, j));
        }
    }
}

/// The chain of `g` after its node `m` moves to the free node `f`: the walk reaches `f` where it
/// reached `m`, and is unchanged elsewhere.
proof fn lemma_walk_after_move(
    nodes: Seq<Node>,
    free: int,
    log: nat,
    homes: Seq<int>,
    ranks: Seq<nat>,
    m: int,
    p: int,
    f: int,
    nodes2: Seq<Node>,
    t: nat,
)
    requires
        chains_ok(nodes, free, log, homes, ranks),
        nodes.len() <= 0x8000_0000,
        0 <= m < nodes.len(),
        0 <= p < nodes.len(),
        0 <= f < nodes.len(),
        used(nodes, m),
        homes[m] != m,
        used(nodes, p),
        homes[p] == homes[m],
        ranks[p] + 1 == ranks[m],
        nodes[p].next == Some(m as u32),
        !used(nodes, f),
        nodes2.len() == nodes.len(),
        nodes2[p].next == Some(f as u32),
        nodes2[f].next == nodes[m].next,
        forall|x: int| 0 <= x < nodes.len() && x != m && x != f && x != p ==> #[trigger] nodes2[x] == nodes[x],
    ensures
        walk(nodes2, homes[m], t) == if t == ranks[m] {
            Some(f)
        } else {
            walk(nodes, homes[m], t)
        },
    decreases t,
{
    let g = homes[m];
    let r = ranks[m];
    assert(used(nodes, g) && homes[g] == g);
    assert(walk(nodes, g, ranks[p]) == Some(p));
    assert(walk(nodes, g, r) == Some(m));
    if t == 0 {
    } else {
        let s = (t - 1) as nat;
        lemma_walk_after_move(nodes, free, log, homes, ranks, m, p, f, nodes2, s);
        lemma_walk_stays(nodes, free, log, homes, ranks, g, s);
        if s == r {
            assert(walk(nodes2, g, s) == Some(f));
        } else if t == r {
            assert(s == ranks[p]);
            assert(walk(nodes2, g, s) == Some(p));
        } else {
            if let Some(x) = walk(nodes, g, s) {
                assert(ranks[x] == s);
                assert(x != m);
                assert(x != p);
                assert(x != f);
                assert(nodes2[x] == nodes[x]);
            }
        }
    }
}

/// The node a key's home holds belongs to another chain: that node moves to a free node, and
/// the new key takes the home.
pub proof fn lemma_move_squatter(
    nodes: Seq<Node>,
    free: int,
    free2: int,
    log: nat,
    homes: Seq<int>,
    ranks: Seq<nat>,
    m: int,
    p: int,
    f: int,
    key: Value,
    value: Value,
)
    requires
        nodes_ok(nodes, free, log, homes, ranks),
        0 <= m < nodes.len(),
        0 <= p < nodes.len(),
        0 <= f < nodes.len(),
        used(nodes, m),
        homes[m] != m,
        used(nodes, p),
        homes[p] == homes[m],
        nodes[p].next == Some(m as u32),
        !used(nodes, f),
        key != Value::Nil,
        free <= free2 <= nodes.len(),
        f == nodes.len() - free2,
        forall|x: int| f < x < nodes.len() ==> used(nodes, x),
    ensures
        ({
            let nodes2 = nodes.update(f, Node { key: nodes[m].key, value: nodes[m].value, next: nodes[m].next }).update(
                p,
                Node { next: Some(f as u32), ..nodes[p] },
            ).update(m, Node { key, value, next: None });
            let homes2 = homes.update(f, homes[m]).update(m, m);
            let ranks2 = ranks.update(f, ranks[m]).update(m, 0);
            nodes_ok(nodes2, free2, log, homes2, ranks2)
        }),
{
    let n = nodes.len() as int;
    let g = homes[m];
    let r = ranks[m];
    let nodes2 = nodes.update(f, Node { key: nodes[m].key, value: nodes[m].value, next: nodes[m].next }).update(
        p,
        Node { next: Some(f as u32), ..nodes[p] },
    ).update(m, Node { key, value, next: None });
    let homes2 = homes.update(f, g).update(m, m);
    let ranks2 = ranks.update(f, r).update(m, 0);
    assert(n <= 0x8000_0000);
    assert(f != m && f != p);
    assert(ranks[p] + 1 == r);
    assert(p != m);
    assert(used(nodes, g) && homes[g] == g);
    assert(g != f && g != m);
    // Nothing had `m` for its home: `m` heads no chain.
    assert forall|x: int| 0 <= x < n && used(nodes, x) implies #[trigger] homes[x] != m by {}
    // `p` is the only node that linked to `m`.
    assert forall|x: int| 0 <= x < n && used(nodes, x) && nodes[x].next == Some(m as u32) implies x == p by {
        assert(homes[x] == g);
        assert(ranks[x] + 1 == r);
        assert(walk(nodes, g, ranks[x]) == Some(x));
        assert(walk(nodes, g, ranks[p]) == Some(p));
    }
    assert forall|x: int| 0 <= x < n && x != m && x != f && x != p implies #[trigger] nodes2[x] == nodes[x] by {}
    assert(nodes2[p].next == Some(f as u32));
    assert(nodes2[f].next == nodes[m].next);
    assert forall|j: int| n - free2 <= j < n implies used(nodes2, j) by {
        if j != f && j != m && j != p {
            assert(used(nodes, j));
        }
    }
    assert forall|j: int| 0 <= j < n && !used(nodes2, j) implies #[trigger] nodes2[j].value == Value::Nil && nodes2[j].next is None by {
        assert(j != f && j != m && j != p);
        assert(nodes[j].value == Value::Nil);
    }
    assert forall|j: int| 0 <= j < n && used(nodes2, j) implies {
        let h = #[trigger] homes2[j];
        &&& 0 <= h < n
        &&& used(nodes2, h)
        &&& homes2[h] == h
        &&& (ranks2[j] == 0 <==> h == j)
        &&& walk(nodes2, h, ranks2[j]) == Some(j)
        &&& match nodes2[j].next {
            Some(x) => 0 <= x < n && used(nodes2, x as int) && homes2[x as int] == h && ranks2[x as int] == ranks2[j] + 1,
            None => true,
        }
    } by {
        if j == m {
        } else if j == f {
            lemma_walk_after_move(nodes, free, log, homes, ranks, m, p, f, nodes2, r);
            if let Some(y) = nodes[m].next {
                assert(used(nodes, y as int) && homes[y as int] == g && ranks[y as int] == r + 1);
                assert(y != f && y as int != m);
            }
        } else {
            assert(used(nodes, j));
            let h = homes[j];
            if h == g {
                lemma_walk_after_move(nodes, free, log, homes, ranks, m, p, f, nodes2, ranks[j]);
                assert(ranks[j] != r);
            } else {
                assert forall|t: nat| t < ranks[j] && walk(nodes, h, t) is Some implies {
                    let x = walk(nodes, h, t)->0;
                    0 <= x < nodes.len() ==> nodes2[x].next == nodes[x].next
                } by {
                    lemma_walk_stays(nodes, free, log, homes, ranks, h, t);
                    let x = walk(nodes, h, t)->0;
                    assert(x != m && x != f && x != p);
                }
                lemma_walk_same(nodes, nodes2, h, ranks[j]);
                assert(h != f && h != m);
            }
            if j != p {
                if let Some(y) = nodes[j].next {
                    assert(used(nodes, y as int) && homes[y as int] == h);
                    assert(y != f);
                    assert(y as int != m);
                }
            }
        }
    }
    assert forall|j: int| 0 <= j < n && used(nodes2, j) implies #[trigger] ranks2[j] < n by {
        if j != f && j != m {
            assert(used(nodes, j));
        }
    }
}

} // verus!
