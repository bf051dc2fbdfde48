//! The node selector: turns the set of currently healthy workers into a
//! stable, deterministically ordered node list — duplicates by address
//! removed, ordered by node identifier — so that repeated identical
//! queries keep a fixed node-to-partition mapping.

use vstd::prelude::*;

verus! {

/// An addressable worker node.
pub struct Node {
    pub id: u64,
    pub addr: String,
}

/// Mathematical model of a [`Node`].
#[verifier::ext_equal]
pub struct NodeModel {
    pub id: u64,
    pub addr: Seq<char>,
}

impl View for Node {
    type V = NodeModel;

    open spec fn view(&self) -> NodeModel {
        NodeModel { id: self.id, addr: self.addr@ }
    }
}

impl Clone for Node {
    fn clone(&self) -> (r: Self)
        ensures
            r@ == self@,
    {
        let r = Node { id: self.id, addr: self.addr.clone() };
        proof {
            assert(r@ =~= self@);
        }
        r
    }
}

/// The models of a node list.
pub open spec fn nodes_view(s: Seq<Node>) -> Seq<NodeModel> {
    s.map_values(|n: Node| n@)
}

/// What the selector guarantees: the output is a sub-collection of the
/// input with exact-address duplicates removed — every input address is
/// still represented, no address occurs twice — ordered by node
/// identifier; it is empty only when the input is.
pub open spec fn ordered_nodes_post(input: Seq<NodeModel>, out: Seq<NodeModel>) -> bool {
    &&& out.len() <= input.len()
    &&& (out.len() == 0 <==> input.len() == 0)
    &&& forall|i: int, j: int|
        0 <= i < j < out.len() ==> (#[trigger] out[i]).id <= (#[trigger] out[j]).id
    &&& forall|i: int, j: int|
        0 <= i < j < out.len() ==> (#[trigger] out[i]).addr != (#[trigger] out[j]).addr
    &&& forall|i: int| 0 <= i < out.len() ==> #[trigger] node_from(input, out, i)
    &&& forall|k: int| 0 <= k < input.len() ==> #[trigger] addr_covered(input, out, k)
}

/// Output node `i` is one of the input nodes.
pub open spec fn node_from(input: Seq<NodeModel>, out: Seq<NodeModel>, i: int) -> bool {
    exists|k: int| 0 <= k < input.len() && out[i] == #[trigger] input[k]
}

/// Input node `k`'s address is represented in the output.
pub open spec fn addr_covered(input: Seq<NodeModel>, out: Seq<NodeModel>, k: int) -> bool {
    exists|i: int| 0 <= i < out.len() && input[k].addr == (#[trigger] out[i]).addr
}

/// Orders the healthy workers: one node per distinct address, sorted by
/// node identifier.
pub fn order_nodes(input: &Vec<Node>) -> (r: Vec<Node>)
    ensures
        ordered_nodes_post(nodes_view(input@), nodes_view(r@)),
{
    let ghost iv = nodes_view(input@);
    let mut out: Vec<Node> = Vec::new();
    let mut k: usize = 0;
    while k < input.len()
        invariant
            k <= iv.len(),
            iv == nodes_view(input@),
            out@.len() <= k,
            k > 0 ==> out@.len() > 0,
            forall|i: int, j: int|
                0 <= i < j < out@.len() ==> (#[trigger] nodes_view(out@)[i]).id
                    <= (#[trigger] nodes_view(out@)[j]).id,
            forall|i: int, j: int|
                0 <= i < j < out@.len() ==> (#[trigger] nodes_view(out@)[i]).addr
                    != (#[trigger] nodes_view(out@)[j]).addr,
            forall|i: int|
                0 <= i < out@.len() ==> #[trigger] node_from(iv, nodes_view(out@), i),
            forall|k2: int| 0 <= k2 < k ==> #[trigger] addr_covered(iv, nodes_view(out@), k2),
        decreases iv.len() - k,
    {
        let ghost ov = nodes_view(out@);
        // is this address already represented?
        let mut seen = false;
        let mut i: usize = 0;
        loop
            invariant
                i <= ov.len(),
                nodes_view(out@) == ov,
                iv == nodes_view(input@),
                k < iv.len(),
                !seen ==> forall|i2: int|
                    0 <= i2 < i ==> (#[trigger] ov[i2]).addr != iv[k as int].addr,
                seen ==> exists|i2: int|
                    0 <= i2 < ov.len() && (#[trigger] ov[i2]).addr == iv[k as int].addr,
            ensures
                nodes_view(out@) == ov,
                seen ==> exists|i2: int|
                    0 <= i2 < ov.len() && (#[trigger] ov[i2]).addr == iv[k as int].addr,
                !seen ==> forall|i2: int|
                    0 <= i2 < ov.len() ==> (#[trigger] ov[i2]).addr != iv[k as int].addr,
            decreases ov.len() - i,
        {
            if i >= out.len() {
                break ;
            }
            if out[i].addr.eq(&input[k].addr) {
                seen = true;
                proof {
                    assert((ov[i as int]).addr == iv[k as int].addr);
                }
                break ;
            }
            i = i + 1;
        }
        if !seen {
            // insert at the position its identifier orders it to
            let mut m: usize = 0;
            loop
                invariant
                    m <= ov.len(),
                    nodes_view(out@) == ov,
                    iv == nodes_view(input@),
                    k < iv.len(),
                    forall|i2: int| 0 <= i2 < m ==> (#[trigger] ov[i2]).id <= iv[k as int].id,
                ensures
                    m <= ov.len(),
                    nodes_view(out@) == ov,
                    forall|i2: int| 0 <= i2 < m ==> (#[trigger] ov[i2]).id <= iv[k as int].id,
                    m == ov.len() || ov[m as int].id > iv[k as int].id,
                decreases ov.len() - m,
            {
                if m >= out.len() {
                    break ;
                }
                if out[m].id > input[k].id {
                    break ;
                }
                m = m + 1;
            }
            let x = input[k].clone();
            out.insert(m, x);
            proof {
                let nv = nodes_view(out@);
                assert(nv.len() == ov.len() + 1);
                assert(forall|i2: int| 0 <= i2 < m ==> nv[i2] == ov[i2]);
                assert(nv[m as int] == iv[k as int]);
                assert(forall|i2: int| m < i2 < nv.len() ==> nv[i2] == ov[i2 - 1]);
                assert forall|i2: int, j2: int| 0 <= i2 < j2 < nv.len() implies (
                #[trigger] nv[i2]).id <= (#[trigger] nv[j2]).id && nv[i2].addr
                    != nv[j2].addr by {
                    if i2 == m {
                        assert(nv[j2] == ov[j2 - 1] && j2 - 1 >= m);
                        if (m as int) < ov.len() {
                            assert(ov[m as int].id <= ov[j2 - 1].id);
                        }
                    } else if j2 == m {
                        assert(nv[i2] == ov[i2]);
                    } else if i2 < m && j2 > m {
                        assert(nv[i2] == ov[i2] && nv[j2] == ov[j2 - 1]);
                        assert(ov[i2].id <= ov[j2 - 1].id || i2 == j2 - 1);
                        if i2 == j2 - 1 {
                        }
                    }
                }
                assert forall|i2: int| 0 <= i2 < nv.len() implies #[trigger] node_from(
                    iv,
                    nv,
                    i2,
                ) by {
                    if i2 == m {
                        assert(nv[i2] == iv[k as int]);
                    } else {
                        let i0 = if i2 < m {
                            i2
                        } else {
                            i2 - 1
                        };
                        assert(nv[i2] == ov[i0]);
                        assert(node_from(iv, ov, i0));
                        let k2 = choose|k2: int|
                            0 <= k2 < iv.len() && ov[i0] == #[trigger] iv[k2];
                        assert(nv[i2] == iv[k2]);
                    }
                }
                assert forall|k2: int| 0 <= k2 < k as int + 1 implies #[trigger] addr_covered(
                    iv,
                    nv,
                    k2,
                ) by {
                    if k2 == k as int {
                        assert(iv[k2].addr == nv[m as int].addr);
                    } else {
                        assert(addr_covered(iv, ov, k2));
                        let i0 = choose|i0: int|
                            0 <= i0 < ov.len() && iv[k2].addr == (#[trigger] ov[i0]).addr;
                        let i1 = if i0 < m {
                            i0
                        } else {
                            i0 + 1
                        };
                        assert(nv[i1] == ov[i0]);
                        assert(iv[k2].addr == nv[i1].addr);
                    }
                }
            }
        } else {
            proof {
                let i2 = choose|i2: int|
                    0 <= i2 < ov.len() && (#[trigger] ov[i2]).addr == iv[k as int].addr;
                assert forall|k2: int| 0 <= k2 < k as int + 1 implies #[trigger] addr_covered(
                    iv,
                    nodes_view(out@),
                    k2,
                ) by {
                    if k2 == k as int {
                        assert(iv[k2].addr == nodes_view(out@)[i2].addr);
                    } else {
                        assert(addr_covered(iv, ov, k2));
                        let i0 = choose|i0: int|
                            0 <= i0 < ov.len() && iv[k2].addr == (#[trigger] ov[i0]).addr;
                        assert(iv[k2].addr == nodes_view(out@)[i0].addr);
                    }
                }
            }
        }
        k = k + 1;
    }
    proof {
        assert(iv.take(iv.len() as int) =~= iv);
        if iv.len() > 0 {
            assert(nodes_view(out@).len() > 0);
        }
    }
    out
}

} // verus!
