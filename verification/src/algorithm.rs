//! The shape of the hash tree.
//!
//! Leaves are numbered from 1 in the order in which they are appended. A node `b_{i,j}` is named
//! by the number `i` of its last leaf and by its height `j`. The leaf `b_{i,0}` and the inner nodes
//! `b_{i,j}` that come with it are added together and never change.
use vstd::arithmetic::div_mod;
use vstd::arithmetic::mul;
use vstd::arithmetic::power2;
use vstd::bits;
use vstd::prelude::*;

verus! {

/// The number of a leaf.
pub type Index = u64;

/// The number of bits of an index.
pub const INDEX_SIZE: u8 = 64;

/// The largest multiple of 2 to the power of `j` up to `x`.
pub open spec fn floor_to(x: nat, j: nat) -> nat {
    (x / power2::pow2(j)) * power2::pow2(j)
}

/// Whether there is an inner node `b_{i,j}`.
pub open spec fn is_inode(i: nat, j: nat) -> bool {
    &&& i >= 1
    &&& j >= 1
    &&& ((i - 1) as nat / power2::pow2((j - 1) as nat)) % 2 == 1
}

/// Whether there is a node `b_{i,j}`.
pub open spec fn is_node(i: nat, j: nat) -> bool {
    i >= 1 && (j == 0 || is_inode(i, j))
}

/// The first leaf below the node `b_{i,j}`. The last one is `i`.
pub open spec fn first_leaf(i: nat, j: nat) -> nat {
    floor_to((i - 1) as nat, j) + 1
}

/// The last leaf in the left branch of the inner node `b_{i,j}`.
pub open spec fn split(i: nat, j: nat) -> nat {
    floor_to((i - 1) as nat, (j - 1) as nat)
}

/// The height of the highest node `b_{i,*}` that is lower than `j`.
pub open spec fn below(i: nat, j: nat) -> nat
    decreases j,
{
    if j <= 1 {
        0
    } else if is_inode(i, (j - 1) as nat) {
        (j - 1) as nat
    } else {
        below(i, (j - 1) as nat)
    }
}

/// The height of the root of the tree with `i` leaves.
pub open spec fn root_level(i: nat) -> nat {
    below(i, INDEX_SIZE as nat + 1)
}

/// The largest power of two that is less than `n`, which is at least 2.
pub open spec fn power_below(n: nat) -> nat
    decreases n,
{
    if n <= 2 {
        1
    } else {
        2 * power_below((n + 1) / 2)
    }
}

/// A node of the tree.
#[derive(Clone, Copy, Debug, PartialEq, Eq)]
pub struct NodeId {
    pub i: Index,
    pub j: u8,
}

/// An inner node of the tree with its two branches.
#[derive(Clone, Copy, Debug, PartialEq, Eq)]
pub struct INodeId {
    pub node: NodeId,
    pub left: NodeId,
    pub right: NodeId,
}

/// The inner node `b_{i,j}` with its branches.
pub open spec fn inode_id(i: nat, j: nat) -> INodeId {
    INodeId {
        node: NodeId { i: i as u64, j: j as u8 },
        left: NodeId { i: split(i, j) as u64, j: (j - 1) as u8 },
        right: NodeId { i: i as u64, j: below(i, j) as u8 },
    }
}

/// The heights up to `j` of the inner nodes `b_{i,*}`, in ascending order.
pub open spec fn levels(i: nat, j: nat) -> Seq<nat>
    decreases j,
{
    if j == 0 {
        Seq::empty()
    } else if is_inode(i, j) {
        levels(i, (j - 1) as nat).push(j)
    } else {
        levels(i, (j - 1) as nat)
    }
}

/// The inner nodes `b_{i,*}`, from the lowest to the highest.
pub open spec fn inodes_of(i: nat) -> Seq<INodeId> {
    levels(i, INDEX_SIZE as nat).map_values(|j: nat| inode_id(i, j))
}

/// Rounding down to one power of two more takes that power away or nothing.
pub proof fn lemma_floor_step(x: nat, j: nat)
    ensures
        (x / power2::pow2(j)) % 2 == 0 ==> floor_to(x, j) == floor_to(x, j + 1),
        (x / power2::pow2(j)) % 2 == 1 ==> floor_to(x, j) == floor_to(x, j + 1) + power2::pow2(j),
        floor_to(x, j) <= x < floor_to(x, j) + power2::pow2(j),
{
    let p = power2::pow2(j) as int;
    let q = x as int / p;
    power2::lemma_pow2_pos(j);
    power2::lemma_pow2_unfold(j + 1);
    div_mod::lemma_div_denominator(x as int, p, 2);
    assert(x as int / (p * 2) == q / 2);
    assert(power2::pow2(j + 1) == p * 2) by (nonlinear_arith)
        requires
            power2::pow2(j + 1) == 2 * p,
    ;
    div_mod::lemma_fundamental_div_mod(x as int, p);
    assert(q * p == p * q) by (nonlinear_arith);
    div_mod::lemma_mod_bound(x as int, p);
    if q % 2 == 0 {
        assert((q / 2) * (p * 2) == q * p) by (nonlinear_arith)
            requires
                q == 2 * (q / 2),
        ;
    } else {
        assert((q / 2) * (p * 2) + p == q * p) by (nonlinear_arith)
            requires
                q == 2 * (q / 2) + 1,
        ;
    }
}

/// The number before a positive multiple of a power of two is rounded down to the multiple before.
proof fn lemma_floor_before(q: nat, j: nat)
    requires
        q >= 1,
    ensures
        q * power2::pow2(j) >= 1,
        (q * power2::pow2(j) - 1) as nat / power2::pow2(j) == q - 1,
        floor_to((q * power2::pow2(j) - 1) as nat, j) == q * power2::pow2(j) - power2::pow2(j),
{
    let p = power2::pow2(j) as int;
    power2::lemma_pow2_pos(j);
    assert(q * p >= 1) by (nonlinear_arith)
        requires
            q >= 1,
            p >= 1,
    ;
    assert(q * p - 1 == (q - 1) * p + (p - 1)) by (nonlinear_arith);
    div_mod::lemma_fundamental_div_mod_converse(q * p - 1, p, q - 1, p - 1);
    assert((q - 1) * p == q * p - p) by (nonlinear_arith);
}

/// The branches of an inner node are nodes that are lower. Its left branch covers its first leaves
/// up to the split, its right branch the leaves behind.
pub proof fn lemma_branches(i: nat, j: nat)
    requires
        is_inode(i, j),
    ensures
        first_leaf(i, j) <= split(i, j) < i,
        is_node(split(i, j), (j - 1) as nat),
        first_leaf(split(i, j), (j - 1) as nat) == first_leaf(i, j),
        below(i, j) < j,
        is_node(i, below(i, j)),
        first_leaf(i, below(i, j)) == split(i, j) + 1,
{
    let x = (i - 1) as nat;
    let l = (j - 1) as nat;
    let q = x / power2::pow2(l);
    power2::lemma_pow2_pos(l);
    lemma_floor_step(x, l);
    lemma_floor_before(q, l);
    if l >= 1 {
        let h = (l - 1) as nat;
        power2::lemma_pow2_unfold(l);
        assert(q * power2::pow2(l) == (2 * q) * power2::pow2(h)) by (nonlinear_arith)
            requires
                power2::pow2(l) == 2 * power2::pow2(h),
        ;
        lemma_floor_before(2 * q, h);
    }
    lemma_below(i, j);
}

/// The highest node `b_{i,*}` below a height is there, and starts where the left branch at that
/// height would end.
pub proof fn lemma_below(i: nat, j: nat)
    requires
        i >= 1,
        j >= 1,
    ensures
        below(i, j) < j,
        is_node(i, below(i, j)),
        first_leaf(i, below(i, j)) == split(i, j) + 1,
        forall|l: nat| below(i, j) < l < j ==> !is_inode(i, l),
    decreases j,
{
    let x = (i - 1) as nat;
    if j == 1 {
    } else if !is_inode(i, (j - 1) as nat) {
        lemma_below(i, (j - 1) as nat);
        lemma_floor_step(x, (j - 2) as nat);
    }
}

/// The next lower height is lower.
pub proof fn lemma_below_lower(i: nat, j: nat)
    requires
        j >= 1,
    ensures
        below(i, j) < j,
    decreases j,
{
    if j > 1 && !is_inode(i, (j - 1) as nat) {
        lemma_below_lower(i, (j - 1) as nat);
    }
}

/// An inner node is at most as high as an index has bits.
pub proof fn lemma_inode_height(i: nat, j: nat)
    requires
        is_inode(i, j),
        i <= u64::MAX,
    ensures
        j <= INDEX_SIZE,
{
    if j > INDEX_SIZE {
        let l = (j - 1) as nat;
        power2::lemma2_to64_rest();
        if l > 64 {
            power2::lemma_pow2_strictly_increases(64, l);
        }
        div_mod::lemma_basic_div(i - 1, power2::pow2(l) as int);
    }
}

/// The power of two below a number is less than it, and twice that power is not.
pub proof fn lemma_power_below(n: nat)
    requires
        n >= 2,
    ensures
        1 <= power_below(n) < n <= 2 * power_below(n),
    decreases n,
{
    if n > 2 {
        lemma_power_below((n + 1) / 2);
    }
}

/// Any power of two that is less than a number, while twice that power is not, is the one below it.
pub proof fn lemma_power_below_is(n: nat, j: nat)
    requires
        power2::pow2(j) < n <= 2 * power2::pow2(j),
    ensures
        power_below(n) == power2::pow2(j),
    decreases j,
{
    power2::lemma_pow2_pos(j);
    power2::lemma2_to64();
    if j > 0 {
        power2::lemma_pow2_unfold(j);
        power2::lemma_pow2_pos((j - 1) as nat);
        lemma_power_below_is((n + 1) / 2, (j - 1) as nat);
    }
}

/// The left branch of an inner node has as many leaves as the power of two below the number of all
/// its leaves.
pub proof fn lemma_left_size(i: nat, j: nat)
    requires
        is_inode(i, j),
    ensures
        split(i, j) + 1 - first_leaf(i, j) == power_below((i + 1 - first_leaf(i, j)) as nat),
{
    let x = (i - 1) as nat;
    let l = (j - 1) as nat;
    lemma_branches(i, j);
    lemma_floor_step(x, l);
    lemma_power_below_is((i + 1 - first_leaf(i, j)) as nat, l);
}

/// The root of a tree is at most as high as an index has bits. All leaves are below it, and it is
/// the lowest node of that kind.
pub proof fn lemma_root_level(i: nat)
    requires
        1 <= i <= u64::MAX,
    ensures
        root_level(i) <= INDEX_SIZE,
        is_node(i, root_level(i)),
        first_leaf(i, root_level(i)) == 1,
        i <= power2::pow2(root_level(i)),
        root_level(i) > 0 ==> power2::pow2((root_level(i) - 1) as nat) < i,
{
    lemma_below(i, INDEX_SIZE as nat + 1);
    power2::lemma2_to64();
    power2::lemma2_to64_rest();
    let x = (i - 1) as nat;
    assert(x / power2::pow2(64) == 0) by {
        div_mod::lemma_basic_div(x as int, power2::pow2(64) as int);
    }
    let j = root_level(i);
    lemma_floor_step(x, j);
    if j > 0 {
        lemma_branches(i, j);
        let l = (j - 1) as nat;
        power2::lemma_pow2_pos(l);
        lemma_floor_step(x, l);
    }
}

/// The heights of the inner nodes `b_{i,*}` are listed without a gap.
pub proof fn lemma_levels(i: nat, j: nat)
    ensures
        levels(i, j).len() <= j,
        below(i, j + 1) == if levels(i, j).len() == 0 {
            0
        } else {
            levels(i, j).last()
        },
    decreases j,
{
    if j > 0 {
        lemma_levels(i, (j - 1) as nat);
    }
}

/// A listed height is that of an inner node, and the height listed before it is the next lower one.
pub proof fn lemma_level(i: nat, j: nat, k: int)
    requires
        0 <= k < levels(i, j).len(),
    ensures
        1 <= levels(i, j)[k] <= j,
        is_inode(i, levels(i, j)[k]),
        below(i, levels(i, j)[k]) == if k == 0 {
            0
        } else {
            levels(i, j)[k - 1]
        },
        k > 0 ==> levels(i, j)[k - 1] < levels(i, j)[k],
    decreases j,
{
    let before = levels(i, (j - 1) as nat);
    if is_inode(i, j) && k == before.len() {
        lemma_levels(i, (j - 1) as nat);
        if k > 0 {
            lemma_level(i, (j - 1) as nat, k - 1);
        }
    } else {
        lemma_level(i, (j - 1) as nat, k);
    }
}

/// The height of every inner node `b_{i,*}` is listed.
pub proof fn lemma_level_listed(i: nat, j: nat, l: nat) -> (k: int)
    requires
        l <= j,
        is_inode(i, l),
    ensures
        0 <= k < levels(i, j).len(),
        levels(i, j)[k] == l,
    decreases j,
{
    if l == j {
        levels(i, (j - 1) as nat).len() as int
    } else {
        lemma_level_listed(i, (j - 1) as nat, l)
    }
}

/// The tree as it is after a leaf was appended.
pub struct Generation {
    i: Index,
}

impl Generation {
    /// The number of leaves.
    pub closed spec fn size(self) -> nat {
        self.i as nat
    }

    /// The tree with `i` leaves.
    pub fn new(i: Index) -> (generation: Generation)
        requires
            i >= 1,
        ensures
            generation.size() == i,
    {
        Generation { i }
    }

    /// The inner nodes that came with the last leaf, from the lowest to the highest.
    pub fn inodes(&self) -> (inodes: Vec<INodeId>)
        requires
            self.size() >= 1,
        ensures
            inodes@ == inodes_of(self.size()),
    {
        let i: Index = self.i;
        let x: u64 = i - 1;
        let mut inodes: Vec<INodeId> = Vec::with_capacity(INDEX_SIZE as usize);
        let mut right_j: u8 = 0;
        let mut j: u8 = 0;
        while j < INDEX_SIZE
            invariant
                j <= INDEX_SIZE,
                i >= 1,
                i == self.i,
                x == i - 1,
                right_j == below(i as nat, j as nat + 1),
                inodes@ == levels(i as nat, j as nat).map_values(
                    |l: nat| inode_id(i as nat, l),
                ),
            decreases INDEX_SIZE - j,
        {
            let quotient: u64 = x >> (j as u64);
            proof {
                bits::lemma_u64_shr_is_div(x, j as u64);
                lemma_floor_step(x as nat, j as nat);
                power2::lemma_pow2_pos(j as nat);
            }
            if quotient % 2 == 1 {
                proof {
                    bits::lemma_u64_shl_is_mul(quotient, j as u64);
                }
                let left: u64 = quotient << (j as u64);
                let ghost listed = levels(i as nat, j as nat);
                inodes.push(
                    INodeId {
                        node: NodeId { i, j: j + 1 },
                        left: NodeId { i: left, j },
                        right: NodeId { i, j: right_j },
                    },
                );
                right_j = j + 1;
                assert(listed.push((j + 1) as nat).map_values(|l: nat| inode_id(i as nat, l))
                    =~= listed.map_values(|l: nat| inode_id(i as nat, l)).push(
                    inode_id(i as nat, (j + 1) as nat),
                ));
            }
            j = j + 1;
        }
        inodes
    }
}

/// The first leaf below the node `b_{i,j}`.
pub fn range_start(i: Index, j: u8) -> (first: Index)
    requires
        i >= 1,
    ensures
        first == first_leaf(i as nat, j as nat),
        1 <= first <= i,
        i < first + power2::pow2(j as nat),
        (first - 1) as nat % power2::pow2(j as nat) == 0,
{
    let x: u64 = i - 1;
    proof {
        lemma_floor_step(x as nat, j as nat);
        power2::lemma_pow2_pos(j as nat);
        div_mod::lemma_mod_multiples_basic(
            (x as nat / power2::pow2(j as nat)) as int,
            power2::pow2(j as nat) as int,
        );
    }
    if j >= INDEX_SIZE {
        proof {
            power2::lemma2_to64_rest();
            if j > 64 {
                power2::lemma_pow2_strictly_increases(64, j as nat);
            }
            div_mod::lemma_basic_div(x as int, power2::pow2(j as nat) as int);
            assert(first_leaf(i as nat, j as nat) == 0 * power2::pow2(j as nat) + 1);
            assert(0 * power2::pow2(j as nat) == 0) by (nonlinear_arith);
        }
        1
    } else {
        proof {
            bits::lemma_u64_shr_is_div(x, j as u64);
            bits::lemma_u64_shl_is_mul(x >> (j as u64), j as u64);
        }
        ((x >> (j as u64)) << (j as u64)) + 1
    }
}

} // verus!
