//! Looking for an entry, from a node of the tree downwards.
use crate::algorithm::{Index, INDEX_SIZE};
use crate::entry;
use crate::error;
use crate::error::{Detail, DetailView};
use crate::model;
use crate::model::{Address, INode, INodeView, Node, NodeView};
use crate::storage;
use crate::storage::Reader;
use crate::text;
use vstd::prelude::*;

verus! {

/// The first of the inner nodes that has the height `j`.
pub open spec fn inode_at_level(inodes: Seq<INodeView>, j: u8) -> Option<INodeView>
    decreases inodes.len(),
{
    if inodes.len() == 0 {
        None
    } else if inodes[0].node.address.j == j {
        Some(inodes[0])
    } else {
        inode_at_level(inodes.drop_first(), j)
    }
}

/// Finds the first of the inner nodes that has the height `j`.
pub fn find_inode(inodes: &Vec<INode>, j: u8) -> (result: Option<INode>)
    ensures
        match result {
            Some(inode) => inode_at_level(model::inode_views(inodes@), j) == Some(inode@),
            None => inode_at_level(model::inode_views(inodes@), j) is None,
        },
        match result {
            Some(inode) => inode.node.address.j == j && inodes@.contains(inode),
            None => forall|k: int|
                0 <= k < inodes@.len() ==> (#[trigger] inodes@[k]).node.address.j != j,
        },
{
    let ghost views = model::inode_views(inodes@);
    let mut k: usize = 0;
    assert(views.skip(0) =~= views);
    while k < inodes.len()
        invariant
            k <= inodes.len(),
            views == model::inode_views(inodes@),
            inode_at_level(views, j) == inode_at_level(views.skip(k as int), j),
            forall|l: int| 0 <= l < k ==> (#[trigger] inodes@[l]).node.address.j != j,
        decreases inodes.len() - k,
    {
        assert(views.skip(k as int)[0] == inodes@[k as int]@);
        if inodes[k].node.address.j == j {
            return Some(inodes[k]);
        }
        assert(views.skip(k as int).drop_first() =~= views.skip(k + 1));
        k = k + 1;
    }
    None
}

/// The message for an entry that lacks an inner node.
pub open spec fn no_inode_message(address: Address) -> Seq<char> {
    "entry i="@ + text::decimal(address.i as nat)
        + " in storage doesn't contain an inode at specified level j="@ + text::decimal(
        address.j as nat,
    )
}

/// The inner node at `address`.
pub open spec fn load_inode(contents: Seq<u8>, address: Address) -> Result<INodeView, DetailView> {
    match entry::parse_inodes(contents, address.position as nat, address.position) {
        Err(detail) => Err(detail),
        Ok(inodes) => match inode_at_level(inodes, address.j) {
            Some(inode) => Ok(inode),
            None => Err(
                DetailView::InternalStateInconsistency { message: no_inode_message(address) },
            ),
        },
    }
}

/// Reads the inner node at `address`.
pub fn read_inode<R: Reader>(r: &mut R, address: &Address) -> (result: Result<INode, Detail>)
    ensures
        final(r).contents() == old(r).contents(),
        storage::same_device(*final(r), *old(r)),
        match result {
            Ok(inode) => load_inode(old(r).contents(), *address) == Ok::<INodeView, DetailView>(
                inode@,
            ),
            Err(detail) => error::failed(
                old(r).faultless(),
                detail,
                load_inode(old(r).contents(), *address),
            ),
        },
{
    match r.move_to(address.position) {
        Ok(_) => {},
        Err(detail) => return Err(detail),
    }
    let inodes = match entry::read_inodes(r, address.position) {
        Ok(inodes) => inodes,
        Err(detail) => return Err(detail),
    };
    match find_inode(&inodes, address.j) {
        Some(inode) => Ok(inode),
        None => {
            // the tree structure and the data on the storage contradict each other
            let mut message = String::from_str("entry i=");
            text::push_decimal(&mut message, address.i);
            message.append(" in storage doesn't contain an inode at specified level j=");
            text::push_decimal(&mut message, address.j as u64);
            error::inconsistency(message)
        },
    }
}

/// The node at `address`, an inner node or a leaf.
pub open spec fn load_node(contents: Seq<u8>, address: Address) -> Result<NodeView, DetailView> {
    if address.j == 0 {
        match entry::parse_entry(
            contents,
            address.position as nat,
            address.position,
            address.i,
        ) {
            Err(detail) => Err(detail),
            Ok(entry) => Ok(entry.enode.node),
        }
    } else {
        match load_inode(contents, address) {
            Err(detail) => Err(detail),
            Ok(inode) => Ok(inode.node),
        }
    }
}

/// Reads the node at `address`, an inner node or a leaf.
pub fn read_node<R: Reader>(r: &mut R, address: &Address) -> (result: Result<Node, Detail>)
    ensures
        final(r).contents() == old(r).contents(),
        storage::same_device(*final(r), *old(r)),
        match result {
            Ok(node) => load_node(old(r).contents(), *address) == Ok::<NodeView, DetailView>(node@),
            Err(detail) => error::failed(
                old(r).faultless(),
                detail,
                load_node(old(r).contents(), *address),
            ),
        },
{
    if address.j == 0 {
        match r.move_to(address.position) {
            Ok(_) => {},
            Err(detail) => return Err(detail),
        }
        match entry::read_entry_without_check(r, address.position, address.i) {
            Ok(entry) => Ok(entry.enode.node),
            Err(detail) => Err(detail),
        }
    } else {
        match read_inode(r, address) {
            Ok(inode) => Ok(inode.node),
            Err(detail) => Err(detail),
        }
    }
}

/// What a search gives: the position of the entry, if there is one, and the nodes that branch off
/// on the way to it.
pub type Found = Result<Option<(u64, Seq<NodeView>)>, DetailView>;

/// The message for a search that does not come to an end.
pub open spec fn hop_message(root: Address, i: Index) -> Seq<char> {
    "The maximum hop count was exceeded before reaching node b_"@ + text::decimal(i as nat)
        + " from node b_{"@ + text::decimal(root.i as nat) + ","@ + text::decimal(root.j as nat)
        + "}.The data on the storage probably have circular references."@
}

/// The branch of an inner node in which the entry `i` would be, and the other branch.
pub open spec fn choose_branch(mover: INodeView, i: Index) -> Option<(Address, Address)> {
    if i <= mover.left.i {
        Some((mover.left, mover.right))
    } else if i <= mover.node.address.i {
        Some((mover.right, mover.left))
    } else {
        None
    }
}

/// The nodes at `branch`, which is one, or none where nodes are not asked for.
pub open spec fn load_branch(contents: Seq<u8>, branch: Address, with_branch: bool) -> Result<
    Seq<NodeView>,
    DetailView,
> {
    if !with_branch {
        Ok(Seq::empty())
    } else {
        match load_node(contents, branch) {
            Err(detail) => Err(detail),
            Ok(node) => Ok(seq![node]),
        }
    }
}

/// What was found, with more nodes in front of those that branch off.
pub open spec fn behind(branches: Seq<NodeView>, found: Found) -> Found {
    match found {
        Ok(Some((position, more))) => Ok(Some((position, branches + more))),
        _ => found,
    }
}

/// The search for the entry `i` below the inner node `mover`, in at most `hops` steps downwards.
/// It began at `root`.
pub open spec fn descend(
    contents: Seq<u8>,
    root: Address,
    mover: INodeView,
    i: Index,
    with_branch: bool,
    hops: nat,
) -> Found
    decreases hops,
{
    if hops == 0 {
        Err(DetailView::InternalStateInconsistency { message: hop_message(root, i) })
    } else {
        match choose_branch(mover, i) {
            None => Ok(None),
            Some((next, branch)) => if next.i == i {
                match load_branch(contents, branch, with_branch) {
                    Err(detail) => Err(detail),
                    Ok(nodes) => Ok(Some((next.position, nodes))),
                }
            } else if next.j == 0 {
                Ok(None)
            } else {
                match load_inode(contents, next) {
                    Err(detail) => Err(detail),
                    Ok(inode) => match load_branch(contents, branch, with_branch) {
                        Err(detail) => Err(detail),
                        Ok(nodes) => behind(
                            nodes,
                            descend(
                                contents,
                                root,
                                inode,
                                i,
                                with_branch,
                                (hops - 1) as nat,
                            ),
                        ),
                    },
                }
            },
        }
    }
}

/// The search for the entry `i` in the tree below the inner node `root`.
pub open spec fn search(
    contents: Seq<u8>,
    root: INodeView,
    i: Index,
    with_branch: bool,
) -> Found {
    if root.node.address.i == i {
        Ok(Some((root.node.address.position, Seq::empty())))
    } else if i == 0 {
        Ok(None)
    } else {
        descend(contents, root.node.address, root, i, with_branch, INDEX_SIZE as nat)
    }
}

/// Whether the search for the entry `i` below `root` comes to its end without reading anything.
pub open spec fn ends_at_once(root: INodeView, i: Index, with_branch: bool) -> bool {
    ||| root.node.address.i == i
    ||| i == 0
    ||| match choose_branch(root, i) {
        None => true,
        Some((next, _)) => if next.i == i {
            !with_branch
        } else {
            next.j == 0
        },
    }
}

/// Appends the node at `branch` to `branches`, if nodes are asked for.
fn push_branch<R: Reader>(
    r: &mut R,
    branch: &Address,
    with_branch: bool,
    branches: &mut Vec<Node>,
) -> (result: Result<(), Detail>)
    ensures
        final(r).contents() == old(r).contents(),
        storage::same_device(*final(r), *old(r)),
        ({
            let expected = load_branch(old(r).contents(), *branch, with_branch);
            match result {
                Ok(()) => expected matches Ok(nodes) && model::node_views(final(branches)@)
                    == model::node_views(old(branches)@) + nodes,
                Err(detail) => error::failed(old(r).faultless(), detail, expected),
            }
        }),
        !with_branch ==> result is Ok && final(r).position() == old(r).position(),
{
    if with_branch {
        match read_node(r, branch) {
            Ok(node) => {
                branches.push(node);
                assert(model::node_views(branches@) =~= model::node_views(old(branches)@)
                    + seq![node@]);
                Ok(())
            },
            Err(detail) => Err(detail),
        }
    } else {
        assert(model::node_views(branches@) + Seq::empty() =~= model::node_views(branches@));
        Ok(())
    }
}

/// Finds the position of the entry with the leaf and the inner nodes `b_{i,*}` in the part of the
/// tree whose root is the inner node `root`. There is none where the entry is not in that part.
///
/// With `with_branch` the result also holds the nodes that branch off on the way from `root` to the
/// node that was looked for, with their hash values, so that a value can be read together with
/// hash values. Without it that list is empty. Where nothing has to be read, the cursor stays where
/// it is and the device cannot make the search fail.
pub fn search_entry_position<R: Reader>(
    r: &mut R,
    root: &INode,
    i: Index,
    with_branch: bool,
) -> (result: Result<Option<(u64, Vec<Node>)>, Detail>)
    ensures
        final(r).contents() == old(r).contents(),
        storage::same_device(*final(r), *old(r)),
        ({
            let expected = search(old(r).contents(), root@, i, with_branch);
            match result {
                Ok(Some((position, branches))) => expected == Ok::<_, DetailView>(
                    Some((position, model::node_views(branches@))),
                ),
                Ok(None) => expected == Found::Ok(None),
                Err(detail) => error::failed(old(r).faultless(), detail, expected),
            }
        }),
        ends_at_once(root@, i, with_branch) ==> result is Ok && final(r).position() == old(
            r,
        ).position(),
        root.node.address.i == i ==> (result matches Ok(Some((position, branches))) && position
            == root.node.address.position && branches@.len() == 0),
        root.node.address.i != i && (i == 0 || (i > root.left.i && i > root.node.address.i)) ==> (
        result matches Ok(None)),
{
    let mut branches: Vec<Node> = Vec::new();
    assert(model::node_views(branches@) =~= Seq::empty());
    if root.node.address.i == i {
        // the given root is the node that is looked for
        return Ok(Some((root.node.address.position, branches)));
    } else if i == 0 {
        // there is no node with the special index 0
        return Ok(None);
    }
    let ghost contents = r.contents();
    let ghost address = root.node.address;
    let ghost expected = search(contents, root@, i, with_branch);
    let mut mover = *root;
    let mut hops: u8 = INDEX_SIZE;
    proof {
        lemma_behind_nothing(expected);
    }
    while hops > 0
        invariant
            contents == old(r).contents(),
            r.contents() == contents,
            storage::same_device(*r, *old(r)),
            address == root.node.address,
            expected == search(contents, root@, i, with_branch),
            expected == behind(
                model::node_views(branches@),
                descend(contents, address, mover@, i, with_branch, hops as nat),
            ),
            hops == INDEX_SIZE ==> mover == *root && r.position() == old(r).position(),
            hops < INDEX_SIZE ==> !ends_at_once(root@, i, with_branch),
            hops <= INDEX_SIZE,
            root.node.address.i != i,
            i != 0,
        decreases hops,
    {
        let ghost before = model::node_views(branches@);
        // the address of the next node
        let (next, branch) = if i <= mover.left.i {
            (mover.left, mover.right)
        } else if i <= mover.node.address.i {
            (mover.right, mover.left)
        } else {
            // out of range
            return Ok(None);
        };
        if next.i == i {
            // the next node is the one that is looked for
            match push_branch(r, &branch, with_branch, &mut branches) {
                Ok(()) => {},
                Err(detail) => return Err(detail),
            }
            return Ok(Some((next.position, branches)));
        }
        if next.j == 0 {
            // at a leaf there is nothing more to look for
            return Ok(None);
        }
        mover = match read_inode(r, &next) {
            Ok(inode) => inode,
            Err(detail) => return Err(detail),
        };
        match push_branch(r, &branch, with_branch, &mut branches) {
            Ok(()) => {},
            Err(detail) => return Err(detail),
        }
        hops = hops - 1;
        proof {
            let nodes = load_branch(contents, branch, with_branch)->Ok_0;
            lemma_behind_both(
                before,
                nodes,
                descend(contents, address, mover@, i, with_branch, hops as nat),
            );
        }
    }
    // the pointers on the storage form a circle
    let mut message = String::from_str(
        "The maximum hop count was exceeded before reaching node b_",
    );
    text::push_decimal(&mut message, i);
    message.append(" from node b_{");
    text::push_decimal(&mut message, root.node.address.i);
    message.append(",");
    text::push_decimal(&mut message, root.node.address.j as u64);
    message.append("}.The data on the storage probably have circular references.");
    error::inconsistency(message)
}

proof fn lemma_behind_nothing(found: Found)
    ensures
        behind(Seq::empty(), found) == found,
{
    if let Ok(Some((_, more))) = found {
        assert(Seq::<NodeView>::empty() + more =~= more);
    }
}

proof fn lemma_behind_both(first: Seq<NodeView>, second: Seq<NodeView>, found: Found)
    ensures
        behind(first, behind(second, found)) == behind(first + second, found),
{
    if let Ok(Some((_, more))) = found {
        assert(first + (second + more) =~= first + second + more);
    }
}

} // verus!
