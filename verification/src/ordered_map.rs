//! An ordered map from fixed-size byte keys to values.
//!
//! The map is a height-balanced binary search tree. Its abstract state is the
//! sequence of its entries in ascending key order, from which the finite map
//! it stands for is read off.
use vstd::arithmetic::power2::{lemma2_to64, lemma_pow2_unfold, pow2};
use vstd::prelude::*;

verus! {

/// How one key stands to another in the order of the map.
#[derive(Debug, Clone, Copy, PartialEq, Eq, Structural)]
pub enum KeyOrder {
    Less,
    Equal,
    Greater,
}

/// `a` comes before `b` in lexicographic byte order: at the first position
/// where they differ, the byte of `a` is the smaller one.
pub open spec fn key_lt(a: Seq<u8>, b: Seq<u8>) -> bool {
    exists|i: int|
        0 <= i < a.len() && i < b.len() && (forall|j: int| 0 <= j < i ==> a[j] == b[j])
            && #[trigger] a[i] < b[i]
}

/// The entries stand in strictly ascending key order.
pub open spec fn ascending<const K: usize, T>(entries: Seq<([u8; K], T)>) -> bool {
    forall|i: int, j: int|
        0 <= i < j < entries.len() ==> key_lt(
            (#[trigger] entries[i]).0@,
            (#[trigger] entries[j]).0@,
        )
}

/// Some entry holds the key `key`.
pub open spec fn has_key<const K: usize, T>(entries: Seq<([u8; K], T)>, key: [u8; K]) -> bool {
    exists|i: int| 0 <= i < entries.len() && (#[trigger] entries[i]).0 == key
}

/// The value that stands beside `key`.
pub open spec fn value_at<const K: usize, T>(entries: Seq<([u8; K], T)>, key: [u8; K]) -> T {
    entries[choose|i: int| 0 <= i < entries.len() && (#[trigger] entries[i]).0 == key].1
}

/// The finite map that a sequence of entries with distinct keys stands for.
pub open spec fn map_of<const K: usize, T>(entries: Seq<([u8; K], T)>) -> Map<[u8; K], T> {
    Map::new(|key: [u8; K]| has_key(entries, key), |key: [u8; K]| value_at(entries, key))
}

pub proof fn lemma_key_lt_irreflexive(a: Seq<u8>)
    ensures
        !key_lt(a, a),
{
}

pub proof fn lemma_key_lt_transitive(a: Seq<u8>, b: Seq<u8>, c: Seq<u8>)
    requires
        key_lt(a, b),
        key_lt(b, c),
    ensures
        key_lt(a, c),
{
    let i = choose|i: int|
        0 <= i < a.len() && i < b.len() && (forall|j: int| 0 <= j < i ==> a[j] == b[j])
            && #[trigger] a[i] < b[i];
    let n = choose|i: int|
        0 <= i < b.len() && i < c.len() && (forall|j: int| 0 <= j < i ==> b[j] == c[j])
            && #[trigger] b[i] < c[i];
    let m = if i <= n { i } else { n };
    assert(a[m] < c[m]);
}

pub proof fn lemma_key_lt_asymmetric(a: Seq<u8>, b: Seq<u8>)
    requires
        key_lt(a, b),
    ensures
        !key_lt(b, a),
        a != b,
{
    if key_lt(b, a) {
        lemma_key_lt_transitive(a, b, a);
    }
}

/// Compares two keys.
pub fn order_keys<const K: usize>(a: &[u8; K], b: &[u8; K]) -> (r: KeyOrder)
    ensures
        match r {
            KeyOrder::Less => key_lt(a@, b@),
            KeyOrder::Equal => *a == *b,
            KeyOrder::Greater => key_lt(b@, a@),
        },
{
    let mut i: usize = 0;
    while i < K
        invariant
            i <= K,
            forall|j: int| 0 <= j < i ==> a@[j] == b@[j],
        decreases K - i,
    {
        if a[i] < b[i] {
            assert(a@[i as int] < b@[i as int]);
            return KeyOrder::Less;
        }
        if b[i] < a[i] {
            assert(b@[i as int] < a@[i as int]);
            return KeyOrder::Greater;
        }
        i = i + 1;
    }
    assert(*a =~= *b);
    KeyOrder::Equal
}

/// Whether one key comes before another.
fn comes_before<const K: usize>(a: &[u8; K], b: &[u8; K]) -> (r: bool)
    ensures
        r == key_lt(a@, b@),
{
    proof {
        lemma_key_lt_irreflexive(a@);
        if key_lt(a@, b@) {
            lemma_key_lt_asymmetric(a@, b@);
        }
    }
    match order_keys(a, b) {
        KeyOrder::Less => true,
        _ => false,
    }
}

/// In a sequence of ascending entries a key stands at one position at most.
pub proof fn lemma_value_at<const K: usize, T>(entries: Seq<([u8; K], T)>, i: int)
    requires
        ascending(entries),
        0 <= i < entries.len(),
    ensures
        has_key(entries, entries[i].0),
        value_at(entries, entries[i].0) == entries[i].1,
{
    let key = entries[i].0;
    let n = choose|n: int| 0 <= n < entries.len() && (#[trigger] entries[n]).0 == key;
    if n != i {
        lemma_key_lt_irreflexive(key@);
    }
}

struct Node<const K: usize, T> {
    key: [u8; K],
    value: T,
    left: Option<Box<Node<K, T>>>,
    right: Option<Box<Node<K, T>>>,
    /// Height of the tree below and at this node; it steers the balancing only.
    height: usize,
}

/// The entries of a tree from left to right.
spec fn in_order<const K: usize, T>(tree: Option<Box<Node<K, T>>>) -> Seq<([u8; K], T)>
    decreases tree,
{
    match tree {
        None => Seq::empty(),
        Some(node) => in_order(node.left) + seq![(node.key, node.value)] + in_order(node.right),
    }
}

/// The number of nodes on the longest way down a tree.
spec fn tree_height<const K: usize, T>(tree: Option<Box<Node<K, T>>>) -> nat
    decreases tree,
{
    match tree {
        None => 0,
        Some(node) => if tree_height(node.left) < tree_height(node.right) {
            tree_height(node.right) + 1
        } else {
            tree_height(node.left) + 1
        },
    }
}

/// The subtrees of each node differ in height by at most one, and each node
/// knows its height.
spec fn balanced<const K: usize, T>(tree: Option<Box<Node<K, T>>>) -> bool
    decreases tree,
{
    match tree {
        None => true,
        Some(node) => {
            &&& balanced(node.left)
            &&& balanced(node.right)
            &&& tree_height(node.left) <= tree_height(node.right) + 1
            &&& tree_height(node.right) <= tree_height(node.left) + 1
            &&& node.height == tree_height(tree)
        },
    }
}

/// A balanced tree has few levels for its entries.
proof fn lemma_tall_tree<const K: usize, T>(tree: Option<Box<Node<K, T>>>, k: nat)
    requires
        balanced(tree),
        tree_height(tree) >= 2 * k,
    ensures
        in_order(tree).len() + 1 >= pow2(k),
    decreases k,
{
    if k == 0 {
        lemma2_to64();
    } else {
        let node = tree->0;
        lemma_tall_tree(node.left, (k - 1) as nat);
        lemma_tall_tree(node.right, (k - 1) as nat);
        lemma_pow2_unfold(k);
    }
}

/// The height of a balanced tree is far from the limits of a number.
proof fn lemma_height_fits<const K: usize, T>(tree: Option<Box<Node<K, T>>>)
    requires
        balanced(tree),
        in_order(tree).len() <= usize::MAX,
    ensures
        tree_height(tree) < 130,
{
    if tree_height(tree) >= 130 {
        lemma_tall_tree(tree, 65);
        lemma_pow2_unfold(65);
        lemma2_to64();
    }
}

/// The height that a tree knows of itself.
spec fn known_height<const K: usize, T>(tree: Option<Box<Node<K, T>>>) -> usize {
    match tree {
        None => 0,
        Some(node) => node.height,
    }
}

fn height<const K: usize, T>(tree: &Option<Box<Node<K, T>>>) -> (r: usize)
    ensures
        r == known_height(*tree),
{
    match tree {
        None => 0,
        Some(node) => node.height,
    }
}

/// A node whose height is one more than that of its higher child, or the
/// highest number.
spec fn leveled<const K: usize, T>(node: Node<K, T>) -> Node<K, T> {
    let higher = if known_height(node.left) < known_height(node.right) {
        known_height(node.right)
    } else {
        known_height(node.left)
    };
    Node {
        height: if higher < usize::MAX {
            (higher + 1) as usize
        } else {
            usize::MAX
        },
        ..node
    }
}

/// Sets the height of a node from those of its children.
fn with_height<const K: usize, T>(node: Box<Node<K, T>>) -> (r: Box<Node<K, T>>)
    ensures
        *r == leveled(*node),
        in_order(Some(r)) == in_order(Some(node)),
{
    let mut node = node;
    let left: usize = height(&node.left);
    let right: usize = height(&node.right);
    node.height = if left < right {
        right.saturating_add(1)
    } else {
        left.saturating_add(1)
    };
    node
}

/// The left child above its parent, which takes over the right subtree of the
/// child.
spec fn rotated_right<const K: usize, T>(node: Node<K, T>) -> Node<K, T> {
    match node.left {
        None => node,
        Some(pivot) => {
            let lowered = leveled(Node { left: pivot.right, ..node });
            leveled(Node { right: Some(Box::new(lowered)), ..*pivot })
        },
    }
}

/// The right child above its parent, which takes over the left subtree of the
/// child.
spec fn rotated_left<const K: usize, T>(node: Node<K, T>) -> Node<K, T> {
    match node.right {
        None => node,
        Some(pivot) => {
            let lowered = leveled(Node { right: pivot.left, ..node });
            leveled(Node { left: Some(Box::new(lowered)), ..*pivot })
        },
    }
}

/// Lifts the left child above its parent, if there is one.
fn rotate_right<const K: usize, T>(node: Box<Node<K, T>>) -> (r: Box<Node<K, T>>)
    ensures
        *r == rotated_right(*node),
        in_order(Some(r)) == in_order(Some(node)),
{
    proof {
        reveal_with_fuel(in_order, 3);
    }
    let ghost before = in_order(Some(node));
    let mut node = node;
    match node.left.take() {
        None => node,
        Some(mut pivot) => {
            node.left = pivot.right.take();
            pivot.right = Some(with_height(node));
            let r = with_height(pivot);
            assert(in_order(Some(r)) =~= before);
            r
        },
    }
}

/// Lifts the right child above its parent, if there is one.
fn rotate_left<const K: usize, T>(node: Box<Node<K, T>>) -> (r: Box<Node<K, T>>)
    ensures
        *r == rotated_left(*node),
        in_order(Some(r)) == in_order(Some(node)),
{
    proof {
        reveal_with_fuel(in_order, 3);
    }
    let ghost before = in_order(Some(node));
    let mut node = node;
    match node.right.take() {
        None => node,
        Some(mut pivot) => {
            node.right = pivot.left.take();
            pivot.left = Some(with_height(node));
            let r = with_height(pivot);
            assert(in_order(Some(r)) =~= before);
            r
        },
    }
}

/// The subtrees of a node are balanced and differ in height by at most two.
spec fn nearly_balanced<const K: usize, T>(node: Node<K, T>) -> bool {
    &&& balanced(node.left)
    &&& balanced(node.right)
    &&& tree_height(node.left) <= tree_height(node.right) + 2
    &&& tree_height(node.right) <= tree_height(node.left) + 2
    &&& tree_height(node.left) < usize::MAX
    &&& tree_height(node.right) < usize::MAX
}

/// A node above balanced subtrees of like height is balanced once it knows its
/// height.
proof fn lemma_leveled<const K: usize, T>(node: Node<K, T>)
    requires
        balanced(node.left),
        balanced(node.right),
        tree_height(node.left) <= tree_height(node.right) + 1,
        tree_height(node.right) <= tree_height(node.left) + 1,
        tree_height(node.left) < usize::MAX,
        tree_height(node.right) < usize::MAX,
    ensures
        balanced(Some(Box::new(leveled(node)))),
        tree_height(Some(Box::new(leveled(node)))) == if tree_height(node.left) < tree_height(
            node.right,
        ) {
            tree_height(node.right) + 1
        } else {
            tree_height(node.left) + 1
        },
{
}

/// A left subtree that is two levels higher is evened out by one rotation, or
/// by two where its right side is the higher one.
proof fn lemma_left_heavy<const K: usize, T>(node: Node<K, T>, left: Node<K, T>)
    requires
        nearly_balanced(node),
        node.left == Some(Box::new(left)),
        tree_height(node.left) == tree_height(node.right) + 2,
    ensures
        ({
            let lifted = if known_height(left.left) < known_height(left.right) {
                rotated_left(left)
            } else {
                left
            };
            let r = rotated_right(Node { left: Some(Box::new(lifted)), ..node });
            &&& balanced(Some(Box::new(r)))
            &&& tree_height(node.left) <= tree_height(Some(Box::new(r))) <= tree_height(node.left)
                + 1
        }),
{
    reveal_with_fuel(balanced, 3);
    reveal_with_fuel(tree_height, 3);
    if known_height(left.left) < known_height(left.right) {
        let middle = *(left.right->0);
        lemma_leveled(Node { right: middle.left, ..left });
        let lower_left = leveled(Node { right: middle.left, ..left });
        let lifted = rotated_left(left);
        assert(lifted == leveled(Node { left: Some(Box::new(lower_left)), ..middle }));
        lemma_leveled(Node { left: middle.right, ..node });
        let lower_right = leveled(Node { left: middle.right, ..node });
        lemma_leveled(Node { right: Some(Box::new(lower_right)), ..lifted });
    } else {
        lemma_leveled(Node { left: left.right, ..node });
        let lower_right = leveled(Node { left: left.right, ..node });
        lemma_leveled(Node { right: Some(Box::new(lower_right)), ..left });
    }
}

/// A right subtree that is two levels higher is evened out by one rotation, or
/// by two where its left side is the higher one.
proof fn lemma_right_heavy<const K: usize, T>(node: Node<K, T>, right: Node<K, T>)
    requires
        nearly_balanced(node),
        node.right == Some(Box::new(right)),
        tree_height(node.right) == tree_height(node.left) + 2,
    ensures
        ({
            let lifted = if known_height(right.right) < known_height(right.left) {
                rotated_right(right)
            } else {
                right
            };
            let r = rotated_left(Node { right: Some(Box::new(lifted)), ..node });
            &&& balanced(Some(Box::new(r)))
            &&& tree_height(node.right) <= tree_height(Some(Box::new(r))) <= tree_height(node.right)
                + 1
        }),
{
    reveal_with_fuel(balanced, 3);
    reveal_with_fuel(tree_height, 3);
    if known_height(right.right) < known_height(right.left) {
        let middle = *(right.left->0);
        lemma_leveled(Node { left: middle.right, ..right });
        let lower_right = leveled(Node { left: middle.right, ..right });
        let lifted = rotated_right(right);
        assert(lifted == leveled(Node { right: Some(Box::new(lower_right)), ..middle }));
        lemma_leveled(Node { right: middle.left, ..node });
        let lower_left = leveled(Node { right: middle.left, ..node });
        lemma_leveled(Node { left: Some(Box::new(lower_left)), ..lifted });
    } else {
        lemma_leveled(Node { right: right.left, ..node });
        let lower_left = leveled(Node { right: right.left, ..node });
        lemma_leveled(Node { left: Some(Box::new(lower_left)), ..right });
    }
}

/// Evens out a node whose subtrees differ in height by more than one. The tree
/// becomes at most one level lower by that, and no higher.
fn balance<const K: usize, T>(node: Box<Node<K, T>>) -> (r: Box<Node<K, T>>)
    ensures
        in_order(Some(r)) == in_order(Some(node)),
        nearly_balanced(*node) ==> {
            &&& balanced(Some(r))
            &&& tree_height(Some(r)) <= tree_height(Some(node)) <= tree_height(Some(r)) + 1
            &&& tree_height(node.left) <= tree_height(node.right) + 1 && tree_height(node.right)
                <= tree_height(node.left) + 1 ==> *r == leveled(*node) && tree_height(Some(r))
                == tree_height(Some(node))
        },
{
    proof {
        if nearly_balanced(*node) {
            if tree_height(node.left) == tree_height(node.right) + 2 {
                lemma_left_heavy(*node, *(node.left->0));
            } else if tree_height(node.right) == tree_height(node.left) + 2 {
                lemma_right_heavy(*node, *(node.right->0));
            } else {
                lemma_leveled(*node);
            }
        }
    }
    let mut node = node;
    let left_height: usize = height(&node.left);
    let right_height: usize = height(&node.right);
    if left_height > right_height.saturating_add(1) {
        if let Some(left) = node.left.take() {
            node.left = if height(&left.left) < height(&left.right) {
                Some(rotate_left(left))
            } else {
                Some(left)
            };
        }
        rotate_right(node)
    } else if right_height > left_height.saturating_add(1) {
        if let Some(right) = node.right.take() {
            node.right = if height(&right.right) < height(&right.left) {
                Some(rotate_right(right))
            } else {
                Some(right)
            };
        }
        rotate_left(node)
    } else {
        with_height(node)
    }
}

/// What the entries of a node are, in terms of its two subtrees.
proof fn lemma_node<const K: usize, T>(
    left: Seq<([u8; K], T)>,
    entry: ([u8; K], T),
    right: Seq<([u8; K], T)>,
)
    requires
        ascending(left + seq![entry] + right),
    ensures
        ascending(left),
        ascending(right),
        ({
            let all = map_of(left + seq![entry] + right);
            &&& forall|key: [u8; K]| #[trigger]
                all.contains_key(key) <==> (map_of(left).contains_key(key) || key == entry.0
                    || map_of(right).contains_key(key))
            &&& forall|key: [u8; K]| #[trigger]
                map_of(left).contains_key(key) ==> all[key] == map_of(left)[key] && key_lt(
                    key@,
                    entry.0@,
                )
            &&& forall|key: [u8; K]| #[trigger]
                map_of(right).contains_key(key) ==> all[key] == map_of(right)[key] && key_lt(
                    entry.0@,
                    key@,
                )
            &&& all[entry.0] == entry.1
        }),
{
    let entries = left + seq![entry] + right;
    let mid = left.len() as int;
    assert(entries[mid] == entry);
    assert forall|i: int| 0 <= i < left.len() implies left[i] == #[trigger] entries[i] by {}
    assert forall|i: int| 0 <= i < right.len() implies #[trigger] right[i] == entries[mid + 1
        + i] by {}
    assert(ascending(left)) by {
        assert forall|i: int, j: int| 0 <= i < j < left.len() implies key_lt(
            (#[trigger] left[i]).0@,
            (#[trigger] left[j]).0@,
        ) by {
            assert(key_lt(entries[i].0@, entries[j].0@));
        }
    }
    assert(ascending(right)) by {
        assert forall|i: int, j: int| 0 <= i < j < right.len() implies key_lt(
            (#[trigger] right[i]).0@,
            (#[trigger] right[j]).0@,
        ) by {
            assert(key_lt(entries[mid + 1 + i].0@, entries[mid + 1 + j].0@));
        }
    }
    lemma_value_at(entries, mid);
    let all = map_of(entries);
    assert forall|key: [u8; K]| #[trigger]
        map_of(left).contains_key(key) implies all.contains_key(key) && all[key]
        == map_of(left)[key] && key_lt(key@, entry.0@) by {
        let i = choose|i: int| 0 <= i < left.len() && (#[trigger] left[i]).0 == key;
        lemma_value_at(left, i);
        lemma_value_at(entries, i);
        assert(key_lt(entries[i].0@, entries[mid].0@));
    }
    assert forall|key: [u8; K]| #[trigger]
        map_of(right).contains_key(key) implies all.contains_key(key) && all[key]
        == map_of(right)[key] && key_lt(entry.0@, key@) by {
        let i = choose|i: int| 0 <= i < right.len() && (#[trigger] right[i]).0 == key;
        lemma_value_at(right, i);
        lemma_value_at(entries, mid + 1 + i);
        assert(key_lt(entries[mid].0@, entries[mid + 1 + i].0@));
    }
    assert forall|key: [u8; K]| #[trigger] all.contains_key(key) implies map_of(
        left,
    ).contains_key(key) || key == entry.0 || map_of(right).contains_key(key) by {
        let i = choose|i: int| 0 <= i < entries.len() && (#[trigger] entries[i]).0 == key;
        if i < mid {
            assert(left[i].0 == key);
        } else if i > mid {
            assert(right[i - mid - 1].0 == key);
        }
    }
}

/// Two ascending sequences with an entry between them make an ascending one.
proof fn lemma_join<const K: usize, T>(
    left: Seq<([u8; K], T)>,
    entry: ([u8; K], T),
    right: Seq<([u8; K], T)>,
)
    requires
        ascending(left),
        ascending(right),
        forall|key: [u8; K]| #[trigger]
            map_of(left).contains_key(key) ==> key_lt(key@, entry.0@),
        forall|key: [u8; K]| #[trigger]
            map_of(right).contains_key(key) ==> key_lt(entry.0@, key@),
    ensures
        ascending(left + seq![entry] + right),
{
    let entries = left + seq![entry] + right;
    let mid = left.len() as int;
    assert forall|i: int, j: int| 0 <= i < j < entries.len() implies key_lt(
        (#[trigger] entries[i]).0@,
        (#[trigger] entries[j]).0@,
    ) by {
        if i < mid {
            assert(left[i] == entries[i]);
            assert(map_of(left).contains_key(left[i].0));
        }
        if j > mid {
            assert(right[j - mid - 1] == entries[j]);
            assert(map_of(right).contains_key(right[j - mid - 1].0));
        }
        if i < mid && j < mid {
            assert(left[j] == entries[j]);
        } else if i < mid && j > mid {
            lemma_key_lt_transitive(entries[i].0@, entry.0@, entries[j].0@);
        } else if i > mid {
            assert(right[i - mid - 1] == entries[i]);
        }
    }
}

/// A key that compares to the key of a node in one way is not found on the
/// other side of it.
proof fn lemma_sides<const K: usize, T>(
    left: Seq<([u8; K], T)>,
    entry: ([u8; K], T),
    right: Seq<([u8; K], T)>,
    key: [u8; K],
)
    requires
        ascending(left + seq![entry] + right),
    ensures
        key_lt(key@, entry.0@) ==> !map_of(right).contains_key(key) && key != entry.0,
        key_lt(entry.0@, key@) ==> !map_of(left).contains_key(key) && key != entry.0,
        key == entry.0 ==> !map_of(left).contains_key(key) && !map_of(right).contains_key(key),
{
    lemma_node(left, entry, right);
    lemma_key_lt_irreflexive(key@);
    if key_lt(key@, entry.0@) {
        lemma_key_lt_asymmetric(key@, entry.0@);
    }
    if key_lt(entry.0@, key@) {
        lemma_key_lt_asymmetric(entry.0@, key@);
    }
}

/// Puts an entry into a tree and hands back the value that it takes the
/// place of.
fn insert_into<const K: usize, T>(
    tree: &mut Option<Box<Node<K, T>>>,
    key: [u8; K],
    value: T,
) -> (previous: Option<T>)
    requires
        ascending(in_order(*old(tree))),
        balanced(*old(tree)),
        in_order(*old(tree)).len() <= usize::MAX,
    ensures
        ascending(in_order(*final(tree))),
        map_of(in_order(*final(tree))) == map_of(in_order(*old(tree))).insert(key, value),
        previous == map_of(in_order(*old(tree))).get(key),
        balanced(*final(tree)),
        tree_height(*old(tree)) <= tree_height(*final(tree)) <= tree_height(*old(tree)) + 1,
    decreases *old(tree),
{
    let ghost before = in_order(*tree);
    match tree.take() {
        None => {
            *tree = Some(Box::new(Node { key, value, left: None, right: None, height: 1 }));
            proof {
                reveal_with_fuel(in_order, 2);
                reveal_with_fuel(balanced, 2);
                reveal_with_fuel(tree_height, 2);
                let after = in_order(*tree);
                assert(after =~= seq![(key, value)]);
                lemma_value_at(after, 0);
                assert(map_of(after) =~= map_of(before).insert(key, value));
            }
            None
        },
        Some(boxed) => {
            let mut node = boxed;
            let ghost left = in_order(node.left);
            let ghost entry = (node.key, node.value);
            let ghost right = in_order(node.right);
            proof {
                lemma_node(left, entry, right);
                lemma_sides(left, entry, right, key);
                lemma_height_fits(node.left);
                lemma_height_fits(node.right);
            }
            let previous: Option<T>;
            match order_keys(&key, &node.key) {
                KeyOrder::Less => {
                    previous = insert_into(&mut node.left, key, value);
                },
                KeyOrder::Greater => {
                    previous = insert_into(&mut node.right, key, value);
                },
                KeyOrder::Equal => {
                    let mut slot = value;
                    std::mem::swap(&mut slot, &mut node.value);
                    previous = Some(slot);
                },
            }
            proof {
                let new_left = in_order(node.left);
                let new_entry = (node.key, node.value);
                let new_right = in_order(node.right);
                lemma_join(new_left, new_entry, new_right);
                lemma_node(new_left, new_entry, new_right);
                assert(map_of(new_left + seq![new_entry] + new_right) =~= map_of(before).insert(
                    key,
                    value,
                ));
            }
            *tree = Some(balance(node));
            previous
        },
    }
}

/// Takes the first entry out of a tree that has one.
fn take_first<const K: usize, T>(tree: &mut Option<Box<Node<K, T>>>) -> (first: Option<([u8; K], T)>)
    requires
        balanced(*old(tree)),
    ensures
        match first {
            None => in_order(*old(tree)).len() == 0 && in_order(*final(tree)).len() == 0,
            Some(entry) => in_order(*old(tree)) == seq![entry] + in_order(*final(tree)),
        },
        balanced(*final(tree)),
        tree_height(*final(tree)) <= tree_height(*old(tree)) <= tree_height(*final(tree)) + 1,
    decreases *old(tree),
{
    let ghost before = in_order(*tree);
    match tree.take() {
        None => None,
        Some(boxed) => {
            let mut node = boxed;
            match take_first(&mut node.left) {
                Some(entry) => {
                    *tree = Some(balance(node));
                    assert(before =~= seq![entry] + in_order(*tree));
                    Some(entry)
                },
                None => {
                    let Node { key, value, left: _, right, height: _ } = *node;
                    *tree = right;
                    assert(before =~= seq![(key, value)] + in_order(*tree));
                    Some((key, value))
                },
            }
        },
    }
}

/// Takes the entry of a key out of a tree.
fn remove_from<const K: usize, T>(tree: &mut Option<Box<Node<K, T>>>, key: &[u8; K]) -> (removed:
    Option<T>)
    requires
        ascending(in_order(*old(tree))),
        balanced(*old(tree)),
    ensures
        ascending(in_order(*final(tree))),
        balanced(*final(tree)),
        tree_height(*final(tree)) <= tree_height(*old(tree)) <= tree_height(*final(tree)) + 1,
        map_of(in_order(*final(tree))) == map_of(in_order(*old(tree))).remove(*key),
        removed == map_of(in_order(*old(tree))).get(*key),
        in_order(*final(tree)).len() == in_order(*old(tree)).len() - (if removed is Some {
            1int
        } else {
            0
        }),
    decreases *old(tree),
{
    let ghost before = in_order(*tree);
    match tree.take() {
        None => {
            assert(map_of(before) =~= map_of(before).remove(*key));
            None
        },
        Some(boxed) => {
            let mut node = boxed;
            let ghost left = in_order(node.left);
            let ghost entry = (node.key, node.value);
            let ghost right = in_order(node.right);
            proof {
                lemma_node(left, entry, right);
                lemma_sides(left, entry, right, *key);
            }
            match order_keys(key, &node.key) {
                KeyOrder::Less => {
                    let removed = remove_from(&mut node.left, key);
                    proof {
                        let new_left = in_order(node.left);
                        lemma_join(new_left, entry, right);
                        lemma_node(new_left, entry, right);
                        assert(map_of(new_left + seq![entry] + right) =~= map_of(before).remove(
                            *key,
                        ));
                    }
                    *tree = Some(balance(node));
                    removed
                },
                KeyOrder::Greater => {
                    let removed = remove_from(&mut node.right, key);
                    proof {
                        let new_right = in_order(node.right);
                        lemma_join(left, entry, new_right);
                        lemma_node(left, entry, new_right);
                        assert(map_of(left + seq![entry] + new_right) =~= map_of(before).remove(
                            *key,
                        ));
                    }
                    *tree = Some(balance(node));
                    removed
                },
                KeyOrder::Equal => {
                    match take_first(&mut node.right) {
                        None => {
                            let Node { key: _, value, left: rest, right: _, height: _ } = *node;
                            *tree = rest;
                            assert(before =~= left + seq![entry]);
                            assert(right =~= Seq::<([u8; K], T)>::empty());
                            assert(map_of(left) =~= map_of(before).remove(*key));
                            Some(value)
                        },
                        Some((next_key, next_value)) => {
                            proof {
                                let next = (next_key, next_value);
                                let rest = in_order(node.right);
                                let none = Seq::<([u8; K], T)>::empty();
                                assert(right =~= none + seq![next] + rest);
                                lemma_node(none, next, rest);
                                lemma_sides(none, next, rest, next_key);
                                assert(map_of(right).contains_key(next_key));
                                assert forall|k: [u8; K]| #[trigger]
                                    map_of(left).contains_key(k) implies key_lt(
                                    k@,
                                    next_key@,
                                ) by {
                                    lemma_key_lt_transitive(k@, entry.0@, next_key@);
                                }
                                lemma_join(left, next, rest);
                                lemma_node(left, next, rest);
                                lemma_sides(left, next, rest, next_key);
                                assert(map_of(left + seq![next] + rest) =~= map_of(before).remove(
                                    *key,
                                ));
                            }
                            node.key = next_key;
                            let mut slot = next_value;
                            std::mem::swap(&mut slot, &mut node.value);
                            *tree = Some(balance(node));
                            Some(slot)
                        },
                    }
                },
            }
        },
    }
}

/// Looks a key up in a tree.
fn get_from<'a, const K: usize, T>(tree: &'a Option<Box<Node<K, T>>>, key: &[u8; K]) -> (found:
    Option<&'a T>)
    requires
        ascending(in_order(*tree)),
    ensures
        match found {
            Some(value) => map_of(in_order(*tree)).get(*key) == Some(*value),
            None => map_of(in_order(*tree)).get(*key) is None,
        },
    decreases tree,
{
    match tree {
        None => None,
        Some(node) => {
            proof {
                let entry = (node.key, node.value);
                lemma_node(in_order(node.left), entry, in_order(node.right));
                lemma_sides(in_order(node.left), entry, in_order(node.right), *key);
            }
            match order_keys(key, &node.key) {
                KeyOrder::Less => get_from(&node.left, key),
                KeyOrder::Greater => get_from(&node.right, key),
                KeyOrder::Equal => Some(&node.value),
            }
        },
    }
}

/// Appends the entries of a tree to a vector, from left to right.
fn append_entries<const K: usize, T: Copy>(
    tree: &Option<Box<Node<K, T>>>,
    entries: &mut Vec<([u8; K], T)>,
)
    ensures
        final(entries)@ == old(entries)@ + in_order(*tree),
    decreases tree,
{
    let ghost before = entries@;
    match tree {
        None => {
            assert(entries@ =~= before + in_order(*tree));
        },
        Some(node) => {
            append_entries(&node.left, entries);
            entries.push((node.key, node.value));
            append_entries(&node.right, entries);
            assert(entries@ =~= before + in_order(*tree));
        },
    }
}

/// The entries that references lead to.
pub open spec fn entries_behind<const K: usize, T>(refs: Seq<(&[u8; K], &T)>) -> Seq<([u8; K], T)> {
    refs.map_values(|entry: (&[u8; K], &T)| (*entry.0, *entry.1))
}

/// The key is not before `start` and is before `end`, where there are such
/// bounds.
pub open spec fn is_within<const K: usize>(
    key: [u8; K],
    start: Option<[u8; K]>,
    end: Option<[u8; K]>,
) -> bool {
    &&& start matches Some(bound) ==> !key_lt(key@, bound@)
    &&& end matches Some(bound) ==> key_lt(key@, bound@)
}

/// The entries whose keys lie within two bounds.
pub open spec fn entries_within<const K: usize, T>(
    entries: Seq<([u8; K], T)>,
    start: Option<[u8; K]>,
    end: Option<[u8; K]>,
) -> Seq<([u8; K], T)> {
    entries.filter(|entry: ([u8; K], T)| is_within(entry.0, start, end))
}

/// Nothing lies within two bounds of nothing.
proof fn lemma_within_nothing<const K: usize, T>(start: Option<[u8; K]>, end: Option<[u8; K]>)
    ensures
        entries_within(Seq::<([u8; K], T)>::empty(), start, end) == Seq::<([u8; K], T)>::empty(),
{
    reveal(Seq::filter);
}

/// The key is before the lower bound.
#[verifier::opaque]
spec fn is_too_low<const K: usize>(key: [u8; K], start: Option<[u8; K]>) -> bool {
    start matches Some(bound) && key_lt(key@, bound@)
}

/// The key is not before the upper bound.
#[verifier::opaque]
spec fn is_too_high<const K: usize>(key: [u8; K], end: Option<[u8; K]>) -> bool {
    end matches Some(bound) && !key_lt(key@, bound@)
}

/// Whether a key is before the lower bound.
fn too_low<const K: usize>(key: &[u8; K], start: &Option<[u8; K]>) -> (r: bool)
    ensures
        r == is_too_low(*key, *start),
{
    proof {
        reveal(is_too_low);
    }
    match start {
        Some(bound) => comes_before(key, bound),
        None => false,
    }
}

/// Whether a key is not before the upper bound.
fn too_high<const K: usize>(key: &[u8; K], end: &Option<[u8; K]>) -> (r: bool)
    ensures
        r == is_too_high(*key, *end),
{
    proof {
        reveal(is_too_high);
    }
    match end {
        Some(bound) => !comes_before(key, bound),
        None => false,
    }
}

/// What lies within two bounds of a node, in terms of its two subtrees.
proof fn lemma_within<const K: usize, T>(
    left: Seq<([u8; K], T)>,
    entry: ([u8; K], T),
    right: Seq<([u8; K], T)>,
    start: Option<[u8; K]>,
    end: Option<[u8; K]>,
)
    requires
        ascending(left + seq![entry] + right),
    ensures
        ascending(left),
        ascending(right),
        entries_within(left + seq![entry] + right, start, end) == entries_within(left, start, end)
            + (if !is_too_low(entry.0, start) && !is_too_high(entry.0, end) {
            seq![entry]
        } else {
            Seq::empty()
        }) + entries_within(right, start, end),
        is_too_low(entry.0, start) ==> entries_within(left, start, end).len() == 0,
        is_too_high(entry.0, end) ==> entries_within(right, start, end).len() == 0,
{
    reveal(is_too_low);
    reveal(is_too_high);
    let pred = |entry: ([u8; K], T)| is_within(entry.0, start, end);
    let one = Seq::<([u8; K], T)>::empty().push(entry);
    lemma_node(left, entry, right);
    assert(one =~= seq![entry]);
    Seq::filter_distributes_over_add(left + seq![entry], right, pred);
    Seq::filter_distributes_over_add(left, seq![entry], pred);
    Seq::<([u8; K], T)>::empty().lemma_filter_push(entry, pred);
    assert(Seq::<([u8; K], T)>::empty().filter(pred) =~= Seq::empty()) by {
        reveal(Seq::filter);
    }
    if is_too_low(entry.0, start) {
        assert forall|i: int| 0 <= i < left.len() implies !pred(#[trigger] left[i]) by {
            assert(map_of(left).contains_key(left[i].0));
            lemma_key_lt_transitive(left[i].0@, entry.0@, start->0@);
        }
        left.lemma_all_neg_filter_empty(pred);
    }
    if is_too_high(entry.0, end) {
        assert forall|i: int| 0 <= i < right.len() implies !pred(#[trigger] right[i]) by {
            assert(map_of(right).contains_key(right[i].0));
            if key_lt(right[i].0@, end->0@) {
                lemma_key_lt_transitive(entry.0@, right[i].0@, end->0@);
            }
        }
        right.lemma_all_neg_filter_empty(pred);
    }
}

/// Appends references to the entries of a tree to a vector, from left to right.
fn append_refs<'a, const K: usize, T>(
    tree: &'a Option<Box<Node<K, T>>>,
    refs: &mut Vec<(&'a [u8; K], &'a T)>,
)
    ensures
        entries_behind(final(refs)@) == entries_behind(old(refs)@) + in_order(*tree),
    decreases tree,
{
    let ghost before = entries_behind(refs@);
    match tree {
        None => {
            assert(entries_behind(refs@) =~= before + in_order(*tree));
        },
        Some(node) => {
            append_refs(&node.left, refs);
            let ghost middle = refs@;
            refs.push((&node.key, &node.value));
            assert(entries_behind(refs@) =~= entries_behind(middle).push((node.key, node.value)));
            append_refs(&node.right, refs);
            assert(entries_behind(refs@) =~= before + in_order(*tree));
        },
    }
}

/// Appends references to the entries of a tree within two bounds to a vector,
/// from left to right. Subtrees outside of the bounds are not looked at.
fn append_range<'a, const K: usize, T>(
    tree: &'a Option<Box<Node<K, T>>>,
    start: &Option<[u8; K]>,
    end: &Option<[u8; K]>,
    refs: &mut Vec<(&'a [u8; K], &'a T)>,
)
    requires
        ascending(in_order(*tree)),
    ensures
        entries_behind(final(refs)@) == entries_behind(old(refs)@) + entries_within(
            in_order(*tree),
            *start,
            *end,
        ),
    decreases tree,
{
    let ghost before = entries_behind(refs@);
    match tree {
        None => {
            proof {
                lemma_within_nothing::<K, T>(*start, *end);
            }
            assert(entries_behind(refs@) =~= before + entries_within(in_order(*tree), *start, *end));
        },
        Some(node) => {
            let ghost left = in_order(node.left);
            let ghost entry = (node.key, node.value);
            let ghost right = in_order(node.right);
            proof {
                lemma_within(left, entry, right, *start, *end);
            }
            let ghost low = entries_within(left, *start, *end);
            let ghost high = entries_within(right, *start, *end);
            let too_low = too_low(&node.key, start);
            let too_high = too_high(&node.key, end);
            if !too_low {
                append_range(&node.left, start, end, refs);
            }
            assert(entries_behind(refs@) =~= before + low);
            let ghost middle = refs@;
            let ghost one = if !too_low && !too_high {
                seq![entry]
            } else {
                Seq::empty()
            };
            if !too_low && !too_high {
                refs.push((&node.key, &node.value));
            }
            assert(entries_behind(refs@) =~= entries_behind(middle) + one);
            let ghost upper = entries_behind(refs@);
            if !too_high {
                append_range(&node.right, start, end, refs);
            }
            assert(entries_behind(refs@) =~= upper + high);
            assert(before + low + one + high =~= before + (low + one + high));
        },
    }
}

/// The first entry of a tree.
fn first_of<'a, const K: usize, T>(tree: &'a Option<Box<Node<K, T>>>) -> (r: Option<
    (&'a [u8; K], &'a T),
>)
    ensures
        match r {
            Some(entry) => in_order(*tree).len() > 0 && (*entry.0, *entry.1) == in_order(
                *tree,
            ).first(),
            None => in_order(*tree).len() == 0,
        },
    decreases tree,
{
    match tree {
        None => None,
        Some(node) => match first_of(&node.left) {
            Some(entry) => Some(entry),
            None => Some((&node.key, &node.value)),
        },
    }
}

/// The last entry of a tree.
fn last_of<'a, const K: usize, T>(tree: &'a Option<Box<Node<K, T>>>) -> (r: Option<
    (&'a [u8; K], &'a T),
>)
    ensures
        match r {
            Some(entry) => in_order(*tree).len() > 0 && (*entry.0, *entry.1) == in_order(
                *tree,
            ).last(),
            None => in_order(*tree).len() == 0,
        },
    decreases tree,
{
    match tree {
        None => None,
        Some(node) => match last_of(&node.right) {
            Some(entry) => Some(entry),
            None => Some((&node.key, &node.value)),
        },
    }
}

/// A map from keys of `K` bytes to values, in ascending key order.
pub struct OrderedMap<const K: usize, T> {
    root: Option<Box<Node<K, T>>>,
    /// One unit for each entry: a vector of units takes no room.
    count: Vec<()>,
}

impl<const K: usize, T> View for OrderedMap<K, T> {
    type V = Map<[u8; K], T>;

    open spec fn view(&self) -> Map<[u8; K], T> {
        map_of(self.spec_entries())
    }
}

impl<const K: usize, T> OrderedMap<K, T> {
    /// The entries in ascending key order.
    pub closed spec fn spec_entries(self) -> Seq<([u8; K], T)> {
        in_order(self.root)
    }

    pub closed spec fn wf(self) -> bool {
        &&& ascending(in_order(self.root))
        &&& balanced(self.root)
        &&& self.count@.len() == in_order(self.root).len()
    }

    /// The entries of a well-formed map ascend.
    pub proof fn lemma_entries_ascend(self)
        requires
            self.wf(),
        ensures
            ascending(self.spec_entries()),
    {
    }

    /// A map without entries.
    pub fn new() -> (r: Self)
        ensures
            r.wf(),
            r.spec_entries() == Seq::<([u8; K], T)>::empty(),
            r@ == Map::<[u8; K], T>::empty(),
    {
        let r = OrderedMap { root: None, count: Vec::new() };
        assert(r@ =~= Map::<[u8; K], T>::empty());
        r
    }

    /// The number of entries.
    pub fn len(&self) -> (r: usize)
        requires
            self.wf(),
        ensures
            r == self.spec_entries().len(),
            r == self@.len(),
    {
        proof {
            lemma_map_of_len(self.spec_entries());
        }
        self.count.len()
    }

    /// Whether the map has no entry.
    pub fn is_empty(&self) -> (r: bool)
        requires
            self.wf(),
        ensures
            r == (self@ == Map::<[u8; K], T>::empty()),
            r == (self.spec_entries().len() == 0),
    {
        proof {
            let entries = self.spec_entries();
            if entries.len() > 0 {
                assert(self@.contains_key(entries[0].0));
            } else {
                assert(self@ =~= Map::<[u8; K], T>::empty());
            }
        }
        self.count.len() == 0
    }

    /// The value of a key.
    pub fn get(&self, key: &[u8; K]) -> (found: Option<&T>)
        requires
            self.wf(),
        ensures
            match found {
                Some(value) => self@.get(*key) == Some(*value),
                None => !self@.contains_key(*key),
            },
    {
        get_from(&self.root, key)
    }

    /// Whether a key has a value.
    pub fn contains_key(&self, key: &[u8; K]) -> (r: bool)
        requires
            self.wf(),
        ensures
            r == self@.contains_key(*key),
    {
        get_from(&self.root, key).is_some()
    }

    /// The keys and their values, in ascending key order.
    pub fn iter(&self) -> (r: Vec<(&[u8; K], &T)>)
        requires
            self.wf(),
        ensures
            entries_behind(r@) == self.spec_entries(),
            ascending(entries_behind(r@)),
            map_of(entries_behind(r@)) == self@,
    {
        let mut r: Vec<(&[u8; K], &T)> = Vec::new();
        append_refs(&self.root, &mut r);
        assert(entries_behind(r@) =~= self.spec_entries());
        r
    }

    /// The keys from `bounds.start` on and before `bounds.end` with their
    /// values, in ascending key order.
    pub fn range(&self, bounds: core::ops::Range<[u8; K]>) -> (r: Vec<(&[u8; K], &T)>)
        requires
            self.wf(),
        ensures
            entries_behind(r@) == entries_within(
                self.spec_entries(),
                Some(bounds.start),
                Some(bounds.end),
            ),
    {
        self.within(&Some(bounds.start), &Some(bounds.end))
    }

    /// The keys from `start` on with their values, in ascending key order.
    pub fn range_from(&self, start: &[u8; K]) -> (r: Vec<(&[u8; K], &T)>)
        requires
            self.wf(),
        ensures
            entries_behind(r@) == entries_within(self.spec_entries(), Some(*start), None),
    {
        self.within(&Some(*start), &None)
    }

    /// The keys before `end` with their values, in ascending key order.
    pub fn range_to(&self, end: &[u8; K]) -> (r: Vec<(&[u8; K], &T)>)
        requires
            self.wf(),
        ensures
            entries_behind(r@) == entries_within(self.spec_entries(), None, Some(*end)),
    {
        self.within(&None, &Some(*end))
    }

    fn within(&self, start: &Option<[u8; K]>, end: &Option<[u8; K]>) -> (r: Vec<(&[u8; K], &T)>)
        requires
            self.wf(),
        ensures
            entries_behind(r@) == entries_within(self.spec_entries(), *start, *end),
    {
        let mut r: Vec<(&[u8; K], &T)> = Vec::new();
        append_range(&self.root, start, end, &mut r);
        assert(entries_behind(r@) =~= entries_within(self.spec_entries(), *start, *end));
        r
    }

    /// The keys, in ascending order.
    pub fn keys(&self) -> (r: Vec<&[u8; K]>)
        requires
            self.wf(),
        ensures
            r@.len() == self.spec_entries().len(),
            forall|i: int| 0 <= i < r@.len() ==> *(#[trigger] r@[i]) == self.spec_entries()[i].0,
    {
        let entries = self.iter();
        assert(entries_behind(entries@).len() == entries@.len());
        let mut r: Vec<&[u8; K]> = Vec::new();
        let mut i: usize = 0;
        while i < entries.len()
            invariant
                i <= entries.len(),
                r@.len() == i,
                entries_behind(entries@) == self.spec_entries(),
                forall|j: int| 0 <= j < i ==> *(#[trigger] r@[j]) == self.spec_entries()[j].0,
            decreases entries.len() - i,
        {
            assert(entries_behind(entries@)[i as int].0 == *entries@[i as int].0);
            r.push(entries[i].0);
            i = i + 1;
        }
        r
    }

    /// The values, in ascending order of their keys.
    pub fn values(&self) -> (r: Vec<&T>)
        requires
            self.wf(),
        ensures
            r@.len() == self.spec_entries().len(),
            forall|i: int| 0 <= i < r@.len() ==> *(#[trigger] r@[i]) == self.spec_entries()[i].1,
    {
        let entries = self.iter();
        assert(entries_behind(entries@).len() == entries@.len());
        let mut r: Vec<&T> = Vec::new();
        let mut i: usize = 0;
        while i < entries.len()
            invariant
                i <= entries.len(),
                r@.len() == i,
                entries_behind(entries@) == self.spec_entries(),
                forall|j: int| 0 <= j < i ==> *(#[trigger] r@[j]) == self.spec_entries()[j].1,
            decreases entries.len() - i,
        {
            assert(entries_behind(entries@)[i as int].1 == *entries@[i as int].1);
            r.push(entries[i].1);
            i = i + 1;
        }
        r
    }

    /// The lowest key with its value.
    pub fn first_key_value(&self) -> (r: Option<(&[u8; K], &T)>)
        requires
            self.wf(),
        ensures
            match r {
                Some(entry) => self.spec_entries().len() > 0 && (*entry.0, *entry.1)
                    == self.spec_entries().first(),
                None => self.spec_entries().len() == 0,
            },
    {
        first_of(&self.root)
    }

    /// The highest key with its value.
    pub fn last_key_value(&self) -> (r: Option<(&[u8; K], &T)>)
        requires
            self.wf(),
        ensures
            match r {
                Some(entry) => self.spec_entries().len() > 0 && (*entry.0, *entry.1)
                    == self.spec_entries().last(),
                None => self.spec_entries().len() == 0,
            },
    {
        last_of(&self.root)
    }

    /// Gives a key a value and hands back the value that it had.
    pub fn insert(&mut self, key: [u8; K], value: T) -> (previous: Option<T>)
        requires
            old(self).wf(),
        ensures
            final(self).wf(),
            final(self)@ == old(self)@.insert(key, value),
            previous == old(self)@.get(key),
    {
        let ghost before = self.spec_entries();
        assert(self.count.len() == before.len());
        let previous = insert_into(&mut self.root, key, value);
        proof {
            lemma_map_of_len(before);
            lemma_map_of_len(self.spec_entries());
        }
        if previous.is_none() {
            self.count.push(());
        }
        previous
    }

    /// Takes the value of a key away and hands it back.
    pub fn remove(&mut self, key: &[u8; K]) -> (removed: Option<T>)
        requires
            old(self).wf(),
        ensures
            final(self).wf(),
            final(self)@ == old(self)@.remove(*key),
            removed == old(self)@.get(*key),
    {
        let removed = remove_from(&mut self.root, key);
        if removed.is_some() {
            let _ = self.count.pop();
        }
        removed
    }
}

impl<const K: usize, T: Copy> OrderedMap<K, T> {
    /// The entries in ascending key order.
    pub fn entries(&self) -> (r: Vec<([u8; K], T)>)
        requires
            self.wf(),
        ensures
            r@ == self.spec_entries(),
            ascending(r@),
            map_of(r@) == self@,
    {
        let mut r: Vec<([u8; K], T)> = Vec::new();
        append_entries(&self.root, &mut r);
        assert(r@ =~= self.spec_entries());
        r
    }
}

/// A sequence of ascending entries has as many entries as its map.
pub proof fn lemma_map_of_len<const K: usize, T>(entries: Seq<([u8; K], T)>)
    requires
        ascending(entries),
    ensures
        map_of(entries).dom().finite(),
        map_of(entries).len() == entries.len(),
    decreases entries.len(),
{
    if entries.len() == 0 {
        assert(map_of(entries) =~= Map::<[u8; K], T>::empty());
    } else {
        let front = entries.drop_last();
        let last = entries.last();
        let none = Seq::<([u8; K], T)>::empty();
        assert(entries =~= front + seq![last] + none);
        lemma_node(front, last, none);
        lemma_sides(front, last, none, last.0);
        lemma_map_of_len(front);
        assert(map_of(entries) =~= map_of(front).insert(last.0, last.1));
    }
}

/// A map has one sequence of entries in ascending key order.
pub proof fn law_entries_are_determined<const K: usize, T>(
    a: Seq<([u8; K], T)>,
    b: Seq<([u8; K], T)>,
)
    requires
        ascending(a),
        ascending(b),
        map_of(a) == map_of(b),
    ensures
        a == b,
    decreases a.len(),
{
    if a.len() == 0 {
        if b.len() > 0 {
            assert(has_key(b, b[0].0));
            assert(map_of(a).dom().contains(b[0].0));
        }
        assert(a =~= b);
    } else {
        let x = a.last();
        let y = b.last();
        assert(has_key(a, a[a.len() - 1].0));
        assert(map_of(b).dom().contains(x.0));
        let i = choose|i: int| 0 <= i < b.len() && (#[trigger] b[i]).0 == x.0;
        assert(has_key(b, b[b.len() - 1].0));
        assert(map_of(a).dom().contains(y.0));
        let j = choose|j: int| 0 <= j < a.len() && (#[trigger] a[j]).0 == y.0;
        if x.0 != y.0 {
            assert(key_lt(a[j].0@, a[a.len() - 1].0@));
            assert(key_lt(b[i].0@, b[b.len() - 1].0@));
            lemma_key_lt_asymmetric(x.0@, y.0@);
        }
        lemma_value_at(a, a.len() - 1);
        lemma_value_at(b, b.len() - 1);
        assert(map_of(a)[x.0] == x.1);
        assert(map_of(b)[y.0] == y.1);
        lemma_map_of_front(a);
        lemma_map_of_front(b);
        law_entries_are_determined(a.drop_last(), b.drop_last());
        assert(a =~= a.drop_last().push(x));
        assert(b =~= b.drop_last().push(y));
    }
}

/// Without the last entry, the map lacks its key.
proof fn lemma_map_of_front<const K: usize, T>(entries: Seq<([u8; K], T)>)
    requires
        ascending(entries),
        entries.len() > 0,
    ensures
        ascending(entries.drop_last()),
        map_of(entries.drop_last()) == map_of(entries).remove(entries.last().0),
{
    let front = entries.drop_last();
    let last = entries.last();
    assert(ascending(front)) by {
        assert forall|i: int, j: int| 0 <= i < j < front.len() implies key_lt(
            (#[trigger] front[i]).0@,
            (#[trigger] front[j]).0@,
        ) by {
            assert(front[i] == entries[i] && front[j] == entries[j]);
        }
    }
    assert forall|key: [u8; K]|
        #![trigger has_key(front, key)]
        #![trigger has_key(entries, key)]
        (has_key(front, key) <==> has_key(entries, key) && key != last.0) && (has_key(front, key)
            ==> value_at(front, key) == value_at(entries, key)) by {
        if has_key(front, key) {
            let i = choose|i: int| 0 <= i < front.len() && (#[trigger] front[i]).0 == key;
            assert(entries[i] == front[i]);
            lemma_value_at(front, i);
            lemma_value_at(entries, i);
            assert(key_lt(entries[i].0@, entries[entries.len() - 1].0@));
            lemma_key_lt_irreflexive(key@);
        }
        if has_key(entries, key) && key != last.0 {
            let i = choose|i: int| 0 <= i < entries.len() && (#[trigger] entries[i]).0 == key;
            assert(front[i] == entries[i]);
        }
    }
    assert(map_of(front) =~= map_of(entries).remove(last.0));
}

/// Two keys of the same length compare by the first byte in which they differ,
/// and no key comes before itself.
pub proof fn law_first_different_byte_decides(a: Seq<u8>, b: Seq<u8>, i: int)
    requires
        a.len() == b.len(),
        0 <= i < a.len(),
        forall|j: int| 0 <= j < i ==> a[j] == b[j],
        a[i] != b[i],
    ensures
        key_lt(a, b) <==> a[i] < b[i],
        key_lt(b, a) <==> b[i] < a[i],
        !key_lt(a, a),
{
    if a[i] < b[i] {
        assert(key_lt(a, b));
        lemma_key_lt_asymmetric(a, b);
    } else {
        assert(key_lt(b, a)) by {
            assert(b[i] < a[i]);
        }
        lemma_key_lt_asymmetric(b, a);
    }
}

/// The map that ascending entries stand for holds each of them and nothing
/// else.
pub proof fn law_map_holds_its_entries<const K: usize, T>(entries: Seq<([u8; K], T)>)
    requires
        ascending(entries),
    ensures
        forall|i: int|
            0 <= i < entries.len() ==> map_of(entries).get((#[trigger] entries[i]).0) == Some(
                entries[i].1,
            ),
        forall|key: [u8; K]| #[trigger]
            map_of(entries).contains_key(key) ==> exists|i: int|
                0 <= i < entries.len() && (#[trigger] entries[i]).0 == key,
        map_of(entries).len() == entries.len(),
{
    lemma_map_of_len(entries);
    assert forall|i: int| 0 <= i < entries.len() implies map_of(entries).get(
        (#[trigger] entries[i]).0,
    ) == Some(entries[i].1) by {
        lemma_value_at(entries, i);
    }
    assert forall|key: [u8; K]| #[trigger] map_of(entries).contains_key(key) implies exists|i: int|
        0 <= i < entries.len() && (#[trigger] entries[i]).0 == key by {
        assert(has_key(entries, key));
    }
}

/// An entry is within two bounds if and only if its key does not come before
/// the first and comes before the second. The entries within bounds come in
/// their order, and all of them do.
pub proof fn law_range<const K: usize, T>(
    entries: Seq<([u8; K], T)>,
    start: Option<[u8; K]>,
    end: Option<[u8; K]>,
)
    requires
        ascending(entries),
    ensures
        forall|i: int|
            0 <= i < entries.len() ==> (entries_within(entries, start, end).contains(
                #[trigger] entries[i],
            ) <==> (start matches Some(low) ==> !key_lt(entries[i].0@, low@)) && (end matches Some(
                high,
            ) ==> key_lt(entries[i].0@, high@))),
        forall|n: int|
            0 <= n < entries_within(entries, start, end).len() ==> entries.contains(
                #[trigger] entries_within(entries, start, end)[n],
            ),
        ascending(entries_within(entries, start, end)),
    decreases entries.len(),
{
    let pred = |entry: ([u8; K], T)| is_within(entry.0, start, end);
    let within = entries_within(entries, start, end);
    assert forall|i: int| 0 <= i < entries.len() implies (within.contains(#[trigger] entries[i])
        <==> (start matches Some(low) ==> !key_lt(entries[i].0@, low@)) && (end matches Some(high)
        ==> key_lt(entries[i].0@, high@))) by {
        if within.contains(entries[i]) {
            entries.lemma_filter_contains_rev(pred, entries[i]);
            let n = choose|n: int| 0 <= n < within.len() && within[n] == entries[i];
            entries.lemma_filter_pred(pred, n);
        }
        if pred(entries[i]) {
            entries.lemma_filter_contains(pred, i);
        }
    }
    assert forall|n: int| 0 <= n < within.len() implies entries.contains(#[trigger] within[n]) by {
        entries.lemma_filter_contains_rev(pred, within[n]);
    }
    reveal(Seq::filter);
    if entries.len() > 0 {
        let front = entries.drop_last();
        lemma_map_of_front(entries);
        law_range(front, start, end);
        let before = entries_within(front, start, end);
        assert forall|i: int, j: int| 0 <= i < j < within.len() implies key_lt(
            (#[trigger] within[i]).0@,
            (#[trigger] within[j]).0@,
        ) by {
            if j < before.len() {
                assert(within[i] == before[i] && within[j] == before[j]);
            } else {
                assert(within[i] == before[i]);
                assert(front.contains(before[i]));
                let n = choose|n: int| 0 <= n < front.len() && front[n] == before[i];
                assert(entries[n] == front[n]);
                assert(within[j] == entries[entries.len() - 1]);
            }
        }
    }
}

/// The references that a map hands out stand for its entries one by one.
pub proof fn law_entries_behind_references<const K: usize, T>(
    refs: Seq<(&[u8; K], &T)>,
    i: int,
)
    requires
        0 <= i < refs.len(),
    ensures
        entries_behind(refs).len() == refs.len(),
        entries_behind(refs)[i] == (*refs[i].0, *refs[i].1),
{
}

/// Of two entries, the earlier has the smaller byte where their keys first
/// differ.
pub proof fn law_lower_keys_come_first<const K: usize, T>(
    entries: Seq<([u8; K], T)>,
    i: int,
    j: int,
)
    requires
        ascending(entries),
        0 <= i < j < entries.len(),
    ensures
        exists|p: int|
            0 <= p < K && (forall|q: int| 0 <= q < p ==> entries[i].0@[q] == entries[j].0@[q])
                && #[trigger] entries[i].0@[p] < entries[j].0@[p],
{
    let a = entries[i].0@;
    let b = entries[j].0@;
    assert(key_lt(a, b));
    let p = choose|p: int|
        0 <= p < a.len() && p < b.len() && (forall|q: int| 0 <= q < p ==> a[q] == b[q])
            && #[trigger] a[p] < b[p];
    assert(entries[i].0@[p] < entries[j].0@[p]);
}

} // verus!
